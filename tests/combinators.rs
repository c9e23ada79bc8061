use tla_parser::{Error, Lexer, TokenType};

#[test]
fn combinators_skip() {
    let mut lx = Lexer::new("xyz");
    assert_eq!(lx.skip("x"), Ok(true));
    assert_eq!(lx.current_char(), "y"); // advance if match
    let mut lx = Lexer::new("abc");
    assert_eq!(lx.skip("x"), Ok(false));
    assert_eq!(lx.current_char(), "a"); // backtrack if no match

    let mut lx = Lexer::new("x");
    assert_eq!(lx.current_char(), "x");
    assert_eq!(lx.skip("x"), Ok(true));
    assert_eq!(lx.current_char(), "");
    assert_eq!(lx.skip("x"), Ok(false));
}

#[test]
fn combinators_skip_many() {
    let mut lx = Lexer::new("++++*");
    assert_eq!(lx.skip_many("+"), Ok(true));
    assert_eq!(lx.current_char(), "*");

    let mut lx = Lexer::new("++++");
    assert_eq!(lx.skip_many("+"), Ok(true));
    assert_eq!(lx.current_char(), "");
}

#[test]
fn combinators_skip_until() -> Result<(), Error> {
    let mut lx = Lexer::new("++++xyz");
    assert_eq!(lx.skip_until("xyz"), Ok(true));
    assert_eq!(lx.current_char(), "x");

    let mut lx = Lexer::new("");
    assert_eq!(lx.skip_until("xyz"), Ok(false));
    Ok(())
}

#[test]
fn combinators_line_comment() {
    let mut lx = Lexer::new("\\* hello world");
    assert_eq!(lx.line_comment(), Ok(true));
}

#[test]
fn combinators_block_comment() {
    let mut lx = Lexer::new("(* hello (*worl*)d*)");
    assert_eq!(lx.block_comment(), Ok(true));

    let mut lx = Lexer::new("(* hello (*world*)");
    assert_eq!(lx.block_comment(), Err(Error::UnclosedBlockComment));
}

#[test]
fn operator() {
    let mut lx = Lexer::new("\\/");
    let start = lx.pos();
    assert_eq!(lx.operator(), Ok(Some(TokenType::InfixOperator)));
    let end = lx.pos();
    assert_eq!(lx.substring(&start, &end), "\\/");

    let mut lx = Lexer::new("---+->");
    let start = lx.pos();
    assert_eq!(lx.operator(), Ok(Some(TokenType::InfixOperator)));
    let end = lx.pos();
    assert_eq!(lx.substring(&start, &end), "--");
    let start = lx.pos();
    assert_eq!(lx.operator(), Ok(Some(TokenType::InfixOperator)));
    let end = lx.pos();
    assert_eq!(lx.substring(&start, &end), "-+->");
}
