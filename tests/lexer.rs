use tla_parser::{Error, Lexer, TokenType};

#[test]
fn lexer_next_char() {
    let mut lx = Lexer::new("");
    assert_eq!(lx.current_char(), "");
    assert_eq!(lx.next_char(), Ok(false));
    let eos_pos = lx.pos();
    assert_eq!(lx.next_char(), Ok(false)); // idempotent
    assert_eq!(lx.pos(), eos_pos); // position does not change

    let mut lx = Lexer::new("x");
    assert_eq!(lx.current_char(), "x");
    assert_eq!(lx.next_char(), Ok(false));
    assert_eq!(lx.current_char(), "");
    assert_eq!(lx.next_char(), Ok(false));
}

#[test]
fn lexer_skip() {
    let mut lx = Lexer::new("xyz");
    assert_eq!(lx.skip("x"), Ok(true));
    assert_eq!(lx.current_char(), "y"); // advance if match
    let mut lx = Lexer::new("abc");
    assert_eq!(lx.skip("x"), Ok(false));
    assert_eq!(lx.current_char(), "a"); // backtrack if no match

    let mut lx = Lexer::new("x");
    assert_eq!(lx.current_char(), "x");
    assert_eq!(lx.skip("x"), Ok(true));
    assert_eq!(lx.current_char(), "");
    assert_eq!(lx.skip("x"), Ok(false));
}

#[test]
fn lexer_skip_many() {
    let mut lx = Lexer::new("++++*");
    assert_eq!(lx.skip_many("+"), Ok(true));
    assert_eq!(lx.current_char(), "*");

    let mut lx = Lexer::new("++++");
    assert_eq!(lx.skip_many("+"), Ok(true));
    assert_eq!(lx.current_char(), "");
}

#[test]
fn lexer_skip_until() -> Result<(), Error> {
    let mut lx = Lexer::new("++++xyz");
    assert_eq!(lx.skip_until("xyz"), Ok(true));
    assert_eq!(lx.current_char(), "x");

    let mut lx = Lexer::new("");
    assert_eq!(lx.skip_until("xyz"), Ok(false));
    Ok(())
}

#[test]
fn module_header() -> Result<(), Error> {
    let mut lx = Lexer::new("");
    assert_eq!(lx.next_token(), Err(Error::EndOfString));
    let mut lx = Lexer::new(" --- ");
    assert_eq!(lx.next_token(), Err(Error::EndOfString));

    let mut lx = Lexer::new("----");
    assert_eq!(lx.next_token()?.2, TokenType::Separator);
    assert_eq!(lx.next_token(), Err(Error::EndOfString));
    let mut lx = Lexer::new("------------");
    assert_eq!(lx.next_token()?.2, TokenType::Separator);
    assert_eq!(lx.next_token(), Err(Error::EndOfString));
    Ok(())
}

#[test]
fn lexer_line_comment() -> Result<(), Error> {
    let mut lx = Lexer::new("---- \\* hello world");
    assert_eq!(lx.next_token()?.2, TokenType::Separator);
    assert_eq!(lx.next_token()?.2, TokenType::Comment);
    assert_eq!(lx.next_token(), Err(Error::EndOfString));
    Ok(())
}

#[test]
fn lexer_block_comment() -> Result<(), Error> {
    let mut lx = Lexer::new("---- (* hello (*worl*)d*)");
    assert_eq!(lx.next_token()?.2, TokenType::Separator);
    assert_eq!(lx.next_token()?.2, TokenType::Comment);
    assert_eq!(lx.next_token(), Err(Error::EndOfString));

    let mut lx = Lexer::new("---- (* hello (*world*)");
    assert_eq!(lx.next_token()?.2, TokenType::Separator);
    assert_eq!(lx.next_token(), Err(Error::UnclosedBlockComment));
    Ok(())
}

#[test]
fn base_next_char() {
    let mut lx = Lexer::new("");
    assert_eq!(lx.current_char(), "");
    assert_eq!(lx.next_char(), Ok(false));
    let eos_pos = lx.pos();
    assert_eq!(lx.next_char(), Ok(false)); // idempotent
    assert_eq!(lx.pos(), eos_pos); // position does not change

    let mut lx = Lexer::new("x");
    assert_eq!(lx.current_char(), "x");
    assert_eq!(lx.next_char(), Ok(false));
    assert_eq!(lx.current_char(), "");
    assert_eq!(lx.next_char(), Ok(false));
}
