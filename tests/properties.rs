use tla_parser::cursor::next_position;
use tla_parser::{Error, Keyword, Lexer, LexerState, ParseTree, Pos, TokenType};

fn token_text<'a>(lx: &Lexer<'a>, tok: &(Pos, Pos, TokenType)) -> String {
    lx.substring(&tok.0, &tok.1).to_string()
}

#[test]
fn ident_accepts_letters_digits_underscores() {
    let mut lx = Lexer::new("x1_2");
    let start = lx.pos();
    assert_eq!(lx.ident(), Ok(true));
    let end = lx.pos();
    assert_eq!(lx.substring(&start, &end), "x1_2");
    assert_eq!(lx.current_char(), "");

    let mut lx = Lexer::new("_foo bar");
    let start = lx.pos();
    assert_eq!(lx.ident(), Ok(true));
    let end = lx.pos();
    assert_eq!(lx.substring(&start, &end), "_foo");
    assert_eq!(lx.current_char(), " ");
}

#[test]
fn ident_rejects_digit_start() {
    let mut lx = Lexer::new("1abc");
    let before = lx.pos();
    assert_eq!(lx.ident(), Ok(false));
    assert_eq!(lx.pos(), before);
    assert_eq!(lx.current_char(), "1");
}

#[test]
fn module_keyword_then_identifier() {
    let mut lx = Lexer::new("---- MODULE hello");
    assert_eq!(lx.next_token().unwrap().2, TokenType::Separator);
    let tok = lx.next_token().unwrap();
    assert_eq!(tok.2, TokenType::Keyword(Keyword::Module));
    assert_eq!(token_text(&lx, &tok), "MODULE");
    let tok = lx.next_token().unwrap();
    assert_eq!(tok.2, TokenType::Identifier);
    assert_eq!(token_text(&lx, &tok), "hello");
    assert_eq!(lx.next_token(), Err(Error::EndOfString));
}

#[test]
fn line_comment_spans_to_end_of_text() {
    let text = "---- \\* hello world";
    let mut lx = Lexer::new(text);
    assert_eq!(lx.next_token().unwrap().2, TokenType::Separator);
    let tok = lx.next_token().unwrap();
    assert_eq!(tok.2, TokenType::Comment);
    assert_eq!(tok.0.byte_offset, 5);
    assert_eq!(tok.1.byte_offset, text.len());
    assert_eq!(token_text(&lx, &tok), "\\* hello world");
}

#[test]
fn unclosed_nested_block_comment() {
    let mut lx = Lexer::new("---- (* hello (*world*)");
    assert_eq!(lx.next_token().unwrap().2, TokenType::Separator);
    assert_eq!(lx.next_token(), Err(Error::UnclosedBlockComment));
}

#[test]
fn block_comment_balanced_markers() {
    let mut lx = Lexer::new("(*(*(**)*)*)x");
    assert_eq!(lx.block_comment(), Ok(true));
    assert_eq!(lx.current_char(), "x");

    let mut lx = Lexer::new("(*(*(**)*)");
    assert_eq!(lx.block_comment(), Err(Error::UnclosedBlockComment));

    let mut lx = Lexer::new("(x");
    assert_eq!(lx.block_comment(), Ok(false));
    assert_eq!(lx.current_char(), "(");
}

#[test]
fn newline_moves_to_next_line() {
    let mut lx = Lexer::new("a\nb");
    assert_eq!((lx.pos().line, lx.pos().col), (1, 1));
    assert_eq!(lx.next_char(), Ok(true));
    assert_eq!(lx.current_char(), "\n");
    assert_eq!((lx.pos().line, lx.pos().col), (1, 2));
    assert_eq!(lx.next_char(), Ok(true));
    assert_eq!(lx.current_char(), "b");
    assert_eq!((lx.pos().line, lx.pos().col), (2, 1));

    let mut lx = Lexer::new("a\r\nb");
    assert_eq!(lx.next_char(), Ok(true));
    assert_eq!(lx.current_char(), "\r\n");
    assert_eq!(lx.next_char(), Ok(true));
    assert_eq!(lx.current_char(), "b");
    assert_eq!((lx.pos().line, lx.pos().col), (2, 1));
    assert_eq!(lx.pos().byte_offset, 3);
}

#[test]
fn tab_advances_four_columns() {
    let mut lx = Lexer::new("\tx");
    assert_eq!(lx.next_char(), Ok(true));
    assert_eq!(lx.current_char(), "x");
    assert_eq!(lx.pos().col, 5);
}

#[test]
fn end_of_text_is_stable() {
    let mut lx = Lexer::new("ab");
    assert_eq!(lx.next_char(), Ok(true));
    assert_eq!(lx.next_char(), Ok(false));
    let end = lx.pos();
    assert_eq!(end.byte_offset, 2);
    assert_eq!(end.char_size, 0);
    assert_eq!(end.col, 3);
    for _ in 0..3 {
        assert_eq!(lx.next_char(), Ok(false));
        assert_eq!(lx.pos(), end);
    }
}

#[test]
fn skip_is_all_or_nothing() {
    let mut lx = Lexer::new("abc");
    let before = lx.pos();
    assert_eq!(lx.skip("abd"), Ok(false));
    assert_eq!(lx.pos(), before);
    assert_eq!(lx.skip("abcd"), Ok(false));
    assert_eq!(lx.pos(), before);
    assert_eq!(lx.skip("ab"), Ok(true));
    assert_eq!(lx.current_char(), "c");
    assert_eq!(lx.pos().col, 3);
}

#[test]
fn skip_matches_whole_graphemes() {
    let mut lx = Lexer::new("e\u{301}x");
    assert_eq!(lx.current_char(), "e\u{301}");
    let before = lx.pos();
    assert_eq!(lx.skip("e"), Ok(false));
    assert_eq!(lx.pos(), before);
    assert_eq!(lx.skip("e\u{301}"), Ok(true));
    assert_eq!(lx.current_char(), "x");
    assert_eq!(lx.pos().byte_offset, 3);
    assert_eq!(lx.pos().col, 2);

    let mut lx = Lexer::new("ex");
    assert_eq!(lx.skip("e\u{301}"), Ok(false));
    assert_eq!(lx.current_char(), "e");

    let mut lx = Lexer::new("a\r\nb");
    assert_eq!(lx.skip("a\r"), Ok(false));
    assert_eq!(lx.skip("a\r\n"), Ok(true));
    assert_eq!(lx.current_char(), "b");
}

#[test]
fn line_comment_stops_before_crlf() {
    let mut lx = Lexer::new("\\* a\r\nb");
    assert_eq!(lx.line_comment(), Ok(true));
    assert_eq!(lx.pos().byte_offset, 4);
    assert_eq!(lx.current_char(), "\r\n");

    let mut lx = Lexer::new("---- \\* a\r\n  b");
    assert_eq!(lx.next_token().unwrap().2, TokenType::Separator);
    let tok = lx.next_token().unwrap();
    assert_eq!(tok.2, TokenType::Comment);
    assert_eq!(token_text(&lx, &tok), "\\* a");
    let tok = lx.next_token().unwrap();
    assert_eq!(tok.2, TokenType::Indent);
    assert_eq!((tok.0.line, tok.0.col), (2, 1));
    assert_eq!(token_text(&lx, &tok), "  ");
    assert_eq!(lx.next_token().unwrap().2, TokenType::Identifier);
    assert_eq!(lx.next_token(), Err(Error::EndOfString));
}

#[test]
fn skip_many_empty_literal_stops() {
    let mut lx = Lexer::new("abc");
    let before = lx.pos();
    assert_eq!(lx.skip_many(""), Ok(true));
    assert_eq!(lx.pos(), before);
}

#[test]
fn operator_longest_match() {
    let cases = [
        ("<=>", "<=>"),
        ("<=x", "<="),
        ("\\in", "\\in"),
        ("\\inx", "\\in"),
        ("-+-x", "-"),
        ("...", "..."),
        ("::=", "::="),
    ];
    for (text, expected) in cases {
        let mut lx = Lexer::new(text);
        let start = lx.pos();
        assert!(lx.operator().unwrap().is_some(), "{}", text);
        let end = lx.pos();
        assert_eq!(lx.substring(&start, &end), expected);
    }
    let mut lx = Lexer::new("a+");
    let before = lx.pos();
    assert_eq!(lx.operator(), Ok(None));
    assert_eq!(lx.pos(), before);
    let mut lx = Lexer::new("'");
    assert_eq!(lx.operator(), Ok(Some(TokenType::PostfixOperator)));
    let mut lx = Lexer::new("~x");
    assert_eq!(lx.operator(), Ok(Some(TokenType::PrefixOperator)));
}

#[test]
fn indent_after_newline() {
    let mut lx = Lexer::new("----\n  x");
    assert_eq!(lx.next_token().unwrap().2, TokenType::Separator);
    let tok = lx.next_token().unwrap();
    assert_eq!(tok.2, TokenType::Indent);
    assert_eq!((tok.0.byte_offset, tok.1.byte_offset), (5, 7));
    assert_eq!((tok.0.line, tok.0.col), (2, 1));
    assert_eq!((tok.1.line, tok.1.col), (2, 3));
    let tok = lx.next_token().unwrap();
    assert_eq!(tok.2, TokenType::Identifier);
}

#[test]
fn keywords_wildcard_and_parens() {
    let mut lx = Lexer::new("junk ---- EXTENDS _ foo (a");
    assert_eq!(lx.state(), LexerState::BeforeModuleHeader);
    let tok = lx.next_token().unwrap();
    assert_eq!(tok.2, TokenType::Separator);
    assert_eq!(tok.0.byte_offset, 5);
    assert_eq!(lx.state(), LexerState::ModuleBody);
    assert_eq!(lx.next_token().unwrap().2, TokenType::Keyword(Keyword::Extends));
    assert_eq!(lx.next_token().unwrap().2, TokenType::Wildcard);
    assert_eq!(lx.next_token().unwrap().2, TokenType::Identifier);
    let tok = lx.next_token().unwrap();
    assert_eq!(tok.2, TokenType::ParenOpen);
    assert_eq!(token_text(&lx, &tok), "(");
    assert_eq!(lx.next_token().unwrap().2, TokenType::Identifier);
    assert_eq!(lx.next_token(), Err(Error::EndOfString));
}

#[test]
fn operators_in_module_body() {
    let mut lx = Lexer::new("---- -+-> \\/ -- \\x ---");
    assert_eq!(lx.next_token().unwrap().2, TokenType::Separator);
    for expected in ["-+->", "\\/", "--", "\\"] {
        let tok = lx.next_token().unwrap();
        assert_eq!(tok.2, TokenType::InfixOperator);
        assert_eq!(token_text(&lx, &tok), expected);
    }
    assert_eq!(lx.next_token().unwrap().2, TokenType::Identifier);
    let tok = lx.next_token().unwrap();
    assert_eq!(token_text(&lx, &tok), "--");
    let tok = lx.next_token().unwrap();
    assert_eq!(token_text(&lx, &tok), "-");
    assert_eq!(lx.next_token(), Err(Error::EndOfString));
}

#[test]
fn unknown_text_is_not_recognized() {
    let mut lx = Lexer::new("---- 1");
    assert_eq!(lx.next_token().unwrap().2, TokenType::Separator);
    assert_eq!(lx.next_token(), Err(Error::NotRecognized));
    let mut lx = Lexer::new("---- \\*x\ny");
    assert_eq!(lx.next_token().unwrap().2, TokenType::Separator);
    let tok = lx.next_token().unwrap();
    assert_eq!(tok.2, TokenType::Comment);
    assert_eq!(token_text(&lx, &tok), "\\*x");
    assert_eq!(lx.next_token().unwrap().2, TokenType::Indent);
}

#[test]
fn snapshots_restore_and_drop() {
    let mut lx = Lexer::new("abc");
    let start = lx.pos();
    lx.save_snapshot();
    assert_eq!(lx.next_char(), Ok(true));
    lx.restore_snapshot();
    assert_eq!(lx.pos(), start);
    lx.save_snapshot();
    assert_eq!(lx.next_char(), Ok(true));
    let moved = lx.pos();
    lx.drop_snapshot();
    assert_eq!(lx.pos(), moved);
    assert_eq!(lx.current_char(), "b");
}

#[test]
fn style_by_line() {
    let tree = ParseTree;
    assert_eq!(tree.get_style(2, 0), Some("keyword".to_string()));
    assert_eq!(tree.get_style(1, 7), Some("comment".to_string()));
    assert_eq!(tree.get_style(3, 0), Some("comment".to_string()));
}

#[test]
fn next_position_follows_departed_grapheme() {
    let text = "a\tb\r\nc".as_bytes();
    let at_tab = Pos { line: 1, col: 2, byte_offset: 1, char_size: 1 };
    let (q, r) = next_position(text, at_tab, Ok(Some(3)));
    assert_eq!(r, Ok(true));
    assert_eq!(q, Pos { line: 1, col: 6, byte_offset: 2, char_size: 1 });
    let at_crlf = Pos { line: 1, col: 7, byte_offset: 3, char_size: 2 };
    let (q, r) = next_position(text, at_crlf, Ok(Some(6)));
    assert_eq!(r, Ok(true));
    assert_eq!(q, Pos { line: 2, col: 1, byte_offset: 5, char_size: 1 });
    let at_end = Pos { line: 2, col: 2, byte_offset: 6, char_size: 0 };
    let (q, r) = next_position(text, at_end, Ok(None));
    assert_eq!(r, Ok(false));
    assert_eq!(q, at_end);
    let (q, r) = next_position(text, at_tab, Err(()));
    assert_eq!(r, Err(Error::MalformedGrapheme));
    assert_eq!(q, Pos { line: 1, col: 6, byte_offset: 2, char_size: 0 });
    let (q, r) = next_position(text, at_tab, Ok(Some(99)));
    assert_eq!(r, Ok(false));
    assert_eq!(q.char_size, 0);
}
