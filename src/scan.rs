//! What each combinator of the lexer does, stated over the text's bytes and
//! a position.
use vstd::prelude::*;
use vstd::utf8::*;
use vstd::string::*;
use crate::cursor::{Pos, advance, grapheme, left};
use crate::lexer::Error;
use crate::cursor::is_newline;
use crate::lexer::LexerState;
use crate::token::{TokenType, extendable, keyword_table, lookup, operator_table};

verus! {

/// A space or a tab.
pub open spec fn is_blank(g: Seq<u8>) -> bool {
    g == seq![32u8] || g == seq![9u8]
}

/// Steps over spaces and tabs from `p`; stops at the first other grapheme,
/// or where a step fails to reach a grapheme.
pub open spec fn skip_blanks(b: Seq<u8>, p: Pos) -> (Pos, Result<bool, Error>)
    decreases left(b, p),
{
    if !is_blank(grapheme(b, p)) {
        (p, Ok(true))
    } else {
        let (q, r) = advance(b, p);
        if r == Ok::<bool, Error>(true) {
            skip_blanks(b, q)
        } else {
            (q, r)
        }
    }
}

/// `needle` occurs in `b` at byte `off`.
pub open spec fn occurs_at(b: Seq<u8>, off: int, needle: Seq<u8>) -> bool {
    0 <= off && off + needle.len() <= b.len() && b.subrange(off, off + needle.len()) == needle
}

/// Steps from `p` until the text from the cursor on starts with `needle`
/// (`Ok(true)`), or a step fails to reach a grapheme.
pub open spec fn seek(b: Seq<u8>, p: Pos, needle: Seq<u8>) -> (Pos, Result<bool, Error>)
    decreases left(b, p),
{
    if occurs_at(b, p.byte_offset as int, needle) {
        (p, Ok(true))
    } else {
        let (q, r) = advance(b, p);
        if r == Ok::<bool, Error>(true) {
            seek(b, q, needle)
        } else {
            (q, r)
        }
    }
}

/// The graphemes from `p` on spell out the bytes of `lit`, grapheme by
/// grapheme, with the last one ending where `lit` ends: the position after
/// them, `Ok(None)` where a grapheme differs or reaches past `lit`, or the
/// error of a failed step.
pub open spec fn match_literal(b: Seq<u8>, p: Pos, lit: Seq<u8>) -> Result<Option<Pos>, Error>
    decreases lit.len(),
{
    if lit.len() == 0 {
        Ok(Some(p))
    } else {
        let g = grapheme(b, p);
        if g.len() == 0 || g.len() > lit.len() || lit.subrange(0, g.len() as int) != g {
            Ok(None)
        } else {
            let (q, r) = advance(b, p);
            match r {
                Err(e) => Err(e),
                Ok(_) => match_literal(b, q, lit.subrange(g.len() as int, lit.len() as int)),
            }
        }
    }
}

/// The bytes of the comment markers.
pub proof fn lemma_marker_bytes()
    ensures
        "(*".spec_bytes() == seq![40u8, 42u8],
        "*)".spec_bytes() == seq![42u8, 41u8],
{
    reveal_strlit("(*");
    reveal_strlit("*)");
    assert(is_ascii_chars("(*"@));
    assert(is_ascii_chars("*)"@));
    is_ascii_chars_encode_utf8("(*"@);
    is_ascii_chars_encode_utf8("*)"@);
    assert("(*".spec_bytes() =~= seq![40u8, 42u8]);
    assert("*)".spec_bytes() =~= seq![42u8, 41u8]);
}

/// The position after `n` steps from `p`.
pub open spec fn steps(b: Seq<u8>, p: Pos, n: nat) -> Pos
    decreases n,
{
    if n == 0 {
        p
    } else {
        steps(b, advance(b, p).0, (n - 1) as nat)
    }
}

/// `skip`: the literal's graphemes are consumed, or the cursor stays.
pub open spec fn skip_spec(b: Seq<u8>, p: Pos, lit: Seq<u8>) -> (Pos, Result<bool, Error>) {
    match match_literal(b, p, lit) {
        Ok(Some(q)) => (q, Ok(true)),
        Ok(None) => (p, Ok(false)),
        Err(e) => (p, Err(e)),
    }
}

/// `skip_many`: `skip` again and again until it does not match; an empty
/// literal matches once at most.
pub open spec fn skip_many_spec(b: Seq<u8>, p: Pos, lit: Seq<u8>) -> (Pos, Result<bool, Error>)
    decreases left(b, p)
        when b.len() <= usize::MAX
{
    if lit.len() == 0 {
        (p, Ok(true))
    } else {
        match match_literal(b, p, lit) {
            Ok(Some(q)) => {
                proof {
                    lemma_match_literal_progress(b, p, lit);
                }
                skip_many_spec(b, q, lit)
            },
            Ok(None) => (p, Ok(true)),
            Err(e) => (p, Err(e)),
        }
    }
}

/// Each of the first `n` steps from `p` reaches a grapheme.
pub open spec fn steps_succeed(b: Seq<u8>, p: Pos, n: nat) -> bool
    decreases n,
{
    n == 0 || (advance(b, p).1 == Ok::<bool, Error>(true) && steps_succeed(
        b,
        advance(b, p).0,
        (n - 1) as nat,
    ))
}

/// An ASCII letter or an underscore.
pub open spec fn is_ident_start_byte(c: u8) -> bool {
    (65 <= c <= 90) || (97 <= c <= 122) || c == 95
}

/// An ASCII letter, digit or underscore.
pub open spec fn is_ident_byte(c: u8) -> bool {
    is_ident_start_byte(c) || (48 <= c <= 57)
}

/// A grapheme that can start an identifier.
pub open spec fn is_ident_start(g: Seq<u8>) -> bool {
    g.len() > 0 && forall|i: int| 0 <= i < g.len() ==> is_ident_start_byte(#[trigger] g[i])
}

/// A grapheme that can continue an identifier.
pub open spec fn is_ident_rest(g: Seq<u8>) -> bool {
    g.len() > 0 && forall|i: int| 0 <= i < g.len() ==> is_ident_byte(#[trigger] g[i])
}

/// Steps past the grapheme at `p` and on over identifier graphemes.
pub open spec fn scan_ident(b: Seq<u8>, p: Pos) -> (Pos, Result<bool, Error>)
    decreases left(b, p),
{
    let (q, r) = advance(b, p);
    if r is Err {
        (q, r)
    } else if r == Ok::<bool, Error>(true) && is_ident_rest(grapheme(b, q)) {
        scan_ident(b, q)
    } else {
        (q, Ok(true))
    }
}

/// `ident`: an identifier start and the longest run of identifier graphemes
/// after it, or the cursor stays.
pub open spec fn ident_spec(b: Seq<u8>, p: Pos) -> (Pos, Result<bool, Error>) {
    if !is_ident_start(grapheme(b, p)) {
        (p, Ok(false))
    } else {
        let (q, r) = scan_ident(b, p);
        match r {
            Err(e) => (p, Err(e)),
            Ok(_) => (q, Ok(true)),
        }
    }
}

/// Steps from `p` up to the next line break (a line feed, or a carriage
/// return and a line feed) or the end of the text, without taking the break.
pub open spec fn rest_of_line(b: Seq<u8>, p: Pos) -> (Pos, Result<bool, Error>)
    decreases left(b, p),
{
    let g = grapheme(b, p);
    if g.len() == 0 || is_newline(g) {
        (p, Ok(true))
    } else {
        let (q, r) = advance(b, p);
        if r == Ok::<bool, Error>(true) {
            rest_of_line(b, q)
        } else {
            (q, r)
        }
    }
}

/// `line_comment`: the marker, then everything up to the next line break or
/// the end of the text.
pub open spec fn line_comment_spec(b: Seq<u8>, p: Pos) -> (Pos, Result<bool, Error>) {
    match match_literal(b, p, "\\*".spec_bytes()) {
        Ok(Some(q)) => {
            let (s, r) = rest_of_line(b, q);
            match r {
                Ok(_) => (s, Ok(true)),
                Err(e) => (s, Err(e)),
            }
        },
        Ok(None) => (p, Ok(false)),
        Err(e) => (p, Err(e)),
    }
}

/// A literal match that succeeds moves the cursor by the literal's length,
/// and the text it moves over is the literal.
pub proof fn lemma_match_literal_bytes(b: Seq<u8>, p: Pos, lit: Seq<u8>)
    requires
        b.len() <= usize::MAX,
        p.byte_offset <= b.len(),
        match_literal(b, p, lit) is Ok,
        match_literal(b, p, lit)->Ok_0 is Some,
    ensures
        ({
            let q = match_literal(b, p, lit)->Ok_0->Some_0;
            &&& q.byte_offset == p.byte_offset + lit.len()
            &&& q.byte_offset <= b.len()
            &&& b.subrange(p.byte_offset as int, q.byte_offset as int) == lit
            &&& 0 <= left(b, q) <= left(b, p)
            &&& lit.len() > 0 ==> left(b, q) < left(b, p)
        }),
    decreases lit.len(),
{
    if lit.len() == 0 {
        assert(b.subrange(p.byte_offset as int, p.byte_offset as int) =~= lit);
    } else {
        let g = grapheme(b, p);
        let (q1, r) = advance(b, p);
        let rest = lit.subrange(g.len() as int, lit.len() as int);
        assert(p.byte_offset + p.char_size <= b.len() && p.char_size > 0);
        assert(q1.byte_offset == p.byte_offset + p.char_size);
        lemma_match_literal_bytes(b, q1, rest);
        let q = match_literal(b, p, lit)->Ok_0->Some_0;
        assert(b.subrange(p.byte_offset as int, q.byte_offset as int) =~= g + rest);
        assert(lit =~= lit.subrange(0, g.len() as int) + rest);
    }
}

/// A literal match that succeeds moves the cursor forward.
pub proof fn lemma_match_literal_progress(b: Seq<u8>, p: Pos, lit: Seq<u8>)
    requires
        b.len() <= usize::MAX,
        lit.len() > 0,
        match_literal(b, p, lit) matches Ok(Some(q)),
    ensures
        match_literal(b, p, lit) matches Ok(Some(q)) && 0 <= left(b, q) < left(b, p)
            && q.byte_offset > p.byte_offset,
{
    let g = grapheme(b, p);
    assert(p.byte_offset + p.char_size <= b.len() && p.char_size > 0);
    lemma_match_literal_bytes(b, p, lit);
}

/// The body of a block comment at nesting `depth`: an opening marker goes one
/// level deeper, a closing one a level out, anything else is stepped over.
pub open spec fn comment_body(b: Seq<u8>, p: Pos, depth: nat) -> (Pos, Result<bool, Error>)
    decreases left(b, p)
        when b.len() <= usize::MAX

{
    if depth == 0 {
        (p, Ok(true))
    } else {
        match match_literal(b, p, "(*".spec_bytes()) {
            Err(e) => (p, Err(e)),
            Ok(Some(q)) => {
                proof {
                    lemma_marker_bytes();
                    lemma_match_literal_progress(b, p, "(*".spec_bytes());
                }
                comment_body(b, q, depth + 1)
            },
            Ok(None) => match match_literal(b, p, "*)".spec_bytes()) {
                Err(e) => (p, Err(e)),
                Ok(Some(q)) => {
                    proof {
                        lemma_marker_bytes();
                        lemma_match_literal_progress(b, p, "*)".spec_bytes());
                    }
                    comment_body(b, q, (depth - 1) as nat)
                },
                Ok(None) => {
                    let (q, r) = advance(b, p);
                    match r {
                        Ok(true) => comment_body(b, q, depth),
                        Ok(false) => (q, Err(Error::UnclosedBlockComment)),
                        Err(e) => (q, Err(e)),
                    }
                },
            },
        }
    }
}

/// `block_comment`: an opening marker and a body that closes it, or the
/// cursor stays.
pub open spec fn block_comment_spec(b: Seq<u8>, p: Pos) -> (Pos, Result<bool, Error>) {
    match match_literal(b, p, "(*".spec_bytes()) {
        Ok(Some(q)) => comment_body(b, q, 1),
        Ok(None) => (p, Ok(false)),
        Err(e) => (p, Err(e)),
    }
}

/// The operator text that starts at byte `from` and ends with the grapheme at `q`.
pub open spec fn candidate(b: Seq<u8>, from: int, q: Pos) -> Seq<u8> {
    b.subrange(from, q.byte_offset + q.char_size)
}

/// Scans an operator that starts at byte `from`, now at the grapheme at `q`:
/// `best` holds the kind of the longest table entry found so far and the
/// position of its last grapheme. The scan goes on while a longer entry may
/// still match.
pub open spec fn scan_operator(b: Seq<u8>, from: int, q: Pos, best: Option<(TokenType, Pos)>) -> Result<
    Option<(TokenType, Pos)>,
    Error,
>
    decreases left(b, q),
{
    if q.char_size == 0 {
        Ok(best)
    } else {
        let cand = candidate(b, from, q);
        let best = match lookup(operator_table(), cand) {
            Some(k) => Some((k, q)),
            None => best,
        };
        if !extendable(operator_table(), cand) {
            Ok(best)
        } else {
            let (q2, r) = advance(b, q);
            match r {
                Ok(true) => scan_operator(b, from, q2, best),
                Ok(false) => Ok(best),
                Err(e) => Err(e),
            }
        }
    }
}

/// `operator`: the longest operator at the cursor and the position after it,
/// or the cursor stays.
pub open spec fn operator_spec(b: Seq<u8>, p: Pos) -> (Pos, Result<Option<TokenType>, Error>) {
    match scan_operator(b, p.byte_offset as int, p, None) {
        Err(e) => (p, Err(e)),
        Ok(None) => (p, Ok(None)),
        Ok(Some((k, last))) => {
            let (q, r) = advance(b, last);
            match r {
                Err(e) => (p, Err(e)),
                Ok(_) => (q, Ok(Some(k))),
            }
        },
    }
}

/// A token: where it starts, where it ends, and its class.
pub type Token = (Pos, Pos, TokenType);

/// An operator token from `p`, or `NotRecognized` where none matches.
pub open spec fn operator_token(b: Seq<u8>, p: Pos) -> (Pos, Result<Token, Error>) {
    let (q, r) = operator_spec(b, p);
    match r {
        Ok(Some(k)) => (q, Ok((p, q, k))),
        Ok(None) => (q, Err(Error::NotRecognized)),
        Err(e) => (q, Err(e)),
    }
}

/// The class of the identifier `name`: a keyword, the wildcard, or a plain
/// identifier.
pub open spec fn word_kind(name: Seq<u8>) -> TokenType {
    match lookup(keyword_table(), name) {
        Some(k) => k,
        None => TokenType::Identifier,
    }
}

/// The token at `p` in the module body, chosen by the grapheme there; `p` is
/// not at a space or a tab.
pub open spec fn token_at(b: Seq<u8>, p: Pos) -> (Pos, Result<Token, Error>) {
    let g = grapheme(b, p);
    if g.len() == 0 {
        (p, Err(Error::EndOfString))
    } else if is_newline(g) {
        let (q, r) = advance(b, p);
        match r {
            Err(e) => (q, Err(e)),
            Ok(_) => {
                let (s, r2) = skip_blanks(b, q);
                match r2 {
                    Err(e) => (s, Err(e)),
                    Ok(_) => (s, Ok((q, s, TokenType::Indent))),
                }
            },
        }
    } else if g == seq![45u8] {
        let (q, r) = skip_spec(b, p, "----".spec_bytes());
        match r {
            Ok(true) => {
                let (s, r2) = skip_many_spec(b, q, "-".spec_bytes());
                match r2 {
                    Ok(_) => (s, Ok((p, s, TokenType::Separator))),
                    Err(e) => (s, Err(e)),
                }
            },
            Ok(false) => operator_token(b, p),
            Err(e) => (q, Err(e)),
        }
    } else if g == seq![92u8] {
        let (q, r) = line_comment_spec(b, p);
        match r {
            Ok(true) => (q, Ok((p, q, TokenType::Comment))),
            Ok(false) => operator_token(b, p),
            Err(e) => (q, Err(e)),
        }
    } else if g == seq![40u8] {
        let (q, r) = block_comment_spec(b, p);
        match r {
            Ok(true) => (q, Ok((p, q, TokenType::Comment))),
            Ok(false) => {
                let (s, r2) = advance(b, p);
                match r2 {
                    Err(e) => (s, Err(e)),
                    Ok(_) => (s, Ok((p, s, TokenType::ParenOpen))),
                }
            },
            Err(e) => (q, Err(e)),
        }
    } else {
        let (q, r) = ident_spec(b, p);
        match r {
            Ok(true) => (
                q,
                Ok((p, q, word_kind(b.subrange(p.byte_offset as int, q.byte_offset as int)))),
            ),
            Ok(false) => (q, Err(Error::NotRecognized)),
            Err(e) => (q, Err(e)),
        }
    }
}

/// The next token of the module body from `p`: spaces and tabs are skipped
/// first.
pub open spec fn body_token(b: Seq<u8>, p: Pos) -> (Pos, Result<Token, Error>) {
    if is_blank(grapheme(b, p)) {
        let (q, r) = skip_blanks(b, p);
        match r {
            Err(e) => (q, Err(e)),
            Ok(_) => token_at(b, q),
        }
    } else {
        token_at(b, p)
    }
}

/// `next_token`: before the module header everything up to the first
/// `----` is skipped and the state moves to the module body; the token is
/// then the next one of the body.
pub open spec fn next_token_spec(b: Seq<u8>, st: LexerState, p: Pos) -> (
    LexerState,
    Pos,
    Result<Token, Error>,
) {
    match st {
        LexerState::BeforeModuleHeader => {
            let (q, r) = seek(b, p, "----".spec_bytes());
            match r {
                Ok(true) => {
                    let (s, t) = body_token(b, q);
                    (LexerState::ModuleBody, s, t)
                },
                Ok(false) => (st, q, Err(Error::EndOfString)),
                Err(e) => (st, q, Err(e)),
            }
        },
        LexerState::ModuleBody => {
            let (s, t) = body_token(b, p);
            (st, s, t)
        },
    }
}

} // verus!
