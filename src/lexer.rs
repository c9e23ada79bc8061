//! The lexer: a cursor over a text, a stack of saved positions, the
//! combinators built on them, and the tokenizer.
use vstd::prelude::*;
use vstd::utf8::*;
use vstd::string::*;
use crate::cursor::{
    Pos, advance, grapheme, grapheme_is, grapheme_is_crlf, is_newline, left, next_boundary,
    next_position, slice_between, starts_at, text_fits, valid_pos,
};
use crate::scan::{
    Token, block_comment_spec, candidate, comment_body, ident_spec, is_ident_byte, is_ident_rest,
    is_ident_start, is_ident_start_byte, lemma_marker_bytes, lemma_match_literal_bytes,
    lemma_match_literal_progress, line_comment_spec, match_literal, next_token_spec, operator_spec,
    rest_of_line, scan_ident, scan_operator, seek, skip_blanks, skip_many_spec, skip_spec, token_at,
};
use crate::token::{
    TokenType, bytes_eq, find_entry, has_extension, keywords, lemma_keyword_table_sorted,
    operator_table, operators, search_sorted,
};

verus! {

broadcast use encode_utf8_valid_utf8;

/// Where the lexer is in a module.
#[derive(Debug, Clone, Copy, PartialEq, Eq, Structural)]
pub enum LexerState {
    /// Text before the module header, which is skipped.
    BeforeModuleHeader,
    /// The module itself.
    ModuleBody,
}

/// Why no token could be produced.
#[derive(Debug, Clone, Copy, PartialEq, Eq, Structural)]
pub enum Error {
    /// The text ended before a token could be formed.
    EndOfString,
    /// The text could not be segmented into graphemes.
    MalformedGrapheme,
    /// A block comment was still open at the end of the text.
    UnclosedBlockComment,
    /// The text at the cursor has no known token shape.
    NotRecognized,
}

#[derive(Clone, Copy)]
struct LexSnapshot {
    state: LexerState,
    pos: Pos,
}

/// A grapheme-aware lexer over a borrowed text.
pub struct Lexer<'a> {
    text: &'a str,
    state: LexerState,
    pos: Pos,
    snapshots: Vec<LexSnapshot>,
}

/// The position a lexer starts from, before the first grapheme.
pub open spec fn start_pos() -> Pos {
    Pos { line: 1, col: 1, byte_offset: 0, char_size: 0 }
}

impl<'a> Lexer<'a> {
    /// The UTF-8 bytes of the text.
    pub closed spec fn text_bytes(&self) -> Seq<u8> {
        self.text.spec_bytes()
    }

    /// The current position.
    pub closed spec fn position(&self) -> Pos {
        self.pos
    }

    /// The current state.
    pub closed spec fn lexer_state(&self) -> LexerState {
        self.state
    }

    /// The saved positions and states, oldest first.
    pub closed spec fn saved(&self) -> Seq<(Pos, LexerState)> {
        self.snapshots@.map_values(|s: LexSnapshot| (s.pos, s.state))
    }

    /// The current and every saved position are valid in the text.
    pub closed spec fn wf(&self) -> bool {
        &&& text_fits(self.text.spec_bytes())
        &&& valid_pos(self.text.spec_bytes(), self.pos)
        &&& forall|i: int|
            0 <= i < self.snapshots@.len() ==> valid_pos(
                self.text.spec_bytes(),
                #[trigger] self.snapshots@[i].pos,
            )
    }

    /// What a well-formed lexer guarantees of its text and positions: the
    /// text is valid UTF-8 and short enough for columns, and the current and
    /// every saved position are valid in it.
    pub proof fn lemma_wf(&self)
        requires
            self.wf(),
        ensures
            text_fits(self.text_bytes()),
            self.text_bytes().len() < usize::MAX,
            valid_utf8(self.text_bytes()),
            valid_pos(self.text_bytes(), self.position()),
            forall|i: int|
                0 <= i < self.saved().len() ==> valid_pos(self.text_bytes(), #[trigger] self.saved()[i].0),
    {
        assert forall|i: int| 0 <= i < self.saved().len() implies valid_pos(
            self.text_bytes(),
            #[trigger] self.saved()[i].0,
        ) by {
            assert(self.saved()[i].0 == self.snapshots@[i].pos);
        }
    }

    /// The same text, state and saved positions as `other`.
    pub open spec fn same_but_position(&self, other: &Self) -> bool {
        &&& self.text_bytes() == other.text_bytes()
        &&& self.lexer_state() == other.lexer_state()
        &&& self.saved() == other.saved()
    }

    /// Starts a lexer at the first grapheme of `s`, before the module header.
    pub fn new(s: &'a str) -> (r: Self)
        requires
            text_fits(s.spec_bytes()),
        ensures
            r.wf(),
            r.text_bytes() == s.spec_bytes(),
            r.lexer_state() == LexerState::BeforeModuleHeader,
            r.saved() == Seq::<(Pos, LexerState)>::empty(),
            r.position() == advance(s.spec_bytes(), start_pos()).0,
    {
        let mut lex = Lexer {
            text: s,
            state: LexerState::BeforeModuleHeader,
            pos: Pos { line: 1, col: 1, byte_offset: 0, char_size: 0 },
            snapshots: Vec::new(),
        };
        proof {
            assert(lex.saved() =~= Seq::<(Pos, LexerState)>::empty());
            assert(valid_utf8(s.spec_bytes()));
            assert(is_char_boundary(s.spec_bytes(), 0));
            assert(text_fits(s.spec_bytes()));
            assert(valid_pos(s.spec_bytes(), lex.pos));
        }
        let _ = lex.next_char();
        lex
    }

    /// Whether the grapheme at the cursor is the single byte `c`.
    fn current_is(&self, c: u8) -> (r: bool)
        requires
            self.wf(),
        ensures
            r == (grapheme(self.text_bytes(), self.position()) == seq![c]),
    {
        grapheme_is(self.text.as_bytes(), self.pos, c)
    }

    /// The grapheme at the cursor; empty before the first grapheme, at the
    /// end of the text and at a grapheme that could not be segmented.
    pub fn current_char(&self) -> (r: &str)
        requires
            self.wf(),
        ensures
            r.spec_bytes() == grapheme(self.text_bytes(), self.position()),
    {
        slice_between(self.text, self.pos.byte_offset, self.pos.byte_offset + self.pos.char_size)
    }

    /// The text from `start` up to `end`.
    pub fn substring(&self, start: &Pos, end: &Pos) -> (r: &str)
        requires
            self.wf(),
            start.byte_offset <= end.byte_offset <= self.text_bytes().len(),
            is_char_boundary(self.text_bytes(), start.byte_offset as int),
            is_char_boundary(self.text_bytes(), end.byte_offset as int),
        ensures
            r.spec_bytes() == self.text_bytes().subrange(
                start.byte_offset as int,
                end.byte_offset as int,
            ),
    {
        slice_between(self.text, start.byte_offset, end.byte_offset)
    }

    /// The current position.
    pub fn pos(&self) -> (r: Pos)
        ensures
            r == self.position(),
    {
        self.pos
    }

    /// The current state.
    pub fn state(&self) -> (r: LexerState)
        ensures
            r == self.lexer_state(),
    {
        self.state
    }

    /// Moves the cursor to the next grapheme. Line and column follow the
    /// grapheme that is left behind.
    pub fn next_char(&mut self) -> (r: Result<bool, Error>)
        requires
            old(self).wf(),
        ensures
            final(self).wf(),
            final(self).same_but_position(old(self)),
            (final(self).position(), r) == advance(old(self).text_bytes(), old(self).position()),
            r is Ok,
            (r == Ok::<bool, Error>(false)) == (old(self).position().byte_offset
                + old(self).position().char_size == old(self).text_bytes().len()),
            is_newline(grapheme(old(self).text_bytes(), old(self).position())) ==> {
                &&& final(self).position().line == old(self).position().line + 1
                &&& final(self).position().col == 1
                &&& final(self).position().byte_offset == old(self).position().byte_offset
                    + old(self).position().char_size
            },
    {
        let off = self.pos.byte_offset + self.pos.char_size;
        let boundary = next_boundary(self.text, off);
        let (pos, res) = next_position(self.text.as_bytes(), self.pos, boundary);
        self.pos = pos;
        res
    }

    /// Saves the current position and state.
    pub fn save_snapshot(&mut self)
        requires
            old(self).wf(),
        ensures
            final(self).wf(),
            final(self).text_bytes() == old(self).text_bytes(),
            final(self).position() == old(self).position(),
            final(self).lexer_state() == old(self).lexer_state(),
            final(self).saved() == old(self).saved().push(
                (old(self).position(), old(self).lexer_state()),
            ),
    {
        let ghost before = self.snapshots@;
        self.snapshots.push(LexSnapshot { pos: self.pos, state: self.state });
        proof {
            assert(self.snapshots@ =~= before.push(LexSnapshot { pos: self.pos, state: self.state }));
            assert(self.saved() =~= old(self).saved().push((self.pos, self.state)));
        }
    }

    /// Goes back to the last saved position and state, and forgets them.
    pub fn restore_snapshot(&mut self)
        requires
            old(self).wf(),
            old(self).saved().len() > 0,
        ensures
            final(self).wf(),
            final(self).text_bytes() == old(self).text_bytes(),
            (final(self).position(), final(self).lexer_state()) == old(self).saved().last(),
            final(self).saved() == old(self).saved().drop_last(),
    {
        let ghost before = self.snapshots@;
        let last = self.snapshots.pop().unwrap();
        self.pos = last.pos;
        self.state = last.state;
        proof {
            assert(before.last() == last);
            assert(self.snapshots@ =~= before.drop_last());
            assert(self.saved() =~= old(self).saved().drop_last());
            assert(valid_pos(self.text_bytes(), before[before.len() - 1].pos));
        }
    }

    /// Forgets the last saved position and state, and stays where it is.
    pub fn drop_snapshot(&mut self)
        requires
            old(self).wf(),
            old(self).saved().len() > 0,
        ensures
            final(self).wf(),
            final(self).text_bytes() == old(self).text_bytes(),
            final(self).position() == old(self).position(),
            final(self).lexer_state() == old(self).lexer_state(),
            final(self).saved() == old(self).saved().drop_last(),
    {
        let ghost before = self.snapshots@;
        let _ = self.snapshots.pop();
        proof {
            assert(self.snapshots@ =~= before.drop_last());
            assert(self.saved() =~= old(self).saved().drop_last());
        }
    }

    /// Steps over spaces and tabs; `Ok(false)` where the text ends.
    pub fn skip_whitespace(&mut self) -> (r: Result<bool, Error>)
        requires
            old(self).wf(),
        ensures
            final(self).wf(),
            final(self).same_but_position(old(self)),
            (final(self).position(), r) == skip_blanks(old(self).text_bytes(), old(self).position()),
            r is Ok,
    {
        let ghost b = self.text_bytes();
        loop
            invariant
                self.wf(),
                self.same_but_position(old(self)),
                b == self.text_bytes(),
                skip_blanks(b, self.position()) == skip_blanks(b, old(self).position()),
            decreases left(b, self.position()),
        {
            if !(self.current_is(32) || self.current_is(9)) {
                return Ok(true);
            }
            let next = self.next_char();
            match next {
                Ok(true) => {},
                _ => return next,
            }
        }
    }

    /// Steps until the text from the cursor on starts with `s`: `Ok(false)`
    /// where the text ends first.
    pub fn skip_until(&mut self, s: &str) -> (r: Result<bool, Error>)
        requires
            old(self).wf(),
        ensures
            final(self).wf(),
            final(self).same_but_position(old(self)),
            (final(self).position(), r) == seek(
                old(self).text_bytes(),
                old(self).position(),
                s.spec_bytes(),
            ),
            r is Ok,
    {
        let ghost b = self.text_bytes();
        let needle = s.as_bytes();
        loop
            invariant
                self.wf(),
                self.same_but_position(old(self)),
                b == self.text_bytes(),
                needle@ == s.spec_bytes(),
                seek(b, self.position(), needle@) == seek(b, old(self).position(), needle@),
            decreases left(b, self.position()),
        {
            if starts_at(self.text.as_bytes(), self.pos.byte_offset, needle) {
                return Ok(true);
            }
            let next = self.next_char();
            match next {
                Ok(true) => {},
                _ => return next,
            }
        }
    }

    /// Matches `s` grapheme by grapheme: each grapheme at the cursor must
    /// be the next bytes of `s`, and the last one must end where `s` ends. On
    /// a match the cursor moves past it; otherwise it stays where it was.
    pub fn skip(&mut self, s: &str) -> (r: Result<bool, Error>)
        requires
            old(self).wf(),
        ensures
            final(self).wf(),
            final(self).same_but_position(old(self)),
            (final(self).position(), r) == skip_spec(
                old(self).text_bytes(),
                old(self).position(),
                s.spec_bytes(),
            ),
            r == Ok::<bool, Error>(true) ==> final(self).position().byte_offset == old(
                self,
            ).position().byte_offset + s.spec_bytes().len() && final(self).text_bytes().subrange(
                old(self).position().byte_offset as int,
                final(self).position().byte_offset as int,
            ) == s.spec_bytes(),
            r != Ok::<bool, Error>(true) ==> final(self).position() == old(self).position(),
            r is Ok,
    {
        let ghost b = self.text_bytes();
        let ghost p0 = self.pos;
        let lit = s.as_bytes();
        let n = lit.len();
        let mut k: usize = 0;
        proof {
            assert(lit@.subrange(0, n as int) =~= lit@);
            assert(old(self).saved().push((p0, old(self).lexer_state())).drop_last()
                =~= old(self).saved());
        }
        self.save_snapshot();
        while k < n
            invariant
                self.wf(),
                b == self.text_bytes(),
                b == old(self).text_bytes(),
                lit@ == s.spec_bytes(),
                n == lit@.len(),
                0 <= k <= n,
                self.lexer_state() == old(self).lexer_state(),
                self.saved() == old(self).saved().push((p0, old(self).lexer_state())),
                old(self).saved().push((p0, old(self).lexer_state())).drop_last()
                    == old(self).saved(),
                p0 == old(self).position(),
                match_literal(b, p0, lit@) == match_literal(
                    b,
                    self.position(),
                    lit@.subrange(k as int, n as int),
                ),
            decreases n - k,
        {
            let ghost rest = lit@.subrange(k as int, n as int);
            let off = self.pos.byte_offset;
            let size = self.pos.char_size;
            if size == 0 || size > n - k {
                self.restore_snapshot();
                return Ok(false);
            }
            let same = bytes_eq(&self.text.as_bytes()[off..off + size], &lit[k..k + size]);
            proof {
                assert(rest.subrange(0, size as int) =~= lit@.subrange(k as int, k + size));
            }
            if !same {
                self.restore_snapshot();
                return Ok(false);
            }
            match self.next_char() {
                Ok(_) => {},
                Err(e) => {
                    self.restore_snapshot();
                    return Err(e);
                },
            }
            proof {
                assert(rest.subrange(size as int, rest.len() as int) =~= lit@.subrange(
                    k + size,
                    n as int,
                ));
            }
            k = k + size;
        }
        proof {
            assert(lit@.subrange(n as int, n as int) =~= Seq::<u8>::empty());
            lemma_match_literal_bytes(b, p0, lit@);
        }
        self.drop_snapshot();
        Ok(true)
    }

    /// Skips `s` as many times in a row as it matches.
    pub fn skip_many(&mut self, s: &str) -> (r: Result<bool, Error>)
        requires
            old(self).wf(),
        ensures
            final(self).wf(),
            final(self).same_but_position(old(self)),
            (final(self).position(), r) == skip_many_spec(
                old(self).text_bytes(),
                old(self).position(),
                s.spec_bytes(),
            ),
            r is Ok,
    {
        let ghost b = self.text_bytes();
        if s.as_bytes().len() == 0 {
            return Ok(true);
        }
        loop
            invariant
                self.wf(),
                self.same_but_position(old(self)),
                b == self.text_bytes(),
                s.spec_bytes().len() > 0,
                skip_many_spec(b, self.position(), s.spec_bytes()) == skip_many_spec(
                    b,
                    old(self).position(),
                    s.spec_bytes(),
                ),
            decreases left(b, self.position()),
        {
            let ghost p = self.position();
            match self.skip(s) {
                Ok(true) => {
                    proof {
                        lemma_match_literal_progress(b, p, s.spec_bytes());
                    }
                },
                Ok(false) => return Ok(true),
                Err(e) => return Err(e),
            }
        }
    }

    /// Whether the grapheme at the cursor can start (`start`) or continue an
    /// identifier.
    fn current_is_ident(&self, start: bool) -> (r: bool)
        requires
            self.wf(),
        ensures
            r == if start {
                is_ident_start(grapheme(self.text_bytes(), self.position()))
            } else {
                is_ident_rest(grapheme(self.text_bytes(), self.position()))
            },
    {
        let ghost g = grapheme(self.text_bytes(), self.position());
        let b = self.text.as_bytes();
        if self.pos.char_size == 0 {
            return false;
        }
        let mut i: usize = 0;
        while i < self.pos.char_size
            invariant
                0 <= i <= self.pos.char_size,
                g.len() == self.pos.char_size,
                b@ == self.text_bytes(),
                self.wf(),
                g == grapheme(self.text_bytes(), self.position()),
                forall|j: int|
                    0 <= j < i ==> if start {
                        is_ident_start_byte(#[trigger] g[j])
                    } else {
                        is_ident_byte(g[j])
                    },
            decreases self.pos.char_size - i,
        {
            let c = b[self.pos.byte_offset + i];
            proof {
                assert(g[i as int] == c);
            }
            let ok = if start {
                (65 <= c && c <= 90) || (97 <= c && c <= 122) || c == 95
            } else {
                (65 <= c && c <= 90) || (97 <= c && c <= 122) || (48 <= c && c <= 57) || c == 95
            };
            if !ok {
                return false;
            }
            i = i + 1;
        }
        true
    }

    /// Matches an identifier: an ASCII letter or underscore, then ASCII
    /// letters, digits and underscores. Where none starts, or on an error, the
    /// cursor stays.
    pub fn ident(&mut self) -> (r: Result<bool, Error>)
        requires
            old(self).wf(),
        ensures
            final(self).wf(),
            final(self).same_but_position(old(self)),
            (final(self).position(), r) == ident_spec(old(self).text_bytes(), old(self).position()),
            old(self).position().byte_offset <= final(self).position().byte_offset,
            r is Ok,
    {
        let ghost b = self.text_bytes();
        let ghost p0 = self.pos;
        proof {
            assert(old(self).saved().push((p0, old(self).lexer_state())).drop_last()
                =~= old(self).saved());
        }
        self.save_snapshot();
        if !self.current_is_ident(true) {
            self.restore_snapshot();
            return Ok(false);
        }
        loop
            invariant
                self.wf(),
                b == self.text_bytes(),
                b == old(self).text_bytes(),
                p0 == old(self).position(),
                self.lexer_state() == old(self).lexer_state(),
                self.saved() == old(self).saved().push((p0, old(self).lexer_state())),
                old(self).saved().push((p0, old(self).lexer_state())).drop_last()
                    == old(self).saved(),
                is_ident_start(grapheme(b, p0)),
                scan_ident(b, self.position()) == scan_ident(b, p0),
                p0.byte_offset <= self.position().byte_offset,
            decreases left(b, self.position()),
        {
            match self.next_char() {
                Err(e) => {
                    self.restore_snapshot();
                    return Err(e);
                },
                Ok(_) => {},
            }
            if !self.current_is_ident(false) {
                self.drop_snapshot();
                return Ok(true);
            }
        }
    }

    /// Matches a line comment: its marker and the rest of the line, up to
    /// the line break (a line feed, or a carriage return and a line feed) or
    /// the end of the text. The line break is not taken.
    pub fn line_comment(&mut self) -> (r: Result<bool, Error>)
        requires
            old(self).wf(),
        ensures
            final(self).wf(),
            final(self).same_but_position(old(self)),
            (final(self).position(), r) == line_comment_spec(
                old(self).text_bytes(),
                old(self).position(),
            ),
            r is Ok,
    {
        match self.skip("\\*") {
            Ok(true) => {},
            res => return res,
        }
        let ghost b = self.text_bytes();
        let ghost q0 = self.position();
        loop
            invariant
                self.wf(),
                self.same_but_position(old(self)),
                b == self.text_bytes(),
                b == old(self).text_bytes(),
                line_comment_spec(b, old(self).position()) == match rest_of_line(b, q0) {
                    (s, Ok(_)) => (s, Ok::<bool, Error>(true)),
                    (s, Err(e)) => (s, Err(e)),
                },
                rest_of_line(b, self.position()) == rest_of_line(b, q0),
            decreases left(b, self.position()),
        {
            if self.pos.char_size == 0 || self.current_is(10) || grapheme_is_crlf(
                self.text.as_bytes(),
                self.pos,
            ) {
                return Ok(true);
            }
            match self.next_char() {
                Ok(true) => {},
                Ok(false) => return Ok(true),
                Err(e) => return Err(e),
            }
        }
    }

    /// Matches a block comment with the comments nested in it. A comment
    /// still open where the text ends is an error.
    pub fn block_comment(&mut self) -> (r: Result<bool, Error>)
        requires
            old(self).wf(),
        ensures
            final(self).wf(),
            final(self).same_but_position(old(self)),
            (final(self).position(), r) == block_comment_spec(
                old(self).text_bytes(),
                old(self).position(),
            ),
            r == Ok::<bool, Error>(false) ==> final(self).position() == old(self).position(),
            r != Err::<bool, Error>(Error::MalformedGrapheme),
    {
        let ghost b = self.text_bytes();
        match self.skip("(*") {
            Ok(true) => {},
            res => return res,
        }
        let ghost q0 = self.position();
        proof {
            lemma_marker_bytes();
            lemma_match_literal_progress(b, old(self).position(), "(*".spec_bytes());
            assert(block_comment_spec(b, old(self).position()) == comment_body(b, q0, 1));
        }
        let mut depth: usize = 1;
        loop
            invariant
                self.wf(),
                self.same_but_position(old(self)),
                b == self.text_bytes(),
                b.len() <= usize::MAX,
                1 <= depth <= self.position().byte_offset + 1,
                comment_body(b, self.position(), depth as nat) == comment_body(b, q0, 1),
                block_comment_spec(b, old(self).position()) == comment_body(b, q0, 1),
                b == old(self).text_bytes(),
            decreases left(b, self.position()),
        {
            let ghost p = self.position();
            match self.skip("(*") {
                Ok(true) => {
                    proof {
                        lemma_marker_bytes();
                        lemma_match_literal_progress(b, p, "(*".spec_bytes());
                    }
                    depth = depth + 1;
                    continue;
                },
                Ok(false) => {},
                Err(e) => return Err(e),
            }
            match self.skip("*)") {
                Ok(true) => {
                    proof {
                        lemma_marker_bytes();
                        lemma_match_literal_progress(b, p, "*)".spec_bytes());
                    }
                    depth = depth - 1;
                    if depth == 0 {
                        assert(comment_body(b, p, 1) == comment_body(b, self.position(), 0));
                        return Ok(true);
                    }
                    continue;
                },
                Ok(false) => {},
                Err(e) => return Err(e),
            }
            match self.next_char() {
                Ok(true) => {},
                Ok(false) => return Err(Error::UnclosedBlockComment),
                Err(e) => return Err(e),
            }
        }
    }

    /// Matches the longest operator of the table at the cursor: it extends
    /// the match one grapheme at a time while a longer entry may still
    /// match, and ends after the longest entry seen. Where no entry matches,
    /// or on an error, the cursor stays.
    pub fn operator(&mut self) -> (r: Result<Option<TokenType>, Error>)
        requires
            old(self).wf(),
        ensures
            final(self).wf(),
            final(self).same_but_position(old(self)),
            (final(self).position(), r) == operator_spec(
                old(self).text_bytes(),
                old(self).position(),
            ),
            r is Ok,
    {
        let ghost b = self.text_bytes();
        let ghost p0 = self.pos;
        let ghost st = self.state;
        let start = self.pos.byte_offset;
        let table = operators();
        let mut best: Option<(TokenType, Pos)> = None;
        proof {
            assert(old(self).saved().push((p0, st)).drop_last() =~= old(self).saved());
        }
        self.save_snapshot();
        loop
            invariant
                self.wf(),
                b == self.text_bytes(),
                b == old(self).text_bytes(),
                p0 == old(self).position(),
                st == old(self).lexer_state(),
                self.lexer_state() == st,
                self.saved() == old(self).saved().push((p0, st)),
                old(self).saved().push((p0, st)).drop_last() == old(self).saved(),
                start == p0.byte_offset,
                start <= self.position().byte_offset,
                is_char_boundary(b, start as int),
                table@ == operator_table(),
                scan_operator(b, start as int, self.position(), best) == scan_operator(
                    b,
                    start as int,
                    p0,
                    None,
                ),
                best matches Some((k, q)) ==> valid_pos(b, q),
            ensures
                self.wf(),
                self.lexer_state() == st,
                self.saved() == old(self).saved().push((p0, st)),
                scan_operator(b, start as int, p0, None) == Ok::<Option<(TokenType, Pos)>, Error>(
                    best,
                ),
                best matches Some((k, q)) ==> valid_pos(b, q),
            decreases left(b, self.position()),
        {
            if self.pos.char_size == 0 {
                break;
            }
            let cand = &self.text.as_bytes()[start..self.pos.byte_offset + self.pos.char_size];
            proof {
                assert(cand@ == candidate(b, start as int, self.position()));
            }
            match find_entry(&table, cand) {
                Some(k) => {
                    best = Some((k, self.pos));
                },
                None => {},
            }
            if !has_extension(&table, cand) {
                break;
            }
            match self.next_char() {
                Ok(true) => {},
                Ok(false) => break,
                Err(e) => {
                    self.restore_snapshot();
                    return Err(e);
                },
            }
        }
        match best {
            None => {
                self.restore_snapshot();
                Ok(None)
            },
            Some((k, last)) => {
                self.pos = last;
                match self.next_char() {
                    Err(e) => {
                        self.restore_snapshot();
                        Err(e)
                    },
                    Ok(_) => {
                        self.drop_snapshot();
                        Ok(Some(k))
                    },
                }
            },
        }
    }

    /// An operator token from the cursor, or `NotRecognized`.
    fn operator_token(&mut self) -> (r: Result<Token, Error>)
        requires
            old(self).wf(),
        ensures
            final(self).wf(),
            final(self).same_but_position(old(self)),
            (final(self).position(), r) == crate::scan::operator_token(
                old(self).text_bytes(),
                old(self).position(),
            ),
            r != Err::<Token, Error>(Error::MalformedGrapheme),
    {
        let start = self.pos;
        match self.operator() {
            Ok(Some(op)) => Ok((start, self.pos, op)),
            Ok(None) => Err(Error::NotRecognized),
            Err(e) => Err(e),
        }
    }

    /// The token at the cursor in the module body; the cursor is not at a
    /// space or a tab.
    fn body_token_here(&mut self) -> (r: Result<Token, Error>)
        requires
            old(self).wf(),
        ensures
            final(self).wf(),
            final(self).same_but_position(old(self)),
            (final(self).position(), r) == token_at(old(self).text_bytes(), old(self).position()),
            r != Err::<Token, Error>(Error::MalformedGrapheme),
    {
        let ghost b = self.text_bytes();
        let start = self.pos;
        if self.pos.char_size == 0 {
            return Err(Error::EndOfString);
        }
        if self.current_is(10) || grapheme_is_crlf(self.text.as_bytes(), self.pos) {
            match self.next_char() {
                Err(e) => return Err(e),
                Ok(_) => {},
            }
            let line_start = self.pos;
            return match self.skip_whitespace() {
                Err(e) => Err(e),
                Ok(_) => Ok((line_start, self.pos, TokenType::Indent)),
            };
        }
        if self.current_is(45) {
            return match self.skip("----") {
                Ok(true) => match self.skip_many("-") {
                    Ok(_) => Ok((start, self.pos, TokenType::Separator)),
                    Err(e) => Err(e),
                },
                Ok(false) => self.operator_token(),
                Err(e) => Err(e),
            };
        }
        if self.current_is(92) {
            return match self.line_comment() {
                Ok(true) => Ok((start, self.pos, TokenType::Comment)),
                Ok(false) => self.operator_token(),
                Err(e) => Err(e),
            };
        }
        if self.current_is(40) {
            return match self.block_comment() {
                Ok(true) => Ok((start, self.pos, TokenType::Comment)),
                Ok(false) => match self.next_char() {
                    Err(e) => Err(e),
                    Ok(_) => Ok((start, self.pos, TokenType::ParenOpen)),
                },
                Err(e) => Err(e),
            };
        }
        match self.ident() {
            Ok(true) => {
                let end = self.pos;
                let name = self.substring(&start, &end).as_bytes();
                proof {
                    lemma_keyword_table_sorted();
                }
                let kind = match search_sorted(&keywords(), name) {
                    Some(k) => k,
                    None => TokenType::Identifier,
                };
                Ok((start, end, kind))
            },
            Ok(false) => Err(Error::NotRecognized),
            Err(e) => Err(e),
        }
    }

    /// Produces the next token. Before the module header, the text up to
    /// the first `----` is skipped first; spaces and tabs within a line give
    /// no token. `EndOfString` where the text ends first.
    pub fn next_token(&mut self) -> (r: Result<Token, Error>)
        requires
            old(self).wf(),
        ensures
            final(self).wf(),
            final(self).text_bytes() == old(self).text_bytes(),
            final(self).saved() == old(self).saved(),
            (final(self).lexer_state(), final(self).position(), r) == next_token_spec(
                old(self).text_bytes(),
                old(self).lexer_state(),
                old(self).position(),
            ),
            r != Err::<Token, Error>(Error::MalformedGrapheme),
    {
        if let LexerState::BeforeModuleHeader = self.state {
            match self.skip_until("----") {
                Ok(true) => {
                    self.state = LexerState::ModuleBody;
                },
                Ok(false) => return Err(Error::EndOfString),
                Err(e) => return Err(e),
            }
        }
        if self.current_is(32) || self.current_is(9) {
            match self.skip_whitespace() {
                Err(e) => return Err(e),
                Ok(_) => {},
            }
        }
        self.body_token_here()
    }
}

} // verus!