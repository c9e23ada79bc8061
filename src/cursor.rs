//! Positions in a text and the step from one grapheme cluster to the next.
use vstd::prelude::*;
use vstd::utf8::*;
use vstd::string::*;
use crate::lexer::Error;
use crate::token::bytes_eq;

verus! {

/// Columns that a tab advances the cursor by.
pub const TAB_WIDTH: usize = 4;

/// Specifies a position in a string.
///
/// `char_size == 0` stands for the position before the first grapheme, after
/// the last one, and at a grapheme that could not be segmented.
#[derive(Debug, Clone, Copy, PartialEq, Eq, Structural)]
pub struct Pos {
    /// Line number, from 1.
    pub line: usize,
    /// Column number from the start of the line, from 1.
    pub col: usize,
    /// Byte offset from the start of the string.
    pub byte_offset: usize,
    /// Size in bytes of the grapheme at this position.
    pub char_size: usize,
}

/// The end of the extended grapheme cluster of `text` that starts at byte
/// `offset`: `Ok(None)` at the end of the text, `Err(())` where the segmenter
/// cannot decide.
pub uninterp spec fn grapheme_boundary(text: Seq<u8>, offset: nat) -> Result<Option<usize>, ()>;

/// Relies on unicode_segmentation's `GraphemeCursor::new` (extended
/// clusters, cursor at `offset`) and `GraphemeCursor::next_boundary`, given
/// the whole text as its only chunk, for the end of the extended grapheme
/// cluster at `offset`. The cursor only moves over whole code points, so a
/// boundary it returns lies past `offset`, within the text, on a char
/// boundary. With the whole text as the chunk no chunk or context request is
/// ever returned, so the call never fails, and it reports the end of the text
/// exactly at its last byte. `offset` must be a char boundary: the crate
/// slices the text there.
#[verifier::external_body]
pub(crate) fn next_boundary(text: &str, offset: usize) -> (r: Result<Option<usize>, ()>)
    requires
        is_char_boundary(text.spec_bytes(), offset as int),
    ensures
        r == grapheme_boundary(text.spec_bytes(), offset as nat),
        r is Ok,
        (r == Ok::<Option<usize>, ()>(None)) == (offset == text.spec_bytes().len()),
        r matches Ok(Some(e)) ==> offset < e <= text.spec_bytes().len() && is_char_boundary(
            text.spec_bytes(),
            e as int,
        ),
{
    let mut cursor = unicode_segmentation::GraphemeCursor::new(offset, text.len(), true);
    cursor.next_boundary(text, 0).map_err(|_| ())
}

/// The bytes of the grapheme that `p` stands on (none where `p` reaches
/// past the text).
pub open spec fn grapheme(b: Seq<u8>, p: Pos) -> Seq<u8> {
    if p.byte_offset + p.char_size <= b.len() {
        b.subrange(p.byte_offset as int, p.byte_offset + p.char_size)
    } else {
        Seq::empty()
    }
}

/// A line break: a line feed, or a carriage return and a line feed.
pub open spec fn is_newline(g: Seq<u8>) -> bool {
    g == seq![10u8] || g == seq![13u8, 10u8]
}

/// Line and column of the grapheme after the one at `p`: a line break starts
/// a new line, a tab moves by `TAB_WIDTH` columns, any other grapheme by one,
/// and the empty sentinel by none.
pub open spec fn line_col_after(b: Seq<u8>, p: Pos) -> (usize, usize) {
    let g = grapheme(b, p);
    if is_newline(g) {
        ((p.line + 1) as usize, 1)
    } else if g == seq![9u8] {
        (p.line, (p.col + TAB_WIDTH) as usize)
    } else if g.len() == 0 {
        (p.line, p.col)
    } else {
        (p.line, (p.col + 1) as usize)
    }
}

/// One step of the cursor from `p`, where `boundary` is what the segmenter
/// reports for the offset just after `p`: the position of the next grapheme
/// and whether the step reached one (`Ok(true)`), the end of the text
/// (`Ok(false)`), or a grapheme that could not be segmented. A boundary
/// outside the rest of the text counts as its end.
pub open spec fn step_to(b: Seq<u8>, p: Pos, boundary: Result<Option<usize>, ()>) -> (
    Pos,
    Result<bool, Error>,
) {
    let off = p.byte_offset + p.char_size;
    let (line, col) = line_col_after(b, p);
    let sentinel = Pos { line, col, byte_offset: off as usize, char_size: 0 };
    match boundary {
        Ok(Some(e)) => if off < e <= b.len() {
            (Pos { char_size: (e - off) as usize, ..sentinel }, Ok(true))
        } else {
            (sentinel, Ok(false))
        },
        Ok(None) => (sentinel, Ok(false)),
        Err(_) => (sentinel, Err(Error::MalformedGrapheme)),
    }
}

/// One step of the cursor over the text `b`.
pub open spec fn advance(b: Seq<u8>, p: Pos) -> (Pos, Result<bool, Error>) {
    step_to(b, p, grapheme_boundary(b, (p.byte_offset + p.char_size) as nat))
}

/// What is left of the text after `p`, as a measure that every successful
/// step decreases.
pub open spec fn left(b: Seq<u8>, p: Pos) -> int {
    2 * (b.len() - p.byte_offset) + if p.char_size == 0 {
        1int
    } else {
        0int
    }
}

/// A position within `b` whose line and column are small enough for every
/// later step.
pub open spec fn pos_in_text(b: Seq<u8>, p: Pos) -> bool {
    &&& p.byte_offset + p.char_size <= b.len()
    &&& 1 <= p.line <= p.byte_offset + 1
    &&& 1 <= p.col <= TAB_WIDTH * p.byte_offset + 1
}

/// A position that a cursor over `b` can hold: within the text, on char
/// boundaries.
pub open spec fn valid_pos(b: Seq<u8>, p: Pos) -> bool {
    &&& pos_in_text(b, p)
    &&& is_char_boundary(b, p.byte_offset as int)
    &&& is_char_boundary(b, p.byte_offset + p.char_size)
}

/// A text short enough that columns cannot overflow.
pub open spec fn text_fits(b: Seq<u8>) -> bool {
    TAB_WIDTH * b.len() < usize::MAX
}

/// A char boundary of a text is one of each of its suffixes that start on a
/// char boundary.
pub proof fn lemma_boundary_in_suffix(b: Seq<u8>, from: int, to: int)
    requires
        valid_utf8(b),
        0 <= from <= to <= b.len(),
        is_char_boundary(b, from),
        is_char_boundary(b, to),
    ensures
        valid_utf8(b.subrange(from, b.len() as int)),
        is_char_boundary(b.subrange(from, b.len() as int), to - from),
{
    let s = b.subrange(from, b.len() as int);
    valid_utf8_split(b, from);
    if to == from {
    } else if to == b.len() {
        is_char_boundary_start_end_of_seq(s);
    } else {
        is_char_boundary_iff_not_is_continuation_byte(b, to);
        is_char_boundary_iff_not_is_continuation_byte(s, to - from);
    }
}

/// The text between two char boundaries, taken by splitting twice.
pub(crate) fn slice_between(text: &str, from: usize, to: usize) -> (r: &str)
    requires
        from <= to <= text.spec_bytes().len(),
        is_char_boundary(text.spec_bytes(), from as int),
        is_char_boundary(text.spec_bytes(), to as int),
    ensures
        r.spec_bytes() == text.spec_bytes().subrange(from as int, to as int),
{
    broadcast use encode_utf8_valid_utf8;

    proof {
        lemma_boundary_in_suffix(text.spec_bytes(), from as int, to as int);
    }
    let (_, rest) = text.split_at(from);
    let (mid, _) = rest.split_at(to - from);
    proof {
        assert(mid.spec_bytes() =~= text.spec_bytes().subrange(from as int, to as int));
    }
    mid
}

/// Whether `needle` occurs in `text` at byte `off`.
pub fn starts_at(text: &[u8], off: usize, needle: &[u8]) -> (r: bool)
    requires
        off <= text@.len(),
    ensures
        r == (off + needle@.len() <= text@.len() && text@.subrange(off as int, off + needle@.len())
            == needle@),
{
    if needle.len() > text.len() - off {
        return false;
    }
    let part = &text[off..off + needle.len()];
    bytes_eq(part, needle)
}

/// Whether the grapheme at `p` is the single byte `c`.
pub fn grapheme_is(b: &[u8], p: Pos, c: u8) -> (r: bool)
    requires
        pos_in_text(b@, p),
    ensures
        r == (grapheme(b@, p) == seq![c]),
{
    let r = p.char_size == 1 && b[p.byte_offset] == c;
    proof {
        let g = grapheme(b@, p);
        if p.char_size == 1 {
            if r {
                assert(g =~= seq![c]);
            } else {
                assert(g[0] != c);
            }
        } else {
            assert(g.len() != 1);
        }
    }
    r
}

/// Whether the grapheme at `p` is a carriage return and a line feed.
pub fn grapheme_is_crlf(b: &[u8], p: Pos) -> (r: bool)
    requires
        pos_in_text(b@, p),
    ensures
        r == (grapheme(b@, p) == seq![13u8, 10u8]),
{
    let off = p.byte_offset;
    let r = p.char_size == 2 && b[off] == 13 && b[off + 1] == 10;
    proof {
        let g = grapheme(b@, p);
        if p.char_size == 2 {
            if r {
                assert(g =~= seq![13u8, 10u8]);
            } else if b@[off as int] != 13 {
                assert(g[0] != 13);
            } else {
                assert(g[1] != 10);
            }
        } else {
            assert(g.len() != 2);
        }
    }
    r
}

/// The position after `p` in the text `b`, given the segmenter's `boundary`
/// for the offset just after `p`. Line and column follow the grapheme at `p`,
/// the one that is left behind.
pub fn next_position(b: &[u8], p: Pos, boundary: Result<Option<usize>, ()>) -> (r: (
    Pos,
    Result<bool, Error>,
))
    requires
        text_fits(b@),
        pos_in_text(b@, p),
    ensures
        r == step_to(b@, p, boundary),
        pos_in_text(b@, r.0),
{
    let newline = grapheme_is(b, p, 10) || grapheme_is_crlf(b, p);
    let tab = grapheme_is(b, p, 9);
    let off = p.byte_offset + p.char_size;
    let mut q = p;
    q.byte_offset = off;
    if newline {
        proof {
            assert(grapheme(b@, p).len() > 0);
        }
        q.line = p.line + 1;
        q.col = 1;
    } else if tab {
        q.col = p.col + TAB_WIDTH;
    } else if p.char_size != 0 {
        q.col = p.col + 1;
    }
    match boundary {
        Ok(Some(end)) => {
            if off < end && end <= b.len() {
                q.char_size = end - off;
                (q, Ok(true))
            } else {
                q.char_size = 0;
                (q, Ok(false))
            }
        },
        Ok(None) => {
            q.char_size = 0;
            (q, Ok(false))
        },
        Err(()) => {
            q.char_size = 0;
            (q, Err(Error::MalformedGrapheme))
        },
    }
}

} // verus!
