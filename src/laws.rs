//! Properties that hold across calls of the lexer.
use vstd::prelude::*;
use vstd::string::*;
use crate::cursor::{Pos, advance, grapheme, is_newline, left, text_fits, valid_pos};
use crate::lexer::Error;
use crate::scan::{
    block_comment_spec, candidate, comment_body, lemma_marker_bytes, match_literal, operator_spec,
    scan_operator, steps, steps_succeed,
};
use crate::token::{TokenType, extendable, is_proper_prefix, lookup, operator_table};

verus! {

/// Once a step reports the end of the text, every further step reports it
/// again and leaves the position as it is.
pub proof fn lemma_end_is_stable(b: Seq<u8>, p: Pos)
    requires
        text_fits(b),
        valid_pos(b, p),
        advance(b, p).1 == Ok::<bool, Error>(false),
    ensures
        advance(b, advance(b, p).0) == advance(b, p),
{
    let q = advance(b, p).0;
    assert(grapheme(b, q).len() == 0);
    assert(q.byte_offset + q.char_size == p.byte_offset + p.char_size);
}

/// Leaving a line break, a line feed or a carriage return with a line feed
/// alike, moves the cursor to column 1 of the next line.
pub proof fn lemma_newline_starts_line(b: Seq<u8>, p: Pos)
    requires
        text_fits(b),
        valid_pos(b, p),
        is_newline(grapheme(b, p)),
    ensures
        advance(b, p).0.line == p.line + 1,
        advance(b, p).0.col == 1,
{
}

/// The byte just after the grapheme at `p`.
pub open spec fn end_of(p: Pos) -> int {
    p.byte_offset + p.char_size
}

/// A name that the table maps to a kind is the text of one of its entries.
proof fn lemma_lookup_entry(table: Seq<(&'static str, TokenType)>, name: Seq<u8>)
    requires
        lookup(table, name) is Some,
    ensures
        exists|i: int| 0 <= i < table.len() && #[trigger] table[i].0.spec_bytes() == name,
    decreases table.len(),
{
    if table[0].0.spec_bytes() != name {
        lemma_lookup_entry(table.drop_first(), name);
        let i = choose|i: int|
            0 <= i < table.drop_first().len() && #[trigger] table.drop_first()[i].0.spec_bytes()
                == name;
        assert(table[i + 1] == table.drop_first()[i]);
    }
}

/// Successful steps move forward and stay within the text.
proof fn lemma_steps_forward(b: Seq<u8>, q: Pos, m: nat)
    requires
        m > 0,
        steps_succeed(b, q, m),
    ensures
        steps(b, q, m).byte_offset >= end_of(q),
        steps(b, q, m).char_size > 0,
        end_of(steps(b, q, m)) <= b.len(),
    decreases m,
{
    let q2 = advance(b, q).0;
    if m > 1 {
        lemma_steps_forward(b, q2, (m - 1) as nat);
    } else {
        assert(steps(b, q2, 0) == q2);
    }
}

/// The scan keeps the longest entry seen: what it ends with is an entry of
/// the table, ends no earlier than `best`, and is found whenever `best` is.
proof fn lemma_scan_keeps_best(
    b: Seq<u8>,
    from: int,
    q: Pos,
    best: Option<(TokenType, Pos)>,
)
    requires
        end_of(q) <= b.len(),
        best matches Some((k, l)) ==> end_of(l) <= end_of(q) && end_of(l) <= b.len() && lookup(
            operator_table(),
            candidate(b, from, l),
        ) == Some(k),
    ensures
        best is Some ==> scan_operator(b, from, q, best) != Ok::<
            Option<(TokenType, Pos)>,
            Error,
        >(None),
        scan_operator(b, from, q, best) matches Ok(Some((k, l))) ==> end_of(l) <= b.len()
            && lookup(operator_table(), candidate(b, from, l)) == Some(k) && (best matches Some(
            (k0, l0),
        ) ==> end_of(l0) <= end_of(l)),
    decreases left(b, q),
{
    if q.char_size != 0 {
        let cand = candidate(b, from, q);
        let best2 = match lookup(operator_table(), cand) {
            Some(k) => Some((k, q)),
            None => best,
        };
        if extendable(operator_table(), cand) {
            let (q2, r) = advance(b, q);
            if r == Ok::<bool, Error>(true) {
                lemma_scan_keeps_best(b, from, q2, best2);
            }
        }
    }
}

/// A scan at `q` that can still reach, by successful steps, a grapheme
/// ending an entry of the table finds an entry that ends there or later.
proof fn lemma_scan_reaches(b: Seq<u8>, from: int, q: Pos, best: Option<(TokenType, Pos)>, m: nat)
    requires
        q.char_size > 0,
        0 <= from <= q.byte_offset,
        end_of(q) <= b.len(),
        steps_succeed(b, q, m),
        lookup(operator_table(), candidate(b, from, steps(b, q, m))) is Some,
        best matches Some((k, l)) ==> end_of(l) <= end_of(q) && end_of(l) <= b.len() && lookup(
            operator_table(),
            candidate(b, from, l),
        ) == Some(k),
    ensures
        scan_operator(b, from, q, best) != Ok::<Option<(TokenType, Pos)>, Error>(None),
        scan_operator(b, from, q, best) matches Ok(Some((k, l))) ==> end_of(l) >= end_of(
            steps(b, q, m),
        ),
    decreases m,
{
    let cand = candidate(b, from, q);
    let best2 = match lookup(operator_table(), cand) {
        Some(k) => Some((k, q)),
        None => best,
    };
    let (q2, r) = advance(b, q);
    if m == 0 {
        assert(steps(b, q, 0) == q);
        if extendable(operator_table(), cand) && r == Ok::<bool, Error>(true) {
            lemma_scan_keeps_best(b, from, q2, best2);
        }
    } else {
        let t = steps(b, q, m);
        lemma_steps_forward(b, q, m);
        assert(t == steps(b, q2, (m - 1) as nat));
        let ct = candidate(b, from, t);
        lemma_lookup_entry(operator_table(), ct);
        let i = choose|i: int|
            0 <= i < operator_table().len() && #[trigger] operator_table()[i].0.spec_bytes() == ct;
        assert(ct.subrange(0, cand.len() as int) =~= cand);
        assert(is_proper_prefix(cand, operator_table()[i].0.spec_bytes()));
        assert(extendable(operator_table(), cand));
        if m > 1 {
            lemma_steps_forward(b, q2, (m - 1) as nat);
        } else {
            assert(steps(b, q2, 0) == q2);
        }
        lemma_scan_reaches(b, from, q2, best2, (m - 1) as nat);
    }
}

/// `operator` never stops short: where some run of whole graphemes from `p`
/// spells an entry of the table, it matches an entry that ends there or
/// later (unless a later grapheme cannot be segmented).
pub proof fn lemma_operator_longest(b: Seq<u8>, p: Pos, n: nat)
    requires
        text_fits(b),
        valid_pos(b, p),
        p.char_size > 0,
        steps_succeed(b, p, n),
        lookup(operator_table(), candidate(b, p.byte_offset as int, steps(b, p, n))) is Some,
    ensures
        operator_spec(b, p).1 != Ok::<Option<TokenType>, Error>(None),
        operator_spec(b, p).1 is Ok ==> operator_spec(b, p).0.byte_offset >= end_of(
            steps(b, p, n),
        ),
{
    lemma_scan_reaches(b, p.byte_offset as int, p, None, n);
    lemma_scan_keeps_best(b, p.byte_offset as int, p, None);
}

/// What `operator` consumes is an entry of the table, of the kind it
/// returns.
pub proof fn lemma_operator_is_entry(b: Seq<u8>, p: Pos)
    requires
        text_fits(b),
        valid_pos(b, p),
        operator_spec(b, p).1 is Ok,
        operator_spec(b, p).1->Ok_0 is Some,
    ensures
        lookup(
            operator_table(),
            b.subrange(p.byte_offset as int, operator_spec(b, p).0.byte_offset as int),
        ) == operator_spec(b, p).1->Ok_0,
{
    lemma_scan_keeps_best(b, p.byte_offset as int, p, None);
}

/// The literals of `lits` matched one after another from `p`: the
/// position after the last, or the first result that is not a match.
pub open spec fn match_each(b: Seq<u8>, p: Pos, lits: Seq<Seq<u8>>) -> Result<Option<Pos>, Error>
    decreases lits.len(),
{
    if lits.len() == 0 {
        Ok(Some(p))
    } else {
        match match_literal(b, p, lits[0]) {
            Ok(Some(q)) => match_each(b, q, lits.drop_first()),
            other => other,
        }
    }
}

/// `opens` comment openings followed by `closes` comment closings.
pub open spec fn nested_markers(opens: nat, closes: nat) -> Seq<Seq<u8>> {
    Seq::new(opens, |i: int| "(*".spec_bytes()) + Seq::new(closes, |i: int| "*)".spec_bytes())
}

/// Matching two lists of literals in a row is matching the first, then the
/// second from where the first ended.
pub proof fn lemma_match_each_concat(b: Seq<u8>, p: Pos, x: Seq<Seq<u8>>, y: Seq<Seq<u8>>)
    ensures
        match_each(b, p, x + y) == match match_each(b, p, x) {
            Ok(Some(m)) => match_each(b, m, y),
            other => other,
        },
    decreases x.len(),
{
    if x.len() == 0 {
        assert(x + y =~= y);
    } else {
        assert((x + y)[0] == x[0]);
        assert((x + y).drop_first() =~= x.drop_first() + y);
        if let Ok(Some(q)) = match_literal(b, p, x[0]) {
            lemma_match_each_concat(b, q, x.drop_first(), y);
        }
    }
}

/// A run of `k` openings from `p` adds `k` to the nesting depth.
proof fn lemma_comment_opens(b: Seq<u8>, p: Pos, k: nat, depth: nat, m: Pos)
    requires
        b.len() <= usize::MAX,
        depth >= 1,
        match_each(b, p, Seq::new(k, |i: int| "(*".spec_bytes())) == Ok::<Option<Pos>, Error>(
            Some(m),
        ),
    ensures
        comment_body(b, p, depth) == comment_body(b, m, depth + k),
    decreases k,
{
    let run = Seq::new(k, |i: int| "(*".spec_bytes());
    if k > 0 {
        assert(run.drop_first() =~= Seq::new((k - 1) as nat, |i: int| "(*".spec_bytes()));
        let inner = match_literal(b, p, "(*".spec_bytes())->Ok_0->Some_0;
        lemma_comment_opens(b, inner, (k - 1) as nat, depth + 1, m);
    }
}

/// A run of `j` closings from `p`, at a depth of at least `j`, takes `j`
/// from the nesting depth.
proof fn lemma_comment_closes(b: Seq<u8>, p: Pos, j: nat, depth: nat, m: Pos)
    requires
        b.len() <= usize::MAX,
        depth >= j,
        match_each(b, p, Seq::new(j, |i: int| "*)".spec_bytes())) == Ok::<Option<Pos>, Error>(
            Some(m),
        ),
    ensures
        comment_body(b, p, depth) == comment_body(b, m, (depth - j) as nat),
    decreases j,
{
    lemma_marker_bytes();
    let run = Seq::new(j, |i: int| "*)".spec_bytes());
    if j > 0 {
        assert(run.drop_first() =~= Seq::new((j - 1) as nat, |i: int| "*)".spec_bytes()));
        let g = grapheme(b, p);
        assert(g.len() > 0 && g[0] == 42u8) by {
            assert("*)".spec_bytes().subrange(0, g.len() as int)[0] == 42u8);
        }
        if g.len() <= 2 {
            assert("(*".spec_bytes().subrange(0, g.len() as int)[0] == 40u8);
        }
        assert(match_literal(b, p, "(*".spec_bytes()) == Ok::<Option<Pos>, Error>(None));
        let inner = match_literal(b, p, "*)".spec_bytes())->Ok_0->Some_0;
        lemma_comment_closes(b, inner, (j - 1) as nat, (depth - 1) as nat, m);
    }
}

/// A block comment of `n` nested openings and as many closings is matched
/// whole: `block_comment` succeeds and ends after the last closing. The
/// markers are matched one after another from `p` on.
pub proof fn lemma_block_comment_balanced(b: Seq<u8>, p: Pos, n: nat, q: Pos)
    requires
        text_fits(b),
        n >= 1,
        match_each(b, p, nested_markers(n, n)) == Ok::<Option<Pos>, Error>(Some(q)),
    ensures
        block_comment_spec(b, p) == (q, Ok::<bool, Error>(true)),
{
    let opens = Seq::new(n, |i: int| "(*".spec_bytes());
    let closes = Seq::new(n, |i: int| "*)".spec_bytes());
    lemma_match_each_concat(b, p, opens, closes);
    let m = match_each(b, p, opens)->Ok_0->Some_0;
    assert(opens.drop_first() =~= Seq::new((n - 1) as nat, |i: int| "(*".spec_bytes()));
    let inner = match_literal(b, p, "(*".spec_bytes())->Ok_0->Some_0;
    lemma_comment_opens(b, inner, (n - 1) as nat, 1, m);
    lemma_comment_closes(b, m, n, n, q);
}

/// A block comment with fewer closings than openings, where the text ends
/// after the markers, is reported unclosed.
pub proof fn lemma_block_comment_unclosed(b: Seq<u8>, p: Pos, n: nat, m: nat, q: Pos)
    requires
        text_fits(b),
        m < n,
        match_each(b, p, nested_markers(n, m)) == Ok::<Option<Pos>, Error>(Some(q)),
        q.char_size == 0,
        advance(b, q).1 == Ok::<bool, Error>(false),
    ensures
        block_comment_spec(b, p).1 == Err::<bool, Error>(Error::UnclosedBlockComment),
{
    lemma_marker_bytes();
    let opens = Seq::new(n, |i: int| "(*".spec_bytes());
    let closes = Seq::new(m, |i: int| "*)".spec_bytes());
    lemma_match_each_concat(b, p, opens, closes);
    let mid = match_each(b, p, opens)->Ok_0->Some_0;
    assert(opens.drop_first() =~= Seq::new((n - 1) as nat, |i: int| "(*".spec_bytes()));
    let inner = match_literal(b, p, "(*".spec_bytes())->Ok_0->Some_0;
    lemma_comment_opens(b, inner, (n - 1) as nat, 1, mid);
    lemma_comment_closes(b, mid, m, n, q);
    assert(grapheme(b, q).len() == 0);
}

} // verus!
