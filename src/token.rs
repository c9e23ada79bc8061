//! Token kinds and the keyword and operator tables.
use vstd::prelude::*;
use vstd::string::*;
use vstd::utf8::{is_ascii_chars, is_ascii_chars_encode_utf8};

verus! {

/// Reserved words of a module.
#[derive(Debug, Clone, Copy, PartialEq, Eq, Structural)]
pub enum Keyword {
    Module,
    Extends,
}

/// The class of a token.
#[derive(Debug, Clone, Copy, PartialEq, Eq, Structural)]
pub enum TokenType {
    /// A run of four or more dashes that opens or closes a module.
    Separator,
    /// The spaces and tabs that start a line.
    Indent,
    Identifier,
    /// A line or block comment.
    Comment,
    /// The single underscore.
    Wildcard,
    Keyword(Keyword),
    InfixOperator,
    PrefixOperator,
    PostfixOperator,
    ParenOpen,
    ParenClose,
    Unknown,
}

/// The keywords, sorted by their bytes.
pub open spec fn keyword_table() -> Seq<(&'static str, TokenType)> {
    seq![
        ("EXTENDS", TokenType::Keyword(Keyword::Extends)),
        ("MODULE", TokenType::Keyword(Keyword::Module)),
        ("_", TokenType::Wildcard),
    ]
}

/// The keyword table.
pub fn keywords() -> (r: Vec<(&'static str, TokenType)>)
    ensures
        r@ == keyword_table(),
{
    let r = vec![
        ("EXTENDS", TokenType::Keyword(Keyword::Extends)),
        ("MODULE", TokenType::Keyword(Keyword::Module)),
        ("_", TokenType::Wildcard),
    ];
    proof {
        assert(r@ =~= keyword_table());
    }
    r
}

/// The operators, sorted by their bytes.
pub open spec fn operator_table() -> Seq<(&'static str, TokenType)> {
    seq![
        ("!!", TokenType::InfixOperator),
        ("#", TokenType::InfixOperator),
        ("##", TokenType::InfixOperator),
        ("$", TokenType::InfixOperator),
        ("$$", TokenType::InfixOperator),
        ("%", TokenType::InfixOperator),
        ("%%", TokenType::InfixOperator),
        ("&", TokenType::InfixOperator),
        ("&&", TokenType::InfixOperator),
        ("'", TokenType::PostfixOperator),
        ("*", TokenType::InfixOperator),
        ("**", TokenType::InfixOperator),
        ("+", TokenType::InfixOperator),
        ("++", TokenType::InfixOperator),
        ("-", TokenType::InfixOperator),
        ("-+->", TokenType::InfixOperator),
        ("--", TokenType::InfixOperator),
        ("-|", TokenType::InfixOperator),
        ("..", TokenType::InfixOperator),
        ("...", TokenType::InfixOperator),
        ("/", TokenType::InfixOperator),
        ("//", TokenType::InfixOperator),
        ("/=", TokenType::InfixOperator),
        ("/\\", TokenType::InfixOperator),
        ("::=", TokenType::InfixOperator),
        (":=", TokenType::InfixOperator),
        (":>", TokenType::InfixOperator),
        ("<", TokenType::InfixOperator),
        ("<:", TokenType::InfixOperator),
        ("<=", TokenType::InfixOperator),
        ("<=>", TokenType::InfixOperator),
        ("<>", TokenType::PrefixOperator),
        ("=", TokenType::InfixOperator),
        ("=<", TokenType::InfixOperator),
        ("=>", TokenType::InfixOperator),
        ("=|", TokenType::InfixOperator),
        (">", TokenType::InfixOperator),
        (">=", TokenType::InfixOperator),
        ("??", TokenType::InfixOperator),
        ("@@", TokenType::InfixOperator),
        ("[]", TokenType::PrefixOperator),
        ("\\", TokenType::InfixOperator),
        ("\\/", TokenType::InfixOperator),
        ("\\X", TokenType::InfixOperator),
        ("\\cap", TokenType::InfixOperator),
        ("\\cup", TokenType::InfixOperator),
        ("\\div", TokenType::InfixOperator),
        ("\\in", TokenType::InfixOperator),
        ("\\lnot", TokenType::PrefixOperator),
        ("\\notin", TokenType::InfixOperator),
        ("\\o", TokenType::InfixOperator),
        ("\\subseteq", TokenType::InfixOperator),
        ("^", TokenType::InfixOperator),
        ("^#", TokenType::PostfixOperator),
        ("^*", TokenType::PostfixOperator),
        ("^+", TokenType::PostfixOperator),
        ("^^", TokenType::InfixOperator),
        ("|", TokenType::InfixOperator),
        ("|-", TokenType::InfixOperator),
        ("|=", TokenType::InfixOperator),
        ("||", TokenType::InfixOperator),
        ("~", TokenType::PrefixOperator),
        ("~>", TokenType::InfixOperator),
    ]
}

/// The operator table.
pub fn operators() -> (r: Vec<(&'static str, TokenType)>)
    ensures
        r@ == operator_table(),
{
    let r = vec![
        ("!!", TokenType::InfixOperator),
        ("#", TokenType::InfixOperator),
        ("##", TokenType::InfixOperator),
        ("$", TokenType::InfixOperator),
        ("$$", TokenType::InfixOperator),
        ("%", TokenType::InfixOperator),
        ("%%", TokenType::InfixOperator),
        ("&", TokenType::InfixOperator),
        ("&&", TokenType::InfixOperator),
        ("'", TokenType::PostfixOperator),
        ("*", TokenType::InfixOperator),
        ("**", TokenType::InfixOperator),
        ("+", TokenType::InfixOperator),
        ("++", TokenType::InfixOperator),
        ("-", TokenType::InfixOperator),
        ("-+->", TokenType::InfixOperator),
        ("--", TokenType::InfixOperator),
        ("-|", TokenType::InfixOperator),
        ("..", TokenType::InfixOperator),
        ("...", TokenType::InfixOperator),
        ("/", TokenType::InfixOperator),
        ("//", TokenType::InfixOperator),
        ("/=", TokenType::InfixOperator),
        ("/\\", TokenType::InfixOperator),
        ("::=", TokenType::InfixOperator),
        (":=", TokenType::InfixOperator),
        (":>", TokenType::InfixOperator),
        ("<", TokenType::InfixOperator),
        ("<:", TokenType::InfixOperator),
        ("<=", TokenType::InfixOperator),
        ("<=>", TokenType::InfixOperator),
        ("<>", TokenType::PrefixOperator),
        ("=", TokenType::InfixOperator),
        ("=<", TokenType::InfixOperator),
        ("=>", TokenType::InfixOperator),
        ("=|", TokenType::InfixOperator),
        (">", TokenType::InfixOperator),
        (">=", TokenType::InfixOperator),
        ("??", TokenType::InfixOperator),
        ("@@", TokenType::InfixOperator),
        ("[]", TokenType::PrefixOperator),
        ("\\", TokenType::InfixOperator),
        ("\\/", TokenType::InfixOperator),
        ("\\X", TokenType::InfixOperator),
        ("\\cap", TokenType::InfixOperator),
        ("\\cup", TokenType::InfixOperator),
        ("\\div", TokenType::InfixOperator),
        ("\\in", TokenType::InfixOperator),
        ("\\lnot", TokenType::PrefixOperator),
        ("\\notin", TokenType::InfixOperator),
        ("\\o", TokenType::InfixOperator),
        ("\\subseteq", TokenType::InfixOperator),
        ("^", TokenType::InfixOperator),
        ("^#", TokenType::PostfixOperator),
        ("^*", TokenType::PostfixOperator),
        ("^+", TokenType::PostfixOperator),
        ("^^", TokenType::InfixOperator),
        ("|", TokenType::InfixOperator),
        ("|-", TokenType::InfixOperator),
        ("|=", TokenType::InfixOperator),
        ("||", TokenType::InfixOperator),
        ("~", TokenType::PrefixOperator),
        ("~>", TokenType::InfixOperator),
    ];
    proof {
        assert(r@ =~= operator_table());
    }
    r
}

/// The kind of the first entry of `table` whose text is `name`.
pub open spec fn lookup(table: Seq<(&'static str, TokenType)>, name: Seq<u8>) -> Option<TokenType>
    decreases table.len(),
{
    if table.len() == 0 {
        None
    } else if table[0].0.spec_bytes() == name {
        Some(table[0].1)
    } else {
        lookup(table.drop_first(), name)
    }
}

/// `a` is a proper prefix of `b`.
pub open spec fn is_proper_prefix(a: Seq<u8>, b: Seq<u8>) -> bool {
    a.len() < b.len() && b.subrange(0, a.len() as int) == a
}

/// Some entry of `table` is longer than `name` and starts with it.
pub open spec fn extendable(table: Seq<(&'static str, TokenType)>, name: Seq<u8>) -> bool {
    exists|i: int| 0 <= i < table.len() && is_proper_prefix(name, #[trigger] table[i].0.spec_bytes())
}

/// Whether two byte strings are equal.
pub fn bytes_eq(a: &[u8], b: &[u8]) -> (r: bool)
    ensures
        r == (a@ == b@),
{
    if a.len() != b.len() {
        return false;
    }
    let mut i: usize = 0;
    while i < a.len()
        invariant
            a@.len() == b@.len(),
            0 <= i <= a@.len(),
            a@.subrange(0, i as int) == b@.subrange(0, i as int),
        decreases a@.len() - i,
    {
        if a[i] != b[i] {
            proof {
                assert(a@[i as int] != b@[i as int]);
            }
            return false;
        }
        proof {
            assert(a@.subrange(0, i + 1) =~= a@.subrange(0, i as int).push(a@[i as int]));
            assert(b@.subrange(0, i + 1) =~= b@.subrange(0, i as int).push(b@[i as int]));
        }
        i = i + 1;
    }
    proof {
        assert(a@ =~= a@.subrange(0, i as int));
        assert(b@ =~= b@.subrange(0, i as int));
    }
    true
}

/// Whether `a` is a proper prefix of `b`.
pub fn proper_prefix(a: &[u8], b: &[u8]) -> (r: bool)
    ensures
        r == is_proper_prefix(a@, b@),
{
    if a.len() >= b.len() {
        return false;
    }
    let head = &b[0..a.len()];
    bytes_eq(a, head)
}

/// The kind of the first entry of `table` whose text is `name`.
pub fn find_entry(table: &Vec<(&'static str, TokenType)>, name: &[u8]) -> (r: Option<TokenType>)
    ensures
        r == lookup(table@, name@),
{
    let mut i: usize = 0;
    proof {
        assert(table@.subrange(0, table@.len() as int) =~= table@);
    }
    while i < table.len()
        invariant
            0 <= i <= table@.len(),
            lookup(table@, name@) == lookup(table@.subrange(i as int, table@.len() as int), name@),
        decreases table@.len() - i,
    {
        let (text, kind) = table[i];
        proof {
            let rest = table@.subrange(i as int, table@.len() as int);
            assert(rest.drop_first() =~= table@.subrange(i + 1, table@.len() as int));
            assert(rest[0] == table@[i as int]);
        }
        if bytes_eq(text.as_bytes(), name) {
            return Some(kind);
        }
        i = i + 1;
    }
    None
}

/// Whether some entry of `table` is longer than `name` and starts with it.
pub fn has_extension(table: &Vec<(&'static str, TokenType)>, name: &[u8]) -> (r: bool)
    ensures
        r == extendable(table@, name@),
{
    let mut i: usize = 0;
    while i < table.len()
        invariant
            0 <= i <= table@.len(),
            forall|j: int| 0 <= j < i ==> !is_proper_prefix(name@, #[trigger] table@[j].0.spec_bytes()),
        decreases table@.len() - i,
    {
        let (text, _) = table[i];
        if proper_prefix(name, text.as_bytes()) {
            return true;
        }
        i = i + 1;
    }
    false
}

/// `a` sorts before `b`, byte by byte, a proper prefix first.
pub open spec fn bytes_lt(a: Seq<u8>, b: Seq<u8>) -> bool
    decreases a.len(),
{
    if b.len() == 0 {
        false
    } else if a.len() == 0 {
        true
    } else if a[0] != b[0] {
        a[0] < b[0]
    } else {
        bytes_lt(a.drop_first(), b.drop_first())
    }
}

/// The entries of `table` are in strictly increasing order of their bytes.
pub open spec fn sorted_table(table: Seq<(&'static str, TokenType)>) -> bool {
    forall|i: int, j: int|
        0 <= i < j < table.len() ==> bytes_lt(
            #[trigger] table[i].0.spec_bytes(),
            #[trigger] table[j].0.spec_bytes(),
        )
}

/// No byte string sorts before itself.
proof fn lemma_bytes_lt_irreflexive(a: Seq<u8>)
    ensures
        !bytes_lt(a, a),
    decreases a.len(),
{
    if a.len() > 0 {
        lemma_bytes_lt_irreflexive(a.drop_first());
    }
}

/// The byte order is transitive.
proof fn lemma_bytes_lt_transitive(a: Seq<u8>, b: Seq<u8>, c: Seq<u8>)
    requires
        bytes_lt(a, b),
        bytes_lt(b, c),
    ensures
        bytes_lt(a, c),
    decreases a.len(),
{
    if a.len() > 0 && a[0] == b[0] && b[0] == c[0] {
        lemma_bytes_lt_transitive(a.drop_first(), b.drop_first(), c.drop_first());
    }
}

/// Two byte strings that differ are ordered one way or the other.
proof fn lemma_bytes_lt_total(a: Seq<u8>, b: Seq<u8>)
    requires
        a != b,
    ensures
        bytes_lt(a, b) || bytes_lt(b, a),
    decreases a.len(),
{
    if a.len() > 0 && b.len() > 0 && a[0] == b[0] {
        if a.drop_first() == b.drop_first() {
            assert(a =~= seq![a[0]] + a.drop_first());
            assert(b =~= seq![b[0]] + b.drop_first());
        }
        lemma_bytes_lt_total(a.drop_first(), b.drop_first());
    } else if a.len() == 0 && b.len() == 0 {
        assert(a =~= b);
    }
}

/// Compares two byte strings: negative where `a` sorts first, zero where
/// they are equal, positive where `b` sorts first.
pub fn compare_bytes(a: &[u8], b: &[u8]) -> (r: i8)
    ensures
        (r < 0) == bytes_lt(a@, b@),
        (r == 0) == (a@ == b@),
        (r > 0) == bytes_lt(b@, a@),
{
    let mut i: usize = 0;
    proof {
        assert(a@.subrange(0, a@.len() as int) =~= a@);
        assert(b@.subrange(0, b@.len() as int) =~= b@);
    }
    while i < a.len() && i < b.len()
        invariant
            0 <= i <= a@.len(),
            i <= b@.len(),
            a@.subrange(0, i as int) == b@.subrange(0, i as int),
            bytes_lt(a@, b@) == bytes_lt(
                a@.subrange(i as int, a@.len() as int),
                b@.subrange(i as int, b@.len() as int),
            ),
            bytes_lt(b@, a@) == bytes_lt(
                b@.subrange(i as int, b@.len() as int),
                a@.subrange(i as int, a@.len() as int),
            ),
        decreases a@.len() - i,
    {
        let ghost ra = a@.subrange(i as int, a@.len() as int);
        let ghost rb = b@.subrange(i as int, b@.len() as int);
        if a[i] != b[i] {
            proof {
                assert(ra[0] == a@[i as int] && rb[0] == b@[i as int]);
                assert(a@[i as int] != b@[i as int]);
            }
            if a[i] < b[i] {
                return -1;
            } else {
                return 1;
            }
        }
        proof {
            assert(ra.drop_first() =~= a@.subrange(i + 1, a@.len() as int));
            assert(rb.drop_first() =~= b@.subrange(i + 1, b@.len() as int));
            assert(a@.subrange(0, i + 1) =~= a@.subrange(0, i as int).push(a@[i as int]));
            assert(b@.subrange(0, i + 1) =~= b@.subrange(0, i as int).push(b@[i as int]));
        }
        i = i + 1;
    }
    proof {
        assert(a@.subrange(i as int, a@.len() as int).len() == 0 || b@.subrange(
            i as int,
            b@.len() as int,
        ).len() == 0);
    }
    if a.len() < b.len() {
        proof {
            assert(a@ =~= a@.subrange(0, i as int));
            assert(b@.subrange(0, i as int) != b@);
        }
        -1
    } else if a.len() > b.len() {
        proof {
            assert(b@ =~= b@.subrange(0, i as int));
            assert(a@.subrange(0, i as int) != a@);
        }
        1
    } else {
        proof {
            assert(a@ =~= a@.subrange(0, i as int));
            assert(b@ =~= b@.subrange(0, i as int));
        }
        0
    }
}

/// In a sorted table, the entry whose text is `name` at index `i` is the
/// one that `lookup` finds.
proof fn lemma_lookup_sorted(table: Seq<(&'static str, TokenType)>, name: Seq<u8>, i: int)
    requires
        sorted_table(table),
        0 <= i < table.len(),
        table[i].0.spec_bytes() == name,
    ensures
        lookup(table, name) == Some(table[i].1),
    decreases i,
{
    if i > 0 {
        lemma_bytes_lt_irreflexive(name);
        assert(bytes_lt(table[0].0.spec_bytes(), table[i].0.spec_bytes()));
        let rest = table.drop_first();
        assert(sorted_table(rest)) by {
            assert forall|x: int, y: int| 0 <= x < y < rest.len() implies bytes_lt(
                #[trigger] rest[x].0.spec_bytes(),
                #[trigger] rest[y].0.spec_bytes(),
            ) by {
                assert(rest[x] == table[x + 1] && rest[y] == table[y + 1]);
            }
        }
        assert(rest[i - 1] == table[i]);
        lemma_lookup_sorted(rest, name, i - 1);
    }
}

/// A name that no entry has is found nowhere.
proof fn lemma_lookup_absent(table: Seq<(&'static str, TokenType)>, name: Seq<u8>)
    requires
        forall|j: int| 0 <= j < table.len() ==> #[trigger] table[j].0.spec_bytes() != name,
    ensures
        lookup(table, name) == None::<TokenType>,
    decreases table.len(),
{
    if table.len() > 0 {
        let rest = table.drop_first();
        assert forall|j: int| 0 <= j < rest.len() implies #[trigger] rest[j].0.spec_bytes()
            != name by {
            assert(rest[j] == table[j + 1]);
        }
        assert(table[0].0.spec_bytes() != name);
        lemma_lookup_absent(rest, name);
    }
}

/// The keyword table is sorted.
pub proof fn lemma_keyword_table_sorted()
    ensures
        sorted_table(keyword_table()),
{
    reveal_strlit("EXTENDS");
    reveal_strlit("MODULE");
    reveal_strlit("_");
    let e = "EXTENDS"@;
    let m = "MODULE"@;
    let w = "_"@;
    assert(is_ascii_chars(e));
    assert(is_ascii_chars(m));
    assert(is_ascii_chars(w));
    is_ascii_chars_encode_utf8(e);
    is_ascii_chars_encode_utf8(m);
    is_ascii_chars_encode_utf8(w);
    assert(bytes_lt("EXTENDS".spec_bytes(), "MODULE".spec_bytes()));
    assert(bytes_lt("MODULE".spec_bytes(), "_".spec_bytes()));
    assert(bytes_lt("EXTENDS".spec_bytes(), "_".spec_bytes()));
}

/// Finds `name` in a sorted table by binary search.
pub fn search_sorted(table: &Vec<(&'static str, TokenType)>, name: &[u8]) -> (r: Option<TokenType>)
    requires
        sorted_table(table@),
    ensures
        r == lookup(table@, name@),
{
    let mut lo: usize = 0;
    let mut hi: usize = table.len();
    while lo < hi
        invariant
            0 <= lo <= hi <= table@.len(),
            sorted_table(table@),
            forall|j: int|
                0 <= j < table@.len() && !(lo <= j < hi) ==> #[trigger] table@[j].0.spec_bytes()
                    != name@,
        decreases hi - lo,
    {
        let mid = lo + (hi - lo) / 2;
        let (text, kind) = table[mid];
        let c = compare_bytes(text.as_bytes(), name);
        if c == 0 {
            proof {
                lemma_lookup_sorted(table@, name@, mid as int);
            }
            return Some(kind);
        } else if c < 0 {
            proof {
                assert forall|j: int| 0 <= j <= mid implies #[trigger] table@[j].0.spec_bytes()
                    != name@ by {
                    lemma_bytes_lt_irreflexive(name@);
                    if j < mid {
                        lemma_bytes_lt_transitive(
                            table@[j].0.spec_bytes(),
                            table@[mid as int].0.spec_bytes(),
                            name@,
                        );
                    }
                }
            }
            lo = mid + 1;
        } else {
            proof {
                assert forall|j: int| mid <= j < table@.len() implies #[trigger] table@[j].0.spec_bytes()
                    != name@ by {
                    lemma_bytes_lt_irreflexive(name@);
                    if j > mid {
                        lemma_bytes_lt_transitive(
                            name@,
                            table@[mid as int].0.spec_bytes(),
                            table@[j].0.spec_bytes(),
                        );
                    }
                }
            }
            hi = mid;
        }
    }
    proof {
        lemma_lookup_absent(table@, name@);
    }
    None
}

} // verus!
