//! Byte-string helpers shared by the scanner, the graph, and the codec:
//! views of nested vectors, lexicographic ordering, equality, and copying.

use vstd::prelude::*;

verus! {

// ASCII bytes, named because byte-character literals are not accepted here.
pub const SP: u8 = 32;

pub const TAB: u8 = 9;

pub const NL: u8 = 10;

pub const VT: u8 = 11;

pub const FF: u8 = 12;

pub const CR: u8 = 13;

pub const LET_A: u8 = 97;

pub const LET_B: u8 = 98;

pub const LET_C: u8 = 99;

pub const LET_D: u8 = 100;

pub const LET_E: u8 = 101;

pub const LET_F: u8 = 102;

pub const LET_H: u8 = 104;

pub const LET_I: u8 = 105;

pub const LET_L: u8 = 108;

pub const LET_N: u8 = 110;

pub const LET_O: u8 = 111;

pub const LET_R: u8 = 114;

pub const LET_T: u8 = 116;

pub const LET_U: u8 = 117;

pub const LET_V: u8 = 118;

pub const LET_Z: u8 = 122;

pub const UP_A: u8 = 65;

pub const UP_Z: u8 = 90;

pub const DIG_0: u8 = 48;

pub const DIG_9: u8 = 57;

pub const USCORE: u8 = 95;

pub const HASH: u8 = 35;

pub const LPAR: u8 = 40;

pub const RPAR: u8 = 41;

pub const LBRACE: u8 = 123;

pub const RBRACE: u8 = 125;

pub const QUOTE: u8 = 34;

pub const BSLASH: u8 = 92;

pub const LBRACK: u8 = 91;

pub const RBRACK: u8 = 93;

pub const COLON: u8 = 58;

pub const COMMA: u8 = 44;

/// The sequence of views of a sequence of byte vectors.
pub open spec fn seq_views(s: Seq<Vec<u8>>) -> Seq<Seq<u8>> {
    s.map_values(|v: Vec<u8>| v@)
}

/// The deep view of a list of (function name, callee names) pairs.
pub open spec fn entry_views(s: Seq<(Vec<u8>, Vec<Vec<u8>>)>) -> Seq<(Seq<u8>, Seq<Seq<u8>>)> {
    s.map_values(|e: (Vec<u8>, Vec<Vec<u8>>)| (e.0@, seq_views(e.1@)))
}

/// Strict lexicographic order on byte strings.
pub open spec fn lex_lt(a: Seq<u8>, b: Seq<u8>) -> bool
    decreases a.len(),
{
    if b.len() == 0 {
        false
    } else if a.len() == 0 {
        true
    } else if a[0] < b[0] {
        true
    } else if a[0] > b[0] {
        false
    } else {
        lex_lt(a.drop_first(), b.drop_first())
    }
}

/// Exactly one of `lex_lt(a, b)`, `a == b`, `lex_lt(b, a)` holds.
pub proof fn lemma_lex_trichotomy(a: Seq<u8>, b: Seq<u8>)
    ensures
        lex_lt(a, b) || lex_lt(b, a) || a == b,
        !(lex_lt(a, b) && lex_lt(b, a)),
        lex_lt(a, b) ==> a != b,
    decreases a.len(),
{
    if a.len() == 0 && b.len() == 0 {
        assert(a =~= b);
    } else if a.len() > 0 && b.len() > 0 && a[0] == b[0] {
        lemma_lex_trichotomy(a.drop_first(), b.drop_first());
        if a.drop_first() == b.drop_first() {
            assert forall|k: int| 0 <= k < a.len() implies a[k] == b[k] by {
                if k >= 1 {
                    assert(a[k] == a.drop_first()[k - 1]);
                    assert(b[k] == b.drop_first()[k - 1]);
                }
            }
            assert(a =~= b);
        }
        if a == b {
            assert(a.drop_first() =~= b.drop_first());
        }
    } else if a.len() == 0 {
        assert(lex_lt(a, b));
    } else if b.len() == 0 {
        assert(lex_lt(b, a));
    }
}

/// Lexicographic order is transitive.
pub proof fn lemma_lex_transitive(a: Seq<u8>, b: Seq<u8>, c: Seq<u8>)
    requires
        lex_lt(a, b),
        lex_lt(b, c),
    ensures
        lex_lt(a, c),
    decreases a.len(),
{
    if b.len() == 0 {
        assert(false);
    } else if c.len() == 0 {
        assert(false);
    } else if a.len() == 0 {
    } else {
        if a[0] == b[0] && b[0] == c[0] {
            lemma_lex_transitive(a.drop_first(), b.drop_first(), c.drop_first());
        }
    }
}

/// Byte-string equality, reflected into the view.
pub fn bytes_eq(a: &Vec<u8>, b: &Vec<u8>) -> (r: bool)
    ensures
        r == (a@ == b@),
{
    if a.len() != b.len() {
        return false;
    }
    let mut i: usize = 0;
    while i < a.len()
        invariant
            i <= a@.len(),
            a@.len() == b@.len(),
            forall|j: int| 0 <= j < i ==> a@[j] == b@[j],
        decreases a@.len() - i,
    {
        if a[i] != b[i] {
            return false;
        }
        i += 1;
    }
    proof {
        assert(a@ =~= b@);
    }
    true
}

/// Byte-string comparison, reflected into `lex_lt` on the views.
pub fn bytes_lt(a: &Vec<u8>, b: &Vec<u8>) -> (r: bool)
    ensures
        r == lex_lt(a@, b@),
{
    proof {
        assert(a@.skip(0) =~= a@);
        assert(b@.skip(0) =~= b@);
    }
    let mut i: usize = 0;
    while i < a.len() && i < b.len()
        invariant
            i <= a@.len(),
            i <= b@.len(),
            lex_lt(a@, b@) == lex_lt(a@.skip(i as int), b@.skip(i as int)),
            lex_lt(b@, a@) == lex_lt(b@.skip(i as int), a@.skip(i as int)),
        decreases a@.len() - i,
    {
        if a[i] < b[i] {
            return true;
        }
        if a[i] > b[i] {
            return false;
        }
        proof {
            assert(a@.skip(i as int).drop_first() =~= a@.skip(i + 1));
            assert(b@.skip(i as int).drop_first() =~= b@.skip(i + 1));
        }
        i += 1;
    }
    proof {
        if i == a@.len() {
            assert(a@.skip(i as int) =~= Seq::<u8>::empty());
        } else {
            assert(b@.skip(i as int) =~= Seq::<u8>::empty());
        }
    }
    a.len() < b.len()
}

/// A fresh copy of the byte range `[lo, hi)` of `t`.
pub fn copy_range(t: &Vec<u8>, lo: usize, hi: usize) -> (r: Vec<u8>)
    requires
        lo <= hi <= t@.len(),
    ensures
        r@ == t@.subrange(lo as int, hi as int),
{
    let mut r: Vec<u8> = Vec::new();
    let mut i: usize = lo;
    while i < hi
        invariant
            lo <= i <= hi <= t@.len(),
            r@ == t@.subrange(lo as int, i as int),
        decreases hi - i,
    {
        r.push(t[i]);
        proof {
            assert(t@.subrange(lo as int, i as int).push(t@[i as int]) =~= t@.subrange(
                lo as int,
                i + 1,
            ));
        }
        i += 1;
    }
    r
}

/// A fresh copy of a byte vector.
pub fn copy_bytes(v: &Vec<u8>) -> (r: Vec<u8>)
    ensures
        r@ == v@,
{
    let r = copy_range(v, 0, v.len());
    proof {
        assert(v@.subrange(0, v@.len() as int) =~= v@);
    }
    r
}

/// A fresh copy of a list of byte vectors.
pub fn copy_bytes_vec(v: &Vec<Vec<u8>>) -> (r: Vec<Vec<u8>>)
    ensures
        seq_views(r@) == seq_views(v@),
{
    let mut r: Vec<Vec<u8>> = Vec::new();
    let mut i: usize = 0;
    proof {
        assert(seq_views(r@) =~= seq_views(v@).take(0));
    }
    while i < v.len()
        invariant
            i <= v@.len(),
            seq_views(r@) == seq_views(v@).take(i as int),
        decreases v@.len() - i,
    {
        let x = copy_bytes(&v[i]);
        proof {
            assert(seq_views(r@.push(x)) =~= seq_views(r@).push(x@));
            assert(seq_views(v@).take(i + 1) =~= seq_views(v@).take(i as int).push(
                seq_views(v@)[i as int],
            ));
        }
        r.push(x);
        i += 1;
    }
    proof {
        assert(seq_views(v@).take(i as int) =~= seq_views(v@));
    }
    r
}

/// Whether the list of names contains `x`, reflected into `contains` on views.
pub fn contains_bytes(names: &Vec<Vec<u8>>, x: &Vec<u8>) -> (r: bool)
    ensures
        r == seq_views(names@).contains(x@),
{
    let mut i: usize = 0;
    while i < names.len()
        invariant
            i <= names@.len(),
            forall|j: int| 0 <= j < i ==> seq_views(names@)[j] != x@,
        decreases names@.len() - i,
    {
        if bytes_eq(&names[i], x) {
            proof {
                assert(seq_views(names@)[i as int] == x@);
            }
            return true;
        }
        i += 1;
    }
    false
}

/// Membership distributes over concatenation of sequences.
pub proof fn lemma_concat_contains<T>(a: Seq<T>, b: Seq<T>, x: T)
    ensures
        (a + b).contains(x) <==> a.contains(x) || b.contains(x),
{
    if (a + b).contains(x) {
        let i = choose|i: int| 0 <= i < (a + b).len() && (a + b)[i] == x;
        if i < a.len() {
            assert(a[i] == x);
        } else {
            assert(b[i - a.len()] == x);
        }
    }
    if a.contains(x) {
        let i = choose|i: int| 0 <= i < a.len() && a[i] == x;
        assert((a + b)[i] == x);
    }
    if b.contains(x) {
        let i = choose|i: int| 0 <= i < b.len() && b[i] == x;
        assert((a + b)[a.len() + i] == x);
    }
}

} // verus!

