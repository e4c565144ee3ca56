//! Byte-string comparison.
//!
//! Keys and digests are opaque byte sequences compared and ordered
//! byte-lexicographically.  This module defines the order as a spec
//! function, proves that it is a strict total order, and provides the
//! executable comparison used by the sorted entry lists elsewhere in the
//! crate.

use vstd::prelude::*;

verus! {

/// Strict byte-lexicographic order on byte strings: a proper prefix comes
/// first, otherwise the first differing byte decides.
pub open spec fn lex_lt(a: Seq<u8>, b: Seq<u8>) -> bool
    decreases a.len(),
{
    if b.len() == 0 {
        false
    } else if a.len() == 0 {
        true
    } else if a[0] < b[0] {
        true
    } else if a[0] > b[0] {
        false
    } else {
        lex_lt(a.skip(1), b.skip(1))
    }
}

/// No byte string is below itself.
pub proof fn lemma_lex_irrefl(a: Seq<u8>)
    ensures
        !lex_lt(a, a),
    decreases a.len(),
{
    if a.len() > 0 {
        lemma_lex_irrefl(a.skip(1));
    }
}

/// The order is asymmetric.
pub proof fn lemma_lex_asym(a: Seq<u8>, b: Seq<u8>)
    ensures
        !(lex_lt(a, b) && lex_lt(b, a)),
    decreases a.len(),
{
    if a.len() > 0 && b.len() > 0 && a[0] == b[0] {
        lemma_lex_asym(a.skip(1), b.skip(1));
    }
}

/// Any two byte strings are ordered or equal.
pub proof fn lemma_lex_total(a: Seq<u8>, b: Seq<u8>)
    ensures
        lex_lt(a, b) || lex_lt(b, a) || a == b,
    decreases a.len(),
{
    if a.len() > 0 && b.len() > 0 && a[0] == b[0] {
        lemma_lex_total(a.skip(1), b.skip(1));
        if !lex_lt(a, b) && !lex_lt(b, a) {
            assert(a.skip(1) == b.skip(1));
            assert(a.len() == b.len());
            assert forall|i: int| 0 <= i < a.len() implies a[i] == b[i] by {
                if i >= 1 {
                    assert(a[i] == a.skip(1)[i - 1]);
                    assert(b[i] == b.skip(1)[i - 1]);
                }
            }
            assert(a =~= b);
        }
    }
}

/// The order is transitive.
pub proof fn lemma_lex_trans(a: Seq<u8>, b: Seq<u8>, c: Seq<u8>)
    requires
        lex_lt(a, b),
        lex_lt(b, c),
    ensures
        lex_lt(a, c),
    decreases a.len(),
{
    if a.len() == 0 {
        // b is non-empty, hence c is non-empty, hence lex_lt(a, c).
    } else if b.len() > 0 && c.len() > 0 {
        if a[0] == b[0] && b[0] == c[0] {
            lemma_lex_trans(a.skip(1), b.skip(1), c.skip(1));
        }
    }
}

/// Two ordered byte strings are distinct.
pub proof fn lemma_lex_neq(a: Seq<u8>, b: Seq<u8>)
    requires
        lex_lt(a, b),
    ensures
        a != b,
{
    lemma_lex_irrefl(a);
}

/// Sharing an equal prefix of length `i` reduces the comparison to the
/// remainders.
proof fn lemma_lex_skip(a: Seq<u8>, b: Seq<u8>, i: int)
    requires
        0 <= i <= a.len(),
        i <= b.len(),
        a.subrange(0, i) == b.subrange(0, i),
    ensures
        lex_lt(a, b) == lex_lt(a.skip(i), b.skip(i)),
    decreases i,
{
    if i > 0 {
        assert(a[0] == b[0]) by {
            assert(a.subrange(0, i)[0] == a[0]);
            assert(b.subrange(0, i)[0] == b[0]);
        }
        assert(a.skip(1).subrange(0, i - 1) =~= b.skip(1).subrange(0, i - 1)) by {
            assert(forall|j: int|
                0 <= j < i - 1 ==> #[trigger] a.skip(1).subrange(0, i - 1)[j]
                    == a.subrange(0, i)[j + 1]);
            assert(forall|j: int|
                0 <= j < i - 1 ==> #[trigger] b.skip(1).subrange(0, i - 1)[j]
                    == b.subrange(0, i)[j + 1]);
        }
        lemma_lex_skip(a.skip(1), b.skip(1), i - 1);
        assert(a.skip(1).skip(i - 1) =~= a.skip(i));
        assert(b.skip(1).skip(i - 1) =~= b.skip(i));
    } else {
        assert(a.skip(0) =~= a);
        assert(b.skip(0) =~= b);
    }
}

/// Result of a three-way byte-string comparison.
pub enum ByteOrd {
    Lt,
    Eq,
    Gt,
}

/// Three-way byte-lexicographic comparison of two byte strings.
pub fn bytes_cmp(a: &Vec<u8>, b: &Vec<u8>) -> (r: ByteOrd)
    ensures
        r is Lt <==> lex_lt(a@, b@),
        r is Eq <==> a@ == b@,
        r is Gt <==> lex_lt(b@, a@),
{
    proof {
        lemma_lex_total(a@, b@);
        lemma_lex_asym(a@, b@);
        lemma_lex_irrefl(a@);
        lemma_lex_irrefl(b@);
    }
    let n: usize = if a.len() <= b.len() { a.len() } else { b.len() };
    let mut i: usize = 0;
    while i < n
        invariant
            0 <= i <= n,
            n <= a@.len(),
            n <= b@.len(),
            n == a@.len() || n == b@.len(),
            a@.subrange(0, i as int) == b@.subrange(0, i as int),
        decreases n - i,
    {
        proof {
            lemma_lex_skip(a@, b@, i as int);
            lemma_lex_skip(b@, a@, i as int);
            assert(a@.skip(i as int)[0] == a@[i as int]);
            assert(b@.skip(i as int)[0] == b@[i as int]);
        }
        if a[i] < b[i] {
            proof {
                lemma_lex_asym(a@, b@);
                lemma_lex_irrefl(a@);
            }
            return ByteOrd::Lt;
        }
        if a[i] > b[i] {
            proof {
                lemma_lex_asym(a@, b@);
                lemma_lex_irrefl(b@);
            }
            return ByteOrd::Gt;
        }
        assert(a@.subrange(0, i + 1 as int) =~= b@.subrange(0, i + 1 as int)) by {
            assert(forall|j: int|
                0 <= j < i ==> a@.subrange(0, i + 1 as int)[j] == #[trigger] a@.subrange(
                    0,
                    i as int,
                )[j]);
            assert(forall|j: int|
                0 <= j < i ==> b@.subrange(0, i + 1 as int)[j] == #[trigger] b@.subrange(
                    0,
                    i as int,
                )[j]);
        }
        i = i + 1;
    }
    proof {
        lemma_lex_skip(a@, b@, n as int);
        lemma_lex_skip(b@, a@, n as int);
    }
    if a.len() == b.len() {
        assert(a@ =~= b@) by {
            assert(forall|j: int|
                0 <= j < n ==> a@[j] == #[trigger] a@.subrange(0, n as int)[j]
                    && b@[j] == b@.subrange(0, n as int)[j]);
        }
        proof {
            lemma_lex_irrefl(a@);
        }
        ByteOrd::Eq
    } else if a.len() < b.len() {
        proof {
            lemma_lex_asym(a@, b@);
            lemma_lex_irrefl(a@);
        }
        ByteOrd::Lt
    } else {
        proof {
            lemma_lex_asym(a@, b@);
            lemma_lex_irrefl(b@);
        }
        ByteOrd::Gt
    }
}

/// Byte-string equality.
pub fn bytes_eq(a: &Vec<u8>, b: &Vec<u8>) -> (r: bool)
    ensures
        r <==> a@ == b@,
{
    matches!(bytes_cmp(a, b), ByteOrd::Eq)
}

/// A fresh copy of a byte string.
pub fn clone_bytes(v: &Vec<u8>) -> (r: Vec<u8>)
    ensures
        r@ == v@,
{
    let mut r: Vec<u8> = Vec::new();
    let mut i: usize = 0;
    while i < v.len()
        invariant
            0 <= i <= v@.len(),
            r@ == v@.subrange(0, i as int),
        decreases v@.len() - i,
    {
        r.push(v[i]);
        assert(v@.subrange(0, i + 1 as int) =~= v@.subrange(0, i as int).push(v@[i as int]));
        i = i + 1;
    }
    assert(v@.subrange(0, v@.len() as int) =~= v@);
    r
}

} // verus!
