//! Byte-string keys and their lexicographic order.
//!
//! A key is a sequence of raw bytes. Keys are ordered lexicographically,
//! byte by byte, and a proper prefix sorts before every extension of it.

use vstd::prelude::*;

verus! {

/// Strict lexicographic order on byte strings: `a` sorts before `b`.
pub open spec fn key_lt(a: Seq<u8>, b: Seq<u8>) -> bool
    decreases a.len(),
{
    if b.len() == 0 {
        false
    } else if a.len() == 0 {
        true
    } else if a[0] != b[0] {
        a[0] < b[0]
    } else {
        key_lt(a.skip(1), b.skip(1))
    }
}

/// Non-strict lexicographic order on byte strings.
pub open spec fn key_le(a: Seq<u8>, b: Seq<u8>) -> bool {
    a == b || key_lt(a, b)
}

/// No key sorts before itself.
pub proof fn lemma_key_lt_irreflexive(a: Seq<u8>)
    ensures
        !key_lt(a, a),
    decreases a.len(),
{
    if a.len() > 0 {
        lemma_key_lt_irreflexive(a.skip(1));
    }
}

/// The order is transitive.
pub proof fn lemma_key_lt_transitive(a: Seq<u8>, b: Seq<u8>, c: Seq<u8>)
    requires
        key_lt(a, b),
        key_lt(b, c),
    ensures
        key_lt(a, c),
    decreases a.len(),
{
    if a.len() > 0 && b.len() > 0 && c.len() > 0 {
        if a[0] == b[0] && b[0] == c[0] {
            lemma_key_lt_transitive(a.skip(1), b.skip(1), c.skip(1));
        }
    }
}

/// Two keys are equal, or exactly one sorts before the other.
pub proof fn lemma_key_lt_total(a: Seq<u8>, b: Seq<u8>)
    ensures
        key_lt(a, b) || a == b || key_lt(b, a),
        !(key_lt(a, b) && key_lt(b, a)),
        a == b ==> !key_lt(a, b) && !key_lt(b, a),
    decreases a.len(),
{
    if a.len() == 0 || b.len() == 0 {
        if a.len() == 0 && b.len() == 0 {
            assert(a =~= b);
        }
    } else if a[0] == b[0] {
        lemma_key_lt_total(a.skip(1), b.skip(1));
        if a.skip(1) == b.skip(1) {
            assert(a =~= seq![a[0]] + a.skip(1));
            assert(b =~= seq![b[0]] + b.skip(1));
        }
    }
    if a == b {
        lemma_key_lt_irreflexive(a);
    }
}

/// `a < b` and `b <= c` give `a < c`.
pub proof fn lemma_key_lt_le(a: Seq<u8>, b: Seq<u8>, c: Seq<u8>)
    requires
        key_lt(a, b),
        key_le(b, c),
    ensures
        key_lt(a, c),
{
    if b != c {
        lemma_key_lt_transitive(a, b, c);
    }
}

/// Dropping a common prefix does not change how two keys compare.
pub proof fn lemma_key_lt_skip_common(a: Seq<u8>, b: Seq<u8>, n: int)
    requires
        0 <= n <= a.len(),
        n <= b.len(),
        a.subrange(0, n) == b.subrange(0, n),
    ensures
        key_lt(a, b) == key_lt(a.skip(n), b.skip(n)),
    decreases n,
{
    if n > 0 {
        assert(a[0] == a.subrange(0, n)[0]);
        assert(b[0] == b.subrange(0, n)[0]);
        assert(a.skip(1).subrange(0, n - 1) =~= a.subrange(0, n).skip(1));
        assert(b.skip(1).subrange(0, n - 1) =~= b.subrange(0, n).skip(1));
        lemma_key_lt_skip_common(a.skip(1), b.skip(1), n - 1);
        assert(a.skip(1).skip(n - 1) =~= a.skip(n));
        assert(b.skip(1).skip(n - 1) =~= b.skip(n));
    } else {
        assert(a.skip(0) =~= a);
        assert(b.skip(0) =~= b);
    }
}

/// Length of the longest common prefix of two byte strings.
pub open spec fn common_prefix_len(a: Seq<u8>, b: Seq<u8>) -> nat
    decreases a.len(),
{
    if a.len() == 0 || b.len() == 0 || a[0] != b[0] {
        0
    } else {
        1 + common_prefix_len(a.skip(1), b.skip(1))
    }
}

/// The common prefix is a prefix of both strings and cannot be extended.
pub proof fn lemma_common_prefix_len(a: Seq<u8>, b: Seq<u8>)
    ensures
        common_prefix_len(a, b) <= a.len(),
        common_prefix_len(a, b) <= b.len(),
        a.subrange(0, common_prefix_len(a, b) as int) == b.subrange(
            0,
            common_prefix_len(a, b) as int,
        ),
        common_prefix_len(a, b) < a.len() && common_prefix_len(a, b) < b.len() ==> a[common_prefix_len(
            a,
            b,
        ) as int] != b[common_prefix_len(a, b) as int],
    decreases a.len(),
{
    let n = common_prefix_len(a, b) as int;
    if a.len() == 0 || b.len() == 0 || a[0] != b[0] {
        assert(a.subrange(0, 0) =~= b.subrange(0, 0));
    } else {
        lemma_common_prefix_len(a.skip(1), b.skip(1));
        let m = n - 1;
        assert(a.skip(1).subrange(0, m) == b.skip(1).subrange(0, m));
        assert forall|i: int| 0 <= i < n implies a[i] == b[i] by {
            if i > 0 {
                assert(a.skip(1).subrange(0, m)[i - 1] == a[i]);
                assert(b.skip(1).subrange(0, m)[i - 1] == b[i]);
            }
        }
        assert(a.subrange(0, n) =~= b.subrange(0, n));
        if n < a.len() && n < b.len() {
            assert(a.skip(1)[m] == a[n]);
            assert(b.skip(1)[m] == b[n]);
        }
    }
}

/// A length `n` up to which two strings agree, and at which they differ or
/// one of them ends, is the length of their common prefix.
pub proof fn lemma_common_prefix_len_unique(a: Seq<u8>, b: Seq<u8>, n: int)
    requires
        0 <= n <= a.len(),
        n <= b.len(),
        forall|i: int| 0 <= i < n ==> a[i] == b[i],
        n == a.len() || n == b.len() || a[n] != b[n],
    ensures
        common_prefix_len(a, b) == n,
    decreases n,
{
    if n > 0 {
        assert(a[0] == b[0]);
        assert forall|i: int| 0 <= i < n - 1 implies a.skip(1)[i] == b.skip(1)[i] by {
            assert(a[i + 1] == b[i + 1]);
        }
        lemma_common_prefix_len_unique(a.skip(1), b.skip(1), n - 1);
    }
}

/// Tells whether `a` sorts strictly before `b`.
pub fn key_less(a: &[u8], b: &[u8]) -> (r: bool)
    ensures
        r == key_lt(a@, b@),
{
    let mut i: usize = 0;
    while i < a.len() && i < b.len() && a[i] == b[i]
        invariant
            i <= a@.len(),
            i <= b@.len(),
            a@.subrange(0, i as int) == b@.subrange(0, i as int),
        decreases a@.len() - i,
    {
        assert(a@.subrange(0, i + 1) =~= a@.subrange(0, i as int).push(a@[i as int]));
        assert(b@.subrange(0, i + 1) =~= b@.subrange(0, i as int).push(b@[i as int]));
        i = i + 1;
    }
    proof {
        lemma_key_lt_skip_common(a@, b@, i as int);
    }
    if i >= b.len() {
        false
    } else if i >= a.len() {
        true
    } else {
        a[i] < b[i]
    }
}

/// Tells whether two byte strings are equal.
pub fn key_equal(a: &[u8], b: &[u8]) -> (r: bool)
    ensures
        r == (a@ == b@),
{
    if a.len() != b.len() {
        return false;
    }
    let mut i: usize = 0;
    while i < a.len()
        invariant
            i <= a@.len(),
            a@.len() == b@.len(),
            forall|j: int| 0 <= j < i ==> a@[j] == b@[j],
        decreases a@.len() - i,
    {
        if a[i] != b[i] {
            return false;
        }
        i = i + 1;
    }
    assert(a@ =~= b@);
    true
}

/// Tells whether `a` sorts before `b` or equals it.
pub fn key_less_eq(a: &[u8], b: &[u8]) -> (r: bool)
    ensures
        r == key_le(a@, b@),
{
    proof {
        lemma_key_lt_total(a@, b@);
    }
    !key_less(b, a)
}

/// An owned copy of a byte string.
pub fn key_to_vec(a: &[u8]) -> (r: Vec<u8>)
    ensures
        r@ == a@,
{
    let mut r: Vec<u8> = Vec::new();
    let mut i: usize = 0;
    while i < a.len()
        invariant
            i <= a@.len(),
            r@ == a@.subrange(0, i as int),
        decreases a@.len() - i,
    {
        r.push(a[i]);
        assert(a@.subrange(0, i + 1) =~= a@.subrange(0, i as int).push(a@[i as int]));
        i = i + 1;
    }
    assert(a@.subrange(0, a@.len() as int) =~= a@);
    r
}

} // verus!
