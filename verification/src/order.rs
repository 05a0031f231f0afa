//! Byte-lexicographic order on byte sequences.

use vstd::prelude::*;

verus! {

/// `a` sorts strictly before `b`: at the first position where they differ `a`
/// holds the smaller byte, or `a` is a proper prefix of `b`.
pub open spec fn bytes_lt(a: Seq<u8>, b: Seq<u8>) -> bool
    decreases a.len(),
{
    if b.len() == 0 {
        false
    } else if a.len() == 0 {
        true
    } else if a[0] != b[0] {
        a[0] < b[0]
    } else {
        bytes_lt(a.skip(1), b.skip(1))
    }
}

/// `a` sorts before `b` or equals it.
pub open spec fn bytes_le(a: Seq<u8>, b: Seq<u8>) -> bool {
    !bytes_lt(b, a)
}

/// No byte sequence sorts before itself.
pub proof fn lemma_lt_irreflexive(a: Seq<u8>)
    ensures
        !bytes_lt(a, a),
    decreases a.len(),
{
    if a.len() > 0 {
        lemma_lt_irreflexive(a.skip(1));
    }
}

/// Two byte sequences of which neither sorts before the other are equal.
pub proof fn lemma_lt_connected(a: Seq<u8>, b: Seq<u8>)
    requires
        !bytes_lt(a, b),
        !bytes_lt(b, a),
    ensures
        a == b,
    decreases a.len(),
{
    if a.len() == 0 || b.len() == 0 {
        assert(a =~= b);
    } else {
        lemma_lt_connected(a.skip(1), b.skip(1));
        assert(a =~= seq![a[0]] + a.skip(1));
        assert(b =~= seq![b[0]] + b.skip(1));
    }
}

/// The order is asymmetric.
pub proof fn lemma_lt_asymmetric(a: Seq<u8>, b: Seq<u8>)
    requires
        bytes_lt(a, b),
    ensures
        !bytes_lt(b, a),
    decreases a.len(),
{
    if a.len() > 0 && b.len() > 0 && a[0] == b[0] {
        lemma_lt_asymmetric(a.skip(1), b.skip(1));
    }
}

/// The strict order is transitive.
pub proof fn lemma_lt_transitive(a: Seq<u8>, b: Seq<u8>, c: Seq<u8>)
    requires
        bytes_lt(a, b),
        bytes_lt(b, c),
    ensures
        bytes_lt(a, c),
    decreases a.len(),
{
    if a.len() > 0 && a[0] == b[0] && b[0] == c[0] {
        lemma_lt_transitive(a.skip(1), b.skip(1), c.skip(1));
    }
}

/// The non-strict order is transitive.
pub proof fn lemma_le_transitive(a: Seq<u8>, b: Seq<u8>, c: Seq<u8>)
    requires
        bytes_le(a, b),
        bytes_le(b, c),
    ensures
        bytes_le(a, c),
{
    if bytes_lt(c, a) {
        if bytes_lt(b, c) {
            lemma_lt_transitive(b, c, a);
        } else {
            lemma_lt_connected(b, c);
        }
    }
}

/// A strictly smaller sequence stays strictly smaller than anything at or above
/// the larger one.
pub proof fn lemma_lt_le_transitive(a: Seq<u8>, b: Seq<u8>, c: Seq<u8>)
    requires
        bytes_lt(a, b),
        bytes_le(b, c),
    ensures
        bytes_lt(a, c),
{
    if bytes_lt(b, c) {
        lemma_lt_transitive(a, b, c);
    } else {
        lemma_lt_connected(b, c);
    }
}

/// Dropping a common prefix of `n` bytes does not change how two sequences compare.
pub proof fn lemma_lt_skip_common(a: Seq<u8>, b: Seq<u8>, n: int)
    requires
        0 <= n <= a.len(),
        n <= b.len(),
        forall|k: int| 0 <= k < n ==> a[k] == b[k],
    ensures
        bytes_lt(a, b) == bytes_lt(a.skip(n), b.skip(n)),
    decreases n,
{
    if n == 0 {
        assert(a.skip(0) =~= a);
        assert(b.skip(0) =~= b);
    } else {
        lemma_lt_skip_common(a, b, n - 1);
        let a1 = a.skip(n - 1);
        let b1 = b.skip(n - 1);
        assert(a1[0] == b1[0]);
        assert(a1.skip(1) =~= a.skip(n));
        assert(b1.skip(1) =~= b.skip(n));
    }
}

/// Two sequences that agree on their first `n` bytes and differ in the next
/// compare as those two bytes do.
pub proof fn lemma_lt_at_first_difference(a: Seq<u8>, b: Seq<u8>, n: int)
    requires
        0 <= n < a.len(),
        n < b.len(),
        forall|k: int| 0 <= k < n ==> a[k] == b[k],
        a[n] != b[n],
    ensures
        bytes_lt(a, b) == (a[n] < b[n]),
{
    lemma_lt_skip_common(a, b, n);
}

/// A sequence sorts strictly before another that starts with it exactly when
/// it is the shorter one.
pub proof fn lemma_lt_prefix(a: Seq<u8>, b: Seq<u8>)
    requires
        a.len() <= b.len(),
        forall|k: int| 0 <= k < a.len() ==> a[k] == b[k],
    ensures
        bytes_lt(a, b) == (a.len() < b.len()),
        !bytes_lt(b, a),
{
    lemma_lt_skip_common(a, b, a.len() as int);
    lemma_lt_skip_common(b, a, a.len() as int);
}

/// Compares two byte slices in byte-lexicographic order.
pub fn less_than(a: &[u8], b: &[u8]) -> (r: bool)
    ensures
        r == bytes_lt(a@, b@),
{
    let mut i: usize = 0;
    while i < a.len() && i < b.len()
        invariant
            i <= a.len(),
            i <= b.len(),
            forall|k: int| 0 <= k < i ==> a@[k] == b@[k],
        decreases a.len() - i,
    {
        if a[i] != b[i] {
            proof {
                lemma_lt_at_first_difference(a@, b@, i as int);
            }
            return a[i] < b[i];
        }
        i += 1;
    }
    proof {
        if i == a.len() {
            lemma_lt_prefix(a@, b@);
        } else {
            lemma_lt_prefix(b@, a@);
        }
    }
    i < b.len()
}

} // verus!
