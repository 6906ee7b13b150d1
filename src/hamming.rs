use vstd::prelude::*;

verus! {

/// Number of positions, counted over the shorter of the two, where `a` and `b` differ.
pub open spec fn hamming(a: Seq<u8>, b: Seq<u8>) -> nat
    decreases a.len(),
{
    if a.len() == 0 || b.len() == 0 {
        0
    } else {
        hamming(a.drop_last(), b.drop_last()) + (if a.last() != b.last() { 1nat } else { 0nat })
    }
}

/// Extending two equal-length prefixes by one symbol each adds one mismatch exactly when the
/// symbols differ.
pub proof fn lemma_hamming_take_step(a: Seq<u8>, b: Seq<u8>, d: int)
    requires
        0 <= d < a.len(),
        d < b.len(),
    ensures
        hamming(a.take(d + 1), b.take(d + 1)) == hamming(a.take(d), b.take(d)) + (if a[d] != b[d] {
            1nat
        } else {
            0nat
        }),
{
    assert(a.take(d + 1).drop_last() =~= a.take(d));
    assert(b.take(d + 1).drop_last() =~= b.take(d));
}

/// The mismatches of two prefixes never exceed those of the whole strings.
pub proof fn lemma_hamming_prefix_le(a: Seq<u8>, b: Seq<u8>, d: int)
    requires
        0 <= d <= a.len(),
        a.len() == b.len(),
    ensures
        hamming(a.take(d), b.take(d)) <= hamming(a, b),
    decreases a.len() - d,
{
    if d < a.len() {
        lemma_hamming_take_step(a, b, d);
        lemma_hamming_prefix_le(a, b, d + 1);
    } else {
        assert(a.take(d) =~= a);
        assert(b.take(d) =~= b);
    }
}

/// A string is at distance zero from itself.
pub proof fn lemma_hamming_self(a: Seq<u8>)
    ensures
        hamming(a, a) == 0,
    decreases a.len(),
{
    if a.len() > 0 {
        lemma_hamming_self(a.drop_last());
    }
}


/// Two strings of one length at distance zero are equal.
pub proof fn lemma_hamming_zero_eq(a: Seq<u8>, b: Seq<u8>)
    requires
        a.len() == b.len(),
        hamming(a, b) == 0,
    ensures
        a == b,
    decreases a.len(),
{
    if a.len() > 0 {
        lemma_hamming_zero_eq(a.drop_last(), b.drop_last());
        assert(a =~= a.drop_last().push(a.last()));
        assert(b =~= b.drop_last().push(b.last()));
    } else {
        assert(a =~= b);
    }
}

} // verus!
