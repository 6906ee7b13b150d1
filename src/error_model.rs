use vstd::prelude::*;

verus! {

/// Phred value of one quality byte: the byte less the zero point 33.
pub open spec fn phred_value(b: u8) -> int {
    b as int - 33
}

/// What position `i` adds to the error score: its Phred value where `o` and `h` differ.
pub open spec fn position_score(o: Seq<u8>, h: Seq<u8>, p: Seq<u8>, i: int) -> int {
    if o[i] != h[i] {
        phred_value(p[i])
    } else {
        0
    }
}

/// Error score over the first `n` positions.
pub open spec fn error_score_prefix(o: Seq<u8>, h: Seq<u8>, p: Seq<u8>, n: nat) -> int
    decreases n,
{
    if n == 0 {
        0
    } else {
        error_score_prefix(o, h, p, (n - 1) as nat) + position_score(o, h, p, n - 1)
    }
}

/// Sum of the Phred values at the positions where `o` and `h` differ. The likelihood that
/// `o` was read when `h` was the truth is `10^(-error_score(o, h, p) / 10)`: the product of
/// the per-position error probabilities `10^(-q / 10)` over the mismatched positions.
pub open spec fn error_score(o: Seq<u8>, h: Seq<u8>, p: Seq<u8>) -> int {
    error_score_prefix(o, h, p, o.len())
}

/// The error score of `hypothesis` against the `observed` read with qualities `phred`.
pub fn mismatch_error_score(observed: &[u8], hypothesis: &[u8], phred: &[u8]) -> (r: i128)
    requires
        observed@.len() == hypothesis@.len(),
        observed@.len() == phred@.len(),
    ensures
        r == error_score(observed@, hypothesis@, phred@),
        -33 * observed@.len() <= r <= 222 * observed@.len(),
{
    let mut s: i128 = 0;
    let mut i: usize = 0;
    while i < observed.len()
        invariant
            i <= observed@.len(),
            observed@.len() == hypothesis@.len(),
            observed@.len() == phred@.len(),
            s == error_score_prefix(observed@, hypothesis@, phred@, i as nat),
            -33 * i <= s <= 222 * i,
        decreases observed@.len() - i,
    {
        if observed[i] != hypothesis[i] {
            s = s + (phred[i] as i128 - 33);
        }
        i += 1;
    }
    s
}

/// A read scored against itself has error score zero: its likelihood is exactly one.
pub proof fn lemma_error_score_self(s: Seq<u8>, p: Seq<u8>)
    ensures
        error_score(s, s, p) == 0,
{
    lemma_error_score_prefix_self(s, p, s.len());
}

proof fn lemma_error_score_prefix_self(s: Seq<u8>, p: Seq<u8>, n: nat)
    requires
        n <= s.len(),
    ensures
        error_score_prefix(s, s, p, n) == 0,
    decreases n,
{
    if n > 0 {
        lemma_error_score_prefix_self(s, p, (n - 1) as nat);
    }
}


/// Sum of a sequence of integers.
pub open spec fn sum(c: Seq<int>) -> int
    decreases c.len(),
{
    if c.len() == 0 {
        0
    } else {
        sum(c.drop_last()) + c.last()
    }
}

/// The per-position contributions to the error score.
pub open spec fn contributions(o: Seq<u8>, h: Seq<u8>, p: Seq<u8>) -> Seq<int> {
    Seq::new(o.len(), |i: int| position_score(o, h, p, i))
}

/// `s` with its positions rearranged: position `i` holds what stood at `perm[i]`.
pub open spec fn permute(s: Seq<u8>, perm: Seq<int>) -> Seq<u8> {
    Seq::new(perm.len(), |i: int| s[perm[i]])
}

/// `perm` rearranges the positions `0..n`: each in range, none twice.
pub open spec fn is_permutation(perm: Seq<int>, n: int) -> bool {
    &&& perm.len() == n
    &&& forall|i: int| 0 <= i < n ==> 0 <= #[trigger] perm[i] < n
    &&& forall|i: int, j: int| 0 <= i < j < n ==> #[trigger] perm[i] != #[trigger] perm[j]
}

proof fn lemma_score_prefix_is_sum(o: Seq<u8>, h: Seq<u8>, p: Seq<u8>, n: nat)
    requires
        n <= o.len(),
    ensures
        error_score_prefix(o, h, p, n) == sum(contributions(o, h, p).take(n as int)),
    decreases n,
{
    if n > 0 {
        lemma_score_prefix_is_sum(o, h, p, (n - 1) as nat);
        assert(contributions(o, h, p).take(n as int).drop_last() =~= contributions(o, h, p).take(
            n - 1,
        ));
    }
}

proof fn lemma_sum_remove(c: Seq<int>, t: int)
    requires
        0 <= t < c.len(),
    ensures
        sum(c) == sum(c.remove(t)) + c[t],
    decreases c.len(),
{
    if t < c.len() - 1 {
        lemma_sum_remove(c.drop_last(), t);
        assert(c.remove(t).drop_last() =~= c.drop_last().remove(t));
    } else {
        assert(c.remove(t) =~= c.drop_last());
    }
}

/// Rearranging a sequence leaves its sum unchanged.
pub proof fn lemma_sum_permuted(c: Seq<int>, perm: Seq<int>)
    requires
        is_permutation(perm, c.len() as int),
    ensures
        sum(Seq::new(perm.len(), |i: int| c[perm[i]])) == sum(c),
    decreases c.len(),
{
    let n = c.len() as int;
    let pc = Seq::new(perm.len(), |i: int| c[perm[i]]);
    if n > 0 {
        let t = perm[n - 1];
        let c2 = c.remove(t);
        let perm2 = Seq::new(
            (n - 1) as nat,
            |i: int|
                if perm[i] > t {
                    perm[i] - 1
                } else {
                    perm[i]
                },
        );
        assert forall|i: int, j: int| 0 <= i < j < n - 1 implies #[trigger] perm2[i]
            != #[trigger] perm2[j] by {
            assert(perm[i] != perm[j]);
            assert(perm[i] != t && perm[j] != t);
        }
        assert forall|i: int| 0 <= i < n - 1 implies 0 <= #[trigger] perm2[i] < n - 1 by {
            assert(perm[i] != t);
        }
        lemma_sum_permuted(c2, perm2);
        let pc2 = Seq::new(perm2.len(), |i: int| c2[perm2[i]]);
        assert forall|i: int| 0 <= i < n - 1 implies #[trigger] pc2[i] == pc[i] by {
            assert(perm[i] != t);
        }
        assert(pc.drop_last() =~= pc2);
        lemma_sum_remove(c, t);
    } else {
        assert(pc =~= c);
    }
}

/// Scoring is blind to position: rearranging the positions of the observed string, the
/// hypothesis and the qualities alike leaves the error score, and so the likelihood,
/// unchanged.
pub proof fn lemma_error_score_permutation(o: Seq<u8>, h: Seq<u8>, p: Seq<u8>, perm: Seq<int>)
    requires
        h.len() == o.len(),
        p.len() == o.len(),
        is_permutation(perm, o.len() as int),
    ensures
        error_score(permute(o, perm), permute(h, perm), permute(p, perm)) == error_score(o, h, p),
{
    let (po, ph, pp) = (permute(o, perm), permute(h, perm), permute(p, perm));
    let c = contributions(o, h, p);
    lemma_score_prefix_is_sum(o, h, p, o.len());
    lemma_score_prefix_is_sum(po, ph, pp, po.len());
    assert(c.take(o.len() as int) =~= c);
    let pc = contributions(po, ph, pp);
    assert(pc.take(po.len() as int) =~= pc);
    assert(pc =~= Seq::new(perm.len(), |i: int| c[perm[i]]));
    lemma_sum_permuted(c, perm);
}

} // verus!
