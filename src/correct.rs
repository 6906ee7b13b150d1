use vstd::prelude::*;

use crate::error_model::{
    error_score, is_permutation, lemma_sum_permuted, mismatch_error_score, sum,
};
use crate::priors::{get0, PriorTable};
use crate::trie::{is_ball_listing, listing_view, within, Trie};

verus! {

/// Likelihoods are held in fixed point: `SCALE` stands for one, relative to the best-scoring
/// candidate of nonzero weight.
pub const SCALE: u64 = 1_000_000_000_000_000_000;

/// `SCALE * 10^(-r / 10)` rounded to the nearest integer, for `r` in `0..10`.
pub open spec fn tenth_power(r: int) -> nat {
    if r <= 0 {
        1_000_000_000_000_000_000
    } else if r == 1 {
        794328234724281502
    } else if r == 2 {
        630957344480193249
    } else if r == 3 {
        501187233627272285
    } else if r == 4 {
        398107170553497251
    } else if r == 5 {
        316227766016837933
    } else if r == 6 {
        251188643150958011
    } else if r == 7 {
        199526231496887960
    } else if r == 8 {
        158489319246111349
    } else {
        125892541179416721
    }
}

/// `a` divided by ten, rounding up.
pub open spec fn ceil_tenth(a: nat) -> nat {
    (a + 9) / 10
}

/// `a` divided by ten `q` times, rounding up each time: it stays at least one where `a` is,
/// and each division adds less than one unit.
pub open spec fn shrink(a: nat, q: nat) -> nat
    decreases q,
{
    if q == 0 {
        a
    } else {
        shrink(ceil_tenth(a), (q - 1) as nat)
    }
}

proof fn lemma_shrink_bounds(a: nat, q: nat)
    ensures
        shrink(a, q) <= a,
        a >= 1 ==> shrink(a, q) >= 1,
    decreases q,
{
    if q > 0 {
        lemma_shrink_bounds(ceil_tenth(a), (q - 1) as nat);
    }
}

proof fn lemma_shrink_one(a: nat, q: nat)
    requires
        a <= 1,
    ensures
        shrink(a, q) == a,
    decreases q,
{
    if q > 0 {
        lemma_shrink_one(a, (q - 1) as nat);
    }
}

/// The least score among the first `n` candidates whose weight is not zero.
pub open spec fn weighted_min(s: Seq<int>, w: Seq<nat>, n: nat) -> Option<int>
    decreases n,
{
    if n == 0 {
        None
    } else {
        let rest = weighted_min(s, w, (n - 1) as nat);
        if w[n - 1] == 0 {
            rest
        } else {
            match rest {
                None => Some(s[n - 1]),
                Some(m) => Some(if s[n - 1] < m { s[n - 1] } else { m }),
            }
        }
    }
}

/// Unnormalised posterior of candidate `i`, in units where the best-scoring candidate of
/// nonzero weight (score `m`) has `SCALE` per unit of weight: `w * SCALE * 10^(-d / 10)` for
/// the score `d` above `m`. It is the weight times the tenth power for `d % 10`, divided by
/// `10^(d / 10)` rounding up (divided by ten once per whole ten, each time rounding up, which
/// comes to the same): so a candidate of nonzero weight never falls to zero, and the result
/// exceeds `w * SCALE * 10^(-d / 10)` by less than one unit, beside the rounding of the tenth
/// power itself.
pub open spec fn posterior(s: Seq<int>, w: Seq<nat>, m: int, i: int) -> nat {
    if w[i] == 0 || s[i] < m {
        0
    } else {
        let d = (s[i] - m) as nat;
        shrink(w[i] * tenth_power((d % 10) as int), d / 10)
    }
}

/// Sum of the posteriors of the first `n` candidates.
pub open spec fn posterior_sum(s: Seq<int>, w: Seq<nat>, m: int, n: nat) -> nat
    decreases n,
{
    if n == 0 {
        0
    } else {
        posterior_sum(s, w, m, (n - 1) as nat) + posterior(s, w, m, n - 1)
    }
}

/// Candidate `i` holds at least 0.975 of the normalised posterior (and the normaliser is
/// not zero).
pub open spec fn confident(s: Seq<int>, w: Seq<nat>, i: int) -> bool {
    match weighted_min(s, w, s.len()) {
        None => false,
        Some(m) => posterior(s, w, m, i) > 0 && 40 * posterior(s, w, m, i) >= 39 * posterior_sum(
            s,
            w,
            m,
            s.len(),
        ),
    }
}

/// The error scores of the candidates against the read.
pub open spec fn candidate_scores(u: Seq<u8>, p: Seq<u8>, similar: Seq<Vec<u8>>) -> Seq<int> {
    Seq::new(similar.len(), |i: int| error_score(u, similar[i]@, p))
}

/// The prior weights as natural numbers.
pub open spec fn weights(counts: Seq<usize>) -> Seq<nat> {
    Seq::new(counts.len(), |i: int| counts[i] as nat)
}

/// The index of the candidate chosen: none of none, the only one of one, else the first
/// confident one, if any.
pub open spec fn decision(s: Seq<int>, w: Seq<nat>) -> Option<int> {
    if s.len() == 0 {
        None
    } else if s.len() == 1 {
        Some(0)
    } else {
        first_confident(s, w, s.len() as int)
    }
}

/// The first confident candidate among the first `n`.
pub open spec fn first_confident(s: Seq<int>, w: Seq<nat>, n: int) -> Option<int>
    decreases n,
{
    if n <= 0 {
        None
    } else {
        match first_confident(s, w, n - 1) {
            Some(i) => Some(i),
            None => if confident(s, w, n - 1) {
                Some(n - 1)
            } else {
                None
            },
        }
    }
}


/// The tenth power for `r` in `0..10`.
fn tenth_power_of(r: u128) -> (t: u64)
    requires
        r < 10,
    ensures
        t == tenth_power(r as int),
{
    if r == 0 {
        1_000_000_000_000_000_000
    } else if r == 1 {
        794328234724281502
    } else if r == 2 {
        630957344480193249
    } else if r == 3 {
        501187233627272285
    } else if r == 4 {
        398107170553497251
    } else if r == 5 {
        316227766016837933
    } else if r == 6 {
        251188643150958011
    } else if r == 7 {
        199526231496887960
    } else if r == 8 {
        158489319246111349
    } else {
        125892541179416721
    }
}

/// The likelihood `10^(-d / 10)` of an error score `d` above the best, as a pair `(t, e)`
/// standing for `t / SCALE * 10^(-e)`: `t` is the tenth power for `d % 10` and `e` is `d / 10`.
/// It is never zero, however large `d` is.
pub fn likelihood_of_errors(d: u128) -> (r: (u64, u128))
    ensures
        r.0 == tenth_power((d % 10) as int),
        r.1 == d / 10,
        0 < r.0 <= SCALE,
{
    (tenth_power_of(d % 10), d / 10)
}

/// `a` divided by ten `q` times, rounding up each time.
fn shrink_of(a: u128, q: u128) -> (r: u128)
    ensures
        r == shrink(a as nat, q as nat),
{
    let mut v: u128 = a;
    let mut k: u128 = 0;
    while k < q && v > 1
        invariant
            k <= q,
            shrink(v as nat, (q - k) as nat) == shrink(a as nat, q as nat),
        decreases v,
    {
        let ghost before = v;
        v = v / 10 + if v % 10 == 0 { 0 } else { 1 };
        assert(v == ceil_tenth(before as nat));
        assert(shrink(before as nat, (q - k) as nat) == shrink(v as nat, (q - k - 1) as nat));
        k = k + 1;
    }
    proof {
        if k < q {
            lemma_shrink_one(v as nat, (q - k) as nat);
        }
    }
    v
}

/// Bound on the magnitude of error scores handled here.
pub open spec fn score_bound() -> int {
    0x1_0000_0000_0000_0000_0000
}

/// An optional machine integer as a mathematical one.
pub open spec fn opt_int(o: Option<i128>) -> Option<int> {
    match o {
        Some(m) => Some(m as int),
        None => None,
    }
}

/// The scores as mathematical integers.
pub open spec fn ints(scores: Seq<i128>) -> Seq<int> {
    Seq::new(scores.len(), |i: int| scores[i] as int)
}

/// All scores lie within the bound.
pub open spec fn scores_bounded(scores: Seq<i128>) -> bool {
    forall|i: int| 0 <= i < scores.len() ==> -score_bound() <= #[trigger] scores[i] <= score_bound()
}

/// The least score of a candidate of nonzero weight.
fn weighted_min_of(scores: &Vec<i128>, counts: &Vec<usize>) -> (r: Option<i128>)
    requires
        scores@.len() == counts@.len(),
        scores_bounded(scores@),
    ensures
        opt_int(r) == weighted_min(ints(scores@), weights(counts@), scores@.len()),
        match r {
            Some(m) => -score_bound() <= m <= score_bound(),
            None => true,
        },
{
    let ghost s = ints(scores@);
    let ghost w = weights(counts@);
    let mut best: Option<i128> = None;
    let mut i: usize = 0;
    while i < scores.len()
        invariant
            i <= scores@.len(),
            scores@.len() == counts@.len(),
            scores_bounded(scores@),
            s == ints(scores@),
            w == weights(counts@),
            opt_int(best) == weighted_min(s, w, i as nat),
            match best {
                Some(m) => -score_bound() <= m <= score_bound(),
                None => true,
            },
        decreases scores@.len() - i,
    {
        if counts[i] != 0 {
            best = match best {
                None => Some(scores[i]),
                Some(m) => Some(if scores[i] < m { scores[i] } else { m }),
            };
        }
        i += 1;
    }
    best
}

/// The posterior of candidate `i` given the least weighted score `m`.
fn posterior_of(scores: &Vec<i128>, counts: &Vec<usize>, m: i128, i: usize) -> (r: u128)
    requires
        scores@.len() == counts@.len(),
        scores_bounded(scores@),
        -score_bound() <= m <= score_bound(),
        i < scores@.len(),
    ensures
        r == posterior(ints(scores@), weights(counts@), m as int, i as int),
        r <= usize::MAX as nat * SCALE,
{
    if counts[i] == 0 || scores[i] < m {
        return 0;
    }
    let d: u128 = (scores[i] - m) as u128;
    let (l, e) = likelihood_of_errors(d);
    let w = counts[i];
    proof {
        assert(w as nat * l as nat <= usize::MAX as nat * SCALE) by (nonlinear_arith)
            requires
                w <= usize::MAX,
                l <= SCALE,
        ;
        lemma_shrink_bounds(w as nat * l as nat, e as nat);
    }
    shrink_of(w as u128 * l as u128, e)
}


/// Sum of the posteriors of the first `n` candidates other than `i`.
pub open spec fn others_sum(s: Seq<int>, w: Seq<nat>, m: int, i: int, n: nat) -> nat
    decreases n,
{
    if n == 0 {
        0
    } else {
        others_sum(s, w, m, i, (n - 1) as nat) + (if n - 1 == i {
            0
        } else {
            posterior(s, w, m, n - 1)
        })
    }
}

proof fn lemma_others_sum(s: Seq<int>, w: Seq<nat>, m: int, i: int, n: nat)
    requires
        0 <= i,
    ensures
        posterior_sum(s, w, m, n) == others_sum(s, w, m, i, n) + (if i < n {
            posterior(s, w, m, i)
        } else {
            0
        }),
    decreases n,
{
    if n > 0 {
        lemma_others_sum(s, w, m, i, (n - 1) as nat);
    }
}

proof fn lemma_others_sum_mono(s: Seq<int>, w: Seq<nat>, m: int, i: int, a: nat, b: nat)
    requires
        a <= b,
    ensures
        others_sum(s, w, m, i, a) <= others_sum(s, w, m, i, b),
    decreases b - a,
{
    if a < b {
        lemma_others_sum_mono(s, w, m, i, a, (b - 1) as nat);
    }
}

/// Whether candidate `i` is confident, given that `m` is the least weighted score.
fn is_confident(scores: &Vec<i128>, counts: &Vec<usize>, m: i128, i: usize) -> (r: bool)
    requires
        scores@.len() == counts@.len(),
        scores_bounded(scores@),
        weighted_min(ints(scores@), weights(counts@), scores@.len()) == Some(m as int),
        -score_bound() <= m <= score_bound(),
        i < scores@.len(),
    ensures
        r == confident(ints(scores@), weights(counts@), i as int),
{
    let ghost s = ints(scores@);
    let ghost w = weights(counts@);
    let ghost n = scores@.len();
    assert(s.len() == n);
    let p = posterior_of(scores, counts, m, i);
    proof {
        lemma_others_sum(s, w, m as int, i as int, n);
    }
    if p == 0 {
        return false;
    }
    let bound = p / 39;
    let mut acc: u128 = 0;
    let mut j: usize = 0;
    while j < scores.len()
        invariant
            scores@.len() == counts@.len(),
            scores_bounded(scores@),
            -score_bound() <= m <= score_bound(),
            s == ints(scores@),
            w == weights(counts@),
            n == scores@.len(),
            i < n,
            j <= n,
            acc == others_sum(s, w, m as int, i as int, j as nat),
            acc <= bound,
            bound == p / 39,
            p == posterior(s, w, m as int, i as int),
            p > 0,
            weighted_min(s, w, n) == Some(m as int),
            posterior_sum(s, w, m as int, n) == others_sum(s, w, m as int, i as int, n) + p,
        decreases n - j,
    {
        if j != i {
            let q = posterior_of(scores, counts, m, j);
            if q > bound - acc {
                proof {
                    lemma_others_sum_mono(s, w, m as int, i as int, (j + 1) as nat, n);
                    let o = others_sum(s, w, m as int, i as int, n);
                    assert(39 * o > p) by (nonlinear_arith)
                        requires
                            o > bound,
                            bound == p / 39,
                    ;
                }
                return false;
            }
            acc = acc + q;
        }
        j += 1;
    }
    proof {
        let o = others_sum(s, w, m as int, i as int, n);
        assert(39 * o <= p) by (nonlinear_arith)
            requires
                o <= bound,
                bound == p / 39,
        ;
    }
    true
}

proof fn lemma_first_confident_stays(s: Seq<int>, w: Seq<nat>, a: int, b: int, i: int)
    requires
        a <= b,
        first_confident(s, w, a) == Some(i),
    ensures
        first_confident(s, w, b) == Some(i),
    decreases b - a,
{
    if a < b {
        lemma_first_confident_stays(s, w, a, b - 1, i);
    }
}

/// Picks among `similar`, the whitelisted strings near the read `uncorrected` with
/// qualities `uncorrected_phred`, the one it should be corrected to, given how often each
/// was seen (`similar_counts`): none of none, the only one of one, else the first whose
/// share of the normalised posterior is at least 0.975, if any.
pub fn correct_barcode(
    uncorrected: &[u8],
    uncorrected_phred: &[u8],
    similar: &Vec<Vec<u8>>,
    similar_counts: &Vec<usize>,
) -> (r: Option<Vec<u8>>)
    requires
        uncorrected@.len() == uncorrected_phred@.len(),
        similar@.len() == similar_counts@.len(),
        forall|i: int| 0 <= i < similar@.len() ==> (#[trigger] similar@[i])@.len() == uncorrected@.len(),
    ensures
        match decision(
            candidate_scores(uncorrected@, uncorrected_phred@, similar@),
            weights(similar_counts@),
        ) {
            None => r is None,
            Some(i) => r is Some && r->0@ == similar@[i]@,
        },
{
    if similar.len() == 0 {
        return None;
    } else if similar.len() == 1 {
        let only = similar[0].clone();
        assert(only@ =~= similar@[0]@);
        return Some(only);
    }
    let ghost cs = candidate_scores(uncorrected@, uncorrected_phred@, similar@);
    let ghost w = weights(similar_counts@);
    let mut scores: Vec<i128> = Vec::new();
    let ulen = uncorrected.len();
    let mut i: usize = 0;
    while i < similar.len()
        invariant
            i <= similar@.len(),
            uncorrected@.len() == uncorrected_phred@.len(),
            ulen == uncorrected@.len(),
            forall|k: int| 0 <= k < similar@.len() ==> (#[trigger] similar@[k])@.len() == uncorrected@.len(),
            scores@.len() == i,
            scores_bounded(scores@),
            forall|k: int| 0 <= k < i ==> scores@[k] as int == #[trigger] cs[k],
            cs == candidate_scores(uncorrected@, uncorrected_phred@, similar@),
        decreases similar@.len() - i,
    {
        let e = mismatch_error_score(uncorrected, similar[i].as_slice(), uncorrected_phred);
        assert(-score_bound() <= e <= score_bound());
        scores.push(e);
        assert(scores@[i as int] == e);
        i += 1;
    }
    assert(ints(scores@) =~= cs);
    let best = weighted_min_of(&scores, similar_counts);
    let m = match best {
        None => {
            proof {
                assert forall|k: int| 0 <= k <= cs.len() implies first_confident(cs, w, k) is None by {
                    lemma_first_confident_none(cs, w, k);
                }
            }
            return None;
        },
        Some(m) => m,
    };
    let mut k: usize = 0;
    while k < scores.len()
        invariant
            scores@.len() == similar_counts@.len(),
            scores@.len() == similar@.len(),
            scores@.len() >= 2,
            scores_bounded(scores@),
            ints(scores@) == cs,
            cs == candidate_scores(uncorrected@, uncorrected_phred@, similar@),
            w == weights(similar_counts@),
            weighted_min(cs, w, scores@.len()) == Some(m as int),
            -score_bound() <= m <= score_bound(),
            k <= scores@.len(),
            first_confident(cs, w, k as int) is None,
        decreases scores@.len() - k,
    {
        if is_confident(&scores, similar_counts, m, k) {
            proof {
                assert(confident(cs, w, k as int));
                assert(first_confident(cs, w, k + 1) == Some(k as int));
                lemma_first_confident_stays(cs, w, k + 1, cs.len() as int, k as int);
                assert(cs.len() == similar@.len());
                assert(decision(cs, w) == Some(k as int));
            }
            let chosen = similar[k].clone();
            assert(chosen@ =~= similar@[k as int]@);
            assert(decision(
                candidate_scores(uncorrected@, uncorrected_phred@, similar@),
                weights(similar_counts@),
            ) == Some(k as int));
            return Some(chosen);
        }
        k += 1;
    }
    None
}

proof fn lemma_first_confident_none(s: Seq<int>, w: Seq<nat>, n: int)
    requires
        weighted_min(s, w, s.len()) is None,
    ensures
        first_confident(s, w, n) is None,
    decreases n,
{
    if n > 0 {
        lemma_first_confident_none(s, w, n - 1);
    }
}


/// The strings of a neighbour listing.
pub open spec fn listed_strings(n: Seq<(Vec<u8>, usize)>) -> Seq<Vec<u8>> {
    Seq::new(n.len(), |i: int| n[i].0)
}

/// The prior weights of the strings of a neighbour listing, zero for one the table lacks.
pub open spec fn listed_weights(priors: Map<Seq<u8>, nat>, n: Seq<(Vec<u8>, usize)>) -> Seq<nat> {
    Seq::new(n.len(), |i: int| get0(priors, n[i].0@))
}

/// `r` is what the decision over the listing `n` picks.
pub open spec fn picks(
    seq: Seq<u8>,
    qual: Seq<u8>,
    priors: Map<Seq<u8>, nat>,
    n: Seq<(Vec<u8>, usize)>,
    r: Option<Vec<u8>>,
) -> bool {
    match decision(
        candidate_scores(seq, qual, listed_strings(n)),
        listed_weights(priors, n),
    ) {
        None => r is None,
        Some(i) => r is Some && r->0@ == n[i].0@,
    }
}

/// A copy of the bytes.
pub fn copy_bytes(s: &[u8]) -> (r: Vec<u8>)
    ensures
        r@ == s@,
{
    let mut r: Vec<u8> = Vec::new();
    let mut i: usize = 0;
    while i < s.len()
        invariant
            i <= s@.len(),
            r@ == s@.take(i as int),
        decreases s@.len() - i,
    {
        r.push(s[i]);
        i += 1;
        assert(r@ =~= s@.take(i as int));
    }
    assert(s@.take(i as int) =~= s@);
    r
}

/// Corrects one read `seq` with qualities `qual`: a whitelisted read stands as it is;
/// otherwise the decision runs over the whitelisted strings within `max_mismatches`
/// mismatches, weighted by their priors. The result is what the decision picks over every
/// exact listing of those strings, whatever its order.
pub fn correct_read(
    whitelist: &Trie,
    priors: &PriorTable,
    seq: &[u8],
    qual: &[u8],
    max_mismatches: usize,
) -> (r: Option<Vec<u8>>)
    requires
        whitelist.wf(),
        priors.wf(),
        seq@.len() == qual@.len(),
    ensures
        whitelist@.contains(seq@) ==> r is Some && r->0@ == seq@,
        !whitelist@.contains(seq@) ==> exists|n: Seq<(Vec<u8>, usize)>|
            is_ball_listing(whitelist@, seq@, max_mismatches as nat, listing_view(n)) && picks(
                seq@,
                qual@,
                priors@,
                n,
                r,
            ),
        !whitelist@.contains(seq@) ==> forall|n: Seq<(Vec<u8>, usize)>|
            is_ball_listing(whitelist@, seq@, max_mismatches as nat, listing_view(n)) ==> picks(
                seq@,
                qual@,
                priors@,
                n,
                r,
            ),
{
    if whitelist.contains(seq) {
        return Some(copy_bytes(seq));
    }
    let near = whitelist.get_words_within_hamming_distance(seq, max_mismatches);
    let ghost lv = listing_view(near@);
    let mut similar: Vec<Vec<u8>> = Vec::new();
    let mut counts: Vec<usize> = Vec::new();
    let mut i: usize = 0;
    while i < near.len()
        invariant
            i <= near@.len(),
            priors.wf(),
            lv == listing_view(near@),
            is_ball_listing(whitelist@, seq@, max_mismatches as nat, lv),
            similar@.len() == i,
            counts@.len() == i,
            forall|k: int| 0 <= k < i ==> (#[trigger] similar@[k])@ == near@[k].0@,
            forall|k: int| 0 <= k < i ==> #[trigger] counts@[k] as nat == get0(priors@, near@[k].0@),
            forall|k: int| 0 <= k < i ==> (#[trigger] similar@[k])@.len() == seq@.len(),
        decreases near@.len() - i,
    {
        let c = near[i].0.clone();
        assert(c@ =~= near@[i as int].0@);
        assert(lv[i as int].0 == near@[i as int].0@);
        counts.push(priors.get(near[i].0.as_slice()));
        similar.push(c);
        i += 1;
    }
    let r = correct_barcode(seq, qual, &similar, &counts);
    proof {
        let cs = candidate_scores(seq@, qual@, similar@);
        assert(cs =~= candidate_scores(seq@, qual@, listed_strings(near@))) by {
            assert forall|k: int| 0 <= k < cs.len() implies cs[k] == candidate_scores(seq@, qual@, listed_strings(near@))[k] by {
                assert(similar@[k]@ == near@[k].0@);
            }
        }
        assert(weights(counts@) =~= listed_weights(priors@, near@));
        match decision(cs, weights(counts@)) {
            Some(k) => {
                lemma_decision_in_range(cs, weights(counts@));
                assert(similar@[k]@ == near@[k].0@);
            },
            None => {},
        }
        assert(picks(seq@, qual@, priors@, near@, r));
        assert forall|n: Seq<(Vec<u8>, usize)>|
            is_ball_listing(whitelist@, seq@, max_mismatches as nat, listing_view(n)) implies picks(
            seq@,
            qual@,
            priors@,
            n,
            r,
        ) by {
            lemma_pick_independent_of_listing(
                whitelist@,
                seq@,
                qual@,
                priors@,
                max_mismatches as nat,
                near@,
                n,
                r,
            );
        }
    }
    r
}


proof fn lemma_first_confident_in_range(s: Seq<int>, w: Seq<nat>, n: int)
    ensures
        match first_confident(s, w, n) {
            Some(i) => 0 <= i < n,
            None => true,
        },
    decreases n,
{
    if n > 0 {
        lemma_first_confident_in_range(s, w, n - 1);
    }
}

/// The decision picks a candidate that exists.
pub proof fn lemma_decision_in_range(s: Seq<int>, w: Seq<nat>)
    ensures
        match decision(s, w) {
            Some(i) => 0 <= i < s.len(),
            None => true,
        },
{
    lemma_first_confident_in_range(s, w, s.len() as int);
}


proof fn lemma_weighted_min_witness(s: Seq<int>, w: Seq<nat>, n: nat)
    requires
        n <= s.len(),
        n <= w.len(),
    ensures
        weighted_min(s, w, n) is Some ==> exists|j: int|
            0 <= j < n && w[j] > 0 && #[trigger] s[j] == weighted_min(s, w, n)->0,
    decreases n,
{
    if n > 0 {
        lemma_weighted_min_witness(s, w, (n - 1) as nat);
        let rest = weighted_min(s, w, (n - 1) as nat);
        if w[n - 1] != 0 {
            match rest {
                None => {
                    assert(s[n - 1] == weighted_min(s, w, n)->0);
                },
                Some(m) => {
                    let j = choose|j: int| 0 <= j < n - 1 && w[j] > 0 && #[trigger] s[j] == m;
                    if s[n - 1] < m {
                        assert(s[n - 1] == weighted_min(s, w, n)->0);
                    } else {
                        assert(s[j] == weighted_min(s, w, n)->0);
                    }
                },
            }
        }
    }
}

proof fn lemma_weighted_min_attained(s: Seq<int>, w: Seq<nat>, n: nat, i: int)
    requires
        n <= s.len(),
        n <= w.len(),
        0 <= i < n,
        w[i] > 0,
    ensures
        weighted_min(s, w, n) is Some,
        exists|j: int| 0 <= j < n && w[j] > 0 && #[trigger] s[j] == weighted_min(s, w, n)->0,
    decreases n,
{
    if i < n - 1 {
        lemma_weighted_min_attained(s, w, (n - 1) as nat, i);
    }
    lemma_weighted_min_witness(s, w, n);
}

/// Where some candidate has a nonzero weight, the posteriors have a positive sum: the
/// normalised scores, each posterior over that sum, are defined and sum to one.
pub proof fn lemma_normaliser_positive(s: Seq<int>, w: Seq<nat>, i: int)
    requires
        s.len() == w.len(),
        0 <= i < s.len(),
        w[i] > 0,
    ensures
        weighted_min(s, w, s.len()) is Some,
        posterior_sum(s, w, weighted_min(s, w, s.len())->0, s.len()) > 0,
{
    lemma_weighted_min_attained(s, w, s.len(), i);
    let m = weighted_min(s, w, s.len())->0;
    let j = choose|j: int| 0 <= j < s.len() && w[j] > 0 && #[trigger] s[j] == m;
    assert(shrink(w[j] * tenth_power(0), 0) == w[j] * SCALE);
    assert(posterior(s, w, m, j) > 0) by (nonlinear_arith)
        requires
            posterior(s, w, m, j) == w[j] * SCALE,
            w[j] > 0,
    ;
    lemma_others_sum(s, w, m, j, s.len());
}


/// A lone candidate is chosen whatever its likelihood and weight.
pub proof fn lemma_single_candidate_chosen(s: Seq<int>, w: Seq<nat>)
    requires
        s.len() == 1,
    ensures
        decision(s, w) == Some(0int),
{
}

proof fn lemma_others_ge(s: Seq<int>, w: Seq<nat>, m: int, i: int, j: int, n: nat)
    requires
        0 <= j < n,
        i != j,
    ensures
        others_sum(s, w, m, i, n) >= posterior(s, w, m, j),
    decreases n,
{
    if j < n - 1 {
        lemma_others_ge(s, w, m, i, j, (n - 1) as nat);
    }
}

/// No two candidates are both confident: each would hold at least 0.975 of one whole.
pub proof fn lemma_confident_unique(s: Seq<int>, w: Seq<nat>, i: int, j: int)
    requires
        0 <= i < s.len(),
        0 <= j < s.len(),
        confident(s, w, i),
        confident(s, w, j),
    ensures
        i == j,
{
    if i != j {
        let m = weighted_min(s, w, s.len())->0;
        let n = s.len();
        lemma_others_sum(s, w, m, i, n);
        lemma_others_ge(s, w, m, i, j, n);
        let pi = posterior(s, w, m, i);
        let pj = posterior(s, w, m, j);
        let t = posterior_sum(s, w, m, n);
        assert(false) by (nonlinear_arith)
            requires
                pi > 0,
                pj > 0,
                40 * pi >= 39 * t,
                40 * pj >= 39 * t,
                t >= pi + pj,
        ;
    }
}


/// `perm` rearranges `0..n` and `inv` undoes it.
pub open spec fn is_bijection(perm: Seq<int>, inv: Seq<int>, n: int) -> bool {
    &&& is_permutation(perm, n)
    &&& is_permutation(inv, n)
    &&& forall|i: int| 0 <= i < n ==> #[trigger] perm[inv[i]] == i
    &&& forall|i: int| 0 <= i < n ==> #[trigger] inv[perm[i]] == i
}

/// The scores in the order `perm` gives.
pub open spec fn reorder_scores(s: Seq<int>, perm: Seq<int>) -> Seq<int> {
    Seq::new(perm.len(), |i: int| s[perm[i]])
}

/// The weights in the order `perm` gives.
pub open spec fn reorder_weights(w: Seq<nat>, perm: Seq<int>) -> Seq<nat> {
    Seq::new(perm.len(), |i: int| w[perm[i]])
}

proof fn lemma_weighted_min_lower(s: Seq<int>, w: Seq<nat>, n: nat, k: int)
    requires
        n <= s.len(),
        n <= w.len(),
        0 <= k < n,
        w[k] > 0,
    ensures
        weighted_min(s, w, n) is Some,
        weighted_min(s, w, n)->0 <= s[k],
    decreases n,
{
    if k < n - 1 {
        lemma_weighted_min_lower(s, w, (n - 1) as nat, k);
    }
    if n > 1 && weighted_min(s, w, (n - 1) as nat) is Some {
        let m = weighted_min(s, w, (n - 1) as nat)->0;
        assert(weighted_min(s, w, n)->0 <= m);
    }
}

proof fn lemma_weighted_min_reordered(s: Seq<int>, w: Seq<nat>, perm: Seq<int>, inv: Seq<int>)
    requires
        s.len() == w.len(),
        is_bijection(perm, inv, s.len() as int),
    ensures
        weighted_min(reorder_scores(s, perm), reorder_weights(w, perm), s.len()) == weighted_min(
            s,
            w,
            s.len(),
        ),
{
    let n = s.len();
    let sp = reorder_scores(s, perm);
    let wp = reorder_weights(w, perm);
    lemma_weighted_min_witness(s, w, n);
    lemma_weighted_min_witness(sp, wp, n);
    if weighted_min(s, w, n) is Some {
        let j = choose|j: int| 0 <= j < n && w[j] > 0 && #[trigger] s[j] == weighted_min(s, w, n)->0;
        let jp = inv[j];
        assert(sp[jp] == s[j] && wp[jp] == w[j]);
        lemma_weighted_min_lower(sp, wp, n, jp);
        let k = choose|k: int|
            0 <= k < n && wp[k] > 0 && #[trigger] sp[k] == weighted_min(sp, wp, n)->0;
        lemma_weighted_min_lower(s, w, n, perm[k]);
    } else if weighted_min(sp, wp, n) is Some {
        let k = choose|k: int|
            0 <= k < n && wp[k] > 0 && #[trigger] sp[k] == weighted_min(sp, wp, n)->0;
        lemma_weighted_min_lower(s, w, n, perm[k]);
    }
}

proof fn lemma_posterior_sum_is_sum(s: Seq<int>, w: Seq<nat>, m: int, n: nat)
    ensures
        posterior_sum(s, w, m, n) == sum(Seq::new(n, |i: int| posterior(s, w, m, i) as int)),
    decreases n,
{
    if n > 0 {
        lemma_posterior_sum_is_sum(s, w, m, (n - 1) as nat);
        assert(Seq::new(n, |i: int| posterior(s, w, m, i) as int).drop_last() =~= Seq::new(
            (n - 1) as nat,
            |i: int| posterior(s, w, m, i) as int,
        ));
    }
}

proof fn lemma_confident_reordered(
    s: Seq<int>,
    w: Seq<nat>,
    perm: Seq<int>,
    inv: Seq<int>,
    i: int,
)
    requires
        s.len() == w.len(),
        is_bijection(perm, inv, s.len() as int),
        0 <= i < s.len(),
    ensures
        confident(reorder_scores(s, perm), reorder_weights(w, perm), i) == confident(s, w, perm[i]),
{
    let n = s.len();
    let sp = reorder_scores(s, perm);
    let wp = reorder_weights(w, perm);
    lemma_weighted_min_reordered(s, w, perm, inv);
    if weighted_min(s, w, n) is Some {
        let m = weighted_min(s, w, n)->0;
        let c = Seq::new(n, |k: int| posterior(s, w, m, k) as int);
        lemma_posterior_sum_is_sum(s, w, m, n);
        lemma_posterior_sum_is_sum(sp, wp, m, n);
        assert(Seq::new(n, |k: int| posterior(sp, wp, m, k) as int) =~= Seq::new(
            perm.len(),
            |k: int| c[perm[k]],
        ));
        lemma_sum_permuted(c, perm);
        assert(posterior(sp, wp, m, i) == posterior(s, w, m, perm[i]));
    }
}

proof fn lemma_first_confident_exact(s: Seq<int>, w: Seq<nat>, n: int)
    requires
        0 <= n <= s.len(),
    ensures
        match first_confident(s, w, n) {
            Some(i) => 0 <= i < n && confident(s, w, i),
            None => forall|i: int| 0 <= i < n ==> !confident(s, w, i),
        },
    decreases n,
{
    if n > 0 {
        lemma_first_confident_exact(s, w, n - 1);
    }
}

/// The decision does not depend on the order of the candidates: rearranging the scores and
/// weights alike leads to the same candidate, at its new place.
pub proof fn lemma_decision_reordered(s: Seq<int>, w: Seq<nat>, perm: Seq<int>, inv: Seq<int>)
    requires
        s.len() == w.len(),
        is_bijection(perm, inv, s.len() as int),
    ensures
        match decision(s, w) {
            Some(j) => decision(reorder_scores(s, perm), reorder_weights(w, perm)) == Some(inv[j]),
            None => decision(reorder_scores(s, perm), reorder_weights(w, perm)) is None,
        },
{
    let n = s.len() as int;
    let sp = reorder_scores(s, perm);
    let wp = reorder_weights(w, perm);
    if n == 1 {
        assert(perm[inv[0]] == 0);
        assert(inv[0] == 0);
    } else if n >= 2 {
        lemma_first_confident_exact(s, w, n);
        lemma_first_confident_exact(sp, wp, n);
        match first_confident(s, w, n) {
            Some(j) => {
                lemma_confident_reordered(s, w, perm, inv, inv[j]);
                match first_confident(sp, wp, n) {
                    Some(k) => {
                        lemma_confident_reordered(s, w, perm, inv, k);
                        lemma_confident_unique(s, w, j, perm[k]);
                    },
                    None => {},
                }
            },
            None => {
                match first_confident(sp, wp, n) {
                    Some(k) => {
                        lemma_confident_reordered(s, w, perm, inv, k);
                    },
                    None => {},
                }
            },
        }
    }
}


/// The strings of a neighbour listing as mathematical values.
pub open spec fn listed_views(n: Seq<(Vec<u8>, usize)>) -> Seq<Seq<u8>> {
    Seq::new(n.len(), |i: int| n[i].0@)
}

proof fn lemma_listing_set(
    words: Set<Seq<u8>>,
    q: Seq<u8>,
    k: nat,
    a: Seq<(Vec<u8>, usize)>,
)
    requires
        is_ball_listing(words, q, k, listing_view(a)),
    ensures
        listed_views(a).no_duplicates(),
        listed_views(a).to_set() == Set::new(|w: Seq<u8>| words.contains(w) && within(q, k, w)),
        listed_views(a).len() == listed_views(a).to_set().len(),
{
    let la = listing_view(a);
    let sa = listed_views(a);
    assert forall|i: int, j: int| 0 <= i < sa.len() && 0 <= j < sa.len() && i != j implies sa[i]
        != sa[j] by {
        assert(la[i].0 == sa[i] && la[j].0 == sa[j]);
        if i < j {
            assert(la[i].0 != la[j].0);
        } else {
            assert(la[j].0 != la[i].0);
        }
    }
    assert forall|w: Seq<u8>| #[trigger] sa.to_set().contains(w) == (words.contains(w) && within(q, k, w)) by {
        if sa.to_set().contains(w) {
            let i = choose|i: int| 0 <= i < sa.len() && sa[i] == w;
            assert(la[i].0 == w);
        }
        if words.contains(w) && within(q, k, w) {
            let i = choose|i: int| 0 <= i < la.len() && #[trigger] la[i].0 == w;
            assert(sa[i] == w);
        }
    }
    assert(sa.to_set() =~= Set::new(|w: Seq<u8>| words.contains(w) && within(q, k, w)));
    sa.unique_seq_to_set();
}

/// Any two exact listings of the same neighbourhood lead the decision to the same string.
pub proof fn lemma_pick_independent_of_listing(
    words: Set<Seq<u8>>,
    seq: Seq<u8>,
    qual: Seq<u8>,
    priors: Map<Seq<u8>, nat>,
    k: nat,
    a: Seq<(Vec<u8>, usize)>,
    b: Seq<(Vec<u8>, usize)>,
    r: Option<Vec<u8>>,
)
    requires
        is_ball_listing(words, seq, k, listing_view(a)),
        is_ball_listing(words, seq, k, listing_view(b)),
        picks(seq, qual, priors, a, r),
    ensures
        picks(seq, qual, priors, b, r),
{
    let sa = listed_views(a);
    let sb = listed_views(b);
    lemma_listing_set(words, seq, k, a);
    lemma_listing_set(words, seq, k, b);
    let n = a.len() as int;
    assert(b.len() == n);
    let perm = Seq::new(n as nat, |i: int| choose|j: int| 0 <= j < n && sa[j] == sb[i]);
    let inv = Seq::new(n as nat, |j: int| choose|i: int| 0 <= i < n && sb[i] == sa[j]);
    assert forall|i: int| 0 <= i < n implies 0 <= #[trigger] perm[i] < n && sa[perm[i]] == sb[i] by {
        assert(sb.to_set().contains(sb[i]));
        assert(sa.to_set().contains(sb[i]));
    }
    assert forall|j: int| 0 <= j < n implies 0 <= #[trigger] inv[j] < n && sb[inv[j]] == sa[j] by {
        assert(sa.to_set().contains(sa[j]));
        assert(sb.to_set().contains(sa[j]));
    }
    assert forall|i: int, j: int| 0 <= i < j < n implies #[trigger] perm[i] != #[trigger] perm[j] by {
        assert(sa[perm[i]] == sb[i] && sa[perm[j]] == sb[j]);
    }
    assert forall|i: int, j: int| 0 <= i < j < n implies #[trigger] inv[i] != #[trigger] inv[j] by {
        assert(sb[inv[i]] == sa[i] && sb[inv[j]] == sa[j]);
    }
    assert forall|i: int| 0 <= i < n implies #[trigger] perm[inv[i]] == i by {
        assert(sa[perm[inv[i]]] == sb[inv[i]]);
    }
    assert forall|i: int| 0 <= i < n implies #[trigger] inv[perm[i]] == i by {
        assert(sb[inv[perm[i]]] == sa[perm[i]]);
    }
    let csa = candidate_scores(seq, qual, listed_strings(a));
    let wsa = listed_weights(priors, a);
    let csb = candidate_scores(seq, qual, listed_strings(b));
    let wsb = listed_weights(priors, b);
    assert forall|i: int| 0 <= i < n implies #[trigger] csb[i] == reorder_scores(csa, perm)[i] by {
        assert(sa[perm[i]] == sb[i]);
        assert(a[perm[i]].0@ == b[i].0@);
    }
    assert forall|i: int| 0 <= i < n implies #[trigger] wsb[i] == reorder_weights(wsa, perm)[i] by {
        assert(sa[perm[i]] == sb[i]);
        assert(a[perm[i]].0@ == b[i].0@);
    }
    assert(csb =~= reorder_scores(csa, perm));
    assert(wsb =~= reorder_weights(wsa, perm));
    lemma_decision_reordered(csa, wsa, perm, inv);
    lemma_decision_in_range(csa, wsa);
    match decision(csa, wsa) {
        Some(j) => {
            assert(sb[inv[j]] == sa[j]);
        },
        None => {},
    }
}


/// A candidate of nonzero weight keeps a positive posterior, however poor its score: no
/// weight is lost to rounding.
pub proof fn lemma_weighted_candidate_counts(s: Seq<int>, w: Seq<nat>, i: int)
    requires
        s.len() == w.len(),
        0 <= i < s.len(),
        w[i] > 0,
    ensures
        weighted_min(s, w, s.len()) is Some,
        posterior(s, w, weighted_min(s, w, s.len())->0, i) > 0,
{
    lemma_weighted_min_lower(s, w, s.len(), i);
    let m = weighted_min(s, w, s.len())->0;
    let d = (s[i] - m) as nat;
    let t = tenth_power((d % 10) as int);
    assert(t >= 1);
    assert(w[i] * t >= 1) by (nonlinear_arith)
        requires
            w[i] >= 1,
            t >= 1,
    ;
    lemma_shrink_bounds(w[i] * t, d / 10);
}


/// Ten to the power `q`.
pub open spec fn pow10(q: nat) -> nat
    decreases q,
{
    if q == 0 {
        1
    } else {
        10 * pow10((q - 1) as nat)
    }
}

/// Dividing by ten `q` times, rounding up each time, is dividing by `10^q` once, rounding up:
/// `shrink(a, q)` is the least number whose product with `10^q` reaches `a`.
pub proof fn lemma_shrink_is_ceiling(a: nat, q: nat)
    ensures
        a <= shrink(a, q) * pow10(q),
        shrink(a, q) * pow10(q) < a + pow10(q),
    decreases q,
{
    if q > 0 {
        let c = ceil_tenth(a);
        let q1 = (q - 1) as nat;
        lemma_shrink_is_ceiling(c, q1);
        let v = shrink(c, q1);
        let p = pow10(q1);
        assert(a <= 10 * c && 10 * c <= a + 9);
        assert(a <= v * (10 * p) && v * (10 * p) < a + 10 * p) by (nonlinear_arith)
            requires
                c <= v * p,
                v * p < c + p,
                a <= 10 * c,
                10 * c <= a + 9,
                p >= 1,
        ;
        assert(pow10(q) == 10 * p);
        assert(v * (10 * p) == v * pow10(q));
    } else {
        assert(shrink(a, 0) == a);
        assert(pow10(0) == 1);
        assert(a * 1 == a);
    }
}

} // verus!
