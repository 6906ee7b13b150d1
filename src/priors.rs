use vstd::prelude::*;

use crate::trie::Trie;

verus! {

/// The value of `b` in `m`, zero where `m` has none.
pub open spec fn get0(m: Map<Seq<u8>, nat>, b: Seq<u8>) -> nat {
    if m.contains_key(b) {
        m[b]
    } else {
        0
    }
}

/// Raw observation counts summed per barcode.
pub open spec fn aggregate(records: Seq<(Seq<u8>, nat)>) -> Map<Seq<u8>, nat>
    decreases records.len(),
{
    if records.len() == 0 {
        Map::empty()
    } else {
        let m = aggregate(records.drop_last());
        let b = records.last().0;
        m.insert(b, get0(m, b) + records.last().1)
    }
}

/// The aggregated counts with one added for every whitelisted barcode, seen or not.
pub open spec fn with_pseudocount(m: Map<Seq<u8>, nat>, whitelist: Set<Seq<u8>>) -> Map<
    Seq<u8>,
    nat,
> {
    Map::new(
        |b: Seq<u8>| m.contains_key(b) || whitelist.contains(b),
        |b: Seq<u8>|
            get0(m, b) + (if whitelist.contains(b) {
                1nat
            } else {
                0nat
            }),
    )
}

/// The records as mathematical values.
pub open spec fn records_view(records: Seq<(Vec<u8>, usize)>) -> Seq<(Seq<u8>, nat)> {
    Seq::new(records.len(), |i: int| (records[i].0@, records[i].1 as nat))
}

/// The strings as a set.
pub open spec fn string_set(strings: Seq<Vec<u8>>) -> Set<Seq<u8>> {
    Set::new(|b: Seq<u8>| exists|i: int| 0 <= i < strings.len() && #[trigger] strings[i]@ == b)
}

/// No string occurs twice.
pub open spec fn distinct_strings(strings: Seq<Vec<u8>>) -> bool {
    forall|i: int, j: int| 0 <= i < j < strings.len() ==> (#[trigger] strings[i])@ != (#[trigger] strings[j])@
}

/// The prior weights: counts summed per barcode, plus one for each whitelisted barcode.
pub open spec fn prior_weights(whitelist: Seq<Vec<u8>>, records: Seq<(Vec<u8>, usize)>) -> Map<
    Seq<u8>,
    nat,
> {
    with_pseudocount(aggregate(records_view(records)), string_set(whitelist))
}

/// A setup input that cannot be used.
#[derive(Debug, Clone, Copy, PartialEq, Eq, Structural)]
pub enum SetupError {
    /// A line of the count table is not `<barcode>\t<count>`.
    MalformedCountLine,
    /// A prior weight does not fit in a `usize`.
    CountOverflow,
}

/// A map from barcode to prior weight: the barcodes are held in a trie, and the weight of a
/// barcode at the index of its node.
pub struct PriorTable {
    keys: Trie,
    weights: Vec<usize>,
}

impl View for PriorTable {
    type V = Map<Seq<u8>, nat>;

    closed spec fn view(&self) -> Map<Seq<u8>, nat> {
        Map::new(
            |b: Seq<u8>| self.keys@.contains(b),
            |b: Seq<u8>|
                self.weights@[choose|i: int|
                    0 <= i < self.keys.size() && self.keys.is_terminal(i) && #[trigger] self.keys.path(i)
                        == b] as nat,
        )
    }
}

impl PriorTable {
    /// The trie is well formed and every node has a weight slot.
    pub closed spec fn wf(&self) -> bool {
        &&& self.keys.wf()
        &&& self.weights@.len() == self.keys.size()
    }

    proof fn lemma_value(&self, i: int)
        requires
            self.wf(),
            0 <= i < self.keys.size(),
            self.keys.is_terminal(i),
        ensures
            self@.contains_key(self.keys.path(i)),
            self@[self.keys.path(i)] == self.weights@[i],
    {
        self.keys.lemma_nodes();
        let b = self.keys.path(i);
        assert(self.keys@.contains(b));
        let j = choose|j: int|
            0 <= j < self.keys.size() && self.keys.is_terminal(j) && #[trigger] self.keys.path(j) == b;
        assert(j == i);
    }

    /// Every weight fits in a `usize`.
    pub proof fn lemma_bounded(&self, b: Seq<u8>)
        requires
            self.wf(),
            self@.contains_key(b),
        ensures
            self@[b] <= usize::MAX,
    {
        self.keys.lemma_nodes();
        let j = choose|j: int|
            0 <= j < self.keys.size() && self.keys.is_terminal(j) && #[trigger] self.keys.path(j) == b;
        self.lemma_value(j);
    }

    /// An empty table.
    pub fn new() -> (r: PriorTable)
        ensures
            r.wf(),
            r@ == Map::<Seq<u8>, nat>::empty(),
    {
        let keys = Trie::new();
        let mut weights: Vec<usize> = Vec::new();
        weights.push(0);
        let r = PriorTable { keys, weights };
        assert(r@ =~= Map::<Seq<u8>, nat>::empty());
        r
    }

    /// The weight of `b`; zero for a barcode the table does not hold.
    pub fn get(&self, b: &[u8]) -> (r: usize)
        requires
            self.wf(),
        ensures
            r == get0(self@, b@),
    {
        match self.keys.find(b) {
            Some(i) => {
                proof {
                    self.lemma_value(i as int);
                }
                self.weights[i]
            },
            None => 0,
        }
    }

    /// Adds `amount` to the weight of `b` (from zero where it has none); where the sum would
    /// not fit in a `usize`, returns false and leaves the table as it was.
    pub fn add(&mut self, b: &Vec<u8>, amount: usize) -> (r: bool)
        requires
            old(self).wf(),
        ensures
            final(self).wf(),
            r == (get0(old(self)@, b@) + amount <= usize::MAX),
            r ==> final(self)@ == old(self)@.insert(b@, get0(old(self)@, b@) + amount as nat),
            !r ==> final(self)@ == old(self)@,
    {
        let ghost pre = *self;
        proof {
            pre.keys.lemma_nodes();
        }
        match self.keys.find(b.as_slice()) {
            Some(i) => {
                proof {
                    self.lemma_value(i as int);
                }
                let cur = self.weights[i];
                if amount > usize::MAX - cur {
                    return false;
                }
                self.weights.set(i, cur + amount);
                proof {
                    let m = pre@.insert(b@, (cur + amount) as nat);
                    assert forall|c: Seq<u8>| #[trigger] self@.contains_key(c) implies self@[c] == m[c] by {
                        let j = choose|j: int|
                            0 <= j < self.keys.size() && self.keys.is_terminal(j) && #[trigger] self.keys.path(j)
                                == c;
                        self.lemma_value(j);
                        if j != i {
                            pre.lemma_value(j);
                        }
                    }
                    assert(self@ =~= m);
                }
                true
            },
            None => {
                let i = self.keys.add_word(b.as_slice());
                while self.weights.len() < self.keys.node_count()
                    invariant
                        self.keys.wf(),
                        pre.wf(),
                        self.keys@ == pre.keys@.insert(b@),
                        i < self.keys.size(),
                        self.keys.path(i as int) == b@,
                        pre.keys.size() <= self.keys.size(),
                        forall|j: int|
                            0 <= j < pre.keys.size() ==> #[trigger] self.keys.path(j) == pre.keys.path(j),
                        forall|j: int|
                            0 <= j < self.keys.size() ==> #[trigger] self.keys.is_terminal(j) == ((j
                                < pre.keys.size() && pre.keys.is_terminal(j)) || j == i),
                        pre.weights@.len() <= self.weights@.len() <= self.keys.size(),
                        forall|j: int| 0 <= j < pre.weights@.len() ==> #[trigger] self.weights@[j] == pre.weights@[j],
                    decreases self.keys.size() - self.weights@.len(),
                {
                    self.weights.push(0);
                }
                self.weights.set(i, amount);
                proof {
                    self.keys.lemma_nodes();
                    let m = pre@.insert(b@, amount as nat);
                    assert forall|c: Seq<u8>| #[trigger] self@.contains_key(c) == m.contains_key(c) by {}
                    assert forall|c: Seq<u8>| #[trigger] self@.contains_key(c) implies self@[c] == m[c] by {
                        let j = choose|j: int|
                            0 <= j < self.keys.size() && self.keys.is_terminal(j) && #[trigger] self.keys.path(j)
                                == c;
                        self.lemma_value(j);
                        if j != i {
                            assert(j < pre.keys.size() && pre.keys.is_terminal(j));
                            assert(pre.keys.path(j) == c);
                            pre.lemma_value(j);
                        }
                    }
                    assert(self@ =~= m);
                }
                true
            },
        }
    }
}

proof fn lemma_aggregate_step(s: Seq<(Seq<u8>, nat)>, j: int)
    requires
        0 <= j < s.len(),
    ensures
        aggregate(s.take(j + 1)) == aggregate(s.take(j)).insert(
            s[j].0,
            get0(aggregate(s.take(j)), s[j].0) + s[j].1,
        ),
{
    assert(s.take(j + 1).drop_last() =~= s.take(j));
}

proof fn lemma_aggregate_mono(s: Seq<(Seq<u8>, nat)>, a: int, c: int, b: Seq<u8>)
    requires
        0 <= a <= c <= s.len(),
    ensures
        get0(aggregate(s.take(a)), b) <= get0(aggregate(s.take(c)), b),
    decreases c - a,
{
    if a < c {
        lemma_aggregate_mono(s, a, c - 1, b);
        lemma_aggregate_step(s, c - 1);
    }
}

impl PriorTable {
    /// Builds the table in two phases: the count records summed per barcode, then one added
    /// for every whitelisted barcode. Fails where a weight would not fit in a `usize`.
    pub fn from_counts(whitelist: &Vec<Vec<u8>>, records: &Vec<(Vec<u8>, usize)>) -> (r: Result<
        PriorTable,
        SetupError,
    >)
        requires
            distinct_strings(whitelist@),
        ensures
            match r {
                Ok(t) => t.wf() && t@ == prior_weights(whitelist@, records@),
                Err(e) => e == SetupError::CountOverflow,
            },
            r is Err <==> exists|b: Seq<u8>|
                #![trigger prior_weights(whitelist@, records@)[b]]
                prior_weights(whitelist@, records@).contains_key(b) && prior_weights(
                    whitelist@,
                    records@,
                )[b] > usize::MAX,
    {
        let ghost rv = records_view(records@);
        let ghost pw = prior_weights(whitelist@, records@);
        let mut t = PriorTable::new();
        let mut j: usize = 0;
        assert(rv.take(0) =~= Seq::<(Seq<u8>, nat)>::empty());
        while j < records.len()
            invariant
                j <= records@.len(),
                rv == records_view(records@),
                pw == prior_weights(whitelist@, records@),
                t.wf(),
                t@ == aggregate(rv.take(j as int)),
            decreases records@.len() - j,
        {
            proof {
                lemma_aggregate_step(rv, j as int);
            }
            if !t.add(&records[j].0, records[j].1) {
                proof {
                    let b = rv[j as int].0;
                    assert(rv.take(rv.len() as int) =~= rv);
                    lemma_aggregate_mono(rv, j + 1, rv.len() as int, b);
                    assert(get0(aggregate(rv.take(j + 1)), b) > usize::MAX);
                    assert(get0(aggregate(rv), b) > usize::MAX);
                    assert(aggregate(rv).contains_key(b));
                    assert(pw.contains_key(b));
                    assert(pw[b] > usize::MAX);
                }
                return Err(SetupError::CountOverflow);
            }
            j += 1;
        }
        let ghost agg = aggregate(rv);
        assert(rv.take(j as int) =~= rv);
        let mut i: usize = 0;
        assert(with_pseudocount(agg, string_set(whitelist@.take(0))) =~= agg);
        while i < whitelist.len()
            invariant
                i <= whitelist@.len(),
                distinct_strings(whitelist@),
                agg == aggregate(rv),
                pw == prior_weights(whitelist@, records@),
                rv == records_view(records@),
                t.wf(),
                t@ == with_pseudocount(agg, string_set(whitelist@.take(i as int))),
            decreases whitelist@.len() - i,
        {
            let ghost w = whitelist@[i as int]@;
            let ghost before = string_set(whitelist@.take(i as int));
            proof {
                if before.contains(w) {
                    let k = choose|k: int| 0 <= k < i && #[trigger] whitelist@.take(i as int)[k]@ == w;
                    assert(whitelist@[k]@ != whitelist@[i as int]@);
                }
                assert(string_set(whitelist@).contains(w)) by {
                    assert(whitelist@[i as int]@ == w);
                }
            }
            if !t.add(&whitelist[i], 1) {
                proof {
                    assert(pw.contains_key(w));
                    assert(pw[w] > usize::MAX);
                }
                return Err(SetupError::CountOverflow);
            }
            proof {
                let after = string_set(whitelist@.take(i + 1));
                assert forall|b: Seq<u8>| #[trigger] after.contains(b) == (before.contains(b) || b == w) by {
                    if after.contains(b) {
                        let k = choose|k: int| 0 <= k < i + 1 && #[trigger] whitelist@.take(i + 1)[k]@ == b;
                        if k < i {
                            assert(whitelist@.take(i as int)[k]@ == b);
                        }
                    }
                    if before.contains(b) {
                        let k = choose|k: int| 0 <= k < i && #[trigger] whitelist@.take(i as int)[k]@ == b;
                        assert(whitelist@.take(i + 1)[k]@ == b);
                    }
                    if b == w {
                        assert(whitelist@.take(i + 1)[i as int]@ == b);
                    }
                }
                assert(t@ =~= with_pseudocount(agg, after));
            }
            i += 1;
        }
        proof {
            assert(whitelist@.take(i as int) =~= whitelist@);
            assert forall|b: Seq<u8>| pw.contains_key(b) implies #[trigger] pw[b] <= usize::MAX by {
                t.lemma_bounded(b);
            }
        }
        Ok(t)
    }
}

} // verus!
