use vstd::prelude::*;

use crate::hamming::{
    hamming, lemma_hamming_prefix_le, lemma_hamming_self, lemma_hamming_take_step,
    lemma_hamming_zero_eq,
};

verus! {

/// A prefix tree over byte strings, held as an arena of nodes; node 0 is the root.
///
/// Each node lists its children as `(symbol, node index)` pairs and says whether the
/// string spelled by the path from the root to it is stored.
pub struct Trie {
    children: Vec<Vec<(u8, usize)>>,
    terminal: Vec<bool>,
    /// The string spelled by the path from the root to each node.
    paths: Ghost<Seq<Seq<u8>>>,
    /// The parent of each node but the root.
    parent: Ghost<Seq<int>>,
}

/// `w` lies within `k` mismatches of `q` and has its length.
pub open spec fn within(q: Seq<u8>, k: nat, w: Seq<u8>) -> bool {
    w.len() == q.len() && hamming(w, q) <= k
}

/// The result of a neighbour query, as a sequence of strings with their mismatch counts,
/// lists exactly the strings of `words` within `k` mismatches of `q`, each once, each
/// with its exact count.
pub open spec fn is_ball_listing(
    words: Set<Seq<u8>>,
    q: Seq<u8>,
    k: nat,
    r: Seq<(Seq<u8>, nat)>,
) -> bool {
    &&& forall|i: int|
        0 <= i < r.len() ==> words.contains(#[trigger] r[i].0) && within(q, k, r[i].0) && r[i].1
            == hamming(r[i].0, q)
    &&& forall|w: Seq<u8>|
        words.contains(w) && within(q, k, w) ==> exists|i: int| 0 <= i < r.len() && #[trigger] r[i].0 == w
    &&& forall|i: int, j: int| 0 <= i < j < r.len() ==> r[i].0 != r[j].0
}

/// The abstract form of a neighbour query's result.
pub open spec fn listing_view(r: Seq<(Vec<u8>, usize)>) -> Seq<(Seq<u8>, nat)> {
    r.map_values(|p: (Vec<u8>, usize)| (p.0@, p.1 as nat))
}

impl View for Trie {
    type V = Set<Seq<u8>>;

    /// The set of stored strings.
    closed spec fn view(&self) -> Set<Seq<u8>> {
        Set::new(
            |w: Seq<u8>|
                exists|i: int| 0 <= i < self.terminal@.len() && self.terminal@[i] && self.paths@[i] == w,
        )
    }
}

impl Trie {
    /// Number of nodes.
    pub closed spec fn size(&self) -> nat {
        self.terminal@.len()
    }

    /// The string spelled by the path to node `i`.
    pub closed spec fn path(&self, i: int) -> Seq<u8> {
        self.paths@[i]
    }

    /// Whether the string of node `i` is stored.
    pub closed spec fn is_terminal(&self, i: int) -> bool {
        self.terminal@[i]
    }

    /// The stored strings are the strings of the terminal nodes, and no two nodes share a
    /// string.
    pub proof fn lemma_nodes(&self)
        requires
            self.wf(),
        ensures
            forall|w: Seq<u8>|
                #[trigger] self@.contains(w) <==> exists|i: int|
                    0 <= i < self.size() && self.is_terminal(i) && #[trigger] self.path(i) == w,
            forall|i: int, j: int|
                0 <= i < self.size() && 0 <= j < self.size() && #[trigger] self.path(i)
                    == #[trigger] self.path(j) ==> i == j,
    {
        assert forall|w: Seq<u8>|
            #[trigger] self@.contains(w) <==> exists|i: int|
                0 <= i < self.size() && self.is_terminal(i) && #[trigger] self.path(i) == w by {
            if self@.contains(w) {
                let i = choose|i: int|
                    0 <= i < self.terminal@.len() && self.terminal@[i] && self.paths@[i] == w;
                assert(self.path(i) == w);
            }
        }
    }

    /// The neighbours that the depth-first walk from `node` lists, in its order: children in
    /// the order they were added, a branch given up once its mismatches pass `k`. `fuel` is
    /// the number of query symbols still to match and `mism` the mismatches so far.
    pub closed spec fn walk(&self, node: int, q: Seq<u8>, k: nat, mism: nat, fuel: nat) -> Seq<
        (Seq<u8>, nat),
    >
        decreases fuel, 1nat, 0nat,
    {
        if fuel == 0 {
            if self.terminal@[node] {
                seq![(self.paths@[node], mism)]
            } else {
                Seq::empty()
            }
        } else {
            self.walk_children(node, q, k, mism, fuel, self.children@[node]@.len())
        }
    }

    /// The part of the walk from `node` that goes through its first `i` children.
    pub closed spec fn walk_children(
        &self,
        node: int,
        q: Seq<u8>,
        k: nat,
        mism: nat,
        fuel: nat,
        i: nat,
    ) -> Seq<(Seq<u8>, nat)>
        decreases fuel, 0nat, i,
    {
        if i == 0 || fuel == 0 {
            Seq::empty()
        } else {
            let c = self.children@[node]@[i - 1].0;
            let j = self.children@[node]@[i - 1].1;
            let m2 = mism + (if c != q[q.len() - fuel] {
                1nat
            } else {
                0nat
            });
            self.walk_children(node, q, k, mism, fuel, (i - 1) as nat) + (if m2 <= k {
                self.walk(j as int, q, k, m2, (fuel - 1) as nat)
            } else {
                Seq::empty()
            })
        }
    }

    /// The neighbour listing of `q` within `k` mismatches, in the order of the walk: a
    /// function of the trie, and so of the order in which its strings were added.
    pub open spec fn neighbours(&self, q: Seq<u8>, k: nat) -> Seq<(Seq<u8>, nat)> {
        self.walk(0, q, k, 0, q.len())
    }

    spec fn has_child(&self, i: int, c: u8) -> bool {
        exists|k: int| 0 <= k < self.children@[i]@.len() && (#[trigger] self.children@[i]@[k]).0 == c
    }

    /// `w` is stored and lies below node `i`.
    spec fn below(&self, i: int, w: Seq<u8>) -> bool {
        &&& self@.contains(w)
        &&& self.paths@[i].len() <= w.len()
        &&& w.take(self.paths@[i].len() as int) == self.paths@[i]
    }

    /// The arena forms a tree whose paths are distinct and in which every stored string can
    /// be followed from the root.
    pub closed spec fn wf(&self) -> bool {
        let n = self.terminal@.len();
        &&& n >= 1
        &&& self.children@.len() == n
        &&& self.paths@.len() == n
        &&& self.parent@.len() == n
        &&& self.paths@[0] == Seq::<u8>::empty()
        &&& forall|i: int, k: int|
            #![trigger self.children@[i]@[k]]
            0 <= i < n && 0 <= k < self.children@[i]@.len() ==> {
                &&& self.children@[i]@[k].1 < n
                &&& self.paths@[self.children@[i]@[k].1 as int] == self.paths@[i].push(
                    self.children@[i]@[k].0,
                )
            }
        &&& forall|i: int, k1: int, k2: int|
            0 <= i < n && 0 <= k1 < k2 < self.children@[i]@.len() ==> (
            #[trigger] self.children@[i]@[k1]).0 != (#[trigger] self.children@[i]@[k2]).0
        &&& forall|j: int|
            #![trigger self.parent@[j]]
            0 < j < n ==> {
                &&& 0 <= self.parent@[j] < n
                &&& self.paths@[j].len() > 0
                &&& self.paths@[self.parent@[j]] == self.paths@[j].drop_last()
                &&& self.has_child(self.parent@[j], self.paths@[j].last())
            }
        &&& forall|i: int, j: int|
            0 <= i < n && 0 <= j < n && #[trigger] self.paths@[i] == #[trigger] self.paths@[j] ==> i
                == j
        &&& forall|i: int, t: int|
            0 <= i < n && 0 <= t < n && self.terminal@[t] && (#[trigger] self.paths@[i]).len() < (
            #[trigger] self.paths@[t]).len() && self.paths@[i] == self.paths@[t].take(
                self.paths@[i].len() as int,
            ) ==> self.has_child(i, self.paths@[t][self.paths@[i].len() as int])
    }

    /// An empty trie: the root alone.
    pub fn new() -> (r: Trie)
        ensures
            r.wf(),
            r@ == Set::<Seq<u8>>::empty(),
            r.size() == 1,
    {
        let mut children: Vec<Vec<(u8, usize)>> = Vec::new();
        children.push(Vec::new());
        let mut terminal: Vec<bool> = Vec::new();
        terminal.push(false);
        let ghost paths = seq![Seq::<u8>::empty()];
        let ghost parent = seq![0int];
        let r = Trie { children, terminal, paths: Ghost(paths), parent: Ghost(parent) };
        assert(r@ =~= Set::<Seq<u8>>::empty());
        r
    }

    /// Number of nodes.
    pub fn node_count(&self) -> (r: usize)
        ensures
            r == self.size(),
    {
        self.terminal.len()
    }

    /// The child of node `i` along symbol `c`, if there is one.
    fn child(&self, i: usize, c: u8) -> (r: Option<usize>)
        requires
            self.wf(),
            i < self.terminal@.len(),
        ensures
            match r {
                Some(j) => j < self.terminal@.len() && self.paths@[j as int] == self.paths@[i as int].push(
                    c,
                ) && self.has_child(i as int, c),
                None => !self.has_child(i as int, c),
            },
    {
        let ch = &self.children[i];
        let mut k: usize = 0;
        while k < ch.len()
            invariant
                0 <= k <= ch@.len(),
                *ch == self.children@[i as int],
                self.wf(),
                i < self.terminal@.len(),
                forall|k2: int| 0 <= k2 < k ==> (#[trigger] ch@[k2]).0 != c,
            decreases ch@.len() - k,
        {
            if ch[k].0 == c {
                return Some(ch[k].1);
            }
            k += 1;
        }
        None
    }

    /// Whether `word` is stored.
    pub fn contains(&self, word: &[u8]) -> (r: bool)
        requires
            self.wf(),
        ensures
            r == self@.contains(word@),
    {
        let mut cur: usize = 0;
        let mut d: usize = 0;
        while d < word.len()
            invariant
                self.wf(),
                cur < self.terminal@.len(),
                d <= word@.len(),
                self.paths@[cur as int] == word@.take(d as int),
            decreases word@.len() - d,
        {
            match self.child(cur, word[d]) {
                Some(j) => {
                    assert(word@.take(d + 1) =~= word@.take(d as int).push(word@[d as int]));
                    cur = j;
                },
                None => {
                    proof {
                        if self@.contains(word@) {
                            let t = choose|t: int|
                                0 <= t < self.terminal@.len() && self.terminal@[t] && self.paths@[t]
                                    == word@;
                            assert(self.paths@[t].take(self.paths@[cur as int].len() as int)
                                =~= self.paths@[cur as int]);
                        }
                    }
                    return false;
                },
            }
            d += 1;
        }
        assert(word@.take(d as int) =~= word@);
        proof {
            if self@.contains(word@) {
                let t = choose|t: int|
                    0 <= t < self.terminal@.len() && self.terminal@[t] && self.paths@[t] == word@;
                assert(self.paths@[t] == self.paths@[cur as int]);
            }
        }
        self.terminal[cur]
    }

    /// Stores `word`; storing a string twice leaves the trie as it was.
    ///
    /// Returns the node of `word`. Nodes keep their strings; new nodes follow the old ones,
    /// and of them only the node of `word` can be terminal.
    pub fn add_word(&mut self, word: &[u8]) -> (r: usize)
        requires
            old(self).wf(),
        ensures
            final(self).wf(),
            final(self)@ == old(self)@.insert(word@),
            r < final(self).size(),
            final(self).path(r as int) == word@,
            old(self).size() <= final(self).size(),
            forall|i: int| 0 <= i < old(self).size() ==> #[trigger] final(self).path(i) == old(self).path(i),
            forall|i: int|
                0 <= i < final(self).size() ==> #[trigger] final(self).is_terminal(i) == ((i < old(
                    self,
                ).size() && old(self).is_terminal(i)) || i == r),
    {
        let mut cur: usize = 0;
        let mut d: usize = 0;
        while d < word.len()
            invariant
                self.wf(),
                old(self).wf(),
                self@ == old(self)@,
                cur < self.terminal@.len(),
                old(self).terminal@.len() <= self.terminal@.len(),
                forall|i: int|
                    0 <= i < old(self).terminal@.len() ==> #[trigger] self.paths@[i] == old(
                        self,
                    ).paths@[i] && self.terminal@[i] == old(self).terminal@[i],
                forall|i: int|
                    old(self).terminal@.len() <= i < self.terminal@.len() ==> !#[trigger] self.terminal@[i],
                d <= word@.len(),
                self.paths@[cur as int] == word@.take(d as int),
                forall|i: int|
                    0 <= i < self.terminal@.len() && (#[trigger] self.paths@[i]).len() < d
                        && self.paths@[i] == word@.take(self.paths@[i].len() as int)
                        ==> self.has_child(i, word@[self.paths@[i].len() as int]),
            decreases word@.len() - d,
        {
            let c = word[d];
            assert(word@.take(d + 1) =~= word@.take(d as int).push(c));
            match self.child(cur, c) {
                Some(j) => {
                    proof {
                        assert forall|i: int|
                            0 <= i < self.terminal@.len() && (#[trigger] self.paths@[i]).len() < d
                                + 1 && self.paths@[i] == word@.take(
                                self.paths@[i].len() as int,
                            ) implies self.has_child(i, word@[self.paths@[i].len() as int]) by {
                            if self.paths@[i].len() == d {
                                assert(self.paths@[i] == self.paths@[cur as int]);
                                assert(i == cur);
                            }
                        }
                    }
                    cur = j;
                },
                None => {
                    let ghost pre = *self;
                    self.add_child(cur, c);
                    proof {
                        assert forall|i: int| 0 <= i < old(self).terminal@.len() implies #[trigger] self.paths@[i]
                            == old(self).paths@[i] && self.terminal@[i] == old(self).terminal@[i] by {
                            assert(pre.paths@[i] == old(self).paths@[i]);
                            assert(self.paths@[i] == pre.paths@[i]);
                            assert(self.terminal@[i] == pre.terminal@[i]);
                        }
                        assert forall|i: int|
                            old(self).terminal@.len() <= i < self.terminal@.len() implies !#[trigger] self.terminal@[i] by {
                            if i < pre.terminal@.len() {
                                assert(self.terminal@[i] == pre.terminal@[i]);
                            }
                        }
                        assert forall|i: int|
                            0 <= i < self.terminal@.len() && (#[trigger] self.paths@[i]).len() < d
                                + 1 && self.paths@[i] == word@.take(
                                self.paths@[i].len() as int,
                            ) implies self.has_child(i, word@[self.paths@[i].len() as int]) by {
                            if self.paths@[i].len() == d {
                                assert(self.paths@[i] == self.paths@[cur as int]);
                                assert(i == cur);
                            }
                        }
                    }
                    cur = self.terminal.len() - 1;
                },
            }
            d += 1;
        }
        assert(word@.take(d as int) =~= word@);
        let ghost pre = *self;
        self.terminal.set(cur, true);
        proof {
            let n = self.terminal@.len();
            assert(self.children == pre.children);
            assert(self.paths == pre.paths);
            assert(self.parent == pre.parent);
            assert forall|i: int, c: u8| #[trigger] self.has_child(i, c) == pre.has_child(i, c) by {}
            assert forall|i: int, t: int|
                0 <= i < n && 0 <= t < n && self.terminal@[t] && (#[trigger] self.paths@[i]).len() < (
                #[trigger] self.paths@[t]).len() && self.paths@[i] == self.paths@[t].take(
                    self.paths@[i].len() as int,
                ) implies self.has_child(i, self.paths@[t][self.paths@[i].len() as int]) by {
                assert(self.children == pre.children);
                assert(self.paths == pre.paths);
                if t != cur {
                    assert(pre.terminal@[t]);
                    assert(pre.has_child(i, self.paths@[t][self.paths@[i].len() as int]));
                } else {
                    assert(self.paths@[t] == word@);
                    assert(pre.has_child(i, word@[self.paths@[i].len() as int]));
                }
            }
            assert forall|w: Seq<u8>| #[trigger] self@.contains(w) == pre@.insert(word@).contains(w) by {
                if w == word@ {
                    assert(self.terminal@[cur as int]);
                }
                if pre@.contains(w) && w != word@ {
                    let t = choose|t: int|
                        0 <= t < n && pre.terminal@[t] && pre.paths@[t] == w;
                    assert(self.terminal@[t]);
                }
                if self@.contains(w) && w != word@ {
                    let t = choose|t: int| 0 <= t < n && self.terminal@[t] && self.paths@[t] == w;
                    assert(t != cur);
                    assert(pre.terminal@[t]);
                }
            }
            assert(self@ =~= old(self)@.insert(word@));
            assert forall|i: int|
                0 <= i < self.size() implies #[trigger] self.is_terminal(i) == ((i < old(self).size()
                    && old(self).is_terminal(i)) || i == cur) by {
                if i != cur {
                    assert(self.terminal@[i] == pre.terminal@[i]);
                    if i < old(self).size() {
                        assert(pre.paths@[i] == old(self).paths@[i]);
                        assert(pre.terminal@[i] == old(self).terminal@[i]);
                    } else {
                        assert(!pre.terminal@[i]);
                    }
                }
            }
            assert forall|i: int| 0 <= i < old(self).size() implies #[trigger] self.path(i) == old(
                self,
            ).path(i) by {
                assert(pre.paths@[i] == old(self).paths@[i]);
            }
        }
        cur
    }

    /// The node of `word`, where `word` is stored.
    pub fn find(&self, word: &[u8]) -> (r: Option<usize>)
        requires
            self.wf(),
        ensures
            match r {
                Some(i) => i < self.size() && self.is_terminal(i as int) && self.path(i as int) == word@,
                None => !self@.contains(word@),
            },
    {
        let mut cur: usize = 0;
        let mut d: usize = 0;
        while d < word.len()
            invariant
                self.wf(),
                cur < self.terminal@.len(),
                d <= word@.len(),
                self.paths@[cur as int] == word@.take(d as int),
            decreases word@.len() - d,
        {
            match self.child(cur, word[d]) {
                Some(j) => {
                    assert(word@.take(d + 1) =~= word@.take(d as int).push(word@[d as int]));
                    cur = j;
                },
                None => {
                    proof {
                        if self@.contains(word@) {
                            let t = choose|t: int|
                                0 <= t < self.terminal@.len() && self.terminal@[t] && self.paths@[t]
                                    == word@;
                            assert(self.paths@[t].take(self.paths@[cur as int].len() as int)
                                =~= self.paths@[cur as int]);
                        }
                    }
                    return None;
                },
            }
            d += 1;
        }
        assert(word@.take(d as int) =~= word@);
        proof {
            if self@.contains(word@) {
                let t = choose|t: int|
                    0 <= t < self.terminal@.len() && self.terminal@[t] && self.paths@[t] == word@;
                assert(self.paths@[t] == self.paths@[cur as int]);
            }
        }
        if self.terminal[cur] {
            Some(cur)
        } else {
            None
        }
    }

    /// Gives node `i`, which has no child along `c`, a new childless, unmarked child along
    /// `c`, placed last in the arena.
    fn add_child(&mut self, i: usize, c: u8)
        requires
            old(self).wf(),
            i < old(self).terminal@.len(),
            !old(self).has_child(i as int, c),
        ensures
            final(self).wf(),
            final(self)@ == old(self)@,
            final(self).terminal@.len() == old(self).terminal@.len() + 1,
            final(self).paths@ == old(self).paths@.push(old(self).paths@[i as int].push(c)),
            final(self).terminal@ == old(self).terminal@.push(false),
            forall|x: int, c2: u8|
                0 <= x < old(self).terminal@.len() && old(self).has_child(x, c2) ==> final(self).has_child(x, c2),
            final(self).has_child(i as int, c),
    {
        let n = self.terminal.len();
        let ghost p = self.paths@[i as int].push(c);
        proof {
            assert forall|x: int| 0 <= x < n implies self.paths@[x] != p by {
                if self.paths@[x] == p {
                    assert(x != 0);
                    let q = self.parent@[x];
                    assert(self.paths@[x].drop_last() =~= self.paths@[i as int]);
                    assert(q == i);
                }
            }
            assert forall|t: int|
                0 <= t < n && self.terminal@[t] implies !(p.len() <= (
            #[trigger] self.paths@[t]).len() && self.paths@[t].take(p.len() as int) == p) by {
                if p.len() <= self.paths@[t].len() && self.paths@[t].take(p.len() as int) == p {
                    let li = self.paths@[i as int].len() as int;
                    assert(self.paths@[t].take(li) =~= self.paths@[i as int]);
                    if p.len() == self.paths@[t].len() {
                        assert(self.paths@[t] =~= p);
                    }
                    assert(self.paths@[t].take(p.len() as int)[li] == self.paths@[t][li]);
                    assert(self.paths@[t][li] == c);
                    assert(self.has_child(i as int, self.paths@[t][li]));
                }
            }
        }
        let ghost old_self = *self;
        self.children.push(Vec::new());
        self.terminal.push(false);
        self.paths = Ghost(self.paths@.push(p));
        self.parent = Ghost(self.parent@.push(i as int));
        self.children[i].push((c, n));
        proof {
            let m = self.terminal@.len();
            assert(self.children@[i as int]@[self.children@[i as int]@.len() - 1] == (c, n));
            assert forall|x: int, c2: u8|
                0 <= x < n && old_self.has_child(x, c2) implies self.has_child(x, c2) by {
                let k = choose|k: int|
                    0 <= k < old_self.children@[x]@.len() && (#[trigger] old_self.children@[x]@[k]).0
                        == c2;
                assert(self.children@[x]@[k] == old_self.children@[x]@[k]);
            }
            assert forall|x: int, k: int|
                #![trigger self.children@[x]@[k]]
                0 <= x < m && 0 <= k < self.children@[x]@.len() implies {
                    &&& self.children@[x]@[k].1 < m
                    &&& self.paths@[self.children@[x]@[k].1 as int] == self.paths@[x].push(
                        self.children@[x]@[k].0,
                    )
                } by {
                if x < n && k < old_self.children@[x]@.len() {
                    assert(self.children@[x]@[k] == old_self.children@[x]@[k]);
                }
            }
            assert forall|x: int, k1: int, k2: int|
                0 <= x < m && 0 <= k1 < k2 < self.children@[x]@.len() implies (
                #[trigger] self.children@[x]@[k1]).0 != (#[trigger] self.children@[x]@[k2]).0 by {
                if x < n && k2 < old_self.children@[x]@.len() {
                    assert(self.children@[x]@[k1] == old_self.children@[x]@[k1]);
                    assert(self.children@[x]@[k2] == old_self.children@[x]@[k2]);
                } else if x == i {
                    assert(self.children@[x]@[k1] == old_self.children@[x]@[k1]);
                }
            }
            assert forall|j: int|
                #![trigger self.parent@[j]]
                0 < j < m implies {
                    &&& 0 <= self.parent@[j] < m
                    &&& self.paths@[j].len() > 0
                    &&& self.paths@[self.parent@[j]] == self.paths@[j].drop_last()
                    &&& self.has_child(self.parent@[j], self.paths@[j].last())
                } by {
                if j == n {
                    assert(p.drop_last() =~= self.paths@[i as int]);
                } else {
                    assert(old_self.parent@[j] == self.parent@[j]);
                }
            }
            assert forall|x: int, t: int|
                0 <= x < m && 0 <= t < m && self.terminal@[t] && (#[trigger] self.paths@[x]).len() < (
                #[trigger] self.paths@[t]).len() && self.paths@[x] == self.paths@[t].take(
                    self.paths@[x].len() as int,
                ) implies self.has_child(x, self.paths@[t][self.paths@[x].len() as int]) by {
                assert(t < n);
                if x == n {
                    assert(self.paths@[t].take(p.len() as int) == p);
                }
            }
            assert forall|w: Seq<u8>| #[trigger] self@.contains(w) == old_self@.contains(w) by {
                if old_self@.contains(w) {
                    let t = choose|t: int|
                        0 <= t < n && old_self.terminal@[t] && old_self.paths@[t] == w;
                    assert(self.terminal@[t] && self.paths@[t] == w);
                }
                if self@.contains(w) {
                    let t = choose|t: int| 0 <= t < m && self.terminal@[t] && self.paths@[t] == w;
                    assert(t < n);
                    assert(old_self.terminal@[t] && old_self.paths@[t] == w);
                }
            }
            assert(self@ =~= old_self@);
        }
    }


    /// Appends to `out` every stored string below `node` within `k` mismatches of `query`,
    /// with its count; `prefix` spells the path to `node`, which has `mism` mismatches.
    fn collect(
        &self,
        node: usize,
        query: &[u8],
        k: usize,
        mism: usize,
        prefix: &mut Vec<u8>,
        out: &mut Vec<(Vec<u8>, usize)>,
    )
        requires
            self.wf(),
            node < self.terminal@.len(),
            old(prefix)@ == self.paths@[node as int],
            self.paths@[node as int].len() <= query@.len(),
            mism == hamming(
                self.paths@[node as int],
                query@.take(self.paths@[node as int].len() as int),
            ),
            mism <= k,
        ensures
            final(prefix)@ == old(prefix)@,
            old(out)@.len() <= final(out)@.len(),
            final(out)@.take(old(out)@.len() as int) == old(out)@,
            forall|x: int|
                old(out)@.len() <= x < final(out)@.len() ==> self.below(
                    node as int,
                    (#[trigger] final(out)@[x]).0@,
                ) && within(query@, k as nat, final(out)@[x].0@) && final(out)@[x].1 == hamming(
                    final(out)@[x].0@,
                    query@,
                ),
            forall|w: Seq<u8>|
                self.below(node as int, w) && within(query@, k as nat, w) ==> exists|x: int|
                    old(out)@.len() <= x < final(out)@.len() && (#[trigger] final(out)@[x]).0@ == w,
            forall|x: int, y: int|
                old(out)@.len() <= x < y < final(out)@.len() ==> (#[trigger] final(out)@[x]).0@ != (
                #[trigger] final(out)@[y]).0@,
            listing_view(final(out)@) == listing_view(old(out)@) + self.walk(
                node as int,
                query@,
                k as nat,
                mism as nat,
                (query@.len() - self.paths@[node as int].len()) as nat,
            ),
        decreases query@.len() - self.paths@[node as int].len(),
    {
        let ghost start = out@.len();
        let ghost pn = self.paths@[node as int];
        let d = prefix.len();
        if d == query.len() {
            proof {
                assert(query@.take(d as int) =~= query@);
                assert forall|w: Seq<u8>|
                    self.below(node as int, w) && within(query@, k as nat, w) implies w == pn
                    && self.terminal@[node as int] by {
                    assert(w.take(d as int) =~= w);
                    let t = choose|t: int|
                        0 <= t < self.terminal@.len() && self.terminal@[t] && self.paths@[t] == w;
                    assert(self.paths@[t] == self.paths@[node as int]);
                }
            }
            if self.terminal[node] {
                let word = prefix.clone();
                assert(word@ =~= prefix@);
                out.push((word, mism));
                proof {
                    assert(listing_view(out@) =~= listing_view(old(out)@) + seq![(pn, mism as nat)]);
                    assert(pn.take(d as int) =~= pn);
                    assert(self@.contains(pn));
                    assert(out@[start as int].0@ == pn);
                }
            } else {
                assert(listing_view(out@) =~= listing_view(old(out)@) + Seq::<(Seq<u8>, nat)>::empty());
            }
            return;
        }
        let ch = &self.children[node];
        let mut i: usize = 0;
        while i < ch.len()
            invariant
                self.wf(),
                node < self.terminal@.len(),
                *ch == self.children@[node as int],
                pn == self.paths@[node as int],
                d == pn.len(),
                d < query@.len(),
                0 <= i <= ch@.len(),
                prefix@ == pn,
                mism == hamming(pn, query@.take(d as int)),
                mism <= k,
                start <= out@.len(),
                out@.take(start as int) == old(out)@,
                start == old(out)@.len(),
                forall|x: int|
                    start <= x < out@.len() ==> self.below(node as int, (#[trigger] out@[x]).0@)
                        && within(query@, k as nat, out@[x].0@) && out@[x].1 == hamming(
                        out@[x].0@,
                        query@,
                    ),
                forall|x: int, i2: int|
                    start <= x < out@.len() && i <= i2 < ch@.len() ==> (#[trigger] out@[x]).0@[d as int]
                        != (#[trigger] ch@[i2]).0,
                forall|w: Seq<u8>, i2: int|
                    #![trigger self.below(node as int, w), ch@[i2]]
                    0 <= i2 < i && self.below(node as int, w) && within(query@, k as nat, w) && w[d as int]
                        == ch@[i2].0 ==> exists|x: int|
                        start <= x < out@.len() && (#[trigger] out@[x]).0@ == w,
                forall|x: int, y: int|
                    start <= x < y < out@.len() ==> (#[trigger] out@[x]).0@ != (#[trigger] out@[y]).0@,
                listing_view(out@) == listing_view(old(out)@) + self.walk_children(
                    node as int,
                    query@,
                    k as nat,
                    mism as nat,
                    (query@.len() - d) as nat,
                    i as nat,
                ),
            decreases ch@.len() - i,
        {
            let (c, j) = ch[i];
            let ghost pj = self.paths@[j as int];
            proof {
                assert(pj.take(d + 1) =~= pj);
                assert(pj.take(d as int) =~= pn);
                lemma_hamming_take_step(pj, query@, d as int);
            }
            let miss: usize = if c != query[d] { 1 } else { 0 };
            let ghost mid = out@.len();
            let ghost fuel = (query@.len() - d) as nat;
            let ghost wc = self.walk_children(node as int, query@, k as nat, mism as nat, fuel, i as nat);
            let ghost wc1 = self.walk_children(node as int, query@, k as nat, mism as nat, fuel, (i + 1) as nat);
            assert(ch@[i as int] == (c, j));
            assert(pj.len() == d + 1);
            if miss <= k - mism {
                prefix.push(c);
                let ghost before = out@;
                self.collect(j, query, k, mism + miss, prefix, out);
                prefix.pop();
                proof {
                    assert(wc1 == wc + self.walk(j as int, query@, k as nat, (mism + miss) as nat, (fuel - 1) as nat));
                    assert(listing_view(out@) =~= listing_view(old(out)@) + wc1);
                    assert(prefix@ =~= pn);
                    assert forall|x: int| start <= x < mid implies out@[x] == before[x] by {
                        assert(out@.take(mid as int)[x] == out@[x]);
                    }
                    assert(out@.take(start as int) =~= old(out)@);
                    assert forall|x: int|
                        mid <= x < out@.len() implies (#[trigger] out@[x]).0@.take(d + 1) == pj by {
                        assert(self.below(j as int, out@[x].0@));
                    }
                    assert forall|x: int|
                        start <= x < out@.len() implies self.below(node as int, (#[trigger] out@[x]).0@)
                        && within(query@, k as nat, out@[x].0@) && out@[x].1 == hamming(
                            out@[x].0@,
                            query@,
                        ) by {
                        if x >= mid {
                            let w = out@[x].0@;
                            assert(self.below(j as int, w));
                            assert(w.take(d + 1) == pj);
                            assert(w.take(d as int) =~= w.take(d + 1).take(d as int));
                            assert(pj.take(d as int) =~= pn);
                            assert(w.take(d as int) == pn);
                            assert(self.below(node as int, w));
                        } else {
                            assert(out@[x] == before[x]);
                        }
                    }
                    assert forall|x: int, i2: int|
                        start <= x < out@.len() && i + 1 <= i2 < ch@.len() implies (
                        #[trigger] out@[x]).0@[d as int] != (#[trigger] ch@[i2]).0 by {
                        if x >= mid {
                            let w = out@[x].0@;
                            assert(w.take(d + 1) == pj);
                            assert(w.take(d + 1)[d as int] == w[d as int]);
                            assert(pj[d as int] == c);
                            assert(self.children@[node as int]@[i as int].0 != self.children@[node as int]@[i2].0);
                        } else {
                            assert(out@[x] == before[x]);
                        }
                    }
                    assert forall|x: int, y: int|
                        start <= x < y < out@.len() implies (#[trigger] out@[x]).0@ != (
                        #[trigger] out@[y]).0@ by {
                        if x < mid && y >= mid {
                            let w = out@[y].0@;
                            assert(w.take(d + 1) == pj);
                            assert(w.take(d + 1)[d as int] == w[d as int]);
                            assert(pj[d as int] == c);
                            assert(out@[x] == before[x]);
                            assert(out@[x].0@[d as int] != ch@[i as int].0);
                        } else if y < mid {
                            assert(out@[x] == before[x]);
                            assert(out@[y] == before[y]);
                        }
                    }
                    assert forall|w: Seq<u8>, i2: int|
                        #![trigger self.below(node as int, w), ch@[i2]]
                        0 <= i2 < i + 1 && self.below(node as int, w) && within(query@, k as nat, w)
                            && w[d as int] == ch@[i2].0 implies exists|x: int|
                        start <= x < out@.len() && (#[trigger] out@[x]).0@ == w by {
                        if i2 == i {
                            assert(w.take(d + 1) =~= w.take(d as int).push(w[d as int]));
                            assert(self.below(j as int, w));
                            let x = choose|x: int|
                                mid <= x < out@.len() && (#[trigger] out@[x]).0@ == w;
                        } else {
                            let x = choose|x: int|
                                start <= x < mid && (#[trigger] before[x]).0@ == w;
                            assert(out@[x] == before[x]);
                        }
                    }
                }
            } else {
                proof {
                    assert forall|w: Seq<u8>|
                        self.below(node as int, w) && within(query@, k as nat, w) implies w[d as int]
                        != c by {
                        if w[d as int] == c {
                            assert(w.take(d + 1) =~= w.take(d as int).push(w[d as int]));
                            assert(w.take(d + 1) == pj);
                            lemma_hamming_prefix_le(w, query@, d + 1);
                        }
                    }
                    assert(wc1 == wc + Seq::<(Seq<u8>, nat)>::empty());
                    assert(wc1 =~= wc);
                }
            }
            i += 1;
        }
        proof {
            assert forall|w: Seq<u8>|
                self.below(node as int, w) && within(query@, k as nat, w) implies exists|x: int|
                start <= x < out@.len() && (#[trigger] out@[x]).0@ == w by {
                let t = choose|t: int|
                    0 <= t < self.terminal@.len() && self.terminal@[t] && self.paths@[t] == w;
                assert(self.has_child(node as int, w[d as int]));
                let i2 = choose|i2: int| 0 <= i2 < ch@.len() && (#[trigger] ch@[i2]).0 == w[d as int];
            }
        }
    }

    /// Every stored string within `max_mismatches` mismatched positions of `query`, each
    /// once, with its number of mismatches, in the order of the depth-first walk.
    pub fn get_words_within_hamming_distance(&self, query: &[u8], max_mismatches: usize) -> (r: Vec<
        (Vec<u8>, usize),
    >)
        requires
            self.wf(),
        ensures
            is_ball_listing(self@, query@, max_mismatches as nat, listing_view(r@)),
            listing_view(r@) == self.neighbours(query@, max_mismatches as nat),
    {
        let mut out: Vec<(Vec<u8>, usize)> = Vec::new();
        let mut prefix: Vec<u8> = Vec::new();
        proof {
            assert(prefix@ =~= self.paths@[0]);
            assert(query@.take(0) =~= Seq::<u8>::empty());
        }
        self.collect(0, query, max_mismatches, 0, &mut prefix, &mut out);
        proof {
            assert(listing_view(Seq::<(Vec<u8>, usize)>::empty()) =~= Seq::<(Seq<u8>, nat)>::empty());
            assert(listing_view(out@) =~= self.neighbours(query@, max_mismatches as nat));
            let v = listing_view(out@);
            assert forall|w: Seq<u8>|
                self@.contains(w) && within(query@, max_mismatches as nat, w) implies exists|i: int|
                0 <= i < v.len() && #[trigger] v[i].0 == w by {
                assert(w.take(0) =~= Seq::<u8>::empty());
                assert(self.below(0, w));
                let x = choose|x: int| 0 <= x < out@.len() && (#[trigger] out@[x]).0@ == w;
                assert(v[x].0 == w);
            }
            assert forall|i: int, j: int| 0 <= i < j < v.len() implies v[i].0 != v[j].0 by {
                assert(out@[i].0@ != out@[j].0@);
            }
        }
        out
    }

}


/// A stored string is always among its own neighbours, with no mismatch, whatever the budget.
pub proof fn lemma_stored_word_is_own_neighbour(
    words: Set<Seq<u8>>,
    w: Seq<u8>,
    k: nat,
    r: Seq<(Seq<u8>, nat)>,
)
    requires
        words.contains(w),
        is_ball_listing(words, w, k, r),
    ensures
        exists|i: int| 0 <= i < r.len() && r[i] == (w, 0nat),
{
    lemma_hamming_self(w);
    assert(within(w, k, w));
    let i = choose|i: int| 0 <= i < r.len() && #[trigger] r[i].0 == w;
    assert(r[i] == (w, 0nat));
}

/// With no mismatch allowed a query finds the query itself if it is stored, and nothing else.
pub proof fn lemma_zero_budget_exact(words: Set<Seq<u8>>, q: Seq<u8>, r: Seq<(Seq<u8>, nat)>)
    requires
        is_ball_listing(words, q, 0, r),
    ensures
        forall|i: int| 0 <= i < r.len() ==> #[trigger] r[i] == (q, 0nat),
        r.len() == (if words.contains(q) {
            1int
        } else {
            0int
        }),
{
    assert forall|i: int| 0 <= i < r.len() implies #[trigger] r[i] == (q, 0nat) by {
        lemma_hamming_zero_eq(r[i].0, q);
    }
    if r.len() > 1 {
        assert(r[0].0 != r[1].0);
    }
    if words.contains(q) {
        lemma_hamming_self(q);
        assert(within(q, 0, q));
        let i = choose|i: int| 0 <= i < r.len() && #[trigger] r[i].0 == q;
    } else if r.len() > 0 {
        assert(words.contains(r[0].0));
    }
}

} // verus!
