//! Canonical mapping from unordered peer pair to the latest known signed
//! edge. Nonce monotonicity is the sole correctness rule: an upsert
//! replaces an entry only with a strictly larger nonce, so the stored
//! nonce for a key is the maximum of all nonces ever submitted for it.

use vstd::prelude::*;

use crate::edge::{peers_contain, Edge, EdgeModel, PeerId};

verus! {

/// Nonce currently stored for a key, `0` when the key is absent.
pub open spec fn nonce_of(m: Map<(PeerId, PeerId), EdgeModel>, key: (PeerId, PeerId)) -> u64 {
    if m.dom().contains(key) {
        m[key].nonce
    } else {
        0
    }
}

/// Some edge of `s` has this key.
pub open spec fn has_key(s: Seq<Edge>, key: (PeerId, PeerId)) -> bool {
    exists|i: int| 0 <= i < s.len() && s[i]@.key() == key
}

/// The position of the edge with this key (meaningful under `has_key`
/// and key uniqueness).
pub open spec fn index_of(s: Seq<Edge>, key: (PeerId, PeerId)) -> int {
    choose|i: int| 0 <= i < s.len() && s[i]@.key() == key
}

/// No two edges share a key.
pub open spec fn keys_unique(s: Seq<Edge>) -> bool {
    forall|i: int, j: int|
        0 <= i < j < s.len() ==> (#[trigger] s[i])@.key() != (#[trigger] s[j])@.key()
}

/// Every edge has a canonical key.
pub open spec fn all_wf(s: Seq<Edge>) -> bool {
    forall|i: int| 0 <= i < s.len() ==> (#[trigger] s[i])@.wf()
}

/// The map described by a sequence of edges with unique keys.
pub open spec fn edge_map(s: Seq<Edge>) -> Map<(PeerId, PeerId), EdgeModel> {
    Map::new(|key: (PeerId, PeerId)| has_key(s, key), |key: (PeerId, PeerId)| s[index_of(s, key)]@)
}

/// No two listed edges share a key.
pub open spec fn keys_distinct(list: Seq<Edge>) -> bool {
    forall|t1: int, t2: int|
        0 <= t1 < t2 < list.len() ==> (#[trigger] list[t1])@.key() != (#[trigger] list[t2])@.key()
}

/// Store of the latest authoritative fact per edge key.
pub struct EdgeStore {
    pub items: Vec<Edge>,
}

impl View for EdgeStore {
    type V = Map<(PeerId, PeerId), EdgeModel>;

    open spec fn view(&self) -> Map<(PeerId, PeerId), EdgeModel> {
        edge_map(self.items@)
    }
}

/// With unique keys, the edge at position `i` is the map entry for its key.
pub proof fn lemma_entry_at(s: Seq<Edge>, i: int)
    requires
        keys_unique(s),
        0 <= i < s.len(),
    ensures
        edge_map(s).dom().contains(s[i]@.key()),
        edge_map(s)[s[i]@.key()] == s[i]@,
{
    let key = s[i]@.key();
    assert(has_key(s, key));
    let j = index_of(s, key);
    assert(0 <= j < s.len() && s[j]@.key() == key);
    if i != j {
        if i < j {
            assert(s[i]@.key() != s[j]@.key());
        } else {
            assert(s[j]@.key() != s[i]@.key());
        }
    }
}

/// Entries of a well-formed store are canonical and keyed by their own
/// pair.
pub proof fn lemma_view_wf(st: &EdgeStore)
    requires
        st.inv(),
    ensures
        forall|k: (PeerId, PeerId)| #[trigger]
            st@.dom().contains(k) ==> st@[k].key() == k && st@[k].wf(),
{
    assert forall|k: (PeerId, PeerId)| #[trigger] st@.dom().contains(k) implies st@[k].key() == k
        && st@[k].wf() by {
        let j = index_of(st.items@, k);
        assert(0 <= j < st.items@.len() && st.items@[j]@.key() == k);
        lemma_entry_at(st.items@, j);
    }
}

impl EdgeStore {
    /// Representation invariant: canonical, pairwise distinct keys.
    pub open spec fn inv(&self) -> bool {
        keys_unique(self.items@) && all_wf(self.items@)
    }

    pub fn new() -> (r: EdgeStore)
        ensures
            r.inv(),
            r@ == Map::<(PeerId, PeerId), EdgeModel>::empty(),
    {
        let r = EdgeStore { items: Vec::new() };
        proof {
            assert(r@ =~= Map::<(PeerId, PeerId), EdgeModel>::empty());
        }
        r
    }

    /// Position of the entry for `key`, if any.
    fn find(&self, key: (PeerId, PeerId)) -> (r: Option<usize>)
        ensures
            match r {
                Some(i) => i < self.items@.len() && self.items@[i as int]@.key() == key,
                None => !has_key(self.items@, key),
            },
    {
        let mut i: usize = 0;
        while i < self.items.len()
            invariant
                i <= self.items@.len(),
                forall|j: int| 0 <= j < i ==> (#[trigger] self.items@[j])@.key() != key,
            decreases self.items@.len() - i,
        {
            let pair = self.items[i].get_pair();
            if pair.0 == key.0 && pair.1 == key.1 {
                return Some(i);
            }
            i = i + 1;
        }
        None
    }

    pub fn contains(&self, key: (PeerId, PeerId)) -> (r: bool)
        requires
            self.inv(),
        ensures
            r == self@.dom().contains(key),
    {
        self.find(key).is_some()
    }

    /// Stored nonce for `key`; `0` when absent.
    pub fn current_nonce(&self, key: (PeerId, PeerId)) -> (r: u64)
        requires
            self.inv(),
        ensures
            r == nonce_of(self@, key),
    {
        match self.find(key) {
            Some(i) => {
                proof {
                    lemma_entry_at(self.items@, i as int);
                }
                self.items[i].nonce
            },
            None => 0,
        }
    }

    /// A copy of the entry for `key`, if any.
    pub fn get(&self, key: (PeerId, PeerId)) -> (r: Option<Edge>)
        requires
            self.inv(),
        ensures
            match r {
                Some(e) => self@.dom().contains(key) && e@ == self@[key],
                None => !self@.dom().contains(key),
            },
    {
        match self.find(key) {
            Some(i) => {
                proof {
                    lemma_entry_at(self.items@, i as int);
                }
                Some(self.items[i].duplicate())
            },
            None => None,
        }
    }

    /// Installs `edge` iff its nonce strictly exceeds the stored one.
    /// The stored nonce for the key afterwards is the maximum of the old
    /// stored nonce and the submitted nonce.
    pub fn upsert(&mut self, edge: Edge) -> (r: bool)
        requires
            old(self).inv(),
            edge@.wf(),
        ensures
            final(self).inv(),
            r == (edge@.nonce > nonce_of(old(self)@, edge@.key())),
            r ==> final(self)@ == old(self)@.insert(edge@.key(), edge@),
            !r ==> final(self)@ == old(self)@,
            nonce_of(final(self)@, edge@.key()) == if edge@.nonce > nonce_of(
                old(self)@,
                edge@.key(),
            ) {
                edge@.nonce
            } else {
                nonce_of(old(self)@, edge@.key())
            },
            forall|k: (PeerId, PeerId)|
                k != edge@.key() ==> #[trigger] nonce_of(final(self)@, k) == nonce_of(old(self)@, k),
    {
        let key = edge.get_pair();
        let ghost s0 = self.items@;
        match self.find(key) {
            Some(i) => {
                proof {
                    lemma_entry_at(s0, i as int);
                }
                if edge.nonce > self.items[i].nonce {
                    self.items.set(i, edge);
                    proof {
                        let s1 = self.items@;
                        assert forall|j1: int, j2: int| 0 <= j1 < j2 < s1.len() implies (
                        #[trigger] s1[j1])@.key() != (#[trigger] s1[j2])@.key() by {
                            assert(s0[j1]@.key() != s0[j2]@.key());
                        }
                        assert forall|k: (PeerId, PeerId)| #[trigger]
                            has_key(s1, k) == has_key(s0, k) by {
                            if has_key(s1, k) {
                                let j = choose|j: int| 0 <= j < s1.len() && s1[j]@.key() == k;
                                assert(s0[j]@.key() == k);
                            }
                            if has_key(s0, k) {
                                let j = choose|j: int| 0 <= j < s0.len() && s0[j]@.key() == k;
                                assert(s1[j]@.key() == k);
                            }
                        }
                        assert forall|k: (PeerId, PeerId)| #[trigger]
                            edge_map(s1).dom().contains(k) implies edge_map(s1)[k] == edge_map(
                            s0,
                        ).insert(key, edge@)[k] by {
                            let j = index_of(s1, k);
                            assert(0 <= j < s1.len() && s1[j]@.key() == k);
                            lemma_entry_at(s1, j);
                            if k == key {
                                lemma_entry_at(s1, i as int);
                            } else {
                                assert(j != i);
                                assert(s0[j]@.key() == k);
                                lemma_entry_at(s0, j);
                            }
                        }
                        assert(edge_map(s1) =~= edge_map(s0).insert(key, edge@));
                        lemma_entry_at(s1, i as int);
                    }
                    true
                } else {
                    false
                }
            },
            None => {
                if edge.nonce > 0 {
                    self.items.push(edge);
                    proof {
                        let s1 = self.items@;
                        let e = edge;
                        assert(s1 == s0.push(e));
                        assert forall|j1: int, j2: int| 0 <= j1 < j2 < s1.len() implies (
                        #[trigger] s1[j1])@.key() != (#[trigger] s1[j2])@.key() by {
                            if j2 == s0.len() {
                                assert(s1[j1] == s0[j1]);
                                assert(has_key(s0, s0[j1]@.key()));
                            } else {
                                assert(s0[j1]@.key() != s0[j2]@.key());
                            }
                        }
                        assert forall|k: (PeerId, PeerId)| #[trigger]
                            edge_map(s1).dom().contains(k) implies edge_map(s0).insert(
                            key,
                            e@,
                        ).dom().contains(k) && edge_map(s1)[k] == edge_map(s0).insert(key, e@)[k] by {
                            let j = index_of(s1, k);
                            assert(0 <= j < s1.len() && s1[j]@.key() == k);
                            lemma_entry_at(s1, j);
                            if k == key {
                            } else {
                                assert(j != s0.len());
                                assert(s0[j]@.key() == k);
                                lemma_entry_at(s0, j);
                            }
                        }
                        assert forall|k: (PeerId, PeerId)| #[trigger]
                            edge_map(s0).insert(key, e@).dom().contains(k) implies edge_map(
                            s1,
                        ).dom().contains(k) by {
                            if k == key {
                                assert(s1[s0.len() as int]@.key() == key);
                            } else {
                                let j = index_of(s0, k);
                                assert(0 <= j < s0.len() && s0[j]@.key() == k);
                                assert(s1[j]@.key() == k);
                            }
                        }
                        assert(edge_map(s1) =~= edge_map(s0).insert(key, e@));
                        lemma_entry_at(s1, s0.len() as int);
                    }
                    true
                } else {
                    false
                }
            },
        }
    }

    /// Unconditionally removes the entry for `key`, reporting whether it
    /// was present.
    pub fn remove(&mut self, key: (PeerId, PeerId)) -> (r: bool)
        requires
            old(self).inv(),
        ensures
            final(self).inv(),
            r == old(self)@.dom().contains(key),
            final(self)@ == old(self)@.remove(key),
    {
        let ghost s0 = self.items@;
        match self.find(key) {
            Some(i) => {
                proof {
                    lemma_entry_at(s0, i as int);
                }
                self.items.remove(i);
                proof {
                    let s1 = self.items@;
                    assert(s1 == s0.remove(i as int));
                    assert forall|j1: int, j2: int| 0 <= j1 < j2 < s1.len() implies (
                    #[trigger] s1[j1])@.key() != (#[trigger] s1[j2])@.key() by {
                        let o1: int = if j1 < i { j1 } else { j1 + 1 };
                        let o2: int = if j2 < i { j2 } else { j2 + 1 };
                        assert(s1[j1] == s0[o1] && s1[j2] == s0[o2]);
                        assert(s0[o1]@.key() != s0[o2]@.key());
                    }
                    assert forall|j: int| 0 <= j < s1.len() implies (#[trigger] s1[j])@.wf() by {
                        let o: int = if j < i { j } else { j + 1 };
                        assert(s1[j] == s0[o]);
                    }
                    assert forall|k: (PeerId, PeerId)| #[trigger]
                        edge_map(s1).dom().contains(k) implies edge_map(s0).remove(
                        key,
                    ).dom().contains(k) && edge_map(s1)[k] == edge_map(s0).remove(key)[k] by {
                        let j = index_of(s1, k);
                        assert(0 <= j < s1.len() && s1[j]@.key() == k);
                        lemma_entry_at(s1, j);
                        let o: int = if j < i { j } else { j + 1 };
                        assert(s1[j] == s0[o]);
                        assert(o != i);
                        if o < i {
                            assert(s0[o]@.key() != s0[i as int]@.key());
                        } else {
                            assert(s0[i as int]@.key() != s0[o]@.key());
                        }
                        lemma_entry_at(s0, o);
                    }
                    assert forall|k: (PeerId, PeerId)| #[trigger]
                        edge_map(s0).remove(key).dom().contains(k) implies edge_map(
                        s1,
                    ).dom().contains(k) by {
                        let j = index_of(s0, k);
                        assert(0 <= j < s0.len() && s0[j]@.key() == k);
                        assert(j != i);
                        let n: int = if j < i { j } else { j - 1 };
                        assert(s1[n] == s0[j]);
                    }
                    assert(edge_map(s1) =~= edge_map(s0).remove(key));
                }
                true
            },
            None => {
                proof {
                    assert(edge_map(s0) =~= edge_map(s0).remove(key));
                }
                false
            },
        }
    }

    pub fn len(&self) -> (r: usize)
        ensures
            r == self.items@.len(),
    {
        self.items.len()
    }

    /// Copies of all stored edges that touch one of the given peers.
    pub fn collect_touching(&self, peers: &Vec<PeerId>) -> (r: Vec<Edge>)
        requires
            self.inv(),
        ensures
            forall|t: int|
                0 <= t < r@.len() ==> self@.dom().contains((#[trigger] r@[t])@.key())
                    && self@[r@[t]@.key()] == r@[t]@ && r@[t]@.wf() && (peers@.contains(
                    r@[t]@.peer0,
                ) || peers@.contains(r@[t]@.peer1)),
            forall|t1: int, t2: int|
                0 <= t1 < t2 < r@.len() ==> (#[trigger] r@[t1])@.key() != (#[trigger] r@[t2])@.key(),
            forall|k: (PeerId, PeerId)| #[trigger]
                self@.dom().contains(k) && (peers@.contains(self@[k].peer0) || peers@.contains(
                    self@[k].peer1,
                )) ==> exists|t: int| 0 <= t < r@.len() && (#[trigger] r@[t])@.key() == k,
    {
        let mut out: Vec<Edge> = Vec::new();
        let mut i: usize = 0;
        while i < self.items.len()
            invariant
                self.inv(),
                i <= self.items@.len(),
                forall|t: int|
                    0 <= t < out@.len() ==> exists|j: int|
                        0 <= j < i && (#[trigger] out@[t])@ == self.items@[j]@,
                forall|t1: int, t2: int|
                    0 <= t1 < t2 < out@.len() ==> (#[trigger] out@[t1])@.key() != (
                    #[trigger] out@[t2])@.key(),
                forall|t: int|
                    0 <= t < out@.len() ==> peers@.contains((#[trigger] out@[t])@.peer0)
                        || peers@.contains(out@[t]@.peer1),
                forall|j: int|
                    0 <= j < i && (peers@.contains((#[trigger] self.items@[j])@.peer0)
                        || peers@.contains(self.items@[j]@.peer1)) ==> exists|t: int|
                        0 <= t < out@.len() && (#[trigger] out@[t])@.key() == self.items@[j]@.key(),
            decreases self.items@.len() - i,
        {
            let touch0 = peers_contain(peers, self.items[i].peer0);
            let touch1 = peers_contain(peers, self.items[i].peer1);
            let ghost out0 = out@;
            if touch0 || touch1 {
                out.push(self.items[i].duplicate());
                proof {
                    assert(out@[out0.len() as int]@ == self.items@[i as int]@);
                    assert forall|t: int| 0 <= t < out@.len() implies exists|j: int|
                        0 <= j < i + 1 && (#[trigger] out@[t])@ == self.items@[j]@ by {
                        if t < out0.len() {
                            let j = choose|j: int| 0 <= j < i && out0[t]@ == self.items@[j]@;
                            assert(out@[t] == out0[t]);
                            assert(out@[t]@ == self.items@[j]@);
                        } else {
                            assert(out@[t]@ == self.items@[i as int]@);
                        }
                    }
                    assert forall|t1: int, t2: int| 0 <= t1 < t2 < out@.len() implies (
                    #[trigger] out@[t1])@.key() != (#[trigger] out@[t2])@.key() by {
                        if t2 == out0.len() {
                            let j = choose|j: int| 0 <= j < i && out0[t1]@ == self.items@[j]@;
                            assert(out@[t1] == out0[t1]);
                            assert(self.items@[j]@.key() != self.items@[i as int]@.key());
                        } else {
                            assert(out@[t1] == out0[t1] && out@[t2] == out0[t2]);
                        }
                    }
                }
            }
            i = i + 1;
            proof {
                assert forall|j: int|
                    0 <= j < i && (peers@.contains((#[trigger] self.items@[j])@.peer0)
                        || peers@.contains(self.items@[j]@.peer1)) implies exists|t: int|
                    0 <= t < out@.len() && (#[trigger] out@[t])@.key() == self.items@[j]@.key() by {
                    if j < i - 1 {
                        let t = choose|t: int|
                            0 <= t < out0.len() && (#[trigger] out0[t])@.key()
                                == self.items@[j]@.key();
                        assert(out@[t] == out0[t]);
                        assert(out@[t]@.key() == self.items@[j]@.key());
                    } else {
                        assert(out@[out0.len() as int]@.key() == self.items@[j]@.key());
                    }
                }
            }
        }
        proof {
            assert forall|t: int| 0 <= t < out@.len() implies self@.dom().contains(
                (#[trigger] out@[t])@.key(),
            ) && self@[out@[t]@.key()] == out@[t]@ && out@[t]@.wf() by {
                let j = choose|j: int|
                    0 <= j < self.items@.len() && (#[trigger] out@[t])@ == self.items@[j]@;
                lemma_entry_at(self.items@, j);
            }
            assert forall|k: (PeerId, PeerId)| #[trigger]
                self@.dom().contains(k) && (peers@.contains(self@[k].peer0) || peers@.contains(
                    self@[k].peer1,
                )) implies exists|t: int|
                0 <= t < out@.len() && (#[trigger] out@[t])@.key() == k by {
                let j = index_of(self.items@, k);
                assert(0 <= j < self.items@.len() && self.items@[j]@.key() == k);
                lemma_entry_at(self.items@, j);
            }
        }
        out
    }

    /// Copies of all stored edges, in storage order.
    pub fn edges_list(&self) -> (r: Vec<Edge>)
        requires
            self.inv(),
        ensures
            r@.len() == self.items@.len(),
            forall|j: int| 0 <= j < r@.len() ==> (#[trigger] r@[j])@ == self.items@[j]@,
            forall|j: int|
                0 <= j < r@.len() ==> self@.dom().contains((#[trigger] r@[j])@.key()) && self@[r@[j]@.key()]
                    == r@[j]@,
            forall|k: (PeerId, PeerId)| #[trigger]
                self@.dom().contains(k) ==> exists|j: int| 0 <= j < r@.len() && (#[trigger] r@[j])@.key()
                    == k,
            keys_distinct(r@),
    {
        let mut out: Vec<Edge> = Vec::new();
        let mut i: usize = 0;
        while i < self.items.len()
            invariant
                i <= self.items@.len(),
                out@.len() == i,
                forall|j: int| 0 <= j < i ==> (#[trigger] out@[j])@ == self.items@[j]@,
            decreases self.items@.len() - i,
        {
            out.push(self.items[i].duplicate());
            i = i + 1;
        }
        proof {
            assert forall|t1: int, t2: int| 0 <= t1 < t2 < out@.len() implies (
            #[trigger] out@[t1])@.key() != (#[trigger] out@[t2])@.key() by {
                assert(self.items@[t1]@.key() != self.items@[t2]@.key());
            }
            assert forall|j: int| 0 <= j < out@.len() implies self@.dom().contains(
                (#[trigger] out@[j])@.key(),
            ) && self@[out@[j]@.key()] == out@[j]@ by {
                lemma_entry_at(self.items@, j);
            }
            assert forall|k: (PeerId, PeerId)| #[trigger] self@.dom().contains(k) implies exists|
                j: int,
            | 0 <= j < out@.len() && (#[trigger] out@[j])@.key() == k by {
                let j = index_of(self.items@, k);
                assert(0 <= j < self.items@.len() && self.items@[j]@.key() == k);
                assert(out@[j]@.key() == k);
            }
        }
        out
    }
}

} // verus!
