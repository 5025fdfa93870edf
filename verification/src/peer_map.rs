//! A small map from peer identity to a 64-bit value, used both for the
//! Reachability Tracker (peer to last-reachable timestamp) and for the
//! PeerComponent column (peer to owning component nonce), together with
//! the scans the prune pass needs.

use vstd::prelude::*;

use crate::edge::PeerId;

verus! {

/// A peer last reachable at `t` counts as stale at `now` once it has
/// been unreachable for at least `window` time units. A timestamp in
/// the future is never stale.
pub open spec fn is_stale(t: u64, now: u64, window: u64) -> bool {
    t + window <= now
}

pub open spec fn has_peer(s: Seq<(PeerId, u64)>, peer: PeerId) -> bool {
    exists|i: int| 0 <= i < s.len() && s[i].0 == peer
}

pub open spec fn index_of_peer(s: Seq<(PeerId, u64)>, peer: PeerId) -> int {
    choose|i: int| 0 <= i < s.len() && s[i].0 == peer
}

pub open spec fn peers_unique(s: Seq<(PeerId, u64)>) -> bool {
    forall|i: int, j: int| 0 <= i < j < s.len() ==> (#[trigger] s[i]).0 != (#[trigger] s[j]).0
}

/// The map described by a sequence of entries with unique peers.
pub open spec fn pair_map(s: Seq<(PeerId, u64)>) -> Map<PeerId, u64> {
    Map::new(|peer: PeerId| has_peer(s, peer), |peer: PeerId| s[index_of_peer(s, peer)].1)
}

/// With unique peers, the entry at position `i` is the map entry for
/// its peer.
pub proof fn lemma_peer_entry_at(s: Seq<(PeerId, u64)>, i: int)
    requires
        peers_unique(s),
        0 <= i < s.len(),
    ensures
        pair_map(s).dom().contains(s[i].0),
        pair_map(s)[s[i].0] == s[i].1,
{
    let peer = s[i].0;
    assert(has_peer(s, peer));
    let j = index_of_peer(s, peer);
    assert(0 <= j < s.len() && s[j].0 == peer);
    if i != j {
        if i < j {
            assert(s[i].0 != s[j].0);
        } else {
            assert(s[j].0 != s[i].0);
        }
    }
}

/// Map from peer identity to a value, with insert-or-update semantics.
pub struct PeerMap {
    pub items: Vec<(PeerId, u64)>,
}

impl View for PeerMap {
    type V = Map<PeerId, u64>;

    open spec fn view(&self) -> Map<PeerId, u64> {
        pair_map(self.items@)
    }
}

impl PeerMap {
    pub open spec fn inv(&self) -> bool {
        peers_unique(self.items@)
    }

    pub fn new() -> (r: PeerMap)
        ensures
            r.inv(),
            r@ == Map::<PeerId, u64>::empty(),
    {
        let r = PeerMap { items: Vec::new() };
        proof {
            assert(r@ =~= Map::<PeerId, u64>::empty());
        }
        r
    }

    fn find(&self, peer: PeerId) -> (r: Option<usize>)
        ensures
            match r {
                Some(i) => i < self.items@.len() && self.items@[i as int].0 == peer,
                None => !has_peer(self.items@, peer),
            },
    {
        let mut i: usize = 0;
        while i < self.items.len()
            invariant
                i <= self.items@.len(),
                forall|j: int| 0 <= j < i ==> (#[trigger] self.items@[j]).0 != peer,
            decreases self.items@.len() - i,
        {
            if self.items[i].0 == peer {
                return Some(i);
            }
            i = i + 1;
        }
        None
    }

    pub fn contains(&self, peer: PeerId) -> (r: bool)
        requires
            self.inv(),
        ensures
            r == self@.dom().contains(peer),
    {
        self.find(peer).is_some()
    }

    pub fn get(&self, peer: PeerId) -> (r: Option<u64>)
        requires
            self.inv(),
        ensures
            match r {
                Some(v) => self@.dom().contains(peer) && v == self@[peer],
                None => !self@.dom().contains(peer),
            },
    {
        match self.find(peer) {
            Some(i) => {
                proof {
                    lemma_peer_entry_at(self.items@, i as int);
                }
                Some(self.items[i].1)
            },
            None => None,
        }
    }

    /// Inserts or updates the entry for `peer`.
    pub fn insert(&mut self, peer: PeerId, value: u64)
        requires
            old(self).inv(),
        ensures
            final(self).inv(),
            final(self)@ == old(self)@.insert(peer, value),
    {
        let ghost s0 = self.items@;
        match self.find(peer) {
            Some(i) => {
                self.items.set(i, (peer, value));
                proof {
                    let s1 = self.items@;
                    assert forall|j1: int, j2: int| 0 <= j1 < j2 < s1.len() implies (
                    #[trigger] s1[j1]).0 != (#[trigger] s1[j2]).0 by {
                        assert(s0[j1].0 != s0[j2].0);
                    }
                    assert forall|p: PeerId| #[trigger]
                        pair_map(s1).dom().contains(p) implies pair_map(s0).insert(
                        peer,
                        value,
                    ).dom().contains(p) && pair_map(s1)[p] == pair_map(s0).insert(
                        peer,
                        value,
                    )[p] by {
                        let j = index_of_peer(s1, p);
                        assert(0 <= j < s1.len() && s1[j].0 == p);
                        lemma_peer_entry_at(s1, j);
                        if p == peer {
                            lemma_peer_entry_at(s1, i as int);
                        } else {
                            assert(j != i);
                            assert(s0[j].0 == p);
                            lemma_peer_entry_at(s0, j);
                        }
                    }
                    assert forall|p: PeerId| #[trigger]
                        pair_map(s0).insert(peer, value).dom().contains(p) implies pair_map(
                        s1,
                    ).dom().contains(p) by {
                        if p == peer {
                            assert(s1[i as int].0 == peer);
                        } else {
                            let j = index_of_peer(s0, p);
                            assert(0 <= j < s0.len() && s0[j].0 == p);
                            assert(j != i);
                            assert(s1[j].0 == p);
                        }
                    }
                    assert(pair_map(s1) =~= pair_map(s0).insert(peer, value));
                }
            },
            None => {
                self.items.push((peer, value));
                proof {
                    let s1 = self.items@;
                    assert(s1 == s0.push((peer, value)));
                    assert forall|j1: int, j2: int| 0 <= j1 < j2 < s1.len() implies (
                    #[trigger] s1[j1]).0 != (#[trigger] s1[j2]).0 by {
                        if j2 == s0.len() {
                            assert(s1[j1] == s0[j1]);
                            assert(has_peer(s0, s0[j1].0));
                        } else {
                            assert(s0[j1].0 != s0[j2].0);
                        }
                    }
                    assert forall|p: PeerId| #[trigger]
                        pair_map(s1).dom().contains(p) implies pair_map(s0).insert(
                        peer,
                        value,
                    ).dom().contains(p) && pair_map(s1)[p] == pair_map(s0).insert(
                        peer,
                        value,
                    )[p] by {
                        let j = index_of_peer(s1, p);
                        assert(0 <= j < s1.len() && s1[j].0 == p);
                        lemma_peer_entry_at(s1, j);
                        if p == peer {
                            lemma_peer_entry_at(s1, s0.len() as int);
                        } else {
                            assert(j != s0.len());
                            assert(s0[j].0 == p);
                            lemma_peer_entry_at(s0, j);
                        }
                    }
                    assert forall|p: PeerId| #[trigger]
                        pair_map(s0).insert(peer, value).dom().contains(p) implies pair_map(
                        s1,
                    ).dom().contains(p) by {
                        if p == peer {
                            assert(s1[s0.len() as int].0 == peer);
                        } else {
                            let j = index_of_peer(s0, p);
                            assert(0 <= j < s0.len() && s0[j].0 == p);
                            assert(s1[j].0 == p);
                        }
                    }
                    assert(pair_map(s1) =~= pair_map(s0).insert(peer, value));
                }
            },
        }
    }

    /// Removes the entry for `peer`, reporting whether it was present.
    pub fn remove(&mut self, peer: PeerId) -> (r: bool)
        requires
            old(self).inv(),
        ensures
            final(self).inv(),
            r == old(self)@.dom().contains(peer),
            final(self)@ == old(self)@.remove(peer),
    {
        let ghost s0 = self.items@;
        match self.find(peer) {
            Some(i) => {
                proof {
                    lemma_peer_entry_at(s0, i as int);
                }
                self.items.remove(i);
                proof {
                    let s1 = self.items@;
                    assert(s1 == s0.remove(i as int));
                    assert forall|j1: int, j2: int| 0 <= j1 < j2 < s1.len() implies (
                    #[trigger] s1[j1]).0 != (#[trigger] s1[j2]).0 by {
                        let o1: int = if j1 < i { j1 } else { j1 + 1 };
                        let o2: int = if j2 < i { j2 } else { j2 + 1 };
                        assert(s1[j1] == s0[o1] && s1[j2] == s0[o2]);
                        assert(s0[o1].0 != s0[o2].0);
                    }
                    assert forall|p: PeerId| #[trigger]
                        pair_map(s1).dom().contains(p) implies pair_map(s0).remove(
                        peer,
                    ).dom().contains(p) && pair_map(s1)[p] == pair_map(s0).remove(peer)[p] by {
                        let j = index_of_peer(s1, p);
                        assert(0 <= j < s1.len() && s1[j].0 == p);
                        lemma_peer_entry_at(s1, j);
                        let o: int = if j < i { j } else { j + 1 };
                        assert(s1[j] == s0[o]);
                        assert(o != i);
                        if o < i {
                            assert(s0[o].0 != s0[i as int].0);
                        } else {
                            assert(s0[i as int].0 != s0[o].0);
                        }
                        lemma_peer_entry_at(s0, o);
                    }
                    assert forall|p: PeerId| #[trigger]
                        pair_map(s0).remove(peer).dom().contains(p) implies pair_map(
                        s1,
                    ).dom().contains(p) by {
                        let j = index_of_peer(s0, p);
                        assert(0 <= j < s0.len() && s0[j].0 == p);
                        assert(j != i);
                        let n: int = if j < i { j } else { j - 1 };
                        assert(s1[n] == s0[j]);
                    }
                    assert(pair_map(s1) =~= pair_map(s0).remove(peer));
                }
                true
            },
            None => {
                proof {
                    assert(pair_map(s0) =~= pair_map(s0).remove(peer));
                }
                false
            },
        }
    }

    pub fn len(&self) -> (r: usize)
        ensures
            r == self.items@.len(),
    {
        self.items.len()
    }

    /// The peers whose value, read as a timestamp, is stale at `now`
    /// for the given window.
    pub fn stale_peers(&self, now: u64, window: u64) -> (r: Vec<PeerId>)
        requires
            self.inv(),
        ensures
            forall|j1: int, j2: int| 0 <= j1 < j2 < r@.len() ==> r@[j1] != r@[j2],
            forall|p: PeerId| #[trigger]
                r@.contains(p) <==> self@.dom().contains(p) && is_stale(self@[p], now, window),
    {
        let mut out: Vec<PeerId> = Vec::new();
        let mut i: usize = 0;
        while i < self.items.len()
            invariant
                self.inv(),
                i <= self.items@.len(),
                forall|j: int|
                    0 <= j < out@.len() ==> exists|o: int|
                        0 <= o < i && (#[trigger] out@[j]) == self.items@[o].0,
                forall|j1: int, j2: int| 0 <= j1 < j2 < out@.len() ==> out@[j1] != out@[j2],
                forall|o: int|
                    0 <= o < i ==> (out@.contains((#[trigger] self.items@[o]).0) <==> is_stale(
                        self.items@[o].1,
                        now,
                        window,
                    )),
            decreases self.items@.len() - i,
        {
            let (peer, t) = self.items[i];
            let ghost out0 = out@;
            if t <= now && now - t >= window {
                out.push(peer);
                proof {
                    assert forall|j1: int, j2: int| 0 <= j1 < j2 < out@.len() implies out@[j1]
                        != out@[j2] by {
                        if j2 == out0.len() {
                            let o = choose|o: int| 0 <= o < i && out0[j1] == self.items@[o].0;
                            assert(self.items@[o].0 != self.items@[i as int].0);
                        }
                    }
                    assert forall|o: int| 0 <= o < i + 1 implies (out@.contains(
                        (#[trigger] self.items@[o]).0,
                    ) <==> is_stale(self.items@[o].1, now, window)) by {
                        if o < i {
                            if out0.contains(self.items@[o].0) {
                                let j = choose|j: int|
                                    0 <= j < out0.len() && out0[j] == self.items@[o].0;
                                assert(out@[j] == self.items@[o].0);
                            }
                            if out@.contains(self.items@[o].0) {
                                let j = choose|j: int|
                                    0 <= j < out@.len() && out@[j] == self.items@[o].0;
                                if j == out0.len() {
                                    assert(self.items@[o].0 != self.items@[i as int].0);
                                }
                                assert(out0[j] == self.items@[o].0);
                            }
                        } else {
                            assert(out@[out0.len() as int] == self.items@[i as int].0);
                        }
                    }
                }
            } else {
                proof {
                    assert forall|o: int| 0 <= o < i + 1 implies (out@.contains(
                        (#[trigger] self.items@[o]).0,
                    ) <==> is_stale(self.items@[o].1, now, window)) by {
                        if o == i {
                            if out@.contains(self.items@[o].0) {
                                let j = choose|j: int|
                                    0 <= j < out@.len() && out@[j] == self.items@[o].0;
                                let o2 = choose|o2: int|
                                    0 <= o2 < i && out@[j] == self.items@[o2].0;
                                assert(self.items@[o2].0 != self.items@[i as int].0);
                            }
                        }
                    }
                }
            }
            i = i + 1;
        }
        proof {
            assert forall|p: PeerId| #[trigger] out@.contains(p) implies self@.dom().contains(p)
                && is_stale(self@[p], now, window) by {
                let j = choose|j: int| 0 <= j < out@.len() && out@[j] == p;
                let o = choose|o: int| 0 <= o < self.items@.len() && out@[j] == self.items@[o].0;
                lemma_peer_entry_at(self.items@, o);
            }
            assert forall|p: PeerId| self@.dom().contains(p) && is_stale(
                self@[p],
                now,
                window,
            ) implies #[trigger] out@.contains(p) by {
                let o = index_of_peer(self.items@, p);
                assert(0 <= o < self.items@.len() && self.items@[o].0 == p);
                lemma_peer_entry_at(self.items@, o);
            }
        }
        out
    }

    /// The minimum of `now` and every stored timestamp.
    pub fn oldest_time(&self, now: u64) -> (r: u64)
        requires
            self.inv(),
        ensures
            r <= now,
            forall|p: PeerId| #[trigger] self@.dom().contains(p) ==> r <= self@[p],
            r == now || exists|p: PeerId| #[trigger] self@.dom().contains(p) && self@[p] == r,
    {
        let mut r: u64 = now;
        let mut i: usize = 0;
        while i < self.items.len()
            invariant
                self.inv(),
                i <= self.items@.len(),
                r <= now,
                forall|o: int| 0 <= o < i ==> r <= (#[trigger] self.items@[o]).1,
                r == now || exists|o: int| 0 <= o < i && (#[trigger] self.items@[o]).1 == r,
            decreases self.items@.len() - i,
        {
            let t = self.items[i].1;
            if t < r {
                r = t;
            }
            i = i + 1;
        }
        proof {
            assert forall|p: PeerId| #[trigger] self@.dom().contains(p) implies r <= self@[p] by {
                let o = index_of_peer(self.items@, p);
                assert(0 <= o < self.items@.len() && self.items@[o].0 == p);
                lemma_peer_entry_at(self.items@, o);
            }
            if r != now {
                let o = choose|o: int| 0 <= o < self.items@.len() && self.items@[o].1 == r;
                lemma_peer_entry_at(self.items@, o);
                assert(self@.dom().contains(self.items@[o].0) && self@[self.items@[o].0] == r);
            }
        }
        r
    }
}

} // verus!
