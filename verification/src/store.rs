//! Model of the durable key-value store columns the routing table uses:
//! `LastComponentNonce` (the next component nonce to allocate),
//! `ComponentEdges` (component nonce to spilled edge list) and
//! `PeerComponent` (peer to owning component nonce). The surrounding
//! node gives these columns a physical representation; the core needs
//! only their contents, held here as plain values.

use vstd::prelude::*;
use vstd::string::{StrSliceExecFns, StringExecFns};

use crate::edge::{copy_edges, Edge, EdgeModel, PeerId};
use crate::peer_map::PeerMap;

verus! {

pub open spec fn models_of(s: Seq<Edge>) -> Seq<EdgeModel> {
    s.map_values(|e: Edge| e@)
}

pub open spec fn has_nonce(s: Seq<(u64, Vec<Edge>)>, nonce: u64) -> bool {
    exists|i: int| 0 <= i < s.len() && s[i].0 == nonce
}

pub open spec fn index_of_nonce(s: Seq<(u64, Vec<Edge>)>, nonce: u64) -> int {
    choose|i: int| 0 <= i < s.len() && s[i].0 == nonce
}

pub open spec fn nonces_unique(s: Seq<(u64, Vec<Edge>)>) -> bool {
    forall|i: int, j: int| 0 <= i < j < s.len() ==> (#[trigger] s[i]).0 != (#[trigger] s[j]).0
}

/// The map described by a sequence of component entries with unique
/// nonces.
pub open spec fn component_map(s: Seq<(u64, Vec<Edge>)>) -> Map<u64, Seq<EdgeModel>> {
    Map::new(
        |nonce: u64| has_nonce(s, nonce),
        |nonce: u64| models_of(s[index_of_nonce(s, nonce)].1@),
    )
}

/// With unique nonces, the entry at position `i` is the map entry for
/// its nonce.
pub proof fn lemma_component_entry_at(s: Seq<(u64, Vec<Edge>)>, i: int)
    requires
        nonces_unique(s),
        0 <= i < s.len(),
    ensures
        component_map(s).dom().contains(s[i].0),
        component_map(s)[s[i].0] == models_of(s[i].1@),
{
    let nonce = s[i].0;
    assert(has_nonce(s, nonce));
    let j = index_of_nonce(s, nonce);
    assert(0 <= j < s.len() && s[j].0 == nonce);
    if i != j {
        if i < j {
            assert(s[i].0 != s[j].0);
        } else {
            assert(s[j].0 != s[i].0);
        }
    }
}

/// The `ComponentEdges` column: component nonce to spilled edge list.
pub struct ComponentTable {
    pub items: Vec<(u64, Vec<Edge>)>,
}

impl View for ComponentTable {
    type V = Map<u64, Seq<EdgeModel>>;

    open spec fn view(&self) -> Map<u64, Seq<EdgeModel>> {
        component_map(self.items@)
    }
}

impl ComponentTable {
    pub open spec fn inv(&self) -> bool {
        nonces_unique(self.items@)
    }

    pub fn new() -> (r: ComponentTable)
        ensures
            r.inv(),
            r@ == Map::<u64, Seq<EdgeModel>>::empty(),
    {
        let r = ComponentTable { items: Vec::new() };
        proof {
            assert(r@ =~= Map::<u64, Seq<EdgeModel>>::empty());
        }
        r
    }

    fn find(&self, nonce: u64) -> (r: Option<usize>)
        ensures
            match r {
                Some(i) => i < self.items@.len() && self.items@[i as int].0 == nonce,
                None => !has_nonce(self.items@, nonce),
            },
    {
        let mut i: usize = 0;
        while i < self.items.len()
            invariant
                i <= self.items@.len(),
                forall|j: int| 0 <= j < i ==> (#[trigger] self.items@[j]).0 != nonce,
            decreases self.items@.len() - i,
        {
            if self.items[i].0 == nonce {
                return Some(i);
            }
            i = i + 1;
        }
        None
    }

    pub fn contains(&self, nonce: u64) -> (r: bool)
        requires
            self.inv(),
        ensures
            r == self@.dom().contains(nonce),
    {
        self.find(nonce).is_some()
    }

    /// Writes the edge list for a nonce not yet present.
    pub fn insert_new(&mut self, nonce: u64, edges: Vec<Edge>)
        requires
            old(self).inv(),
            !old(self)@.dom().contains(nonce),
        ensures
            final(self).inv(),
            final(self)@ == old(self)@.insert(nonce, models_of(edges@)),
    {
        let ghost s0 = self.items@;
        self.items.push((nonce, edges));
        proof {
            let s1 = self.items@;
            assert(!has_nonce(s0, nonce));
            assert forall|j1: int, j2: int| 0 <= j1 < j2 < s1.len() implies (#[trigger] s1[j1]).0
                != (#[trigger] s1[j2]).0 by {
                if j2 == s0.len() {
                    assert(s1[j1] == s0[j1]);
                    assert(has_nonce(s0, s0[j1].0));
                } else {
                    assert(s0[j1].0 != s0[j2].0);
                }
            }
            assert forall|c: u64| #[trigger] component_map(s1).dom().contains(c) implies
                component_map(s0).insert(nonce, models_of(s1[s0.len() as int].1@)).dom().contains(c)
                && component_map(s1)[c] == component_map(s0).insert(
                nonce,
                models_of(s1[s0.len() as int].1@),
            )[c] by {
                let j = index_of_nonce(s1, c);
                assert(0 <= j < s1.len() && s1[j].0 == c);
                lemma_component_entry_at(s1, j);
                if c == nonce {
                    lemma_component_entry_at(s1, s0.len() as int);
                } else {
                    assert(j != s0.len());
                    assert(s0[j].0 == c);
                    lemma_component_entry_at(s0, j);
                }
            }
            assert forall|c: u64| #[trigger]
                component_map(s0).insert(
                    nonce,
                    models_of(s1[s0.len() as int].1@),
                ).dom().contains(c) implies component_map(s1).dom().contains(c) by {
                if c == nonce {
                    assert(s1[s0.len() as int].0 == nonce);
                } else {
                    let j = index_of_nonce(s0, c);
                    assert(0 <= j < s0.len() && s0[j].0 == c);
                    assert(s1[j].0 == c);
                }
            }
            assert(component_map(s1) =~= component_map(s0).insert(
                nonce,
                models_of(s1[s0.len() as int].1@),
            ));
        }
    }

    /// Fetches and deletes the edge list stored for `nonce`, if any.
    pub fn get_and_remove(&mut self, nonce: u64) -> (r: Option<Vec<Edge>>)
        requires
            old(self).inv(),
        ensures
            final(self).inv(),
            match r {
                Some(edges) => old(self)@.dom().contains(nonce) && models_of(edges@) == old(
                    self,
                )@[nonce] && final(self)@ == old(self)@.remove(nonce),
                None => !old(self)@.dom().contains(nonce) && final(self)@ == old(self)@,
            },
    {
        let ghost s0 = self.items@;
        match self.find(nonce) {
            Some(i) => {
                proof {
                    lemma_component_entry_at(s0, i as int);
                }
                let edges = copy_edges(&self.items[i].1);
                proof {
                    assert(models_of(edges@) =~= models_of(s0[i as int].1@));
                }
                self.items.remove(i);
                proof {
                    let s1 = self.items@;
                    assert(s1 == s0.remove(i as int));
                    assert forall|j1: int, j2: int| 0 <= j1 < j2 < s1.len() implies (
                    #[trigger] s1[j1]).0 != (#[trigger] s1[j2]).0 by {
                        let o1: int = if j1 < i { j1 } else { j1 + 1 };
                        let o2: int = if j2 < i { j2 } else { j2 + 1 };
                        assert(s1[j1] == s0[o1] && s1[j2] == s0[o2]);
                        assert(s0[o1].0 != s0[o2].0);
                    }
                    assert forall|c: u64| #[trigger] component_map(s1).dom().contains(c) implies
                        component_map(s0).remove(nonce).dom().contains(c) && component_map(s1)[c]
                        == component_map(s0).remove(nonce)[c] by {
                        let j = index_of_nonce(s1, c);
                        assert(0 <= j < s1.len() && s1[j].0 == c);
                        lemma_component_entry_at(s1, j);
                        let o: int = if j < i { j } else { j + 1 };
                        assert(s1[j] == s0[o]);
                        assert(o != i);
                        if o < i {
                            assert(s0[o].0 != s0[i as int].0);
                        } else {
                            assert(s0[i as int].0 != s0[o].0);
                        }
                        lemma_component_entry_at(s0, o);
                    }
                    assert forall|c: u64| #[trigger]
                        component_map(s0).remove(nonce).dom().contains(c) implies component_map(
                        s1,
                    ).dom().contains(c) by {
                        let j = index_of_nonce(s0, c);
                        assert(0 <= j < s0.len() && s0[j].0 == c);
                        assert(j != i);
                        let n: int = if j < i { j } else { j - 1 };
                        assert(s1[n] == s0[j]);
                    }
                    assert(component_map(s1) =~= component_map(s0).remove(nonce));
                }
                Some(edges)
            },
            None => None,
        }
    }

    pub fn len(&self) -> (r: usize)
        ensures
            r == self.items@.len(),
    {
        self.items.len()
    }
}

/// In-memory model of the store columns owned by the routing table.
pub struct StoreModel {
    /// The `LastComponentNonce` single-key cell.
    pub last_component_nonce: Option<u64>,
    /// The `ComponentEdges` column.
    pub components: ComponentTable,
    /// The `PeerComponent` column.
    pub peer_component: PeerMap,
}

impl StoreModel {
    pub open spec fn inv(&self) -> bool {
        self.components.inv() && self.peer_component.inv()
    }

    /// An empty store, as a fresh node starts with.
    pub fn new() -> (r: StoreModel)
        ensures
            r.inv(),
            r.last_component_nonce is None,
            r.components@ == Map::<u64, Seq<EdgeModel>>::empty(),
            r.peer_component@ == Map::<PeerId, u64>::empty(),
    {
        StoreModel {
            last_component_nonce: None,
            components: ComponentTable::new(),
            peer_component: PeerMap::new(),
        }
    }
}

/// Where the store database lives under a base path: the `data`
/// directory, joined as pushing a relative component onto a path
/// does — a separator is inserted only when the base is nonempty and
/// does not already end in one.
pub open spec fn store_path_of(base: Seq<char>) -> Seq<char> {
    if base.len() == 0 {
        "data"@
    } else if base.last() == '/' {
        base + "data"@
    } else {
        base + "/data"@
    }
}

/// Joins the store directory name onto a base path.
pub fn get_store_path(base_path: &str) -> (r: String)
    ensures
        r@ == store_path_of(base_path@),
{
    let n = base_path.unicode_len();
    if n == 0 {
        String::from_str("data")
    } else if base_path.get_char(n - 1) == '/' {
        let mut store_path = String::from_str(base_path);
        store_path.append("data");
        store_path
    } else {
        let mut store_path = String::from_str(base_path);
        store_path.append("/data");
        store_path
    }
}

} // verus!
