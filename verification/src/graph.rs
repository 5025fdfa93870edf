//! Undirected overlay graph over peer identities, holding only the
//! currently added connections, and the breadth-first computation of
//! the forwarding table: for every reachable peer, the set of
//! neighbours of the local peer that begin some shortest path to it.

use vstd::prelude::*;
use vstd::seq_lib::*;
use vstd::set_lib::lemma_len_subset;

use crate::edge::{copy_peers, peers_contain, Edge, PeerId};

verus! {

/// `a` and `b` are joined by an edge of `g` (in either key order).
pub open spec fn adjacent(g: Set<(PeerId, PeerId)>, a: PeerId, b: PeerId) -> bool {
    g.contains((a, b)) || g.contains((b, a))
}

/// There is a walk of length at most `k` from `src` to `dst` in `g`.
pub open spec fn reach(g: Set<(PeerId, PeerId)>, src: PeerId, dst: PeerId, k: nat) -> bool
    decreases k,
{
    if k == 0 {
        dst == src
    } else {
        reach(g, src, dst, (k - 1) as nat) || exists|m: PeerId|
            reach(g, src, m, (k - 1) as nat) && adjacent(g, m, dst)
    }
}

/// `dst` is reachable from `src` in `g`.
pub open spec fn reachable(g: Set<(PeerId, PeerId)>, src: PeerId, dst: PeerId) -> bool {
    exists|k: nat| reach(g, src, dst, k)
}

/// `d` is the exact hop distance from `src` to `dst` in `g`.
pub open spec fn is_dist(g: Set<(PeerId, PeerId)>, src: PeerId, dst: PeerId, d: nat) -> bool {
    reach(g, src, dst, d) && (d == 0 || !reach(g, src, dst, (d - 1) as nat))
}

/// The hop set for `p`: exactly the neighbours of `local` that begin a
/// shortest path from `local` to `p`.
pub open spec fn hops_exact(
    g: Set<(PeerId, PeerId)>,
    local: PeerId,
    p: PeerId,
    hopset: Set<PeerId>,
) -> bool {
    exists|d: nat|
        #[trigger] is_dist(g, local, p, d) && d >= 1 && (forall|x: PeerId|
            hopset.contains(x) <==> adjacent(g, local, x) && reach(g, x, p, (d - 1) as nat))
}

pub proof fn lemma_reach_mono(g: Set<(PeerId, PeerId)>, src: PeerId, dst: PeerId, k1: nat, k2: nat)
    requires
        reach(g, src, dst, k1),
        k1 <= k2,
    ensures
        reach(g, src, dst, k2),
    decreases k2,
{
    if k1 < k2 {
        lemma_reach_mono(g, src, dst, k1, (k2 - 1) as nat);
    }
}

pub proof fn lemma_reach_step(g: Set<(PeerId, PeerId)>, src: PeerId, m: PeerId, dst: PeerId, k: nat)
    requires
        reach(g, src, m, k),
        adjacent(g, m, dst),
    ensures
        reach(g, src, dst, (k + 1) as nat),
{
    assert(reach(g, src, m, k) && adjacent(g, m, dst));
}

pub proof fn lemma_adjacent_reach(g: Set<(PeerId, PeerId)>, src: PeerId, dst: PeerId)
    requires
        adjacent(g, src, dst),
    ensures
        reach(g, src, dst, 1),
{
    assert(reach(g, src, src, 0));
    lemma_reach_step(g, src, src, dst, 0);
}

/// A walk of positive length has a last step: a neighbour of `dst`
/// reached one hop earlier.
pub proof fn lemma_reach_pred(g: Set<(PeerId, PeerId)>, src: PeerId, dst: PeerId, k: nat)
    requires
        reach(g, src, dst, k),
        dst != src,
    ensures
        k >= 1,
        exists|m: PeerId| reach(g, src, m, (k - 1) as nat) && adjacent(g, m, dst),
    decreases k,
{
    if reach(g, src, dst, (k - 1) as nat) {
        lemma_reach_pred(g, src, dst, (k - 1) as nat);
        let m = choose|m: PeerId| reach(g, src, m, (k - 2) as nat) && adjacent(g, m, dst);
        lemma_reach_mono(g, src, m, (k - 2) as nat, (k - 1) as nat);
    }
}

pub proof fn lemma_reach_trans(
    g: Set<(PeerId, PeerId)>,
    a: PeerId,
    b: PeerId,
    c: PeerId,
    k1: nat,
    k2: nat,
)
    requires
        reach(g, a, b, k1),
        reach(g, b, c, k2),
    ensures
        reach(g, a, c, (k1 + k2) as nat),
    decreases k2,
{
    if k2 == 0 {
    } else if reach(g, b, c, (k2 - 1) as nat) {
        lemma_reach_trans(g, a, b, c, k1, (k2 - 1) as nat);
        lemma_reach_mono(g, a, c, (k1 + k2 - 1) as nat, (k1 + k2) as nat);
    } else {
        let m = choose|m: PeerId| reach(g, b, m, (k2 - 1) as nat) && adjacent(g, m, c);
        lemma_reach_trans(g, a, b, m, k1, (k2 - 1) as nat);
        lemma_reach_step(g, a, m, c, (k1 + k2 - 1) as nat);
    }
}

/// A reachable peer other than the source touches some edge of `g`.
pub proof fn lemma_reachable_touches_edge(g: Set<(PeerId, PeerId)>, src: PeerId, dst: PeerId)
    requires
        reachable(g, src, dst),
        dst != src,
    ensures
        exists|pair: (PeerId, PeerId)|
            #[trigger] g.contains(pair) && (pair.0 == dst || pair.1 == dst),
{
    let k = choose|k: nat| reach(g, src, dst, k);
    lemma_reach_pred(g, src, dst, k);
    let m = choose|m: PeerId| reach(g, src, m, (k - 1) as nat) && adjacent(g, m, dst);
    if g.contains((m, dst)) {
        assert(g.contains((m, dst)) && ((m, dst).0 == dst || (m, dst).1 == dst));
    } else {
        assert(g.contains((dst, m)) && ((dst, m).0 == dst || (dst, m).1 == dst));
    }
}

/// Undirected view of the currently added connections. Pairs are
/// canonical (first component smaller) and stored once.
pub struct Graph {
    pub my_peer_id: PeerId,
    pub edges: Vec<(PeerId, PeerId)>,
}

impl Graph {
    pub open spec fn edge_set(&self) -> Set<(PeerId, PeerId)> {
        self.edges@.to_set()
    }

    pub open spec fn inv(&self) -> bool {
        &&& self.edges@.no_duplicates()
        &&& forall|i: int|
            0 <= i < self.edges@.len() ==> (#[trigger] self.edges@[i]).0 < self.edges@[i].1
    }

    pub fn new(my_peer_id: PeerId) -> (r: Graph)
        ensures
            r.inv(),
            r.my_peer_id == my_peer_id,
            r.edge_set() == Set::<(PeerId, PeerId)>::empty(),
    {
        let r = Graph { my_peer_id, edges: Vec::new() };
        proof {
            assert(r.edge_set() =~= Set::<(PeerId, PeerId)>::empty());
        }
        r
    }

    pub fn my_peer_id(&self) -> (r: PeerId)
        ensures
            r == self.my_peer_id,
    {
        self.my_peer_id
    }

    fn find_pair(&self, key: (PeerId, PeerId)) -> (r: Option<usize>)
        ensures
            match r {
                Some(i) => i < self.edges@.len() && self.edges@[i as int] == key,
                None => !self.edges@.contains(key),
            },
    {
        let mut i: usize = 0;
        while i < self.edges.len()
            invariant
                i <= self.edges@.len(),
                forall|j: int| 0 <= j < i ==> (#[trigger] self.edges@[j]) != key,
            decreases self.edges@.len() - i,
        {
            let pair = self.edges[i];
            if pair.0 == key.0 && pair.1 == key.1 {
                return Some(i);
            }
            i = i + 1;
        }
        None
    }

    /// Adds the connection between two distinct peers, a no-op when it
    /// is already present.
    pub fn add_edge(&mut self, peer0: PeerId, peer1: PeerId)
        requires
            old(self).inv(),
            peer0 != peer1,
        ensures
            final(self).inv(),
            final(self).my_peer_id == old(self).my_peer_id,
            final(self).edge_set() == old(self).edge_set().insert(
                Edge::key_spec(peer0, peer1),
            ),
    {
        let key = Edge::key(peer0, peer1);
        let ghost s0 = self.edges@;
        match self.find_pair(key) {
            Some(_) => {
                proof {
                    assert(self.edge_set() =~= s0.to_set().insert(key));
                }
            },
            None => {
                self.edges.push(key);
                proof {
                    let s1 = self.edges@;
                    assert(s1 == s0.push(key));
                    assert forall|j1: int, j2: int| 0 <= j1 < j2 < s1.len() implies s1[j1]
                        != s1[j2] by {
                        if j2 == s0.len() {
                            assert(s1[j1] == s0[j1]);
                            assert(s0.contains(s0[j1]));
                        }
                    }
                    assert forall|p: (PeerId, PeerId)| #[trigger]
                        s1.to_set().contains(p) implies s0.to_set().insert(key).contains(p) by {
                        let j = choose|j: int| 0 <= j < s1.len() && s1[j] == p;
                        if j < s0.len() {
                            assert(s0.contains(p));
                        }
                    }
                    assert forall|p: (PeerId, PeerId)| #[trigger]
                        s0.to_set().insert(key).contains(p) implies s1.to_set().contains(p) by {
                        if p == key {
                            assert(s1[s0.len() as int] == p);
                        } else {
                            let j = choose|j: int| 0 <= j < s0.len() && s0[j] == p;
                            assert(s1[j] == p);
                        }
                    }
                    assert(s1.to_set() =~= s0.to_set().insert(key));
                }
            },
        }
    }

    /// Removes the connection between two peers, a no-op when absent.
    pub fn remove_edge(&mut self, peer0: PeerId, peer1: PeerId)
        requires
            old(self).inv(),
        ensures
            final(self).inv(),
            final(self).my_peer_id == old(self).my_peer_id,
            final(self).edge_set() == old(self).edge_set().remove(
                Edge::key_spec(peer0, peer1),
            ),
    {
        let key = Edge::key(peer0, peer1);
        let ghost s0 = self.edges@;
        match self.find_pair(key) {
            Some(i) => {
                self.edges.remove(i);
                proof {
                    let s1 = self.edges@;
                    assert(s1 == s0.remove(i as int));
                    assert forall|j1: int, j2: int| 0 <= j1 < j2 < s1.len() implies s1[j1]
                        != s1[j2] by {
                        let o1: int = if j1 < i { j1 } else { j1 + 1 };
                        let o2: int = if j2 < i { j2 } else { j2 + 1 };
                        assert(s1[j1] == s0[o1] && s1[j2] == s0[o2]);
                    }
                    assert forall|j: int| 0 <= j < s1.len() implies (#[trigger] s1[j]).0
                        < s1[j].1 by {
                        let o: int = if j < i { j } else { j + 1 };
                        assert(s1[j] == s0[o]);
                    }
                    assert forall|p: (PeerId, PeerId)| #[trigger]
                        s1.to_set().contains(p) implies s0.to_set().remove(key).contains(p) by {
                        let j = choose|j: int| 0 <= j < s1.len() && s1[j] == p;
                        let o: int = if j < i { j } else { j + 1 };
                        assert(s1[j] == s0[o]);
                        assert(s0.contains(p));
                        assert(o != i);
                        assert(p != key);
                    }
                    assert forall|p: (PeerId, PeerId)|
                        s0.to_set().remove(key).contains(p) implies #[trigger] s1.to_set().contains(
                        p,
                    ) by {
                        let j = choose|j: int| 0 <= j < s0.len() && s0[j] == p;
                        assert(j != i);
                        let n: int = if j < i { j } else { j - 1 };
                        assert(s1[n] == s0[j]);
                    }
                    assert(s1.to_set() =~= s0.to_set().remove(key));
                }
            },
            None => {
                proof {
                    assert(!s0.to_set().contains(key));
                    assert(s0.to_set() =~= s0.to_set().remove(key));
                }
            },
        }
    }

    /// Number of connections currently in the graph.
    pub fn total_active_edges(&self) -> (r: usize)
        ensures
            r == self.edges@.len(),
    {
        self.edges.len()
    }

    /// Breadth-first recomputation of the forwarding table. The result
    /// holds exactly the peers reachable from the local peer, each
    /// mapped to exactly the neighbours of the local peer that begin
    /// some shortest path to it.
    #[verifier::rlimit(100)]
    pub fn calculate_distance(&self) -> (r: ForwardingTable)
        requires
            self.inv(),
        ensures
            r.inv(),
            forall|p: PeerId| #[trigger]
                r@.dom().contains(p) <==> (p != self.my_peer_id && reachable(
                    self.edge_set(),
                    self.my_peer_id,
                    p,
                )),
            forall|p: PeerId| #[trigger]
                r@.dom().contains(p) ==> hops_exact(self.edge_set(), self.my_peer_id, p, r@[p]),
            forall|p: PeerId, x: PeerId|
                r@.dom().contains(p) && #[trigger] r@[p].contains(x) ==> adjacent(
                    self.edge_set(),
                    self.my_peer_id,
                    x,
                ),
    {
        let ghost g = self.edge_set();
        let local = self.my_peer_id;
        let mut disc: Vec<BfsNode> = Vec::new();
        disc.push(BfsNode { peer: local, dist: 0, hops: Vec::new() });
        proof {
            assert(reach(g, local, local, 0));
            assert(bfs_inv(g, local, disc@, 0));
            assert(disc_witnessed(g, disc@));
        }
        let mut i: usize = 0;
        while i < disc.len()
            invariant
                self.inv(),
                g == self.edge_set(),
                local == self.my_peer_id,
                i <= disc@.len(),
                bfs_inv(g, local, disc@, i as int),
                disc_witnessed(g, disc@),
                disc@.len() <= 1 + 2 * self.edges@.len(),
            decreases 1 + 2 * self.edges@.len() - i,
        {
            let u_peer = disc[i].peer;
            let u_dist = disc[i].dist;
            let u_hops = copy_peers(&disc[i].hops);
            proof {
                if u_peer == local && i != 0 {
                    assert(disc@[0].peer == disc@[i as int].peer);
                    assert(false);
                }
                if i > 0 && u_dist == 0 {
                    assert(sound_node(g, local, disc@[i as int]));
                    assert(false);
                }
                assert(disc@[i as int].dist <= i as int);
                assert(u_dist < usize::MAX);
            }
            let mut e: usize = 0;
            while e < self.edges.len()
                invariant
                    self.inv(),
                    g == self.edge_set(),
                    local == self.my_peer_id,
                    i < disc@.len(),
                    e <= self.edges@.len(),
                    bfs_inv(g, local, disc@, i as int),
                    disc_witnessed(g, disc@),
                    disc@.len() <= 1 + 2 * self.edges@.len(),
                    disc@[i as int].peer == u_peer,
                    disc@[i as int].dist == u_dist,
                    disc@[i as int].hops@ == u_hops@,
                    (u_peer == local) == (i == 0),
                    i == 0 ==> u_hops@.len() == 0,
                    i > 0 ==> u_dist >= 1,
                    u_dist <= i,
                    u_dist < usize::MAX,
                    forall|ei: int|
                        0 <= ei < e ==> scanned_edge(
                            disc@,
                            u_peer,
                            u_dist as int,
                            u_hops@,
                            #[trigger] self.edges@[ei],
                        ),
                decreases self.edges@.len() - e,
            {
                let pair = self.edges[e];
                let q_opt: Option<PeerId> = if pair.0 == u_peer {
                    Some(pair.1)
                } else if pair.1 == u_peer {
                    Some(pair.0)
                } else {
                    None
                };
                match q_opt {
                    None => {},
                    Some(q) => {
                        proof {
                            assert(self.edges@[e as int] == pair);
                            assert(self.edges@.contains(pair));
                            assert(g.contains(pair));
                            assert(adjacent(g, u_peer, q));
                            assert(q != u_peer);
                        }
                        match find_node(&disc, q) {
                            None => {
                                proof {
                                    assert(level_done(disc@, i as int, u_dist as int)) by {
                                        assert forall|k: int|
                                            0 <= k < disc@.len() && (#[trigger] disc@[k]).dist
                                                < u_dist implies k < i as int by {
                                            if k >= i as int {
                                                assert(disc@[i as int].dist <= disc@[k].dist);
                                            }
                                        }
                                    }
                                    if reach(g, local, q, u_dist as nat) {
                                        lemma_complete_prefix(
                                            g,
                                            local,
                                            disc@,
                                            i as int,
                                            u_dist as nat,
                                            q,
                                            u_dist as nat,
                                        );
                                        assert(false);
                                    }
                                }
                                let hops: Vec<PeerId> = if i == 0 {
                                    let mut h: Vec<PeerId> = Vec::new();
                                    h.push(q);
                                    h
                                } else {
                                    copy_peers(&u_hops)
                                };
                                let nd = BfsNode { peer: q, dist: u_dist + 1, hops };
                                let ghost s0 = disc@;
                                proof {
                                    assert forall|x: PeerId| #[trigger]
                                        nd.hops@.contains(x) implies adjacent(g, local, x)
                                        && nd.dist >= 1 && reach(
                                        g,
                                        x,
                                        nd.peer,
                                        (nd.dist - 1) as nat,
                                    ) by {
                                        if i == 0 {
                                            assert(nd.hops@.len() == 1 && nd.hops@[0] == q);
                                            assert(x == q);
                                            assert(adjacent(g, local, q));
                                            assert(reach(g, q, q, 0));
                                        } else {
                                            assert(u_hops@.contains(x));
                                            assert(disc@[i as int].hops@.contains(x));
                                            assert(hop_sound(g, local, disc@[i as int]));
                                            lemma_reach_step(
                                                g,
                                                x,
                                                u_peer,
                                                q,
                                                (u_dist - 1) as nat,
                                            );
                                        }
                                    }
                                    assert(sound_node(g, local, disc@[i as int]));
                                    lemma_reach_step(g, local, u_peer, q, u_dist as nat);
                                    if i == 0 {
                                        assert(nd.hops@[0] == q);
                                        assert(nd.hops@.contains(q));
                                    } else {
                                        assert(nd.dist >= 2);
                                    }
                                    lemma_push_node(g, local, s0, i as int, nd);
                                }
                                disc.push(nd);
                                proof {
                                    let s1 = disc@;
                                    assert(s1 == s0.push(nd));
                                    assert forall|j: int| 1 <= j < s1.len() implies touches_graph(
                                        g,
                                        (#[trigger] s1[j]).peer,
                                    ) by {
                                        if j < s0.len() {
                                            assert(s1[j] == s0[j]);
                                        } else {
                                            assert(g.contains(pair) && (pair.0 == nd.peer
                                                || pair.1 == nd.peer));
                                        }
                                    }
                                    lemma_disc_bound(self.edges@, s1);
                                    assert forall|ei: int| 0 <= ei < e + 1 implies scanned_edge(
                                        s1,
                                        u_peer,
                                        u_dist as int,
                                        u_hops@,
                                        #[trigger] self.edges@[ei],
                                    ) by {
                                        let pr = self.edges@[ei];
                                        if ei < e {
                                            assert(scanned_edge(
                                                s0,
                                                u_peer,
                                                u_dist as int,
                                                u_hops@,
                                                pr,
                                            ));
                                            if pr.0 == u_peer {
                                                assert(dhas(s0, pr.1));
                                                assert(settled(s1, u_dist as int, u_hops@, pr.1));
                                            }
                                            if pr.1 == u_peer {
                                                assert(dhas(s0, pr.0));
                                                assert(settled(s1, u_dist as int, u_hops@, pr.0));
                                            }
                                        } else {
                                            assert(pr == pair);
                                            assert(dindex(s1, q) == s0.len());
                                            assert(s1[s0.len() as int] == nd);
                                            if i > 0 {
                                                assert(nd.hops@ == u_hops@);
                                            }
                                            assert(hops_subset(u_hops@, nd.hops@));
                                            assert(settled(s1, u_dist as int, u_hops@, q));
                                        }
                                    }
                                }
                            },
                            Some(k) => {
                                proof {
                                    lemma_dnode_at(disc@, k as int);
                                    assert(disc@[k as int].dist <= u_dist + 1) by {
                                        if k as int >= i as int {
                                            assert(disc@[k as int].dist <= disc@[i as int].dist
                                                + 1);
                                        } else {
                                            assert(disc@[k as int].dist <= disc@[i as int].dist);
                                        }
                                    }
                                }
                                let kd = disc[k].dist;
                                if i > 0 && kd == u_dist + 1 {
                                    let nk_peer = disc[k].peer;
                                    let merged = union_hops(&disc[k].hops, &u_hops);
                                    let nd = BfsNode { peer: nk_peer, dist: kd, hops: merged };
                                    let ghost s0 = disc@;
                                    proof {
                                        assert forall|x: PeerId| #[trigger]
                                            nd.hops@.contains(x) implies adjacent(g, local, x)
                                            && nd.dist >= 1 && reach(
                                            g,
                                            x,
                                            nd.peer,
                                            (nd.dist - 1) as nat,
                                        ) by {
                                            if s0[k as int].hops@.contains(x) {
                                                assert(hop_sound(g, local, s0[k as int]));
                                            } else {
                                                assert(u_hops@.contains(x));
                                                assert(s0[i as int].hops@.contains(x));
                                                assert(hop_sound(g, local, s0[i as int]));
                                                lemma_reach_step(
                                                    g,
                                                    x,
                                                    u_peer,
                                                    nk_peer,
                                                    (u_dist - 1) as nat,
                                                );
                                            }
                                        }
                                        assert(hops_subset(s0[k as int].hops@, nd.hops@));
                                        lemma_update_hops(g, local, s0, i as int, k as int, nd);
                                    }
                                    disc.set(k, nd);
                                    proof {
                                        let s1 = disc@;
                                        assert(s1 == s0.update(k as int, nd));
                                        assert forall|j: int|
                                            1 <= j < s1.len() implies touches_graph(
                                            g,
                                            (#[trigger] s1[j]).peer,
                                        ) by {
                                            assert(s1[j].peer == s0[j].peer);
                                        }
                                        assert forall|ei: int|
                                            0 <= ei < e + 1 implies scanned_edge(
                                            s1,
                                            u_peer,
                                            u_dist as int,
                                            u_hops@,
                                            #[trigger] self.edges@[ei],
                                        ) by {
                                            let pr = self.edges@[ei];
                                            if ei < e {
                                                assert(scanned_edge(
                                                    s0,
                                                    u_peer,
                                                    u_dist as int,
                                                    u_hops@,
                                                    pr,
                                                ));
                                                if pr.0 == u_peer {
                                                    assert(dhas(s0, pr.1));
                                                    let jq = dindex(s0, pr.1);
                                                    assert(dindex(s1, pr.1) == jq);
                                                    if jq == k as int {
                                                        assert forall|x: PeerId| #[trigger]
                                                            u_hops@.contains(x) implies
                                                            nd.hops@.contains(x) by {}
                                                    } else {
                                                        assert(s1[jq] == s0[jq]);
                                                    }
                                                    assert(settled(
                                                        s1,
                                                        u_dist as int,
                                                        u_hops@,
                                                        pr.1,
                                                    ));
                                                }
                                                if pr.1 == u_peer {
                                                    assert(dhas(s0, pr.0));
                                                    let jq = dindex(s0, pr.0);
                                                    assert(dindex(s1, pr.0) == jq);
                                                    if jq == k as int {
                                                        assert forall|x: PeerId| #[trigger]
                                                            u_hops@.contains(x) implies
                                                            nd.hops@.contains(x) by {}
                                                    } else {
                                                        assert(s1[jq] == s0[jq]);
                                                    }
                                                    assert(settled(
                                                        s1,
                                                        u_dist as int,
                                                        u_hops@,
                                                        pr.0,
                                                    ));
                                                }
                                            } else {
                                                assert(pr == pair);
                                                assert(dindex(s1, q) == k as int);
                                                assert(s1[k as int] == nd);
                                                assert forall|x: PeerId| #[trigger]
                                                    u_hops@.contains(x) implies nd.hops@.contains(
                                                    x,
                                                ) by {}
                                                assert(settled(s1, u_dist as int, u_hops@, q));
                                            }
                                        }
                                    }
                                } else {
                                    proof {
                                        let s = disc@;
                                        assert forall|ei: int|
                                            0 <= ei < e + 1 implies scanned_edge(
                                            s,
                                            u_peer,
                                            u_dist as int,
                                            u_hops@,
                                            #[trigger] self.edges@[ei],
                                        ) by {
                                            let pr = self.edges@[ei];
                                            if ei == e {
                                                assert(pr == pair);
                                                assert(dindex(s, q) == k as int);
                                                if s[k as int].dist == u_dist + 1 {
                                                    assert(i == 0);
                                                    assert(u_hops@.len() == 0);
                                                    assert forall|x: PeerId| #[trigger]
                                                        u_hops@.contains(x) implies
                                                        s[k as int].hops@.contains(x) by {
                                                        assert(false);
                                                    }
                                                }
                                                assert(settled(s, u_dist as int, u_hops@, q));
                                            }
                                        }
                                    }
                                }
                            },
                        }
                    },
                }
                e = e + 1;
            }
            proof {
                let s = disc@;
                assert(processed_nbrs(g, s, i as int + 1)) by {
                    assert forall|j: int, q: PeerId|
                        0 <= j < i as int + 1 && #[trigger] adjacent(g, s[j].peer, q) implies dhas(
                        s,
                        q,
                    ) && s[dindex(s, q)].dist <= s[j].dist + 1 by {
                        if j < i as int {
                            assert(processed_nbrs(g, s, i as int));
                        } else {
                            assert(s[j].peer == u_peer);
                            if g.contains((u_peer, q)) {
                                assert(self.edges@.contains((u_peer, q)));
                                let ei = choose|ei: int|
                                    0 <= ei < self.edges@.len() && self.edges@[ei] == (u_peer, q);
                                assert(scanned_edge(
                                    s,
                                    u_peer,
                                    u_dist as int,
                                    u_hops@,
                                    self.edges@[ei],
                                ));
                                assert(settled(s, u_dist as int, u_hops@, q));
                            } else {
                                assert(g.contains((q, u_peer)));
                                assert(self.edges@.contains((q, u_peer)));
                                let ei = choose|ei: int|
                                    0 <= ei < self.edges@.len() && self.edges@[ei] == (q, u_peer);
                                assert(scanned_edge(
                                    s,
                                    u_peer,
                                    u_dist as int,
                                    u_hops@,
                                    self.edges@[ei],
                                ));
                                assert(settled(s, u_dist as int, u_hops@, q));
                            }
                        }
                    }
                }
                assert(processed_unions(g, s, i as int + 1)) by {
                    assert forall|j: int, k: int|
                        0 <= j < i as int + 1 && 0 <= k < s.len() && #[trigger] adjacent(
                            g,
                            s[j].peer,
                            s[k].peer,
                        ) && s[k].dist == s[j].dist + 1 implies hops_subset(
                        s[j].hops@,
                        s[k].hops@,
                    ) by {
                        if j < i as int {
                            assert(processed_unions(g, s, i as int));
                        } else {
                            assert(s[j].peer == u_peer && s[j].hops@ == u_hops@);
                            let q = s[k].peer;
                            lemma_dnode_at(s, k);
                            if g.contains((u_peer, q)) {
                                assert(self.edges@.contains((u_peer, q)));
                                let ei = choose|ei: int|
                                    0 <= ei < self.edges@.len() && self.edges@[ei] == (u_peer, q);
                                assert(scanned_edge(
                                    s,
                                    u_peer,
                                    u_dist as int,
                                    u_hops@,
                                    self.edges@[ei],
                                ));
                                assert(settled(s, u_dist as int, u_hops@, q));
                            } else {
                                assert(g.contains((q, u_peer)));
                                assert(self.edges@.contains((q, u_peer)));
                                let ei = choose|ei: int|
                                    0 <= ei < self.edges@.len() && self.edges@[ei] == (q, u_peer);
                                assert(scanned_edge(
                                    s,
                                    u_peer,
                                    u_dist as int,
                                    u_hops@,
                                    self.edges@[ei],
                                ));
                                assert(settled(s, u_dist as int, u_hops@, q));
                            }
                            assert(dindex(s, q) == k);
                        }
                    }
                }
                lemma_level_boundary(g, local, s, i as int);
                if i as int + 1 < s.len() {
                    assert forall|j: int| i as int + 1 <= j < s.len() implies (
                    #[trigger] s[j]).dist <= s[i as int + 1].dist + 1 by {
                        assert(s[j].dist <= s[i as int].dist + 1);
                        assert(s[i as int].dist <= s[i as int + 1].dist);
                    }
                }
            }
            i = i + 1;
        }
        let ghost s = disc@;
        let mut items: Vec<(PeerId, Vec<PeerId>)> = Vec::new();
        let mut j: usize = 1;
        while j < disc.len()
            invariant
                1 <= j <= disc@.len() || disc@.len() == 0,
                disc@ == s,
                bfs_inv(g, local, s, s.len() as int),
                j >= 1,
                j <= disc@.len() || j == 1,
                items@.len() == j - 1,
                forall|t: int|
                    0 <= t < items@.len() ==> (#[trigger] items@[t]).0 == s[t + 1].peer
                        && items@[t].1@ == s[t + 1].hops@,
            decreases disc@.len() - j,
        {
            items.push((disc[j].peer, copy_peers(&disc[j].hops)));
            j = j + 1;
        }
        let r = ForwardingTable { items };
        proof {
            assert(items@.len() == s.len() - 1);
            assert forall|t1: int, t2: int| 0 <= t1 < t2 < r.items@.len() implies (
            #[trigger] r.items@[t1]).0 != (#[trigger] r.items@[t2]).0 by {
                assert(s[t1 + 1].peer != s[t2 + 1].peer);
            }
            assert forall|p: PeerId| #[trigger] r@.dom().contains(p) implies (p != local
                && reachable(g, local, p)) by {
                let t = findex(r.items@, p);
                assert(0 <= t < r.items@.len() && r.items@[t].0 == p);
                assert(s[t + 1].peer == p);
                assert(sound_node(g, local, s[t + 1]));
                assert(s[t + 1].dist >= 1) by {
                    if s[t + 1].dist == 0 {
                        assert(s[t + 1].peer == local);
                        assert(s[0].peer == local);
                        assert(false);
                    }
                }
                assert(reach(g, local, p, s[t + 1].dist as nat));
            }
            assert forall|p: PeerId|
                p != local && reachable(g, local, p) implies #[trigger] r@.dom().contains(p) by {
                let kk = choose|kk: nat| reach(g, local, p, kk);
                assert(level_done(s, s.len() as int, kk as int));
                lemma_complete_prefix(g, local, s, s.len() as int, kk, p, kk);
                let jj = dindex(s, p);
                assert(0 <= jj < s.len() && s[jj].peer == p);
                assert(jj >= 1) by {
                    if jj == 0 {
                        assert(s[0].peer == local);
                        assert(false);
                    }
                }
                assert(r.items@[jj - 1].0 == p);
                assert(fhas(r.items@, p));
            }
            assert forall|p: PeerId| #[trigger] r@.dom().contains(p) implies hops_exact(
                g,
                local,
                p,
                r@[p],
            ) by {
                let t = findex(r.items@, p);
                assert(0 <= t < r.items@.len() && r.items@[t].0 == p);
                lemma_forward_entry_at(r.items@, t);
                let jj = t + 1;
                assert(s[jj].peer == p);
                let d = s[jj].dist as nat;
                assert(sound_node(g, local, s[jj]));
                assert(d >= 1) by {
                    if s[jj].dist == 0 {
                        assert(s[jj].peer == local);
                        assert(s[0].peer == local);
                        assert(false);
                    }
                }
                assert(is_dist(g, local, p, d));
                assert(level_done(s, s.len() as int, s[jj].dist as int));
                assert(hop_complete(g, local, s[jj]));
                assert(hop_sound(g, local, s[jj]));
                assert(r@[p] == r.items@[t].1@.to_set());
                assert(r.items@[t].1@ == s[jj].hops@);
                assert forall|x: PeerId|
                    r@[p].contains(x) <==> adjacent(g, local, x) && #[trigger] reach(
                        g,
                        x,
                        p,
                        (d - 1) as nat,
                    ) by {
                    assert(r@[p].contains(x) == s[jj].hops@.contains(x));
                }
                assert(hops_exact(g, local, p, r@[p]));
            }
            assert forall|p: PeerId, x: PeerId|
                r@.dom().contains(p) && #[trigger] r@[p].contains(x) implies adjacent(
                g,
                local,
                x,
            ) by {
                let t = findex(r.items@, p);
                assert(0 <= t < r.items@.len() && r.items@[t].0 == p);
                lemma_forward_entry_at(r.items@, t);
                assert(r.items@[t].1@ == s[t + 1].hops@);
                assert(s[t + 1].hops@.contains(x));
                assert(hop_sound(g, local, s[t + 1]));
            }
        }
        r
    }
}

pub open spec fn fhas(s: Seq<(PeerId, Vec<PeerId>)>, peer: PeerId) -> bool {
    exists|i: int| 0 <= i < s.len() && s[i].0 == peer
}

pub open spec fn findex(s: Seq<(PeerId, Vec<PeerId>)>, peer: PeerId) -> int {
    choose|i: int| 0 <= i < s.len() && s[i].0 == peer
}

pub open spec fn fpeers_unique(s: Seq<(PeerId, Vec<PeerId>)>) -> bool {
    forall|i: int, j: int| 0 <= i < j < s.len() ==> (#[trigger] s[i]).0 != (#[trigger] s[j]).0
}

/// The map described by forwarding rows with unique peers; hop lists
/// are read as sets, since no order on them is promised.
pub open spec fn forward_map(s: Seq<(PeerId, Vec<PeerId>)>) -> Map<PeerId, Set<PeerId>> {
    Map::new(|peer: PeerId| fhas(s, peer), |peer: PeerId| s[findex(s, peer)].1@.to_set())
}

/// With unique peers, the row at position `i` is the map entry for its
/// peer.
pub proof fn lemma_forward_entry_at(s: Seq<(PeerId, Vec<PeerId>)>, i: int)
    requires
        fpeers_unique(s),
        0 <= i < s.len(),
    ensures
        forward_map(s).dom().contains(s[i].0),
        forward_map(s)[s[i].0] == s[i].1@.to_set(),
{
    let peer = s[i].0;
    assert(fhas(s, peer));
    let j = findex(s, peer);
    assert(0 <= j < s.len() && s[j].0 == peer);
    if i != j {
        if i < j {
            assert(s[i].0 != s[j].0);
        } else {
            assert(s[j].0 != s[i].0);
        }
    }
}

/// Published forwarding table: remote peer to the unordered list of
/// next-hop neighbours of the local peer.
pub struct ForwardingTable {
    pub items: Vec<(PeerId, Vec<PeerId>)>,
}

impl View for ForwardingTable {
    type V = Map<PeerId, Set<PeerId>>;

    open spec fn view(&self) -> Map<PeerId, Set<PeerId>> {
        forward_map(self.items@)
    }
}

impl ForwardingTable {
    pub open spec fn inv(&self) -> bool {
        fpeers_unique(self.items@)
    }

    pub fn empty() -> (r: ForwardingTable)
        ensures
            r.inv(),
            r@ == Map::<PeerId, Set<PeerId>>::empty(),
    {
        let r = ForwardingTable { items: Vec::new() };
        proof {
            assert(r@ =~= Map::<PeerId, Set<PeerId>>::empty());
        }
        r
    }

    pub fn contains_key(&self, peer: PeerId) -> (r: bool)
        requires
            self.inv(),
        ensures
            r == self@.dom().contains(peer),
    {
        let mut i: usize = 0;
        while i < self.items.len()
            invariant
                self.inv(),
                i <= self.items@.len(),
                forall|j: int| 0 <= j < i ==> (#[trigger] self.items@[j]).0 != peer,
            decreases self.items@.len() - i,
        {
            if self.items[i].0 == peer {
                proof {
                    lemma_forward_entry_at(self.items@, i as int);
                }
                return true;
            }
            i = i + 1;
        }
        false
    }

    /// Copy of the next-hop list for `peer`, if it is in the table.
    pub fn get(&self, peer: PeerId) -> (r: Option<Vec<PeerId>>)
        requires
            self.inv(),
        ensures
            match r {
                Some(hops) => self@.dom().contains(peer) && hops@.to_set() == self@[peer],
                None => !self@.dom().contains(peer),
            },
    {
        let mut i: usize = 0;
        while i < self.items.len()
            invariant
                self.inv(),
                i <= self.items@.len(),
                forall|j: int| 0 <= j < i ==> (#[trigger] self.items@[j]).0 != peer,
            decreases self.items@.len() - i,
        {
            if self.items[i].0 == peer {
                proof {
                    lemma_forward_entry_at(self.items@, i as int);
                }
                return Some(copy_peers(&self.items[i].1));
            }
            i = i + 1;
        }
        None
    }

    /// Number of peers in the table.
    pub fn len(&self) -> (r: usize)
        ensures
            r == self.items@.len(),
    {
        self.items.len()
    }

    /// An owned copy with the same rows.
    pub fn duplicate(&self) -> (r: ForwardingTable)
        requires
            self.inv(),
        ensures
            r.items@.len() == self.items@.len(),
            forall|j: int|
                0 <= j < r.items@.len() ==> (#[trigger] r.items@[j]).0 == self.items@[j].0
                    && r.items@[j].1@ == self.items@[j].1@,
            r.inv(),
            r@ == self@,
    {
        let mut items: Vec<(PeerId, Vec<PeerId>)> = Vec::new();
        let mut i: usize = 0;
        while i < self.items.len()
            invariant
                i <= self.items@.len(),
                items@.len() == i,
                forall|j: int|
                    0 <= j < i ==> (#[trigger] items@[j]).0 == self.items@[j].0 && items@[j].1@
                        == self.items@[j].1@,
            decreases self.items@.len() - i,
        {
            let peer = self.items[i].0;
            items.push((peer, copy_peers(&self.items[i].1)));
            i = i + 1;
        }
        let r = ForwardingTable { items };
        proof {
            assert forall|p: PeerId| #[trigger] fhas(r.items@, p) == fhas(self.items@, p) by {
                if fhas(r.items@, p) {
                    let j = choose|j: int| 0 <= j < r.items@.len() && r.items@[j].0 == p;
                    assert(self.items@[j].0 == p);
                }
                if fhas(self.items@, p) {
                    let j = choose|j: int| 0 <= j < self.items@.len() && self.items@[j].0 == p;
                    assert(r.items@[j].0 == p);
                }
            }
            assert forall|j1: int, j2: int| 0 <= j1 < j2 < r.items@.len() implies (
            #[trigger] r.items@[j1]).0 != (#[trigger] r.items@[j2]).0 by {
                assert(self.items@[j1].0 != self.items@[j2].0);
            }
            assert forall|p: PeerId| #[trigger] forward_map(r.items@).dom().contains(
                p,
            ) implies forward_map(r.items@)[p] == forward_map(self.items@)[p] by {
                let j = findex(r.items@, p);
                assert(0 <= j < r.items@.len() && r.items@[j].0 == p);
                lemma_forward_entry_at(r.items@, j);
                assert(self.items@[j].0 == p);
                lemma_forward_entry_at(self.items@, j);
            }
            assert(r@ =~= self@);
        }
        r
    }
}

/// A peer discovered by the breadth-first pass: its exact distance
/// from the local peer and the next-hop set gathered so far.
struct BfsNode {
    peer: PeerId,
    dist: usize,
    hops: Vec<PeerId>,
}

spec fn dhas(s: Seq<BfsNode>, p: PeerId) -> bool {
    exists|i: int| 0 <= i < s.len() && (#[trigger] s[i]).peer == p
}

spec fn dindex(s: Seq<BfsNode>, p: PeerId) -> int {
    choose|i: int| 0 <= i < s.len() && (#[trigger] s[i]).peer == p
}

spec fn dunique(s: Seq<BfsNode>) -> bool {
    forall|i: int, j: int| 0 <= i < j < s.len() ==> (#[trigger] s[i]).peer != (#[trigger] s[j]).peer
}

proof fn lemma_dnode_at(s: Seq<BfsNode>, i: int)
    requires
        dunique(s),
        0 <= i < s.len(),
    ensures
        dhas(s, s[i].peer),
        dindex(s, s[i].peer) == i,
{
    let p = s[i].peer;
    assert(dhas(s, p));
    let j = dindex(s, p);
    assert(0 <= j < s.len() && s[j].peer == p);
    if i != j {
        if i < j {
            assert(s[i].peer != s[j].peer);
        } else {
            assert(s[j].peer != s[i].peer);
        }
    }
}

/// The recorded distance is the exact hop distance from `local`.
spec fn sound_node(g: Set<(PeerId, PeerId)>, local: PeerId, nd: BfsNode) -> bool {
    &&& reach(g, local, nd.peer, nd.dist as nat)
    &&& (nd.dist == 0 ==> nd.peer == local)
    &&& (nd.dist >= 1 ==> nd.peer != local && !reach(g, local, nd.peer, (nd.dist - 1) as nat))
}

/// Every gathered hop is a neighbour of `local` lying one level before
/// the node on some shortest path.
spec fn hop_sound(g: Set<(PeerId, PeerId)>, local: PeerId, nd: BfsNode) -> bool {
    forall|x: PeerId| #[trigger]
        nd.hops@.contains(x) ==> adjacent(g, local, x) && nd.dist >= 1 && reach(
            g,
            x,
            nd.peer,
            (nd.dist - 1) as nat,
        )
}

/// Every valid first hop has been gathered.
spec fn hop_complete(g: Set<(PeerId, PeerId)>, local: PeerId, nd: BfsNode) -> bool {
    nd.dist >= 1 ==> forall|x: PeerId|
        adjacent(g, local, x) && #[trigger] reach(g, x, nd.peer, (nd.dist - 1) as nat)
            ==> nd.hops@.contains(x)
}

spec fn hops_subset(a: Seq<PeerId>, b: Seq<PeerId>) -> bool {
    forall|x: PeerId| #[trigger] a.contains(x) ==> b.contains(x)
}

/// Every node strictly below level `d` lies in the processed prefix.
spec fn level_done(s: Seq<BfsNode>, i: int, d: int) -> bool {
    forall|k: int| 0 <= k < s.len() && (#[trigger] s[k]).dist < d ==> k < i
}

/// Neighbourhoods of processed nodes are fully discovered, one level
/// further at most.
spec fn processed_nbrs(g: Set<(PeerId, PeerId)>, s: Seq<BfsNode>, i: int) -> bool {
    forall|j: int, q: PeerId|
        0 <= j < i && #[trigger] adjacent(g, s[j].peer, q) ==> dhas(s, q) && s[dindex(s, q)].dist
            <= s[j].dist + 1
}

/// Processed nodes have pushed their hop sets into every neighbour one
/// level further.
spec fn processed_unions(g: Set<(PeerId, PeerId)>, s: Seq<BfsNode>, i: int) -> bool {
    forall|j: int, k: int|
        0 <= j < i && 0 <= k < s.len() && #[trigger] adjacent(g, s[j].peer, s[k].peer)
            && s[k].dist == s[j].dist + 1 ==> hops_subset(s[j].hops@, s[k].hops@)
}

/// Hop sets are complete for every node whose previous level is fully
/// processed.
spec fn hop_completeness(g: Set<(PeerId, PeerId)>, local: PeerId, s: Seq<BfsNode>, i: int) -> bool {
    forall|j: int|
        0 <= j < s.len() && level_done(s, i, (#[trigger] s[j]).dist as int) ==> hop_complete(
            g,
            local,
            s[j],
        )
}

/// Basic shape of the discovery sequence.
spec fn bfs_core(g: Set<(PeerId, PeerId)>, local: PeerId, s: Seq<BfsNode>) -> bool {
    &&& 1 <= s.len()
    &&& s[0].peer == local
    &&& s[0].dist == 0
    &&& s[0].hops@.len() == 0
    &&& dunique(s)
    &&& forall|j: int| 0 <= j < s.len() ==> sound_node(g, local, #[trigger] s[j])
    &&& forall|j1: int, j2: int|
        0 <= j1 <= j2 < s.len() ==> (#[trigger] s[j1]).dist <= (#[trigger] s[j2]).dist
    &&& forall|j: int| 0 <= j < s.len() ==> (#[trigger] s[j]).dist <= j
}

/// Full loop invariant of the breadth-first pass with processed
/// prefix `i`.
spec fn bfs_inv(g: Set<(PeerId, PeerId)>, local: PeerId, s: Seq<BfsNode>, i: int) -> bool {
    &&& bfs_core(g, local, s)
    &&& 0 <= i <= s.len()
    &&& (i < s.len() ==> forall|j: int|
        i <= j < s.len() ==> (#[trigger] s[j]).dist <= s[i].dist + 1)
    &&& forall|j: int| 0 <= j < s.len() ==> hop_sound(g, local, #[trigger] s[j])
    &&& forall|j: int|
        0 <= j < s.len() && (#[trigger] s[j]).dist == 1 ==> s[j].hops@.contains(s[j].peer)
    &&& processed_nbrs(g, s, i)
    &&& processed_unions(g, s, i)
    &&& hop_completeness(g, local, s, i)
}

/// `p` touches some edge of `g`.
spec fn touches_graph(g: Set<(PeerId, PeerId)>, p: PeerId) -> bool {
    exists|pair: (PeerId, PeerId)| #[trigger] g.contains(pair) && (pair.0 == p || pair.1 == p)
}

spec fn disc_witnessed(g: Set<(PeerId, PeerId)>, s: Seq<BfsNode>) -> bool {
    forall|j: int| 1 <= j < s.len() ==> touches_graph(g, (#[trigger] s[j]).peer)
}

/// All endpoints occurring in an edge sequence.
spec fn eps(es: Seq<(PeerId, PeerId)>) -> Set<PeerId>
    decreases es.len(),
{
    if es.len() == 0 {
        Set::empty()
    } else {
        eps(es.drop_last()).insert(es.last().0).insert(es.last().1)
    }
}

proof fn lemma_eps_finite(es: Seq<(PeerId, PeerId)>)
    ensures
        eps(es).finite(),
        eps(es).len() <= 2 * es.len(),
    decreases es.len(),
{
    if es.len() > 0 {
        lemma_eps_finite(es.drop_last());
    }
}

proof fn lemma_eps_covers(es: Seq<(PeerId, PeerId)>, ei: int)
    requires
        0 <= ei < es.len(),
    ensures
        eps(es).contains(es[ei].0),
        eps(es).contains(es[ei].1),
    decreases es.len(),
{
    if ei < es.len() - 1 {
        lemma_eps_covers(es.drop_last(), ei);
        assert(es.drop_last()[ei] == es[ei]);
    }
}

/// Distinct discovered peers beyond the local one all touch edges, so
/// discovery is bounded by twice the edge count plus one.
proof fn lemma_disc_bound(es: Seq<(PeerId, PeerId)>, s: Seq<BfsNode>)
    requires
        dunique(s),
        s.len() >= 1,
        disc_witnessed(es.to_set(), s),
    ensures
        s.len() <= 1 + 2 * es.len(),
{
    let peers = Seq::new((s.len() - 1) as nat, |j: int| s[j + 1].peer);
    assert forall|j1: int, j2: int| 0 <= j1 < j2 < peers.len() implies peers[j1] != peers[j2] by {
        assert(s[j1 + 1].peer != s[j2 + 1].peer);
    }
    assert(peers.no_duplicates());
    peers.unique_seq_to_set();
    assert forall|p: PeerId| #[trigger] peers.to_set().contains(p) implies eps(es).contains(p) by {
        let j = choose|j: int| 0 <= j < peers.len() && peers[j] == p;
        assert(s[j + 1].peer == p);
        assert(touches_graph(es.to_set(), p));
        let pair = choose|pair: (PeerId, PeerId)| #[trigger]
            es.to_set().contains(pair) && (pair.0 == p || pair.1 == p);
        assert(es.contains(pair));
        let ei = choose|ei: int| 0 <= ei < es.len() && es[ei] == pair;
        lemma_eps_covers(es, ei);
    }
    lemma_eps_finite(es);
    lemma_len_subset(peers.to_set(), eps(es));
}

/// Everything within `bound` hops of `local` is already discovered, at
/// its true level, once every level below `bound` is processed.
proof fn lemma_complete_prefix(
    g: Set<(PeerId, PeerId)>,
    local: PeerId,
    s: Seq<BfsNode>,
    i: int,
    bound: nat,
    v: PeerId,
    kk: nat,
)
    requires
        bfs_core(g, local, s),
        processed_nbrs(g, s, i),
        level_done(s, i, bound as int),
        kk <= bound,
        reach(g, local, v, kk),
    ensures
        dhas(s, v),
        0 <= dindex(s, v) < s.len(),
        s[dindex(s, v)].dist <= kk,
    decreases kk,
{
    if kk == 0 {
        lemma_dnode_at(s, 0);
    } else if reach(g, local, v, (kk - 1) as nat) {
        lemma_complete_prefix(g, local, s, i, bound, v, (kk - 1) as nat);
    } else {
        let m = choose|m: PeerId| reach(g, local, m, (kk - 1) as nat) && adjacent(g, m, v);
        lemma_complete_prefix(g, local, s, i, bound, m, (kk - 1) as nat);
        let jm = dindex(s, m);
        assert(s[jm].dist < bound);
        assert(jm < i);
        assert(adjacent(g, s[jm].peer, v));
        assert(dhas(s, v) && s[dindex(s, v)].dist <= s[jm].dist + 1);
    }
}

/// When the processed prefix advances past `i`, hop sets of the next
/// level become complete: every valid first hop was pushed by some
/// processed predecessor.
proof fn lemma_level_boundary(g: Set<(PeerId, PeerId)>, local: PeerId, s: Seq<BfsNode>, i: int)
    requires
        0 <= i < s.len(),
        bfs_inv(g, local, s, i),
        processed_nbrs(g, s, i + 1),
        processed_unions(g, s, i + 1),
    ensures
        hop_completeness(g, local, s, i + 1),
{
    assert forall|j: int|
        0 <= j < s.len() && level_done(s, i + 1, (#[trigger] s[j]).dist as int) implies
        hop_complete(g, local, s[j]) by {
        let dj = s[j].dist as int;
        if level_done(s, i, dj) {
            assert(hop_complete(g, local, s[j]));
        } else {
            let k = choose|k: int| 0 <= k < s.len() && (#[trigger] s[k]).dist < dj && !(k < i);
            assert(k < i + 1);
            assert(k == i);
            assert(s[i].dist < dj);
            if j < i {
                assert(s[j].dist <= s[i].dist);
                assert(false);
            }
            assert(dj <= s[i].dist + 1);
            assert(dj == s[i].dist + 1);
            let d = s[j].dist as nat;
            let pj = s[j].peer;
            assert(d >= 1);
            assert forall|x: PeerId|
                adjacent(g, local, x) && #[trigger] reach(g, x, pj, (d - 1) as nat) implies
                s[j].hops@.contains(x) by {
                if d == 1 {
                    assert(x == pj);
                    assert(s[j].hops@.contains(s[j].peer));
                } else {
                    if x == pj {
                        lemma_adjacent_reach(g, local, pj);
                        lemma_reach_mono(g, local, pj, 1, (d - 1) as nat);
                        assert(false);
                    }
                    lemma_reach_pred(g, x, pj, (d - 1) as nat);
                    let m = choose|m: PeerId|
                        reach(g, x, m, (d - 2) as nat) && adjacent(g, m, pj);
                    lemma_adjacent_reach(g, local, x);
                    lemma_reach_trans(g, local, x, m, 1, (d - 2) as nat);
                    if reach(g, local, m, (d - 2) as nat) {
                        lemma_reach_step(g, local, m, pj, (d - 2) as nat);
                        assert(false);
                    }
                    assert(level_done(s, i + 1, (d - 1) as int));
                    lemma_complete_prefix(g, local, s, i + 1, (d - 1) as nat, m, (d - 1) as nat);
                    let jm = dindex(s, m);
                    assert(s[jm].peer == m);
                    if s[jm].dist < d - 1 {
                        lemma_reach_mono(g, local, m, s[jm].dist as nat, (d - 2) as nat);
                        assert(false);
                    }
                    assert(s[jm].dist == d - 1);
                    assert(level_done(s, i, (d - 1) as int)) by {
                        assert forall|kx: int|
                            0 <= kx < s.len() && (#[trigger] s[kx]).dist < d - 1 implies kx < i by {
                            assert(s[kx].dist < dj);
                            assert(kx < i + 1);
                            if kx == i {
                                assert(s[i].dist == d - 1);
                                assert(false);
                            }
                        }
                    }
                    assert(hop_complete(g, local, s[jm]));
                    assert(s[jm].hops@.contains(x));
                    assert(jm < i + 1);
                    assert(adjacent(g, s[jm].peer, s[j].peer));
                    assert(hops_subset(s[jm].hops@, s[j].hops@));
                    assert(s[j].hops@.contains(x));
                }
            }
        }
    }
}

/// Appending a freshly discovered node one level below the current one
/// preserves the breadth-first invariant.
proof fn lemma_push_node(
    g: Set<(PeerId, PeerId)>,
    local: PeerId,
    s: Seq<BfsNode>,
    i: int,
    nd: BfsNode,
)
    requires
        bfs_inv(g, local, s, i),
        0 <= i < s.len(),
        !dhas(s, nd.peer),
        nd.dist == s[i].dist + 1,
        reach(g, local, nd.peer, nd.dist as nat),
        !reach(g, local, nd.peer, (nd.dist - 1) as nat),
        hop_sound(g, local, nd),
        nd.dist == 1 ==> nd.hops@.contains(nd.peer),
    ensures
        bfs_inv(g, local, s.push(nd), i),
        forall|p: PeerId| #[trigger]
            dhas(s, p) ==> dhas(s.push(nd), p) && dindex(s.push(nd), p) == dindex(s, p) && s.push(
                nd,
            )[dindex(s.push(nd), p)] == s[dindex(s, p)],
        dhas(s.push(nd), nd.peer),
        dindex(s.push(nd), nd.peer) == s.len(),
{
    let s1 = s.push(nd);
    let n = s.len() as int;
    assert forall|j1: int, j2: int| 0 <= j1 < j2 < s1.len() implies (#[trigger] s1[j1]).peer != (
    #[trigger] s1[j2]).peer by {
        if j2 == n {
            assert(s1[j1] == s[j1]);
            lemma_dnode_at(s, j1);
            assert(dhas(s, s[j1].peer));
        } else {
            assert(s[j1].peer != s[j2].peer);
        }
    }
    assert forall|p: PeerId| #[trigger] dhas(s, p) implies dhas(s1, p) && dindex(s1, p) == dindex(
        s,
        p,
    ) && s1[dindex(s1, p)] == s[dindex(s, p)] by {
        let j = dindex(s, p);
        assert(0 <= j < s.len() && s[j].peer == p);
        assert(s1[j].peer == p);
        lemma_dnode_at(s1, j);
    }
    lemma_dnode_at(s1, n);
    assert(lemma_push_helper_core(g, local, s, i, nd)) by {
        assert(nd.peer != local) by {
            lemma_dnode_at(s, 0);
        }
        assert forall|j: int| 0 <= j < s1.len() implies sound_node(g, local, #[trigger] s1[j]) by {
            if j < n {
                assert(s1[j] == s[j]);
            }
        }
        assert forall|j1: int, j2: int| 0 <= j1 <= j2 < s1.len() implies (#[trigger] s1[j1]).dist
            <= (#[trigger] s1[j2]).dist by {
            if j2 == n {
                if j1 < n {
                    assert(s1[j1] == s[j1]);
                    if j1 < i {
                        assert(s[j1].dist <= s[i].dist);
                    } else {
                        assert(s[j1].dist <= s[i].dist + 1);
                    }
                }
            } else {
                assert(s[j1].dist <= s[j2].dist);
            }
        }
        assert forall|j: int| 0 <= j < s1.len() implies (#[trigger] s1[j]).dist <= j by {
            if j < n {
                assert(s1[j] == s[j]);
            } else {
                assert(s[i].dist <= i);
            }
        }
    }
    assert forall|j: int| 0 <= j < s1.len() implies hop_sound(g, local, #[trigger] s1[j]) by {
        if j < n {
            assert(s1[j] == s[j]);
        }
    }
    assert forall|j: int|
        0 <= j < s1.len() && (#[trigger] s1[j]).dist == 1 implies s1[j].hops@.contains(
        s1[j].peer,
    ) by {
        if j < n {
            assert(s1[j] == s[j]);
        }
    }
    assert(i < s1.len());
    assert(s1[i] == s[i]);
    assert forall|j: int| i <= j < s1.len() implies (#[trigger] s1[j]).dist <= s1[i].dist + 1 by {
        if j < n {
            assert(s1[j] == s[j]);
        }
    }
    assert forall|j: int, q: PeerId|
        0 <= j < i && #[trigger] adjacent(g, s1[j].peer, q) implies dhas(s1, q) && s1[dindex(
        s1,
        q,
    )].dist <= s1[j].dist + 1 by {
        assert(s1[j] == s[j]);
        assert(adjacent(g, s[j].peer, q));
        assert(dhas(s, q) && s[dindex(s, q)].dist <= s[j].dist + 1);
    }
    assert forall|j: int, k: int|
        0 <= j < i && 0 <= k < s1.len() && #[trigger] adjacent(g, s1[j].peer, s1[k].peer)
            && s1[k].dist == s1[j].dist + 1 implies hops_subset(s1[j].hops@, s1[k].hops@) by {
        assert(s1[j] == s[j]);
        if k < n {
            assert(s1[k] == s[k]);
            assert(adjacent(g, s[j].peer, s[k].peer));
        } else {
            assert(adjacent(g, s[j].peer, nd.peer));
            assert(dhas(s, nd.peer));
            assert(false);
        }
    }
    assert forall|j: int|
        0 <= j < s1.len() && level_done(s1, i, (#[trigger] s1[j]).dist as int) implies hop_complete(
        g,
        local,
        s1[j],
    ) by {
        if j < n {
            assert(s1[j] == s[j]);
            assert(level_done(s, i, s[j].dist as int)) by {
                assert forall|k: int|
                    0 <= k < s.len() && (#[trigger] s[k]).dist < s[j].dist implies k < i by {
                    assert(s1[k] == s[k]);
                }
            }
        } else {
            assert(s1[i].dist < s1[j].dist && !(i < i));
            assert(false);
        }
    }
}

/// Conjunction of the core facts re-established in `lemma_push_node`;
/// spelled out so the proof can be staged.
spec fn lemma_push_helper_core(
    g: Set<(PeerId, PeerId)>,
    local: PeerId,
    s: Seq<BfsNode>,
    i: int,
    nd: BfsNode,
) -> bool {
    bfs_core(g, local, s.push(nd))
}

/// Growing the hop set of an unprocessed node one level below the
/// current one preserves the breadth-first invariant.
proof fn lemma_update_hops(
    g: Set<(PeerId, PeerId)>,
    local: PeerId,
    s: Seq<BfsNode>,
    i: int,
    k: int,
    nd: BfsNode,
)
    requires
        bfs_inv(g, local, s, i),
        0 <= i < s.len(),
        0 <= k < s.len(),
        nd.peer == s[k].peer,
        nd.dist == s[k].dist,
        s[k].dist == s[i].dist + 1,
        hops_subset(s[k].hops@, nd.hops@),
        hop_sound(g, local, nd),
    ensures
        bfs_inv(g, local, s.update(k, nd), i),
        forall|p: PeerId| #[trigger] dhas(s.update(k, nd), p) == dhas(s, p),
        forall|p: PeerId| #[trigger]
            dhas(s, p) ==> dindex(s.update(k, nd), p) == dindex(s, p),
        dindex(s.update(k, nd), nd.peer) == k,
{
    let s1 = s.update(k, nd);
    assert(k != i);
    assert(k != 0) by {
        assert(s[0].dist == 0);
    }
    assert forall|j1: int, j2: int| 0 <= j1 < j2 < s1.len() implies (#[trigger] s1[j1]).peer != (
    #[trigger] s1[j2]).peer by {
        assert(s1[j1].peer == s[j1].peer && s1[j2].peer == s[j2].peer);
        assert(s[j1].peer != s[j2].peer);
    }
    assert forall|p: PeerId| #[trigger] dhas(s1, p) == dhas(s, p) by {
        if dhas(s1, p) {
            let j = dindex(s1, p);
            assert(0 <= j < s1.len() && s1[j].peer == p);
            assert(s[j].peer == p);
        }
        if dhas(s, p) {
            let j = dindex(s, p);
            assert(0 <= j < s.len() && s[j].peer == p);
            assert(s1[j].peer == p);
        }
    }
    assert forall|p: PeerId| #[trigger] dhas(s, p) implies dindex(s1, p) == dindex(s, p) by {
        let j = dindex(s, p);
        assert(0 <= j < s.len() && s[j].peer == p);
        assert(s1[j].peer == p);
        lemma_dnode_at(s1, j);
    }
    lemma_dnode_at(s1, k);
    assert(bfs_core(g, local, s1)) by {
        assert(s1[0] == s[0]);
        assert forall|j: int| 0 <= j < s1.len() implies sound_node(g, local, #[trigger] s1[j]) by {
            if j != k {
                assert(s1[j] == s[j]);
            } else {
                assert(sound_node(g, local, s[k]));
            }
        }
        assert forall|j1: int, j2: int| 0 <= j1 <= j2 < s1.len() implies (#[trigger] s1[j1]).dist
            <= (#[trigger] s1[j2]).dist by {
            assert(s1[j1].dist == s[j1].dist && s1[j2].dist == s[j2].dist);
            assert(s[j1].dist <= s[j2].dist);
        }
        assert forall|j: int| 0 <= j < s1.len() implies (#[trigger] s1[j]).dist <= j by {
            assert(s1[j].dist == s[j].dist);
            assert(s[j].dist <= j);
        }
    }
    assert(s1[i] == s[i]);
    assert forall|j: int| i <= j < s1.len() implies (#[trigger] s1[j]).dist <= s1[i].dist + 1 by {
        assert(s1[j].dist == s[j].dist);
        assert(s[j].dist <= s[i].dist + 1);
    }
    assert forall|j: int| 0 <= j < s1.len() implies hop_sound(g, local, #[trigger] s1[j]) by {
        if j != k {
            assert(s1[j] == s[j]);
        }
    }
    assert forall|j: int|
        0 <= j < s1.len() && (#[trigger] s1[j]).dist == 1 implies s1[j].hops@.contains(
        s1[j].peer,
    ) by {
        if j != k {
            assert(s1[j] == s[j]);
        } else {
            assert(s[k].hops@.contains(s[k].peer));
        }
    }
    assert forall|j: int, q: PeerId|
        0 <= j < i && #[trigger] adjacent(g, s1[j].peer, q) implies dhas(s1, q) && s1[dindex(
        s1,
        q,
    )].dist <= s1[j].dist + 1 by {
        assert(s1[j].peer == s[j].peer);
        assert(adjacent(g, s[j].peer, q));
        assert(dhas(s, q) && s[dindex(s, q)].dist <= s[j].dist + 1);
        let jq = dindex(s, q);
        assert(dindex(s1, q) == jq);
        assert(s1[jq].dist == s[jq].dist);
        assert(s1[j].dist == s[j].dist);
    }
    assert forall|j: int, k2: int|
        0 <= j < i && 0 <= k2 < s1.len() && #[trigger] adjacent(g, s1[j].peer, s1[k2].peer)
            && s1[k2].dist == s1[j].dist + 1 implies hops_subset(s1[j].hops@, s1[k2].hops@) by {
        assert(j != k);
        assert(s1[j] == s[j]);
        assert(s1[k2].peer == s[k2].peer && s1[k2].dist == s[k2].dist);
        assert(adjacent(g, s[j].peer, s[k2].peer));
        assert(hops_subset(s[j].hops@, s[k2].hops@));
        if k2 == k {
            assert forall|x: PeerId| #[trigger] s1[j].hops@.contains(x) implies
                s1[k2].hops@.contains(x) by {
                assert(s[k].hops@.contains(x));
            }
        } else {
            assert(s1[k2] == s[k2]);
        }
    }
    assert forall|j: int|
        0 <= j < s1.len() && level_done(s1, i, (#[trigger] s1[j]).dist as int) implies hop_complete(
        g,
        local,
        s1[j],
    ) by {
        assert(level_done(s, i, s[j].dist as int)) by {
            assert forall|kx: int|
                0 <= kx < s.len() && (#[trigger] s[kx]).dist < s[j].dist implies kx < i by {
                assert(s1[kx].dist == s[kx].dist);
                assert(s1[j].dist == s[j].dist);
            }
        }
        if j != k {
            assert(s1[j] == s[j]);
        } else {
            assert(s1[i].dist < s1[k].dist && !(i < i));
            assert(false);
        }
    }
}

/// While a node at level `ud` is scanned, a neighbour `q` is settled
/// once it is discovered at most one level further, with the scanned
/// node's hops merged in when it sits exactly one level further.
spec fn settled(s: Seq<BfsNode>, ud: int, uh: Seq<PeerId>, q: PeerId) -> bool {
    &&& dhas(s, q)
    &&& s[dindex(s, q)].dist <= ud + 1
    &&& (s[dindex(s, q)].dist == ud + 1 ==> hops_subset(uh, s[dindex(s, q)].hops@))
}

/// An edge already scanned for the node `up` at level `ud` has its far
/// endpoint settled.
spec fn scanned_edge(
    s: Seq<BfsNode>,
    up: PeerId,
    ud: int,
    uh: Seq<PeerId>,
    pair: (PeerId, PeerId),
) -> bool {
    &&& (pair.0 == up ==> settled(s, ud, uh, pair.1))
    &&& (pair.1 == up ==> settled(s, ud, uh, pair.0))
}

fn find_node(disc: &Vec<BfsNode>, q: PeerId) -> (r: Option<usize>)
    ensures
        match r {
            Some(k) => k < disc@.len() && disc@[k as int].peer == q,
            None => !dhas(disc@, q),
        },
{
    let mut i: usize = 0;
    while i < disc.len()
        invariant
            i <= disc@.len(),
            forall|j: int| 0 <= j < i ==> (#[trigger] disc@[j]).peer != q,
        decreases disc@.len() - i,
    {
        if disc[i].peer == q {
            return Some(i);
        }
        i = i + 1;
    }
    None
}

/// Set union of two peer lists, starting from a copy of `base`.
fn union_hops(base: &Vec<PeerId>, add: &Vec<PeerId>) -> (r: Vec<PeerId>)
    ensures
        forall|x: PeerId| r@.contains(x) <==> base@.contains(x) || add@.contains(x),
{
    let mut out = copy_peers(base);
    let mut i: usize = 0;
    while i < add.len()
        invariant
            i <= add@.len(),
            forall|x: PeerId|
                #[trigger] out@.contains(x) <==> base@.contains(x) || exists|j: int|
                    0 <= j < i && add@[j] == x,
        decreases add@.len() - i,
    {
        let x = add[i];
        let ghost out0 = out@;
        if !peers_contain(&out, x) {
            out.push(x);
        }
        i = i + 1;
        proof {
            assert forall|y: PeerId| #[trigger]
                out@.contains(y) implies base@.contains(y) || exists|j: int|
                0 <= j < i && add@[j] == y by {
                if out@ == out0.push(x) {
                    let j = choose|j: int| 0 <= j < out@.len() && out@[j] == y;
                    if j < out0.len() {
                        assert(out0.contains(y));
                    } else {
                        assert(y == x);
                        assert(add@[i - 1] == y);
                    }
                } else {
                    assert(out0.contains(y));
                }
                if !base@.contains(y) && exists|j: int| 0 <= j < i - 1 && add@[j] == y {
                    let j = choose|j: int| 0 <= j < i - 1 && add@[j] == y;
                    assert(0 <= j < i && add@[j] == y);
                }
            }
            assert forall|y: PeerId|
                base@.contains(y) || exists|j: int|
                    0 <= j < i && add@[j] == y implies #[trigger] out@.contains(y) by {
                if base@.contains(y) || exists|j: int| 0 <= j < i - 1 && add@[j] == y {
                    assert(out0.contains(y));
                    if out@ != out0 {
                        let jj = choose|jj: int| 0 <= jj < out0.len() && out0[jj] == y;
                        assert(out@[jj] == y);
                    }
                } else {
                    let j = choose|j: int| 0 <= j < i && add@[j] == y;
                    assert(j == i - 1 && y == x);
                    if out0.contains(x) {
                        let jj = choose|jj: int| 0 <= jj < out0.len() && out0[jj] == x;
                        if out@ != out0 {
                            assert(out@[jj] == x);
                        }
                    } else {
                        assert(out@ == out0.push(x));
                        assert(out@.last() == x);
                    }
                }
            }
        }
    }
    proof {
        assert forall|x: PeerId| #[trigger] out@.contains(x) implies base@.contains(x)
            || add@.contains(x) by {
            if !base@.contains(x) {
                let j = choose|j: int| 0 <= j < add@.len() && add@[j] == x;
                assert(add@[j] == x);
            }
        }
        assert forall|x: PeerId| add@.contains(x) implies #[trigger] out@.contains(x) by {
            let j = choose|j: int| 0 <= j < add@.len() && add@[j] == x;
            assert(0 <= j < add@.len() && add@[j] == x);
        }
    }
    out
}

} // verus!
