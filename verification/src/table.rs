//! The routing table itself: edge store, overlay graph, reachability
//! tracker, component spill engine and control surface, processed one
//! request at a time. The clock is an input: every operation that
//! needs the current time takes it as an argument.

use vstd::prelude::*;

use crate::edge::{all_models_wf, copy_edges, Edge, EdgeModel, PeerId, SimpleEdge};
use crate::edge_store::{keys_distinct, lemma_view_wf, nonce_of, EdgeStore};
use crate::graph::{adjacent, hops_exact, reachable, ForwardingTable, Graph};
use crate::peer_map::{is_stale, PeerMap};
use crate::store::{models_of, StoreModel};

verus! {

/// How long a peer may stay unreachable before a prune pass may spill
/// it, and the hysteresis window guarding the store against churn, in
/// milliseconds.
pub const SAVE_PEERS_MAX_TIME: u64 = 3600000;

/// How often edges should be pruned.
#[derive(Clone, Copy, Debug, PartialEq, Eq, Structural)]
pub enum Prune {
    /// Prune once per hour - the default.
    PruneOncePerHour,
    /// Prune right now - for testing purposes.
    PruneNow,
    /// Don't prune at all.
    Disable,
}

/// Some edge of the component list mentions `p`.
pub open spec fn component_mentions(edges: Seq<EdgeModel>, p: PeerId) -> bool {
    exists|j: int| 0 <= j < edges.len() && ((#[trigger] edges[j]).peer0 == p || edges[j].peer1 == p)
}

/// Each endpoint of `e` is the local peer or is owned by component `c`.
pub open spec fn edge_endpoints_owned(
    pc: Map<PeerId, u64>,
    local: PeerId,
    c: u64,
    e: EdgeModel,
) -> bool {
    &&& (e.peer0 == local || (pc.dom().contains(e.peer0) && pc[e.peer0] == c))
    &&& (e.peer1 == local || (pc.dom().contains(e.peer1) && pc[e.peer1] == c))
}

/// Every endpoint of every edge of the component list is the local
/// peer or owned by that same component.
pub open spec fn comp_endpoints_owned(
    pc: Map<PeerId, u64>,
    local: PeerId,
    c: u64,
    edges: Seq<EdgeModel>,
) -> bool {
    forall|j: int| 0 <= j < edges.len() ==> edge_endpoints_owned(pc, local, c, #[trigger] edges[j])
}

/// The set of canonical keys of a batch of edges.
pub open spec fn edge_key_set(es: Seq<Edge>) -> Set<(PeerId, PeerId)> {
    Set::new(
        |k: (PeerId, PeerId)| exists|j: int| 0 <= j < es.len() && (#[trigger] es[j])@.key() == k,
    )
}

/// Spill disjointness: no peer is both tracked in the in-memory
/// Reachability Tracker and recorded in the spilled-peer column.
/// Disjointness alone is not preserved by every operation — a
/// recomputation re-tracks reachable peers, which is safe only
/// because in-memory edges never touch spilled peers — so the
/// preserved property is the full spill consistency `spill_inv`, its
/// inductive strengthening, of which disjointness is the first
/// clause.
pub proof fn lemma_spill_disjointness(t: &RoutingTableActor, p: PeerId)
    requires
        t.spill_inv(),
    ensures
        !(t.peer_last_time_reachable@.dom().contains(p) && t.store.peer_component@.dom().contains(
            p,
        )),
{
}

/// Component nonce monotonicity: every component nonce already used,
/// whether for a stored component or an owning reference of a spilled
/// peer, lies strictly below the next nonce to allocate, so each prune
/// pass allocates a strictly larger nonce than everything before it.
pub proof fn lemma_component_nonces_bounded(t: &RoutingTableActor, c: u64, p: PeerId)
    requires
        t.inv(),
    ensures
        t.store.components@.dom().contains(c) ==> c < t.next_available_component_nonce,
        t.store.peer_component@.dom().contains(p) ==> t.store.peer_component@[p]
            < t.next_available_component_nonce,
{
}

/// Every key of the map appears among the listed edges.
pub open spec fn lists_all_keys(list: Seq<Edge>, m: Map<(PeerId, PeerId), EdgeModel>) -> bool {
    forall|k: (PeerId, PeerId)| #[trigger]
        m.dom().contains(k) ==> exists|t: int|
            0 <= t < list.len() && (#[trigger] list[t])@.key() == k
}

/// Every listed edge touches `local`, was stored before, and is gone
/// after.
pub open spec fn local_removals_sound(
    list: Seq<Edge>,
    pre_edges: Map<(PeerId, PeerId), EdgeModel>,
    post_edges: Map<(PeerId, PeerId), EdgeModel>,
    local: PeerId,
) -> bool {
    forall|t: int|
        0 <= t < list.len() ==> (#[trigger] list[t])@.touches(local) && pre_edges.dom().contains(
            list[t]@.key(),
        ) && pre_edges[list[t]@.key()] == list[t]@ && !post_edges.dom().contains(list[t]@.key())
}

/// Every removed key touching `local` appears in the list.
pub open spec fn local_removals_complete(
    list: Seq<Edge>,
    pre_edges: Map<(PeerId, PeerId), EdgeModel>,
    post_edges: Map<(PeerId, PeerId), EdgeModel>,
    local: PeerId,
) -> bool {
    forall|k: (PeerId, PeerId)| #[trigger]
        pre_edges.dom().contains(k) && !post_edges.dom().contains(k) && (k.0 == local || k.1
            == local) ==> exists|t: int| 0 <= t < list.len() && (#[trigger] list[t])@.key() == k
}

/// Some edge of the batch has `p` as an endpoint.
pub open spec fn batch_touches(es: Seq<Edge>, p: PeerId) -> bool {
    exists|j: int| 0 <= j < es.len() && ((#[trigger] es[j])@.peer0 == p || es[j]@.peer1 == p)
}

/// Some edge among the first `upto` of the list mentions `p`.
pub open spec fn mentioned_upto(edges: Seq<EdgeModel>, upto: int, p: PeerId) -> bool {
    exists|j: int| 0 <= j < upto && ((#[trigger] edges[j]).peer0 == p || edges[j].peer1 == p)
}

/// Some stored component holds exactly this edge.
pub open spec fn comps_have_model(comps: Map<u64, Seq<EdgeModel>>, m: EdgeModel) -> bool {
    exists|c: u64, j: int|
        comps.dom().contains(c) && 0 <= j < comps[c].len() && (#[trigger] comps[c][j]) == m
}

/// Some stored component holds an edge with this key.
pub open spec fn comps_have_key(comps: Map<u64, Seq<EdgeModel>>, k: (PeerId, PeerId)) -> bool {
    exists|c: u64, j: int|
        comps.dom().contains(c) && 0 <= j < comps[c].len() && (#[trigger] comps[c][j]).key() == k
}

/// Some listed model equals `m`.
pub open spec fn seq_has_model(r: Seq<EdgeModel>, m: EdgeModel) -> bool {
    exists|t: int| 0 <= t < r.len() && (#[trigger] r[t]) == m
}

/// `m` maps each position of `r` to the batch position it copies, in
/// strictly increasing order.
pub open spec fn is_model_index_map(m: Seq<int>, r: Seq<EdgeModel>, es: Seq<EdgeModel>) -> bool {
    &&& m.len() == r.len()
    &&& forall|t: int| 0 <= t < m.len() ==> 0 <= #[trigger] m[t] < es.len() && r[t] == es[m[t]]
    &&& forall|t1: int, t2: int|
        #![trigger m[t1], m[t2]]
        0 <= t1 < t2 < m.len() ==> m[t1] < m[t2]
}

/// `r` is a subsequence of the batch `es`, in batch order.
pub open spec fn accepted_subsequence(r: Seq<EdgeModel>, es: Seq<EdgeModel>) -> bool {
    exists|m: Seq<int>| is_model_index_map(m, r, es)
}

/// Every batch edge whose nonce is strictly newer than the stored one,
/// whose key no stored component mentions, and whose key is unique in
/// the batch, appears in the accepted list. (An edge whose key a
/// restored component or another batch edge also carries is accepted
/// exactly when it is still the newest at its turn.)
pub open spec fn accepted_complete(
    r: Seq<EdgeModel>,
    es: Seq<EdgeModel>,
    pre_edges: Map<(PeerId, PeerId), EdgeModel>,
    comps: Map<u64, Seq<EdgeModel>>,
) -> bool {
    forall|j: int|
        0 <= j < es.len() && (#[trigger] es[j]).nonce > nonce_of(pre_edges, es[j].key())
            && !comps_have_key(comps, es[j].key()) && (forall|j2: int|
            0 <= j2 < es.len() && j2 != j ==> (#[trigger] es[j2]).key() != es[j].key())
            ==> seq_has_model(r, es[j])
}

/// The nonce of a key no batch edge and no stored component carries is
/// untouched by batch ingestion.
pub open spec fn batch_nonces_framed(
    post_edges: Map<(PeerId, PeerId), EdgeModel>,
    pre_edges: Map<(PeerId, PeerId), EdgeModel>,
    es: Seq<EdgeModel>,
    comps: Map<u64, Seq<EdgeModel>>,
) -> bool {
    forall|k: (PeerId, PeerId)|
        !comps_have_key(comps, k) && !(exists|j: int|
            0 <= j < es.len() && (#[trigger] es[j]).key() == k) ==> #[trigger] nonce_of(
            post_edges,
            k,
        ) == nonce_of(pre_edges, k)
}

/// Every stored edge after ingestion was stored before unchanged, is
/// a batch edge, or came from a stored component.
pub open spec fn batch_provenance(
    post_edges: Map<(PeerId, PeerId), EdgeModel>,
    pre_edges: Map<(PeerId, PeerId), EdgeModel>,
    es: Seq<EdgeModel>,
    comps: Map<u64, Seq<EdgeModel>>,
) -> bool {
    forall|k: (PeerId, PeerId)| #[trigger]
        post_edges.dom().contains(k) ==> (pre_edges.dom().contains(k) && post_edges[k]
            == pre_edges[k]) || seq_has_model(es, post_edges[k]) || comps_have_model(
            comps,
            post_edges[k],
        )
}

/// The timestamp a restored peer is tracked with: one full window in
/// the past (clamped at the epoch), so the very next prune cycle
/// re-evaluates it.
pub open spec fn backdated(now: u64) -> u64 {
    if now >= SAVE_PEERS_MAX_TIME {
        (now - SAVE_PEERS_MAX_TIME) as u64
    } else {
        0
    }
}

/// What restoring the component `c` at time `now` guarantees: its
/// entry is consumed, every edge of it is back in the edge store or
/// superseded by a strictly newer one, and every member peer is
/// tracked again with the backdated timestamp and no longer marked as
/// spilled.
pub open spec fn restore_done(
    pre: RoutingTableActor,
    post: RoutingTableActor,
    c: u64,
    now: u64,
) -> bool {
    &&& !post.store.components@.dom().contains(c)
    &&& forall|j: int|
        0 <= j < pre.store.components@[c].len() ==> nonce_of(
            post.edges_info@,
            (#[trigger] pre.store.components@[c][j]).key(),
        ) >= pre.store.components@[c][j].nonce
    &&& forall|p: PeerId| #[trigger]
        pre.store.peer_component@.dom().contains(p) && pre.store.peer_component@[p] == c
            ==> post.peer_last_time_reachable@.dom().contains(p)
            && post.peer_last_time_reachable@[p] == backdated(now)
            && !post.store.peer_component@.dom().contains(p)
}

/// No tracked peer is due for spilling at `now`: the guard that makes
/// an unforced prune pass return without touching the store.
pub open spec fn no_peer_spill_due(tracker: Map<PeerId, u64>, now: u64) -> bool {
    forall|p: PeerId| #[trigger]
        tracker.dom().contains(p) ==> !is_stale(tracker[p], now, SAVE_PEERS_MAX_TIME)
}

/// A peer the prune pass selects for spilling: tracked and unreachable
/// for at least `window`.
pub open spec fn is_victim(tracker: Map<PeerId, u64>, now: u64, window: u64, p: PeerId) -> bool {
    tracker.dom().contains(p) && is_stale(tracker[p], now, window)
}

/// The tracker after a forwarding recomputation: every peer of the new
/// forwarding table is stamped `now`, everything else keeps its time.
pub open spec fn refreshed_tracker(
    tracker: Map<PeerId, u64>,
    fw: Map<PeerId, Set<PeerId>>,
    now: u64,
) -> Map<PeerId, u64> {
    Map::new(
        |p: PeerId| tracker.dom().contains(p) || fw.dom().contains(p),
        |p: PeerId|
            if fw.dom().contains(p) {
                now
            } else {
                tracker[p]
            },
    )
}

/// The conditions under which a prune pass keeps spill consistency:
/// the victim set is closed (an edge touching a victim has both
/// endpoints local or victims) and every victim still has an incident
/// edge to be spilled with. A victim set that has lost all its edges,
/// or that borrows an edge from a surviving peer, leaves a component
/// entry that can no longer be restored by touching its members.
pub open spec fn prune_spill_safe(
    pre: RoutingTableActor,
    rt: Map<PeerId, u64>,
    now: u64,
    window: u64,
) -> bool {
    &&& forall|k: (PeerId, PeerId)| #[trigger]
        pre.edges_info@.dom().contains(k) && (is_victim(rt, now, window, k.0) || is_victim(
            rt,
            now,
            window,
            k.1,
        )) ==> (k.0 == pre.local() || is_victim(rt, now, window, k.0)) && (k.1 == pre.local()
            || is_victim(rt, now, window, k.1))
    &&& forall|p: PeerId|
        #[trigger] is_victim(rt, now, window, p) ==> exists|k: (PeerId, PeerId)| #[trigger]
            pre.edges_info@.dom().contains(k) && (k.0 == p || k.1 == p)
}

/// What a prune pass that ran (was not stopped by the hysteresis
/// guard) did: it allocated the next component nonce, persisted the
/// new next value, wrote exactly the victim-touching edges as the new
/// component, marked every victim as owned by it, dropped the victims
/// from the tracker, and returned exactly those edges.
pub open spec fn prune_applied(
    pre: RoutingTableActor,
    post: RoutingTableActor,
    r: Seq<Edge>,
    window: u64,
    now: u64,
) -> bool {
    let c = pre.next_available_component_nonce;
    let tracker = pre.peer_last_time_reachable@;
    &&& post.next_available_component_nonce == c + 1
    &&& post.store.last_component_nonce == Some((c + 1) as u64)
    &&& post.store.components@ == pre.store.components@.insert(c, r.map_values(|e: Edge| e@))
    &&& forall|p: PeerId|
        #[trigger] post.store.peer_component@.dom().contains(p)
            <==> pre.store.peer_component@.dom().contains(p) || is_victim(tracker, now, window, p)
    &&& forall|p: PeerId| #[trigger]
        post.store.peer_component@.dom().contains(p) ==> post.store.peer_component@[p] == (
        if is_victim(tracker, now, window, p) {
            c
        } else {
            pre.store.peer_component@[p]
        })
    &&& forall|p: PeerId|
        #[trigger] post.peer_last_time_reachable@.dom().contains(p) <==> tracker.dom().contains(p)
            && !is_victim(tracker, now, window, p)
    &&& forall|p: PeerId| #[trigger]
        post.peer_last_time_reachable@.dom().contains(p) ==> post.peer_last_time_reachable@[p]
            == tracker[p]
    &&& forall|t: int|
        0 <= t < r.len() ==> pre.edges_info@.dom().contains((#[trigger] r[t])@.key())
            && pre.edges_info@[r[t]@.key()] == r[t]@ && r[t]@.wf() && (is_victim(
            tracker,
            now,
            window,
            r[t]@.peer0,
        ) || is_victim(tracker, now, window, r[t]@.peer1))
    &&& forall|t1: int, t2: int|
        0 <= t1 < t2 < r.len() ==> (#[trigger] r[t1])@.key() != (#[trigger] r[t2])@.key()
    &&& forall|k: (PeerId, PeerId)| #[trigger]
        pre.edges_info@.dom().contains(k) && (is_victim(tracker, now, window, k.0) || is_victim(
            tracker,
            now,
            window,
            k.1,
        )) ==> exists|t: int| 0 <= t < r.len() && (#[trigger] r[t])@.key() == k
}

/// Everything restore-on-touch for `other` guarantees, relating the
/// state before the touch to the state after it.
pub open spec fn fetch_rel(
    pre: RoutingTableActor,
    post: RoutingTableActor,
    other: PeerId,
    now: u64,
) -> bool {
    &&& post.local() == pre.local()
    &&& post.peer_forwarding == pre.peer_forwarding
    &&& post.next_available_component_nonce == pre.next_available_component_nonce
    &&& post.store.last_component_nonce == pre.store.last_component_nonce
    &&& (pre.needs_routing_table_recalculation ==> post.needs_routing_table_recalculation)
    &&& forall|c: u64| #[trigger]
        post.store.components@.dom().contains(c) ==> pre.store.components@.dom().contains(c)
            && post.store.components@[c] == pre.store.components@[c]
    &&& forall|p: PeerId| #[trigger]
        post.store.peer_component@.dom().contains(p) ==> pre.store.peer_component@.dom().contains(
            p,
        ) && post.store.peer_component@[p] == pre.store.peer_component@[p]
    &&& forall|p: PeerId| #[trigger]
        pre.peer_last_time_reachable@.dom().contains(p)
            ==> post.peer_last_time_reachable@.dom().contains(p)
            && post.peer_last_time_reachable@[p] == pre.peer_last_time_reachable@[p]
    &&& forall|k: (PeerId, PeerId)| #[trigger]
        nonce_of(post.edges_info@, k) >= nonce_of(pre.edges_info@, k)
    &&& forall|k: (PeerId, PeerId)| #[trigger]
        post.edges_info@.dom().contains(k) ==> (pre.edges_info@.dom().contains(k)
            && post.edges_info@[k] == pre.edges_info@[k]) || comps_have_model(
            pre.store.components@,
            post.edges_info@[k],
        )
    &&& ((other == pre.local() || pre.peer_last_time_reachable@.dom().contains(other)) ==> post
        == pre)
    &&& ((other != pre.local() && !pre.peer_last_time_reachable@.dom().contains(other)
        && !pre.store.peer_component@.dom().contains(other)) ==> post.edges_info == pre.edges_info
        && post.raw_graph == pre.raw_graph && post.store == pre.store
        && post.peer_last_time_reachable@ == pre.peer_last_time_reachable@.insert(other, now)
        && post.needs_routing_table_recalculation == pre.needs_routing_table_recalculation)
    &&& forall|c2: u64| #[trigger]
        pre.store.components@.dom().contains(c2) && !post.store.components@.dom().contains(c2)
            ==> pre.store.peer_component@.dom().contains(other) && c2
            == pre.store.peer_component@[other]
    &&& ((other != pre.local() && !pre.peer_last_time_reachable@.dom().contains(other)
        && pre.store.peer_component@.dom().contains(other)
        && pre.store.components@.dom().contains(pre.store.peer_component@[other]))
        ==> !post.store.components@.dom().contains(pre.store.peer_component@[other]) && forall|
        j: int,
    |
        0 <= j < pre.store.components@[pre.store.peer_component@[other]].len() ==> nonce_of(
            post.edges_info@,
            (#[trigger] pre.store.components@[pre.store.peer_component@[other]][j]).key(),
        ) >= pre.store.components@[pre.store.peer_component@[other]][j].nonce)
    &&& (pre.spill_inv() ==> post.spill_inv())
    &&& (pre.spill_inv() ==> (other == pre.local() || post.peer_last_time_reachable@.dom().contains(
        other,
    )))
    &&& ((pre.spill_inv() && other != pre.local()
        && !pre.peer_last_time_reachable@.dom().contains(other)
        && pre.store.peer_component@.dom().contains(other)) ==> (restore_done(
        pre,
        post,
        pre.store.peer_component@[other],
        now,
    ) && forall|q: PeerId| #[trigger]
        pre.store.peer_component@.dom().contains(q) && pre.store.peer_component@[q]
            != pre.store.peer_component@[other] ==> post.store.peer_component@.dom().contains(q)))
}

/// Everything applying one verified edge guarantees: acceptance is
/// exactly nonce freshness, the edge store and overlay graph follow,
/// and nothing else moves.
pub open spec fn add_rel(
    pre: RoutingTableActor,
    post: RoutingTableActor,
    e: EdgeModel,
    r: bool,
) -> bool {
    &&& r == (e.nonce > nonce_of(pre.edges_info@, e.key()))
    &&& (r ==> post.edges_info@ == pre.edges_info@.insert(e.key(), e)
        && post.needs_routing_table_recalculation)
    &&& (r && e.is_added() ==> post.raw_graph.edge_set() == pre.raw_graph.edge_set().insert(
        e.key(),
    ))
    &&& (r && !e.is_added() ==> post.raw_graph.edge_set() == pre.raw_graph.edge_set().remove(
        e.key(),
    ))
    &&& (!r ==> post.edges_info@ == pre.edges_info@ && post.raw_graph.edge_set()
        == pre.raw_graph.edge_set() && post.needs_routing_table_recalculation
        == pre.needs_routing_table_recalculation)
    &&& post.local() == pre.local()
    &&& post.peer_forwarding == pre.peer_forwarding
    &&& post.peer_last_time_reachable == pre.peer_last_time_reachable
    &&& post.store == pre.store
    &&& post.next_available_component_nonce == pre.next_available_component_nonce
    &&& (pre.needs_routing_table_recalculation ==> post.needs_routing_table_recalculation)
    &&& nonce_of(post.edges_info@, e.key()) == (if e.nonce > nonce_of(pre.edges_info@, e.key()) {
        e.nonce
    } else {
        nonce_of(pre.edges_info@, e.key())
    })
    &&& forall|k: (PeerId, PeerId)|
        k != e.key() ==> #[trigger] nonce_of(post.edges_info@, k) == nonce_of(pre.edges_info@, k)
    &&& ((pre.spill_inv() && !pre.store.peer_component@.dom().contains(e.peer0)
        && !pre.store.peer_component@.dom().contains(e.peer1)) ==> post.spill_inv())
}

/// Every edge of the batch is already stale and both its endpoints are
/// the local peer or already tracked: ingesting such a batch changes
/// nothing, which makes batch ingestion idempotent.
pub open spec fn all_stale_known(pre: RoutingTableActor, edges: Seq<Edge>) -> bool {
    forall|j: int|
        0 <= j < edges.len() ==> ((#[trigger] edges[j])@.peer0 == pre.local()
            || pre.peer_last_time_reachable@.dom().contains(edges[j]@.peer0)) && (edges[j]@.peer1
            == pre.local() || pre.peer_last_time_reachable@.dom().contains(edges[j]@.peer1))
            && edges[j]@.nonce <= nonce_of(pre.edges_info@, edges[j]@.key())
}

/// Invariant of batch ingestion after processing the first `idx` edges.
pub open spec fn batch_inv(
    pre: RoutingTableActor,
    cur: RoutingTableActor,
    edges: Seq<Edge>,
    idx: int,
    accepted: Seq<Edge>,
    now: u64,
) -> bool {
    &&& cur.inv()
    &&& cur.local() == pre.local()
    &&& cur.peer_forwarding == pre.peer_forwarding
    &&& cur.next_available_component_nonce == pre.next_available_component_nonce
    &&& cur.store.last_component_nonce == pre.store.last_component_nonce
    &&& forall|k: (PeerId, PeerId)| #[trigger]
        nonce_of(cur.edges_info@, k) >= nonce_of(pre.edges_info@, k)
    &&& forall|j: int|
        0 <= j < idx ==> nonce_of(cur.edges_info@, (#[trigger] edges[j])@.key())
            >= edges[j]@.nonce
    &&& forall|k: (PeerId, PeerId)| #[trigger]
        cur.edges_info@.dom().contains(k) ==> (pre.edges_info@.dom().contains(k)
            && cur.edges_info@[k] == pre.edges_info@[k]) || (exists|j: int|
            0 <= j < edges.len() && (#[trigger] edges[j])@ == cur.edges_info@[k])
            || comps_have_model(pre.store.components@, cur.edges_info@[k])
    &&& forall|c: u64| #[trigger]
        cur.store.components@.dom().contains(c) ==> pre.store.components@.dom().contains(c)
            && cur.store.components@[c] == pre.store.components@[c]
    &&& forall|p: PeerId| #[trigger]
        cur.store.peer_component@.dom().contains(p) ==> pre.store.peer_component@.dom().contains(
            p,
        ) && cur.store.peer_component@[p] == pre.store.peer_component@[p]
    &&& forall|p: PeerId| #[trigger]
        pre.peer_last_time_reachable@.dom().contains(p)
            ==> cur.peer_last_time_reachable@.dom().contains(p)
            && cur.peer_last_time_reachable@[p] == pre.peer_last_time_reachable@[p]
    &&& forall|t: int|
        0 <= t < accepted.len() ==> exists|j: int|
            0 <= j < edges.len() && (#[trigger] accepted[t])@ == edges[j]@
    &&& (pre.spill_inv() ==> cur.spill_inv())
    &&& (pre.spill_inv() ==> forall|j: int|
        0 <= j < idx ==> ((#[trigger] edges[j])@.peer0 == pre.local()
            || cur.peer_last_time_reachable@.dom().contains(edges[j]@.peer0)) && (edges[j]@.peer1
            == pre.local() || cur.peer_last_time_reachable@.dom().contains(edges[j]@.peer1)))
    &&& (pre.spill_inv() ==> forall|p: PeerId| #[trigger]
        pre.store.peer_component@.dom().contains(p)
            && !cur.store.peer_component@.dom().contains(p) ==> restore_done(
            pre,
            cur,
            pre.store.peer_component@[p],
            now,
        ))
    &&& (pre.spill_inv() ==> forall|p: PeerId|
        #[trigger] mentioned_upto(models_of(edges), idx, p)
            && pre.store.peer_component@.dom().contains(p)
            ==> !cur.store.peer_component@.dom().contains(p))
    &&& forall|k: (PeerId, PeerId)|
        !comps_have_key(pre.store.components@, k) && !(exists|j: int|
            0 <= j < idx && (#[trigger] edges[j])@.key() == k) ==> #[trigger] nonce_of(
            cur.edges_info@,
            k,
        ) == nonce_of(pre.edges_info@, k)
    &&& forall|j: int|
        0 <= j < idx && (#[trigger] edges[j])@.nonce > nonce_of(
            pre.edges_info@,
            edges[j]@.key(),
        ) && !comps_have_key(pre.store.components@, edges[j]@.key()) && (forall|j2: int|
            0 <= j2 < edges.len() && j2 != j ==> (#[trigger] edges[j2])@.key() != edges[j]@.key())
            ==> seq_has_model(models_of(accepted), edges[j]@)
    &&& (all_stale_known(pre, edges) ==> (cur.edges_info@ == pre.edges_info@
        && cur.raw_graph.edge_set() == pre.raw_graph.edge_set() && cur.store == pre.store
        && cur.peer_last_time_reachable@ == pre.peer_last_time_reachable@ && accepted.len() == 0
        && cur.needs_routing_table_recalculation == pre.needs_routing_table_recalculation))
}

/// `e` is a copy of some edge of the batch touching `peer`.
pub open spec fn edge_from_batch(e: Edge, edges: Seq<Edge>, peer: PeerId) -> bool {
    exists|t2: int|
        0 <= t2 < edges.len() && (#[trigger] edges[t2])@ == e@ && edges[t2]@.touches(peer)
}

/// Some edge of the list has this model.
pub open spec fn list_has_model(r: Seq<Edge>, m: EdgeModel) -> bool {
    exists|tt: int| 0 <= tt < r.len() && (#[trigger] r[tt])@ == m
}

/// A restore touch never moves the nonce of a key that no stored
/// component of the base state carries: everything it writes comes
/// from those components.
proof fn lemma_nonce_unchanged_outside_comps(
    base: RoutingTableActor,
    a: RoutingTableActor,
    b: RoutingTableActor,
    k: (PeerId, PeerId),
)
    requires
        b.inv(),
        !comps_have_key(base.store.components@, k),
        forall|c2: u64| #[trigger]
            a.store.components@.dom().contains(c2) ==> base.store.components@.dom().contains(c2)
                && a.store.components@[c2] == base.store.components@[c2],
        forall|kk: (PeerId, PeerId)| #[trigger]
            nonce_of(b.edges_info@, kk) >= nonce_of(a.edges_info@, kk),
        forall|kk: (PeerId, PeerId)| #[trigger]
            b.edges_info@.dom().contains(kk) ==> (a.edges_info@.dom().contains(kk)
                && b.edges_info@[kk] == a.edges_info@[kk]) || comps_have_model(
                a.store.components@,
                b.edges_info@[kk],
            ),
    ensures
        nonce_of(b.edges_info@, k) == nonce_of(a.edges_info@, k),
{
    if nonce_of(b.edges_info@, k) != nonce_of(a.edges_info@, k) {
        assert(nonce_of(b.edges_info@, k) > nonce_of(a.edges_info@, k));
        assert(b.edges_info@.dom().contains(k));
        if a.edges_info@.dom().contains(k) && b.edges_info@[k] == a.edges_info@[k] {
            assert(false);
        }
        assert(comps_have_model(a.store.components@, b.edges_info@[k]));
        let (c, jj) = choose|c: u64, jj: int|
            a.store.components@.dom().contains(c) && 0 <= jj < a.store.components@[c].len() && (
            #[trigger] a.store.components@[c][jj]) == b.edges_info@[k];
        lemma_view_wf(&b.edges_info);
        assert(b.edges_info@[k].key() == k);
        assert(base.store.components@.dom().contains(c));
        assert(base.store.components@[c][jj].key() == k);
        assert(comps_have_key(base.store.components@, k));
        assert(false);
    }
}

/// A prune pass over a spill-consistent state whose victim set is
/// closed and fully edged, followed by removal of the evicted edges
/// from memory, preserves spill consistency.
proof fn lemma_prune_spill(
    pre: RoutingTableActor,
    mid: RoutingTableActor,
    post: RoutingTableActor,
    fin: RoutingTableActor,
    evicted: Seq<Edge>,
    rt: Map<PeerId, u64>,
    now: u64,
    window: u64,
)
    requires
        pre.inv(),
        mid.inv(),
        mid.spill_inv(),
        prune_spill_safe(pre, rt, now, window),
        mid.edges_info == pre.edges_info,
        mid.store == pre.store,
        mid.local() == pre.local(),
        mid.peer_last_time_reachable@ == rt,
        mid.next_available_component_nonce == pre.next_available_component_nonce,
        prune_applied(mid, post, evicted, window, now),
        post.edges_info == mid.edges_info,
        fin.local() == pre.local(),
        fin.store == post.store,
        fin.peer_last_time_reachable == post.peer_last_time_reachable,
        fin.edges_info@ == post.edges_info@.remove_keys(edge_key_set(evicted)),
    ensures
        fin.spill_inv(),
{
    let c = pre.next_available_component_nonce;
    let pcf = fin.store.peer_component@;
    let trf = fin.peer_last_time_reachable@;
    let compsf = fin.store.components@;
    assert forall|p: PeerId| #[trigger] trf.dom().contains(p) implies !pcf.dom().contains(p) by {
        assert(rt.dom().contains(p) && !is_victim(rt, now, window, p));
        assert(mid.peer_last_time_reachable@.dom().contains(p));
        assert(!mid.store.peer_component@.dom().contains(p));
    }
    assert forall|k: (PeerId, PeerId)| #[trigger] fin.edges_info@.dom().contains(k) implies
        !pcf.dom().contains(k.0) && !pcf.dom().contains(k.1) by {
        assert(pre.edges_info@.dom().contains(k));
        assert(!edge_key_set(evicted).contains(k));
        if is_victim(rt, now, window, k.0) || is_victim(rt, now, window, k.1) {
            let tt = choose|tt: int|
                0 <= tt < evicted.len() && (#[trigger] evicted[tt])@.key() == k;
            assert(edge_key_set(evicted).contains(k));
            assert(false);
        }
        assert(!mid.store.peer_component@.dom().contains(k.0)
            && !mid.store.peer_component@.dom().contains(k.1));
    }
    assert forall|p: PeerId| #[trigger] pcf.dom().contains(p) implies compsf.dom().contains(
        pcf[p],
    ) && component_mentions(compsf[pcf[p]], p) by {
        if is_victim(rt, now, window, p) {
            assert(pcf[p] == c);
            let k = choose|k: (PeerId, PeerId)| #[trigger]
                pre.edges_info@.dom().contains(k) && (k.0 == p || k.1 == p);
            assert(is_victim(rt, now, window, k.0) || is_victim(rt, now, window, k.1));
            let tt = choose|tt: int|
                0 <= tt < evicted.len() && (#[trigger] evicted[tt])@.key() == k;
            assert(compsf.dom().contains(c));
            assert(compsf[c] == evicted.map_values(|e: Edge| e@));
            assert(compsf[c][tt] == evicted[tt]@);
            lemma_view_wf(&pre.edges_info);
            assert(evicted[tt]@.peer0 == k.0 && evicted[tt]@.peer1 == k.1);
            assert(component_mentions(compsf[c], p)) by {
                assert(compsf[c][tt].peer0 == p || compsf[c][tt].peer1 == p);
            }
        } else {
            assert(mid.store.peer_component@.dom().contains(p));
            assert(pcf[p] == mid.store.peer_component@[p]);
            assert(mid.store.peer_component@[p] < c);
            assert(compsf.dom().contains(pcf[p]));
            assert(compsf[pcf[p]] == mid.store.components@[pcf[p]]);
            assert(component_mentions(compsf[pcf[p]], p));
        }
    }
    assert forall|c2: u64| #[trigger] compsf.dom().contains(c2) implies comp_endpoints_owned(
        pcf,
        fin.local(),
        c2,
        compsf[c2],
    ) by {
        if c2 == c {
            assert(compsf[c] == evicted.map_values(|e: Edge| e@));
            assert forall|j: int| 0 <= j < compsf[c2].len() implies edge_endpoints_owned(
                pcf,
                fin.local(),
                c2,
                #[trigger] compsf[c2][j],
            ) by {
                let m = compsf[c2][j];
                assert(m == evicted[j]@);
                let k = m.key();
                assert(pre.edges_info@.dom().contains(k) && pre.edges_info@[k] == m);
                lemma_view_wf(&pre.edges_info);
                assert(m.peer0 == k.0 && m.peer1 == k.1);
                assert(is_victim(rt, now, window, k.0) || is_victim(rt, now, window, k.1));
                assert((k.0 == pre.local() || is_victim(rt, now, window, k.0)) && (k.1
                    == pre.local() || is_victim(rt, now, window, k.1)));
                if k.0 != pre.local() {
                    assert(is_victim(mid.peer_last_time_reachable@, now, window, k.0));
                    assert(post.store.peer_component@.dom().contains(k.0));
                    assert(post.store.peer_component@[k.0] == c);
                    assert(pcf.dom().contains(k.0) && pcf[k.0] == c);
                }
                if k.1 != pre.local() {
                    assert(is_victim(mid.peer_last_time_reachable@, now, window, k.1));
                    assert(post.store.peer_component@.dom().contains(k.1));
                    assert(post.store.peer_component@[k.1] == c);
                    assert(pcf.dom().contains(k.1) && pcf[k.1] == c);
                }
            }
        } else {
            assert(mid.store.components@.dom().contains(c2));
            assert(compsf[c2] == mid.store.components@[c2]);
            assert(comp_endpoints_owned(
                mid.store.peer_component@,
                mid.local(),
                c2,
                mid.store.components@[c2],
            ));
            assert forall|j: int| 0 <= j < compsf[c2].len() implies edge_endpoints_owned(
                pcf,
                fin.local(),
                c2,
                #[trigger] compsf[c2][j],
            ) by {
                let m = compsf[c2][j];
                assert(m == mid.store.components@[c2][j]);
                assert(edge_endpoints_owned(mid.store.peer_component@, mid.local(), c2, m));
                if m.peer0 != pre.local() {
                    assert(mid.store.peer_component@.dom().contains(m.peer0)
                        && mid.store.peer_component@[m.peer0] == c2);
                    assert(!is_victim(mid.peer_last_time_reachable@, now, window, m.peer0)) by {
                        if mid.peer_last_time_reachable@.dom().contains(m.peer0) {
                            assert(false);
                        }
                    }
                    assert(post.store.peer_component@.dom().contains(m.peer0));
                    assert(post.store.peer_component@[m.peer0] == c2);
                    assert(pcf.dom().contains(m.peer0) && pcf[m.peer0] == c2);
                }
                if m.peer1 != pre.local() {
                    assert(mid.store.peer_component@.dom().contains(m.peer1)
                        && mid.store.peer_component@[m.peer1] == c2);
                    assert(!is_victim(mid.peer_last_time_reachable@, now, window, m.peer1)) by {
                        if mid.peer_last_time_reachable@.dom().contains(m.peer1) {
                            assert(false);
                        }
                    }
                    assert(post.store.peer_component@.dom().contains(m.peer1));
                    assert(post.store.peer_component@[m.peer1] == c2);
                    assert(pcf.dom().contains(m.peer1) && pcf[m.peer1] == c2);
                }
            }
        }
    }
}

/// A completed restore stays completed as the state moves on
/// monotonically: components only disappear, nonces only grow, the
/// tracker only grows and the spilled-peer column only shrinks.
proof fn lemma_restore_done_persists(
    pre: RoutingTableActor,
    a: RoutingTableActor,
    b: RoutingTableActor,
    c: u64,
    now: u64,
)
    requires
        restore_done(pre, a, c, now),
        forall|c2: u64| #[trigger]
            b.store.components@.dom().contains(c2) ==> a.store.components@.dom().contains(c2),
        forall|k: (PeerId, PeerId)| #[trigger]
            nonce_of(b.edges_info@, k) >= nonce_of(a.edges_info@, k),
        forall|p: PeerId| #[trigger]
            a.peer_last_time_reachable@.dom().contains(p)
                ==> b.peer_last_time_reachable@.dom().contains(p)
                && b.peer_last_time_reachable@[p] == a.peer_last_time_reachable@[p],
        forall|p: PeerId| #[trigger]
            b.store.peer_component@.dom().contains(p) ==> a.store.peer_component@.dom().contains(
                p,
            ),
    ensures
        restore_done(pre, b, c, now),
{
}

/// A restore of component `c` performed from a later state also
/// counts as a restore from the original state, since the column and
/// component entries were carried over unchanged and earlier removals
/// were themselves completed restores.
proof fn lemma_lift_restore(
    pre: RoutingTableActor,
    sa: RoutingTableActor,
    sb: RoutingTableActor,
    c: u64,
    now: u64,
)
    requires
        sa.spill_inv(),
        restore_done(sa, sb, c, now),
        sa.store.components@.dom().contains(c),
        forall|c2: u64| #[trigger]
            sa.store.components@.dom().contains(c2) ==> pre.store.components@.dom().contains(c2)
                && sa.store.components@[c2] == pre.store.components@[c2],
        forall|p: PeerId| #[trigger]
            sa.store.peer_component@.dom().contains(p)
                ==> pre.store.peer_component@.dom().contains(p) && sa.store.peer_component@[p]
                == pre.store.peer_component@[p],
        forall|p: PeerId| #[trigger]
            pre.store.peer_component@.dom().contains(p)
                && !sa.store.peer_component@.dom().contains(p) ==> restore_done(
                pre,
                sa,
                pre.store.peer_component@[p],
                now,
            ),
        forall|p: PeerId| #[trigger]
            sa.peer_last_time_reachable@.dom().contains(p)
                ==> sb.peer_last_time_reachable@.dom().contains(p)
                && sb.peer_last_time_reachable@[p] == sa.peer_last_time_reachable@[p],
        forall|p: PeerId| #[trigger]
            sb.store.peer_component@.dom().contains(p) ==> sa.store.peer_component@.dom().contains(
                p,
            ),
        forall|k: (PeerId, PeerId)| #[trigger]
            nonce_of(sb.edges_info@, k) >= nonce_of(sa.edges_info@, k),
    ensures
        restore_done(pre, sb, c, now),
{
    assert(pre.store.components@[c] == sa.store.components@[c]);
    assert forall|p: PeerId| #[trigger]
        pre.store.peer_component@.dom().contains(p) && pre.store.peer_component@[p] == c implies
        sb.peer_last_time_reachable@.dom().contains(p) && sb.peer_last_time_reachable@[p]
        == backdated(now) && !sb.store.peer_component@.dom().contains(p) by {
        if sa.store.peer_component@.dom().contains(p) {
            assert(sa.store.peer_component@[p] == c);
        } else {
            assert(restore_done(pre, sa, pre.store.peer_component@[p], now));
            assert(sa.peer_last_time_reachable@.dom().contains(p));
        }
    }
}

/// One step of batch ingestion: touching both endpoints and applying
/// the edge through the nonce-checked path carries the batch
/// invariant from `idx` to `idx + 1`.
#[verifier::rlimit(100)]
proof fn lemma_batch_step(
    pre: RoutingTableActor,
    s0: RoutingTableActor,
    s1: RoutingTableActor,
    s2: RoutingTableActor,
    fin: RoutingTableActor,
    edges: Seq<Edge>,
    idx: int,
    acc0: Seq<Edge>,
    acc1: Seq<Edge>,
    was: bool,
    now: u64,
)
    requires
        pre.inv(),
        forall|j: int| 0 <= j < edges.len() ==> (#[trigger] edges[j])@.wf(),
        0 <= idx < edges.len(),
        batch_inv(pre, s0, edges, idx, acc0, now),
        s1.inv(),
        fetch_rel(s0, s1, edges[idx]@.peer0, now),
        s2.inv(),
        fetch_rel(s1, s2, edges[idx]@.peer1, now),
        fin.inv(),
        add_rel(s2, fin, edges[idx]@, was),
        was ==> acc1.len() == acc0.len() + 1 && (forall|t: int|
            0 <= t < acc0.len() ==> acc1[t] == acc0[t]) && acc1[acc0.len() as int]@
            == edges[idx]@,
        !was ==> acc1 == acc0,
    ensures
        batch_inv(pre, fin, edges, idx + 1, acc1, now),
{
    let e = edges[idx]@;
    let p0 = e.peer0;
    let p1 = e.peer1;
    assert(e.wf());
    assert(p0 != p1);
    // nonce monotonicity and per-edge dominance
    assert forall|k: (PeerId, PeerId)| #[trigger]
        nonce_of(fin.edges_info@, k) >= nonce_of(pre.edges_info@, k) by {
        assert(nonce_of(s0.edges_info@, k) >= nonce_of(pre.edges_info@, k));
        assert(nonce_of(s1.edges_info@, k) >= nonce_of(s0.edges_info@, k));
        assert(nonce_of(s2.edges_info@, k) >= nonce_of(s1.edges_info@, k));
        if k != e.key() {
            assert(nonce_of(fin.edges_info@, k) == nonce_of(s2.edges_info@, k));
        }
    }
    assert forall|j: int| 0 <= j < idx + 1 implies nonce_of(
        fin.edges_info@,
        (#[trigger] edges[j])@.key(),
    ) >= edges[j]@.nonce by {
        if j < idx {
            assert(nonce_of(s0.edges_info@, edges[j]@.key()) >= edges[j]@.nonce);
            assert(nonce_of(s1.edges_info@, edges[j]@.key()) >= nonce_of(
                s0.edges_info@,
                edges[j]@.key(),
            ));
            assert(nonce_of(s2.edges_info@, edges[j]@.key()) >= nonce_of(
                s1.edges_info@,
                edges[j]@.key(),
            ));
            if edges[j]@.key() != e.key() {
                assert(nonce_of(fin.edges_info@, edges[j]@.key()) == nonce_of(
                    s2.edges_info@,
                    edges[j]@.key(),
                ));
            }
        }
    }
    // provenance of stored edges
    assert forall|k: (PeerId, PeerId)| #[trigger] fin.edges_info@.dom().contains(k) implies (
    pre.edges_info@.dom().contains(k) && fin.edges_info@[k] == pre.edges_info@[k]) || (exists|
        j: int,
    | 0 <= j < edges.len() && (#[trigger] edges[j])@ == fin.edges_info@[k]) || comps_have_model(
        pre.store.components@,
        fin.edges_info@[k],
    ) by {
        if was && k == e.key() {
            assert(fin.edges_info@[k] == e);
            assert(edges[idx]@ == fin.edges_info@[k]);
        } else {
            assert(s2.edges_info@.dom().contains(k) && fin.edges_info@[k] == s2.edges_info@[k]);
            if s1.edges_info@.dom().contains(k) && s2.edges_info@[k] == s1.edges_info@[k] {
                if s0.edges_info@.dom().contains(k) && s1.edges_info@[k] == s0.edges_info@[k] {
                    if !(pre.edges_info@.dom().contains(k) && s0.edges_info@[k]
                        == pre.edges_info@[k]) && !(exists|j: int|
                        0 <= j < edges.len() && (#[trigger] edges[j])@ == s0.edges_info@[k]) {
                        assert(comps_have_model(pre.store.components@, s0.edges_info@[k]));
                    }
                } else {
                    assert(comps_have_model(s0.store.components@, s1.edges_info@[k]));
                    let (c, jj) = choose|c: u64, jj: int|
                        s0.store.components@.dom().contains(c) && 0 <= jj
                            < s0.store.components@[c].len() && (
                        #[trigger] s0.store.components@[c][jj]) == s1.edges_info@[k];
                    assert(pre.store.components@.dom().contains(c));
                    assert(pre.store.components@[c][jj] == s1.edges_info@[k]);
                    assert(comps_have_model(pre.store.components@, fin.edges_info@[k]));
                }
            } else {
                assert(comps_have_model(s1.store.components@, s2.edges_info@[k]));
                let (c, jj) = choose|c: u64, jj: int|
                    s1.store.components@.dom().contains(c) && 0 <= jj
                        < s1.store.components@[c].len() && (
                    #[trigger] s1.store.components@[c][jj]) == s2.edges_info@[k];
                assert(s0.store.components@.dom().contains(c));
                assert(s0.store.components@[c][jj] == s2.edges_info@[k]);
                assert(pre.store.components@.dom().contains(c));
                assert(pre.store.components@[c][jj] == s2.edges_info@[k]);
                assert(comps_have_model(pre.store.components@, fin.edges_info@[k]));
            }
        }
    }
    // store and tracker monotonicity
    assert forall|c: u64| #[trigger] fin.store.components@.dom().contains(c) implies
        pre.store.components@.dom().contains(c) && fin.store.components@[c]
        == pre.store.components@[c] by {
        assert(s2.store.components@.dom().contains(c) && fin.store.components@[c]
            == s2.store.components@[c]);
        assert(s1.store.components@.dom().contains(c) && s2.store.components@[c]
            == s1.store.components@[c]);
        assert(s0.store.components@.dom().contains(c) && s1.store.components@[c]
            == s0.store.components@[c]);
    }
    assert forall|p: PeerId| #[trigger] fin.store.peer_component@.dom().contains(p) implies
        pre.store.peer_component@.dom().contains(p) && fin.store.peer_component@[p]
        == pre.store.peer_component@[p] by {
        assert(s2.store.peer_component@.dom().contains(p) && fin.store.peer_component@[p]
            == s2.store.peer_component@[p]);
        assert(s1.store.peer_component@.dom().contains(p) && s2.store.peer_component@[p]
            == s1.store.peer_component@[p]);
        assert(s0.store.peer_component@.dom().contains(p) && s1.store.peer_component@[p]
            == s0.store.peer_component@[p]);
    }
    assert forall|p: PeerId| #[trigger] pre.peer_last_time_reachable@.dom().contains(p) implies
        fin.peer_last_time_reachable@.dom().contains(p) && fin.peer_last_time_reachable@[p]
        == pre.peer_last_time_reachable@[p] by {
        assert(s0.peer_last_time_reachable@.dom().contains(p) && s0.peer_last_time_reachable@[p]
            == pre.peer_last_time_reachable@[p]);
        assert(s1.peer_last_time_reachable@.dom().contains(p) && s1.peer_last_time_reachable@[p]
            == s0.peer_last_time_reachable@[p]);
        assert(s2.peer_last_time_reachable@.dom().contains(p) && s2.peer_last_time_reachable@[p]
            == s1.peer_last_time_reachable@[p]);
    }
    // components seen by the second touch are still the entry ones
    assert forall|c2: u64| #[trigger] s1.store.components@.dom().contains(c2) implies
        pre.store.components@.dom().contains(c2) && s1.store.components@[c2]
        == pre.store.components@[c2] by {
        assert(s0.store.components@.dom().contains(c2) && s1.store.components@[c2]
            == s0.store.components@[c2]);
    }
    // nonces of keys outside batch and components stay put
    assert forall|k: (PeerId, PeerId)|
        !comps_have_key(pre.store.components@, k) && !(exists|j: int|
            0 <= j < idx + 1 && (#[trigger] edges[j])@.key() == k) implies #[trigger] nonce_of(
        fin.edges_info@,
        k,
    ) == nonce_of(pre.edges_info@, k) by {
        assert(!(exists|j: int| 0 <= j < idx && (#[trigger] edges[j])@.key() == k)) by {
            if exists|j: int| 0 <= j < idx && (#[trigger] edges[j])@.key() == k {
                let j = choose|j: int| 0 <= j < idx && (#[trigger] edges[j])@.key() == k;
                assert(0 <= j < idx + 1 && edges[j]@.key() == k);
            }
        }
        assert(nonce_of(s0.edges_info@, k) == nonce_of(pre.edges_info@, k));
        lemma_nonce_unchanged_outside_comps(pre, s0, s1, k);
        lemma_nonce_unchanged_outside_comps(pre, s1, s2, k);
        assert(k != e.key()) by {
            if k == e.key() {
                assert(0 <= idx < idx + 1 && edges[idx]@.key() == k);
            }
        }
        assert(nonce_of(fin.edges_info@, k) == nonce_of(s2.edges_info@, k));
    }
    // accepted batch edges whose key nothing else carries are returned
    assert forall|j: int|
        0 <= j < idx + 1 && (#[trigger] edges[j])@.nonce > nonce_of(
            pre.edges_info@,
            edges[j]@.key(),
        ) && !comps_have_key(pre.store.components@, edges[j]@.key()) && (forall|j2: int|
            0 <= j2 < edges.len() && j2 != j ==> (#[trigger] edges[j2])@.key()
                != edges[j]@.key()) implies seq_has_model(models_of(acc1), edges[j]@) by {
        if j < idx {
            assert(seq_has_model(models_of(acc0), edges[j]@));
            let t = choose|t: int|
                0 <= t < models_of(acc0).len() && (#[trigger] models_of(acc0)[t]) == edges[j]@;
            assert(acc0[t]@ == edges[j]@);
            assert(acc1[t]@ == edges[j]@);
            assert(models_of(acc1)[t] == edges[j]@);
        } else {
            let kk = edges[idx]@.key();
            assert(!(exists|j2: int| 0 <= j2 < idx && (#[trigger] edges[j2])@.key() == kk)) by {
                if exists|j2: int| 0 <= j2 < idx && (#[trigger] edges[j2])@.key() == kk {
                    let j2 = choose|j2: int| 0 <= j2 < idx && (#[trigger] edges[j2])@.key() == kk;
                    assert(edges[j2]@.key() != edges[j]@.key());
                    assert(false);
                }
            }
            assert(nonce_of(s0.edges_info@, kk) == nonce_of(pre.edges_info@, kk));
            lemma_nonce_unchanged_outside_comps(pre, s0, s1, kk);
            lemma_nonce_unchanged_outside_comps(pre, s1, s2, kk);
            assert(nonce_of(s2.edges_info@, kk) == nonce_of(pre.edges_info@, kk));
            assert(was);
            assert(acc1[acc0.len() as int]@ == edges[idx]@);
            assert(models_of(acc1)[acc0.len() as int] == edges[idx]@);
        }
    }
    // accepted edges come from the batch
    assert forall|t: int| 0 <= t < acc1.len() implies exists|j: int|
        0 <= j < edges.len() && (#[trigger] acc1[t])@ == edges[j]@ by {
        if t < acc0.len() {
            let j = choose|j: int| 0 <= j < edges.len() && (#[trigger] acc0[t])@ == edges[j]@;
            assert(acc1[t]@ == edges[j]@);
        } else {
            assert(acc1[t]@ == edges[idx]@);
        }
    }
    if pre.spill_inv() {
        assert(s0.spill_inv());
        assert(s1.spill_inv());
        assert(s2.spill_inv());
        // after both touches, the endpoints are local or tracked
        assert(p0 == pre.local() || s1.peer_last_time_reachable@.dom().contains(p0));
        assert(p1 == pre.local() || s2.peer_last_time_reachable@.dom().contains(p1));
        assert(p0 == pre.local() || fin.peer_last_time_reachable@.dom().contains(p0)) by {
            if p0 != pre.local() {
                assert(s2.peer_last_time_reachable@.dom().contains(p0));
            }
        }
        assert(p1 == pre.local() || fin.peer_last_time_reachable@.dom().contains(p1));
        // so the applied edge keeps spill consistency
        assert(fin.spill_inv()) by {
            if p0 == pre.local() {
                assert(!s2.store.peer_component@.dom().contains(p0));
            } else {
                assert(s2.peer_last_time_reachable@.dom().contains(p0));
                assert(!s2.store.peer_component@.dom().contains(p0));
            }
            if p1 == pre.local() {
                assert(!s2.store.peer_component@.dom().contains(p1));
            } else {
                assert(!s2.store.peer_component@.dom().contains(p1));
            }
        }
        assert forall|j: int| 0 <= j < idx + 1 implies ((#[trigger] edges[j])@.peer0
            == pre.local() || fin.peer_last_time_reachable@.dom().contains(edges[j]@.peer0)) && (
        edges[j]@.peer1 == pre.local() || fin.peer_last_time_reachable@.dom().contains(
            edges[j]@.peer1,
        )) by {
            if j < idx {
                if edges[j]@.peer0 != pre.local() {
                    assert(s0.peer_last_time_reachable@.dom().contains(edges[j]@.peer0));
                    assert(s1.peer_last_time_reachable@.dom().contains(edges[j]@.peer0));
                    assert(s2.peer_last_time_reachable@.dom().contains(edges[j]@.peer0));
                }
                if edges[j]@.peer1 != pre.local() {
                    assert(s0.peer_last_time_reachable@.dom().contains(edges[j]@.peer1));
                    assert(s1.peer_last_time_reachable@.dom().contains(edges[j]@.peer1));
                    assert(s2.peer_last_time_reachable@.dom().contains(edges[j]@.peer1));
                }
            }
        }
        // completed restores, carried forward step by step
        assert forall|p: PeerId| #[trigger]
            pre.store.peer_component@.dom().contains(p)
                && !s1.store.peer_component@.dom().contains(p) implies restore_done(
            pre,
            s1,
            pre.store.peer_component@[p],
            now,
        ) by {
            let cp = pre.store.peer_component@[p];
            if !s0.store.peer_component@.dom().contains(p) {
                lemma_restore_done_persists(pre, s0, s1, cp, now);
            } else {
                assert(s0.store.peer_component@[p] == cp);
                assert(p0 != s0.local() && !s0.peer_last_time_reachable@.dom().contains(p0)
                    && s0.store.peer_component@.dom().contains(p0)) by {
                    if p0 == s0.local() || s0.peer_last_time_reachable@.dom().contains(p0) {
                        assert(s1 == s0);
                        assert(false);
                    }
                    if !s0.store.peer_component@.dom().contains(p0) {
                        assert(s1.store == s0.store);
                        assert(false);
                    }
                }
                let cstar = s0.store.peer_component@[p0];
                assert(restore_done(s0, s1, cstar, now));
                assert(s0.store.peer_component@[p] == cstar) by {
                    if s0.store.peer_component@[p] != cstar {
                        assert(s1.store.peer_component@.dom().contains(p));
                        assert(false);
                    }
                }
                assert(cp == cstar);
                assert(s0.store.components@.dom().contains(cstar));
                lemma_lift_restore(pre, s0, s1, cstar, now);
            }
        }
        assert forall|p: PeerId| #[trigger]
            pre.store.peer_component@.dom().contains(p)
                && !fin.store.peer_component@.dom().contains(p) implies restore_done(
            pre,
            fin,
            pre.store.peer_component@[p],
            now,
        ) by {
            let cp = pre.store.peer_component@[p];
            assert(!s2.store.peer_component@.dom().contains(p));
            if !s1.store.peer_component@.dom().contains(p) {
                assert(restore_done(pre, s1, cp, now));
                lemma_restore_done_persists(pre, s1, s2, cp, now);
                lemma_restore_done_persists(pre, s2, fin, cp, now);
            } else {
                assert(s1.store.peer_component@[p] == cp);
                assert(p1 != s1.local() && !s1.peer_last_time_reachable@.dom().contains(p1)
                    && s1.store.peer_component@.dom().contains(p1)) by {
                    if p1 == s1.local() || s1.peer_last_time_reachable@.dom().contains(p1) {
                        assert(s2 == s1);
                        assert(false);
                    }
                    if !s1.store.peer_component@.dom().contains(p1) {
                        assert(s2.store == s1.store);
                        assert(false);
                    }
                }
                let cstar = s1.store.peer_component@[p1];
                assert(restore_done(s1, s2, cstar, now));
                assert(s1.store.peer_component@[p] == cstar) by {
                    if s1.store.peer_component@[p] != cstar {
                        assert(s2.store.peer_component@.dom().contains(p));
                        assert(false);
                    }
                }
                assert(cp == cstar);
                assert(s1.store.components@.dom().contains(cstar));
                assert forall|c2: u64| #[trigger]
                    s1.store.components@.dom().contains(c2) implies
                    pre.store.components@.dom().contains(c2) && s1.store.components@[c2]
                        == pre.store.components@[c2] by {
                    assert(s0.store.components@.dom().contains(c2) && s1.store.components@[c2]
                        == s0.store.components@[c2]);
                }
                assert forall|q: PeerId| #[trigger]
                    s1.store.peer_component@.dom().contains(q) implies
                    pre.store.peer_component@.dom().contains(q) && s1.store.peer_component@[q]
                        == pre.store.peer_component@[q] by {
                    assert(s0.store.peer_component@.dom().contains(q)
                        && s1.store.peer_component@[q] == s0.store.peer_component@[q]);
                }
                lemma_lift_restore(pre, s1, s2, cstar, now);
                lemma_restore_done_persists(pre, s2, fin, cstar, now);
            }
        }
        // peers of the processed prefix are no longer marked spilled
        assert forall|p: PeerId|
            #[trigger] mentioned_upto(models_of(edges), idx + 1, p)
                && pre.store.peer_component@.dom().contains(p) implies
            !fin.store.peer_component@.dom().contains(p) by {
            let j = choose|j: int|
                0 <= j < idx + 1 && ((#[trigger] models_of(edges)[j]).peer0 == p || models_of(
                    edges,
                )[j].peer1 == p);
            if j < idx {
                assert(mentioned_upto(models_of(edges), idx, p));
                assert(!s0.store.peer_component@.dom().contains(p));
                if fin.store.peer_component@.dom().contains(p) {
                    assert(s0.store.peer_component@.dom().contains(p));
                    assert(false);
                }
            } else {
                assert(models_of(edges)[idx] == e);
                assert(p == p0 || p == p1);
                if p == p0 {
                    assert(p0 != pre.local()) by {
                        if p0 == pre.local() {
                            assert(!pre.store.peer_component@.dom().contains(p0));
                        }
                    }
                    assert(s1.peer_last_time_reachable@.dom().contains(p0));
                    assert(s2.peer_last_time_reachable@.dom().contains(p0));
                    assert(!s2.store.peer_component@.dom().contains(p0));
                } else {
                    assert(p1 != pre.local()) by {
                        if p1 == pre.local() {
                            assert(!pre.store.peer_component@.dom().contains(p1));
                        }
                    }
                    assert(s2.peer_last_time_reachable@.dom().contains(p1));
                    assert(!s2.store.peer_component@.dom().contains(p1));
                }
            }
        }
    }
    // a fully stale batch with known endpoints changes nothing
    if all_stale_known(pre, edges) {
        assert(s0.edges_info@ == pre.edges_info@ && s0.store == pre.store
            && s0.peer_last_time_reachable@ == pre.peer_last_time_reachable@);
        assert(p0 == pre.local() || pre.peer_last_time_reachable@.dom().contains(p0));
        assert(p0 == s0.local() || s0.peer_last_time_reachable@.dom().contains(p0));
        assert(s1 == s0);
        assert(p1 == s1.local() || s1.peer_last_time_reachable@.dom().contains(p1));
        assert(s2 == s1);
        assert(e.nonce <= nonce_of(pre.edges_info@, e.key()));
        assert(nonce_of(s2.edges_info@, e.key()) == nonce_of(pre.edges_info@, e.key()));
        assert(!was);
        assert(fin.edges_info@ == pre.edges_info@);
        assert(fin.raw_graph.edge_set() == pre.raw_graph.edge_set());
        assert(fin.store == pre.store);
        assert(fin.peer_last_time_reachable@ == pre.peer_last_time_reachable@);
        assert(acc1.len() == 0);
        assert(fin.needs_routing_table_recalculation
            == pre.needs_routing_table_recalculation);
    }
}

/// The edges of the list that touch `peer`, as owned copies.
fn filter_edges_touching(edges: &Vec<Edge>, peer: PeerId) -> (r: Vec<Edge>)
    ensures
        forall|tt: int|
            0 <= tt < r@.len() ==> edge_from_batch(#[trigger] r@[tt], edges@, peer),
        forall|t2: int|
            0 <= t2 < edges@.len() && (#[trigger] edges@[t2])@.touches(peer) ==> list_has_model(
                r@,
                edges@[t2]@,
            ),
{
    let mut out: Vec<Edge> = Vec::new();
    let mut t: usize = 0;
    while t < edges.len()
        invariant
            t <= edges@.len(),
            forall|tt: int|
                0 <= tt < out@.len() ==> edge_from_batch(#[trigger] out@[tt], edges@, peer),
            forall|t2: int|
                0 <= t2 < t && (#[trigger] edges@[t2])@.touches(peer) ==> list_has_model(
                    out@,
                    edges@[t2]@,
                ),
        decreases edges@.len() - t,
    {
        let ghost out0 = out@;
        let touches = edges[t].contains_peer(peer);
        if touches {
            out.push(edges[t].duplicate());
            proof {
                assert(out@[out0.len() as int]@ == edges@[t as int]@);
            }
        }
        proof {
            assert forall|tt: int| 0 <= tt < out@.len() implies edge_from_batch(
                #[trigger] out@[tt],
                edges@,
                peer,
            ) by {
                if tt < out0.len() {
                    assert(edge_from_batch(out0[tt], edges@, peer));
                    assert(out@[tt] == out0[tt]);
                } else {
                    assert(out@[tt]@ == edges@[t as int]@);
                    assert(edges@[t as int]@.touches(peer));
                }
            }
            assert forall|t2: int|
                0 <= t2 < t + 1 && (#[trigger] edges@[t2])@.touches(peer) implies list_has_model(
                out@,
                edges@[t2]@,
            ) by {
                if t2 < t {
                    assert(list_has_model(out0, edges@[t2]@));
                    let tt = choose|tt: int| 0 <= tt < out0.len() && (#[trigger] out0[tt])@ == edges@[t2]@;
                    assert(out@[tt]@ == edges@[t2]@);
                } else {
                    assert(touches);
                    assert(out@[out0.len() as int]@ == edges@[t as int]@);
                }
            }
        }
        t = t + 1;
    }
    out
}

/// Stamps every peer of the forwarding table as reachable `now`.
fn refresh_tracker_from(tracker: &mut PeerMap, ft: &ForwardingTable, now: u64)
    requires
        old(tracker).inv(),
        ft.inv(),
    ensures
        final(tracker).inv(),
        final(tracker)@ == refreshed_tracker(old(tracker)@, ft@, now),
{
    let ghost tr0 = old(tracker)@;
    let mut t: usize = 0;
    while t < ft.items.len()
        invariant
            tracker.inv(),
            ft.inv(),
            t <= ft.items@.len(),
            forall|p: PeerId|
                #[trigger] tracker@.dom().contains(p) <==> tr0.dom().contains(p) || exists|tt: int|
                    0 <= tt < t && (#[trigger] ft.items@[tt]).0 == p,
            forall|p: PeerId| #[trigger]
                tracker@.dom().contains(p) ==> tracker@[p] == (if exists|tt: int|
                    0 <= tt < t && (#[trigger] ft.items@[tt]).0 == p {
                    now
                } else {
                    tr0[p]
                }),
        decreases ft.items@.len() - t,
    {
        let p = ft.items[t].0;
        let ghost tr_before = tracker@;
        tracker.insert(p, now);
        t = t + 1;
        proof {
            assert(ft.items@[t - 1].0 == p);
            assert forall|q: PeerId|
                #[trigger] tracker@.dom().contains(q) <==> tr0.dom().contains(q) || exists|tt: int|
                    0 <= tt < t && (#[trigger] ft.items@[tt]).0 == q by {
                if q == p {
                    assert(tracker@.dom().contains(q));
                    assert(exists|tt: int| 0 <= tt < t && (#[trigger] ft.items@[tt]).0 == q);
                } else {
                    assert(tracker@.dom().contains(q) == tr_before.dom().contains(q));
                    if exists|tt: int| 0 <= tt < t && (#[trigger] ft.items@[tt]).0 == q {
                        let tt = choose|tt: int|
                            0 <= tt < t && (#[trigger] ft.items@[tt]).0 == q;
                        assert(tt != t - 1);
                        assert(0 <= tt < t - 1 && ft.items@[tt].0 == q);
                    }
                    if exists|tt: int| 0 <= tt < t - 1 && (#[trigger] ft.items@[tt]).0 == q {
                        let tt = choose|tt: int|
                            0 <= tt < t - 1 && (#[trigger] ft.items@[tt]).0 == q;
                        assert(0 <= tt < t && ft.items@[tt].0 == q);
                    }
                }
            }
            assert forall|q: PeerId| #[trigger]
                tracker@.dom().contains(q) implies tracker@[q] == (if exists|tt: int|
                0 <= tt < t && (#[trigger] ft.items@[tt]).0 == q {
                now
            } else {
                tr0[q]
            }) by {
                if q == p {
                    assert(tracker@[q] == now);
                    assert(exists|tt: int| 0 <= tt < t && (#[trigger] ft.items@[tt]).0 == q);
                } else {
                    assert(tracker@[q] == tr_before[q]);
                    assert(tr_before.dom().contains(q));
                    if exists|tt: int| 0 <= tt < t && (#[trigger] ft.items@[tt]).0 == q {
                        let tt = choose|tt: int|
                            0 <= tt < t && (#[trigger] ft.items@[tt]).0 == q;
                        assert(tt != t - 1);
                        assert(0 <= tt < t - 1 && ft.items@[tt].0 == q);
                    }
                    if exists|tt: int| 0 <= tt < t - 1 && (#[trigger] ft.items@[tt]).0 == q {
                        let tt = choose|tt: int|
                            0 <= tt < t - 1 && (#[trigger] ft.items@[tt]).0 == q;
                        assert(0 <= tt < t && ft.items@[tt].0 == q);
                    }
                }
            }
        }
    }
    proof {
        assert forall|p: PeerId| #[trigger] ft@.dom().contains(p) implies exists|tt: int|
            0 <= tt < ft.items@.len() && (#[trigger] ft.items@[tt]).0 == p by {
            let tt = crate::graph::findex(ft.items@, p);
            assert(0 <= tt < ft.items@.len() && ft.items@[tt].0 == p);
        }
        assert forall|p: PeerId|
            (exists|tt: int|
                0 <= tt < ft.items@.len() && (#[trigger] ft.items@[tt]).0 == p) implies #[trigger] ft@.dom().contains(
            p,
        ) by {
            let tt = choose|tt: int|
                0 <= tt < ft.items@.len() && (#[trigger] ft.items@[tt]).0 == p;
            crate::graph::lemma_forward_entry_at(ft.items@, tt);
        }
        assert(tracker@ =~= refreshed_tracker(tr0, ft@, now));
    }
}

/// Maintains the authoritative view of the overlay graph, recomputes
/// next-hop forwarding, and spills long-unreachable components to the
/// store.
pub struct RoutingTableActor {
    /// All known edges, keyed by canonical peer pair.
    pub edges_info: EdgeStore,
    /// Current view of the network: peers and active connections.
    pub raw_graph: Graph,
    /// Peers on the shortest path to each reachable peer.
    pub peer_forwarding: ForwardingTable,
    /// Last time a peer was reachable through active edges.
    pub peer_last_time_reachable: PeerMap,
    /// Model of the store columns holding spilled components.
    pub store: StoreModel,
    /// First component nonce that has not been used yet.
    pub next_available_component_nonce: u64,
    /// True if edges changed and the routing table needs recalculation.
    pub needs_routing_table_recalculation: bool,
}

impl RoutingTableActor {
    /// The local peer, fixed at construction time.
    pub open spec fn local(&self) -> PeerId {
        self.raw_graph.my_peer_id
    }

    /// Structural invariant: representation invariants of every part,
    /// graph consistency (the overlay graph holds exactly the added
    /// edge keys), the local peer neither tracked nor spilled, and
    /// component nonces bounded by the next free one.
    pub open spec fn inv(&self) -> bool {
        &&& self.edges_info.inv()
        &&& self.raw_graph.inv()
        &&& self.peer_forwarding.inv()
        &&& self.peer_last_time_reachable.inv()
        &&& self.store.inv()
        &&& forall|k: (PeerId, PeerId)|
            #[trigger] self.raw_graph.edge_set().contains(k) <==> self.edges_info@.dom().contains(k)
                && self.edges_info@[k].is_added()
        &&& !self.peer_last_time_reachable@.dom().contains(self.local())
        &&& !self.store.peer_component@.dom().contains(self.local())
        &&& forall|c: u64| #[trigger]
            self.store.components@.dom().contains(c) ==> c < self.next_available_component_nonce
                && all_models_wf(self.store.components@[c])
        &&& forall|p: PeerId| #[trigger]
            self.store.peer_component@.dom().contains(p) ==> self.store.peer_component@[p]
                < self.next_available_component_nonce
        &&& match self.store.last_component_nonce {
            Some(v) => v <= self.next_available_component_nonce,
            None => true,
        }
    }

    /// Spill consistency: no peer is both tracked and spilled, no
    /// in-memory edge touches a spilled peer, every spilled peer is
    /// mentioned by its existing component entry, and component
    /// entries' endpoints are owned by that same component or local.
    pub open spec fn spill_inv(&self) -> bool {
        let pc = self.store.peer_component@;
        let tracker = self.peer_last_time_reachable@;
        let comps = self.store.components@;
        &&& forall|p: PeerId| #[trigger] tracker.dom().contains(p) ==> !pc.dom().contains(p)
        &&& forall|k: (PeerId, PeerId)| #[trigger]
            self.edges_info@.dom().contains(k) ==> !pc.dom().contains(k.0) && !pc.dom().contains(
                k.1,
            )
        &&& forall|p: PeerId| #[trigger]
            pc.dom().contains(p) ==> comps.dom().contains(pc[p]) && component_mentions(
                comps[pc[p]],
                p,
            )
        &&& forall|c: u64| #[trigger]
            comps.dom().contains(c) ==> comp_endpoints_owned(pc, self.local(), c, comps[c])
    }

    /// Builds the routing table over an existing store. A store written
    /// by an earlier run satisfying the same consistency conditions
    /// (`store_ready`) yields a consistent table; a fresh empty store
    /// always does.
    pub fn new(my_peer_id: PeerId, store: StoreModel) -> (r: RoutingTableActor)
        requires
            store.inv(),
        ensures
            r.local() == my_peer_id,
            r.edges_info@ == Map::<(PeerId, PeerId), EdgeModel>::empty(),
            r.raw_graph.edge_set() == Set::<(PeerId, PeerId)>::empty(),
            r.peer_forwarding@ == Map::<PeerId, Set<PeerId>>::empty(),
            r.peer_last_time_reachable@ == Map::<PeerId, u64>::empty(),
            r.store == store,
            r.next_available_component_nonce as int == match store.last_component_nonce {
                Some(v) => v as int,
                None => 0int,
            },
            !r.needs_routing_table_recalculation,
            store_ready(&store, my_peer_id) ==> r.inv() && r.spill_inv(),
    {
        let component_nonce: u64 = match store.last_component_nonce {
            Some(v) => v,
            None => 0,
        };
        RoutingTableActor {
            edges_info: EdgeStore::new(),
            raw_graph: Graph::new(my_peer_id),
            peer_forwarding: ForwardingTable::empty(),
            peer_last_time_reachable: PeerMap::new(),
            store,
            next_available_component_nonce: component_nonce,
            needs_routing_table_recalculation: false,
        }
    }

    pub fn my_peer_id(&self) -> (r: PeerId)
        ensures
            r == self.local(),
    {
        self.raw_graph.my_peer_id()
    }

    /// Whether the given nonce is strictly newer than the one stored
    /// for the key.
    pub fn is_edge_newer(&self, key: (PeerId, PeerId), nonce: u64) -> (r: bool)
        requires
            self.inv(),
        ensures
            r == (nonce > nonce_of(self.edges_info@, key)),
    {
        self.edges_info.current_nonce(key) < nonce
    }

    /// A copy of the stored edge between two peers, if any.
    pub fn get_edge(&self, peer0: PeerId, peer1: PeerId) -> (r: Option<Edge>)
        requires
            self.inv(),
        ensures
            match r {
                Some(e) => self.edges_info@.dom().contains(Edge::key_spec(peer0, peer1)) && e@
                    == self.edges_info@[Edge::key_spec(peer0, peer1)],
                None => !self.edges_info@.dom().contains(Edge::key_spec(peer0, peer1)),
            },
    {
        let key = Edge::key(peer0, peer1);
        self.edges_info.get(key)
    }

    /// Removes the edge's key from the edge store and, when it was
    /// present, from the overlay graph, marking the table dirty.
    pub fn remove_edge(&mut self, edge: &Edge)
        requires
            old(self).inv(),
            edge@.wf(),
        ensures
            final(self).inv(),
            old(self).spill_inv() ==> final(self).spill_inv(),
            final(self).edges_info@ == old(self).edges_info@.remove(edge@.key()),
            final(self).raw_graph.edge_set() == old(self).raw_graph.edge_set().remove(edge@.key()),
            final(self).local() == old(self).local(),
            final(self).peer_forwarding == old(self).peer_forwarding,
            final(self).peer_last_time_reachable == old(self).peer_last_time_reachable,
            final(self).store == old(self).store,
            final(self).next_available_component_nonce == old(self).next_available_component_nonce,
            final(self).needs_routing_table_recalculation == (old(self).needs_routing_table_recalculation || old(self).edges_info@.dom().contains(
                edge@.key(),
            )),
    {
        let key = edge.get_pair();
        let ghost m0 = self.edges_info@;
        let ghost g0 = self.raw_graph.edge_set();
        if self.edges_info.remove(key) {
            self.raw_graph.remove_edge(key.0, key.1);
            self.needs_routing_table_recalculation = true;
            proof {
                assert(Edge::key_spec(key.0, key.1) == key);
            }
        } else {
            proof {
                assert(!g0.contains(key));
                assert(self.raw_graph.edge_set() =~= g0.remove(key));
            }
        }
        proof {
            assert forall|k: (PeerId, PeerId)|
                #[trigger] self.raw_graph.edge_set().contains(k) <==> self.edges_info@.dom().contains(
                    k,
                ) && self.edges_info@[k].is_added() by {
                if k != key {
                    assert(g0.contains(k) <==> m0.dom().contains(k) && m0[k].is_added());
                }
            }
        }
    }

    /// Removes a batch of edges.
    pub fn remove_edges(&mut self, edges: &Vec<Edge>)
        requires
            old(self).inv(),
            forall|j: int| 0 <= j < edges@.len() ==> (#[trigger] edges@[j])@.wf(),
        ensures
            final(self).inv(),
            old(self).spill_inv() ==> final(self).spill_inv(),
            final(self).edges_info@ == old(self).edges_info@.remove_keys(edge_key_set(edges@)),
            final(self).raw_graph.edge_set() == old(self).raw_graph.edge_set().difference(
                edge_key_set(edges@),
            ),
            final(self).local() == old(self).local(),
            final(self).peer_forwarding == old(self).peer_forwarding,
            final(self).peer_last_time_reachable == old(self).peer_last_time_reachable,
            final(self).store == old(self).store,
            final(self).next_available_component_nonce == old(self).next_available_component_nonce,
            final(self).needs_routing_table_recalculation == (old(self).needs_routing_table_recalculation || exists|j: int|
                0 <= j < edges@.len() && old(self).edges_info@.dom().contains(
                    (#[trigger] edges@[j])@.key(),
                )),
    {
        let mut i: usize = 0;
        while i < edges.len()
            invariant
                self.inv(),
                old(self).inv(),
                i <= edges@.len(),
                forall|j: int| 0 <= j < edges@.len() ==> (#[trigger] edges@[j])@.wf(),
                old(self).spill_inv() ==> self.spill_inv(),
                self.edges_info@ == old(self).edges_info@.remove_keys(
                    edge_key_set(edges@.subrange(0, i as int)),
                ),
                self.raw_graph.edge_set() == old(self).raw_graph.edge_set().difference(
                    edge_key_set(edges@.subrange(0, i as int)),
                ),
                self.local() == old(self).local(),
                self.peer_forwarding == old(self).peer_forwarding,
                self.peer_last_time_reachable == old(self).peer_last_time_reachable,
                self.store == old(self).store,
                self.next_available_component_nonce == old(self).next_available_component_nonce,
                self.needs_routing_table_recalculation == (old(self).needs_routing_table_recalculation || exists|j: int|
                    0 <= j < i && old(self).edges_info@.dom().contains(
                        (#[trigger] edges@[j])@.key(),
                    )),
            decreases edges@.len() - i,
        {
            let ghost pre = edge_key_set(edges@.subrange(0, i as int));
            let ghost post = edge_key_set(edges@.subrange(0, i as int + 1));
            let ghost key = edges@[i as int]@.key();
            let ghost m_before = self.edges_info@;
            let ghost dirty_before = self.needs_routing_table_recalculation;
            proof {
                assert forall|k: (PeerId, PeerId)| #[trigger]
                    post.contains(k) implies pre.contains(k) || k == key by {
                    let j = choose|j: int|
                        0 <= j < edges@.subrange(0, i as int + 1).len() && (#[trigger] edges@.subrange(
                            0,
                            i as int + 1,
                        )[j])@.key() == k;
                    if j < i as int {
                        assert(edges@.subrange(0, i as int)[j]@.key() == k);
                    } else {
                        assert(edges@.subrange(0, i as int + 1)[j] == edges@[i as int]);
                    }
                }
                assert forall|k: (PeerId, PeerId)|
                    pre.contains(k) || k == key implies #[trigger] post.contains(k) by {
                    if pre.contains(k) {
                        let j = choose|j: int|
                            0 <= j < edges@.subrange(0, i as int).len() && (#[trigger] edges@.subrange(
                                0,
                                i as int,
                            )[j])@.key() == k;
                        assert(edges@.subrange(0, i as int + 1)[j] == edges@.subrange(
                            0,
                            i as int,
                        )[j]);
                    } else {
                        assert(edges@.subrange(0, i as int + 1)[i as int] == edges@[i as int]);
                    }
                }
            }
            let e_i = &edges[i];
            self.remove_edge(e_i);
            proof {
                assert(self.edges_info@ =~= old(self).edges_info@.remove_keys(post));
                assert(self.raw_graph.edge_set() =~= old(self).raw_graph.edge_set().difference(
                    post,
                ));
                if m_before.dom().contains(key) {
                    assert(old(self).edges_info@.dom().contains(key));
                    assert(self.needs_routing_table_recalculation);
                }
                if !dirty_before && self.needs_routing_table_recalculation {
                    assert(old(self).edges_info@.dom().contains(edges@[i as int]@.key()));
                }
                if dirty_before {
                    assert(self.needs_routing_table_recalculation);
                }
                if !self.needs_routing_table_recalculation {
                    assert(!m_before.dom().contains(key));
                    assert forall|j: int|
                        0 <= j < i + 1 implies !old(self).edges_info@.dom().contains(
                        (#[trigger] edges@[j])@.key(),
                    ) by {
                        if j == i {
                            if old(self).edges_info@.dom().contains(key) {
                                assert(post.contains(key));
                                assert(!pre.contains(key) ==> m_before.dom().contains(key));
                            }
                        }
                    }
                }
            }
            i = i + 1;
        }
        proof {
            assert(edges@.subrange(0, edges@.len() as int) =~= edges@);
        }
    }

    /// Applies one verified edge: accepted iff its nonce strictly
    /// exceeds the stored one; on acceptance the graph follows the
    /// edge's kind and the table is marked dirty.
    fn add_verified_edge(&mut self, edge: Edge) -> (r: bool)
        requires
            old(self).inv(),
            edge@.wf(),
        ensures
            final(self).inv(),
            add_rel(*old(self), *final(self), edge@, r),
    {
        let key = edge.get_pair();
        let nonce = edge.nonce;
        let ghost m0 = self.edges_info@;
        let ghost g0 = self.raw_graph.edge_set();
        if !self.is_edge_newer(key, nonce) {
            false
        } else {
            self.needs_routing_table_recalculation = true;
            let ghost added = edge@.is_added();
            match edge.edge_type() {
                crate::edge::EdgeKind::Added => {
                    self.raw_graph.add_edge(key.0, key.1);
                },
                crate::edge::EdgeKind::Removed => {
                    self.raw_graph.remove_edge(key.0, key.1);
                },
            }
            proof {
                assert(Edge::key_spec(key.0, key.1) == key);
            }
            self.edges_info.upsert(edge);
            proof {
                let m1 = self.edges_info@;
                let g1 = self.raw_graph.edge_set();
                assert(m1 == m0.insert(key, edge@));
                assert forall|k: (PeerId, PeerId)|
                    #[trigger] g1.contains(k) <==> m1.dom().contains(k) && m1[k].is_added() by {
                    if k != key {
                        assert(g0.contains(k) <==> m0.dom().contains(k) && m0[k].is_added());
                    }
                }
                if old(self).spill_inv() && !old(self).store.peer_component@.dom().contains(
                    edge@.peer0,
                ) && !old(self).store.peer_component@.dom().contains(edge@.peer1) {
                    let pc = self.store.peer_component@;
                    assert forall|k: (PeerId, PeerId)| #[trigger]
                        self.edges_info@.dom().contains(k) implies !pc.dom().contains(k.0)
                        && !pc.dom().contains(k.1) by {
                        if k != key {
                            assert(m0.dom().contains(k));
                        }
                    }
                }
            }
            true
        }
    }

    /// Marks one endpoint of a restored edge reachable again: a peer
    /// owned by the component being restored is tracked with the
    /// backdated timestamp and dropped from the spilled-peer column;
    /// any other peer is left alone.
    fn restore_endpoint(&mut self, q: PeerId, c: u64, back: u64)
        requires
            old(self).inv(),
        ensures
            final(self).inv(),
            final(self).edges_info == old(self).edges_info,
            final(self).raw_graph == old(self).raw_graph,
            final(self).peer_forwarding == old(self).peer_forwarding,
            final(self).store.components == old(self).store.components,
            final(self).store.last_component_nonce == old(self).store.last_component_nonce,
            final(self).next_available_component_nonce == old(self).next_available_component_nonce,
            final(self).needs_routing_table_recalculation == old(self).needs_routing_table_recalculation,
            (q == old(self).local() || old(self).peer_last_time_reachable@.dom().contains(q) || !old(self).store.peer_component@.dom().contains(q) || old(self).store.peer_component@[q] != c)
                ==> final(self).peer_last_time_reachable == old(self).peer_last_time_reachable
                && final(self).store.peer_component == old(self).store.peer_component,
            (q != old(self).local() && !old(self).peer_last_time_reachable@.dom().contains(q) && old(self).store.peer_component@.dom().contains(q) && old(self).store.peer_component@[q] == c)
                ==> final(self).peer_last_time_reachable@ == old(self).peer_last_time_reachable@.insert(q, back) && final(self).store.peer_component@ == old(self).store.peer_component@.remove(q),
    {
        if q == self.my_peer_id() {
            return ;
        }
        if self.peer_last_time_reachable.contains(q) {
            return ;
        }
        match self.store.peer_component.get(q) {
            Some(cur) => {
                if cur == c {
                    self.peer_last_time_reachable.insert(q, back);
                    self.store.peer_component.remove(q);
                }
            },
            None => {},
        }
    }

    /// Restore-on-touch: when a peer that is neither local nor tracked
    /// is mentioned, its owning component (if any) is fetched from the
    /// store, deleted there, its members marked reachable with a
    /// backdated timestamp, and its edges re-applied through the
    /// nonce-checked path; a peer spilled nowhere is simply tracked
    /// as of `now`.
    fn fetch_edges_for_peer_from_disk(&mut self, other_peer_id: PeerId, now: u64)
        requires
            old(self).inv(),
        ensures
            final(self).inv(),
            fetch_rel(*old(self), *final(self), other_peer_id, now),
    {
        if other_peer_id == self.my_peer_id() {
            return ;
        }
        if self.peer_last_time_reachable.contains(other_peer_id) {
            return ;
        }
        let component_nonce_opt = self.store.peer_component.get(other_peer_id);
        match component_nonce_opt {
            None => {
                self.peer_last_time_reachable.insert(other_peer_id, now);
            },
            Some(component_nonce) => {
                let edges_opt = self.store.components.get_and_remove(component_nonce);
                match edges_opt {
                    None => {
                        proof {
                            if old(self).spill_inv() {
                                assert(old(self).store.components@.dom().contains(component_nonce));
                                assert(false);
                            }
                        }
                    },
                    Some(edges) => {
                        let back: u64 = if now >= SAVE_PEERS_MAX_TIME {
                            now - SAVE_PEERS_MAX_TIME
                        } else {
                            0
                        };
                        let ghost pre = *old(self);
                        let ghost cc = component_nonce;
                        let ghost ee = models_of(edges@);
                        proof {
                            assert(ee == pre.store.components@[cc]);
                            assert(self.store.components@ == pre.store.components@.remove(cc));
                        }
                        let mut idx: usize = 0;
                        while idx < edges.len()
                            invariant
                                self.inv(),
                                pre.inv(),
                                idx <= edges@.len(),
                                cc == component_nonce,
                                models_of(edges@) == ee,
                                pre.store.components@.dom().contains(cc),
                                pre.store.components@[cc] == ee,
                                all_models_wf(ee),
                                pre.store.peer_component@.dom().contains(other_peer_id),
                                pre.store.peer_component@[other_peer_id] == cc,
                                !pre.peer_last_time_reachable@.dom().contains(other_peer_id),
                                other_peer_id != pre.local(),
                                self.local() == pre.local(),
                                self.peer_forwarding == pre.peer_forwarding,
                                self.next_available_component_nonce
                                    == pre.next_available_component_nonce,
                                self.store.last_component_nonce == pre.store.last_component_nonce,
                                pre.needs_routing_table_recalculation
                                    ==> self.needs_routing_table_recalculation,
                                self.store.components@ == pre.store.components@.remove(cc),
                                forall|p: PeerId| #[trigger]
                                    self.store.peer_component@.dom().contains(p)
                                        ==> pre.store.peer_component@.dom().contains(p)
                                        && self.store.peer_component@[p]
                                        == pre.store.peer_component@[p],
                                forall|p: PeerId| #[trigger]
                                    pre.peer_last_time_reachable@.dom().contains(p)
                                        ==> self.peer_last_time_reachable@.dom().contains(p)
                                        && self.peer_last_time_reachable@[p]
                                        == pre.peer_last_time_reachable@[p],
                                forall|k: (PeerId, PeerId)| #[trigger]
                                    nonce_of(self.edges_info@, k) >= nonce_of(pre.edges_info@, k),
                                forall|k: (PeerId, PeerId)| #[trigger]
                                    self.edges_info@.dom().contains(k) ==> (
                                    pre.edges_info@.dom().contains(k) && self.edges_info@[k]
                                        == pre.edges_info@[k]) || exists|j: int|
                                        0 <= j < idx && #[trigger] ee[j] == self.edges_info@[k],
                                forall|j: int|
                                    0 <= j < idx ==> nonce_of(
                                        self.edges_info@,
                                        (#[trigger] ee[j]).key(),
                                    ) >= ee[j].nonce,
                                pre.spill_inv() ==> forall|p: PeerId| #[trigger]
                                    self.store.peer_component@.dom().contains(p)
                                        <==> pre.store.peer_component@.dom().contains(p) && (
                                    pre.store.peer_component@[p] != cc || !mentioned_upto(
                                        ee,
                                        idx as int,
                                        p,
                                    )),
                                pre.spill_inv() ==> forall|p: PeerId| #[trigger]
                                    self.peer_last_time_reachable@.dom().contains(p)
                                        <==> pre.peer_last_time_reachable@.dom().contains(p) || (
                                    pre.store.peer_component@.dom().contains(p)
                                        && pre.store.peer_component@[p] == cc && mentioned_upto(
                                        ee,
                                        idx as int,
                                        p,
                                    )),
                                pre.spill_inv() ==> forall|p: PeerId| #[trigger]
                                    self.peer_last_time_reachable@.dom().contains(p)
                                        && !pre.peer_last_time_reachable@.dom().contains(p)
                                        ==> self.peer_last_time_reachable@[p] == back,
                                pre.spill_inv() ==> forall|k: (PeerId, PeerId)| #[trigger]
                                    self.edges_info@.dom().contains(k)
                                        ==> !self.store.peer_component@.dom().contains(k.0)
                                        && !self.store.peer_component@.dom().contains(k.1),
                            decreases edges@.len() - idx,
                        {
                            let p0 = edges[idx].peer0;
                            let p1 = edges[idx].peer1;
                            let ghost snap0 = *self;
                            proof {
                                assert(ee[idx as int] == edges@[idx as int]@);
                            }
                            self.restore_endpoint(p0, component_nonce, back);
                            let ghost snap1 = *self;
                            self.restore_endpoint(p1, component_nonce, back);
                            let ghost snap2 = *self;
                            let e_copy = edges[idx].duplicate();
                            proof {
                                assert(e_copy@ == ee[idx as int]);
                                assert(e_copy@.wf());
                            }
                            self.add_verified_edge(e_copy);
                            proof {
                                let m = ee[idx as int];
                                assert(self.store.peer_component == snap2.store.peer_component);
                                assert(self.peer_last_time_reachable
                                    == snap2.peer_last_time_reachable);
                                assert forall|k: (PeerId, PeerId)| #[trigger]
                                    self.edges_info@.dom().contains(k) implies (
                                pre.edges_info@.dom().contains(k) && self.edges_info@[k]
                                    == pre.edges_info@[k]) || exists|j: int|
                                    0 <= j < idx + 1 && #[trigger] ee[j] == self.edges_info@[k] by {
                                    if k == m.key() && self.edges_info@[k] == m {
                                        assert(ee[idx as int] == m);
                                    } else {
                                        assert(snap2.edges_info@.dom().contains(k)
                                            && self.edges_info@[k] == snap2.edges_info@[k]);
                                        if !(pre.edges_info@.dom().contains(k)
                                            && snap2.edges_info@[k] == pre.edges_info@[k]) {
                                            let j = choose|j: int|
                                                0 <= j < idx && #[trigger] ee[j]
                                                    == snap2.edges_info@[k];
                                            assert(0 <= j < idx + 1 && ee[j]
                                                == self.edges_info@[k]);
                                        }
                                    }
                                }
                                assert forall|j: int| 0 <= j < idx + 1 implies nonce_of(
                                    self.edges_info@,
                                    (#[trigger] ee[j]).key(),
                                ) >= ee[j].nonce by {
                                    if j < idx {
                                        assert(nonce_of(snap2.edges_info@, ee[j].key())
                                            >= ee[j].nonce);
                                        assert(nonce_of(self.edges_info@, ee[j].key()) >= nonce_of(
                                            snap2.edges_info@,
                                            ee[j].key(),
                                        ));
                                    }
                                }
                                if pre.spill_inv() {
                                    assert(edge_endpoints_owned(
                                        pre.store.peer_component@,
                                        pre.local(),
                                        cc,
                                        m,
                                    )) by {
                                        assert(comp_endpoints_owned(
                                            pre.store.peer_component@,
                                            pre.local(),
                                            cc,
                                            ee,
                                        ));
                                    }
                                    let pc0 = snap0.store.peer_component@;
                                    let pc1 = snap1.store.peer_component@;
                                    let pc2 = snap2.store.peer_component@;
                                    let tr0 = snap0.peer_last_time_reachable@;
                                    let tr1 = snap1.peer_last_time_reachable@;
                                    let tr2 = snap2.peer_last_time_reachable@;
                                    let ghost changed0 = p0 != pre.local() && !tr0.dom().contains(
                                        p0,
                                    ) && pc0.dom().contains(p0) && pc0[p0] == cc;
                                    let ghost changed1 = p1 != pre.local() && !tr1.dom().contains(
                                        p1,
                                    ) && pc1.dom().contains(p1) && pc1[p1] == cc;
                                    assert(snap0.local() == pre.local());
                                    assert(snap1.local() == pre.local());
                                    if changed0 {
                                        assert(p0 != snap0.local());
                                        assert(!snap0.peer_last_time_reachable@.dom().contains(p0));
                                        assert(snap0.store.peer_component@.dom().contains(p0));
                                        assert(snap0.store.peer_component@[p0] == cc);
                                        assert(pc1 == pc0.remove(p0));
                                        assert(tr1 == tr0.insert(p0, back));
                                    } else {
                                        assert(pc1 == pc0 && tr1 == tr0);
                                    }
                                    if changed1 {
                                        assert(pc2 == pc1.remove(p1));
                                        assert(tr2 == tr1.insert(p1, back));
                                    } else {
                                        assert(pc2 == pc1 && tr2 == tr1);
                                    }
                                    assert(p0 != p1) by {
                                        assert(m.wf());
                                    }
                                    assert(mentioned_upto(ee, idx + 1, p0)) by {
                                        assert(ee[idx as int].peer0 == p0);
                                    }
                                    assert(mentioned_upto(ee, idx + 1, p1)) by {
                                        assert(ee[idx as int].peer1 == p1);
                                    }
                                    assert forall|p: PeerId| p != p0 && p != p1 implies (
                                    mentioned_upto(ee, idx + 1, p) == mentioned_upto(
                                        ee,
                                        idx as int,
                                        p,
                                    )) by {
                                        if mentioned_upto(ee, idx + 1, p) {
                                            let j = choose|j: int|
                                                0 <= j < idx + 1 && ((#[trigger] ee[j]).peer0 == p
                                                    || ee[j].peer1 == p);
                                            assert(j != idx as int);
                                        }
                                    }
                                    assert forall|p: PeerId| #[trigger]
                                        pc2.dom().contains(p)
                                            <==> pre.store.peer_component@.dom().contains(p) && (
                                    pre.store.peer_component@[p] != cc || !mentioned_upto(
                                        ee,
                                        idx + 1,
                                        p,
                                    )) by {
                                        if p == p0 || p == p1 {
                                            if !pre.store.peer_component@.dom().contains(p) {
                                                assert(!pc0.dom().contains(p));
                                                assert(!pc1.dom().contains(p));
                                                assert(!pc2.dom().contains(p));
                                            } else if pre.store.peer_component@[p] == cc {
                                                if mentioned_upto(ee, idx as int, p) {
                                                    assert(!pc0.dom().contains(p));
                                                    assert(!pc1.dom().contains(p));
                                                    assert(!pc2.dom().contains(p));
                                                } else {
                                                    assert(!mentioned_upto(ee, idx as int, p));
                                                    assert(pc0.dom().contains(p)
                                                        <==> pre.store.peer_component@.dom().contains(
                                                        p,
                                                    ) && (pre.store.peer_component@[p] != cc
                                                        || !mentioned_upto(ee, idx as int, p)));
                                                    assert(pc0.dom().contains(p));
                                                    assert(pc0[p] == pre.store.peer_component@[p]);
                                                    assert(pc0[p] == cc);
                                                    assert(!pre.peer_last_time_reachable@.dom().contains(
                                                        p,
                                                    ));
                                                    assert(!tr0.dom().contains(p));
                                                    assert(p != pre.local());
                                                    if p == p0 {
                                                        assert(changed0);
                                                        assert(!pc1.dom().contains(p));
                                                        assert(!pc2.dom().contains(p));
                                                    } else {
                                                        assert(pc1.dom().contains(p) && pc1[p]
                                                            == cc);
                                                        assert(!tr1.dom().contains(p));
                                                        assert(changed1);
                                                        assert(!pc2.dom().contains(p));
                                                    }
                                                }
                                            } else {
                                                assert(pc0.dom().contains(p) && pc0[p] != cc);
                                                assert(pc1.dom().contains(p) && pc1[p] != cc);
                                                assert(pc2.dom().contains(p) && pc2[p] != cc);
                                            }
                                        } else {
                                            assert(pc2.dom().contains(p) == pc0.dom().contains(p));
                                        }
                                    }
                                    assert forall|p: PeerId| #[trigger]
                                        tr2.dom().contains(p)
                                            <==> pre.peer_last_time_reachable@.dom().contains(p)
                                            || (pre.store.peer_component@.dom().contains(p)
                                            && pre.store.peer_component@[p] == cc && mentioned_upto(
                                            ee,
                                            idx + 1,
                                            p,
                                        )) by {
                                        if p == p0 || p == p1 {
                                            if tr0.dom().contains(p) {
                                                assert(tr1.dom().contains(p));
                                                assert(tr2.dom().contains(p));
                                            } else if pre.store.peer_component@.dom().contains(p)
                                                && pre.store.peer_component@[p] == cc {
                                                assert(!mentioned_upto(ee, idx as int, p));
                                                assert(pc0.dom().contains(p) && pc0[p] == cc);
                                                assert(p != pre.local());
                                                if p == p0 {
                                                    assert(changed0);
                                                    assert(tr1.dom().contains(p));
                                                    assert(tr2.dom().contains(p));
                                                } else {
                                                    assert(!tr1.dom().contains(p));
                                                    assert(pc1.dom().contains(p) && pc1[p] == cc);
                                                    assert(changed1);
                                                    assert(tr2.dom().contains(p));
                                                }
                                            } else {
                                                assert(!tr0.dom().contains(p));
                                                if p == p0 {
                                                    assert(!changed0);
                                                    assert(!tr1.dom().contains(p));
                                                    if p1 != p {
                                                        assert(tr2.dom().contains(p)
                                                            == tr1.dom().contains(p));
                                                    }
                                                } else {
                                                    assert(tr1.dom().contains(p)
                                                        == tr0.dom().contains(p));
                                                    assert(!tr1.dom().contains(p));
                                                    if pc1.dom().contains(p) {
                                                        assert(pc0.dom().contains(p));
                                                        assert(pre.store.peer_component@.dom().contains(
                                                            p,
                                                        ));
                                                        assert(pc1[p] == pc0[p]
                                                            && pc0[p] == pre.store.peer_component@[p]);
                                                        assert(pc1[p] != cc);
                                                    }
                                                    assert(!changed1);
                                                    assert(!tr2.dom().contains(p));
                                                }
                                            }
                                        } else {
                                            assert(tr2.dom().contains(p) == tr0.dom().contains(p));
                                        }
                                    }
                                    assert forall|p: PeerId| #[trigger]
                                        tr2.dom().contains(p)
                                            && !pre.peer_last_time_reachable@.dom().contains(
                                            p,
                                        ) implies tr2[p] == back by {
                                        if tr0.dom().contains(p) {
                                            assert(tr0[p] == back);
                                            if changed0 && p == p0 {
                                                assert(false);
                                            }
                                            assert(tr1[p] == tr0[p]);
                                            if changed1 && p == p1 {
                                                assert(false);
                                            }
                                            assert(tr2[p] == tr1[p]);
                                        } else if p == p0 {
                                            if changed0 {
                                                assert(tr1[p] == back);
                                                assert(p != p1);
                                                assert(tr2[p] == tr1[p]);
                                            } else {
                                                assert(!tr1.dom().contains(p));
                                                if changed1 {
                                                    assert(p != p1);
                                                    assert(!tr2.dom().contains(p));
                                                    assert(false);
                                                } else {
                                                    assert(false);
                                                }
                                            }
                                        } else if p == p1 {
                                            assert(!tr1.dom().contains(p)) by {
                                                if tr1.dom().contains(p) {
                                                    assert(changed0 && p == p0);
                                                    assert(false);
                                                }
                                            }
                                            assert(changed1);
                                            assert(tr2[p] == back);
                                        } else {
                                            assert(tr1.dom().contains(p) == tr0.dom().contains(p));
                                            assert(tr2.dom().contains(p) == tr1.dom().contains(p));
                                            assert(false);
                                        }
                                    }
                                    assert forall|k: (PeerId, PeerId)| #[trigger]
                                        self.edges_info@.dom().contains(k) implies
                                        !self.store.peer_component@.dom().contains(k.0)
                                        && !self.store.peer_component@.dom().contains(k.1) by {
                                        if k == m.key() {
                                            assert(m.peer0 == pre.local() || (
                                            pre.store.peer_component@.dom().contains(m.peer0)
                                                && pre.store.peer_component@[m.peer0] == cc));
                                            assert(m.peer1 == pre.local() || (
                                            pre.store.peer_component@.dom().contains(m.peer1)
                                                && pre.store.peer_component@[m.peer1] == cc));
                                            assert(mentioned_upto(ee, idx + 1, m.peer0)) by {
                                                assert(ee[idx as int].peer0 == m.peer0);
                                            }
                                            assert(mentioned_upto(ee, idx + 1, m.peer1)) by {
                                                assert(ee[idx as int].peer1 == m.peer1);
                                            }
                                            assert(!self.store.peer_component@.dom().contains(
                                                pre.local(),
                                            ));
                                        } else {
                                            assert(snap2.edges_info@.dom().contains(k));
                                        }
                                    }
                                }
                            }
                            idx = idx + 1;
                        }
                        proof {
                            if pre.spill_inv() {
                                assert(component_mentions(ee, other_peer_id));
                                assert(mentioned_upto(ee, ee.len() as int, other_peer_id)) by {
                                    let j = choose|j: int|
                                        0 <= j < ee.len() && ((#[trigger] ee[j]).peer0
                                            == other_peer_id || ee[j].peer1 == other_peer_id);
                                    assert(0 <= j < ee.len() && (ee[j].peer0 == other_peer_id
                                        || ee[j].peer1 == other_peer_id));
                                }
                                assert(self.peer_last_time_reachable@.dom().contains(
                                    other_peer_id,
                                ));
                                assert(back == backdated(now));
                                assert(restore_done(pre, *self, cc, now)) by {
                                    assert forall|p: PeerId| #[trigger]
                                        pre.store.peer_component@.dom().contains(p)
                                            && pre.store.peer_component@[p] == cc implies
                                        self.peer_last_time_reachable@.dom().contains(p)
                                        && self.peer_last_time_reachable@[p] == backdated(now)
                                        && !self.store.peer_component@.dom().contains(p) by {
                                        assert(!pre.peer_last_time_reachable@.dom().contains(p));
                                        assert(component_mentions(ee, p));
                                        assert(mentioned_upto(ee, ee.len() as int, p)) by {
                                            let j = choose|j: int|
                                                0 <= j < ee.len() && ((#[trigger] ee[j]).peer0 == p
                                                    || ee[j].peer1 == p);
                                            assert(0 <= j < ee.len() && (ee[j].peer0 == p
                                                || ee[j].peer1 == p));
                                        }
                                        assert(self.peer_last_time_reachable@.dom().contains(p));
                                        assert(self.peer_last_time_reachable@[p] == back);
                                    }
                                }
                                assert(self.spill_inv()) by {
                                    assert forall|p: PeerId| #[trigger]
                                        self.peer_last_time_reachable@.dom().contains(p) implies
                                        !self.store.peer_component@.dom().contains(p) by {
                                        if pre.peer_last_time_reachable@.dom().contains(p) {
                                            assert(!pre.store.peer_component@.dom().contains(p));
                                        }
                                    }
                                    assert forall|p: PeerId| #[trigger]
                                        self.store.peer_component@.dom().contains(p) implies
                                        self.store.components@.dom().contains(
                                            self.store.peer_component@[p],
                                        ) && component_mentions(
                                            self.store.components@[self.store.peer_component@[p]],
                                            p,
                                        ) by {
                                        assert(pre.store.peer_component@.dom().contains(p));
                                        assert(pre.store.peer_component@[p] != cc);
                                    }
                                    assert forall|c2: u64| #[trigger]
                                        self.store.components@.dom().contains(c2) implies
                                        comp_endpoints_owned(
                                            self.store.peer_component@,
                                            self.local(),
                                            c2,
                                            self.store.components@[c2],
                                        ) by {
                                        assert(c2 != cc);
                                        assert(pre.store.components@.dom().contains(c2));
                                        assert(comp_endpoints_owned(
                                            pre.store.peer_component@,
                                            pre.local(),
                                            c2,
                                            pre.store.components@[c2],
                                        ));
                                        assert forall|j: int|
                                            0 <= j < self.store.components@[c2].len() implies
                                            edge_endpoints_owned(
                                                self.store.peer_component@,
                                                self.local(),
                                                c2,
                                                #[trigger] self.store.components@[c2][j],
                                            ) by {
                                            let m2 = self.store.components@[c2][j];
                                            assert(edge_endpoints_owned(
                                                pre.store.peer_component@,
                                                pre.local(),
                                                c2,
                                                m2,
                                            ));
                                            if m2.peer0 != pre.local() {
                                                assert(pre.store.peer_component@[m2.peer0] == c2);
                                                assert(self.store.peer_component@.dom().contains(
                                                    m2.peer0,
                                                ));
                                            }
                                            if m2.peer1 != pre.local() {
                                                assert(pre.store.peer_component@[m2.peer1] == c2);
                                                assert(self.store.peer_component@.dom().contains(
                                                    m2.peer1,
                                                ));
                                            }
                                        }
                                    }
                                }
                            }
                            assert forall|k: (PeerId, PeerId)| #[trigger]
                                self.edges_info@.dom().contains(k) implies (
                            pre.edges_info@.dom().contains(k) && self.edges_info@[k]
                                == pre.edges_info@[k]) || comps_have_model(
                                pre.store.components@,
                                self.edges_info@[k],
                            ) by {
                                if !(pre.edges_info@.dom().contains(k) && self.edges_info@[k]
                                    == pre.edges_info@[k]) {
                                    let j = choose|j: int|
                                        0 <= j <= edges@.len() && 0 <= j < edges@.len()
                                            && #[trigger] ee[j] == self.edges_info@[k];
                                    assert(pre.store.components@[cc][j] == self.edges_info@[k]);
                                }
                            }
                        }
                    },
                }
            },
        }
    }

    /// Prune-and-spill: selects every tracked peer unreachable for at
    /// least `window` and, unless the hysteresis guard stops an
    /// unforced pass, spills their incident edges as one freshly
    /// numbered component. Returns the evicted edges; the caller
    /// removes them from the edge store and overlay graph.
    fn prune_unreachable_edges_and_save_to_db(
        &mut self,
        force_pruning: bool,
        window: u64,
        now: u64,
    ) -> (r: Vec<Edge>)
        requires
            old(self).inv(),
            old(self).next_available_component_nonce < u64::MAX,
        ensures
            final(self).inv(),
            final(self).local() == old(self).local(),
            final(self).peer_forwarding == old(self).peer_forwarding,
            final(self).edges_info == old(self).edges_info,
            final(self).raw_graph == old(self).raw_graph,
            final(self).needs_routing_table_recalculation == old(self).needs_routing_table_recalculation,
            (!force_pruning && no_peer_spill_due(old(self).peer_last_time_reachable@, now))
                ==> *final(self) == *old(self) && r@.len() == 0,
            (force_pruning || !no_peer_spill_due(old(self).peer_last_time_reachable@, now))
                ==> prune_applied(*old(self), *final(self), r@, window, now),
    {
        let ghost pre = *old(self);
        let oldest = self.peer_last_time_reachable.oldest_time(now);
        let victims = self.peer_last_time_reachable.stale_peers(now, window);
        if !force_pruning && !(oldest <= now && now - oldest >= SAVE_PEERS_MAX_TIME) {
            proof {
                assert forall|p: PeerId| #[trigger]
                    pre.peer_last_time_reachable@.dom().contains(p) implies !is_stale(
                    pre.peer_last_time_reachable@[p],
                    now,
                    SAVE_PEERS_MAX_TIME,
                ) by {
                    assert(oldest <= pre.peer_last_time_reachable@[p]);
                }
            }
            return Vec::new();
        }
        proof {
            if !force_pruning {
                assert(is_stale(oldest, now, SAVE_PEERS_MAX_TIME));
                if oldest != now {
                    let p = choose|p: PeerId| #[trigger]
                        pre.peer_last_time_reachable@.dom().contains(p)
                            && pre.peer_last_time_reachable@[p] == oldest;
                    assert(!no_peer_spill_due(pre.peer_last_time_reachable@, now));
                }
            }
        }
        let current_component_nonce = self.next_available_component_nonce;
        self.next_available_component_nonce = current_component_nonce + 1;
        self.store.last_component_nonce = Some(current_component_nonce + 1);
        let mut vi: usize = 0;
        while vi < victims.len()
            invariant
                self.edges_info == pre.edges_info,
                self.raw_graph == pre.raw_graph,
                self.peer_forwarding == pre.peer_forwarding,
                self.needs_routing_table_recalculation == pre.needs_routing_table_recalculation,
                self.store.components == pre.store.components,
                self.store.last_component_nonce == Some((current_component_nonce + 1) as u64),
                self.next_available_component_nonce == current_component_nonce + 1,
                current_component_nonce == pre.next_available_component_nonce,
                current_component_nonce < u64::MAX,
                pre.inv(),
                self.edges_info.inv(),
                self.raw_graph.inv(),
                self.peer_forwarding.inv(),
                self.peer_last_time_reachable.inv(),
                self.store.inv(),
                vi <= victims@.len(),
                forall|vj1: int, vj2: int|
                    0 <= vj1 < vj2 < victims@.len() ==> victims@[vj1] != victims@[vj2],
                forall|p: PeerId| #[trigger]
                    victims@.contains(p) <==> is_victim(
                        pre.peer_last_time_reachable@,
                        now,
                        window,
                        p,
                    ),
                forall|p: PeerId|
                    #[trigger] self.store.peer_component@.dom().contains(p)
                        <==> pre.store.peer_component@.dom().contains(p) || exists|vj: int|
                        0 <= vj < vi && victims@[vj] == p,
                forall|p: PeerId| #[trigger]
                    self.store.peer_component@.dom().contains(p)
                        ==> self.store.peer_component@[p] == (if exists|vj: int|
                        0 <= vj < vi && victims@[vj] == p {
                        current_component_nonce
                    } else {
                        pre.store.peer_component@[p]
                    }),
                forall|p: PeerId|
                    #[trigger] self.peer_last_time_reachable@.dom().contains(p)
                        <==> pre.peer_last_time_reachable@.dom().contains(p) && !exists|vj: int|
                        0 <= vj < vi && victims@[vj] == p,
                forall|p: PeerId| #[trigger]
                    self.peer_last_time_reachable@.dom().contains(p)
                        ==> self.peer_last_time_reachable@[p] == pre.peer_last_time_reachable@[p],
            decreases victims@.len() - vi,
        {
            let v = victims[vi];
            proof {
                assert(victims@.contains(v));
                assert(pre.peer_last_time_reachable@.dom().contains(v));
                assert(v != pre.local());
            }
            let ghost pc_before = self.store.peer_component@;
            let ghost tr_before = self.peer_last_time_reachable@;
            self.store.peer_component.insert(v, current_component_nonce);
            self.peer_last_time_reachable.remove(v);
            vi = vi + 1;
            proof {
                assert forall|p: PeerId|
                    #[trigger] self.store.peer_component@.dom().contains(p)
                        <==> pre.store.peer_component@.dom().contains(p) || exists|vj: int|
                        0 <= vj < vi && victims@[vj] == p by {
                    if p == v {
                        assert(victims@[vi - 1] == p);
                    } else {
                        assert(self.store.peer_component@.dom().contains(p)
                            == pc_before.dom().contains(p));
                        if exists|vj: int| 0 <= vj < vi && victims@[vj] == p {
                            let vj = choose|vj: int| 0 <= vj < vi && victims@[vj] == p;
                            assert(vj != vi - 1);
                            assert(0 <= vj < vi - 1 && victims@[vj] == p);
                        }
                        if exists|vj: int| 0 <= vj < vi - 1 && victims@[vj] == p {
                            let vj = choose|vj: int| 0 <= vj < vi - 1 && victims@[vj] == p;
                            assert(0 <= vj < vi && victims@[vj] == p);
                        }
                    }
                }
                assert forall|p: PeerId| #[trigger]
                    self.store.peer_component@.dom().contains(p) implies
                    self.store.peer_component@[p] == (if exists|vj: int|
                    0 <= vj < vi && victims@[vj] == p {
                    current_component_nonce
                } else {
                    pre.store.peer_component@[p]
                }) by {
                    if p == v {
                        assert(victims@[vi - 1] == p);
                    } else {
                        assert(self.store.peer_component@[p] == pc_before[p]);
                        if exists|vj: int| 0 <= vj < vi && victims@[vj] == p {
                            let vj = choose|vj: int| 0 <= vj < vi && victims@[vj] == p;
                            assert(vj != vi - 1);
                            assert(0 <= vj < vi - 1 && victims@[vj] == p);
                        }
                        if exists|vj: int| 0 <= vj < vi - 1 && victims@[vj] == p {
                            let vj = choose|vj: int| 0 <= vj < vi - 1 && victims@[vj] == p;
                            assert(0 <= vj < vi && victims@[vj] == p);
                        }
                    }
                }
                assert forall|p: PeerId|
                    #[trigger] self.peer_last_time_reachable@.dom().contains(p)
                        <==> pre.peer_last_time_reachable@.dom().contains(p) && !exists|vj: int|
                        0 <= vj < vi && victims@[vj] == p by {
                    if p == v {
                        assert(victims@[vi - 1] == p);
                    } else {
                        assert(self.peer_last_time_reachable@.dom().contains(p)
                            == tr_before.dom().contains(p));
                        if exists|vj: int| 0 <= vj < vi && victims@[vj] == p {
                            let vj = choose|vj: int| 0 <= vj < vi && victims@[vj] == p;
                            assert(vj != vi - 1);
                            assert(0 <= vj < vi - 1 && victims@[vj] == p);
                        }
                        if exists|vj: int| 0 <= vj < vi - 1 && victims@[vj] == p {
                            let vj = choose|vj: int| 0 <= vj < vi - 1 && victims@[vj] == p;
                            assert(0 <= vj < vi && victims@[vj] == p);
                        }
                    }
                }
            }
        }
        let evicted = self.edges_info.collect_touching(&victims);
        let stored_copy = copy_edges(&evicted);
        proof {
            assert(!self.store.components@.dom().contains(current_component_nonce)) by {
                if self.store.components@.dom().contains(current_component_nonce) {
                    assert(current_component_nonce < pre.next_available_component_nonce);
                }
            }
        }
        self.store.components.insert_new(current_component_nonce, stored_copy);
        proof {
            assert(models_of(stored_copy@) =~= evicted@.map_values(|e: Edge| e@));
            assert forall|p: PeerId| #[trigger]
                self.store.peer_component@.dom().contains(p) implies self.store.peer_component@[p]
                < self.next_available_component_nonce by {
                if !is_victim(pre.peer_last_time_reachable@, now, window, p) {
                    if !pre.store.peer_component@.dom().contains(p) {
                        let vj = choose|vj: int| 0 <= vj < victims@.len() && victims@[vj] == p;
                        assert(victims@.contains(p));
                        assert(false);
                    }
                    assert(pre.store.peer_component@.dom().contains(p));
                }
            }
            assert forall|p: PeerId| #[trigger]
                self.store.peer_component@.dom().contains(p) implies self.store.peer_component@[p]
                == (if is_victim(pre.peer_last_time_reachable@, now, window, p) {
                current_component_nonce
            } else {
                pre.store.peer_component@[p]
            }) by {
                if is_victim(pre.peer_last_time_reachable@, now, window, p) {
                    assert(victims@.contains(p));
                    let vj = choose|vj: int| 0 <= vj < victims@.len() && victims@[vj] == p;
                    assert(0 <= vj < victims@.len() && victims@[vj] == p);
                } else {
                    if exists|vj: int| 0 <= vj < victims@.len() && victims@[vj] == p {
                        let vj = choose|vj: int| 0 <= vj < victims@.len() && victims@[vj] == p;
                        assert(victims@.contains(p));
                        assert(false);
                    }
                }
            }
            assert forall|p: PeerId|
                #[trigger] self.store.peer_component@.dom().contains(p)
                    <==> pre.store.peer_component@.dom().contains(p) || is_victim(
                    pre.peer_last_time_reachable@,
                    now,
                    window,
                    p,
                ) by {
                if is_victim(pre.peer_last_time_reachable@, now, window, p) {
                    assert(victims@.contains(p));
                    let vj = choose|vj: int| 0 <= vj < victims@.len() && victims@[vj] == p;
                    assert(0 <= vj < victims@.len() && victims@[vj] == p);
                }
                if self.store.peer_component@.dom().contains(p)
                    && !pre.store.peer_component@.dom().contains(p) {
                    let vj = choose|vj: int| 0 <= vj < victims@.len() && victims@[vj] == p;
                    assert(victims@.contains(p));
                }
            }
            assert forall|p: PeerId|
                #[trigger] self.peer_last_time_reachable@.dom().contains(p)
                    <==> pre.peer_last_time_reachable@.dom().contains(p) && !is_victim(
                    pre.peer_last_time_reachable@,
                    now,
                    window,
                    p,
                ) by {
                if is_victim(pre.peer_last_time_reachable@, now, window, p) {
                    assert(victims@.contains(p));
                    let vj = choose|vj: int| 0 <= vj < victims@.len() && victims@[vj] == p;
                    assert(0 <= vj < victims@.len() && victims@[vj] == p);
                }
                if pre.peer_last_time_reachable@.dom().contains(p) && !is_victim(
                    pre.peer_last_time_reachable@,
                    now,
                    window,
                    p,
                ) {
                    if exists|vj: int| 0 <= vj < victims@.len() && victims@[vj] == p {
                        let vj = choose|vj: int| 0 <= vj < victims@.len() && victims@[vj] == p;
                        assert(victims@.contains(p));
                        assert(false);
                    }
                }
            }
            assert forall|t: int| 0 <= t < evicted@.len() implies pre.edges_info@.dom().contains(
                (#[trigger] evicted@[t])@.key(),
            ) && pre.edges_info@[evicted@[t]@.key()] == evicted@[t]@ && evicted@[t]@.wf() && (
            is_victim(pre.peer_last_time_reachable@, now, window, evicted@[t]@.peer0) || is_victim(
                pre.peer_last_time_reachable@,
                now,
                window,
                evicted@[t]@.peer1,
            )) by {
                assert(victims@.contains(evicted@[t]@.peer0) || victims@.contains(
                    evicted@[t]@.peer1,
                ));
            }
            assert forall|k: (PeerId, PeerId)| #[trigger]
                pre.edges_info@.dom().contains(k) && (is_victim(
                    pre.peer_last_time_reachable@,
                    now,
                    window,
                    k.0,
                ) || is_victim(pre.peer_last_time_reachable@, now, window, k.1)) implies exists|
                t: int,
            | 0 <= t < evicted@.len() && (#[trigger] evicted@[t])@.key() == k by {
                assert(victims@.contains(k.0) || victims@.contains(k.1));
                assert(pre.edges_info@[k].peer0 == k.0 && pre.edges_info@[k].peer1 == k.1) by {
                    lemma_view_wf(&pre.edges_info);
                }
            }
        }
        evicted
    }

    /// Recalculates the forwarding table from the overlay graph,
    /// refreshes the reachability tracker for every forwarding peer,
    /// and, unless pruning is disabled or the hysteresis guard stops
    /// an unforced pass, spills the edges of long-unreachable peers
    /// and removes them from the edge store and graph. Returns the
    /// removed edges.
    #[verifier::rlimit(50)]
    pub fn recalculate_routing_table_and_maybe_prune_edges(
        &mut self,
        prune: Prune,
        prune_edges_not_reachable_for: u64,
        now: u64,
    ) -> (r: Vec<Edge>)
        requires
            old(self).inv(),
            old(self).next_available_component_nonce < u64::MAX,
        ensures
            final(self).inv(),
            final(self).local() == old(self).local(),
            forall|p: PeerId| #[trigger]
                final(self).peer_forwarding@.dom().contains(p) <==> (p != old(self).local()
                    && reachable(old(self).raw_graph.edge_set(), old(self).local(), p)),
            forall|p: PeerId| #[trigger]
                final(self).peer_forwarding@.dom().contains(p) ==> hops_exact(
                    old(self).raw_graph.edge_set(),
                    old(self).local(),
                    p,
                    final(self).peer_forwarding@[p],
                ),
            forall|p: PeerId, x: PeerId|
                final(self).peer_forwarding@.dom().contains(p)
                    && #[trigger] final(self).peer_forwarding@[p].contains(x) ==> adjacent(
                    old(self).raw_graph.edge_set(),
                    old(self).local(),
                    x,
                ),
            ({
                let rt = refreshed_tracker(
                    old(self).peer_last_time_reachable@,
                    final(self).peer_forwarding@,
                    now,
                );
                let run = !(prune is Disable) && ((prune is PruneNow) || !no_peer_spill_due(
                    rt,
                    now,
                ));
                &&& (!run ==> r@.len() == 0 && final(self).edges_info@ == old(self).edges_info@
                    && final(self).raw_graph.edge_set() == old(self).raw_graph.edge_set() && final(self).store == old(self).store && final(self).next_available_component_nonce == old(self).next_available_component_nonce && final(self).peer_last_time_reachable@ == rt
                    && final(self).needs_routing_table_recalculation == old(self).needs_routing_table_recalculation)
                &&& (run ==> {
                    let c = old(self).next_available_component_nonce;
                    let window = prune_edges_not_reachable_for;
                    &&& final(self).next_available_component_nonce == c + 1
                    &&& final(self).store.last_component_nonce == Some((c + 1) as u64)
                    &&& final(self).store.components@ == old(self).store.components@.insert(
                        c,
                        r@.map_values(|e: Edge| e@),
                    )
                    &&& forall|p: PeerId|
                        #[trigger] final(self).store.peer_component@.dom().contains(p) <==> old(self).store.peer_component@.dom().contains(p) || is_victim(rt, now, window, p)
                    &&& forall|p: PeerId| #[trigger]
                        final(self).store.peer_component@.dom().contains(p) ==> final(self).store.peer_component@[p] == (if is_victim(rt, now, window, p) {
                            c
                        } else {
                            old(self).store.peer_component@[p]
                        })
                    &&& forall|p: PeerId|
                        #[trigger] final(self).peer_last_time_reachable@.dom().contains(p)
                            <==> rt.dom().contains(p) && !is_victim(rt, now, window, p)
                    &&& forall|p: PeerId| #[trigger]
                        final(self).peer_last_time_reachable@.dom().contains(p) ==> final(self).peer_last_time_reachable@[p] == rt[p]
                    &&& final(self).edges_info@ == old(self).edges_info@.remove_keys(
                        edge_key_set(r@),
                    )
                    &&& final(self).raw_graph.edge_set() == old(self).raw_graph.edge_set().difference(edge_key_set(r@))
                    &&& forall|t: int|
                        0 <= t < r@.len() ==> old(self).edges_info@.dom().contains(
                            (#[trigger] r@[t])@.key(),
                        ) && old(self).edges_info@[r@[t]@.key()] == r@[t]@ && r@[t]@.wf() && (
                        is_victim(rt, now, window, r@[t]@.peer0) || is_victim(
                            rt,
                            now,
                            window,
                            r@[t]@.peer1,
                        ))
                    &&& forall|t1: int, t2: int|
                        0 <= t1 < t2 < r@.len() ==> (#[trigger] r@[t1])@.key() != (
                        #[trigger] r@[t2])@.key()
                    &&& forall|k: (PeerId, PeerId)| #[trigger]
                        old(self).edges_info@.dom().contains(k) && (is_victim(rt, now, window, k.0)
                            || is_victim(rt, now, window, k.1)) ==> exists|t: int|
                            0 <= t < r@.len() && (#[trigger] r@[t])@.key() == k
                    &&& final(self).needs_routing_table_recalculation == (old(self).needs_routing_table_recalculation || r@.len() > 0)
                })
                &&& ((old(self).spill_inv() && (run ==> prune_spill_safe(
                    *old(self),
                    rt,
                    now,
                    prune_edges_not_reachable_for,
                ))) ==> final(self).spill_inv())
            }),
    {
        let ghost pre = *old(self);
        let ft = self.raw_graph.calculate_distance();
        self.peer_forwarding = ft;
        let ghost fw = self.peer_forwarding@;
        refresh_tracker_from(&mut self.peer_last_time_reachable, &self.peer_forwarding, now);
        let ghost rt = refreshed_tracker(pre.peer_last_time_reachable@, fw, now);
        proof {
            assert(self.peer_last_time_reachable@ == rt);
            assert(!self.peer_last_time_reachable@.dom().contains(self.local()));
            if pre.spill_inv() {
                assert forall|p: PeerId| #[trigger]
                    self.peer_last_time_reachable@.dom().contains(p) implies
                    !self.store.peer_component@.dom().contains(p) by {
                    if fw.dom().contains(p) {
                        crate::graph::lemma_reachable_touches_edge(
                            pre.raw_graph.edge_set(),
                            pre.local(),
                            p,
                        );
                        let pair = choose|pair: (PeerId, PeerId)| #[trigger]
                            pre.raw_graph.edge_set().contains(pair) && (pair.0 == p || pair.1
                                == p);
                        assert(pre.edges_info@.dom().contains(pair));
                    } else {
                        assert(pre.peer_last_time_reachable@.dom().contains(p));
                    }
                }
                assert(self.spill_inv());
            }
        }
        let ghost mid = *self;
        let evicted: Vec<Edge> = match prune {
            Prune::Disable => Vec::new(),
            Prune::PruneOncePerHour => {
                self.prune_unreachable_edges_and_save_to_db(
                    false,
                    prune_edges_not_reachable_for,
                    now,
                )
            },
            Prune::PruneNow => {
                self.prune_unreachable_edges_and_save_to_db(
                    true,
                    prune_edges_not_reachable_for,
                    now,
                )
            },
        };
        let ghost post_prune = *self;
        self.remove_edges(&evicted);
        proof {
            let run = !(prune is Disable) && ((prune is PruneNow) || !no_peer_spill_due(rt, now));
            assert(mid.store == pre.store);
            assert(mid.edges_info == pre.edges_info);
            assert(mid.peer_last_time_reachable@ == rt);
            assert(self.store == post_prune.store);
            assert(self.peer_last_time_reachable == post_prune.peer_last_time_reachable);
            if !run {
                assert(evicted@.len() == 0);
                assert(post_prune == mid);
                assert(self.edges_info@ == mid.edges_info@.remove_keys(edge_key_set(evicted@)));
                assert(self.edges_info@ =~= pre.edges_info@);
                assert(self.raw_graph.edge_set() == mid.raw_graph.edge_set().difference(
                    edge_key_set(evicted@),
                ));
                assert(self.raw_graph.edge_set() =~= pre.raw_graph.edge_set());
                if pre.spill_inv() {
                    assert(self.spill_inv());
                }
            } else {
                let window = prune_edges_not_reachable_for;
                assert(prune_applied(mid, post_prune, evicted@, window, now));
                assert(self.edges_info@ == pre.edges_info@.remove_keys(edge_key_set(evicted@)));
                assert(self.raw_graph.edge_set() == pre.raw_graph.edge_set().difference(
                    edge_key_set(evicted@),
                ));
                if evicted@.len() > 0 {
                    assert(mid.edges_info@.dom().contains(evicted@[0]@.key()));
                    assert(self.needs_routing_table_recalculation);
                } else {
                    if exists|j: int|
                        0 <= j < evicted@.len() && mid.edges_info@.dom().contains(
                            (#[trigger] evicted@[j])@.key(),
                        ) {
                        let j = choose|j: int|
                            0 <= j < evicted@.len() && mid.edges_info@.dom().contains(
                                (#[trigger] evicted@[j])@.key(),
                            );
                        assert(false);
                    }
                }
                if pre.spill_inv() && prune_spill_safe(pre, rt, now, window) {
                    assert(mid.spill_inv());
                    lemma_prune_spill(pre, mid, post_prune, *self, evicted@, rt, now, window);
                }
            }
        }
        evicted
    }

    /// Ingests a batch of verified edges: each edge first restores any
    /// spilled component its endpoints belong to, then is applied
    /// through the nonce-checked path. Returns the edges that were
    /// actually accepted (not stale), and marks the table dirty.
    #[verifier::rlimit(50)]
    pub fn add_verified_edges_to_routing_table(&mut self, edges: Vec<Edge>, now: u64) -> (r: Vec<
        Edge,
    >)
        requires
            old(self).inv(),
            forall|j: int| 0 <= j < edges@.len() ==> (#[trigger] edges@[j])@.wf(),
        ensures
            final(self).inv(),
            final(self).local() == old(self).local(),
            final(self).peer_forwarding == old(self).peer_forwarding,
            final(self).next_available_component_nonce == old(self).next_available_component_nonce,
            final(self).store.last_component_nonce == old(self).store.last_component_nonce,
            final(self).needs_routing_table_recalculation,
            forall|k: (PeerId, PeerId)| #[trigger]
                nonce_of(final(self).edges_info@, k) >= nonce_of(old(self).edges_info@, k),
            forall|j: int|
                0 <= j < edges@.len() ==> nonce_of(
                    final(self).edges_info@,
                    (#[trigger] edges@[j])@.key(),
                ) >= edges@[j]@.nonce,
            forall|k: (PeerId, PeerId)| #[trigger]
                final(self).edges_info@.dom().contains(k) ==> (old(self).edges_info@.dom().contains(k) && final(self).edges_info@[k] == old(self).edges_info@[k]) || (exists|j: int|
                    0 <= j < edges@.len() && (#[trigger] edges@[j])@ == final(self).edges_info@[k])
                    || comps_have_model(
                    old(self).store.components@,
                    final(self).edges_info@[k],
                ),
            forall|c: u64| #[trigger]
                final(self).store.components@.dom().contains(c) ==> old(self).store.components@.dom().contains(c) && final(self).store.components@[c] == old(self).store.components@[c],
            forall|p: PeerId| #[trigger]
                final(self).store.peer_component@.dom().contains(p) ==> old(self).store.peer_component@.dom().contains(p) && final(self).store.peer_component@[p]
                    == old(self).store.peer_component@[p],
            forall|p: PeerId| #[trigger]
                old(self).peer_last_time_reachable@.dom().contains(p) ==> final(self).peer_last_time_reachable@.dom().contains(p) && final(self).peer_last_time_reachable@[p] == old(self).peer_last_time_reachable@[p],
            forall|t: int|
                0 <= t < r@.len() ==> exists|j: int|
                    0 <= j < edges@.len() && (#[trigger] r@[t])@ == edges@[j]@,
            accepted_subsequence(models_of(r@), models_of(edges@)),
            accepted_complete(
                models_of(r@),
                models_of(edges@),
                old(self).edges_info@,
                old(self).store.components@,
            ),
            batch_provenance(
                final(self).edges_info@,
                old(self).edges_info@,
                models_of(edges@),
                old(self).store.components@,
            ),
            batch_nonces_framed(
                final(self).edges_info@,
                old(self).edges_info@,
                models_of(edges@),
                old(self).store.components@,
            ),
            old(self).spill_inv() ==> final(self).spill_inv(),
            old(self).spill_inv() ==> forall|j: int|
                0 <= j < edges@.len() ==> ((#[trigger] edges@[j])@.peer0 == old(self).local()
                    || final(self).peer_last_time_reachable@.dom().contains(edges@[j]@.peer0)) && (
                edges@[j]@.peer1 == old(self).local() || final(self).peer_last_time_reachable@.dom().contains(edges@[j]@.peer1)),
            old(self).spill_inv() ==> forall|p: PeerId|
                #[trigger] batch_touches(edges@, p) && old(self).store.peer_component@.dom().contains(p) ==> restore_done(
                    *old(self),
                    *final(self),
                    old(self).store.peer_component@[p],
                    now,
                ),
            (forall|j: int|
                0 <= j < edges@.len() ==> ((#[trigger] edges@[j])@.peer0 == old(self).local()
                    || old(self).peer_last_time_reachable@.dom().contains(edges@[j]@.peer0)) && (
                edges@[j]@.peer1 == old(self).local() || old(self).peer_last_time_reachable@.dom().contains(edges@[j]@.peer1)) && edges@[j]@.nonce
                    <= nonce_of(old(self).edges_info@, edges@[j]@.key())) ==> (final(self).edges_info@ == old(self).edges_info@ && final(self).raw_graph.edge_set() == old(self).raw_graph.edge_set() && final(self).store == old(self).store && final(self).peer_last_time_reachable@ == old(self).peer_last_time_reachable@ && r@.len() == 0),
    {
        let ghost pre = *old(self);
        let mut accepted: Vec<Edge> = Vec::new();
        let ghost mut mm: Seq<int> = Seq::empty();
        let mut idx: usize = 0;
        while idx < edges.len()
            invariant
                pre.inv(),
                forall|j: int| 0 <= j < edges@.len() ==> (#[trigger] edges@[j])@.wf(),
                idx <= edges@.len(),
                batch_inv(pre, *self, edges@, idx as int, accepted@, now),
                is_model_index_map(mm, models_of(accepted@), models_of(edges@)),
                forall|t: int| 0 <= t < mm.len() ==> #[trigger] mm[t] < idx,
            decreases edges@.len() - idx,
        {
            let p0 = edges[idx].peer0;
            let p1 = edges[idx].peer1;
            let ghost s0 = *self;
            self.fetch_edges_for_peer_from_disk(p0, now);
            let ghost s1 = *self;
            self.fetch_edges_for_peer_from_disk(p1, now);
            let ghost s2 = *self;
            let e_copy = edges[idx].duplicate();
            let was_accepted = self.add_verified_edge(e_copy);
            let ghost acc0 = accepted@;
            let ghost mm0 = mm;
            if was_accepted {
                accepted.push(edges[idx].duplicate());
                proof {
                    mm = mm0.push(idx as int);
                }
            }
            proof {
                lemma_batch_step(
                    pre,
                    s0,
                    s1,
                    s2,
                    *self,
                    edges@,
                    idx as int,
                    acc0,
                    accepted@,
                    was_accepted,
                    now,
                );
                if was_accepted {
                    assert forall|t: int| 0 <= t < mm.len() implies 0 <= #[trigger] mm[t]
                        < models_of(edges@).len() && models_of(accepted@)[t] == models_of(
                        edges@,
                    )[mm[t]] by {
                        if t < mm0.len() {
                            assert(mm[t] == mm0[t]);
                            assert(accepted@[t] == acc0[t]);
                            assert(models_of(acc0)[t] == models_of(edges@)[mm0[t]]);
                        } else {
                            assert(mm[t] == idx as int);
                            assert(accepted@[t]@ == edges@[idx as int]@);
                        }
                    }
                    assert forall|t1: int, t2: int|
                        #![trigger mm[t1], mm[t2]]
                        0 <= t1 < t2 < mm.len() implies mm[t1] < mm[t2] by {
                        if t2 < mm0.len() {
                            assert(mm0[t1] < mm0[t2]);
                        } else {
                            assert(mm[t2] == idx as int);
                            assert(mm[t1] == mm0[t1]);
                            assert(mm0[t1] < idx as int);
                        }
                    }
                    assert(is_model_index_map(mm, models_of(accepted@), models_of(edges@)));
                }
            }
            idx = idx + 1;
        }
        self.needs_routing_table_recalculation = true;
        proof {
            assert(accepted_subsequence(models_of(accepted@), models_of(edges@))) by {
                assert(is_model_index_map(mm, models_of(accepted@), models_of(edges@)));
            }
            assert(accepted_complete(
                models_of(accepted@),
                models_of(edges@),
                pre.edges_info@,
                pre.store.components@,
            )) by {
                assert forall|j: int|
                    0 <= j < models_of(edges@).len() && (#[trigger] models_of(edges@)[j]).nonce
                        > nonce_of(pre.edges_info@, models_of(edges@)[j].key())
                        && !comps_have_key(
                        pre.store.components@,
                        models_of(edges@)[j].key(),
                    ) && (forall|j2: int|
                        0 <= j2 < models_of(edges@).len() && j2 != j ==> (#[trigger] models_of(
                            edges@,
                        )[j2]).key() != models_of(edges@)[j].key()) implies seq_has_model(
                    models_of(accepted@),
                    models_of(edges@)[j],
                ) by {
                    assert(models_of(edges@)[j] == edges@[j]@);
                    assert forall|j2: int| 0 <= j2 < edges@.len() && j2 != j implies (
                    #[trigger] edges@[j2])@.key() != edges@[j]@.key() by {
                        assert(models_of(edges@)[j2].key() != models_of(edges@)[j].key());
                    }
                    assert(seq_has_model(models_of(accepted@), edges@[j]@));
                }
            }
            assert(batch_provenance(
                self.edges_info@,
                pre.edges_info@,
                models_of(edges@),
                pre.store.components@,
            )) by {
                assert forall|k: (PeerId, PeerId)| #[trigger]
                    self.edges_info@.dom().contains(k) implies (pre.edges_info@.dom().contains(k)
                    && self.edges_info@[k] == pre.edges_info@[k]) || seq_has_model(
                    models_of(edges@),
                    self.edges_info@[k],
                ) || comps_have_model(pre.store.components@, self.edges_info@[k]) by {
                    if !(pre.edges_info@.dom().contains(k) && self.edges_info@[k]
                        == pre.edges_info@[k]) && !comps_have_model(
                        pre.store.components@,
                        self.edges_info@[k],
                    ) {
                        let j = choose|j: int|
                            0 <= j < edges@.len() && (#[trigger] edges@[j])@
                                == self.edges_info@[k];
                        assert(models_of(edges@)[j] == self.edges_info@[k]);
                        assert(seq_has_model(models_of(edges@), self.edges_info@[k]));
                    }
                }
            }
            assert(batch_nonces_framed(
                self.edges_info@,
                pre.edges_info@,
                models_of(edges@),
                pre.store.components@,
            )) by {
                assert forall|k: (PeerId, PeerId)|
                    !comps_have_key(pre.store.components@, k) && !(exists|j: int|
                        0 <= j < models_of(edges@).len() && (#[trigger] models_of(edges@)[j]).key()
                            == k) implies #[trigger] nonce_of(self.edges_info@, k) == nonce_of(
                    pre.edges_info@,
                    k,
                ) by {
                    assert(!(exists|j: int|
                        0 <= j < edges@.len() && (#[trigger] edges@[j])@.key() == k)) by {
                        if exists|j: int| 0 <= j < edges@.len() && (#[trigger] edges@[j])@.key()
                            == k {
                            let j = choose|j: int|
                                0 <= j < edges@.len() && (#[trigger] edges@[j])@.key() == k;
                            assert(models_of(edges@)[j].key() == k);
                        }
                    }
                }
            }
            if pre.spill_inv() {
                assert forall|p: PeerId|
                    #[trigger] batch_touches(edges@, p) && pre.store.peer_component@.dom().contains(
                        p,
                    ) implies restore_done(pre, *self, pre.store.peer_component@[p], now) by {
                    let j = choose|j: int|
                        0 <= j < edges@.len() && ((#[trigger] edges@[j])@.peer0 == p
                            || edges@[j]@.peer1 == p);
                    assert(mentioned_upto(
                        edges@.map_values(|e: Edge| e@),
                        edges@.len() as int,
                        p,
                    )) by {
                        assert(edges@.map_values(|e: Edge| e@)[j].peer0 == p
                            || edges@.map_values(|e: Edge| e@)[j].peer1 == p);
                    }
                    assert(!self.store.peer_component@.dom().contains(p));
                }
                assert forall|j: int| 0 <= j < edges@.len() implies ((
                #[trigger] edges@[j])@.peer0 == pre.local()
                    || self.peer_last_time_reachable@.dom().contains(edges@[j]@.peer0)) && (
                edges@[j]@.peer1 == pre.local()
                    || self.peer_last_time_reachable@.dom().contains(edges@[j]@.peer1)) by {}
            }
        }
        accepted
    }

    /// Serial dispatch of one request, the control surface of the
    /// core: there is at most one operation in flight, and a completed
    /// recalculation clears the dirty flag.
    #[verifier::rlimit(100)]
    pub fn handle(&mut self, msg: RoutingTableMessages, now: u64) -> (r:
        RoutingTableMessagesResponse)
        requires
            old(self).inv(),
            old(self).next_available_component_nonce < u64::MAX,
            msg_edges_wf(msg),
        ensures
            final(self).inv(),
            final(self).local() == old(self).local(),
            match msg {
                RoutingTableMessages::AddVerifiedEdges { edges } => {
                    &&& r is AddVerifiedEdgesResponse
                    &&& accepted_subsequence(
                        models_of(r->AddVerifiedEdgesResponse_0@),
                        models_of(edges@),
                    )
                    &&& accepted_complete(
                        models_of(r->AddVerifiedEdgesResponse_0@),
                        models_of(edges@),
                        old(self).edges_info@,
                        old(self).store.components@,
                    )
                    &&& batch_provenance(
                        final(self).edges_info@,
                        old(self).edges_info@,
                        models_of(edges@),
                        old(self).store.components@,
                    )
                    &&& batch_nonces_framed(
                        final(self).edges_info@,
                        old(self).edges_info@,
                        models_of(edges@),
                        old(self).store.components@,
                    )
                    &&& final(self).needs_routing_table_recalculation
                    &&& final(self).local() == old(self).local()
                    &&& final(self).peer_forwarding == old(self).peer_forwarding
                    &&& final(self).next_available_component_nonce == old(self).next_available_component_nonce
                    &&& final(self).store.last_component_nonce == old(self).store.last_component_nonce
                    &&& forall|c: u64| #[trigger]
                        final(self).store.components@.dom().contains(c) ==> old(self).store.components@.dom().contains(c)
                            && final(self).store.components@[c] == old(self).store.components@[c]
                    &&& forall|p: PeerId| #[trigger]
                        final(self).store.peer_component@.dom().contains(p) ==> old(self).store.peer_component@.dom().contains(p)
                            && final(self).store.peer_component@[p] == old(self).store.peer_component@[p]
                    &&& forall|p: PeerId| #[trigger]
                        old(self).peer_last_time_reachable@.dom().contains(p) ==> final(self).peer_last_time_reachable@.dom().contains(p)
                            && final(self).peer_last_time_reachable@[p] == old(self).peer_last_time_reachable@[p]
                    &&& (old(self).spill_inv() ==> final(self).spill_inv())
                    &&& forall|k: (PeerId, PeerId)| #[trigger]
                        nonce_of(final(self).edges_info@, k) >= nonce_of(old(self).edges_info@, k)
                    &&& forall|j: int|
                        0 <= j < edges@.len() ==> nonce_of(
                            final(self).edges_info@,
                            (#[trigger] edges@[j])@.key(),
                        ) >= edges@[j]@.nonce
                    &&& (old(self).spill_inv() ==> forall|p: PeerId|
                        #[trigger] batch_touches(edges@, p) && old(self).store.peer_component@.dom().contains(p) ==> restore_done(
                            *old(self),
                            *final(self),
                            old(self).store.peer_component@[p],
                            now,
                        ))
                },
                RoutingTableMessages::AdvRemoveEdges(edges) => {
                    &&& r is Empty
                    &&& (old(self).spill_inv() ==> final(self).spill_inv())
                    &&& final(self).edges_info@ == old(self).edges_info@.remove_keys(
                        edge_key_set(edges@),
                    )
                    &&& final(self).raw_graph.edge_set() == old(self).raw_graph.edge_set().difference(edge_key_set(edges@))
                    &&& final(self).store == old(self).store
                    &&& final(self).peer_last_time_reachable == old(self).peer_last_time_reachable
                    &&& final(self).peer_forwarding == old(self).peer_forwarding
                    &&& final(self).next_available_component_nonce == old(self).next_available_component_nonce
                    &&& final(self).needs_routing_table_recalculation == (old(self).needs_routing_table_recalculation || exists|j: int|
                        0 <= j < edges@.len() && old(self).edges_info@.dom().contains(
                            (#[trigger] edges@[j])@.key(),
                        ))
                },
                RoutingTableMessages::RequestRoutingTable => {
                    &&& *final(self) == *old(self)
                    &&& r is RequestRoutingTableResponse
                    &&& forall|t: int|
                        0 <= t < r->RequestRoutingTableResponse_edges_info@.len() ==> old(
                            self,
                        ).edges_info@.dom().contains(
                            (#[trigger] r->RequestRoutingTableResponse_edges_info@[t])@.key(),
                        ) && old(self).edges_info@[r->RequestRoutingTableResponse_edges_info@[t]@.key()]
                            == r->RequestRoutingTableResponse_edges_info@[t]@
                    &&& lists_all_keys(
                        r->RequestRoutingTableResponse_edges_info@,
                        old(self).edges_info@,
                    )
                    &&& keys_distinct(r->RequestRoutingTableResponse_edges_info@)
                },
                RoutingTableMessages::RoutingTableUpdate { prune, prune_edges_not_reachable_for } => {
                    &&& !final(self).needs_routing_table_recalculation
                    &&& (!old(self).needs_routing_table_recalculation ==> final(self).edges_info
                        == old(self).edges_info && final(self).raw_graph == old(self).raw_graph
                        && final(self).store == old(self).store && final(self).peer_last_time_reachable == old(self).peer_last_time_reachable && final(self).peer_forwarding == old(self).peer_forwarding && final(self).next_available_component_nonce == old(self).next_available_component_nonce)
                    &&& (old(self).needs_routing_table_recalculation ==> {
                        let rt = refreshed_tracker(
                            old(self).peer_last_time_reachable@,
                            final(self).peer_forwarding@,
                            now,
                        );
                        let run = !(prune is Disable) && ((prune is PruneNow)
                            || !no_peer_spill_due(rt, now));
                        &&& forall|p: PeerId| #[trigger]
                            final(self).peer_forwarding@.dom().contains(p) <==> (p != old(self).local() && reachable(
                                old(self).raw_graph.edge_set(),
                                old(self).local(),
                                p,
                            ))
                        &&& forall|p: PeerId| #[trigger]
                            final(self).peer_forwarding@.dom().contains(p) ==> hops_exact(
                                old(self).raw_graph.edge_set(),
                                old(self).local(),
                                p,
                                final(self).peer_forwarding@[p],
                            )
                        &&& (!run ==> final(self).store == old(self).store && final(self).edges_info@ == old(self).edges_info@ && final(self).next_available_component_nonce == old(self).next_available_component_nonce)
                        &&& (run ==> final(self).next_available_component_nonce == old(self).next_available_component_nonce + 1 && final(self).store.last_component_nonce == Some(
                            (old(self).next_available_component_nonce + 1) as u64,
                        ) && final(self).store.components@.dom().contains(
                            old(self).next_available_component_nonce,
                        ))
                        &&& ((old(self).spill_inv() && (run ==> prune_spill_safe(
                            *old(self),
                            rt,
                            now,
                            prune_edges_not_reachable_for,
                        ))) ==> final(self).spill_inv())
                    })
                    &&& match r {
                        RoutingTableMessagesResponse::RoutingTableUpdateResponse {
                            edges_to_remove,
                            peer_forwarding,
                        } => {
                            &&& peer_forwarding.inv()
                            &&& peer_forwarding@ == final(self).peer_forwarding@
                            &&& local_removals_sound(
                                edges_to_remove@,
                                old(self).edges_info@,
                                final(self).edges_info@,
                                old(self).local(),
                            )
                            &&& local_removals_complete(
                                edges_to_remove@,
                                old(self).edges_info@,
                                final(self).edges_info@,
                                old(self).local(),
                            )
                        },
                        _ => false,
                    }
                },
                RoutingTableMessages::Stop => {
                    &&& *final(self) == *old(self)
                    &&& r is Empty
                },
            },
    {
        match &msg {
            RoutingTableMessages::AddVerifiedEdges { edges } => {
                let ghost pre = *old(self);
                let ghost es = edges@;
                let edges_copy = copy_edges(edges);
                let accepted = self.add_verified_edges_to_routing_table(edges_copy, now);
                proof {
                    assert(models_of(edges_copy@) =~= models_of(es));
                    assert(accepted_subsequence(models_of(accepted@), models_of(es)));
                    assert(accepted_complete(
                        models_of(accepted@),
                        models_of(es),
                        pre.edges_info@,
                        pre.store.components@,
                    ));
                    assert(batch_provenance(
                        self.edges_info@,
                        pre.edges_info@,
                        models_of(es),
                        pre.store.components@,
                    ));
                    assert(batch_nonces_framed(
                        self.edges_info@,
                        pre.edges_info@,
                        models_of(es),
                        pre.store.components@,
                    ));
                    assert(self.needs_routing_table_recalculation);
                    assert(pre.spill_inv() ==> self.spill_inv());
                    assert forall|j: int|
                        0 <= j < es.len() implies nonce_of(
                        self.edges_info@,
                        (#[trigger] es[j])@.key(),
                    ) >= es[j]@.nonce by {
                        assert(edges_copy@[j]@ == es[j]@);
                        assert(nonce_of(self.edges_info@, edges_copy@[j]@.key())
                            >= edges_copy@[j]@.nonce);
                    }
                    if pre.spill_inv() {
                        assert forall|p: PeerId|
                            #[trigger] batch_touches(es, p)
                                && pre.store.peer_component@.dom().contains(p) implies restore_done(
                            pre,
                            *self,
                            pre.store.peer_component@[p],
                            now,
                        ) by {
                            let j = choose|j: int|
                                0 <= j < es.len() && ((#[trigger] es[j])@.peer0 == p
                                    || es[j]@.peer1 == p);
                            assert(batch_touches(edges_copy@, p)) by {
                                assert(edges_copy@[j]@.peer0 == p || edges_copy@[j]@.peer1 == p);
                            }
                        }
                    }
                }
                RoutingTableMessagesResponse::AddVerifiedEdgesResponse(accepted)
            },
            RoutingTableMessages::AdvRemoveEdges(edges) => {
                self.remove_edges(edges);
                RoutingTableMessagesResponse::Empty
            },
            RoutingTableMessages::RequestRoutingTable => {
                let listed = self.edges_info.edges_list();
                proof {
                    assert(forall|t: int|
                        0 <= t < listed@.len() ==> self.edges_info@.dom().contains(
                            (#[trigger] listed@[t])@.key(),
                        ) && self.edges_info@[listed@[t]@.key()] == listed@[t]@);
                    assert(forall|k: (PeerId, PeerId)| #[trigger]
                        self.edges_info@.dom().contains(k) ==> exists|t: int|
                            0 <= t < listed@.len() && (#[trigger] listed@[t])@.key() == k);
                    assert(lists_all_keys(listed@, self.edges_info@));
                    assert(keys_distinct(listed@));
                }
                RoutingTableMessagesResponse::RequestRoutingTableResponse { edges_info: listed }
            },
            RoutingTableMessages::RoutingTableUpdate { prune, prune_edges_not_reachable_for } => {
                let ghost pre = *old(self);
                let edges_removed: Vec<Edge> = if self.needs_routing_table_recalculation {
                    self.recalculate_routing_table_and_maybe_prune_edges(
                        *prune,
                        *prune_edges_not_reachable_for,
                        now,
                    )
                } else {
                    Vec::new()
                };
                self.needs_routing_table_recalculation = false;
                let local = self.my_peer_id();
                let local_edges = filter_edges_touching(&edges_removed, local);
                let response_forwarding = self.peer_forwarding.duplicate();
                proof {
                    if pre.needs_routing_table_recalculation {
                        assert forall|tt: int| 0 <= tt < local_edges@.len() implies (
                        #[trigger] local_edges@[tt])@.touches(pre.local()) && pre.edges_info@.dom().contains(
                            local_edges@[tt]@.key(),
                        ) && pre.edges_info@[local_edges@[tt]@.key()] == local_edges@[tt]@
                            && !self.edges_info@.dom().contains(local_edges@[tt]@.key()) by {
                            assert(edge_from_batch(local_edges@[tt], edges_removed@, local));
                            let t2 = choose|t2: int|
                                0 <= t2 < edges_removed@.len() && (#[trigger] edges_removed@[t2])@
                                    == local_edges@[tt]@ && edges_removed@[t2]@.touches(local);
                            assert(edge_key_set(edges_removed@).contains(
                                edges_removed@[t2]@.key(),
                            ));
                        }
                        assert forall|k: (PeerId, PeerId)| #[trigger]
                            pre.edges_info@.dom().contains(k) && !self.edges_info@.dom().contains(
                                k,
                            ) && (k.0 == pre.local() || k.1 == pre.local()) implies exists|tt: int|
                            0 <= tt < local_edges@.len() && (#[trigger] local_edges@[tt])@.key()
                                == k by {
                            assert(edge_key_set(edges_removed@).contains(k));
                            let t2 = choose|t2: int|
                                0 <= t2 < edges_removed@.len() && (
                                #[trigger] edges_removed@[t2])@.key() == k;
                            assert(edges_removed@[t2]@ == pre.edges_info@[k]);
                            lemma_view_wf(&pre.edges_info);
                            assert(edges_removed@[t2]@.peer0 == k.0 && edges_removed@[t2]@.peer1
                                == k.1);
                            assert(edges_removed@[t2]@.touches(local));
                            assert(list_has_model(local_edges@, edges_removed@[t2]@));
                            let tt = choose|tt: int|
                                0 <= tt < local_edges@.len() && (#[trigger] local_edges@[tt])@
                                    == edges_removed@[t2]@;
                            assert(local_edges@[tt]@.key() == k);
                        }
                    } else {
                        assert(edges_removed@.len() == 0);
                        if local_edges@.len() > 0 {
                            assert(edge_from_batch(local_edges@[0], edges_removed@, local));
                            assert(false);
                        }
                        assert(local_edges@.len() == 0);
                        assert(self.edges_info == pre.edges_info);
                    }
                }
                RoutingTableMessagesResponse::RoutingTableUpdateResponse {
                    edges_to_remove: local_edges,
                    peer_forwarding: response_forwarding,
                }
            },
            RoutingTableMessages::Stop => RoutingTableMessagesResponse::Empty,
        }
    }

    pub fn convert_simple_edges_to_edges(&self, edges: Vec<SimpleEdge>) -> (r: Vec<Edge>)
        requires
            self.inv(),
        ensures
            forall|t: int|
                0 <= t < r@.len() ==> self.edges_info@.dom().contains((#[trigger] r@[t])@.key())
                    && self.edges_info@[r@[t]@.key()] == r@[t]@,
            forall|j: int|
                0 <= j < edges@.len() && self.edges_info@.dom().contains(
                    (#[trigger] edges@[j]).key_spec(),
                ) ==> exists|t: int|
                    0 <= t < r@.len() && (#[trigger] r@[t])@ == self.edges_info@[edges@[j].key_spec()],
    {
        let mut out: Vec<Edge> = Vec::new();
        let mut i: usize = 0;
        while i < edges.len()
            invariant
                self.inv(),
                i <= edges@.len(),
                forall|t: int|
                    0 <= t < out@.len() ==> self.edges_info@.dom().contains(
                        (#[trigger] out@[t])@.key(),
                    ) && self.edges_info@[out@[t]@.key()] == out@[t]@,
                forall|j: int|
                    0 <= j < i && self.edges_info@.dom().contains(
                        (#[trigger] edges@[j]).key_spec(),
                    ) ==> exists|t: int|
                        0 <= t < out@.len() && (#[trigger] out@[t])@ == self.edges_info@[edges@[j].key_spec()],
            decreases edges@.len() - i,
        {
            let key = edges[i].key();
            let ghost out0 = out@;
            match self.edges_info.get(key) {
                Some(e) => {
                    out.push(e);
                    proof {
                        assert forall|j: int|
                            0 <= j < i + 1 && self.edges_info@.dom().contains(
                                (#[trigger] edges@[j]).key_spec(),
                            ) implies exists|t: int|
                            0 <= t < out@.len() && (#[trigger] out@[t])@ == self.edges_info@[edges@[j].key_spec()] by {
                            if j < i {
                                let t = choose|t: int|
                                    0 <= t < out0.len() && (#[trigger] out0[t])@ == self.edges_info@[edges@[j].key_spec()];
                                assert(out@[t] == out0[t]);
                                assert(out@[t]@ == self.edges_info@[edges@[j].key_spec()]);
                            } else {
                                assert(out@[out0.len() as int]@ == self.edges_info@[edges@[j].key_spec()]);
                            }
                        }
                    }
                },
                None => {},
            }
            i = i + 1;
        }
        out
    }
}

/// The request vocabulary of the routing table: the only surface
/// through which anything enters the core. The surrounding node
/// interprets `Stop` by shutting the serving loop down.
pub enum RoutingTableMessages {
    /// Add verified edges and report which were accepted.
    AddVerifiedEdges { edges: Vec<Edge> },
    /// Remove edges; for tests.
    AdvRemoveEdges(Vec<Edge>),
    /// Read the full current edge list, for diagnostics.
    RequestRoutingTable,
    /// Recalculate the routing table and maybe prune edges.
    RoutingTableUpdate { prune: Prune, prune_edges_not_reachable_for: u64 },
    /// Terminate the surrounding runtime.
    Stop,
}

/// Responses to [`RoutingTableMessages`].
pub enum RoutingTableMessagesResponse {
    Empty,
    RequestRoutingTableResponse { edges_info: Vec<Edge> },
    AddVerifiedEdgesResponse(Vec<Edge>),
    RoutingTableUpdateResponse {
        /// Evicted edges that touch the local peer; the caller keeps
        /// local adjacency separately.
        edges_to_remove: Vec<Edge>,
        /// The freshly published forwarding snapshot.
        peer_forwarding: ForwardingTable,
    },
}

/// Edges carried by a request are canonical.
pub open spec fn msg_edges_wf(msg: RoutingTableMessages) -> bool {
    match msg {
        RoutingTableMessages::AddVerifiedEdges { edges } => forall|j: int|
            0 <= j < edges@.len() ==> (#[trigger] edges@[j])@.wf(),
        RoutingTableMessages::AdvRemoveEdges(edges) => forall|j: int|
            0 <= j < edges@.len() ==> (#[trigger] edges@[j])@.wf(),
        _ => true,
    }
}

/// The conditions a pre-existing store must meet for a fresh routing
/// table over it to be consistent: component edges canonical, nonces
/// below the cell value, spilled peers mentioned by their existing
/// entries, entry endpoints owned by their own component, and the
/// local peer not spilled.
pub open spec fn store_ready(store: &StoreModel, local: PeerId) -> bool {
    let next = match store.last_component_nonce {
        Some(v) => v as int,
        None => 0int,
    };
    &&& forall|c: u64| #[trigger]
        store.components@.dom().contains(c) ==> c < next && all_models_wf(store.components@[c])
    &&& forall|p: PeerId| #[trigger]
        store.peer_component@.dom().contains(p) ==> store.peer_component@[p] < next
    &&& !store.peer_component@.dom().contains(local)
    &&& forall|p: PeerId| #[trigger]
        store.peer_component@.dom().contains(p) ==> store.components@.dom().contains(
            store.peer_component@[p],
        ) && component_mentions(store.components@[store.peer_component@[p]], p)
    &&& forall|c: u64| #[trigger]
        store.components@.dom().contains(c) ==> comp_endpoints_owned(
            store.peer_component@,
            local,
            c,
            store.components@[c],
        )
}

} // verus!
