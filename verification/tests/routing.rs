use routing_table::edge::{Edge, EdgeKind};
use routing_table::store::StoreModel;
use routing_table::table::{
    Prune, RoutingTableActor, RoutingTableMessages, RoutingTableMessagesResponse,
    SAVE_PEERS_MAX_TIME,
};

fn edge(a: u64, b: u64, nonce: u64, kind: EdgeKind) -> Edge {
    Edge::new(a, b, nonce, kind, vec![1, 2, 3], vec![4, 5, 6])
}

fn added(a: u64, b: u64, nonce: u64) -> Edge {
    edge(a, b, nonce, EdgeKind::Added)
}

fn removed(a: u64, b: u64, nonce: u64) -> Edge {
    edge(a, b, nonce, EdgeKind::Removed)
}

fn fresh_actor(local: u64) -> RoutingTableActor {
    RoutingTableActor::new(local, StoreModel::new())
}

#[test]
fn forwarding_after_two_added_edges() {
    let (a, b, c) = (0u64, 1u64, 2u64);
    let mut t = fresh_actor(a);
    let accepted = t.add_verified_edges_to_routing_table(vec![added(a, b, 1), added(b, c, 1)], 10);
    assert_eq!(accepted.len(), 2);
    let evicted = t.recalculate_routing_table_and_maybe_prune_edges(Prune::Disable, 3_600_000, 10);
    assert_eq!(evicted.len(), 0);
    assert_eq!(t.peer_forwarding.len(), 2);
    assert_eq!(t.peer_forwarding.get(b).unwrap(), vec![b]);
    assert_eq!(t.peer_forwarding.get(c).unwrap(), vec![b]);
    assert!(t.peer_forwarding.get(a).is_none());
}

#[test]
fn forwarding_offers_both_shortest_paths() {
    let (a, b, c, d) = (0u64, 1u64, 2u64, 3u64);
    let mut t = fresh_actor(a);
    t.add_verified_edges_to_routing_table(
        vec![added(a, b, 1), added(a, c, 1), added(b, d, 1), added(c, d, 1)],
        10,
    );
    t.recalculate_routing_table_and_maybe_prune_edges(Prune::Disable, 3_600_000, 10);
    let mut hops_d = t.peer_forwarding.get(d).unwrap();
    hops_d.sort();
    assert_eq!(hops_d, vec![b, c]);
    assert_eq!(t.peer_forwarding.get(b).unwrap(), vec![b]);
    assert_eq!(t.peer_forwarding.get(c).unwrap(), vec![c]);
}

#[test]
fn supersede_with_removed_clears_graph() {
    let (a, b) = (0u64, 1u64);
    let mut t = fresh_actor(a);
    let accepted =
        t.add_verified_edges_to_routing_table(vec![added(a, b, 1), removed(a, b, 2)], 10);
    assert_eq!(accepted.len(), 2);
    t.recalculate_routing_table_and_maybe_prune_edges(Prune::Disable, 3_600_000, 10);
    assert_eq!(t.peer_forwarding.len(), 0);
    assert_eq!(t.raw_graph.total_active_edges(), 0);
    let stored = t.get_edge(a, b).unwrap();
    assert_eq!(stored.nonce, 2);
    assert_eq!(stored.kind, EdgeKind::Removed);
}

#[test]
fn stale_nonce_is_rejected() {
    let (a, b) = (0u64, 1u64);
    let mut t = fresh_actor(a);
    let first = t.add_verified_edges_to_routing_table(vec![added(a, b, 3)], 10);
    assert_eq!(first.len(), 1);
    let second = t.add_verified_edges_to_routing_table(vec![added(a, b, 2)], 20);
    assert_eq!(second.len(), 0);
    assert_eq!(t.get_edge(a, b).unwrap().nonce, 3);
    assert!(!t.is_edge_newer(Edge::key(a, b), 3));
    assert!(t.is_edge_newer(Edge::key(a, b), 4));
}

#[test]
fn spill_then_restore_round_trip() {
    let (a, b, c, d) = (0u64, 1u64, 2u64, 3u64);
    let now0 = SAVE_PEERS_MAX_TIME;
    let mut t = fresh_actor(a);
    t.add_verified_edges_to_routing_table(
        vec![added(a, b, 1), added(b, c, 1), added(c, d, 1)],
        now0,
    );
    t.recalculate_routing_table_and_maybe_prune_edges(Prune::Disable, 3_600_000, now0);
    let now1 = now0 + SAVE_PEERS_MAX_TIME + 1;
    let evicted = t.recalculate_routing_table_and_maybe_prune_edges(Prune::PruneNow, 0, now1);
    assert_eq!(evicted.len(), 3);
    assert_eq!(t.raw_graph.total_active_edges(), 0);
    assert!(t.get_edge(a, b).is_none());
    assert_eq!(t.store.components.len(), 1);
    assert_eq!(t.store.peer_component.get(b), Some(0));
    assert_eq!(t.store.peer_component.get(c), Some(0));
    assert_eq!(t.store.peer_component.get(d), Some(0));
    assert!(!t.peer_last_time_reachable.contains(b));

    let now2 = now1 + 5;
    let accepted = t.add_verified_edges_to_routing_table(vec![added(a, b, 3)], now2);
    assert_eq!(accepted.len(), 1);
    assert_eq!(t.get_edge(a, b).unwrap().nonce, 3);
    assert_eq!(t.get_edge(b, c).unwrap().nonce, 1);
    assert_eq!(t.get_edge(c, d).unwrap().nonce, 1);
    assert_eq!(t.store.components.len(), 0);
    assert_eq!(t.store.peer_component.len(), 0);
    assert!(t.peer_last_time_reachable.contains(b));
    assert!(t.peer_last_time_reachable.contains(c));
    assert!(t.peer_last_time_reachable.contains(d));
}

#[test]
fn hysteresis_prevents_young_spill() {
    let (a, b) = (0u64, 1u64);
    let now0 = SAVE_PEERS_MAX_TIME;
    let mut t = fresh_actor(a);
    t.add_verified_edges_to_routing_table(vec![added(a, b, 1)], now0);
    t.recalculate_routing_table_and_maybe_prune_edges(Prune::Disable, 3_600_000, now0);
    let evicted =
        t.recalculate_routing_table_and_maybe_prune_edges(Prune::PruneOncePerHour, 1, now0 + 10);
    assert_eq!(evicted.len(), 0);
    assert!(t.store.last_component_nonce.is_none());
    assert_eq!(t.store.components.len(), 0);
    assert_eq!(t.store.peer_component.len(), 0);
    assert_eq!(t.next_available_component_nonce, 0);
    assert!(t.get_edge(a, b).is_some());
}

#[test]
fn component_nonce_increments_across_prunes() {
    let (a, b, c) = (0u64, 1u64, 2u64);
    let now0 = SAVE_PEERS_MAX_TIME;
    let mut t = fresh_actor(a);
    t.add_verified_edges_to_routing_table(vec![added(a, b, 1)], now0);
    let evicted1 = t.recalculate_routing_table_and_maybe_prune_edges(Prune::PruneNow, 0, now0);
    assert_eq!(evicted1.len(), 1);
    assert_eq!(t.next_available_component_nonce, 1);
    assert_eq!(t.store.last_component_nonce, Some(1));
    assert_eq!(t.store.peer_component.get(b), Some(0));

    t.add_verified_edges_to_routing_table(vec![added(a, c, 1)], now0 + 5);
    let evicted2 = t.recalculate_routing_table_and_maybe_prune_edges(Prune::PruneNow, 0, now0 + 5);
    assert_eq!(evicted2.len(), 1);
    assert_eq!(t.next_available_component_nonce, 2);
    assert_eq!(t.store.last_component_nonce, Some(2));
    assert_eq!(t.store.peer_component.get(c), Some(1));
    assert_eq!(t.store.components.len(), 2);
}

#[test]
fn ingestion_is_idempotent() {
    let (a, b, c) = (0u64, 1u64, 2u64);
    let mut t = fresh_actor(a);
    let batch = || vec![added(a, b, 1), added(b, c, 5)];
    let acc1 = t.add_verified_edges_to_routing_table(batch(), 100);
    assert_eq!(acc1.len(), 2);
    let edges_before = t.edges_info.len();
    let tracker_before = t.peer_last_time_reachable.len();
    let acc2 = t.add_verified_edges_to_routing_table(batch(), 200);
    assert_eq!(acc2.len(), 0);
    assert_eq!(t.edges_info.len(), edges_before);
    assert_eq!(t.peer_last_time_reachable.len(), tracker_before);
    assert_eq!(t.get_edge(a, b).unwrap().nonce, 1);
    assert_eq!(t.get_edge(b, c).unwrap().nonce, 5);
}

#[test]
fn restored_peers_are_backdated_for_respill() {
    let (a, b) = (0u64, 1u64);
    let now0 = SAVE_PEERS_MAX_TIME;
    let mut t = fresh_actor(a);
    t.add_verified_edges_to_routing_table(vec![added(a, b, 1)], now0);
    t.recalculate_routing_table_and_maybe_prune_edges(Prune::PruneNow, 0, now0);
    assert_eq!(t.store.peer_component.get(b), Some(0));
    let now1 = now0 + 10;
    t.add_verified_edges_to_routing_table(vec![added(a, b, 3)], now1);
    // the restored timestamp is backdated one full window, so the next
    // prune cycle re-evaluates the peer immediately
    assert_eq!(t.peer_last_time_reachable.get(b), Some(now1 - SAVE_PEERS_MAX_TIME));
    // a recomputation that sees the peer reachable refreshes it
    let evicted = t.recalculate_routing_table_and_maybe_prune_edges(
        Prune::PruneOncePerHour,
        2 * SAVE_PEERS_MAX_TIME,
        now1,
    );
    assert_eq!(evicted.len(), 0);
    assert_eq!(t.peer_last_time_reachable.get(b), Some(now1));
}

#[test]
fn message_surface_round_trip() {
    let (a, b, c) = (0u64, 1u64, 2u64);
    let mut t = fresh_actor(a);
    let resp = t.handle(
        RoutingTableMessages::AddVerifiedEdges { edges: vec![added(a, b, 1), added(b, c, 1)] },
        10,
    );
    match resp {
        RoutingTableMessagesResponse::AddVerifiedEdgesResponse(accepted) => {
            assert_eq!(accepted.len(), 2);
        },
        _ => panic!("expected an accepted-edges response"),
    }
    let resp = t.handle(
        RoutingTableMessages::RoutingTableUpdate {
            prune: Prune::Disable,
            prune_edges_not_reachable_for: 3_600_000,
        },
        11,
    );
    match resp {
        RoutingTableMessagesResponse::RoutingTableUpdateResponse {
            edges_to_remove,
            peer_forwarding,
        } => {
            assert_eq!(edges_to_remove.len(), 0);
            assert!(peer_forwarding.contains_key(b));
            assert!(peer_forwarding.contains_key(c));
            assert_eq!(peer_forwarding.get(c).unwrap(), vec![b]);
        },
        _ => panic!("expected an update response"),
    }
    let resp = t.handle(RoutingTableMessages::RequestRoutingTable, 12);
    match resp {
        RoutingTableMessagesResponse::RequestRoutingTableResponse { edges_info } => {
            assert_eq!(edges_info.len(), 2);
        },
        _ => panic!("expected the full edge list"),
    }
    let resp = t.handle(RoutingTableMessages::AdvRemoveEdges(vec![added(a, b, 1)]), 13);
    assert!(matches!(resp, RoutingTableMessagesResponse::Empty));
    assert!(t.get_edge(a, b).is_none());
    assert!(t.get_edge(b, c).is_some());
    let resp = t.handle(RoutingTableMessages::Stop, 14);
    assert!(matches!(resp, RoutingTableMessagesResponse::Empty));
}

#[test]
fn update_reports_evicted_local_edges_only() {
    let (a, b, c) = (0u64, 1u64, 2u64);
    let now0 = SAVE_PEERS_MAX_TIME;
    let mut t = fresh_actor(a);
    t.handle(
        RoutingTableMessages::AddVerifiedEdges { edges: vec![added(a, b, 1), added(b, c, 1)] },
        now0,
    );
    let resp = t.handle(
        RoutingTableMessages::RoutingTableUpdate {
            prune: Prune::PruneNow,
            prune_edges_not_reachable_for: 0,
        },
        now0,
    );
    match resp {
        RoutingTableMessagesResponse::RoutingTableUpdateResponse { edges_to_remove, .. } => {
            assert_eq!(edges_to_remove.len(), 1);
            assert_eq!(edges_to_remove[0].peer0, a);
            assert_eq!(edges_to_remove[0].peer1, b);
        },
        _ => panic!("expected an update response"),
    }
}

#[test]
fn restart_resumes_component_numbering() {
    let (a, b) = (0u64, 1u64);
    let now0 = SAVE_PEERS_MAX_TIME;
    let mut t = fresh_actor(a);
    t.add_verified_edges_to_routing_table(vec![added(a, b, 1)], now0);
    t.recalculate_routing_table_and_maybe_prune_edges(Prune::PruneNow, 0, now0);
    assert_eq!(t.store.last_component_nonce, Some(1));
    // the cell holds the next nonce to allocate; a restart resumes there
    let restarted = RoutingTableActor::new(a, t.store);
    assert_eq!(restarted.next_available_component_nonce, 1);
}
