use routing_table::edge::{Edge, EdgeKind, SimpleEdge};
use routing_table::store::{get_store_path, StoreModel};
use routing_table::table::{Prune, RoutingTableActor, SAVE_PEERS_MAX_TIME};

fn added(a: u64, b: u64, nonce: u64) -> Edge {
    Edge::new(a, b, nonce, EdgeKind::Added, vec![7], vec![8])
}

#[test]
fn edge_construction_canonicalises_the_pair() {
    let e = Edge::new(5, 2, 9, EdgeKind::Added, vec![10, 11], vec![20, 21]);
    assert_eq!(e.peer0, 2);
    assert_eq!(e.peer1, 5);
    assert_eq!(e.nonce, 9);
    // each signature stays with its own peer through the swap
    assert_eq!(e.signature0, vec![20, 21]);
    assert_eq!(e.signature1, vec![10, 11]);
    assert_eq!(Edge::key(5, 2), (2, 5));
    assert_eq!(Edge::key(2, 5), (2, 5));
    assert!(e.contains_peer(2));
    assert!(e.contains_peer(5));
    assert!(!e.contains_peer(9));
    assert_eq!(e.get_pair(), (2, 5));
    assert_eq!(e.edge_type(), EdgeKind::Added);
}

#[test]
fn edge_duplicate_preserves_every_field() {
    let e = Edge::new(1, 2, 3, EdgeKind::Removed, vec![1], vec![2]);
    let d = e.duplicate();
    assert_eq!(d.peer0, 1);
    assert_eq!(d.peer1, 2);
    assert_eq!(d.nonce, 3);
    assert_eq!(d.kind, EdgeKind::Removed);
    assert_eq!(d.signature0, vec![1]);
    assert_eq!(d.signature1, vec![2]);
}

#[test]
fn store_path_is_the_data_directory_under_base() {
    assert_eq!(get_store_path("/home/node"), "/home/node/data");
    assert_eq!(get_store_path("/home/node/"), "/home/node/data");
    assert_eq!(get_store_path(""), "data");
}

#[test]
fn component_table_entry_is_consumed_on_fetch() {
    let mut store = StoreModel::new();
    assert!(!store.components.contains(0));
    store.components.insert_new(0, vec![added(1, 2, 1)]);
    assert!(store.components.contains(0));
    let fetched = store.components.get_and_remove(0).unwrap();
    assert_eq!(fetched.len(), 1);
    assert_eq!(fetched[0].peer0, 1);
    assert!(store.components.get_and_remove(0).is_none());
}

#[test]
fn convert_simple_edges_looks_up_known_keys() {
    let mut t = RoutingTableActor::new(0, StoreModel::new());
    t.add_verified_edges_to_routing_table(vec![added(0, 1, 4)], 10);
    let simple_known = SimpleEdge { peer0: 0, peer1: 1, nonce: 4 };
    let simple_unknown = SimpleEdge { peer0: 1, peer1: 2, nonce: 1 };
    let found = t.convert_simple_edges_to_edges(vec![simple_known, simple_unknown]);
    assert_eq!(found.len(), 1);
    assert_eq!(found[0].peer0, 0);
    assert_eq!(found[0].peer1, 1);
    assert_eq!(found[0].nonce, 4);
}

#[test]
fn removed_edges_still_spill_with_their_peer() {
    let (a, b) = (0u64, 1u64);
    let now0 = SAVE_PEERS_MAX_TIME;
    let mut t = RoutingTableActor::new(a, StoreModel::new());
    t.add_verified_edges_to_routing_table(
        vec![Edge::new(a, b, 2, EdgeKind::Removed, vec![], vec![])],
        now0,
    );
    let evicted = t.recalculate_routing_table_and_maybe_prune_edges(Prune::PruneNow, 0, now0);
    assert_eq!(evicted.len(), 1);
    assert_eq!(evicted[0].kind, EdgeKind::Removed);
    assert_eq!(t.store.peer_component.get(b), Some(0));
    assert!(t.get_edge(a, b).is_none());
}

#[test]
fn forwarding_snapshot_copy_matches_original() {
    let (a, b) = (0u64, 1u64);
    let mut t = RoutingTableActor::new(a, StoreModel::new());
    t.add_verified_edges_to_routing_table(vec![added(a, b, 1)], 10);
    t.recalculate_routing_table_and_maybe_prune_edges(Prune::Disable, 3_600_000, 10);
    let snapshot = t.peer_forwarding.duplicate();
    assert_eq!(snapshot.len(), 1);
    assert!(snapshot.contains_key(b));
    assert_eq!(snapshot.get(b).unwrap(), vec![b]);
}
