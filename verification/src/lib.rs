//! Core of a peer-to-peer routing table: an authoritative view of the
//! undirected overlay graph connecting peers, shortest-path next-hop
//! computation, and spilling of long-unreachable components to a
//! key-value store model.

pub mod edge;
pub mod edge_store;
pub mod graph;
pub mod peer_map;
pub mod store;
pub mod table;
