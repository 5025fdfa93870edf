//! Signed edge announcements: an unordered pair of peers, a nonce that
//! settles which announcement is newest, a tag saying whether the
//! connection was added or removed, and the two endpoint signatures,
//! carried verbatim and never inspected.

use vstd::prelude::*;

verus! {

/// Peer identity. The surrounding node maps its opaque, totally ordered
/// peer keys one-to-one onto these identifiers.
pub type PeerId = u64;

/// Whether the announced connection was established or torn down.
#[derive(Clone, Copy, Debug, PartialEq, Eq, Structural)]
pub enum EdgeKind {
    Added,
    Removed,
}

/// Mathematical model of an [`Edge`].
pub ghost struct EdgeModel {
    pub peer0: PeerId,
    pub peer1: PeerId,
    pub nonce: u64,
    pub kind: EdgeKind,
    pub signature0: Seq<u8>,
    pub signature1: Seq<u8>,
}

impl EdgeModel {
    /// Canonical unordered pair identifying the edge.
    pub open spec fn key(self) -> (PeerId, PeerId) {
        (self.peer0, self.peer1)
    }

    /// The peer pair is canonical: strictly ordered, so never a self-loop.
    pub open spec fn wf(self) -> bool {
        self.peer0 < self.peer1
    }

    pub open spec fn touches(self, peer: PeerId) -> bool {
        self.peer0 == peer || self.peer1 == peer
    }

    pub open spec fn is_added(self) -> bool {
        self.kind is Added
    }
}

/// A verified edge announcement. `peer0 < peer1` always holds; the
/// constructor canonicalises the pair and keeps each signature with its
/// peer.
pub struct Edge {
    pub peer0: PeerId,
    pub peer1: PeerId,
    pub nonce: u64,
    pub kind: EdgeKind,
    pub signature0: Vec<u8>,
    pub signature1: Vec<u8>,
}

impl View for Edge {
    type V = EdgeModel;

    open spec fn view(&self) -> EdgeModel {
        EdgeModel {
            peer0: self.peer0,
            peer1: self.peer1,
            nonce: self.nonce,
            kind: self.kind,
            signature0: self.signature0@,
            signature1: self.signature1@,
        }
    }
}

impl Edge {
    /// Canonical key for an unordered peer pair.
    pub open spec fn key_spec(peer_a: PeerId, peer_b: PeerId) -> (PeerId, PeerId) {
        if peer_a < peer_b {
            (peer_a, peer_b)
        } else {
            (peer_b, peer_a)
        }
    }

    /// Orders an unordered peer pair canonically.
    pub fn key(peer_a: PeerId, peer_b: PeerId) -> (r: (PeerId, PeerId))
        ensures
            r == Edge::key_spec(peer_a, peer_b),
    {
        if peer_a < peer_b {
            (peer_a, peer_b)
        } else {
            (peer_b, peer_a)
        }
    }

    /// Builds an edge, canonicalising the peer order; each signature
    /// stays attached to its own peer.
    pub fn new(
        peer_a: PeerId,
        peer_b: PeerId,
        nonce: u64,
        kind: EdgeKind,
        signature_a: Vec<u8>,
        signature_b: Vec<u8>,
    ) -> (r: Edge)
        requires
            peer_a != peer_b,
        ensures
            r@.wf(),
            r@.key() == Edge::key_spec(peer_a, peer_b),
            r@.nonce == nonce,
            r@.kind == kind,
            peer_a < peer_b ==> r@.signature0 == signature_a@ && r@.signature1 == signature_b@,
            peer_b < peer_a ==> r@.signature0 == signature_b@ && r@.signature1 == signature_a@,
    {
        if peer_a < peer_b {
            Edge {
                peer0: peer_a,
                peer1: peer_b,
                nonce,
                kind,
                signature0: signature_a,
                signature1: signature_b,
            }
        } else {
            Edge {
                peer0: peer_b,
                peer1: peer_a,
                nonce,
                kind,
                signature0: signature_b,
                signature1: signature_a,
            }
        }
    }

    /// The canonical pair of this edge.
    pub fn get_pair(&self) -> (r: (PeerId, PeerId))
        ensures
            r == self@.key(),
    {
        (self.peer0, self.peer1)
    }

    pub fn contains_peer(&self, peer: PeerId) -> (r: bool)
        ensures
            r == self@.touches(peer),
    {
        self.peer0 == peer || self.peer1 == peer
    }

    pub fn edge_type(&self) -> (r: EdgeKind)
        ensures
            r == self@.kind,
    {
        self.kind
    }

    /// An owned copy with the same model.
    pub fn duplicate(&self) -> (r: Edge)
        ensures
            r@ == self@,
    {
        Edge {
            peer0: self.peer0,
            peer1: self.peer1,
            nonce: self.nonce,
            kind: self.kind,
            signature0: copy_bytes(&self.signature0),
            signature1: copy_bytes(&self.signature1),
        }
    }
}

/// An edge identified only by its key and nonce, as used by the
/// reconciliation interface.
pub struct SimpleEdge {
    pub peer0: PeerId,
    pub peer1: PeerId,
    pub nonce: u64,
}

impl SimpleEdge {
    pub open spec fn key_spec(self) -> (PeerId, PeerId) {
        (self.peer0, self.peer1)
    }

    pub fn key(&self) -> (r: (PeerId, PeerId))
        ensures
            r == self.key_spec(),
    {
        (self.peer0, self.peer1)
    }
}

/// Every edge model in the sequence has a canonical key.
pub open spec fn all_models_wf(s: Seq<EdgeModel>) -> bool {
    forall|j: int| 0 <= j < s.len() ==> (#[trigger] s[j]).wf()
}

/// Copy of a peer list.
pub fn copy_peers(peers: &Vec<PeerId>) -> (r: Vec<PeerId>)
    ensures
        r@ == peers@,
{
    let mut out: Vec<PeerId> = Vec::new();
    let mut i: usize = 0;
    while i < peers.len()
        invariant
            i <= peers@.len(),
            out@ == peers@.subrange(0, i as int),
        decreases peers@.len() - i,
    {
        out.push(peers[i]);
        i = i + 1;
        proof {
            assert(out@ =~= peers@.subrange(0, i as int));
        }
    }
    proof {
        assert(out@ =~= peers@);
    }
    out
}

/// Whether a peer list holds `x`.
pub fn peers_contain(peers: &Vec<PeerId>, x: PeerId) -> (r: bool)
    ensures
        r == peers@.contains(x),
{
    let mut i: usize = 0;
    while i < peers.len()
        invariant
            i <= peers@.len(),
            forall|j: int| 0 <= j < i ==> peers@[j] != x,
        decreases peers@.len() - i,
    {
        if peers[i] == x {
            return true;
        }
        i = i + 1;
    }
    false
}

/// Byte-for-byte copy of a byte vector.
pub fn copy_bytes(bytes: &Vec<u8>) -> (r: Vec<u8>)
    ensures
        r@ == bytes@,
{
    let mut out: Vec<u8> = Vec::new();
    let mut i: usize = 0;
    while i < bytes.len()
        invariant
            i <= bytes.len(),
            out@ == bytes@.subrange(0, i as int),
        decreases bytes.len() - i,
    {
        out.push(bytes[i]);
        i = i + 1;
        proof {
            assert(out@ =~= bytes@.subrange(0, i as int));
        }
    }
    proof {
        assert(out@ =~= bytes@);
    }
    out
}

/// Owned copies of a list of edges, models unchanged.
pub fn copy_edges(edges: &Vec<Edge>) -> (r: Vec<Edge>)
    ensures
        r@.len() == edges@.len(),
        forall|j: int| 0 <= j < r@.len() ==> (#[trigger] r@[j])@ == edges@[j]@,
{
    let mut out: Vec<Edge> = Vec::new();
    let mut i: usize = 0;
    while i < edges.len()
        invariant
            i <= edges.len(),
            out@.len() == i,
            forall|j: int| 0 <= j < i ==> out@[j]@ == edges@[j]@,
        decreases edges.len() - i,
    {
        out.push(edges[i].duplicate());
        i = i + 1;
    }
    out
}

} // verus!
