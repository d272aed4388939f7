use vstd::prelude::*;

use crate::crypto::hash::{blake3_digest, blake3_hash, le_bytes, push_le_u64};
use crate::types::{item_hashes, Epoch, MerkleDigest, NodeId};

verus! {

/// Evidence that a node heard from `claimed_count` distinct peers: the count and the
/// digest of the peer identities.
#[derive(Debug, Clone)]
pub struct PeerCountProof {
    pub claimed_count: u32,
    pub merkle_root: [u8; 32],
}

/// The identity bytes of each peer, in order.
pub open spec fn peer_id_bytes(peers: Seq<NodeId>) -> Seq<Seq<u8>> {
    peers.map_values(|p: NodeId| p.0@)
}

impl PeerCountProof {
    /// The proof for a solve over `peer_count` peers with identities `peers`: `None`
    /// without peers, else the count and the digest of the identities.
    pub fn for_peers(peer_count: usize, peers: &[NodeId]) -> (p: Option<Self>)
        ensures
            peer_count == 0 ==> p is None,
            peer_count > 0 ==> (p matches Some(q) && q.claimed_count == peer_count as u32
                && q.merkle_root@ == blake3_digest(item_hashes(peer_id_bytes(peers@), peers@.len()))),
    {
        if peer_count == 0 {
            return None;
        }
        let mut items: Vec<&[u8]> = Vec::new();
        let mut i: usize = 0;
        while i < peers.len()
            invariant
                0 <= i <= peers@.len(),
                items@.len() == i,
                forall|j: int| 0 <= j < i ==> (#[trigger] items@[j])@ == peers@[j].0@,
            decreases peers@.len() - i,
        {
            items.push(peers[i].0.as_slice());
            i = i + 1;
        }
        let digest = MerkleDigest::from_items(items.as_slice());
        assert(items@.map_values(|v: &[u8]| v@) =~= peer_id_bytes(peers@));
        Some(PeerCountProof { claimed_count: peer_count as u32, merkle_root: digest.0 })
    }
}

/// The bytes a beacon's key hashes: the blinded identity commitment, then the epoch in
/// little-endian order.
pub open spec fn beacon_key_bytes(commitment: [u8; 32], epoch: Epoch) -> Seq<u8> {
    commitment@ + le_bytes(epoch.0)
}

/// The storage key of a beacon: the hash of its blinded identity and its epoch.
pub fn beacon_key(commitment: &[u8; 32], epoch: Epoch) -> (k: [u8; 32])
    ensures
        k@ == blake3_digest(beacon_key_bytes(*commitment, epoch)),
{
    let mut bytes: Vec<u8> = Vec::new();
    let mut i: usize = 0;
    while i < 32
        invariant
            0 <= i <= 32,
            bytes@ == commitment@.take(i as int),
        decreases 32 - i,
    {
        assert(commitment@.take(i + 1) =~= commitment@.take(i as int).push(commitment@[i as int]));
        bytes.push(commitment[i]);
        i = i + 1;
    }
    assert(commitment@.take(32) =~= commitment@);
    push_le_u64(&mut bytes, epoch.0);
    blake3_hash(bytes.as_slice())
}

} // verus!
