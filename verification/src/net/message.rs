use vstd::prelude::*;

use crate::types::{Epoch, NodeId};

verus! {

/// Statistics of one peer, carried in a stats response.
#[derive(Debug, Clone)]
pub struct PeerStats {
    pub peer_id: NodeId,
    /// The peer's socket address, as text.
    pub peer_addr: String,
    /// Latest round trip (nanoseconds).
    pub rtt_nanos: u64,
    /// Standard deviation of the round trip over the measurement history (nanoseconds).
    pub rtt_jitter_ns: u64,
    /// Latest clock offset (nanoseconds).
    pub offset_nanos: i64,
    /// Forward less backward one-way delay (nanoseconds).
    pub asymmetry_nanos: i64,
    pub quality: u32,
    pub epoch_measured: u64,
    /// Round-trip trend over epochs (nanoseconds per epoch; negative = improving).
    pub trend_nanos_per_epoch: i64,
    pub sample_count: u32,
}

/// Messages exchanged between nodes.
#[derive(Debug, Clone)]
pub enum ProtocolMessage {
    /// Time exchange, first step (client to server).
    TimeRequest { sender: NodeId, t1_nanos: u64, epoch: Epoch },
    /// Time exchange, second step (server to client).
    TimeResponse { sender: NodeId, t1_nanos: u64, t2_nanos: u64, t3_nanos: u64, epoch: Epoch },
    /// Layer 1 beacon broadcast.
    Beacon { data: Vec<u8>, epoch: Epoch },
    /// Layer 2 cluster commitment.
    ClusterCommitment { data: Vec<u8>, epoch: Epoch },
    /// Layer 3 clock tick broadcast.
    ClockTick { data: Vec<u8>, epoch: Epoch },
    /// DHT routing: find a node.
    FindNode { target: [u8; 32], layer: u8 },
    /// DHT routing: nodes found.
    FoundNodes { nodes: Vec<(NodeId, Vec<u8>)>, layer: u8 },
    /// DHT storage: put.
    Store { key: [u8; 32], value: Vec<u8>, layer: u8 },
    /// DHT storage: get.
    Retrieve { key: [u8; 32], layer: u8 },
    /// DHT storage: get response.
    RetrieveResponse { key: [u8; 32], value: Option<Vec<u8>>, layer: u8 },
    /// Liveness probe.
    Ping { nonce: u64 },
    /// Liveness answer.
    Pong { nonce: u64 },
    /// Peer discovery: where the sender listens.
    PeerAnnounce { node_id: NodeId, listen_port: u16 },
    /// Stats query.
    StatsRequest {},
    /// Stats answer.
    StatsResponse {
        node_id: NodeId,
        epoch: u64,
        offset_nanos: i64,
        uncertainty_nanos: u64,
        drift_ppb: i64,
        solver_converged: bool,
        solver_iters: u32,
        max_defect_nanos: u64,
        rtt_min_ns: u64,
        rtt_mean_ns: u64,
        rtt_max_ns: u64,
        /// Standard deviation of the per-peer round trips (nanoseconds).
        rtt_jitter_ns: u64,
        geoid_depth: u8,
        geoid_region_counts: Vec<u32>,
        chain_length: u64,
        chain_valid: bool,
        peers: Vec<PeerStats>,
    },
}

} // verus!
