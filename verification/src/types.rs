use vstd::prelude::*;

use crate::bytes::bytes32_eq;
use crate::crypto::hash::{blake3_digest, blake3_hash};

verus! {

/// Number of dimensions of a network coordinate.
pub const COORDINATE_DIMENSIONS: usize = 6;

/// Sequential epoch number.
#[derive(Debug, Clone, Copy, PartialEq, Eq, Hash, Structural)]
pub struct Epoch(pub u64);

impl Epoch {
    /// The following epoch.
    pub fn next(self) -> (e: Self)
        requires
            self.0 < u64::MAX,
        ensures
            e.0 == self.0 + 1,
    {
        Epoch(self.0 + 1)
    }

    /// The preceding epoch, or `None` for epoch 0.
    pub fn prev(self) -> (e: Option<Self>)
        ensures
            self.0 == 0 ==> e is None,
            self.0 > 0 ==> e == Some(Epoch((self.0 - 1) as u64)),
    {
        if self.0 == 0 {
            None
        } else {
            Some(Epoch(self.0 - 1))
        }
    }
}

/// Identity of a node: 32 bytes (the hash of its public key).
#[derive(Debug, Clone, Copy, Eq, Hash)]
pub struct NodeId(pub [u8; 32]);

impl PartialEq for NodeId {
    fn eq(&self, other: &Self) -> (r: bool) {
        bytes32_eq(&self.0, &other.0)
    }
}

impl NodeId {
    /// The identity of the holder of the public key `pk`: the BLAKE3 hash of its bytes.
    pub fn from_public_key(pk: &[u8; 32]) -> (id: Self)
        ensures
            id.0@ == blake3_digest(pk@),
    {
        NodeId(blake3_hash(pk))
    }
}

impl vstd::std_specs::cmp::PartialEqSpecImpl for NodeId {
    open spec fn obeys_eq_spec() -> bool {
        true
    }

    open spec fn eq_spec(&self, other: &Self) -> bool {
        self.0 == other.0
    }
}

/// A wall-clock instant in nanoseconds since the Unix epoch.
#[derive(Debug, Clone, Copy)]
pub struct Timestamp {
    pub nanos: u64,
}

/// Calls `std::time::SystemTime::now` and measures it from the Unix epoch; `None` when
/// the system clock reads a time before the epoch. The value depends on the clock, so
/// nothing is stated of it.
#[verifier::external_body]
fn system_time_nanos() -> (t: Option<u64>) {
    match std::time::SystemTime::now().duration_since(std::time::UNIX_EPOCH) {
        Ok(d) => Some(d.as_nanos() as u64),
        Err(_) => None,
    }
}

impl Timestamp {
    /// The current wall-clock time; time 0 when the system clock reads a time before
    /// the Unix epoch.
    pub fn now() -> (t: Self) {
        Timestamp::from_clock_reading(system_time_nanos())
    }

    /// The instant of a system clock reading in nanoseconds since the Unix epoch; time
    /// 0 for a reading from before the epoch (`None`).
    pub fn from_clock_reading(reading: Option<u64>) -> (t: Self)
        ensures
            t.nanos == match reading {
                Some(n) => n,
                None => 0,
            },
    {
        match reading {
            Some(n) => Timestamp { nanos: n },
            None => Timestamp { nanos: 0 },
        }
    }

    /// The instant `nanos` nanoseconds after the Unix epoch.
    pub fn from_nanos(nanos: u64) -> (t: Self)
        ensures
            t.nanos == nanos,
    {
        Timestamp { nanos }
    }
}

/// A span of time in nanoseconds.
#[derive(Debug, Clone, Copy)]
pub struct Duration {
    pub nanos: u64,
}

impl Duration {
    /// A span of `nanos` nanoseconds.
    pub fn from_nanos(nanos: u64) -> (d: Self)
        ensures
            d.nanos == nanos,
    {
        Duration { nanos }
    }
}

/// Statistical profile of the latency between two nodes over several epochs.
#[derive(Debug, Clone)]
pub struct RelationalLatencyProfile {
    pub mean_nanos: i64,
    pub variance_nanos: i64,
    pub p10_nanos: i64,
    pub p50_nanos: i64,
    pub p90_nanos: i64,
    /// Rate of change of the mean latency (nanoseconds per epoch, positive = increasing).
    pub trend_nanos_per_epoch: i64,
    pub sample_count: u32,
    pub epoch_first: u64,
    pub epoch_last: u64,
}

/// A Merkle-style digest over a list of items.
#[derive(Debug, Clone)]
pub struct MerkleDigest(pub [u8; 32]);

/// The concatenated item hashes of the first `k` items.
pub open spec fn item_hashes(items: Seq<Seq<u8>>, k: nat) -> Seq<u8>
    decreases k,
{
    if k == 0 {
        Seq::empty()
    } else {
        item_hashes(items, (k - 1) as nat) + blake3_digest(items[k - 1])
    }
}

impl MerkleDigest {
    /// The hash of the concatenated hashes of the items, in order.
    pub fn from_items(items: &[&[u8]]) -> (d: Self)
        ensures
            d.0@ == blake3_digest(item_hashes(items@.map_values(|v: &[u8]| v@), items@.len())),
    {
        let ghost views = items@.map_values(|v: &[u8]| v@);
        let mut buf: Vec<u8> = Vec::new();
        let mut i: usize = 0;
        while i < items.len()
            invariant
                views == items@.map_values(|v: &[u8]| v@),
                0 <= i <= items@.len(),
                buf@ == item_hashes(views, i as nat),
            decreases items@.len() - i,
        {
            let h = blake3_hash(items[i]);
            let mut j: usize = 0;
            let ghost start = buf@;
            while j < 32
                invariant
                    0 <= j <= 32,
                    buf@ == start + h@.take(j as int),
                decreases 32 - j,
            {
                assert(h@.take(j + 1) =~= h@.take(j as int).push(h@[j as int]));
                buf.push(h[j]);
                j = j + 1;
            }
            assert(h@.take(32) =~= h@);
            assert(views[i as int] == items@[i as int]@);
            i = i + 1;
        }
        MerkleDigest(blake3_hash(buf.as_slice()))
    }

    /// The hash of the two digests, left then right.
    pub fn combine(left: &Self, right: &Self) -> (d: Self)
        ensures
            d.0@ == blake3_digest(left.0@ + right.0@),
    {
        let mut buf: Vec<u8> = Vec::new();
        let mut j: usize = 0;
        while j < 32
            invariant
                0 <= j <= 32,
                buf@ == left.0@.take(j as int),
            decreases 32 - j,
        {
            assert(left.0@.take(j + 1) =~= left.0@.take(j as int).push(left.0@[j as int]));
            buf.push(left.0[j]);
            j = j + 1;
        }
        let mut k: usize = 0;
        while k < 32
            invariant
                0 <= k <= 32,
                buf@ == left.0@ + right.0@.take(k as int),
            decreases 32 - k,
        {
            assert(right.0@.take(k + 1) =~= right.0@.take(k as int).push(right.0@[k as int]));
            buf.push(right.0[k]);
            k = k + 1;
        }
        assert(left.0@.take(32) =~= left.0@);
        assert(right.0@.take(32) =~= right.0@);
        MerkleDigest(blake3_hash(buf.as_slice()))
    }
}

/// A node id for a simulated node: the region in the first byte, the index within the
/// region in the second, zeros elsewhere.
pub fn make_node_id(region: u8, idx: u8) -> (id: NodeId)
    ensures
        id.0@ == seq![region, idx] + Seq::new(30, |i: int| 0u8),
{
    let mut bytes = [0u8; 32];
    bytes[0] = region;
    bytes[1] = idx;
    assert(bytes@ =~= seq![region, idx] + Seq::new(30, |i: int| 0u8));
    NodeId(bytes)
}

/// The current wall-clock time in nanoseconds since the Unix epoch.
pub fn now_nanos() -> (t: u64) {
    Timestamp::now().nanos
}

} // verus!
