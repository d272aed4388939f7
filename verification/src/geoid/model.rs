use vstd::prelude::*;

use crate::bytes::bytes32_eq;
use crate::crypto::hash::{blake3_digest, blake3_hash, le_bytes, push_le_u64};
use crate::crypto::group::{group_order, le_value, reduce_scalar, reduce_wide};
use crate::crypto::pedersen::{commitment_to, PedersenCommitment, SerializableCommitment};
use crate::crypto::random::{first_32, first_64, random_bytes};
use crate::layers::layer2::le_concat;
use crate::types::Epoch;

verus! {

/// Identity of a geoid region: a BLAKE3 hash of its centroid, level and epoch.
#[derive(Debug, Clone, Copy, Eq, Hash)]
pub struct RegionId(pub [u8; 32]);

impl PartialEq for RegionId {
    fn eq(&self, other: &Self) -> (r: bool) {
        bytes32_eq(&self.0, &other.0)
    }
}

impl vstd::std_specs::cmp::PartialEqSpecImpl for RegionId {
    open spec fn obeys_eq_spec() -> bool {
        true
    }

    open spec fn eq_spec(&self, other: &Self) -> bool {
        self.0 == other.0
    }
}

/// The identities of the first `k` regions, concatenated.
pub open spec fn id_concat(ids: Seq<RegionId>, k: nat) -> Seq<u8>
    decreases k,
{
    if k == 0 {
        Seq::empty()
    } else {
        id_concat(ids, (k - 1) as nat) + ids[k - 1].0@
    }
}

impl RegionId {
    /// The region of a centroid at a level and epoch: the hash of the centroid's
    /// coordinates (each given by the bit pattern of its 64-bit float, little-endian),
    /// the level byte and the epoch.
    pub fn from_centroid(centroid_bits: &[u64], level: u8, epoch: Epoch) -> (r: Self)
        ensures
            r.0@ == blake3_digest(le_concat(centroid_bits@, centroid_bits@.len()) + seq![level] + le_bytes(
                epoch.0,
            )),
    {
        let mut bytes: Vec<u8> = Vec::new();
        let mut i: usize = 0;
        while i < centroid_bits.len()
            invariant
                0 <= i <= centroid_bits@.len(),
                bytes@ == le_concat(centroid_bits@, i as nat),
            decreases centroid_bits@.len() - i,
        {
            push_le_u64(&mut bytes, centroid_bits[i]);
            i = i + 1;
        }
        bytes.push(level);
        let ghost mid = bytes@;
        push_le_u64(&mut bytes, epoch.0);
        assert(bytes@ =~= le_concat(centroid_bits@, centroid_bits@.len()) + seq![level] + le_bytes(epoch.0));
        RegionId(blake3_hash(bytes.as_slice()))
    }

    /// The region merged from `ids`: the hash of their identities, in order.
    pub fn from_merge(ids: &[RegionId]) -> (r: Self)
        ensures
            r.0@ == blake3_digest(id_concat(ids@, ids@.len())),
    {
        let mut bytes: Vec<u8> = Vec::new();
        let mut i: usize = 0;
        while i < ids.len()
            invariant
                0 <= i <= ids@.len(),
                bytes@ == id_concat(ids@, i as nat),
            decreases ids@.len() - i,
        {
            let id = ids[i].0;
            let mut j: usize = 0;
            let ghost start = bytes@;
            while j < 32
                invariant
                    0 <= j <= 32,
                    bytes@ == start + id@.take(j as int),
                decreases 32 - j,
            {
                assert(id@.take(j + 1) =~= id@.take(j as int).push(id@[j as int]));
                bytes.push(id[j]);
                j = j + 1;
            }
            assert(id@.take(32) =~= id@);
            i = i + 1;
        }
        RegionId(blake3_hash(bytes.as_slice()))
    }
}

/// Latency profile kept private behind Pedersen commitments.
#[derive(Debug, Clone)]
pub struct CommittedLatencyProfile {
    pub committed_mean: SerializableCommitment,
    pub committed_variance: SerializableCommitment,
    pub sample_count: u32,
}

/// An edge between two regions of one level.
#[derive(Debug, Clone)]
pub struct GeoidEdge {
    pub from: RegionId,
    pub to: RegionId,
    pub profile: CommittedLatencyProfile,
    /// Plaintext mean latency in nanoseconds, for routing.
    pub mean_nanos_plaintext: i64,
}

/// A geoid coordinate behind commitments: one per level of its region path.
#[derive(Debug, Clone)]
pub struct CommittedGeoidCoordinate {
    pub region_commitments: Vec<SerializableCommitment>,
    pub epoch: Epoch,
}

/// The commitment of one region of a path: `c` commits to the region's identity reduced
/// to a scalar, blinded by the scalar of a 64-byte seed whose first 32 bytes are `b`.
pub open spec fn region_committed(region: RegionId, c: SerializableCommitment, b: [u8; 32]) -> bool {
    exists|seed: Seq<u8>, rs: Seq<u8>, bs: Seq<u8>|
        #![trigger commitment_to(rs, bs), seed.take(32)]
        {
            &&& seed.len() == 64
            &&& b@ == seed.take(32)
            &&& le_value(rs) == le_value(region.0@) % group_order()
            &&& le_value(bs) == le_value(seed) % group_order()
            &&& c.bytes@ == commitment_to(rs, bs)
        }
}

impl CommittedGeoidCoordinate {
    /// Commit each region of a path with a fresh random blinding; the commitments and,
    /// per region, the first 32 bytes of the blinding's 64-byte seed.
    pub fn from_region_path(region_path: &[RegionId], epoch: Epoch) -> (r: (Self, Vec<[u8; 32]>))
        ensures
            r.0.epoch == epoch,
            r.0.region_commitments@.len() == region_path@.len(),
            r.1@.len() == region_path@.len(),
            forall|i: int|
                0 <= i < region_path@.len() ==> region_committed(
                    region_path@[i],
                    #[trigger] r.0.region_commitments@[i],
                    r.1@[i],
                ),
    {
        let mut commitments: Vec<SerializableCommitment> = Vec::new();
        let mut blindings: Vec<[u8; 32]> = Vec::new();
        let mut i: usize = 0;
        while i < region_path.len()
            invariant
                0 <= i <= region_path@.len(),
                commitments@.len() == i,
                blindings@.len() == i,
                forall|j: int|
                    0 <= j < i ==> region_committed(region_path@[j], #[trigger] commitments@[j], blindings@[j]),
            decreases region_path@.len() - i,
        {
            let v = random_bytes(64);
            let seed = first_64(&v);
            let blinding = reduce_wide(&seed);
            let region_scalar = reduce_scalar(&region_path[i].0);
            let commitment = PedersenCommitment::commit(&region_scalar, &blinding).to_serializable();
            let blinding_bytes = first_32(&v);
            assert(seed@.take(32) =~= v@.take(32));
            assert(region_committed(region_path@[i as int], commitment, blinding_bytes)) by {
                assert(commitment.bytes@ == commitment_to(region_scalar@, blinding@));
            }
            commitments.push(commitment);
            blindings.push(blinding_bytes);
            i = i + 1;
        }
        (CommittedGeoidCoordinate { region_commitments: commitments, epoch }, blindings)
    }
}

/// The bytes of the first `k` regions for a geoid hash: each identity followed by its
/// member count in little-endian order.
pub open spec fn region_count_bytes(regions: Seq<(RegionId, u32)>, k: nat) -> Seq<u8>
    decreases k,
{
    if k == 0 {
        Seq::empty()
    } else {
        region_count_bytes(regions, (k - 1) as nat) + regions[k - 1].0.0@ + le_bytes(regions[k - 1].1 as u64).take(4)
    }
}

fn push_id(out: &mut Vec<u8>, id: &[u8; 32])
    ensures
        final(out)@ == old(out)@ + id@,
{
    let ghost start = out@;
    let mut j: usize = 0;
    while j < 32
        invariant
            0 <= j <= 32,
            out@ == start + id@.take(j as int),
        decreases 32 - j,
    {
        assert(id@.take(j + 1) =~= id@.take(j as int).push(id@[j as int]));
        out.push(id[j]);
        j = j + 1;
    }
    assert(id@.take(32) =~= id@);
}

/// The hash of a geoid: its epoch, then every region's identity and member count, finest
/// level first.
pub fn geoid_hash(epoch: Epoch, regions: &[(RegionId, u32)]) -> (h: [u8; 32])
    ensures
        h@ == blake3_digest(le_bytes(epoch.0) + region_count_bytes(regions@, regions@.len())),
{
    let mut bytes: Vec<u8> = Vec::new();
    push_le_u64(&mut bytes, epoch.0);
    let ghost head = bytes@;
    let mut i: usize = 0;
    while i < regions.len()
        invariant
            0 <= i <= regions@.len(),
            bytes@ == head + region_count_bytes(regions@, i as nat),
        decreases regions@.len() - i,
    {
        push_id(&mut bytes, &regions[i].0.0);
        let ghost mid = bytes@;
        let mut tail: Vec<u8> = Vec::new();
        push_le_u64(&mut tail, regions[i].1 as u64);
        let mut k: usize = 0;
        while k < 4
            invariant
                0 <= k <= 4,
                tail@.len() == 8,
                bytes@ == mid + tail@.take(k as int),
            decreases 4 - k,
        {
            assert(tail@.take(k + 1) =~= tail@.take(k as int).push(tail@[k as int]));
            bytes.push(tail[k]);
            k = k + 1;
        }
        assert(bytes@ =~= head + region_count_bytes(regions@, (i + 1) as nat));
        i = i + 1;
    }
    blake3_hash(bytes.as_slice())
}

/// The hash of a freshly built hierarchy: its epoch, then every region identity, finest
/// level first.
pub fn hierarchy_hash(epoch: Epoch, ids: &[RegionId]) -> (h: [u8; 32])
    ensures
        h@ == blake3_digest(le_bytes(epoch.0) + id_concat(ids@, ids@.len())),
{
    let mut bytes: Vec<u8> = Vec::new();
    push_le_u64(&mut bytes, epoch.0);
    let ghost head = bytes@;
    let mut i: usize = 0;
    while i < ids.len()
        invariant
            0 <= i <= ids@.len(),
            bytes@ == head + id_concat(ids@, i as nat),
        decreases ids@.len() - i,
    {
        push_id(&mut bytes, &ids[i].0);
        assert(bytes@ =~= head + id_concat(ids@, (i + 1) as nat));
        i = i + 1;
    }
    blake3_hash(bytes.as_slice())
}

} // verus!
