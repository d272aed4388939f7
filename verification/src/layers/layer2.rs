use vstd::prelude::*;

use crate::bytes::bytes32_eq;
use crate::crypto::pedersen::SerializableCommitment;
use crate::crypto::hash::{blake3_digest, blake3_hash, le_bytes, push_le_u64};
use crate::types::Epoch;

verus! {

/// Identity of a cluster of nodes in one region and epoch.
#[derive(Debug, Clone, Eq, Hash)]
pub struct ClusterId(pub [u8; 32]);

impl PartialEq for ClusterId {
    fn eq(&self, other: &Self) -> (r: bool) {
        bytes32_eq(&self.0, &other.0)
    }
}

impl vstd::std_specs::cmp::PartialEqSpecImpl for ClusterId {
    open spec fn obeys_eq_spec() -> bool {
        true
    }

    open spec fn eq_spec(&self, other: &Self) -> bool {
        self.0 == other.0
    }
}

/// The little-endian bytes of each value, concatenated.
pub open spec fn le_concat(values: Seq<u64>, k: nat) -> Seq<u8>
    decreases k,
{
    if k == 0 {
        Seq::empty()
    } else {
        le_concat(values, (k - 1) as nat) + le_bytes(values[k - 1])
    }
}

impl ClusterId {
    /// The cluster of a region in an epoch: the hash of the region's coordinates (each
    /// given by the bit pattern of its 64-bit float, in little-endian order) followed by
    /// the epoch.
    pub fn from_region(coord_bits: &[u64], epoch: Epoch) -> (c: Self)
        ensures
            c.0@ == blake3_digest(le_concat(coord_bits@, coord_bits@.len()) + le_bytes(epoch.0)),
    {
        let mut bytes: Vec<u8> = Vec::new();
        let mut i: usize = 0;
        while i < coord_bits.len()
            invariant
                0 <= i <= coord_bits@.len(),
                bytes@ == le_concat(coord_bits@, i as nat),
            decreases coord_bits@.len() - i,
        {
            push_le_u64(&mut bytes, coord_bits[i]);
            i = i + 1;
        }
        push_le_u64(&mut bytes, epoch.0);
        ClusterId(blake3_hash(bytes.as_slice()))
    }
}

/// Evidence that this cluster agrees with another one.
#[derive(Debug, Clone)]
pub struct ClusterAgreementProof {
    pub other_cluster: ClusterId,
    pub within_tolerance: bool,
    pub proof_hash: [u8; 32],
}

/// The committed clock estimate of one cluster in one epoch.
#[derive(Debug, Clone)]
pub struct Layer2Entry {
    pub cluster_id: ClusterId,
    pub epoch: Epoch,
    pub committed_offset: SerializableCommitment,
    pub committed_variance: SerializableCommitment,
    pub cluster_size: u32,
    pub agreement_proofs: Vec<ClusterAgreementProof>,
}

/// The entries of `s` of epoch `epoch`, in order.
pub open spec fn entries_of_epoch(s: Seq<Layer2Entry>, epoch: Epoch) -> Seq<Layer2Entry>
    decreases s.len(),
{
    if s.len() == 0 {
        Seq::empty()
    } else if s.last().epoch == epoch {
        entries_of_epoch(s.drop_last(), epoch).push(s.last())
    } else {
        entries_of_epoch(s.drop_last(), epoch)
    }
}

/// Number of entries that carry at least one agreement proof.
pub open spec fn count_agreeing(s: Seq<Layer2Entry>) -> nat
    decreases s.len(),
{
    if s.len() == 0 {
        0
    } else {
        count_agreeing(s.drop_last()) + if s.last().agreement_proofs@.len() > 0 {
            1nat
        } else {
            0nat
        }
    }
}

/// Collects the cluster entries of every epoch.
pub struct ClusterAggregator {
    entries: Vec<Layer2Entry>,
}

impl View for ClusterAggregator {
    type V = Seq<Layer2Entry>;

    closed spec fn view(&self) -> Seq<Layer2Entry> {
        self.entries@
    }
}

impl ClusterAggregator {
    /// No entries.
    pub fn new() -> (a: Self)
        ensures
            a@ == Seq::<Layer2Entry>::empty(),
    {
        ClusterAggregator { entries: Vec::new() }
    }

    /// Record the committed mean offset and variance of `sample_count` offsets of
    /// `cluster_id` in `epoch`; `None`, recording nothing, without samples.
    pub fn aggregate(
        &mut self,
        cluster_id: ClusterId,
        epoch: Epoch,
        committed_offset: SerializableCommitment,
        committed_variance: SerializableCommitment,
        sample_count: usize,
    ) -> (e: Option<&Layer2Entry>)
        ensures
            sample_count == 0 ==> e is None && final(self)@ == old(self)@,
            sample_count > 0 ==> (e matches Some(x) && final(self)@ == old(self)@.push(*x)
                && x.cluster_id == cluster_id && x.epoch == epoch && x.committed_offset
                == committed_offset && x.committed_variance == committed_variance && x.cluster_size
                == sample_count as u32 && x.agreement_proofs@.len() == 0),
    {
        if sample_count == 0 {
            return None;
        }
        let entry = Layer2Entry {
            cluster_id,
            epoch,
            committed_offset,
            committed_variance,
            cluster_size: sample_count as u32,
            agreement_proofs: Vec::new(),
        };
        self.entries.push(entry);
        let n = self.entries.len();
        Some(&self.entries[n - 1])
    }

    /// The entries of `epoch`, in the order they were recorded.
    pub fn get_epoch(&self, epoch: Epoch) -> (r: Vec<&Layer2Entry>)
        ensures
            r@.map_values(|e: &Layer2Entry| *e) == entries_of_epoch(self@, epoch),
    {
        let mut r: Vec<&Layer2Entry> = Vec::new();
        let mut i: usize = 0;
        while i < self.entries.len()
            invariant
                0 <= i <= self.entries@.len(),
                r@.map_values(|e: &Layer2Entry| *e) == entries_of_epoch(self.entries@.take(i as int), epoch),
            decreases self.entries@.len() - i,
        {
            let ghost before = r@;
            proof {
                let t = self.entries@.take(i + 1);
                assert(t.drop_last() =~= self.entries@.take(i as int));
                assert(t.last() == self.entries@[i as int]);
            }
            if self.entries[i].epoch == epoch {
                r.push(&self.entries[i]);
                assert(r@.map_values(|e: &Layer2Entry| *e) =~= before.map_values(|e: &Layer2Entry| *e).push(
                    self.entries@[i as int],
                ));
            }
            i = i + 1;
        }
        assert(self.entries@.take(self.entries@.len() as int) =~= self.entries@);
        r
    }

    /// Whether at least `min_clusters` clusters of `epoch` recorded an entry and at least
    /// `min_clusters` of those carry an agreement proof.
    pub fn has_consensus(&self, epoch: Epoch, min_clusters: usize) -> (ok: bool)
        ensures
            ok == (entries_of_epoch(self@, epoch).len() >= min_clusters && count_agreeing(
                entries_of_epoch(self@, epoch),
            ) >= min_clusters),
    {
        let clusters = self.get_epoch(epoch);
        let ghost cs = clusters@.map_values(|e: &Layer2Entry| *e);
        if clusters.len() < min_clusters {
            return false;
        }
        let mut with_agreements: usize = 0;
        let mut i: usize = 0;
        while i < clusters.len()
            invariant
                cs == clusters@.map_values(|e: &Layer2Entry| *e),
                0 <= i <= clusters@.len(),
                with_agreements == count_agreeing(cs.take(i as int)),
                with_agreements <= i,
            decreases clusters@.len() - i,
        {
            proof {
                let t = cs.take(i + 1);
                assert(t.drop_last() =~= cs.take(i as int));
                assert(t.last() == cs[i as int]);
            }
            if clusters[i].agreement_proofs.len() > 0 {
                with_agreements = with_agreements + 1;
            }
            i = i + 1;
        }
        assert(cs.take(cs.len() as int) =~= cs);
        with_agreements >= min_clusters
    }
}

impl Default for ClusterAggregator {
    fn default() -> (a: Self)
        ensures
            a@ == Seq::<Layer2Entry>::empty(),
    {
        Self::new()
    }
}

} // verus!
