use vstd::prelude::*;

use crate::crypto::hash::{blake3_digest, blake3_hash};
use crate::layers::layer2::{entries_of_epoch, ClusterAggregator, Layer2Entry};
use crate::layers::layer3::{next_tick, stream_wf, tick_digest, ClockStream};
use crate::types::Epoch;

verus! {

/// Confidence attached to a tick emitted from the cluster commitments (5 ms).
pub const TICK_CONFIDENCE_NANOS: u64 = 5_000_000;

/// Some cluster has at least one member.
pub open spec fn has_weight(s: Seq<Layer2Entry>) -> bool {
    exists|i: int| 0 <= i < s.len() && (#[trigger] s[i]).cluster_size > 0
}

/// The committed offset and variance bytes of the first `k` clusters, in order.
pub open spec fn commitment_bytes(s: Seq<Layer2Entry>, k: nat) -> Seq<u8>
    decreases k,
{
    if k == 0 {
        Seq::empty()
    } else {
        commitment_bytes(s, (k - 1) as nat) + s[k - 1].committed_offset.bytes@ + s[k - 1].committed_variance.bytes@
    }
}

fn append_bytes(out: &mut Vec<u8>, b: &[u8; 32])
    ensures
        final(out)@ == old(out)@ + b@,
{
    let ghost start = out@;
    let mut i: usize = 0;
    while i < 32
        invariant
            0 <= i <= 32,
            out@ == start + b@.take(i as int),
        decreases 32 - i,
    {
        assert(b@.take(i + 1) =~= b@.take(i as int).push(b@[i as int]));
        out.push(b[i]);
        i = i + 1;
    }
    assert(b@.take(32) =~= b@);
}

/// Emit the clock tick of `epoch` from its cluster commitments: when the epoch has
/// clusters and their sizes sum to at least one, the tick takes the reference time
/// (kept monotone by the stream), a 5 ms confidence and the hash of every cluster's
/// committed offset and variance as its epoch hash. Returns whether a tick was emitted.
pub fn valve_l2_to_l3(
    l2_aggregator: &ClusterAggregator,
    clock_stream: &mut ClockStream,
    epoch: Epoch,
    reference_time_nanos: u64,
    _min_clusters: usize,
) -> (emitted: bool)
    requires
        stream_wf(old(clock_stream)@),
        old(clock_stream)@.last().network_time_nanos < u64::MAX,
    ensures
        stream_wf(final(clock_stream)@),
        emitted == (entries_of_epoch(l2_aggregator@, epoch).len() > 0 && has_weight(
            entries_of_epoch(l2_aggregator@, epoch),
        )),
        !emitted ==> final(clock_stream)@ == old(clock_stream)@,
        emitted ==> ({
            let cs = entries_of_epoch(l2_aggregator@, epoch);
            let t = final(clock_stream)@.last();
            &&& final(clock_stream)@ == old(clock_stream)@.push(t)
            &&& t.epoch_hash@ == blake3_digest(commitment_bytes(cs, cs.len()))
            &&& t.prev_hash@ == tick_digest(old(clock_stream)@.last())
            &&& t == next_tick(
                old(clock_stream)@.last(),
                reference_time_nanos,
                TICK_CONFIDENCE_NANOS,
                t.epoch_hash,
                None,
                t.prev_hash,
            )
        }),
{
    let clusters = l2_aggregator.get_epoch(epoch);
    let ghost cs = clusters@.map_values(|e: &Layer2Entry| *e);
    if clusters.len() == 0 {
        return false;
    }
    let mut weighted = false;
    let mut i: usize = 0;
    while i < clusters.len()
        invariant
            cs == clusters@.map_values(|e: &Layer2Entry| *e),
            0 <= i <= clusters@.len(),
            weighted == exists|j: int| 0 <= j < i && (#[trigger] cs[j]).cluster_size > 0,
        decreases clusters@.len() - i,
    {
        if clusters[i].cluster_size > 0 {
            assert(cs[i as int].cluster_size > 0);
            weighted = true;
        }
        i = i + 1;
    }
    if !weighted {
        return false;
    }
    let mut bytes: Vec<u8> = Vec::new();
    let mut k: usize = 0;
    while k < clusters.len()
        invariant
            cs == clusters@.map_values(|e: &Layer2Entry| *e),
            0 <= k <= clusters@.len(),
            bytes@ == commitment_bytes(cs, k as nat),
        decreases clusters@.len() - k,
    {
        append_bytes(&mut bytes, &clusters[k].committed_offset.bytes);
        append_bytes(&mut bytes, &clusters[k].committed_variance.bytes);
        k = k + 1;
    }
    let epoch_hash = blake3_hash(bytes.as_slice());
    clock_stream.emit(reference_time_nanos, TICK_CONFIDENCE_NANOS, epoch_hash, None);
    true
}

} // verus!
