use vstd::prelude::*;

use crate::bytes::bytes32_eq;
use crate::crypto::hash::{blake3_digest, blake3_hash, le_bytes, push_le_u64};
use crate::crypto::vdf::{vdf_holds, VdfProof};
use crate::types::Epoch;

verus! {

/// One tick of the surface clock stream, chained to the previous tick by its hash.
#[derive(Debug, Clone)]
pub struct ClockTick {
    pub epoch: Epoch,
    pub network_time_nanos: u64,
    pub confidence_nanos: u64,
    pub epoch_hash: [u8; 32],
    pub prev_hash: [u8; 32],
    pub vdf_proof: Option<VdfProof>,
}

/// The bytes a tick is hashed over: epoch, time and confidence in little-endian order,
/// then the epoch hash and the previous hash. The delay proof is not covered.
pub open spec fn tick_bytes(t: ClockTick) -> Seq<u8> {
    le_bytes(t.epoch.0) + le_bytes(t.network_time_nanos) + le_bytes(t.confidence_nanos) + t.epoch_hash@
        + t.prev_hash@
}

/// The hash of a tick.
pub open spec fn tick_digest(t: ClockTick) -> Seq<u8> {
    blake3_digest(tick_bytes(t))
}

/// Thirty-two zero bytes.
pub open spec fn zero_bytes() -> Seq<u8> {
    Seq::new(32, |i: int| 0u8)
}

/// `t` is the first tick of a stream: epoch 0, time 0, unbounded confidence, zero
/// hashes, no delay proof.
pub open spec fn is_genesis(t: ClockTick) -> bool {
    &&& t.epoch.0 == 0
    &&& t.network_time_nanos == 0
    &&& t.confidence_nanos == u64::MAX
    &&& t.epoch_hash@ == zero_bytes()
    &&& t.prev_hash@ == zero_bytes()
    &&& t.vdf_proof is None
}

/// The delay proof of a tick, if any, holds.
pub open spec fn proof_ok(t: ClockTick) -> bool {
    match t.vdf_proof {
        Some(p) => vdf_holds(p),
        None => true,
    }
}

/// `t` follows `prev` in a chain: next epoch, hash of `prev` recorded, time not going
/// back, and a delay proof, if any, that holds.
pub open spec fn links_to(t: ClockTick, prev: ClockTick) -> bool {
    &&& t.epoch.0 == prev.epoch.0 + 1
    &&& t.prev_hash@ == tick_digest(prev)
    &&& t.network_time_nanos >= prev.network_time_nanos
    &&& proof_ok(t)
}

/// Every tick after the first links to the one before it.
pub open spec fn chain_valid(s: Seq<ClockTick>) -> bool {
    forall|i: int| 1 <= i < s.len() ==> links_to(#[trigger] s[i], s[i - 1])
}

impl ClockTick {
    /// The first tick: epoch 0, time 0, unbounded confidence, zero hashes, no proof.
    pub fn genesis() -> (t: Self)
        ensures
            is_genesis(t),
    {
        let t = ClockTick {
            epoch: Epoch(0),
            network_time_nanos: 0,
            confidence_nanos: u64::MAX,
            epoch_hash: [0u8; 32],
            prev_hash: [0u8; 32],
            vdf_proof: None,
        };
        assert(t.epoch_hash@ =~= zero_bytes());
        assert(t.prev_hash@ =~= zero_bytes());
        t
    }

    /// The BLAKE3 hash of the tick's epoch, time, confidence, epoch hash and previous hash.
    pub fn hash(&self) -> (h: [u8; 32])
        ensures
            h@ == tick_digest(*self),
    {
        let mut bytes: Vec<u8> = Vec::new();
        push_le_u64(&mut bytes, self.epoch.0);
        push_le_u64(&mut bytes, self.network_time_nanos);
        push_le_u64(&mut bytes, self.confidence_nanos);
        let mut i: usize = 0;
        let ghost head = bytes@;
        while i < 32
            invariant
                0 <= i <= 32,
                bytes@ == head + self.epoch_hash@.take(i as int),
            decreases 32 - i,
        {
            assert(self.epoch_hash@.take(i + 1) =~= self.epoch_hash@.take(i as int).push(self.epoch_hash@[i as int]));
            bytes.push(self.epoch_hash[i]);
            i = i + 1;
        }
        assert(self.epoch_hash@.take(32) =~= self.epoch_hash@);
        let ghost mid = bytes@;
        let mut j: usize = 0;
        while j < 32
            invariant
                0 <= j <= 32,
                bytes@ == mid + self.prev_hash@.take(j as int),
            decreases 32 - j,
        {
            assert(self.prev_hash@.take(j + 1) =~= self.prev_hash@.take(j as int).push(self.prev_hash@[j as int]));
            bytes.push(self.prev_hash[j]);
            j = j + 1;
        }
        assert(self.prev_hash@.take(32) =~= self.prev_hash@);
        assert(bytes@ =~= tick_bytes(*self));
        blake3_hash(bytes.as_slice())
    }

    /// Whether this tick follows `prev` in a valid chain.
    pub fn verify_chain(&self, prev: &ClockTick) -> (ok: bool)
        requires
            prev.epoch.0 < u64::MAX,
        ensures
            ok == links_to(*self, *prev),
    {
        if self.epoch.0 != prev.epoch.0 + 1 {
            return false;
        }
        let ph = prev.hash();
        if !bytes32_eq(&self.prev_hash, &ph) {
            proof {
                if self.prev_hash@ == ph@ {
                    assert(self.prev_hash =~= ph);
                }
            }
            return false;
        }
        if self.network_time_nanos < prev.network_time_nanos {
            return false;
        }
        match &self.vdf_proof {
            Some(vdf) => vdf.verify(),
            None => true,
        }
    }
}

/// The surface clock stream: ticks from the genesis on, each chained to the previous.
#[derive(Debug)]
pub struct ClockStream {
    ticks: Vec<ClockTick>,
}

impl View for ClockStream {
    type V = Seq<ClockTick>;

    closed spec fn view(&self) -> Seq<ClockTick> {
        self.ticks@
    }
}

/// The shape every stream keeps: the genesis first, tick `i` at epoch `i`, each tick
/// recording the hash of the one before, and time strictly increasing.
pub open spec fn stream_wf(s: Seq<ClockTick>) -> bool {
    &&& s.len() >= 1
    &&& is_genesis(s[0])
    &&& forall|i: int| 0 <= i < s.len() ==> (#[trigger] s[i]).epoch.0 == i
    &&& forall|i: int|
        1 <= i < s.len() ==> (#[trigger] s[i]).prev_hash@ == tick_digest(s[i - 1]) && s[i].network_time_nanos
            > s[i - 1].network_time_nanos
}

/// The tick `emit` appends after `prev`.
pub open spec fn next_tick(
    prev: ClockTick,
    network_time_nanos: u64,
    confidence_nanos: u64,
    epoch_hash: [u8; 32],
    vdf_proof: Option<VdfProof>,
    prev_hash: [u8; 32],
) -> ClockTick {
    ClockTick {
        epoch: Epoch((prev.epoch.0 + 1) as u64),
        network_time_nanos: if network_time_nanos > prev.network_time_nanos + 1 {
            network_time_nanos
        } else {
            (prev.network_time_nanos + 1) as u64
        },
        confidence_nanos,
        epoch_hash,
        prev_hash,
        vdf_proof,
    }
}

impl ClockStream {
    /// A stream holding the genesis tick.
    pub fn new() -> (s: Self)
        ensures
            s@.len() == 1,
            stream_wf(s@),
    {
        let mut ticks: Vec<ClockTick> = Vec::new();
        ticks.push(ClockTick::genesis());
        ClockStream { ticks }
    }

    /// The latest tick.
    pub fn latest(&self) -> (t: &ClockTick)
        requires
            stream_wf(self@),
        ensures
            *t == self@.last(),
    {
        &self.ticks[self.ticks.len() - 1]
    }

    /// Append the tick of the next epoch: its time is `network_time_nanos`, raised if
    /// need be to one nanosecond past the latest tick so that time never goes back.
    pub fn emit(
        &mut self,
        network_time_nanos: u64,
        confidence_nanos: u64,
        epoch_hash: [u8; 32],
        vdf_proof: Option<VdfProof>,
    ) -> (t: &ClockTick)
        requires
            stream_wf(old(self)@),
            old(self)@.last().network_time_nanos < u64::MAX,
        ensures
            stream_wf(final(self)@),
            final(self)@ == old(self)@.push(*t),
            t.prev_hash@ == tick_digest(old(self)@.last()),
            *t == next_tick(
                old(self)@.last(),
                network_time_nanos,
                confidence_nanos,
                epoch_hash,
                vdf_proof,
                t.prev_hash,
            ),
    {
        let ghost s = self@;
        let n = self.ticks.len();
        let prev = &self.ticks[n - 1];
        let prev_hash = prev.hash();
        assert(prev.epoch.0 == n - 1);
        let epoch = prev.epoch.next();
        let floor = prev.network_time_nanos + 1;
        let clamped_time = if network_time_nanos > floor {
            network_time_nanos
        } else {
            floor
        };
        let tick = ClockTick {
            epoch,
            network_time_nanos: clamped_time,
            confidence_nanos,
            epoch_hash,
            prev_hash,
            vdf_proof,
        };
        self.ticks.push(tick);
        proof {
            let u = self.ticks@;
            assert(u.len() == s.len() + 1);
            assert forall|i: int| 0 <= i < u.len() implies (#[trigger] u[i]).epoch.0 == i by {
                if i < s.len() {
                    assert(u[i] == s[i]);
                }
            }
            assert forall|i: int| 1 <= i < u.len() implies (#[trigger] u[i]).prev_hash@ == tick_digest(u[i - 1])
                && u[i].network_time_nanos > u[i - 1].network_time_nanos by {
                if i < s.len() {
                    assert(u[i] == s[i] && u[i - 1] == s[i - 1]);
                }
            }
        }
        &self.ticks[n]
    }

    /// Number of ticks, the genesis included.
    pub fn len(&self) -> (n: usize)
        ensures
            n == self@.len(),
    {
        self.ticks.len()
    }

    /// The tick of `epoch`, if the stream has reached it.
    pub fn get(&self, epoch: Epoch) -> (t: Option<&ClockTick>)
        ensures
            match t {
                Some(x) => (epoch.0 as usize) < self@.len() && *x == self@[(epoch.0 as usize) as int],
                None => (epoch.0 as usize) >= self@.len(),
            },
    {
        let i = epoch.0 as usize;
        if i < self.ticks.len() {
            Some(&self.ticks[i])
        } else {
            None
        }
    }

    /// Whether every tick after the genesis links to its predecessor.
    pub fn verify_all(&self) -> (ok: bool)
        requires
            stream_wf(self@),
        ensures
            ok == chain_valid(self@),
    {
        let ghost s = self@;
        let mut i: usize = 1;
        while i < self.ticks.len()
            invariant
                s == self.ticks@,
                stream_wf(s),
                1 <= i <= s.len(),
                forall|j: int| 1 <= j < i ==> links_to(#[trigger] s[j], s[j - 1]),
            decreases s.len() - i,
        {
            assert(s[i - 1].epoch.0 == i - 1);
            if !self.ticks[i].verify_chain(&self.ticks[i - 1]) {
                return false;
            }
            i = i + 1;
        }
        true
    }
}

impl Default for ClockStream {
    fn default() -> (s: Self)
        ensures
            s@.len() == 1,
            stream_wf(s@),
    {
        Self::new()
    }
}

/// Time on a stream strictly increases from tick to tick.
pub proof fn lemma_stream_monotone(s: Seq<ClockTick>, i: int, j: int)
    requires
        stream_wf(s),
        0 <= i < j < s.len(),
    ensures
        s[i].network_time_nanos < s[j].network_time_nanos,
    decreases j - i,
{
    assert(s[j].network_time_nanos > s[j - 1].network_time_nanos);
    if i < j - 1 {
        lemma_stream_monotone(s, i, j - 1);
    }
}

/// A stream whose ticks carry no failing delay proof verifies: the chain that `emit`
/// builds is valid.
pub proof fn lemma_stream_verifies(s: Seq<ClockTick>)
    requires
        stream_wf(s),
        forall|i: int| 0 <= i < s.len() ==> proof_ok(#[trigger] s[i]),
    ensures
        chain_valid(s),
{
    assert forall|i: int| 1 <= i < s.len() implies links_to(#[trigger] s[i], s[i - 1]) by {
        assert(s[i].epoch.0 == i && s[i - 1].epoch.0 == i - 1);
        assert(proof_ok(s[i]));
    }
}


/// A tick whose time is earlier than its predecessor's never links to it, whatever its
/// other fields: `verify_chain` refuses it.
pub proof fn lemma_backward_time_refused(t: ClockTick, prev: ClockTick)
    requires
        t.network_time_nanos < prev.network_time_nanos,
    ensures
        !links_to(t, prev),
{
}

/// Along a chain in which each tick links to the one before, time never goes back.
pub proof fn lemma_valid_chain_time_monotone(s: Seq<ClockTick>)
    requires
        chain_valid(s),
    ensures
        forall|i: int, j: int|
            0 <= i <= j < s.len() ==> (#[trigger] s[i]).network_time_nanos <= (#[trigger] s[j]).network_time_nanos,
    decreases s.len(),
{
    if s.len() > 0 {
        let d = s.drop_last();
        assert forall|i: int| 1 <= i < d.len() implies links_to(#[trigger] d[i], d[i - 1]) by {
            assert(links_to(s[i], s[i - 1]));
        }
        lemma_valid_chain_time_monotone(d);
        let n = s.len() - 1;
        assert forall|i: int, j: int|
            0 <= i <= j < s.len() implies (#[trigger] s[i]).network_time_nanos <= (#[trigger] s[j]).network_time_nanos by {
            if j < n {
                assert(s[i] == d[i] && s[j] == d[j]);
            } else if i < n {
                assert(links_to(s[n], s[n - 1]));
                assert(s[i] == d[i] && s[n - 1] == d[n - 1]);
            }
        }
    }
}


/// A tick links to its predecessor only when it is the next epoch and records the
/// predecessor's hash: `verify_chain` refuses any other epoch or hash.
pub proof fn lemma_link_needs_next_epoch_and_hash(t: ClockTick, prev: ClockTick)
    ensures
        t.epoch.0 != prev.epoch.0 + 1 ==> !links_to(t, prev),
        t.prev_hash@ != tick_digest(prev) ==> !links_to(t, prev),
{
}

} // verus!
