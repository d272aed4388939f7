use vstd::prelude::*;

use crate::types::{Epoch, NodeId};

verus! {

/// Phase within an epoch.
#[derive(Debug, Clone, Copy, PartialEq, Eq, Structural)]
pub enum EpochPhase {
    /// Private pairwise measurements.
    Measure,
    /// Local solve from the measurements and the previous beacons.
    Solve,
    /// Publish the beacon and wait for a quorum.
    Publish,
}

/// The phase after `p` within the same epoch; `None` after `Publish`, which ends the epoch.
pub open spec fn phase_after(p: EpochPhase) -> Option<EpochPhase> {
    match p {
        EpochPhase::Measure => Some(EpochPhase::Solve),
        EpochPhase::Solve => Some(EpochPhase::Publish),
        EpochPhase::Publish => None,
    }
}

impl EpochPhase {
    /// The following phase of the same epoch, or `None` at the end of the epoch.
    pub fn next(self) -> (r: Option<Self>)
        ensures
            r == phase_after(self),
    {
        match self {
            EpochPhase::Measure => Some(EpochPhase::Solve),
            EpochPhase::Solve => Some(EpochPhase::Publish),
            EpochPhase::Publish => None,
        }
    }
}

/// The epoch lifecycle of this node.
#[derive(Debug)]
pub struct EpochManager {
    pub current_epoch: Epoch,
    pub current_phase: EpochPhase,
    pub quorum_threshold: usize,
    received_beacons: Vec<NodeId>,
    phase_start_time: u64,
    pub phase_timeout_nanos: u64,
}

/// Whether the current phase, begun at `start`, has run out its time at `now`.
pub open spec fn timed_out(now: u64, start: u64, timeout: u64) -> bool {
    now - start > timeout
}

/// One call of `try_advance(now)` that takes the manager `m` to `r` and returns
/// `advanced`: `Measure` ends on its timeout, `Solve` at once, `Publish` on a quorum or
/// its timeout with the next epoch; a phase that is not due leaves the manager as it was.
pub open spec fn advance_step(m: EpochManager, r: EpochManager, current_time_nanos: u64, advanced: bool) -> bool {
    let out = timed_out(current_time_nanos, m.phase_start(), m.timeout());
    match m.phase() {
        EpochPhase::Measure => if out {
            &&& advanced
            &&& r.phase() == EpochPhase::Solve
            &&& r.epoch() == m.epoch()
            &&& r.beacons() == m.beacons()
            &&& r.phase_start() == current_time_nanos
        } else {
            !advanced && r == m
        },
        EpochPhase::Solve => {
            &&& advanced
            &&& r.phase() == EpochPhase::Publish
            &&& r.epoch() == m.epoch()
            &&& r.beacons() == m.beacons()
            &&& r.phase_start() == current_time_nanos
        },
        EpochPhase::Publish => if m.beacons().len() >= m.quorum() || out {
            &&& advanced
            &&& r.phase() == EpochPhase::Measure
            &&& r.epoch().0 == m.epoch().0 + 1
            &&& r.beacons() == Set::<NodeId>::empty()
            &&& r.phase_start() == current_time_nanos
        } else {
            !advanced && r == m
        },
    }
}

/// The epoch changes only when `Publish` ends, and then by one with an empty set of
/// beacons; a call that does not advance changes nothing.
pub proof fn lemma_epoch_changes_only_after_publish(m: EpochManager, r: EpochManager, now: u64, advanced: bool)
    requires
        advance_step(m, r, now, advanced),
    ensures
        !advanced ==> r == m,
        r.epoch() != m.epoch() ==> {
            &&& m.phase() == EpochPhase::Publish
            &&& r.phase() == EpochPhase::Measure
            &&& r.epoch().0 == m.epoch().0 + 1
            &&& r.beacons() == Set::<NodeId>::empty()
        },
{
}

impl EpochManager {
    /// The current epoch.
    pub closed spec fn epoch(&self) -> Epoch {
        self.current_epoch
    }

    /// The current phase.
    pub closed spec fn phase(&self) -> EpochPhase {
        self.current_phase
    }

    /// Beacons needed to end the `Publish` phase early.
    pub closed spec fn quorum(&self) -> usize {
        self.quorum_threshold
    }

    /// Time a phase may last.
    pub closed spec fn timeout(&self) -> u64 {
        self.phase_timeout_nanos
    }

    /// Peers whose beacon arrived in the current epoch.
    pub closed spec fn beacons(&self) -> Set<NodeId> {
        self.received_beacons@.to_set()
    }

    /// When the current phase began.
    pub closed spec fn phase_start(&self) -> u64 {
        self.phase_start_time
    }

    /// Each peer is recorded once.
    pub closed spec fn wf(&self) -> bool {
        self.received_beacons@.no_duplicates()
    }

    /// Epoch 0, phase `Measure`, no beacon, phase begun at time 0.
    pub fn new(quorum_threshold: usize, phase_timeout_nanos: u64) -> (m: Self)
        ensures
            m.wf(),
            m.epoch() == Epoch(0),
            m.phase() == EpochPhase::Measure,
            m.quorum() == quorum_threshold,
            m.timeout() == phase_timeout_nanos,
            m.beacons() == Set::<NodeId>::empty(),
            m.phase_start() == 0,
    {
        let m = EpochManager {
            current_epoch: Epoch(0),
            current_phase: EpochPhase::Measure,
            quorum_threshold,
            received_beacons: Vec::new(),
            phase_start_time: 0,
            phase_timeout_nanos,
        };
        assert(m.beacons() =~= Set::<NodeId>::empty());
        m
    }

    /// When the current phase began, in nanoseconds.
    pub fn phase_start_nanos(&self) -> (t: u64)
        ensures
            t == self.phase_start(),
    {
        self.phase_start_time
    }

    /// Advance the phase if it is due: `Measure` after its timeout, `Solve` at once,
    /// `Publish` on a quorum of beacons or after its timeout, which starts the next
    /// epoch. Returns whether the phase advanced.
    pub fn try_advance(&mut self, current_time_nanos: u64) -> (advanced: bool)
        requires
            old(self).wf(),
            current_time_nanos >= old(self).phase_start(),
            old(self).phase() == EpochPhase::Publish && (old(self).beacons().len()
                >= old(self).quorum() || timed_out(
                current_time_nanos,
                old(self).phase_start(),
                old(self).timeout(),
            )) ==> old(self).epoch().0 < u64::MAX,
        ensures
            final(self).wf(),
            final(self).quorum() == old(self).quorum(),
            final(self).timeout() == old(self).timeout(),
            advance_step(*old(self), *final(self), current_time_nanos, advanced),
    {
        let out = current_time_nanos - self.phase_start_time > self.phase_timeout_nanos;
        proof {
            self.received_beacons@.unique_seq_to_set();
        }
        match self.current_phase {
            EpochPhase::Measure => {
                if out {
                    self.current_phase = EpochPhase::Solve;
                    self.phase_start_time = current_time_nanos;
                    return true;
                }
            },
            EpochPhase::Solve => {
                self.current_phase = EpochPhase::Publish;
                self.phase_start_time = current_time_nanos;
                return true;
            },
            EpochPhase::Publish => {
                if self.received_beacons.len() >= self.quorum_threshold || out {
                    self.current_epoch = self.current_epoch.next();
                    self.current_phase = EpochPhase::Measure;
                    self.received_beacons.clear();
                    self.phase_start_time = current_time_nanos;
                    assert(self.beacons() =~= Set::<NodeId>::empty());
                    return true;
                }
            },
        }
        false
    }

    /// Record the beacon of `peer` for the current epoch.
    pub fn record_beacon(&mut self, peer: NodeId)
        requires
            old(self).wf(),
        ensures
            final(self).wf(),
            final(self).beacons() == old(self).beacons().insert(peer),
            final(self).beacons().finite(),
            final(self).beacons().len() == old(self).beacons().len() + (if old(self).beacons().contains(peer) {
                0int
            } else {
                1int
            }),
            final(self).epoch() == old(self).epoch(),
            final(self).phase() == old(self).phase(),
            final(self).phase_start() == old(self).phase_start(),
            final(self).quorum() == old(self).quorum(),
            final(self).timeout() == old(self).timeout(),
    {
        proof {
            self.received_beacons@.unique_seq_to_set();
        }
        let mut i: usize = 0;
        while i < self.received_beacons.len()
            invariant
                self.wf(),
                0 <= i <= self.received_beacons@.len(),
                forall|j: int| 0 <= j < i ==> self.received_beacons@[j] != peer,
            decreases self.received_beacons@.len() - i,
        {
            if self.received_beacons[i] == peer {
                assert(self.beacons().contains(peer));
                assert(self.beacons() =~= self.beacons().insert(peer));
                return;
            }
            i = i + 1;
        }
        let ghost before = self.received_beacons@;
        self.received_beacons.push(peer);
        proof {
            assert forall|a: int, b: int| 0 <= a < b < self.received_beacons@.len()
                implies self.received_beacons@[a] != self.received_beacons@[b] by {
                assert(self.received_beacons@[a] == before[a]);
                if b < before.len() {
                    assert(self.received_beacons@[b] == before[b]);
                }
            }
            let after = self.received_beacons@;
            assert forall|x: NodeId| after.contains(x) <==> before.to_set().insert(peer).contains(x) by {
                if after.contains(x) {
                    let j = choose|j: int| 0 <= j < after.len() && after[j] == x;
                    if j < before.len() {
                        assert(before[j] == x);
                    }
                }
                if before.contains(x) {
                    let j = choose|j: int| 0 <= j < before.len() && before[j] == x;
                    assert(after[j] == x);
                }
                if x == peer {
                    assert(after[before.len() as int] == x);
                }
            }
            assert(self.beacons() =~= before.to_set().insert(peer));
            self.received_beacons@.unique_seq_to_set();
            assert(!before.to_set().contains(peer));
        }
    }

    /// Number of peers whose beacon arrived in the current epoch.
    pub fn beacon_count(&self) -> (n: usize)
        requires
            self.wf(),
        ensures
            n == self.beacons().len(),
    {
        proof {
            self.received_beacons@.unique_seq_to_set();
        }
        self.received_beacons.len()
    }

    /// Whether enough beacons arrived to end the epoch.
    pub fn has_quorum(&self) -> (q: bool)
        requires
            self.wf(),
        ensures
            q == (self.beacons().len() >= self.quorum()),
    {
        proof {
            self.received_beacons@.unique_seq_to_set();
        }
        self.received_beacons.len() >= self.quorum_threshold
    }
}

/// Recording the beacon of a peer a second time changes nothing: the set of beacons
/// after two recordings of `peer` is the set after one.
pub proof fn lemma_record_twice_is_once(beacons: Set<NodeId>, peer: NodeId)
    ensures
        beacons.insert(peer).insert(peer) == beacons.insert(peer),
{
    assert(beacons.insert(peer).insert(peer) =~= beacons.insert(peer));
}

/// Three advances through the phases of an epoch lead back to `Measure`: the phase
/// after `Publish` is the end of the epoch, and every other phase has a successor.
pub proof fn lemma_phase_cycle(p: EpochPhase)
    ensures
        phase_after(p) is None <==> p == EpochPhase::Publish,
        p == EpochPhase::Measure ==> phase_after(phase_after(p)->0) == Some(EpochPhase::Publish),
{
}

} // verus!
