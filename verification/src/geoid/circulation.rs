use vstd::prelude::*;

use crate::geoid::model::RegionId;
use crate::types::Epoch;

verus! {

/// Downward hint: which region a node should measure more, and how urgently.
#[derive(Debug, Clone)]
pub struct RefinementHint {
    pub epoch: Epoch,
    pub geoid_level: u8,
    pub region_id: RegionId,
    pub geoid_residual_nanos: i64,
    /// Priority 1 (low) to 10 (high).
    pub priority: u8,
    pub suggested_neighbor_regions: Vec<RegionId>,
}

/// Measurement plan for the next epoch.
#[derive(Debug, Clone)]
pub struct MeasurementSchedule {
    pub priority_regions: Vec<(RegionId, u8)>,
    pub min_measurements: u32,
    pub extra_measurements_per_priority: u32,
}

/// Sum of the priorities of the first `k` regions.
pub open spec fn priority_sum(s: Seq<(RegionId, u8)>, k: nat) -> int
    decreases k,
{
    if k == 0 {
        0
    } else {
        priority_sum(s, (k - 1) as nat) + s[k - 1].1
    }
}

/// Measurements a schedule asks for: the minimum plus the extra per priority point of
/// each prioritised region.
pub open spec fn total_of(s: MeasurementSchedule) -> int {
    s.min_measurements + priority_sum(s.priority_regions@, s.priority_regions@.len())
        * s.extra_measurements_per_priority
}

/// Priority of a hint from the size of the residual, one more at the finest level,
/// at most 10.
pub open spec fn priority_of(residual_nanos: u64, level: u8) -> u8 {
    let base: int = if residual_nanos <= 100_000 {
        1
    } else if residual_nanos <= 1_000_000 {
        3
    } else if residual_nanos <= 10_000_000 {
        5
    } else if residual_nanos <= 100_000_000 {
        7
    } else {
        9
    };
    let p = base + if level == 0 {
        1int
    } else {
        0int
    };
    (if p > 10 {
        10
    } else {
        p
    }) as u8
}

/// The prioritised regions of `hints` whose priority is `p`, in hint order.
pub open spec fn regions_with_priority(hints: Seq<RefinementHint>, p: u8) -> Seq<(RegionId, u8)>
    decreases hints.len(),
{
    if hints.len() == 0 {
        Seq::empty()
    } else {
        let rest = regions_with_priority(hints.drop_last(), p);
        if hints.last().priority == p {
            rest.push((hints.last().region_id, p))
        } else {
            rest
        }
    }
}

/// The prioritised regions of `hints` with priority below `bound`, highest priority
/// first and in hint order within one priority (a stable sort by falling priority).
pub open spec fn regions_below(hints: Seq<RefinementHint>, bound: nat) -> Seq<(RegionId, u8)>
    decreases bound,
{
    if bound == 0 {
        Seq::empty()
    } else {
        regions_with_priority(hints, (bound - 1) as u8) + regions_below(hints, (bound - 1) as nat)
    }
}

/// All prioritised regions of `hints`, highest priority first, stable within a priority.
pub open spec fn regions_by_priority(hints: Seq<RefinementHint>) -> Seq<(RegionId, u8)> {
    regions_below(hints, 256)
}

impl MeasurementSchedule {
    /// No prioritised region, 8 measurements, 2 more per priority point.
    pub fn default_schedule() -> (s: Self)
        ensures
            s.priority_regions@.len() == 0,
            s.min_measurements == 8,
            s.extra_measurements_per_priority == 2,
    {
        MeasurementSchedule {
            priority_regions: Vec::new(),
            min_measurements: 8,
            extra_measurements_per_priority: 2,
        }
    }

    /// The number of measurements the schedule asks for.
    pub fn total_measurements(&self) -> (n: u32)
        requires
            total_of(*self) <= u32::MAX,
            forall|k: nat|
                k <= self.priority_regions@.len() ==> #[trigger] priority_sum(self.priority_regions@, k)
                    * self.extra_measurements_per_priority <= u32::MAX,
        ensures
            n == total_of(*self),
    {
        let ghost s = self.priority_regions@;
        let mut extra: u32 = 0;
        let mut i: usize = 0;
        while i < self.priority_regions.len()
            invariant
                s == self.priority_regions@,
                0 <= i <= s.len(),
                forall|k: nat| k <= s.len() ==> #[trigger] priority_sum(s, k) * self.extra_measurements_per_priority
                    <= u32::MAX,
                extra == priority_sum(s, i as nat) * self.extra_measurements_per_priority,
            decreases s.len() - i,
        {
            let p = self.priority_regions[i].1;
            proof {
                lemma_priority_sum_nonneg(s, i as nat);
                assert(priority_sum(s, (i + 1) as nat) * self.extra_measurements_per_priority <= u32::MAX);
                assert(priority_sum(s, (i + 1) as nat) * self.extra_measurements_per_priority == priority_sum(
                    s,
                    i as nat,
                ) * self.extra_measurements_per_priority + p * self.extra_measurements_per_priority)
                    by (nonlinear_arith)
                    requires
                        priority_sum(s, (i + 1) as nat) == priority_sum(s, i as nat) + p,
                ;
                assert(p * self.extra_measurements_per_priority <= u32::MAX) by (nonlinear_arith)
                    requires
                        priority_sum(s, i as nat) >= 0,
                        self.extra_measurements_per_priority >= 0,
                        priority_sum(s, (i + 1) as nat) * self.extra_measurements_per_priority <= u32::MAX,
                        priority_sum(s, (i + 1) as nat) == priority_sum(s, i as nat) + p,
                ;
            }
            extra = extra + p as u32 * self.extra_measurements_per_priority;
            i = i + 1;
        }
        self.min_measurements + extra
    }

    /// The number of measurements the schedule asks for, or `None` when the count or
    /// one of its running sums leaves 32 bits.
    pub fn checked_total(&self) -> (r: Option<u32>)
        ensures
            r is Some <==> total_fits(*self),
            r matches Some(n) ==> n == total_of(*self),
    {
        let ghost s = self.priority_regions@;
        let extra = self.extra_measurements_per_priority as u64;
        if extra == 0 {
            assert forall|k: nat| k <= s.len() implies #[trigger] priority_sum(s, k) * self.extra_measurements_per_priority
                <= u32::MAX by {
                assert(priority_sum(s, k) * 0 == 0);
            }
            assert(priority_sum(s, s.len()) * 0 == 0);
            return Some(self.total_measurements());
        }
        let mut sum: u64 = 0;
        let mut i: usize = 0;
        while i < self.priority_regions.len()
            invariant
                s == self.priority_regions@,
                extra == self.extra_measurements_per_priority,
                extra >= 1,
                0 <= i <= s.len(),
                sum == priority_sum(s, i as nat),
                sum * extra <= u32::MAX,
                forall|k: nat| k <= i ==> #[trigger] priority_sum(s, k) * extra <= u32::MAX,
            decreases s.len() - i,
        {
            let p = self.priority_regions[i].1 as u64;
            proof {
                lemma_priority_sum_nonneg(s, i as nat);
            }
            assert(sum <= u32::MAX) by (nonlinear_arith)
                requires
                    sum * extra <= u32::MAX,
                    extra >= 1,
                    sum >= 0,
            ;
            let next = sum + p;
            assert(extra <= u32::MAX);
            assert(next * extra <= 0x1_0000_0100 * 0x1_0000_0000) by (nonlinear_arith)
                requires
                    next <= 0x1_0000_0100,
                    extra <= 0x1_0000_0000,
                    next >= 0,
                    extra >= 0,
            ;
            if (next as u128) * (extra as u128) > u32::MAX as u128 {
                assert(priority_sum(s, (i + 1) as nat) * extra > u32::MAX);
                return None;
            }
            sum = next;
            i = i + 1;
        }
        let total = self.min_measurements as u64 + sum * extra;
        if total > u32::MAX as u64 {
            return None;
        }
        Some(self.total_measurements())
    }
}

/// A schedule's count and every running sum of its priorities times the extra per
/// priority point fit in 32 bits (what `total_measurements` needs).
pub open spec fn total_fits(s: MeasurementSchedule) -> bool {
    &&& total_of(s) <= u32::MAX
    &&& forall|k: nat|
        k <= s.priority_regions@.len() ==> #[trigger] priority_sum(s.priority_regions@, k)
            * s.extra_measurements_per_priority <= u32::MAX
}

proof fn lemma_priority_sum_nonneg(s: Seq<(RegionId, u8)>, k: nat)
    ensures
        priority_sum(s, k) >= 0,
    decreases k,
{
    if k > 0 {
        lemma_priority_sum_nonneg(s, (k - 1) as nat);
    }
}

/// Priority of a refinement hint for a residual of `residual_nanos` at `level`.
pub fn hint_priority(residual_nanos: u64, level: u8) -> (p: u8)
    ensures
        p == priority_of(residual_nanos, level),
        1 <= p <= 10,
{
    let base: u8 = if residual_nanos <= 100_000 {
        1
    } else if residual_nanos <= 1_000_000 {
        3
    } else if residual_nanos <= 10_000_000 {
        5
    } else if residual_nanos <= 100_000_000 {
        7
    } else {
        9
    };
    let p = base + if level == 0 {
        1
    } else {
        0
    };
    if p > 10 {
        10
    } else {
        p
    }
}

/// The measurement schedule for a set of hints: the default schedule with every
/// hinted region, highest priority first and in hint order within one priority.
pub fn schedule_from_hints(hints: &[RefinementHint]) -> (s: MeasurementSchedule)
    ensures
        s.priority_regions@ == regions_by_priority(hints@),
        s.min_measurements == 8,
        s.extra_measurements_per_priority == 2,
{
    let mut schedule = MeasurementSchedule::default_schedule();
    let mut bound: u16 = 256;
    assert(schedule.priority_regions@ =~= Seq::<(RegionId, u8)>::empty());
    while bound > 0
        invariant
            bound <= 256,
            schedule.min_measurements == 8,
            schedule.extra_measurements_per_priority == 2,
            schedule.priority_regions@ + regions_below(hints@, bound as nat) == regions_by_priority(hints@),
        decreases bound,
    {
        let p = (bound - 1) as u8;
        let mut i: usize = 0;
        let ghost start = schedule.priority_regions@;
        while i < hints.len()
            invariant
                0 <= i <= hints@.len(),
                schedule.min_measurements == 8,
                schedule.extra_measurements_per_priority == 2,
                schedule.priority_regions@ == start + regions_with_priority(hints@.take(i as int), p),
            decreases hints@.len() - i,
        {
            proof {
                let t = hints@.take(i + 1);
                assert(t.drop_last() =~= hints@.take(i as int));
                assert(t.last() == hints@[i as int]);
            }
            if hints[i].priority == p {
                schedule.priority_regions.push((hints[i].region_id, p));
            }
            i = i + 1;
        }
        assert(hints@.take(hints@.len() as int) =~= hints@);
        proof {
            assert(regions_below(hints@, bound as nat) == regions_with_priority(hints@, p) + regions_below(
                hints@,
                (bound - 1) as nat,
            ));
            assert(schedule.priority_regions@ + regions_below(hints@, (bound - 1) as nat) =~= start
                + regions_below(hints@, bound as nat));
        }
        bound = bound - 1;
    }
    assert(schedule.priority_regions@ + Seq::<(RegionId, u8)>::empty() =~= schedule.priority_regions@);
    schedule
}

proof fn lemma_with_priority_all(hints: Seq<RefinementHint>, p: u8)
    ensures
        forall|i: int| 0 <= i < regions_with_priority(hints, p).len() ==> (#[trigger] regions_with_priority(hints, p)[i]).1 == p,
    decreases hints.len(),
{
    if hints.len() > 0 {
        lemma_with_priority_all(hints.drop_last(), p);
        let rest = regions_with_priority(hints.drop_last(), p);
        if hints.last().priority == p {
            assert forall|i: int| 0 <= i < rest.len() + 1 implies (#[trigger] rest.push(
                (hints.last().region_id, p),
            )[i]).1 == p by {
                if i < rest.len() {
                    assert(rest.push((hints.last().region_id, p))[i] == rest[i]);
                }
            }
        }
    }
}

proof fn lemma_below_sorted(hints: Seq<RefinementHint>, bound: nat)
    requires
        bound <= 256,
    ensures
        forall|i: int| 0 <= i < regions_below(hints, bound).len() ==> (#[trigger] regions_below(hints, bound)[i]).1 < bound,
        forall|i: int, j: int|
            0 <= i < j < regions_below(hints, bound).len() ==> (#[trigger] regions_below(hints, bound)[i]).1
                >= (#[trigger] regions_below(hints, bound)[j]).1,
    decreases bound,
{
    if bound > 0 {
        let p = (bound - 1) as u8;
        lemma_below_sorted(hints, (bound - 1) as nat);
        lemma_with_priority_all(hints, p);
        let a = regions_with_priority(hints, p);
        let b = regions_below(hints, (bound - 1) as nat);
        let c = a + b;
        assert forall|i: int| 0 <= i < c.len() implies (#[trigger] c[i]).1 < bound by {
            if i < a.len() {
                assert(c[i] == a[i]);
            } else {
                assert(c[i] == b[i - a.len()]);
            }
        }
        assert forall|i: int, j: int| 0 <= i < j < c.len() implies (#[trigger] c[i]).1 >= (#[trigger] c[j]).1 by {
            if j < a.len() {
                assert(c[i] == a[i] && c[j] == a[j]);
            } else if i >= a.len() {
                assert(c[i] == b[i - a.len()] && c[j] == b[j - a.len()]);
            } else {
                assert(c[i] == a[i] && c[j] == b[j - a.len()]);
            }
        }
    }
}

/// A schedule lists its regions from the highest priority down.
pub proof fn lemma_schedule_by_falling_priority(hints: Seq<RefinementHint>)
    ensures
        forall|i: int, j: int|
            0 <= i < j < regions_by_priority(hints).len() ==> (#[trigger] regions_by_priority(hints)[i]).1
                >= (#[trigger] regions_by_priority(hints)[j]).1,
{
    lemma_below_sorted(hints, 256);
}

} // verus!
