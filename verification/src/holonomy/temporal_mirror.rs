use vstd::prelude::*;

use crate::holonomy::chiral::div_toward_zero;
use crate::num::{float_half, float_half_of, unsigned_abs};

verus! {

/// Disagreement below which the two mirrors count as agreeing (one microsecond).
pub const AGREEMENT_NANOS: u64 = 1000;

/// Iterations the boundary solver allows the mirrors.
pub const BOUNDARY_ITERATIONS: u32 = 50;

/// Result of bringing a predictive and a retrodictive time estimate into agreement.
#[derive(Debug, Clone)]
pub struct TemporalMirror {
    pub predictive_time_nanos: u64,
    pub retrodictive_time_nanos: u64,
    pub fixed_point_nanos: u64,
    pub disagreement_nanos: u64,
    pub iterations_to_converge: u32,
}

/// Whether `x` fits in a signed 64-bit integer.
pub open spec fn fits(x: int) -> bool {
    i64::MIN <= x <= i64::MAX
}

/// Sum of the first `k` values.
pub open spec fn sum_i64(s: Seq<i64>, k: nat) -> int
    decreases k,
{
    if k == 0 {
        0
    } else {
        sum_i64(s, (k - 1) as nat) + s[k - 1]
    }
}

/// Mean of the values, rounded toward zero.
pub open spec fn mean_i64(s: Seq<i64>) -> int {
    div_toward_zero(sum_i64(s, s.len()), s.len() as int)
}

/// One damped bisection: both estimates move half way to their midpoint (the halves
/// taken as the float computation `((m - x) as f64 * 0.5) as i64` gives them).
pub open spec fn mirror_step(st: (int, int)) -> (int, int) {
    let mid = div_toward_zero(st.0 + st.1, 2);
    (st.0 + float_half(mid - st.0), st.1 + float_half(mid - st.1))
}

/// The estimates after `k` bisections.
pub open spec fn mirror_state(start: (int, int), k: nat) -> (int, int)
    decreases k,
{
    if k == 0 {
        start
    } else {
        mirror_step(mirror_state(start, (k - 1) as nat))
    }
}

/// The two estimates agree to within a microsecond.
pub open spec fn agreed(st: (int, int)) -> bool {
    -(AGREEMENT_NANOS as int) < st.0 - st.1 < AGREEMENT_NANOS as int
}

/// Number of bisections made from iteration `k` on: up to the first that brings
/// agreement, at most `max`.
pub open spec fn bisections_from(start: (int, int), k: nat, max: nat) -> nat
    decreases max - k,
{
    if k >= max {
        max
    } else if agreed(mirror_state(start, k + 1)) {
        k + 1
    } else {
        bisections_from(start, k + 1, max)
    }
}

/// Number of bisections made from `start` with at most `max`.
pub open spec fn bisections(start: (int, int), max: nat) -> nat {
    bisections_from(start, 0, max)
}

/// Every bisection made, and the final midpoint and disagreement, stay within 64 bits.
pub open spec fn mirror_fits(start: (int, int), max: nat) -> bool {
    let n = bisections(start, max);
    &&& forall|k: nat| k < n ==> bisection_fits(#[trigger] mirror_state(start, k))
    &&& fits(mirror_state(start, n).0 + mirror_state(start, n).1)
    &&& fits(mirror_state(start, n).0 - mirror_state(start, n).1)
}

/// One bisection from the estimates `st` stays within 64 bits: their sum, the steps to
/// the midpoint, the new estimates and their difference.
pub open spec fn bisection_fits(st: (int, int)) -> bool {
    let mid = div_toward_zero(st.0 + st.1, 2);
    let nx = mirror_step(st);
    &&& fits(st.0 + st.1)
    &&& fits(mid - st.0)
    &&& fits(mid - st.1)
    &&& fits(nx.0)
    &&& fits(nx.1)
    &&& fits(nx.0 - nx.1)
}

/// The running sums of the values stay within 64 bits.
pub open spec fn sums_fit(s: Seq<i64>) -> bool {
    forall|k: nat| k <= s.len() ==> fits(#[trigger] sum_i64(s, k))
}

/// Magnitude of an integer.
pub open spec fn magnitude(x: int) -> int {
    if x < 0 {
        -x
    } else {
        x
    }
}

/// The mirror found from the means of the forward and backward estimates.
pub open spec fn mirror_of(forward: Seq<i64>, backward: Seq<i64>, max: nat) -> TemporalMirror {
    let start = (mean_i64(forward), mean_i64(backward));
    let n = bisections(start, max);
    let st = mirror_state(start, n);
    TemporalMirror {
        predictive_time_nanos: st.0 as u64,
        retrodictive_time_nanos: st.1 as u64,
        fixed_point_nanos: div_toward_zero(st.0 + st.1, 2) as u64,
        disagreement_nanos: magnitude(st.0 - st.1) as u64,
        iterations_to_converge: n as u32,
    }
}

/// What a mirror without estimates reports: everything zero but an unbounded
/// disagreement.
pub open spec fn empty_mirror() -> TemporalMirror {
    TemporalMirror {
        predictive_time_nanos: 0,
        retrodictive_time_nanos: 0,
        fixed_point_nanos: 0,
        disagreement_nanos: u64::MAX,
        iterations_to_converge: 0,
    }
}

/// The mirror for the given estimates.
pub open spec fn fixed_point_of(forward: Seq<i64>, backward: Seq<i64>, max: nat) -> TemporalMirror {
    if forward.len() == 0 || backward.len() == 0 {
        empty_mirror()
    } else {
        mirror_of(forward, backward, max)
    }
}

/// The estimates can be averaged and bisected without overflow.
pub open spec fn fixed_point_fits(forward: Seq<i64>, backward: Seq<i64>, max: nat) -> bool {
    forward.len() > 0 && backward.len() > 0 ==> {
        &&& forward.len() <= i64::MAX
        &&& backward.len() <= i64::MAX
        &&& sums_fit(forward)
        &&& sums_fit(backward)
        &&& mirror_fits((mean_i64(forward), mean_i64(backward)), max)
    }
}

/// The mean of the values, rounded toward zero.
fn mean_of(s: &[i64]) -> (m: i64)
    requires
        s@.len() > 0,
        s@.len() <= i64::MAX,
        sums_fit(s@),
    ensures
        m == mean_i64(s@),
{
    let mut total: i64 = 0;
    let mut i: usize = 0;
    while i < s.len()
        invariant
            sums_fit(s@),
            0 <= i <= s@.len(),
            total == sum_i64(s@, i as nat),
        decreases s@.len() - i,
    {
        assert(fits(sum_i64(s@, (i + 1) as nat)));
        total = total + s[i];
        i = i + 1;
    }
    total / (s.len() as i64)
}

proof fn lemma_bisections_bound(start: (int, int), k: nat, max: nat)
    requires
        k <= max,
    ensures
        k <= bisections_from(start, k, max) <= max,
        bisections_from(start, k, max) < max ==> agreed(mirror_state(start, bisections_from(start, k, max))),
        forall|j: nat| k < j < bisections_from(start, k, max) ==> !agreed(#[trigger] mirror_state(start, j)),
    decreases max - k,
{
    if k < max && !agreed(mirror_state(start, k + 1)) {
        lemma_bisections_bound(start, k + 1, max);
    }
}

/// Whether the running sums of the values stay within 64 bits.
fn sums_fit_exec(s: &[i64]) -> (ok: bool)
    ensures
        ok == sums_fit(s@),
{
    let mut total: i64 = 0;
    let mut i: usize = 0;
    while i < s.len()
        invariant
            0 <= i <= s@.len(),
            total == sum_i64(s@, i as nat),
            forall|k: nat| k <= i ==> fits(#[trigger] sum_i64(s@, k)),
        decreases s@.len() - i,
    {
        match total.checked_add(s[i]) {
            Some(t) => {
                total = t;
            },
            None => {
                assert(!fits(sum_i64(s@, (i + 1) as nat)));
                return false;
            },
        }
        i = i + 1;
    }
    true
}

proof fn lemma_bisection_overflows(start: (int, int), max: nat, k: nat)
    requires
        k < bisections(start, max),
        !bisection_fits(mirror_state(start, k)),
    ensures
        !mirror_fits(start, max),
{
}

/// Whether the bisections from `(p0, r0)` stay within 64 bits (`mirror_fits`), checked
/// by running them with checked arithmetic.
fn mirror_fits_exec(p0: i64, r0: i64, max_iterations: u32) -> (ok: bool)
    ensures
        ok == mirror_fits((p0 as int, r0 as int), max_iterations as nat),
{
    let ghost start = (p0 as int, r0 as int);
    let ghost max = max_iterations as nat;
    let mut p = p0;
    let mut r = r0;
    let mut i: u32 = 0;
    while i < max_iterations
        invariant_except_break
            bisections(start, max) == bisections_from(start, i as nat, max),
        invariant
            start == (p0 as int, r0 as int),
            max == max_iterations,
            0 <= i <= max_iterations,
            (p as int, r as int) == mirror_state(start, i as nat),
            forall|k: nat| k < i ==> bisection_fits(#[trigger] mirror_state(start, k)),
        ensures
            i == bisections(start, max),
            (p as int, r as int) == mirror_state(start, i as nat),
            forall|k: nat| k < i ==> bisection_fits(#[trigger] mirror_state(start, k)),
        decreases max_iterations - i,
    {
        proof {
            lemma_bisections_bound(start, (i + 1) as nat, max);
            assert(i < bisections(start, max));
        }
        let ghost st = mirror_state(start, i as nat);
        let sum = match p.checked_add(r) {
            Some(v) => v,
            None => {
                proof {
                    lemma_bisection_overflows(start, max, i as nat);
                }
                return false;
            },
        };
        let mid = sum / 2;
        let a = match mid.checked_sub(p) {
            Some(v) => v,
            None => {
                proof {
                    lemma_bisection_overflows(start, max, i as nat);
                }
                return false;
            },
        };
        let b = match mid.checked_sub(r) {
            Some(v) => v,
            None => {
                proof {
                    lemma_bisection_overflows(start, max, i as nat);
                }
                return false;
            },
        };
        let np = match p.checked_add(float_half_of(a)) {
            Some(v) => v,
            None => {
                proof {
                    lemma_bisection_overflows(start, max, i as nat);
                }
                return false;
            },
        };
        let nr = match r.checked_add(float_half_of(b)) {
            Some(v) => v,
            None => {
                proof {
                    lemma_bisection_overflows(start, max, i as nat);
                }
                return false;
            },
        };
        let diff = match np.checked_sub(nr) {
            Some(v) => v,
            None => {
                proof {
                    lemma_bisection_overflows(start, max, i as nat);
                }
                return false;
            },
        };
        assert(bisection_fits(st));
        p = np;
        r = nr;
        assert((p as int, r as int) == mirror_state(start, (i + 1) as nat));
        i = i + 1;
        if unsigned_abs(diff) < AGREEMENT_NANOS {
            assert(agreed(mirror_state(start, i as nat)));
            assert(bisections_from(start, (i - 1) as nat, max) == i);
            break;
        }
    }
    if p.checked_add(r).is_none() || p.checked_sub(r).is_none() {
        return false;
    }
    true
}

/// Whether the estimates can be averaged and bisected within 64 bits
/// (`find_fixed_point`'s precondition).
pub fn fixed_point_fits_exec(forward_estimates: &[i64], backward_estimates: &[i64], max_iterations: u32) -> (ok: bool)
    ensures
        ok == fixed_point_fits(forward_estimates@, backward_estimates@, max_iterations as nat),
{
    if forward_estimates.len() == 0 || backward_estimates.len() == 0 {
        return true;
    }
    if (forward_estimates.len() as u64) > 0x7fff_ffff_ffff_ffffu64 || (backward_estimates.len() as u64)
        > 0x7fff_ffff_ffff_ffffu64 {
        return false;
    }
    if !sums_fit_exec(forward_estimates) || !sums_fit_exec(backward_estimates) {
        return false;
    }
    let fwd_mean = mean_of(forward_estimates);
    let bwd_mean = mean_of(backward_estimates);
    mirror_fits_exec(fwd_mean, bwd_mean, max_iterations)
}

impl TemporalMirror {
    /// Bring the mean of `forward_estimates` (predictive) and the mean of
    /// `backward_estimates` (retrodictive) into agreement by damped bisection, for at
    /// most `max_iterations` rounds, stopping at the first round that leaves them less
    /// than a microsecond apart. Without estimates the disagreement is `u64::MAX`.
    pub fn find_fixed_point(forward_estimates: &[i64], backward_estimates: &[i64], max_iterations: u32) -> (m: Self)
        requires
            fixed_point_fits(forward_estimates@, backward_estimates@, max_iterations as nat),
        ensures
            m == fixed_point_of(forward_estimates@, backward_estimates@, max_iterations as nat),
    {
        if forward_estimates.len() == 0 || backward_estimates.len() == 0 {
            return TemporalMirror {
                predictive_time_nanos: 0,
                retrodictive_time_nanos: 0,
                fixed_point_nanos: 0,
                disagreement_nanos: u64::MAX,
                iterations_to_converge: 0,
            };
        }
        let fwd_mean = mean_of(forward_estimates);
        let bwd_mean = mean_of(backward_estimates);
        let ghost start = (fwd_mean as int, bwd_mean as int);
        let ghost max = max_iterations as nat;
        let mut predictive = fwd_mean;
        let mut retrodictive = bwd_mean;
        let mut iterations: u32 = 0;
        let mut i: u32 = 0;
        while i < max_iterations
            invariant_except_break
                bisections(start, max) == bisections_from(start, i as nat, max),
            invariant
                mirror_fits(start, max),
                max == max_iterations,
                0 <= i <= max_iterations,
                iterations == i,
                (predictive as int, retrodictive as int) == mirror_state(start, i as nat),
            ensures
                iterations == bisections(start, max),
                (predictive as int, retrodictive as int) == mirror_state(start, iterations as nat),
            decreases max_iterations - i,
        {
            proof {
                lemma_bisections_bound(start, (i + 1) as nat, max);
                assert(i < bisections(start, max));
            }
            let ghost st = mirror_state(start, i as nat);
            assert(fits(st.0 + st.1));
            iterations = i + 1;
            let midpoint = (predictive + retrodictive) / 2;
            predictive = predictive + float_half_of(midpoint - predictive);
            retrodictive = retrodictive + float_half_of(midpoint - retrodictive);
            let disagreement = unsigned_abs(predictive - retrodictive);
            assert((predictive as int, retrodictive as int) == mirror_state(start, (i + 1) as nat));
            i = i + 1;
            if disagreement < AGREEMENT_NANOS {
                assert(agreed(mirror_state(start, i as nat)));
                assert(bisections_from(start, (i - 1) as nat, max) == i);
                break;
            }
        }
        let fixed_point = (predictive + retrodictive) / 2;
        let disagreement = unsigned_abs(predictive - retrodictive);
        TemporalMirror {
            predictive_time_nanos: predictive as u64,
            retrodictive_time_nanos: retrodictive as u64,
            fixed_point_nanos: fixed_point as u64,
            disagreement_nanos: disagreement,
            iterations_to_converge: iterations,
        }
    }

    /// Whether the mirrors agree to within `tolerance_nanos`.
    pub fn is_consistent(&self, tolerance_nanos: u64) -> (ok: bool)
        ensures
            ok == (self.disagreement_nanos <= tolerance_nanos),
    {
        self.disagreement_nanos <= tolerance_nanos
    }
}

/// Boundary time a node predicts from its offset: one epoch after the previous boundary.
pub open spec fn retrodicted(prev: u64, dt: i64, offset: i64) -> int {
    (prev as i64) + dt + offset
}

/// Boundary time a node predicts from its offset and drift over one epoch.
pub open spec fn predicted(prev: u64, dt: i64, offset: i64, drift: i64) -> int {
    retrodicted(prev, dt, offset) + div_toward_zero(drift * dt, 1_000_000_000)
}

/// Number of nodes with both an offset and a drift.
pub open spec fn paired_len(offsets: Seq<i64>, drifts: Seq<i64>) -> nat {
    if offsets.len() <= drifts.len() {
        offsets.len()
    } else {
        drifts.len()
    }
}

/// The forward estimates: one per node with both an offset and a drift.
pub open spec fn forward_estimates(offsets: Seq<i64>, drifts: Seq<i64>, prev: u64, dt: i64) -> Seq<i64> {
    Seq::new(paired_len(offsets, drifts), |i: int| predicted(prev, dt, offsets[i], drifts[i]) as i64)
}

/// The backward estimates: one per node offset.
pub open spec fn backward_estimates(offsets: Seq<i64>, prev: u64, dt: i64) -> Seq<i64> {
    Seq::new(offsets.len(), |i: int| retrodicted(prev, dt, offsets[i]) as i64)
}

/// Every estimate can be computed without overflow.
pub open spec fn estimates_fit(offsets: Seq<i64>, drifts: Seq<i64>, prev: u64, dt: i64) -> bool {
    &&& offsets.len() > 0 ==> fits((prev as i64) + dt)
    &&& forall|i: int| 0 <= i < offsets.len() ==> fits(#[trigger] retrodicted(prev, dt, offsets[i]))
    &&& forall|i: int|
        0 <= i < paired_len(offsets, drifts) ==> fits(#[trigger] (drifts[i] * dt)) && fits(
            predicted(prev, dt, offsets[i], drifts[i]),
        )
}

/// Solves the time at successive epoch boundaries and keeps every mirror found.
#[derive(Debug)]
pub struct EpochBoundarySolver {
    pub epoch_duration_nanos: u64,
    mirrors: Vec<TemporalMirror>,
}

impl EpochBoundarySolver {
    /// Length of an epoch.
    pub closed spec fn duration(&self) -> u64 {
        self.epoch_duration_nanos
    }

    /// The mirrors found so far, oldest first.
    pub closed spec fn history(&self) -> Seq<TemporalMirror> {
        self.mirrors@
    }

    /// A solver for epochs of `epoch_duration_nanos`, with no mirror yet.
    pub fn new(epoch_duration_nanos: u64) -> (s: Self)
        ensures
            s.duration() == epoch_duration_nanos,
            s.history() == Seq::<TemporalMirror>::empty(),
    {
        EpochBoundarySolver { epoch_duration_nanos, mirrors: Vec::new() }
    }

    /// Solve the time at the next epoch boundary from each node's offset and drift and
    /// the time solved at the previous boundary: forward estimates add the drift over
    /// one epoch, backward ones do not, and the mirror between them (at most 50
    /// rounds) is kept and returned.
    pub fn solve_boundary(&mut self, node_offsets: &[i64], node_drifts_ppb: &[i64], prev_time_nanos: u64) -> (m: &TemporalMirror)
        requires
            estimates_fit(node_offsets@, node_drifts_ppb@, prev_time_nanos, old(self).duration() as i64),
            fixed_point_fits(
                forward_estimates(node_offsets@, node_drifts_ppb@, prev_time_nanos, old(self).duration() as i64),
                backward_estimates(node_offsets@, prev_time_nanos, old(self).duration() as i64),
                BOUNDARY_ITERATIONS as nat,
            ),
        ensures
            final(self).duration() == old(self).duration(),
            final(self).history() == old(self).history().push(*m),
            *m == fixed_point_of(
                forward_estimates(node_offsets@, node_drifts_ppb@, prev_time_nanos, old(self).duration() as i64),
                backward_estimates(node_offsets@, prev_time_nanos, old(self).duration() as i64),
                BOUNDARY_ITERATIONS as nat,
            ),
    {
        let dt = self.epoch_duration_nanos as i64;
        let ghost offs = node_offsets@;
        let ghost drs = node_drifts_ppb@;
        let n = if node_offsets.len() <= node_drifts_ppb.len() {
            node_offsets.len()
        } else {
            node_drifts_ppb.len()
        };
        let mut forward: Vec<i64> = Vec::new();
        let mut i: usize = 0;
        while i < n
            invariant
                n == paired_len(offs, drs),
                offs == node_offsets@,
                drs == node_drifts_ppb@,
                estimates_fit(offs, drs, prev_time_nanos, dt),
                0 <= i <= n,
                forward@ == forward_estimates(offs, drs, prev_time_nanos, dt).take(i as int),
            decreases n - i,
        {
            assert(fits(retrodicted(prev_time_nanos, dt, offs[i as int])));
            assert(fits(drs[i as int] * dt) && fits(predicted(prev_time_nanos, dt, offs[i as int], drs[i as int])));
            let base = prev_time_nanos as i64 + dt;
            let v = base + node_offsets[i] + (node_drifts_ppb[i] * dt) / 1_000_000_000;
            forward.push(v);
            assert(forward@ =~= forward_estimates(offs, drs, prev_time_nanos, dt).take(i + 1));
            i = i + 1;
        }
        let mut backward: Vec<i64> = Vec::new();
        let mut j: usize = 0;
        while j < node_offsets.len()
            invariant
                offs == node_offsets@,
                estimates_fit(offs, drs, prev_time_nanos, dt),
                0 <= j <= offs.len(),
                backward@ == backward_estimates(offs, prev_time_nanos, dt).take(j as int),
            decreases offs.len() - j,
        {
            assert(fits(retrodicted(prev_time_nanos, dt, offs[j as int])));
            let base = prev_time_nanos as i64 + dt;
            backward.push(base + node_offsets[j]);
            assert(backward@ =~= backward_estimates(offs, prev_time_nanos, dt).take(j + 1));
            j = j + 1;
        }
        assert(forward@ =~= forward_estimates(offs, drs, prev_time_nanos, dt));
        assert(backward@ =~= backward_estimates(offs, prev_time_nanos, dt));
        let mirror = TemporalMirror::find_fixed_point(forward.as_slice(), backward.as_slice(), BOUNDARY_ITERATIONS);
        self.mirrors.push(mirror);
        let last = self.mirrors.len() - 1;
        &self.mirrors[last]
    }

    /// Whether `solve_boundary` can solve these offsets and drifts after the boundary
    /// `prev_time_nanos`: every estimate, and then the fixed point, fits in 64 bits.
    pub fn boundary_fits(&self, node_offsets: &[i64], node_drifts_ppb: &[i64], prev_time_nanos: u64) -> (ok: bool)
        ensures
            ok == (estimates_fit(node_offsets@, node_drifts_ppb@, prev_time_nanos, self.duration() as i64)
                && fixed_point_fits(
                forward_estimates(node_offsets@, node_drifts_ppb@, prev_time_nanos, self.duration() as i64),
                backward_estimates(node_offsets@, prev_time_nanos, self.duration() as i64),
                BOUNDARY_ITERATIONS as nat,
            )),
    {
        let dt = self.epoch_duration_nanos as i64;
        let ghost offs = node_offsets@;
        let ghost drs = node_drifts_ppb@;
        if node_offsets.len() == 0 {
            assert(forward_estimates(offs, drs, prev_time_nanos, dt).len() == 0);
            return true;
        }
        let base = match (prev_time_nanos as i64).checked_add(dt) {
            Some(v) => v,
            None => {
                assert(!fits((prev_time_nanos as i64) + dt));
                assert(!estimates_fit(offs, drs, prev_time_nanos, dt));
                return false;
            },
        };
        let mut backward: Vec<i64> = Vec::new();
        let mut j: usize = 0;
        while j < node_offsets.len()
            invariant
                offs == node_offsets@,
                drs == node_drifts_ppb@,
                dt == self.duration() as i64,
                offs.len() > 0,
                base == (prev_time_nanos as i64) + dt,
                0 <= j <= offs.len(),
                forall|k: int| 0 <= k < j ==> fits(#[trigger] retrodicted(prev_time_nanos, dt, offs[k])),
                backward@ == backward_estimates(offs, prev_time_nanos, dt).take(j as int),
            decreases offs.len() - j,
        {
            match base.checked_add(node_offsets[j]) {
                Some(v) => {
                    backward.push(v);
                },
                None => {
                    assert(!fits(retrodicted(prev_time_nanos, dt, offs[j as int])));
                    return false;
                },
            }
            assert(backward@ =~= backward_estimates(offs, prev_time_nanos, dt).take(j + 1));
            j = j + 1;
        }
        let n = if node_offsets.len() <= node_drifts_ppb.len() {
            node_offsets.len()
        } else {
            node_drifts_ppb.len()
        };
        let mut forward: Vec<i64> = Vec::new();
        let mut i: usize = 0;
        while i < n
            invariant
                offs == node_offsets@,
                drs == node_drifts_ppb@,
                n == paired_len(offs, drs),
                dt == self.duration() as i64,
                offs.len() > 0,
                base == (prev_time_nanos as i64) + dt,
                forall|k: int| 0 <= k < offs.len() ==> fits(#[trigger] retrodicted(prev_time_nanos, dt, offs[k])),
                0 <= i <= n,
                forall|k: int| 0 <= k < i ==> fits(#[trigger] (drs[k] * dt)) && fits(
                    predicted(prev_time_nanos, dt, offs[k], drs[k]),
                ),
                forward@ == forward_estimates(offs, drs, prev_time_nanos, dt).take(i as int),
            decreases n - i,
        {
            assert(fits(retrodicted(prev_time_nanos, dt, offs[i as int])));
            let retro = base + node_offsets[i];
            let prod = match node_drifts_ppb[i].checked_mul(dt) {
                Some(v) => v,
                None => {
                    assert(!fits(drs[i as int] * dt));
                    return false;
                },
            };
            match retro.checked_add(prod / 1_000_000_000) {
                Some(v) => {
                    forward.push(v);
                },
                None => {
                    assert(!fits(predicted(prev_time_nanos, dt, offs[i as int], drs[i as int])));
                    return false;
                },
            }
            assert(forward@ =~= forward_estimates(offs, drs, prev_time_nanos, dt).take(i + 1));
            i = i + 1;
        }
        assert(forward@ =~= forward_estimates(offs, drs, prev_time_nanos, dt));
        assert(backward@ =~= backward_estimates(offs, prev_time_nanos, dt));
        fixed_point_fits_exec(forward.as_slice(), backward.as_slice(), BOUNDARY_ITERATIONS)
    }

    /// The mirror of the latest boundary solved.
    pub fn latest_mirror(&self) -> (m: Option<&TemporalMirror>)
        ensures
            match m {
                Some(x) => self.history().len() > 0 && *x == self.history().last(),
                None => self.history().len() == 0,
            },
    {
        if self.mirrors.len() == 0 {
            None
        } else {
            Some(&self.mirrors[self.mirrors.len() - 1])
        }
    }
}

/// The history records the solves: if a solver starts empty (as `new` makes it) and
/// each solve appends the mirror it returns (as `solve_boundary` does), then after the
/// solves the history is exactly the returned mirrors in order, so `latest_mirror`
/// gives the mirror of the last solve, and nothing before the first.
pub proof fn lemma_history_records_solves(hs: Seq<Seq<TemporalMirror>>, ms: Seq<TemporalMirror>)
    requires
        hs.len() == ms.len() + 1,
        hs[0] == Seq::<TemporalMirror>::empty(),
        forall|k: int| 0 <= k < ms.len() ==> #[trigger] hs[k + 1] == hs[k].push(ms[k]),
    ensures
        hs.last() == ms,
        ms.len() == 0 ==> hs.last().len() == 0,
        ms.len() > 0 ==> hs.last().last() == ms.last(),
    decreases ms.len(),
{
    if ms.len() > 0 {
        let n = ms.len() - 1;
        let hs0 = hs.take(n + 1);
        let ms0 = ms.take(n);
        assert forall|k: int| 0 <= k < ms0.len() implies #[trigger] hs0[k + 1] == hs0[k].push(ms0[k]) by {
            assert(hs[k + 1] == hs[k].push(ms[k]));
        }
        lemma_history_records_solves(hs0, ms0);
        assert(hs[n + 1] == hs[n].push(ms[n]));
        assert(ms =~= ms0.push(ms[n]));
    } else {
        assert(ms =~= Seq::<TemporalMirror>::empty());
    }
}

/// When the mirrors stop before the iteration limit, they agree to within a microsecond.
pub proof fn lemma_stops_on_agreement(forward: Seq<i64>, backward: Seq<i64>, max: nat)
    requires
        forward.len() > 0,
        backward.len() > 0,
        bisections((mean_i64(forward), mean_i64(backward)), max) < max,
        fits(mirror_state(
            (mean_i64(forward), mean_i64(backward)),
            bisections((mean_i64(forward), mean_i64(backward)), max),
        ).0 - mirror_state(
            (mean_i64(forward), mean_i64(backward)),
            bisections((mean_i64(forward), mean_i64(backward)), max),
        ).1),
    ensures
        fixed_point_of(forward, backward, max).disagreement_nanos < AGREEMENT_NANOS,
{
    lemma_bisections_bound((mean_i64(forward), mean_i64(backward)), 0, max);
}


/// The running sum of the first `k` values depends on those values only.
proof fn lemma_sum_prefix_same(s: Seq<i64>, t: Seq<i64>, k: nat)
    requires
        k <= s.len(),
        k <= t.len(),
        forall|i: int| 0 <= i < k ==> s[i] == t[i],
    ensures
        sum_i64(s, k) == sum_i64(t, k),
    decreases k,
{
    if k > 0 {
        lemma_sum_prefix_same(s, t, (k - 1) as nat);
    }
}

/// The sum of the values is their left fold with `+`.
proof fn lemma_sum_is_fold(s: Seq<i64>)
    ensures
        sum_i64(s, s.len()) == s.fold_left(0int, |acc: int, x: i64| acc + x),
    decreases s.len(),
{
    if s.len() > 0 {
        let d = s.drop_last();
        lemma_sum_is_fold(d);
        lemma_sum_prefix_same(s, d, d.len());
    }
}

/// Taking out the value at `k` takes it out of the sum.
proof fn lemma_sum_without(s: Seq<i64>, k: int)
    requires
        0 <= k < s.len(),
    ensures
        sum_i64(s, s.len()) == sum_i64(s.remove(k), (s.len() - 1) as nat) + s[k],
    decreases s.len(),
{
    let n = s.len();
    let r = s.remove(k);
    let d = s.drop_last();
    lemma_sum_prefix_same(s, d, (n - 1) as nat);
    if k == n - 1 {
        assert(r =~= d);
    } else {
        lemma_sum_without(d, k);
        let dr = d.remove(k);
        assert(r.len() == n - 1);
        assert forall|i: int| 0 <= i < n - 2 implies r[i] == dr[i] by {
            if i < k {
                assert(r[i] == s[i]);
            } else {
                assert(r[i] == s[i + 1]);
            }
        }
        lemma_sum_prefix_same(r, dr, (n - 2) as nat);
        assert(r[n - 2] == s[n - 1]);
    }
}

/// Values holding the same multiset of numbers have the same sum and count.
proof fn lemma_sum_reordered(s: Seq<i64>, t: Seq<i64>)
    requires
        s.to_multiset() == t.to_multiset(),
    ensures
        s.len() == t.len(),
        sum_i64(s, s.len()) == sum_i64(t, t.len()),
    decreases s.len(),
{
    broadcast use vstd::seq_lib::group_to_multiset_ensures;

    assert(s.to_multiset().len() == s.len());
    assert(t.to_multiset().len() == t.len());
    assert(s.to_multiset().len() == t.to_multiset().len());
    if s.len() > 0 {
        let n = s.len();
        let x = s[n - 1];
        assert(s.contains(x));
        assert(t.to_multiset().count(x) > 0);
        assert(t.contains(x));
        let k = choose|k: int| 0 <= k < t.len() && t[k] == x;
        let s1 = s.remove(n - 1);
        let t1 = t.remove(k);
        assert(s1.to_multiset() =~= s.to_multiset().remove(x));
        assert(t1.to_multiset() =~= t.to_multiset().remove(x));
        lemma_sum_reordered(s1, t1);
        lemma_sum_without(s, n - 1);
        lemma_sum_without(t, k);
    }
}

/// The fixed point does not depend on the order of the estimates: reordering the
/// forward estimates, the backward estimates or both gives the same mirror (what
/// `find_fixed_point` returns).
pub proof fn lemma_fixed_point_order_free(
    forward: Seq<i64>,
    forward2: Seq<i64>,
    backward: Seq<i64>,
    backward2: Seq<i64>,
    max: nat,
)
    requires
        forward.to_multiset() == forward2.to_multiset(),
        backward.to_multiset() == backward2.to_multiset(),
    ensures
        fixed_point_of(forward, backward, max) == fixed_point_of(forward2, backward2, max),
{
    lemma_sum_reordered(forward, forward2);
    lemma_sum_reordered(backward, backward2);
}

/// The integer quotient `a / b` rounded toward zero, for positive `b`.
pub open spec fn quotient_toward_zero(a: int, b: int) -> int {
    if a >= 0 {
        a / b
    } else {
        -((-a) / b)
    }
}

proof fn lemma_float_half_zero()
    ensures
        float_half(0) == 0,
{
    vstd::arithmetic::power2::lemma2_to64();
    assert(crate::num::float_dropped_bits(0) == 0);
}

proof fn lemma_mirror_rests(q: int, k: nat)
    ensures
        mirror_state((q, q), k) == (q, q),
    decreases k,
{
    lemma_float_half_zero();
    if k > 0 {
        lemma_mirror_rests(q, (k - 1) as nat);
        assert(div_toward_zero(q + q, 2) == q);
    }
}

/// When the forward and backward estimates are the same list, the mirrors already
/// agree: the fixed point, and both estimates, are the sum of the list divided by its
/// length (rounded toward zero), and the disagreement is zero.
pub proof fn lemma_fixed_point_of_equal_lists(s: Seq<i64>, max: nat)
    requires
        s.len() > 0,
    ensures
        ({
            let mean = quotient_toward_zero(s.fold_left(0int, |acc: int, x: i64| acc + x), s.len() as int);
            let m = fixed_point_of(s, s, max);
            &&& m.fixed_point_nanos == mean as u64
            &&& m.predictive_time_nanos == mean as u64
            &&& m.retrodictive_time_nanos == mean as u64
            &&& m.disagreement_nanos == 0
        }),
{
    lemma_sum_is_fold(s);
    let q = mean_i64(s);
    let n = bisections((q, q), max);
    lemma_mirror_rests(q, n);
    assert(div_toward_zero(q + q, 2) == q);
}

/// The estimates a boundary is solved from, for epochs of `dt` after the boundary
/// `prev`: node `i`'s backward estimate is `prev + dt + offsets[i]`, and its forward
/// estimate (for nodes with a drift) exceeds it by the drift over one epoch,
/// `drifts[i] * dt / 10^9` rounded toward zero; so a drift of a nanosecond or more per
/// epoch moves the forward estimate off the backward one, in the drift's direction.
/// `solve_boundary` returns the mirror of these two lists.
pub proof fn lemma_boundary_estimates(offsets: Seq<i64>, drifts: Seq<i64>, prev: u64, dt: i64)
    requires
        estimates_fit(offsets, drifts, prev, dt),
    ensures
        backward_estimates(offsets, prev, dt).len() == offsets.len(),
        forward_estimates(offsets, drifts, prev, dt).len() == (if offsets.len() <= drifts.len() {
            offsets.len()
        } else {
            drifts.len()
        }),
        forall|i: int|
            0 <= i < offsets.len() ==> #[trigger] backward_estimates(offsets, prev, dt)[i] == (prev as i64) as int
                + dt + offsets[i],
        forall|i: int|
            0 <= i < forward_estimates(offsets, drifts, prev, dt).len() ==> #[trigger] forward_estimates(
                offsets,
                drifts,
                prev,
                dt,
            )[i] - backward_estimates(offsets, prev, dt)[i] == quotient_toward_zero(
                drifts[i] * dt,
                1_000_000_000,
            ),
        forall|i: int|
            0 <= i < forward_estimates(offsets, drifts, prev, dt).len() && drifts[i] * dt >= 1_000_000_000
                ==> #[trigger] forward_estimates(offsets, drifts, prev, dt)[i] > backward_estimates(
                offsets,
                prev,
                dt,
            )[i],
        forall|i: int|
            0 <= i < forward_estimates(offsets, drifts, prev, dt).len() && drifts[i] * dt <= -1_000_000_000
                ==> #[trigger] forward_estimates(offsets, drifts, prev, dt)[i] < backward_estimates(
                offsets,
                prev,
                dt,
            )[i],
{
    let f = forward_estimates(offsets, drifts, prev, dt);
    let b = backward_estimates(offsets, prev, dt);
    assert forall|i: int| 0 <= i < offsets.len() implies #[trigger] b[i] == (prev as i64) as int + dt
        + offsets[i] by {
        assert(fits(retrodicted(prev, dt, offsets[i])));
    }
    assert forall|i: int| 0 <= i < f.len() implies #[trigger] f[i] - b[i] == quotient_toward_zero(
        drifts[i] * dt,
        1_000_000_000,
    ) by {
        assert(fits(retrodicted(prev, dt, offsets[i])));
        assert(fits(drifts[i] * dt) && fits(predicted(prev, dt, offsets[i], drifts[i])));
    }
    assert forall|i: int| 0 <= i < f.len() && drifts[i] * dt >= 1_000_000_000 implies #[trigger] f[i] > b[i] by {
        assert(f[i] - b[i] == quotient_toward_zero(drifts[i] * dt, 1_000_000_000));
        let p = drifts[i] * dt;
        assert(p / 1_000_000_000 >= 1) by (nonlinear_arith)
            requires
                p >= 1_000_000_000,
        ;
    }
    assert forall|i: int| 0 <= i < f.len() && drifts[i] * dt <= -1_000_000_000 implies #[trigger] f[i] < b[i] by {
        assert(f[i] - b[i] == quotient_toward_zero(drifts[i] * dt, 1_000_000_000));
        let p = -(drifts[i] * dt);
        assert(p / 1_000_000_000 >= 1) by (nonlinear_arith)
            requires
                p >= 1_000_000_000,
        ;
    }
}


proof fn lemma_mirror_swapped(a: int, b: int, k: nat)
    ensures
        mirror_state((b, a), k) == (mirror_state((a, b), k).1, mirror_state((a, b), k).0),
    decreases k,
{
    if k > 0 {
        lemma_mirror_swapped(a, b, (k - 1) as nat);
        let st = mirror_state((a, b), (k - 1) as nat);
        assert(st.1 + st.0 == st.0 + st.1);
    }
}

proof fn lemma_bisections_swapped(a: int, b: int, k: nat, max: nat)
    ensures
        bisections_from((b, a), k, max) == bisections_from((a, b), k, max),
    decreases max - k,
{
    if k < max {
        lemma_mirror_swapped(a, b, k + 1);
        lemma_bisections_swapped(a, b, k + 1, max);
    }
}

/// Swapping the forward and backward estimates swaps the predictive and retrodictive
/// results and changes nothing else: the fixed point, the disagreement and the number
/// of rounds are the same.
pub proof fn lemma_fixed_point_swap(forward: Seq<i64>, backward: Seq<i64>, max: nat)
    ensures
        ({
            let m = fixed_point_of(forward, backward, max);
            let w = fixed_point_of(backward, forward, max);
            &&& w.predictive_time_nanos == m.retrodictive_time_nanos
            &&& w.retrodictive_time_nanos == m.predictive_time_nanos
            &&& w.fixed_point_nanos == m.fixed_point_nanos
            &&& w.disagreement_nanos == m.disagreement_nanos
            &&& w.iterations_to_converge == m.iterations_to_converge
        }),
{
    let a = mean_i64(forward);
    let b = mean_i64(backward);
    lemma_bisections_swapped(a, b, 0, max);
    let n = bisections((a, b), max);
    lemma_mirror_swapped(a, b, n);
    let st = mirror_state((a, b), n);
    assert(st.1 + st.0 == st.0 + st.1);
}

} // verus!
