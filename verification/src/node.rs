use vstd::prelude::*;

use crate::holonomy::twist::{
    edge_key_spec, exchange_asymmetry, exchange_offset, exchange_rtt, history, TwistIndex, TwistLUT,
};
use crate::types::NodeId;
use crate::types::Epoch;

verus! {

/// Quality the daemon gives to a measurement from its own time exchange.
pub const EXCHANGE_QUALITY: u32 = 90;

/// Whether a time response answers the request still pending for its sender: the
/// pending request carries the same first timestamp and epoch.
pub fn response_matches(pending: Option<(u64, u64)>, t1_nanos: u64, epoch: Epoch) -> (ok: bool)
    ensures
        ok == (pending matches Some(p) && p.0 == t1_nanos && p.1 == epoch.0),
{
    match pending {
        Some((stored_t1, stored_epoch)) => stored_t1 == t1_nanos && stored_epoch == epoch.0,
        None => false,
    }
}

/// The measurement of a completed time exchange of `epoch`.
pub fn twist_from_response(t1_nanos: u64, t2_nanos: u64, t3_nanos: u64, t4_nanos: u64, epoch: Epoch) -> (t: TwistIndex)
    ensures
        t.rtt_nanos == exchange_rtt(t1_nanos, t2_nanos, t3_nanos, t4_nanos),
        t.offset_nanos == exchange_offset(t1_nanos, t2_nanos, t3_nanos, t4_nanos) as i64,
        t.asymmetry_nanos == exchange_asymmetry(t1_nanos, t2_nanos, t3_nanos, t4_nanos) as i64,
        t.quality == EXCHANGE_QUALITY,
        t.epoch_measured == epoch.0,
{
    let base = TwistIndex::from_exchange(t1_nanos, t2_nanos, t3_nanos, t4_nanos);
    TwistIndex {
        rtt_nanos: base.rtt_nanos,
        offset_nanos: base.offset_nanos,
        asymmetry_nanos: base.asymmetry_nanos,
        quality: EXCHANGE_QUALITY,
        epoch_measured: epoch.0,
    }
}

/// Record the answer to a matched time request: the measurement of the completed
/// exchange joins the history of the edge between this node and `sender`, and the four
/// timestamps join the epoch's raw exchanges.
pub fn record_response(
    lut: &mut TwistLUT,
    raw: &mut Vec<(NodeId, u64, u64, u64, u64)>,
    local: NodeId,
    sender: NodeId,
    t1_nanos: u64,
    t2_nanos: u64,
    t3_nanos: u64,
    t4_nanos: u64,
    epoch: Epoch,
)
    requires
        old(lut).wf(),
    ensures
        final(lut).wf(),
        ({
            let t = twist_from_spec(t1_nanos, t2_nanos, t3_nanos, t4_nanos, epoch);
            final(lut)@ == old(lut)@.insert(edge_key_spec(local, sender), history(old(lut)@, local, sender).push(t))
        }),
        final(raw)@ == old(raw)@.push((sender, t1_nanos, t2_nanos, t3_nanos, t4_nanos)),
{
    let twist = twist_from_response(t1_nanos, t2_nanos, t3_nanos, t4_nanos, epoch);
    lut.insert(local, sender, twist);
    raw.push((sender, t1_nanos, t2_nanos, t3_nanos, t4_nanos));
}

/// The measurement `twist_from_response` makes of an exchange.
pub open spec fn twist_from_spec(t1: u64, t2: u64, t3: u64, t4: u64, epoch: Epoch) -> TwistIndex {
    TwistIndex {
        rtt_nanos: exchange_rtt(t1, t2, t3, t4) as u64,
        offset_nanos: exchange_offset(t1, t2, t3, t4) as i64,
        asymmetry_nanos: exchange_asymmetry(t1, t2, t3, t4) as i64,
        quality: EXCHANGE_QUALITY,
        epoch_measured: epoch.0,
    }
}

/// Sum of the first `k` values.
pub open spec fn sum_u64(s: Seq<u64>, k: nat) -> int
    decreases k,
{
    if k == 0 {
        0
    } else {
        sum_u64(s, (k - 1) as nat) + s[k - 1]
    }
}

/// Round-trip summary of the latest measurements: smallest, largest, mean (rounded
/// down) and count; all zero without measurements.
pub fn rtt_summary(values: &[u64]) -> (r: (u64, u64, u64, usize))
    requires
        sum_u64(values@, values@.len()) <= u64::MAX,
    ensures
        values@.len() == 0 ==> r == (0u64, 0u64, 0u64, 0usize),
        values@.len() > 0 ==> {
            &&& values@.contains(r.0)
            &&& values@.contains(r.1)
            &&& forall|i: int| 0 <= i < values@.len() ==> r.0 <= #[trigger] values@[i] <= r.1
            &&& r.2 == sum_u64(values@, values@.len()) / (values@.len() as int)
            &&& r.3 == values@.len()
        },
{
    let n = values.len();
    if n == 0 {
        return (0, 0, 0, 0);
    }
    let mut min = values[0];
    let mut max = values[0];
    let mut total: u64 = 0;
    let mut i: usize = 0;
    proof {
        lemma_sum_u64_monotone(values@, values@.len());
    }
    while i < n
        invariant
            n == values@.len(),
            n > 0,
            0 <= i <= n,
            forall|k: nat| k <= n ==> #[trigger] sum_u64(values@, k) <= sum_u64(values@, n as nat),
            sum_u64(values@, n as nat) <= u64::MAX,
            total == sum_u64(values@, i as nat),
            values@.contains(min),
            values@.contains(max),
            forall|j: int| 0 <= j < i ==> min <= #[trigger] values@[j] <= max,
            min <= values@[0] <= max,
        decreases n - i,
    {
        let v = values[i];
        assert(sum_u64(values@, (i + 1) as nat) <= sum_u64(values@, n as nat));
        total = total + v;
        if v < min {
            min = v;
        }
        if v > max {
            max = v;
        }
        i = i + 1;
    }
    (min, max, total / (n as u64), n)
}

proof fn lemma_sum_u64_monotone(s: Seq<u64>, n: nat)
    ensures
        forall|k: nat| k <= n ==> #[trigger] sum_u64(s, k) <= sum_u64(s, n),
    decreases n,
{
    if n > 0 {
        lemma_sum_u64_monotone(s, (n - 1) as nat);
    }
}

/// Whether the round trips sum within 64 bits, as `rtt_summary` needs.
pub fn rtt_sum_fits(values: &[u64]) -> (ok: bool)
    ensures
        ok == (sum_u64(values@, values@.len()) <= u64::MAX),
{
    let mut total: u64 = 0;
    let mut i: usize = 0;
    proof {
        lemma_sum_u64_monotone(values@, values@.len());
    }
    while i < values.len()
        invariant
            0 <= i <= values@.len(),
            forall|k: nat| k <= values@.len() ==> #[trigger] sum_u64(values@, k) <= sum_u64(values@, values@.len()),
            total == sum_u64(values@, i as nat),
        decreases values@.len() - i,
    {
        if total > u64::MAX - values[i] {
            proof {
                assert(sum_u64(values@, (i + 1) as nat) > u64::MAX);
            }
            return false;
        }
        total = total + values[i];
        i = i + 1;
    }
    assert(values@.len() == i);
    true
}

/// What `rtt_mean_square_deviation` needs of its arguments: for more than one value,
/// every deviation from `mean` and its square fit in a signed 64-bit integer, and every
/// running sum of the squares fits in 64 bits.
pub open spec fn deviation_fits(values: Seq<u64>, mean: u64) -> bool {
    values.len() > 1 ==> {
        &&& forall|i: int| 0 <= i < values.len() ==> {
            let d = (#[trigger] values[i] as i64) - (mean as i64);
            i64::MIN <= d <= i64::MAX && d * d <= i64::MAX
        }
        &&& forall|k: nat| k <= values.len() ==> #[trigger] sum_sq_dev_u64(values, mean, k) <= u64::MAX
    }
}

proof fn lemma_sum_sq_dev_monotone(s: Seq<u64>, mean: u64, j: nat, k: nat)
    requires
        j <= k <= s.len(),
    ensures
        sum_sq_dev_u64(s, mean, j) <= sum_sq_dev_u64(s, mean, k),
    decreases k - j,
{
    if j < k {
        lemma_sum_sq_dev_monotone(s, mean, j, (k - 1) as nat);
        let d = (s[k - 1] as i64) - (mean as i64);
        assert(d * d >= 0) by (nonlinear_arith);
    }
}

/// Whether `rtt_mean_square_deviation` can be computed for these values and mean.
pub fn deviation_fits_exec(values: &[u64], mean: u64) -> (ok: bool)
    ensures
        ok == deviation_fits(values@, mean),
{
    if values.len() <= 1 {
        return true;
    }
    let mut total: u64 = 0;
    let mut i: usize = 0;
    while i < values.len()
        invariant
            values@.len() > 1,
            0 <= i <= values@.len(),
            forall|j: int| 0 <= j < i ==> {
                let d = (#[trigger] values@[j] as i64) - (mean as i64);
                i64::MIN <= d <= i64::MAX && d * d <= i64::MAX
            },
            forall|k: nat| k <= i ==> #[trigger] sum_sq_dev_u64(values@, mean, k) <= u64::MAX,
            total == sum_sq_dev_u64(values@, mean, i as nat),
        decreases values@.len() - i,
    {
        let v = values[i] as i64;
        let m = mean as i64;
        assert(v == values@[i as int] as i64);
        let d = match v.checked_sub(m) {
            Some(d) => d,
            None => {
                assert(!(i64::MIN <= (values@[i as int] as i64) - (mean as i64) <= i64::MAX));
                return false;
            },
        };
        assert(d * d >= 0) by (nonlinear_arith);
        let sq = match d.checked_mul(d) {
            Some(x) => x,
            None => {
                assert(!(((values@[i as int] as i64) - (mean as i64)) * ((values@[i as int] as i64) - (mean
                    as i64)) <= i64::MAX));
                return false;
            },
        };
        assert(sq >= 0) by (nonlinear_arith)
            requires
                sq == d * d,
        ;
        if total > u64::MAX - (sq as u64) {
            assert(sum_sq_dev_u64(values@, mean, (i + 1) as nat) > u64::MAX);
            return false;
        }
        total = total + sq as u64;
        i = i + 1;
        assert forall|k: nat| k <= i implies #[trigger] sum_sq_dev_u64(values@, mean, k) <= u64::MAX by {
            if k == i {
            } else {
                lemma_sum_sq_dev_monotone(values@, mean, k, i as nat);
            }
        }
    }
    true
}

/// Sum of the squared deviations of the first `k` values from `mean`.
pub open spec fn sum_sq_dev_u64(s: Seq<u64>, mean: u64, k: nat) -> int
    decreases k,
{
    if k == 0 {
        0
    } else {
        sum_sq_dev_u64(s, mean, (k - 1) as nat) + ((s[k - 1] as i64) - (mean as i64)) * ((s[k - 1] as i64) - (
        mean as i64))
    }
}

/// Mean squared deviation of the round trips from `mean` (rounded down), each value
/// and the mean read as signed 64-bit integers; zero for fewer than two values.
pub fn rtt_mean_square_deviation(values: &[u64], mean: u64) -> (v: u64)
    requires
        values@.len() > 1 ==> {
            &&& forall|i: int| 0 <= i < values@.len() ==> {
                let d = (#[trigger] values@[i] as i64) - (mean as i64);
                i64::MIN <= d <= i64::MAX && d * d <= i64::MAX
            }
            &&& forall|k: nat| k <= values@.len() ==> #[trigger] sum_sq_dev_u64(values@, mean, k) <= u64::MAX
        },
    ensures
        values@.len() <= 1 ==> v == 0,
        values@.len() > 1 ==> v == sum_sq_dev_u64(values@, mean, values@.len()) / (values@.len() as int),
{
    let n = values.len();
    if n <= 1 {
        return 0;
    }
    let mut total: u64 = 0;
    let mut i: usize = 0;
    while i < n
        invariant
            n == values@.len(),
            n > 1,
            0 <= i <= n,
            forall|i: int| 0 <= i < values@.len() ==> {
                let d = (#[trigger] values@[i] as i64) - (mean as i64);
                i64::MIN <= d <= i64::MAX && d * d <= i64::MAX
            },
            forall|k: nat| k <= values@.len() ==> #[trigger] sum_sq_dev_u64(values@, mean, k) <= u64::MAX,
            total == sum_sq_dev_u64(values@, mean, i as nat),
        decreases n - i,
    {
        let ghost vi = values@[i as int];
        assert(i64::MIN <= (vi as i64) - (mean as i64) <= i64::MAX);
        let d = values[i] as i64 - mean as i64;
        assert(d * d <= i64::MAX);
        assert(d * d >= 0) by (nonlinear_arith);
        assert(sum_sq_dev_u64(values@, mean, (i + 1) as nat) <= u64::MAX);
        total = total + (d * d) as u64;
        i = i + 1;
    }
    total / (n as u64)
}

/// Lengths of one epoch and of its measure and publish phases, in nanoseconds: two
/// thirds of the epoch for measuring, a sixth for publishing.
pub fn epoch_phase_nanos(epoch_secs: u64) -> (r: (u64, u64, u64))
    requires
        epoch_secs * 1_000_000_000 * 2 <= u64::MAX,
    ensures
        r.0 == epoch_secs * 1_000_000_000,
        r.1 == r.0 * 2 / 3,
        r.2 == r.0 / 6,
{
    let epoch_nanos = epoch_secs * 1_000_000_000;
    (epoch_nanos, epoch_nanos * 2 / 3, epoch_nanos / 6)
}

} // verus!
