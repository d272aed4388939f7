use vstd::prelude::*;

use crate::assoc::{
    has_key, key_index, keys_distinct, lemma_map_of_at, lemma_map_of_len, lemma_map_of_push,
    lemma_map_of_update, map_of,
};
use crate::bytes::{bytes32_lt, lemma_lex_lt_asymmetric, lemma_lex_lt_irreflexive, lemma_lex_lt_total, lex_lt};
use crate::holonomy::chiral::div_toward_zero;
use crate::types::{NodeId, RelationalLatencyProfile};

verus! {

/// One measurement between two nodes, in integer nanoseconds; stored at the edge that
/// connects them.
#[derive(Debug, Clone, Copy)]
pub struct TwistIndex {
    pub rtt_nanos: u64,
    pub offset_nanos: i64,
    pub asymmetry_nanos: i64,
    pub quality: u32,
    pub epoch_measured: u64,
}

/// Modulus of 64-bit wrapping arithmetic.
pub open spec fn two_pow_64() -> int {
    0x1_0000_0000_0000_0000
}

/// Round trip of an exchange sent at `t1`, received at `t2`, answered at `t3` and the
/// answer received at `t4`: the whole span less the time spent at the peer, modulo 2^64.
pub open spec fn exchange_rtt(t1: u64, t2: u64, t3: u64, t4: u64) -> int {
    ((t4 - t1) - (t3 - t2)) % two_pow_64()
}

/// Clock offset of the peer: the mean of the two one-way differences, rounded toward zero.
pub open spec fn exchange_offset(t1: u64, t2: u64, t3: u64, t4: u64) -> int {
    div_toward_zero((t2 - t1) + (t3 - t4), 2)
}

/// Difference between the forward and the backward one-way times.
pub open spec fn exchange_asymmetry(t1: u64, t2: u64, t3: u64, t4: u64) -> int {
    (t2 - t1) - (t4 - t3)
}

impl TwistIndex {
    /// The measurement of one four-timestamp exchange, with quality 100 and epoch 0.
    /// Offset and asymmetry are truncated to 64 bits.
    pub fn from_exchange(t1_nanos: u64, t2_nanos: u64, t3_nanos: u64, t4_nanos: u64) -> (t: Self)
        ensures
            t.rtt_nanos == exchange_rtt(t1_nanos, t2_nanos, t3_nanos, t4_nanos),
            t.offset_nanos == exchange_offset(t1_nanos, t2_nanos, t3_nanos, t4_nanos) as i64,
            t.asymmetry_nanos == exchange_asymmetry(t1_nanos, t2_nanos, t3_nanos, t4_nanos) as i64,
            t.quality == 100,
            t.epoch_measured == 0,
    {
        let span = t4_nanos.wrapping_sub(t1_nanos);
        let held = t3_nanos.wrapping_sub(t2_nanos);
        let rtt = span.wrapping_sub(held);
        proof {
            lemma_wrapping_rtt(t1_nanos, t2_nanos, t3_nanos, t4_nanos);
        }
        let offset = ((t2_nanos as i128 - t1_nanos as i128) + (t3_nanos as i128 - t4_nanos as i128)) / 2;
        let forward = t2_nanos as i128 - t1_nanos as i128;
        let backward = t4_nanos as i128 - t3_nanos as i128;
        let asymmetry = forward - backward;
        TwistIndex {
            rtt_nanos: rtt,
            offset_nanos: offset as i64,
            asymmetry_nanos: asymmetry as i64,
            quality: 100,
            epoch_measured: 0,
        }
    }
}

proof fn lemma_wrapping_rtt(t1: u64, t2: u64, t3: u64, t4: u64)
    ensures
        vstd::wrapping::u64_specs::wrapping_sub(
            vstd::wrapping::u64_specs::wrapping_sub(t4, t1),
            vstd::wrapping::u64_specs::wrapping_sub(t3, t2),
        ) == exchange_rtt(t1, t2, t3, t4),
{
    let m = two_pow_64();
    let span = vstd::wrapping::u64_specs::wrapping_sub(t4, t1);
    let held = vstd::wrapping::u64_specs::wrapping_sub(t3, t2);
    assert(span == (t4 - t1) % m);
    assert(held == (t3 - t2) % m);
    let r = vstd::wrapping::u64_specs::wrapping_sub(span, held);
    assert(r == (span - held) % m);
    vstd::arithmetic::div_mod::lemma_sub_mod_noop(t4 - t1, t3 - t2, m);
    vstd::arithmetic::div_mod::lemma_mod_sub_multiples_vanish(0, m);
    assert(((t4 - t1) % m - (t3 - t2) % m) % m == ((t4 - t1) - (t3 - t2)) % m);
}

/// The key of the edge between `a` and `b`: the smaller identity first.
pub open spec fn edge_key_spec(a: NodeId, b: NodeId) -> (NodeId, NodeId) {
    if lex_lt(a.0@, b.0@) {
        (a, b)
    } else {
        (b, a)
    }
}

/// The measurements recorded for the edge between `a` and `b`, oldest first.
pub open spec fn history(m: Map<(NodeId, NodeId), Seq<TwistIndex>>, a: NodeId, b: NodeId) -> Seq<TwistIndex> {
    let k = edge_key_spec(a, b);
    if m.dom().contains(k) {
        m[k]
    } else {
        Seq::empty()
    }
}

/// Whether some measurement between `a` and `b` was recorded.
pub open spec fn has_edge(m: Map<(NodeId, NodeId), Seq<TwistIndex>>, a: NodeId, b: NodeId) -> bool {
    history(m, a, b).len() > 0
}

/// Signed offset contributed by traversing the edge from `a` to `b`: the latest offset,
/// negated when the edge is walked against its stored direction.
pub open spec fn step_offset(m: Map<(NodeId, NodeId), Seq<TwistIndex>>, a: NodeId, b: NodeId) -> int {
    let t = history(m, a, b).last();
    if edge_key_spec(a, b).0 == a {
        t.offset_nanos as int
    } else {
        -(t.offset_nanos as int)
    }
}

/// Successor of position `i` around the loop.
pub open spec fn next_on_loop(path: Seq<NodeId>, i: int) -> NodeId {
    path[(i + 1) % (path.len() as int)]
}

/// Sum of the signed offsets of the first `k` edges of the loop.
pub open spec fn loop_sum(m: Map<(NodeId, NodeId), Seq<TwistIndex>>, path: Seq<NodeId>, k: nat) -> int
    decreases k,
{
    if k == 0 {
        0
    } else {
        loop_sum(m, path, (k - 1) as nat) + step_offset(m, path[k - 1], next_on_loop(path, k - 1))
    }
}

/// The first `k` edges of the loop all have measurements.
pub open spec fn loop_measured(m: Map<(NodeId, NodeId), Seq<TwistIndex>>, path: Seq<NodeId>, k: nat) -> bool {
    forall|i: int| 0 <= i < k ==> #[trigger] has_edge(m, path[i], next_on_loop(path, i))
}

/// Holonomy of a loop: `None` for fewer than three nodes or when an edge has no
/// measurement, else the sum of the signed offsets around the loop.
pub open spec fn holonomy_of(m: Map<(NodeId, NodeId), Seq<TwistIndex>>, path: Seq<NodeId>) -> Option<int> {
    if path.len() < 3 || !loop_measured(m, path, path.len()) {
        None
    } else {
        Some(loop_sum(m, path, path.len()))
    }
}

/// The running sums of a loop stay within 64 bits as long as the edges are measured.
pub open spec fn loop_sums_fit(m: Map<(NodeId, NodeId), Seq<TwistIndex>>, path: Seq<NodeId>) -> bool {
    forall|k: nat|
        k <= path.len() && loop_measured(m, path, k) ==> i64::MIN <= #[trigger] loop_sum(m, path, k)
            <= i64::MAX
}

/// `x` is a neighbor of `node`: a measurement between them was recorded.
pub open spec fn is_neighbor(m: Map<(NodeId, NodeId), Seq<TwistIndex>>, node: NodeId, x: NodeId) -> bool {
    m.dom().contains(edge_key_spec(node, x))
}

/// The edge key does not depend on the order of the two nodes.
pub proof fn lemma_edge_key_symmetric(a: NodeId, b: NodeId)
    ensures
        edge_key_spec(a, b) == edge_key_spec(b, a),
{
    if a != b {
        if a.0@ == b.0@ {
            assert(a.0 =~= b.0);
        }
        lemma_lex_lt_total(a.0@, b.0@);
        if lex_lt(a.0@, b.0@) {
            lemma_lex_lt_asymmetric(a.0@, b.0@);
        }
    }
}

/// The loop `path` walked from its second node, the first node coming last.
pub open spec fn rotate_loop(path: Seq<NodeId>) -> Seq<NodeId> {
    path.skip(1).push(path[0])
}

proof fn lemma_next_index(n: int, i: int)
    requires
        0 <= i < n,
    ensures
        (i + 1) % n == (if i + 1 < n {
            i + 1
        } else {
            0
        }),
{
    if i + 1 < n {
        vstd::arithmetic::div_mod::lemma_small_mod((i + 1) as nat, n as nat);
    } else {
        vstd::arithmetic::div_mod::lemma_mod_self_0(n);
    }
}

/// Edge `i` of the rotated loop is edge `i + 1` of the loop.
proof fn lemma_rotate_edge(path: Seq<NodeId>, i: int)
    requires
        path.len() >= 1,
        0 <= i < path.len(),
    ensures
        rotate_loop(path).len() == path.len(),
        rotate_loop(path)[i] == path[(i + 1) % (path.len() as int)],
        next_on_loop(rotate_loop(path), i) == next_on_loop(path, (i + 1) % (path.len() as int)),
{
    let n = path.len() as int;
    let q = rotate_loop(path);
    lemma_next_index(n, i);
    let j = (i + 1) % n;
    lemma_next_index(n, j);
    if i + 1 < n {
        lemma_next_index(n, i + 1);
    }
}

proof fn lemma_rotate_sum(m: Map<(NodeId, NodeId), Seq<TwistIndex>>, path: Seq<NodeId>, k: nat)
    requires
        path.len() >= 1,
        k < path.len(),
    ensures
        loop_sum(m, rotate_loop(path), k) == loop_sum(m, path, k + 1) - step_offset(m, path[0], next_on_loop(path, 0)),
    decreases k,
{
    let q = rotate_loop(path);
    let n = path.len() as int;
    if k == 0 {
        assert(loop_sum(m, path, 1) == loop_sum(m, path, 0) + step_offset(m, path[0], next_on_loop(path, 0)));
    } else {
        lemma_rotate_sum(m, path, (k - 1) as nat);
        lemma_rotate_edge(path, k - 1);
        lemma_next_index(n, k - 1);
        assert((k - 1 + 1) % n == k);
        assert(q[k - 1] == path[k as int]);
        assert(next_on_loop(q, k - 1) == next_on_loop(path, k as int));
        assert(loop_sum(m, q, k) == loop_sum(m, q, (k - 1) as nat) + step_offset(m, q[k - 1], next_on_loop(q, k - 1)));
        assert(loop_sum(m, path, k + 1) == loop_sum(m, path, k) + step_offset(m, path[k as int], next_on_loop(path, k as int)));
    }
}

/// Holonomy does not depend on where the loop starts.
pub proof fn lemma_holonomy_rotation_invariant(m: Map<(NodeId, NodeId), Seq<TwistIndex>>, path: Seq<NodeId>)
    requires
        path.len() >= 1,
    ensures
        holonomy_of(m, rotate_loop(path)) == holonomy_of(m, path),
{
    let n = path.len() as int;
    let q = rotate_loop(path);
    assert(q.len() == n);
    assert forall|i: int| 0 <= i < n implies (#[trigger] has_edge(m, q[i], next_on_loop(q, i))
        <==> has_edge(m, path[(i + 1) % n], next_on_loop(path, (i + 1) % n))) by {
        lemma_rotate_edge(path, i);
    }
    assert(loop_measured(m, q, n as nat) <==> loop_measured(m, path, n as nat)) by {
        if loop_measured(m, path, n as nat) {
            assert forall|i: int| 0 <= i < n implies #[trigger] has_edge(m, q[i], next_on_loop(q, i)) by {
                lemma_rotate_edge(path, i);
                lemma_next_index(n, i);
                let j = (i + 1) % n;
                assert(has_edge(m, path[j], next_on_loop(path, j)));
            }
        }
        if loop_measured(m, q, n as nat) {
            assert forall|j: int| 0 <= j < n implies #[trigger] has_edge(m, path[j], next_on_loop(path, j)) by {
                let i = if j == 0 {
                    n - 1
                } else {
                    j - 1
                };
                lemma_next_index(n, i);
                lemma_rotate_edge(path, i);
                assert(has_edge(m, q[i], next_on_loop(q, i)));
            }
        }
    }
    if n >= 1 {
        lemma_rotate_sum(m, path, (n - 1) as nat);
        lemma_rotate_edge(path, n - 1);
        lemma_next_index(n, n - 1);
        assert(loop_sum(m, q, n as nat) == loop_sum(m, q, (n - 1) as nat) + step_offset(
            m,
            q[n - 1],
            next_on_loop(q, n - 1),
        ));
    }
}

/// No node of the loop is followed by itself.
pub open spec fn no_self_steps(path: Seq<NodeId>) -> bool {
    forall|i: int| 0 <= i < path.len() ==> #[trigger] path[i] != next_on_loop(path, i)
}

/// Walking an edge backward contributes the opposite offset.
proof fn lemma_step_antisymmetric(m: Map<(NodeId, NodeId), Seq<TwistIndex>>, a: NodeId, b: NodeId)
    requires
        a != b,
    ensures
        step_offset(m, b, a) == -step_offset(m, a, b),
        history(m, b, a) == history(m, a, b),
{
    lemma_edge_key_symmetric(a, b);
}

/// Edge `i` of the reversed loop is an edge of the loop walked backward.
proof fn lemma_reverse_edge(path: Seq<NodeId>, i: int)
    requires
        path.len() >= 2,
        0 <= i < path.len(),
    ensures
        i < path.len() - 1 ==> path.reverse()[i] == next_on_loop(path, path.len() - 2 - i)
            && next_on_loop(path.reverse(), i) == path[path.len() - 2 - i],
        i == path.len() - 1 ==> path.reverse()[i] == next_on_loop(path, path.len() - 1)
            && next_on_loop(path.reverse(), i) == path[path.len() - 1],
{
    let n = path.len() as int;
    lemma_next_index(n, i);
    if i < n - 1 {
        lemma_next_index(n, n - 2 - i);
    } else {
        lemma_next_index(n, n - 1);
    }
}

proof fn lemma_reverse_sum(m: Map<(NodeId, NodeId), Seq<TwistIndex>>, path: Seq<NodeId>, k: nat)
    requires
        path.len() >= 2,
        k <= path.len() - 1,
        no_self_steps(path),
    ensures
        loop_sum(m, path.reverse(), k) == -(loop_sum(m, path, (path.len() - 1) as nat) - loop_sum(
            m,
            path,
            (path.len() - 1 - k) as nat,
        )),
    decreases k,
{
    let n = path.len() as int;
    if k > 0 {
        lemma_reverse_sum(m, path, (k - 1) as nat);
        lemma_reverse_edge(path, k - 1);
        let j = n - 1 - k;
        assert(path[j] != next_on_loop(path, j));
        lemma_step_antisymmetric(m, path[j], next_on_loop(path, j));
        assert(loop_sum(m, path, (j + 1) as nat) == loop_sum(m, path, j as nat) + step_offset(
            m,
            path[j],
            next_on_loop(path, j),
        ));
    }
}

/// The loop started `k` steps later: `path[k..] + path[..k]`.
pub open spec fn rotate_by(path: Seq<NodeId>, k: int) -> Seq<NodeId> {
    path.skip(k) + path.take(k)
}

/// Holonomy does not depend on where the loop starts, for any rotation.
pub proof fn lemma_holonomy_any_rotation(m: Map<(NodeId, NodeId), Seq<TwistIndex>>, path: Seq<NodeId>, k: int)
    requires
        0 <= k <= path.len(),
    ensures
        holonomy_of(m, rotate_by(path, k)) == holonomy_of(m, path),
    decreases k,
{
    if k == 0 {
        assert(rotate_by(path, 0) =~= path);
    } else {
        lemma_holonomy_any_rotation(m, path, k - 1);
        let q = rotate_by(path, k - 1);
        assert(q.len() == path.len());
        assert(rotate_loop(q) =~= rotate_by(path, k));
        lemma_holonomy_rotation_invariant(m, q);
    }
}

/// Walking a loop backward negates its holonomy, when no node is followed by itself
/// (an edge from a node to itself counts the same both ways).
pub proof fn lemma_holonomy_reversal(m: Map<(NodeId, NodeId), Seq<TwistIndex>>, path: Seq<NodeId>)
    requires
        no_self_steps(path),
    ensures
        match holonomy_of(m, path) {
            Some(h) => holonomy_of(m, path.reverse()) == Some(-h),
            None => holonomy_of(m, path.reverse()) is None,
        },
{
    let n = path.len() as int;
    let r = path.reverse();
    if n >= 3 {
        assert forall|i: int| 0 <= i < n implies (#[trigger] has_edge(m, r[i], next_on_loop(r, i))
            <==> has_edge(m, path[if i < n - 1 { n - 2 - i } else { n - 1 }], next_on_loop(
            path,
            if i < n - 1 {
                n - 2 - i
            } else {
                n - 1
            },
        ))) by {
            lemma_reverse_edge(path, i);
            let j = if i < n - 1 {
                n - 2 - i
            } else {
                n - 1
            };
            assert(path[j] != next_on_loop(path, j));
            lemma_step_antisymmetric(m, path[j], next_on_loop(path, j));
        }
        if loop_measured(m, path, n as nat) {
            assert forall|i: int| 0 <= i < n implies #[trigger] has_edge(m, r[i], next_on_loop(r, i)) by {
                let j = if i < n - 1 {
                    n - 2 - i
                } else {
                    n - 1
                };
                assert(has_edge(m, path[j], next_on_loop(path, j)));
            }
        }
        if loop_measured(m, r, n as nat) {
            assert forall|j: int| 0 <= j < n implies #[trigger] has_edge(m, path[j], next_on_loop(path, j)) by {
                let i = if j < n - 1 {
                    n - 2 - j
                } else {
                    n - 1
                };
                assert(has_edge(m, r[i], next_on_loop(r, i)));
            }
        }
        lemma_reverse_sum(m, path, (n - 1) as nat);
        lemma_reverse_edge(path, n - 1);
        assert(path[n - 1] != next_on_loop(path, n - 1));
        lemma_step_antisymmetric(m, path[n - 1], next_on_loop(path, n - 1));
        assert(loop_sum(m, r, n as nat) == loop_sum(m, r, (n - 1) as nat) + step_offset(
            m,
            r[n - 1],
            next_on_loop(r, n - 1),
        ));
        assert(loop_sum(m, path, 0) == 0);
    }
}

/// Whether `x` fits in a signed 64-bit integer.
pub open spec fn fits_i64(x: int) -> bool {
    i64::MIN <= x <= i64::MAX
}

/// A round trip as a profile reads it: its 64 bits taken as a signed integer.
pub open spec fn rtt_of(t: TwistIndex) -> int {
    (t.rtt_nanos as i64) as int
}

/// The epoch of a measurement, its 64 bits taken as a signed integer.
pub open spec fn epoch_of(t: TwistIndex) -> int {
    (t.epoch_measured as i64) as int
}

/// Sum of the round trips of the first `k` measurements.
pub open spec fn sum_rtt(s: Seq<TwistIndex>, k: nat) -> int
    decreases k,
{
    if k == 0 {
        0
    } else {
        sum_rtt(s, (k - 1) as nat) + rtt_of(s[k - 1])
    }
}

/// Sum of the squared deviations from `mean` of the first `k` round trips.
pub open spec fn sum_sq_dev(s: Seq<TwistIndex>, mean: int, k: nat) -> int
    decreases k,
{
    if k == 0 {
        0
    } else {
        sum_sq_dev(s, mean, (k - 1) as nat) + (rtt_of(s[k - 1]) - mean) * (rtt_of(s[k - 1]) - mean)
    }
}

/// Sum of the epochs of the first `k` measurements.
pub open spec fn sum_epoch(s: Seq<TwistIndex>, k: nat) -> int
    decreases k,
{
    if k == 0 {
        0
    } else {
        sum_epoch(s, (k - 1) as nat) + epoch_of(s[k - 1])
    }
}

/// Sum of epoch times round trip over the first `k` measurements.
pub open spec fn sum_epoch_rtt(s: Seq<TwistIndex>, k: nat) -> int
    decreases k,
{
    if k == 0 {
        0
    } else {
        sum_epoch_rtt(s, (k - 1) as nat) + epoch_of(s[k - 1]) * rtt_of(s[k - 1])
    }
}

/// Sum of the squared epochs of the first `k` measurements.
pub open spec fn sum_epoch_sq(s: Seq<TwistIndex>, k: nat) -> int
    decreases k,
{
    if k == 0 {
        0
    } else {
        sum_epoch_sq(s, (k - 1) as nat) + epoch_of(s[k - 1]) * epoch_of(s[k - 1])
    }
}

/// Mean round trip, rounded toward zero.
pub open spec fn mean_rtt(s: Seq<TwistIndex>) -> int {
    div_toward_zero(sum_rtt(s, s.len()), s.len() as int)
}

/// Mean squared deviation from the mean, rounded toward zero.
pub open spec fn variance_rtt(s: Seq<TwistIndex>) -> int {
    div_toward_zero(sum_sq_dev(s, mean_rtt(s), s.len()), s.len() as int)
}

/// The round trips as signed integers, in order.
pub open spec fn rtt_values(s: Seq<TwistIndex>) -> Seq<i64> {
    s.map_values(|t: TwistIndex| t.rtt_nanos as i64)
}

/// Ascending order of signed integers.
pub open spec fn le_i64(x: i64, y: i64) -> bool {
    x <= y
}

/// The round trips in ascending order.
pub open spec fn sorted_rtts(s: Seq<TwistIndex>) -> Seq<i64> {
    rtt_values(s).sort_by(|x: i64, y: i64| le_i64(x, y))
}

/// Denominator of the least-squares slope of round trip over epoch.
pub open spec fn trend_denominator(s: Seq<TwistIndex>) -> int {
    s.len() * sum_epoch_sq(s, s.len()) - sum_epoch(s, s.len()) * sum_epoch(s, s.len())
}

/// Numerator of the least-squares slope of round trip over epoch.
pub open spec fn trend_numerator(s: Seq<TwistIndex>) -> int {
    s.len() * sum_epoch_rtt(s, s.len()) - sum_epoch(s, s.len()) * sum_rtt(s, s.len())
}

/// Least-squares slope of round trip over epoch, rounded toward zero; zero for fewer
/// than two measurements or when all epochs are equal.
pub open spec fn trend_of(s: Seq<TwistIndex>) -> int {
    if s.len() >= 2 && trend_denominator(s) != 0 {
        div_toward_zero(trend_numerator(s), trend_denominator(s))
    } else {
        0
    }
}

/// The latency profile of a non-empty measurement history.
pub open spec fn profile_of(s: Seq<TwistIndex>) -> RelationalLatencyProfile {
    let n = s.len();
    RelationalLatencyProfile {
        mean_nanos: mean_rtt(s) as i64,
        variance_nanos: variance_rtt(s) as i64,
        p10_nanos: sorted_rtts(s)[(n / 10) as int],
        p50_nanos: sorted_rtts(s)[(n / 2) as int],
        p90_nanos: sorted_rtts(s)[(n * 9 / 10) as int],
        trend_nanos_per_epoch: trend_of(s) as i64,
        sample_count: n as u32,
        epoch_first: s[0].epoch_measured,
        epoch_last: s[n - 1].epoch_measured,
    }
}

/// Every intermediate value of the profile of `s` fits in 64 bits, and no division
/// overflows.
pub open spec fn profile_fits(s: Seq<TwistIndex>) -> bool {
    let n = s.len();
    let mean = mean_rtt(s);
    n >= 1 ==> {
        &&& n <= i64::MAX
        &&& n * 9 <= usize::MAX
        &&& forall|k: nat| k <= n ==> fits_i64(#[trigger] sum_rtt(s, k))
        &&& forall|i: int| 0 <= i < n ==> fits_i64(rtt_of(#[trigger] s[i]) - mean) && fits_i64(
            (rtt_of(s[i]) - mean) * (rtt_of(s[i]) - mean),
        )
        &&& forall|k: nat| k <= n ==> fits_i64(#[trigger] sum_sq_dev(s, mean, k))
        &&& n >= 2 ==> {
            &&& forall|k: nat| k <= n ==> fits_i64(#[trigger] sum_epoch(s, k))
            &&& forall|k: nat| k <= n ==> fits_i64(#[trigger] sum_epoch_rtt(s, k))
            &&& forall|k: nat| k <= n ==> fits_i64(#[trigger] sum_epoch_sq(s, k))
            &&& forall|i: int| 0 <= i < n ==> fits_i64(epoch_of(#[trigger] s[i]) * rtt_of(s[i]))
                && fits_i64(epoch_of(s[i]) * epoch_of(s[i]))
            &&& fits_i64(n * sum_epoch_sq(s, n))
            &&& fits_i64(sum_epoch(s, n) * sum_epoch(s, n))
            &&& fits_i64(trend_denominator(s))
            &&& fits_i64(n * sum_epoch_rtt(s, n))
            &&& fits_i64(sum_epoch(s, n) * sum_rtt(s, n))
            &&& fits_i64(trend_numerator(s))
            &&& !(trend_numerator(s) == i64::MIN && trend_denominator(s) == -1)
        }
    }
}

fn sum_rtts(s: &[TwistIndex]) -> (r: i64)
    requires
        forall|k: nat| k <= s@.len() ==> fits_i64(#[trigger] sum_rtt(s@, k)),
    ensures
        r == sum_rtt(s@, s@.len()),
{
    let mut total: i64 = 0;
    let mut i: usize = 0;
    while i < s.len()
        invariant
            forall|k: nat| k <= s@.len() ==> fits_i64(#[trigger] sum_rtt(s@, k)),
            0 <= i <= s@.len(),
            total == sum_rtt(s@, i as nat),
        decreases s@.len() - i,
    {
        assert(fits_i64(sum_rtt(s@, (i + 1) as nat)));
        total = total + s[i].rtt_nanos as i64;
        i = i + 1;
    }
    total
}

fn sum_sq_devs(s: &[TwistIndex], mean: i64) -> (r: i64)
    requires
        forall|i: int| 0 <= i < s@.len() ==> fits_i64(rtt_of(#[trigger] s@[i]) - mean) && fits_i64(
            (rtt_of(s@[i]) - mean) * (rtt_of(s@[i]) - mean),
        ),
        forall|k: nat| k <= s@.len() ==> fits_i64(#[trigger] sum_sq_dev(s@, mean as int, k)),
    ensures
        r == sum_sq_dev(s@, mean as int, s@.len()),
{
    let mut total: i64 = 0;
    let mut i: usize = 0;
    while i < s.len()
        invariant
            forall|i: int| 0 <= i < s@.len() ==> fits_i64(rtt_of(#[trigger] s@[i]) - mean) && fits_i64(
                (rtt_of(s@[i]) - mean) * (rtt_of(s@[i]) - mean),
            ),
            forall|k: nat| k <= s@.len() ==> fits_i64(#[trigger] sum_sq_dev(s@, mean as int, k)),
            0 <= i <= s@.len(),
            total == sum_sq_dev(s@, mean as int, i as nat),
        decreases s@.len() - i,
    {
        assert(fits_i64(sum_sq_dev(s@, mean as int, (i + 1) as nat)));
        assert(fits_i64(rtt_of(s@[i as int]) - mean));
        let d = s[i].rtt_nanos as i64 - mean;
        total = total + d * d;
        i = i + 1;
    }
    total
}

/// Sums of epoch, epoch times round trip and squared epoch.
fn sum_epochs(s: &[TwistIndex]) -> (r: (i64, i64, i64))
    requires
        forall|k: nat| k <= s@.len() ==> fits_i64(#[trigger] sum_epoch(s@, k)),
        forall|k: nat| k <= s@.len() ==> fits_i64(#[trigger] sum_epoch_rtt(s@, k)),
        forall|k: nat| k <= s@.len() ==> fits_i64(#[trigger] sum_epoch_sq(s@, k)),
        forall|i: int| 0 <= i < s@.len() ==> fits_i64(epoch_of(#[trigger] s@[i]) * rtt_of(s@[i]))
            && fits_i64(epoch_of(s@[i]) * epoch_of(s@[i])),
    ensures
        r.0 == sum_epoch(s@, s@.len()),
        r.1 == sum_epoch_rtt(s@, s@.len()),
        r.2 == sum_epoch_sq(s@, s@.len()),
{
    let mut sx: i64 = 0;
    let mut sxy: i64 = 0;
    let mut sxx: i64 = 0;
    let mut i: usize = 0;
    while i < s.len()
        invariant
            forall|k: nat| k <= s@.len() ==> fits_i64(#[trigger] sum_epoch(s@, k)),
            forall|k: nat| k <= s@.len() ==> fits_i64(#[trigger] sum_epoch_rtt(s@, k)),
            forall|k: nat| k <= s@.len() ==> fits_i64(#[trigger] sum_epoch_sq(s@, k)),
            forall|i: int| 0 <= i < s@.len() ==> fits_i64(epoch_of(#[trigger] s@[i]) * rtt_of(s@[i]))
                && fits_i64(epoch_of(s@[i]) * epoch_of(s@[i])),
            0 <= i <= s@.len(),
            sx == sum_epoch(s@, i as nat),
            sxy == sum_epoch_rtt(s@, i as nat),
            sxx == sum_epoch_sq(s@, i as nat),
        decreases s@.len() - i,
    {
        assert(fits_i64(sum_epoch(s@, (i + 1) as nat)));
        assert(fits_i64(sum_epoch_rtt(s@, (i + 1) as nat)));
        assert(fits_i64(sum_epoch_sq(s@, (i + 1) as nat)));
        assert(fits_i64(epoch_of(s@[i as int]) * rtt_of(s@[i as int])));
        let e = s[i].epoch_measured as i64;
        let y = s[i].rtt_nanos as i64;
        sx = sx + e;
        sxy = sxy + e * y;
        sxx = sxx + e * e;
        i = i + 1;
    }
    (sx, sxy, sxx)
}

proof fn lemma_le_i64_total()
    ensures
        vstd::relations::total_ordering(|x: i64, y: i64| le_i64(x, y)),
{
}

/// The round trips of `s` in ascending order.
fn sort_rtts(s: &[TwistIndex]) -> (r: Vec<i64>)
    ensures
        r@ == sorted_rtts(s@),
        r@.len() == s@.len(),
{
    let ghost vals = rtt_values(s@);
    let ghost leq = |x: i64, y: i64| le_i64(x, y);
    let mut v: Vec<i64> = Vec::new();
    let mut i: usize = 0;
    broadcast use vstd::seq_lib::group_to_multiset_ensures;
    assert(vals.take(0) =~= Seq::<i64>::empty());
    while i < s.len()
        invariant
            vals == rtt_values(s@),
            leq == (|x: i64, y: i64| le_i64(x, y)),
            0 <= i <= s@.len(),
            vstd::relations::sorted_by(v@, leq),
            v@.to_multiset() == vals.take(i as int).to_multiset(),
        decreases s@.len() - i,
    {
        let x = s[i].rtt_nanos as i64;
        let mut pos: usize = 0;
        while pos < v.len()
            invariant
                0 <= pos <= v@.len(),
                forall|j: int| 0 <= j < pos ==> v@[j] <= x,
            ensures
                0 <= pos <= v@.len(),
                forall|j: int| 0 <= j < pos ==> v@[j] <= x,
                pos < v@.len() ==> x < v@[pos as int],
            decreases v@.len() - pos,
        {
            if x < v[pos] {
                break;
            }
            pos = pos + 1;
        }
        let ghost before = v@;
        proof {
            before.insert_ensures(pos as int, x);
            vstd::seq_lib::to_multiset_insert(before, pos as int, x);
            assert(vals[i as int] == x);
            assert(vals.take(i + 1) =~= vals.take(i as int).push(x));
            vstd::seq_lib::to_multiset_build(vals.take(i as int), x);
        }
        v.insert(pos, x);
        proof {
            let u = v@;
            assert forall|a: int, b: int| 0 <= a < b < u.len() implies #[trigger] leq(u[a], u[b]) by {
                if b < pos {
                    assert(u[a] == before[a] && u[b] == before[b]);
                    assert(leq(before[a], before[b]));
                } else if b == pos {
                    assert(u[a] == before[a]);
                } else if a < pos {
                    assert(u[a] == before[a] && u[b] == before[b - 1]);
                    assert(leq(before[a], before[b - 1]));
                } else if a == pos {
                    assert(u[b] == before[b - 1]);
                    if b - 1 > pos {
                        assert(leq(before[pos as int], before[b - 1]));
                    }
                } else {
                    assert(u[a] == before[a - 1] && u[b] == before[b - 1]);
                    assert(leq(before[a - 1], before[b - 1]));
                }
            }
        }
        i = i + 1;
    }
    proof {
        assert(vals.take(s@.len() as int) =~= vals);
        lemma_le_i64_total();
        vals.lemma_sort_by_ensures(leq);
        vstd::seq_lib::lemma_sorted_unique(v@, vals.sort_by(leq), leq);
        assert(v@.len() == v@.to_multiset().len());
        assert(vals.len() == vals.to_multiset().len());
    }
    v
}

/// The percentiles of a profile are in order: p10 <= p50 <= p90.
pub proof fn lemma_percentiles_ordered(s: Seq<TwistIndex>)
    requires
        s.len() >= 1,
    ensures
        profile_of(s).p10_nanos <= profile_of(s).p50_nanos <= profile_of(s).p90_nanos,
{
    let n = s.len();
    let leq = |x: i64, y: i64| le_i64(x, y);
    lemma_le_i64_total();
    rtt_values(s).lemma_sort_by_ensures(leq);
    broadcast use vstd::seq_lib::group_to_multiset_ensures;
    assert(rtt_values(s).len() == rtt_values(s).to_multiset().len());
    assert(sorted_rtts(s).len() == sorted_rtts(s).to_multiset().len());
    let srt = sorted_rtts(s);
    assert(n / 10 <= n / 2) by (nonlinear_arith)
        requires
            n >= 1,
    ;
    assert(n / 2 <= n * 9 / 10 < n) by (nonlinear_arith)
        requires
            n >= 1,
    ;
    if n / 10 < n / 2 {
        assert(leq(srt[(n / 10) as int], srt[(n / 2) as int]));
    }
    if n / 2 < n * 9 / 10 {
        assert(leq(srt[(n / 2) as int], srt[(n * 9 / 10) as int]));
    }
}

/// The profile of an edge does not depend on the order of its two nodes.
pub proof fn lemma_profile_symmetric(m: Map<(NodeId, NodeId), Seq<TwistIndex>>, a: NodeId, b: NodeId)
    ensures
        history(m, a, b) == history(m, b, a),
        has_edge(m, a, b) == has_edge(m, b, a),
        profile_of(history(m, a, b)) == profile_of(history(m, b, a)),
{
    lemma_edge_key_symmetric(a, b);
}

proof fn lemma_sum_rtt_bounds(s: Seq<TwistIndex>, k: nat, lo: int, hi: int)
    requires
        k <= s.len(),
        forall|i: int| 0 <= i < s.len() ==> lo <= rtt_of(#[trigger] s[i]) <= hi,
    ensures
        k * lo <= sum_rtt(s, k) <= k * hi,
    decreases k,
{
    if k > 0 {
        lemma_sum_rtt_bounds(s, (k - 1) as nat, lo, hi);
        assert(rtt_of(s[k - 1]) >= lo);
        assert(k * lo == (k - 1) * lo + lo) by (nonlinear_arith);
        assert(k * hi == (k - 1) * hi + hi) by (nonlinear_arith);
    }
}

proof fn lemma_sum_sq_dev_nonneg(s: Seq<TwistIndex>, mean: int, k: nat)
    ensures
        sum_sq_dev(s, mean, k) >= 0,
    decreases k,
{
    if k > 0 {
        lemma_sum_sq_dev_nonneg(s, mean, (k - 1) as nat);
        let d = rtt_of(s[k - 1]) - mean;
        assert(d * d >= 0) by (nonlinear_arith);
    }
}

/// The summary of a measurement history lies within its round trips: the smallest and
/// the largest round trip bound every round trip, each percentile and the mean, each
/// percentile is one of the round trips, and the variance is not negative.
pub proof fn lemma_profile_within_rtts(s: Seq<TwistIndex>)
    requires
        s.len() >= 1,
    ensures
        ({
            let srt = sorted_rtts(s);
            let lo = srt[0];
            let hi = srt[s.len() - 1];
            let p = profile_of(s);
            &&& rtt_values(s).contains(lo)
            &&& rtt_values(s).contains(hi)
            &&& forall|i: int| 0 <= i < s.len() ==> lo <= #[trigger] rtt_values(s)[i] <= hi
            &&& lo <= p.p10_nanos && p.p90_nanos <= hi
            &&& rtt_values(s).contains(p.p10_nanos) && rtt_values(s).contains(p.p50_nanos)
                && rtt_values(s).contains(p.p90_nanos)
            &&& lo <= mean_rtt(s) <= hi
            &&& lo <= p.mean_nanos <= hi
            &&& variance_rtt(s) >= 0
        }),
{
    let n = s.len();
    let leq = |x: i64, y: i64| le_i64(x, y);
    lemma_le_i64_total();
    rtt_values(s).lemma_sort_by_ensures(leq);
    broadcast use vstd::seq_lib::group_to_multiset_ensures;

    let vals = rtt_values(s);
    let srt = sorted_rtts(s);
    assert(vals.len() == vals.to_multiset().len());
    assert(srt.len() == srt.to_multiset().len());
    let lo = srt[0];
    let hi = srt[n - 1];
    assert(srt.to_multiset() == vals.to_multiset());
    assert forall|j: int| 0 <= j < n implies vals.contains(#[trigger] srt[j]) by {
        assert(srt.to_multiset().count(srt[j]) > 0);
    }
    assert forall|i: int| 0 <= i < n implies lo <= #[trigger] vals[i] <= hi by {
        assert(vals.to_multiset().count(vals[i]) > 0);
        assert(srt.contains(vals[i]));
        let j = choose|j: int| 0 <= j < n && srt[j] == vals[i];
        if 0 < j {
            assert(leq(srt[0], srt[j]));
        }
        if j < n - 1 {
            assert(leq(srt[j], srt[n - 1]));
        }
    }
    assert(n / 10 <= n * 9 / 10 < n) by (nonlinear_arith)
        requires
            n >= 1,
    ;
    assert(n / 2 < n) by (nonlinear_arith)
        requires
            n >= 1,
    ;
    assert(vals.contains(srt[(n / 10) as int]));
    assert(vals.contains(srt[(n / 2) as int]));
    assert(vals.contains(srt[(n * 9 / 10) as int]));
    assert(vals.contains(lo));
    assert(vals.contains(hi));
    if 0 < n / 10 {
        assert(leq(srt[0], srt[(n / 10) as int]));
    }
    if n * 9 / 10 < n - 1 {
        assert(leq(srt[(n * 9 / 10) as int], srt[n - 1]));
    }
    assert forall|i: int| 0 <= i < n implies lo <= rtt_of(#[trigger] s[i]) <= hi by {
        assert(vals[i] == s[i].rtt_nanos as i64);
    }
    lemma_sum_rtt_bounds(s, n, lo as int, hi as int);
    let total = sum_rtt(s, n);
    let ni = n as int;
    if total >= 0 {
        assert(lo <= total / ni <= hi) by (nonlinear_arith)
            requires
                ni >= 1,
                ni * lo <= total <= ni * hi,
                total >= 0,
        ;
    } else {
        assert(lo <= -((-total) / ni) <= hi) by (nonlinear_arith)
            requires
                ni >= 1,
                ni * lo <= total <= ni * hi,
                total < 0,
        ;
    }
    lemma_sum_sq_dev_nonneg(s, mean_rtt(s), n);
}

/// Whether every intermediate value of the profile of `s` fits in 64 bits, as
/// `TwistLUT::profile` needs: the checks made with checked arithmetic.
pub fn profile_fits_exec(s: &[TwistIndex]) -> (ok: bool)
    ensures
        ok == profile_fits(s@),
{
    let n = s.len();
    if n == 0 {
        return true;
    }
    if (n as u64) > 0x7fff_ffff_ffff_ffffu64 || n > usize::MAX / 9 {
        return false;
    }
    let ghost q = s@;
    let mut total: i64 = 0;
    let mut i: usize = 0;
    while i < n
        invariant
            q == s@,
            n == q.len(),
            0 <= i <= n,
            total == sum_rtt(q, i as nat),
            forall|k: nat| k <= i ==> fits_i64(#[trigger] sum_rtt(q, k)),
        decreases n - i,
    {
        let r = s[i].rtt_nanos as i64;
        match total.checked_add(r) {
            Some(t) => {
                total = t;
            },
            None => {
                assert(!fits_i64(sum_rtt(q, (i + 1) as nat)));
                return false;
            },
        }
        i = i + 1;
    }
    let mean = total / (n as i64);
    assert(mean == mean_rtt(q));
    let mut sq: i64 = 0;
    let mut j: usize = 0;
    while j < n
        invariant
            q == s@,
            n == q.len(),
            mean == mean_rtt(q),
            0 <= j <= n,
            sq == sum_sq_dev(q, mean as int, j as nat),
            forall|k: nat| k <= j ==> fits_i64(#[trigger] sum_sq_dev(q, mean as int, k)),
            forall|k: int| 0 <= k < j ==> fits_i64(rtt_of(#[trigger] q[k]) - mean) && fits_i64(
                (rtt_of(q[k]) - mean) * (rtt_of(q[k]) - mean),
            ),
        decreases n - j,
    {
        let r = s[j].rtt_nanos as i64;
        assert(r == rtt_of(q[j as int]));
        let d = match r.checked_sub(mean) {
            Some(d) => d,
            None => {
                return false;
            },
        };
        let d2 = match d.checked_mul(d) {
            Some(v) => v,
            None => {
                return false;
            },
        };
        match sq.checked_add(d2) {
            Some(v) => {
                sq = v;
            },
            None => {
                assert(!fits_i64(sum_sq_dev(q, mean as int, (j + 1) as nat)));
                return false;
            },
        }
        j = j + 1;
    }
    if n < 2 {
        return true;
    }
    let mut se: i64 = 0;
    let mut ser: i64 = 0;
    let mut see: i64 = 0;
    let mut m: usize = 0;
    while m < n
        invariant
            q == s@,
            n == q.len(),
            n >= 2,
            0 <= m <= n,
            se == sum_epoch(q, m as nat),
            ser == sum_epoch_rtt(q, m as nat),
            see == sum_epoch_sq(q, m as nat),
            forall|k: nat| k <= m ==> fits_i64(#[trigger] sum_epoch(q, k)),
            forall|k: nat| k <= m ==> fits_i64(#[trigger] sum_epoch_rtt(q, k)),
            forall|k: nat| k <= m ==> fits_i64(#[trigger] sum_epoch_sq(q, k)),
            forall|k: int| 0 <= k < m ==> fits_i64(epoch_of(#[trigger] q[k]) * rtt_of(q[k])) && fits_i64(
                epoch_of(q[k]) * epoch_of(q[k]),
            ),
        decreases n - m,
    {
        let e = s[m].epoch_measured as i64;
        let r = s[m].rtt_nanos as i64;
        assert(e == epoch_of(q[m as int]) && r == rtt_of(q[m as int]));
        let er = match e.checked_mul(r) {
            Some(v) => v,
            None => {
                assert(!fits_i64(epoch_of(q[m as int]) * rtt_of(q[m as int])));
                return false;
            },
        };
        let ee = match e.checked_mul(e) {
            Some(v) => v,
            None => {
                assert(!fits_i64(epoch_of(q[m as int]) * epoch_of(q[m as int])));
                return false;
            },
        };
        match se.checked_add(e) {
            Some(v) => {
                se = v;
            },
            None => {
                assert(!fits_i64(sum_epoch(q, (m + 1) as nat)));
                return false;
            },
        }
        match ser.checked_add(er) {
            Some(v) => {
                ser = v;
            },
            None => {
                assert(!fits_i64(sum_epoch_rtt(q, (m + 1) as nat)));
                return false;
            },
        }
        match see.checked_add(ee) {
            Some(v) => {
                see = v;
            },
            None => {
                assert(!fits_i64(sum_epoch_sq(q, (m + 1) as nat)));
                return false;
            },
        }
        m = m + 1;
    }
    let nn = n as i64;
    let a = match nn.checked_mul(see) {
        Some(v) => v,
        None => {
            return false;
        },
    };
    let b = match se.checked_mul(se) {
        Some(v) => v,
        None => {
            return false;
        },
    };
    let den = match a.checked_sub(b) {
        Some(v) => v,
        None => {
            return false;
        },
    };
    let c = match nn.checked_mul(ser) {
        Some(v) => v,
        None => {
            return false;
        },
    };
    let d = match se.checked_mul(total) {
        Some(v) => v,
        None => {
            return false;
        },
    };
    let num = match c.checked_sub(d) {
        Some(v) => v,
        None => {
            return false;
        },
    };
    assert(den == trend_denominator(q));
    assert(num == trend_numerator(q));
    !(num == i64::MIN && den == -1)
}

impl TwistLUT {
    /// Whether the profile of the edge between `a` and `b` can be computed in 64 bits
    /// (`profile`'s precondition); true for an edge without measurements.
    pub fn profile_fits_for(&self, a: NodeId, b: NodeId) -> (ok: bool)
        requires
            self.wf(),
        ensures
            ok == profile_fits(history(self@, a, b)),
    {
        match self.get(a, b) {
            Some(h) => profile_fits_exec(h),
            None => {
                assert(history(self@, a, b) =~= Seq::<TwistIndex>::empty());
                true
            },
        }
    }
}

/// The lookup table of pairwise measurements, one history per edge.
#[derive(Debug)]
pub struct TwistLUT {
    entries: Vec<((NodeId, NodeId), Vec<TwistIndex>)>,
}

/// The view of one stored history.
pub open spec fn history_view(v: Vec<TwistIndex>) -> Seq<TwistIndex> {
    v@
}

impl View for TwistLUT {
    type V = Map<(NodeId, NodeId), Seq<TwistIndex>>;

    closed spec fn view(&self) -> Map<(NodeId, NodeId), Seq<TwistIndex>> {
        map_of(self.entries@).map_values(|v: Vec<TwistIndex>| history_view(v))
    }
}

impl TwistLUT {
    /// Keys are distinct edge keys and every stored history holds a measurement.
    pub closed spec fn wf(&self) -> bool {
        &&& keys_distinct(self.entries@)
        &&& forall|i: int|
            0 <= i < self.entries@.len() ==> {
                let e = #[trigger] self.entries@[i];
                &&& e.0 == edge_key_spec(e.0.0, e.0.1)
                &&& e.1@.len() > 0
            }
    }

    /// An empty table.
    pub fn new() -> (t: Self)
        ensures
            t.wf(),
            t@ == Map::<(NodeId, NodeId), Seq<TwistIndex>>::empty(),
    {
        let t = TwistLUT { entries: Vec::new() };
        assert(t@ =~= Map::<(NodeId, NodeId), Seq<TwistIndex>>::empty());
        t
    }

    /// The key of the edge between `a` and `b`.
    fn edge_key(a: NodeId, b: NodeId) -> (k: (NodeId, NodeId))
        ensures
            k == edge_key_spec(a, b),
    {
        if bytes32_lt(&a.0, &b.0) {
            (a, b)
        } else {
            (b, a)
        }
    }

    /// Position of the entry with key `key`.
    fn find(&self, key: &(NodeId, NodeId)) -> (r: Option<usize>)
        ensures
            match r {
                Some(i) => i < self.entries@.len() && self.entries@[i as int].0 == *key,
                None => !has_key(self.entries@, *key),
            },
    {
        let mut i: usize = 0;
        while i < self.entries.len()
            invariant
                0 <= i <= self.entries@.len(),
                forall|j: int| 0 <= j < i ==> (#[trigger] self.entries@[j]).0 != *key,
            decreases self.entries@.len() - i,
        {
            if self.entries[i].0.0 == key.0 && self.entries[i].0.1 == key.1 {
                return Some(i);
            }
            i = i + 1;
        }
        None
    }

    proof fn lemma_view_at(&self, i: int)
        requires
            self.wf(),
            0 <= i < self.entries@.len(),
        ensures
            self@.dom().contains(self.entries@[i].0),
            self@[self.entries@[i].0] == self.entries@[i].1@,
    {
        lemma_map_of_at(self.entries@, i);
    }

    /// In a well-formed table every recorded edge holds a measurement.
    pub proof fn lemma_neighbor_has_edge(&self, a: NodeId, b: NodeId)
        requires
            self.wf(),
            is_neighbor(self@, a, b),
        ensures
            has_edge(self@, a, b),
    {
        let k = edge_key_spec(a, b);
        assert(map_of(self.entries@).dom().contains(k));
        let i = key_index(self.entries@, k);
        self.lemma_view_at(i);
    }

    /// Record a measurement of the edge between `a` and `b`.
    pub fn insert(&mut self, a: NodeId, b: NodeId, twist: TwistIndex)
        requires
            old(self).wf(),
        ensures
            final(self).wf(),
            final(self)@ == old(self)@.insert(edge_key_spec(a, b), history(old(self)@, a, b).push(twist)),
            final(self)@.dom().finite(),
            final(self)@.dom().len() == old(self)@.dom().len() + (if old(self)@.dom().contains(
                edge_key_spec(a, b),
            ) {
                0int
            } else {
                1int
            }),
    {
        let key = Self::edge_key(a, b);
        let ghost old_view = self@;
        proof {
            lemma_edge_key_symmetric(a, b);
            lemma_map_of_len(self.entries@);
            assert(self@.dom() =~= map_of(self.entries@).dom());
        }
        match self.find(&key) {
            Some(i) => {
                let ghost s = self.entries@;
                proof {
                    self.lemma_view_at(i as int);
                    s.remove_ensures(i as int);
                }
                let mut entry = self.entries.remove(i);
                entry.1.push(twist);
                let ghost e = entry;
                self.entries.insert(i, entry);
                proof {
                    s.remove(i as int).insert_ensures(i as int, e);
                    assert(self.entries@ =~= s.update(i as int, (s[i as int].0, e.1)));
                    lemma_map_of_update(s, i as int, e.1);
                    assert forall|j: int| 0 <= j < self.entries@.len() implies {
                        let x = #[trigger] self.entries@[j];
                        &&& x.0 == edge_key_spec(x.0.0, x.0.1)
                        &&& x.1@.len() > 0
                    } by {
                        if j != i {
                            assert(self.entries@[j] == s[j]);
                        }
                    }
                    assert(self@ =~= old_view.insert(key, history(old_view, a, b).push(twist)));
                }
            },
            None => {
                let mut v: Vec<TwistIndex> = Vec::new();
                v.push(twist);
                let ghost s = self.entries@;
                proof {
                    lemma_map_of_push(s, key, v);
                }
                self.entries.push((key, v));
                proof {
                    assert forall|j: int| 0 <= j < self.entries@.len() implies {
                        let x = #[trigger] self.entries@[j];
                        &&& x.0 == edge_key_spec(x.0.0, x.0.1)
                        &&& x.1@.len() > 0
                    } by {
                        if j < s.len() {
                            assert(self.entries@[j] == s[j]);
                        }
                    }
                    assert(history(old_view, a, b) =~= Seq::<TwistIndex>::empty());
                    assert(self@ =~= old_view.insert(key, history(old_view, a, b).push(twist)));
                }
            },
        }
        proof {
            lemma_map_of_len(self.entries@);
            assert(self@.dom() =~= map_of(self.entries@).dom());
        }
    }

    /// The measurements of the edge between `a` and `b`, oldest first, if any.
    pub fn get(&self, a: NodeId, b: NodeId) -> (r: Option<&[TwistIndex]>)
        requires
            self.wf(),
        ensures
            match r {
                Some(s) => self@.dom().contains(edge_key_spec(a, b)) && s@ == history(self@, a, b),
                None => !self@.dom().contains(edge_key_spec(a, b)),
            },
    {
        let key = Self::edge_key(a, b);
        match self.find(&key) {
            Some(i) => {
                proof {
                    self.lemma_view_at(i as int);
                }
                Some(self.entries[i].1.as_slice())
            },
            None => None,
        }
    }

    /// The most recent measurement of the edge between `a` and `b`.
    pub fn latest(&self, a: NodeId, b: NodeId) -> (r: Option<&TwistIndex>)
        requires
            self.wf(),
        ensures
            match r {
                Some(t) => has_edge(self@, a, b) && *t == history(self@, a, b).last(),
                None => !has_edge(self@, a, b),
            },
    {
        let key = Self::edge_key(a, b);
        match self.find(&key) {
            Some(i) => {
                proof {
                    self.lemma_view_at(i as int);
                }
                let h = &self.entries[i].1;
                Some(&h[h.len() - 1])
            },
            None => None,
        }
    }

    /// Every node with which `node` shares a measured edge, each once, in no
    /// particular order.
    pub fn neighbors(&self, node: NodeId) -> (r: Vec<NodeId>)
        requires
            self.wf(),
        ensures
            r@.no_duplicates(),
            forall|x: NodeId| r@.contains(x) <==> is_neighbor(self@, node, x),
    {
        let ghost s = self.entries@;
        let mut r: Vec<NodeId> = Vec::new();
        let mut i: usize = 0;
        while i < self.entries.len()
            invariant
                self.wf(),
                s == self.entries@,
                0 <= i <= s.len(),
                r@.no_duplicates(),
                forall|x: NodeId| r@.contains(x) ==> is_neighbor(self@, node, x),
                forall|x: NodeId|
                    #![trigger r@.contains(x)]
                    r@.contains(x) ==> exists|j: int| 0 <= j < i && (#[trigger] s[j]).0 == edge_key_spec(node, x),
                forall|j: int|
                    0 <= j < i ==> #[trigger] s[j].0 == edge_key_spec(node, s[j].0.1) && s[j].0.0 == node
                        ==> r@.contains(s[j].0.1),
                forall|j: int|
                    0 <= j < i ==> #[trigger] s[j].0 == edge_key_spec(node, s[j].0.0) && s[j].0.1 == node
                        ==> r@.contains(s[j].0.0),
            decreases s.len() - i,
        {
            let k0 = self.entries[i].0.0;
            let k1 = self.entries[i].0.1;
            proof {
                self.lemma_view_at(i as int);
                lemma_edge_key_symmetric(k0, k1);
                lemma_edge_key_symmetric(node, k0);
            }
            let pick: Option<NodeId> = if k0 == node {
                Some(k1)
            } else if k1 == node {
                Some(k0)
            } else {
                None
            };
            match pick {
                Some(x) => {
                    proof {
                        assert(s[i as int].0 == edge_key_spec(node, x));
                        if r@.contains(x) {
                            let j = choose|j: int| 0 <= j < i && (#[trigger] s[j]).0 == edge_key_spec(node, x);
                            assert(s[j].0 == s[i as int].0);
                        }
                    }
                    let ghost before = r@;
                    r.push(x);
                    proof {
                        assert forall|a: int, b: int| 0 <= a < b < r@.len() implies r@[a] != r@[b] by {
                            if b == before.len() {
                                assert(r@[a] == before[a]);
                                assert(before.contains(before[a]));
                            } else {
                                assert(r@[a] == before[a] && r@[b] == before[b]);
                            }
                        }
                        assert forall|y: NodeId| r@.contains(y) implies exists|j: int|
                            0 <= j < i + 1 && (#[trigger] s[j]).0 == edge_key_spec(node, y) by {
                            let q = choose|q: int| 0 <= q < r@.len() && r@[q] == y;
                            if q < before.len() {
                                assert(before[q] == y);
                                assert(before.contains(y));
                            } else {
                                assert(s[i as int].0 == edge_key_spec(node, y));
                            }
                        }
                        assert forall|y: NodeId| r@.contains(y) implies is_neighbor(self@, node, y) by {
                            let q = choose|q: int| 0 <= q < r@.len() && r@[q] == y;
                            if q < before.len() {
                                assert(before[q] == y);
                                assert(before.contains(y));
                            }
                        }
                        assert(r@[before.len() as int] == x);
                        assert forall|j: int| 0 <= j < i + 1 implies (#[trigger] s[j].0 == edge_key_spec(
                            node,
                            s[j].0.1,
                        ) && s[j].0.0 == node ==> r@.contains(s[j].0.1)) by {
                            if j < i && before.contains(s[j].0.1) {
                                let q = choose|q: int| 0 <= q < before.len() && before[q] == s[j].0.1;
                                assert(r@[q] == s[j].0.1);
                            }
                        }
                        assert forall|j: int| 0 <= j < i + 1 implies (#[trigger] s[j].0 == edge_key_spec(
                            node,
                            s[j].0.0,
                        ) && s[j].0.1 == node ==> r@.contains(s[j].0.0)) by {
                            if j < i && before.contains(s[j].0.0) {
                                let q = choose|q: int| 0 <= q < before.len() && before[q] == s[j].0.0;
                                assert(r@[q] == s[j].0.0);
                            }
                        }
                    }
                },
                None => {},
            }
            i = i + 1;
        }
        proof {
            assert forall|x: NodeId| is_neighbor(self@, node, x) implies r@.contains(x) by {
                let key = edge_key_spec(node, x);
                lemma_edge_key_symmetric(node, x);
                assert(has_key(s, key));
                let j = key_index(s, key);
                assert(s[j].0 == key);
                assert(s[j].0 == edge_key_spec(s[j].0.0, s[j].0.1));
                if s[j].0.0 == node {
                    assert(s[j].0.1 == x);
                    assert(s[j].0 == edge_key_spec(node, s[j].0.1));
                } else {
                    assert(s[j].0.1 == node && s[j].0.0 == x);
                    lemma_edge_key_symmetric(node, s[j].0.0);
                    assert(s[j].0 == edge_key_spec(node, s[j].0.0));
                }
            }
        }
        r
    }

    /// Sum of the signed offsets around the loop `path` (closed from the last node back
    /// to the first): zero for a consistent geometry, a defect otherwise. `None` for
    /// fewer than three nodes or when an edge of the loop has no measurement.
    pub fn loop_holonomy(&self, path: &[NodeId]) -> (r: Option<i64>)
        requires
            self.wf(),
            loop_sums_fit(self@, path@),
        ensures
            match holonomy_of(self@, path@) {
                Some(h) => r == Some(h as i64),
                None => r is None,
            },
    {
        if path.len() < 3 {
            return None;
        }
        let n = path.len();
        let mut total: i64 = 0;
        let mut i: usize = 0;
        while i < n
            invariant
                self.wf(),
                n == path@.len(),
                n >= 3,
                loop_sums_fit(self@, path@),
                0 <= i <= n,
                loop_measured(self@, path@, i as nat),
                total == loop_sum(self@, path@, i as nat),
            decreases n - i,
        {
            let a = path[i];
            let b = path[(i + 1) % n];
            assert(b == next_on_loop(path@, i as int));
            let twist = match self.latest(a, b) {
                Some(t) => t,
                None => {
                    assert(!loop_measured(self@, path@, n as nat));
                    return None;
                },
            };
            proof {
                assert(loop_measured(self@, path@, (i + 1) as nat));
                assert(i64::MIN <= loop_sum(self@, path@, (i + 1) as nat) <= i64::MAX);
            }
            let key = Self::edge_key(a, b);
            if key.0 == a {
                total = total + twist.offset_nanos;
            } else {
                total = total - twist.offset_nanos;
            }
            i = i + 1;
        }
        Some(total)
    }

    /// Latency profile of the edge between `a` and `b` from its measurement history:
    /// mean, variance, percentiles and trend of the round trips. `None` without
    /// measurements.
    pub fn profile(&self, a: NodeId, b: NodeId) -> (r: Option<RelationalLatencyProfile>)
        requires
            self.wf(),
            profile_fits(history(self@, a, b)),
        ensures
            match r {
                Some(p) => has_edge(self@, a, b) && p == profile_of(history(self@, a, b)),
                None => !has_edge(self@, a, b),
            },
    {
        let twists = match self.get(a, b) {
            Some(t) => t,
            None => return None,
        };
        if twists.len() == 0 {
            return None;
        }
        let ghost s = twists@;
        let n = twists.len();
        let total = sum_rtts(twists);
        let mean = total / (n as i64);
        assert(mean == mean_rtt(s));
        let sq = sum_sq_devs(twists, mean);
        let variance = sq / (n as i64);
        let rtts = sort_rtts(twists);
        let p10 = rtts[n / 10];
        let p50 = rtts[n / 2];
        let p90 = rtts[n * 9 / 10];
        let trend: i64 = if n >= 2 {
            let nn = n as i64;
            let (sum_x, sum_xy, sum_xx) = sum_epochs(twists);
            let sum_y = total;
            let denom = nn * sum_xx - sum_x * sum_x;
            if denom != 0 {
                (nn * sum_xy - sum_x * sum_y) / denom
            } else {
                0
            }
        } else {
            0
        };
        let epoch_first = twists[0].epoch_measured;
        let epoch_last = twists[n - 1].epoch_measured;
        Some(
            RelationalLatencyProfile {
                mean_nanos: mean,
                variance_nanos: variance,
                p10_nanos: p10,
                p50_nanos: p50,
                p90_nanos: p90,
                trend_nanos_per_epoch: trend,
                sample_count: n as u32,
                epoch_first,
                epoch_last,
            },
        )
    }

    /// Number of edges with measurements.
    pub fn edge_count(&self) -> (n: usize)
        requires
            self.wf(),
        ensures
            n == self@.dom().len(),
    {
        proof {
            lemma_map_of_len(self.entries@);
            assert(self@.dom() =~= map_of(self.entries@).dom());
        }
        self.entries.len()
    }
}

impl Default for TwistLUT {
    fn default() -> (t: Self)
        ensures
            t.wf(),
            t@ == Map::<(NodeId, NodeId), Seq<TwistIndex>>::empty(),
    {
        Self::new()
    }
}

} // verus!
