use vstd::prelude::*;

use crate::assoc::{has_key, key_index, keys_distinct, lemma_map_of_at, map_of};
use crate::bytes::{bytes32_lt, lex_lt};
use crate::holonomy::chiral::ChiralFrame;
use crate::holonomy::twist::{history, is_neighbor, TwistLUT};
use crate::num::{abs_i64, unsigned_abs};
use crate::types::NodeId;

verus! {

/// Largest defect, in nanoseconds, at which a solve counts as converged (one microsecond,
/// exclusive).
pub const CONVERGED_BELOW_NANOS: u64 = 1000;

/// Outcome of solver iterations.
#[derive(Debug, Clone)]
pub struct SolveResult {
    pub iterations: u32,
    pub max_defect_nanos: u64,
    pub mean_defect_nanos: u64,
    pub converged: bool,
}

/// `x` clamped to the range of a signed 64-bit integer, as saturating arithmetic gives.
pub open spec fn clamp_i64(x: int) -> i64 {
    if x < i64::MIN {
        i64::MIN
    } else if x > i64::MAX {
        i64::MAX
    } else {
        x as i64
    }
}

/// `a + b`, saturating.
pub fn saturating_add_i64(a: i64, b: i64) -> (r: i64)
    ensures
        r == clamp_i64(a + b),
{
    let s = a as i128 + b as i128;
    if s < i64::MIN as i128 {
        i64::MIN
    } else if s > i64::MAX as i128 {
        i64::MAX
    } else {
        s as i64
    }
}

/// `a - b`, saturating.
pub fn saturating_sub_i64(a: i64, b: i64) -> (r: i64)
    ensures
        r == clamp_i64(a - b),
{
    let s = a as i128 - b as i128;
    if s < i64::MIN as i128 {
        i64::MIN
    } else if s > i64::MAX as i128 {
        i64::MAX
    } else {
        s as i64
    }
}

/// The offset an edge predicts for `node` from its neighbour: the stored offset says
/// how far the larger identity runs ahead of the smaller one.
pub open spec fn expected_offset(node: NodeId, neighbor: NodeId, neighbor_offset: i64, twist_offset: i64) -> i64 {
    if lex_lt(neighbor.0@, node.0@) {
        clamp_i64(neighbor_offset + twist_offset)
    } else {
        clamp_i64(neighbor_offset - twist_offset)
    }
}

/// Disagreement between what the edge predicts for `node` and its offset (saturating).
pub open spec fn edge_error_of(
    node: NodeId,
    node_offset: i64,
    neighbor: NodeId,
    neighbor_offset: i64,
    twist_offset: i64,
) -> i64 {
    clamp_i64(expected_offset(node, neighbor, neighbor_offset, twist_offset) - node_offset)
}

/// The disagreement of `node` at `node_offset` with a neighbour at `neighbor_offset`
/// across an edge that measured `twist_offset`.
pub fn edge_error(node: NodeId, node_offset: i64, neighbor: NodeId, neighbor_offset: i64, twist_offset: i64) -> (e: i64)
    ensures
        e == edge_error_of(node, node_offset, neighbor, neighbor_offset, twist_offset),
{
    let expected = if bytes32_lt(&neighbor.0, &node.0) {
        saturating_add_i64(neighbor_offset, twist_offset)
    } else {
        saturating_sub_i64(neighbor_offset, twist_offset)
    };
    saturating_sub_i64(expected, node_offset)
}

/// Largest of the values, 0 for none.
pub open spec fn max_of(s: Seq<u64>) -> u64
    decreases s.len(),
{
    if s.len() == 0 {
        0
    } else {
        let m = max_of(s.drop_last());
        if s.last() > m {
            s.last()
        } else {
            m
        }
    }
}

/// Sum of the values.
pub open spec fn total_of(s: Seq<u64>) -> int
    decreases s.len(),
{
    if s.len() == 0 {
        0
    } else {
        total_of(s.drop_last()) + s.last()
    }
}

/// The result of an iteration with these edge defects: largest defect, mean defect
/// rounded down (0 for none), converged when the largest is under a microsecond.
pub fn defect_summary(defects: &[u64], iterations: u32) -> (r: SolveResult)
    requires
        total_of(defects@) <= u64::MAX,
    ensures
        r.iterations == iterations,
        r.max_defect_nanos == max_of(defects@),
        r.mean_defect_nanos == (if defects@.len() == 0 {
            0
        } else {
            total_of(defects@) / (defects@.len() as int)
        }),
        r.converged == (max_of(defects@) < CONVERGED_BELOW_NANOS),
{
    let mut max: u64 = 0;
    let mut total: u64 = 0;
    let mut i: usize = 0;
    proof {
        lemma_total_prefix(defects@, defects@.len() as int);
        assert(defects@.take(defects@.len() as int) =~= defects@);
    }
    while i < defects.len()
        invariant
            0 <= i <= defects@.len(),
            total_of(defects@) <= u64::MAX,
            forall|k: int| 0 <= k <= defects@.len() ==> #[trigger] total_of(defects@.take(k)) <= total_of(defects@),
            max == max_of(defects@.take(i as int)),
            total == total_of(defects@.take(i as int)),
        decreases defects@.len() - i,
    {
        proof {
            let t = defects@.take(i + 1);
            assert(t.drop_last() =~= defects@.take(i as int));
            assert(t.last() == defects@[i as int]);
        }
        let d = defects[i];
        assert(total_of(defects@.take(i + 1)) <= total_of(defects@));
        total = total + d;
        if d > max {
            max = d;
        }
        i = i + 1;
    }
    assert(defects@.take(defects@.len() as int) =~= defects@);
    let mean = if defects.len() == 0 {
        0
    } else {
        total / (defects.len() as u64)
    };
    SolveResult {
        iterations,
        max_defect_nanos: max,
        mean_defect_nanos: mean,
        converged: max < CONVERGED_BELOW_NANOS,
    }
}

/// Whether the defects sum within 64 bits, as `defect_summary` needs.
pub fn defects_total_fits(defects: &[u64]) -> (ok: bool)
    ensures
        ok == (total_of(defects@) <= u64::MAX),
{
    let mut total: u64 = 0;
    let mut i: usize = 0;
    proof {
        lemma_total_prefix(defects@, defects@.len() as int);
        assert(defects@.take(defects@.len() as int) =~= defects@);
    }
    while i < defects.len()
        invariant
            0 <= i <= defects@.len(),
            total == total_of(defects@.take(i as int)),
            forall|k: int| 0 <= k <= defects@.len() ==> #[trigger] total_of(defects@.take(k)) <= total_of(defects@),
        decreases defects@.len() - i,
    {
        assert(defects@.take(i + 1).drop_last() =~= defects@.take(i as int));
        if total > u64::MAX - defects[i] {
            assert(total_of(defects@.take(i + 1)) > u64::MAX);
            return false;
        }
        total = total + defects[i];
        i = i + 1;
    }
    true
}

proof fn lemma_total_prefix(s: Seq<u64>, n: int)
    requires
        0 <= n <= s.len(),
    ensures
        forall|k: int| 0 <= k <= n ==> #[trigger] total_of(s.take(k)) <= total_of(s.take(n)),
    decreases n,
{
    if n > 0 {
        lemma_total_prefix(s, n - 1);
        let t = s.take(n);
        assert(t.drop_last() =~= s.take(n - 1));
    }
    if n == s.len() {
        assert(s.take(n) =~= s);
    }
}

/// Sum of `f` over the elements of `s`.
pub open spec fn seq_sum(s: Seq<NodeId>, f: spec_fn(NodeId) -> int) -> int
    decreases s.len(),
{
    if s.len() == 0 {
        0
    } else {
        seq_sum(s.drop_last(), f) + f(s.last())
    }
}

proof fn lemma_sum_remove(s: Seq<NodeId>, k: int, f: spec_fn(NodeId) -> int)
    requires
        0 <= k < s.len(),
    ensures
        seq_sum(s, f) == seq_sum(s.remove(k), f) + f(s[k]),
    decreases s.len(),
{
    s.remove_ensures(k);
    if k < s.len() - 1 {
        let d = s.drop_last();
        lemma_sum_remove(d, k, f);
        d.remove_ensures(k);
        assert(s.remove(k).drop_last() =~= d.remove(k));
        assert(s.remove(k).last() == s.last());
    } else {
        assert(s.remove(k) =~= s.drop_last());
    }
}

/// A sum over the elements of a set does not depend on the order in which they are
/// listed.
pub proof fn lemma_sum_order_free(a: Seq<NodeId>, b: Seq<NodeId>, f: spec_fn(NodeId) -> int)
    requires
        a.no_duplicates(),
        b.no_duplicates(),
        forall|y: NodeId| a.contains(y) <==> b.contains(y),
    ensures
        seq_sum(a, f) == seq_sum(b, f),
        a.len() == b.len(),
    decreases a.len(),
{
    if a.len() == 0 {
        if b.len() > 0 {
            assert(b.contains(b[0]));
        }
    } else {
        let x = a.last();
        assert(a.contains(x));
        let k = choose|k: int| 0 <= k < b.len() && b[k] == x;
        let b2 = b.remove(k);
        let a2 = a.drop_last();
        b.remove_ensures(k);
        lemma_sum_remove(b, k, f);
        assert forall|y: NodeId| a2.contains(y) <==> b2.contains(y) by {
            if a2.contains(y) {
                let i = choose|i: int| 0 <= i < a2.len() && a2[i] == y;
                assert(a[i] == y);
                assert(y != x);
                assert(b.contains(y));
                let j = choose|j: int| 0 <= j < b.len() && b[j] == y;
                assert(j != k);
                if j < k {
                    assert(b2[j] == y);
                } else {
                    assert(b2[j - 1] == y);
                }
            }
            if b2.contains(y) {
                let j = choose|j: int| 0 <= j < b2.len() && b2[j] == y;
                let j0 = if j < k {
                    j
                } else {
                    j + 1
                };
                assert(b[j0] == y);
                assert(j0 != k);
                assert(y != x);
                assert(a.contains(y));
                let i = choose|i: int| 0 <= i < a.len() && a[i] == y;
                assert(i != a.len() - 1);
                assert(a2[i] == y);
            }
        }
        assert(b2.no_duplicates()) by {
            assert forall|p: int, q: int| 0 <= p < q < b2.len() implies b2[p] != b2[q] by {
                let p0 = if p < k {
                    p
                } else {
                    p + 1
                };
                let q0 = if q < k {
                    q
                } else {
                    q + 1
                };
                assert(b2[p] == b[p0] && b2[q] == b[q0]);
            }
        }
        lemma_sum_order_free(a2, b2, f);
    }
}

/// Some listing, each once, of the neighbours of `node` in the table.
pub open spec fn neighbor_list(m: Map<(NodeId, NodeId), Seq<crate::holonomy::twist::TwistIndex>>, node: NodeId) -> Seq<NodeId> {
    choose|s: Seq<NodeId>| s.no_duplicates() && (forall|y: NodeId| s.contains(y) <==> is_neighbor(m, node, y))
}

/// Defect of `node` towards neighbour `y`: the size of their disagreement across the
/// latest measurement, counted only when `y` has a frame.
pub open spec fn defect_term(
    frames: Map<NodeId, ChiralFrame>,
    m: Map<(NodeId, NodeId), Seq<crate::holonomy::twist::TwistIndex>>,
    node: NodeId,
    y: NodeId,
) -> int {
    if frames.dom().contains(y) {
        abs_i64(
            edge_error_of(node, frames[node].offset_nanos, y, frames[y].offset_nanos, history(m, node, y).last().offset_nanos),
        ) as int
    } else {
        0
    }
}

/// Whether neighbour `y` has a frame (and so counts in the mean defect).
pub open spec fn defect_counted(frames: Map<NodeId, ChiralFrame>, y: NodeId) -> int {
    if frames.dom().contains(y) {
        1
    } else {
        0
    }
}

/// Total defect of `node` over its neighbours with frames.
pub open spec fn defect_total(
    frames: Map<NodeId, ChiralFrame>,
    m: Map<(NodeId, NodeId), Seq<crate::holonomy::twist::TwistIndex>>,
    node: NodeId,
) -> int {
    seq_sum(neighbor_list(m, node), |y: NodeId| defect_term(frames, m, node, y))
}

/// Number of neighbours of `node` with frames.
pub open spec fn defect_count(
    frames: Map<NodeId, ChiralFrame>,
    m: Map<(NodeId, NodeId), Seq<crate::holonomy::twist::TwistIndex>>,
    node: NodeId,
) -> int {
    seq_sum(neighbor_list(m, node), |y: NodeId| defect_counted(frames, y))
}

/// A node is defective when it has at least two neighbours and its mean defect over
/// the neighbours with frames (rounded down) exceeds the threshold.
pub open spec fn is_defective(
    frames: Map<NodeId, ChiralFrame>,
    m: Map<(NodeId, NodeId), Seq<crate::holonomy::twist::TwistIndex>>,
    node: NodeId,
    threshold: u64,
) -> bool {
    &&& neighbor_list(m, node).len() >= 2
    &&& defect_count(frames, m, node) > 0
    &&& defect_total(frames, m, node) / defect_count(frames, m, node) > threshold
}

/// Frame of `node` in the list, if any.
fn frame_of(nodes: &[(NodeId, ChiralFrame)], node: &NodeId) -> (r: Option<usize>)
    requires
        keys_distinct(nodes@),
    ensures
        match r {
            Some(i) => i < nodes@.len() && nodes@[i as int].0 == *node,
            None => !has_key(nodes@, *node),
        },
{
    let mut i: usize = 0;
    while i < nodes.len()
        invariant
            0 <= i <= nodes@.len(),
            forall|j: int| 0 <= j < i ==> (#[trigger] nodes@[j]).0 != *node,
        decreases nodes@.len() - i,
    {
        if nodes[i].0 == *node {
            return Some(i);
        }
        i = i + 1;
    }
    None
}

proof fn lemma_neighbor_list_exists(
    m: Map<(NodeId, NodeId), Seq<crate::holonomy::twist::TwistIndex>>,
    node: NodeId,
    s: Seq<NodeId>,
)
    requires
        s.no_duplicates(),
        forall|y: NodeId| s.contains(y) <==> is_neighbor(m, node, y),
    ensures
        neighbor_list(m, node).no_duplicates(),
        forall|y: NodeId| neighbor_list(m, node).contains(y) <==> s.contains(y),
{
}

/// Defect of `node` (with frame at index `at`) over its neighbour listing `ns`.
fn node_defect(nodes: &[(NodeId, ChiralFrame)], lut: &TwistLUT, at: usize, ns: &Vec<NodeId>) -> (r: (u64, u32))
    requires
        keys_distinct(nodes@),
        lut.wf(),
        at < nodes@.len(),
        ns@.no_duplicates(),
        forall|y: NodeId| ns@.contains(y) <==> is_neighbor(lut@, nodes@[at as int].0, y),
        seq_sum(ns@, |y: NodeId| defect_term(map_of(nodes@), lut@, nodes@[at as int].0, y)) <= u64::MAX,
        seq_sum(ns@, |y: NodeId| defect_counted(map_of(nodes@), y)) <= u32::MAX,
    ensures
        r.0 == seq_sum(ns@, |y: NodeId| defect_term(map_of(nodes@), lut@, nodes@[at as int].0, y)),
        r.1 == seq_sum(ns@, |y: NodeId| defect_counted(map_of(nodes@), y)),
{
    let node = nodes[at].0;
    let node_offset = nodes[at].1.offset_nanos;
    let ghost frames = map_of(nodes@);
    let ghost term = |y: NodeId| defect_term(frames, lut@, node, y);
    let ghost counted = |y: NodeId| defect_counted(frames, y);
    proof {
        lemma_map_of_at(nodes@, at as int);
        lemma_sum_prefix_bound(ns@, term, ns@.len() as int);
        lemma_sum_prefix_bound(ns@, counted, ns@.len() as int);
        assert(ns@.take(ns@.len() as int) =~= ns@);
    }
    let mut total: u64 = 0;
    let mut count: u32 = 0;
    let mut j: usize = 0;
    while j < ns.len()
        invariant
            keys_distinct(nodes@),
            lut.wf(),
            frames == map_of(nodes@),
            frames.dom().contains(node),
            frames[node].offset_nanos == node_offset,
            node == nodes@[at as int].0,
            term == (|y: NodeId| defect_term(frames, lut@, node, y)),
            counted == (|y: NodeId| defect_counted(frames, y)),
            forall|y: NodeId| ns@.contains(y) <==> is_neighbor(lut@, node, y),
            0 <= j <= ns@.len(),
            seq_sum(ns@, term) <= u64::MAX,
            seq_sum(ns@, counted) <= u32::MAX,
            forall|k: int| 0 <= k <= ns@.len() ==> #[trigger] seq_sum(ns@.take(k), term) <= seq_sum(ns@, term),
            forall|k: int| 0 <= k <= ns@.len() ==> #[trigger] seq_sum(ns@.take(k), counted) <= seq_sum(ns@, counted),
            total == seq_sum(ns@.take(j as int), term),
            count == seq_sum(ns@.take(j as int), counted),
        decreases ns@.len() - j,
    {
        let y = ns[j];
        proof {
            let t = ns@.take(j + 1);
            assert(t.drop_last() =~= ns@.take(j as int));
            assert(t.last() == y);
            assert(ns@.contains(y));
        }
        match lut.latest(node, y) {
            Some(twist) => {
                match frame_of(nodes, &y) {
                    Some(k) => {
                        proof {
                            lemma_map_of_at(nodes@, k as int);
                        }
                        let e = edge_error(node, node_offset, y, nodes[k].1.offset_nanos, twist.offset_nanos);
                        let mag = unsigned_abs(e);
                        assert(seq_sum(ns@.take(j + 1), term) <= seq_sum(ns@, term));
                        assert(seq_sum(ns@.take(j + 1), counted) <= seq_sum(ns@, counted));
                        total = total + mag;
                        count = count + 1;
                    },
                    None => {
                        assert(!frames.dom().contains(y));
                    },
                }
            },
            None => {
                proof {
                    lut.lemma_neighbor_has_edge(node, y);
                }
                assert(false);
            },
        }
        j = j + 1;
    }
    assert(ns@.take(ns@.len() as int) =~= ns@);
    (total, count)
}

proof fn lemma_sum_prefix_bound(s: Seq<NodeId>, f: spec_fn(NodeId) -> int, n: int)
    requires
        0 <= n <= s.len(),
        forall|y: NodeId| #[trigger] f(y) >= 0,
    ensures
        forall|k: int| 0 <= k <= n ==> #[trigger] seq_sum(s.take(k), f) <= seq_sum(s.take(n), f),
    decreases n,
{
    if n > 0 {
        lemma_sum_prefix_bound(s, f, n - 1);
        assert(s.take(n).drop_last() =~= s.take(n - 1));
    }
    if n == s.len() {
        assert(s.take(n) =~= s);
    }
}

/// The nodes whose mean defect towards their neighbours exceeds `threshold_nanos`:
/// broken or Byzantine clocks. Each reported once, in no particular order.
pub fn detect_defective_nodes(nodes: &[(NodeId, ChiralFrame)], lut: &TwistLUT, threshold_nanos: u64) -> (r: Vec<NodeId>)
    requires
        keys_distinct(nodes@),
        lut.wf(),
        forall|i: int|
            0 <= i < nodes@.len() ==> defect_total(map_of(nodes@), lut@, (#[trigger] nodes@[i]).0) <= u64::MAX
                && defect_count(map_of(nodes@), lut@, nodes@[i].0) <= u32::MAX,
    ensures
        r@.no_duplicates(),
        forall|x: NodeId|
            r@.contains(x) <==> (map_of(nodes@).dom().contains(x) && is_defective(
                map_of(nodes@),
                lut@,
                x,
                threshold_nanos,
            )),
{
    let ghost frames = map_of(nodes@);
    let mut defective: Vec<NodeId> = Vec::new();
    let mut i: usize = 0;
    while i < nodes.len()
        invariant
            keys_distinct(nodes@),
            lut.wf(),
            frames == map_of(nodes@),
            forall|i: int|
                0 <= i < nodes@.len() ==> defect_total(frames, lut@, (#[trigger] nodes@[i]).0) <= u64::MAX
                    && defect_count(frames, lut@, nodes@[i].0) <= u32::MAX,
            0 <= i <= nodes@.len(),
            defective@.no_duplicates(),
            forall|x: NodeId|
                defective@.contains(x) <==> (exists|j: int| 0 <= j < i && (#[trigger] nodes@[j]).0 == x
                    && is_defective(frames, lut@, x, threshold_nanos)),
        decreases nodes@.len() - i,
    {
        let node = nodes[i].0;
        let ns = lut.neighbors(node);
        let ghost term = |y: NodeId| defect_term(frames, lut@, node, y);
        let ghost counted = |y: NodeId| defect_counted(frames, y);
        proof {
            lemma_map_of_at(nodes@, i as int);
            lemma_neighbor_list_exists(lut@, node, ns@);
            lemma_sum_order_free(ns@, neighbor_list(lut@, node), term);
            lemma_sum_order_free(ns@, neighbor_list(lut@, node), counted);
            assert(defect_total(frames, lut@, node) == seq_sum(neighbor_list(lut@, node), term));
            assert(defect_count(frames, lut@, node) == seq_sum(neighbor_list(lut@, node), counted));
        }
        let mut flag = false;
        if ns.len() >= 2 {
            let (total, count) = node_defect(nodes, lut, i, &ns);
            if count > 0 && total / (count as u64) > threshold_nanos {
                flag = true;
            }
        }
        assert(flag == is_defective(frames, lut@, node, threshold_nanos));
        let ghost before = defective@;
        if flag {
            proof {
                if before.contains(node) {
                    let j = choose|j: int| 0 <= j < i && (#[trigger] nodes@[j]).0 == node && is_defective(
                        frames,
                        lut@,
                        node,
                        threshold_nanos,
                    );
                    assert(nodes@[j].0 != nodes@[i as int].0);
                }
            }
            defective.push(node);
            proof {
                assert forall|a: int, b: int| 0 <= a < b < defective@.len() implies defective@[a] != defective@[b] by {
                    if b == before.len() {
                        assert(defective@[a] == before[a]);
                        assert(before.contains(before[a]));
                    } else {
                        assert(defective@[a] == before[a] && defective@[b] == before[b]);
                    }
                }
            }
        }
        proof {
            assert forall|x: NodeId| defective@.contains(x) <==> (exists|j: int| 0 <= j < i + 1 && (#[trigger] nodes@[j]).0 == x
                && is_defective(frames, lut@, x, threshold_nanos)) by {
                if defective@.contains(x) {
                    if flag && x == node {
                        assert(nodes@[i as int].0 == x);
                    } else {
                        let q = choose|q: int| 0 <= q < defective@.len() && defective@[q] == x;
                        if flag && q == before.len() {
                        } else {
                            assert(before[q] == x);
                            assert(before.contains(x));
                        }
                    }
                }
                if exists|j: int| 0 <= j < i + 1 && (#[trigger] nodes@[j]).0 == x && is_defective(frames, lut@, x, threshold_nanos) {
                    let j = choose|j: int| 0 <= j < i + 1 && (#[trigger] nodes@[j]).0 == x && is_defective(
                        frames,
                        lut@,
                        x,
                        threshold_nanos,
                    );
                    if j < i {
                        assert(before.contains(x));
                        let q = choose|q: int| 0 <= q < before.len() && before[q] == x;
                        assert(defective@[q] == x);
                    } else {
                        assert(defective@[before.len() as int] == x);
                    }
                }
            }
        }
        i = i + 1;
    }
    proof {
        assert forall|x: NodeId| (exists|j: int| 0 <= j < nodes@.len() && (#[trigger] nodes@[j]).0 == x
            && is_defective(frames, lut@, x, threshold_nanos)) <==> (frames.dom().contains(x) && is_defective(
            frames,
            lut@,
            x,
            threshold_nanos,
        )) by {
            if frames.dom().contains(x) {
                let j = key_index(nodes@, x);
                assert(nodes@[j].0 == x);
            }
            if exists|j: int| 0 <= j < nodes@.len() && (#[trigger] nodes@[j]).0 == x {
                let j = choose|j: int| 0 <= j < nodes@.len() && (#[trigger] nodes@[j]).0 == x;
                lemma_map_of_at(nodes@, j);
            }
        }
    }
    defective
}


proof fn lemma_sum_at_most(s: Seq<NodeId>, f: spec_fn(NodeId) -> int, g: spec_fn(NodeId) -> int, c: int)
    requires
        forall|k: int| 0 <= k < s.len() ==> f(#[trigger] s[k]) <= c * g(s[k]),
    ensures
        seq_sum(s, f) <= c * seq_sum(s, g),
    decreases s.len(),
{
    if s.len() > 0 {
        let d = s.drop_last();
        assert forall|k: int| 0 <= k < d.len() implies f(#[trigger] d[k]) <= c * g(d[k]) by {
            assert(d[k] == s[k]);
        }
        lemma_sum_at_most(d, f, g, c);
        let a = seq_sum(d, f);
        let b = seq_sum(d, g);
        let x = f(s.last());
        let y = g(s.last());
        assert(x <= c * y);
        assert(a + x <= c * (b + y)) by (nonlinear_arith)
            requires
                a <= c * b,
                x <= c * y,
        ;
    }
}

proof fn lemma_sum_at_least(s: Seq<NodeId>, f: spec_fn(NodeId) -> int, g: spec_fn(NodeId) -> int, c: int)
    requires
        forall|k: int| 0 <= k < s.len() ==> f(#[trigger] s[k]) >= c * g(s[k]),
    ensures
        seq_sum(s, f) >= c * seq_sum(s, g),
    decreases s.len(),
{
    if s.len() > 0 {
        let d = s.drop_last();
        assert forall|k: int| 0 <= k < d.len() implies f(#[trigger] d[k]) >= c * g(d[k]) by {
            assert(d[k] == s[k]);
        }
        lemma_sum_at_least(d, f, g, c);
        let a = seq_sum(d, f);
        let b = seq_sum(d, g);
        let x = f(s.last());
        let y = g(s.last());
        assert(x >= c * y);
        assert(a + x >= c * (b + y)) by (nonlinear_arith)
            requires
                a >= c * b,
                x >= c * y,
        ;
    }
}

proof fn lemma_sum_ones(s: Seq<NodeId>, g: spec_fn(NodeId) -> int)
    requires
        forall|k: int| 0 <= k < s.len() ==> g(#[trigger] s[k]) == 1,
    ensures
        seq_sum(s, g) == s.len(),
    decreases s.len(),
{
    if s.len() > 0 {
        let d = s.drop_last();
        assert forall|k: int| 0 <= k < d.len() implies g(#[trigger] d[k]) == 1 by {
            assert(d[k] == s[k]);
        }
        lemma_sum_ones(d, g);
        assert(g(s[s.len() - 1]) == 1);
    }
}

/// Defect detection never reports a node whose defect towards each of its neighbours
/// that has a frame is at most the threshold: the mean over those neighbours cannot
/// exceed the largest of them, however many there are. (`ns` lists the node's
/// neighbours in the table, each once.)
pub proof fn lemma_small_defects_not_defective(
    frames: Map<NodeId, ChiralFrame>,
    m: Map<(NodeId, NodeId), Seq<crate::holonomy::twist::TwistIndex>>,
    node: NodeId,
    ns: Seq<NodeId>,
    threshold: u64,
)
    requires
        ns.no_duplicates(),
        forall|y: NodeId| ns.contains(y) <==> is_neighbor(m, node, y),
        forall|y: NodeId|
            #![trigger is_neighbor(m, node, y), frames.dom().contains(y)]
            is_neighbor(m, node, y) && frames.dom().contains(y) ==> abs_i64(
                edge_error_of(node, frames[node].offset_nanos, y, frames[y].offset_nanos, history(m, node, y).last().offset_nanos),
            ) <= threshold,
    ensures
        !is_defective(frames, m, node, threshold),
{
    lemma_neighbor_list_exists(m, node, ns);
    let l = neighbor_list(m, node);
    let term = |y: NodeId| defect_term(frames, m, node, y);
    let counted = |y: NodeId| defect_counted(frames, y);
    assert forall|k: int| 0 <= k < l.len() implies term(#[trigger] l[k]) <= threshold * counted(l[k]) by {
        assert(l.contains(l[k]));
        assert(is_neighbor(m, node, l[k]));
        if frames.dom().contains(l[k]) {
            assert(counted(l[k]) == 1);
        }
    }
    lemma_sum_at_most(l, term, counted, threshold as int);
    let total = defect_total(frames, m, node);
    let count = defect_count(frames, m, node);
    assert(total <= threshold * count);
    if count > 0 {
        vstd::arithmetic::div_mod::lemma_fundamental_div_mod(total, count);
        let q = total / count;
        let r = total % count;
        let t = threshold as int;
        assert(q <= t) by (nonlinear_arith)
            requires
                count > 0,
                total == count * q + r,
                0 <= r,
                total <= t * count,
        ;
    }
}

/// Defect detection reports a node with at least two neighbours, all with frames,
/// whose defect towards every one of them exceeds the threshold. (`ns` lists the
/// node's neighbours in the table, each once.)
pub proof fn lemma_large_defects_defective(
    frames: Map<NodeId, ChiralFrame>,
    m: Map<(NodeId, NodeId), Seq<crate::holonomy::twist::TwistIndex>>,
    node: NodeId,
    ns: Seq<NodeId>,
    threshold: u64,
)
    requires
        ns.no_duplicates(),
        forall|y: NodeId| ns.contains(y) <==> is_neighbor(m, node, y),
        ns.len() >= 2,
        forall|y: NodeId|
            is_neighbor(m, node, y) ==> #[trigger] frames.dom().contains(y) && abs_i64(
                edge_error_of(node, frames[node].offset_nanos, y, frames[y].offset_nanos, history(m, node, y).last().offset_nanos),
            ) > threshold,
    ensures
        is_defective(frames, m, node, threshold),
{
    lemma_neighbor_list_exists(m, node, ns);
    let l = neighbor_list(m, node);
    let term = |y: NodeId| defect_term(frames, m, node, y);
    let counted = |y: NodeId| defect_counted(frames, y);
    lemma_sum_order_free(ns, l, counted);
    assert forall|k: int| 0 <= k < l.len() implies term(#[trigger] l[k]) >= (threshold + 1) * counted(l[k]) by {
        assert(l.contains(l[k]));
        assert(is_neighbor(m, node, l[k]));
        assert(frames.dom().contains(l[k]));
    }
    assert forall|k: int| 0 <= k < l.len() implies counted(#[trigger] l[k]) == 1 by {
        assert(l.contains(l[k]));
        assert(is_neighbor(m, node, l[k]));
        assert(frames.dom().contains(l[k]));
    }
    lemma_sum_at_least(l, term, counted, threshold + 1);
    lemma_sum_ones(l, counted);
    let total = defect_total(frames, m, node);
    let count = defect_count(frames, m, node);
    assert(count == l.len());
    vstd::arithmetic::div_mod::lemma_fundamental_div_mod(total, count);
    let q = total / count;
    let r = total % count;
    let t = threshold as int;
    assert(q > t) by (nonlinear_arith)
        requires
            count > 0,
            total == count * q + r,
            r < count,
            total >= (t + 1) * count,
    ;
}


/// A node is reported exactly when it has at least two neighbours, at least one of them
/// with a frame, and its total defect over those with frames reaches the threshold plus
/// one, times their number: its mean defect (rounded down) exceeds the threshold.
pub proof fn lemma_defective_by_total(
    frames: Map<NodeId, ChiralFrame>,
    m: Map<(NodeId, NodeId), Seq<crate::holonomy::twist::TwistIndex>>,
    node: NodeId,
    threshold: u64,
)
    ensures
        is_defective(frames, m, node, threshold) <==> (neighbor_list(m, node).len() >= 2 && defect_count(
            frames,
            m,
            node,
        ) > 0 && defect_total(frames, m, node) >= (threshold + 1) * defect_count(frames, m, node)),
{
    let total = defect_total(frames, m, node);
    let count = defect_count(frames, m, node);
    if count > 0 {
        vstd::arithmetic::div_mod::lemma_fundamental_div_mod(total, count);
        let q = total / count;
        let r = total % count;
        let t = threshold as int;
        assert(q > t <==> total >= (t + 1) * count) by (nonlinear_arith)
            requires
                count > 0,
                total == count * q + r,
                0 <= r < count,
        ;
    }
}

} // verus!
