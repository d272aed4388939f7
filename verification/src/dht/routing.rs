use vstd::prelude::*;
use vstd::std_specs::bits::{axiom_u8_leading_zeros, u8_leading_zeros};

use crate::bytes::{
    bytes32_eq, bytes32_lt, lemma_lex_lt_asymmetric, lemma_lex_lt_irreflexive,
    lemma_lex_lt_total, lemma_lex_lt_transitive, lex_lt,
};
use crate::types::NodeId;

verus! {

/// Capacity of one bucket.
pub const K_BUCKET_SIZE: usize = 20;

/// Number of buckets: one per bit of the key space.
pub const KEY_BITS: usize = 256;

/// Byte-wise exclusive or of two equally long byte strings.
pub open spec fn xor_bytes(a: Seq<u8>, b: Seq<u8>) -> Seq<u8> {
    Seq::new(a.len(), |i: int| a[i] ^ b[i])
}

/// Number of leading zero bits of a big-endian byte string.
pub open spec fn leading_zero_bits(s: Seq<u8>) -> nat
    decreases s.len(),
{
    if s.len() == 0 {
        0
    } else if s[0] == 0 {
        8 + leading_zero_bits(s.drop_first())
    } else {
        u8_leading_zeros(s[0]) as nat
    }
}

/// Kademlia bucket of `remote` seen from `local`: 255 minus the length of the
/// common bit prefix, and 255 when the keys are equal.
pub open spec fn bucket_index_spec(local: Seq<u8>, remote: Seq<u8>) -> int {
    let lz = leading_zero_bits(xor_bytes(local, remote));
    if lz >= 256 {
        255
    } else {
        255 - lz
    }
}

/// Bucket of `node` in a table owned by `local`.
pub open spec fn bucket_of(local: [u8; 32], node: NodeId) -> int {
    bucket_index_spec(local@, node.0@)
}

/// XOR distance from `node` to `target`.
pub open spec fn distance(node: NodeId, target: [u8; 32]) -> Seq<u8> {
    xor_bytes(node.0@, target@)
}

/// A well-formed table: 256 buckets of at most `K_BUCKET_SIZE` distinct nodes, each
/// node in the bucket of its distance to the owner, and the owner in none.
pub open spec fn table_wf(t: Seq<Seq<NodeId>>, local: [u8; 32]) -> bool {
    &&& t.len() == KEY_BITS
    &&& forall|i: int| 0 <= i < t.len() ==> #[trigger] t[i].len() <= K_BUCKET_SIZE
    &&& forall|i: int| 0 <= i < t.len() ==> #[trigger] t[i].no_duplicates()
    &&& forall|i: int, n: NodeId|
        0 <= i < t.len() && #[trigger] t[i].contains(n) ==> bucket_of(local, n) == i && n.0
            != local
}

proof fn lemma_leading_zero_bits_bound(s: Seq<u8>)
    ensures
        leading_zero_bits(s) <= 8 * s.len(),
    decreases s.len(),
{
    if s.len() > 0 {
        lemma_leading_zero_bits_bound(s.drop_first());
        axiom_u8_leading_zeros(s[0]);
    }
}

proof fn lemma_leading_zero_bits_skip(s: Seq<u8>, i: int)
    requires
        0 <= i < s.len(),
        s[i] == 0,
    ensures
        leading_zero_bits(s.skip(i)) == 8 + leading_zero_bits(s.skip(i + 1)),
{
    assert(s.skip(i).drop_first() =~= s.skip(i + 1));
}

/// Byte-wise XOR of two keys.
pub fn xor_distance(a: &[u8; 32], b: &[u8; 32]) -> (r: [u8; 32])
    ensures
        r@ == xor_bytes(a@, b@),
{
    let mut result = [0u8; 32];
    let mut i: usize = 0;
    while i < 32
        invariant
            0 <= i <= 32,
            result@.len() == 32,
            forall|j: int| 0 <= j < i ==> result@[j] == a@[j] ^ b@[j],
        decreases 32 - i,
    {
        result[i] = a[i] ^ b[i];
        i = i + 1;
    }
    assert(result@ =~= xor_bytes(a@, b@));
    result
}

/// Number of leading zero bits of a key.
fn leading_zeros(distance: &[u8; 32]) -> (z: usize)
    ensures
        z == leading_zero_bits(distance@),
        z <= 256,
{
    let mut zeros: usize = 0;
    let mut i: usize = 0;
    assert(distance@.skip(0) =~= distance@);
    while i < 32
        invariant
            0 <= i <= 32,
            distance@.len() == 32,
            zeros == 8 * i,
            zeros + leading_zero_bits(distance@.skip(i as int)) == leading_zero_bits(distance@),
        decreases 32 - i,
    {
        let byte = distance[i];
        if byte == 0 {
            proof {
                lemma_leading_zero_bits_skip(distance@, i as int);
            }
            zeros = zeros + 8;
        } else {
            proof {
                axiom_u8_leading_zeros(byte);
                assert(distance@.skip(i as int)[0] == byte);
            }
            zeros = zeros + byte.leading_zeros() as usize;
            proof {
                lemma_leading_zero_bits_bound(distance@);
            }
            return zeros;
        }
        i = i + 1;
    }
    assert(distance@.skip(32).len() == 0);
    zeros
}

/// Bucket of `remote` in the table of `local`.
fn bucket_index(local: &[u8; 32], remote: &[u8; 32]) -> (b: usize)
    ensures
        b == bucket_index_spec(local@, remote@),
        b < KEY_BITS,
{
    let dist = xor_distance(local, remote);
    let lz = leading_zeros(&dist);
    if lz >= KEY_BITS {
        KEY_BITS - 1
    } else {
        KEY_BITS - 1 - lz
    }
}


/// Predicate "is not `x`", as `Vec::retain` uses it to drop a node.
pub open spec fn not_node(x: NodeId) -> spec_fn(NodeId) -> bool {
    |n: NodeId| n != x
}

proof fn lemma_filter_no_duplicates<A>(s: Seq<A>, p: spec_fn(A) -> bool)
    requires
        s.no_duplicates(),
    ensures
        s.filter(p).no_duplicates(),
    decreases s.len(),
{
    reveal(Seq::filter);
    if s.len() > 0 {
        let d = s.drop_last();
        assert(d.no_duplicates());
        lemma_filter_no_duplicates(d, p);
        if p(s.last()) {
            if d.filter(p).contains(s.last()) {
                d.lemma_filter_contains_rev(p, s.last());
                let k = choose|k: int| 0 <= k < d.len() && d[k] == s.last();
                assert(s[k] == s[s.len() - 1]);
            }
        }
    }
}

proof fn lemma_filter_drops_present<A>(s: Seq<A>, x: A)
    requires
        s.contains(x),
    ensures
        s.filter(|n: A| n != x).len() < s.len(),
    decreases s.len(),
{
    reveal(Seq::filter);
    let p = |n: A| n != x;
    let d = s.drop_last();
    broadcast use vstd::seq_lib::group_filter_ensures;
    if s.last() == x {
        assert(d.filter(p).len() <= d.len());
    } else {
        let k = choose|k: int| 0 <= k < s.len() && s[k] == x;
        assert(d[k] == x);
        lemma_filter_drops_present(d, x);
    }
}

proof fn lemma_flatten_take_push(t: Seq<Seq<NodeId>>, i: int)
    requires
        0 <= i < t.len(),
    ensures
        t.take(i + 1).flatten() == t.take(i).flatten() + t[i],
{
    assert(t.take(i + 1) =~= t.take(i).push(t[i]));
    t.take(i).lemma_flatten_push(t[i]);
}

/// Whether `n` occurs in `v`.
fn vec_contains(v: &Vec<NodeId>, n: &NodeId) -> (r: bool)
    ensures
        r == v@.contains(*n),
{
    let mut i: usize = 0;
    while i < v.len()
        invariant
            0 <= i <= v@.len(),
            forall|j: int| 0 <= j < i ==> v@[j] != *n,
        decreases v@.len() - i,
    {
        if v[i] == *n {
            assert(v@[i as int] == *n);
            return true;
        }
        i = i + 1;
    }
    false
}

/// `v` without the occurrences of `n`, order kept (what `retain` leaves).
fn without_node(v: &Vec<NodeId>, n: &NodeId) -> (r: Vec<NodeId>)
    ensures
        r@ == v@.filter(not_node(*n)),
{
    let mut r: Vec<NodeId> = Vec::new();
    let mut i: usize = 0;
    while i < v.len()
        invariant
            0 <= i <= v@.len(),
            r@ == v@.take(i as int).filter(not_node(*n)),
        decreases v@.len() - i,
    {
        proof {
            assert(v@.take(i + 1) =~= v@.take(i as int).push(v@[i as int]));
            v@.take(i as int).lemma_filter_push(v@[i as int], not_node(*n));
        }
        if !(v[i] == *n) {
            r.push(v[i]);
        }
        i = i + 1;
    }
    assert(v@.take(v@.len() as int) =~= v@);
    r
}

/// A copy of `v`.
fn copy_nodes(v: &Vec<NodeId>) -> (r: Vec<NodeId>)
    ensures
        r@ == v@,
{
    let mut r: Vec<NodeId> = Vec::new();
    let mut i: usize = 0;
    while i < v.len()
        invariant
            0 <= i <= v@.len(),
            r@ == v@.take(i as int),
        decreases v@.len() - i,
    {
        assert(v@.take(i + 1) =~= v@.take(i as int).push(v@[i as int]));
        r.push(v[i]);
        i = i + 1;
    }
    assert(v@.take(v@.len() as int) =~= v@);
    r
}


/// Entries `(node, distance)` ordered by strictly increasing distance.
pub open spec fn entries_sorted(s: Seq<(NodeId, [u8; 32])>) -> bool {
    forall|a: int, b: int| 0 <= a < b < s.len() ==> lex_lt((#[trigger] s[a]).1@, (#[trigger] s[b]).1@)
}

/// `r` is the answer to a closest-nodes query over `all`: the `count` nodes nearest to
/// `target` (all of them if there are fewer), nearest first.
pub open spec fn closest_first(all: Seq<NodeId>, target: [u8; 32], count: nat, r: Seq<NodeId>) -> bool {
    &&& r.len() == (if count < all.len() { count } else { all.len() })
    &&& forall|i: int| 0 <= i < r.len() ==> all.contains(#[trigger] r[i])
    &&& forall|i: int, j: int|
        0 <= i < j < r.len() ==> lex_lt(distance(#[trigger] r[i], target), distance(#[trigger] r[j], target))
    &&& forall|n: NodeId, i: int|
        #![trigger all.contains(n), r[i]]
        all.contains(n) && !r.contains(n) && 0 <= i < r.len() ==> lex_lt(distance(r[i], target), distance(n, target))
}

/// Distinct nodes are at distinct distances from any target.
pub proof fn lemma_distance_injective(a: NodeId, b: NodeId, target: [u8; 32])
    requires
        distance(a, target) == distance(b, target),
    ensures
        a == b,
{
    assert forall|i: int| 0 <= i < 32 implies a.0@[i] == b.0@[i] by {
        let x = a.0@[i];
        let y = b.0@[i];
        let z = target@[i];
        assert(distance(a, target)[i] == x ^ z);
        assert(distance(b, target)[i] == y ^ z);
        assert((x ^ z) == (y ^ z) ==> x == y) by (bit_vector);
    }
    assert(a.0@ =~= b.0@);
    assert(a.0 =~= b.0);
}

/// In a well-formed table no node occurs twice, and the first `i` buckets hold only
/// nodes whose bucket index is below `i`.
proof fn lemma_flatten_prefix_wf(t: Seq<Seq<NodeId>>, local: [u8; 32], i: int)
    requires
        table_wf(t, local),
        0 <= i <= t.len(),
    ensures
        t.take(i).flatten().no_duplicates(),
        forall|n: NodeId| #[trigger] t.take(i).flatten().contains(n) ==> bucket_of(local, n) < i,
    decreases i,
{
    if i == 0 {
        assert(t.take(0) =~= Seq::<Seq<NodeId>>::empty());
        assert(t.take(0).flatten() =~= Seq::<NodeId>::empty());
    } else {
        lemma_flatten_prefix_wf(t, local, i - 1);
        lemma_flatten_take_push(t, i - 1);
        let f = t.take(i - 1).flatten();
        let b = t[i - 1];
        let g = f + b;
        assert(b.no_duplicates());
        assert forall|n: NodeId| #[trigger] g.contains(n) implies bucket_of(local, n) < i by {
            let k = choose|k: int| 0 <= k < g.len() && g[k] == n;
            if k < f.len() {
                assert(f[k] == n);
                assert(f.contains(n));
            } else {
                assert(b[k - f.len()] == n);
                assert(b.contains(n));
            }
        }
        assert forall|x: int, y: int| 0 <= x < y < g.len() implies g[x] != g[y] by {
            if y < f.len() {
                assert(g[x] == f[x] && g[y] == f[y]);
            } else if x >= f.len() {
                assert(g[x] == b[x - f.len()] && g[y] == b[y - f.len()]);
            } else {
                assert(g[x] == f[x]);
                assert(f.contains(g[x]));
                assert(g[y] == b[y - f.len()]);
                assert(b.contains(g[y]));
            }
        }
    }
}

/// Every node of a well-formed table is listed once.
pub proof fn lemma_all_nodes_distinct(t: Seq<Seq<NodeId>>, local: [u8; 32])
    requires
        table_wf(t, local),
    ensures
        all_of(t).no_duplicates(),
{
    lemma_flatten_prefix_wf(t, local, t.len() as int);
    assert(t.take(t.len() as int) =~= t);
}

/// Inserting an entry at the place where it belongs keeps the order.
proof fn lemma_sorted_insert(s: Seq<(NodeId, [u8; 32])>, pos: int, e: (NodeId, [u8; 32]))
    requires
        entries_sorted(s),
        0 <= pos <= s.len(),
        forall|j: int| 0 <= j < pos ==> lex_lt((#[trigger] s[j]).1@, e.1@),
        pos < s.len() ==> lex_lt(e.1@, s[pos].1@),
    ensures
        entries_sorted(s.insert(pos, e)),
{
    s.insert_ensures(pos, e);
    let u = s.insert(pos, e);
    assert forall|a: int, b: int| 0 <= a < b < u.len() implies lex_lt((#[trigger] u[a]).1@, (#[trigger] u[b]).1@) by {
        if b < pos {
            assert(u[a] == s[a] && u[b] == s[b]);
        } else if b == pos {
            assert(u[a] == s[a]);
        } else if a < pos {
            assert(u[a] == s[a] && u[b] == s[b - 1]);
        } else if a == pos {
            assert(u[b] == s[b - 1]);
            if b - 1 > pos {
                lemma_lex_lt_transitive(e.1@, s[pos].1@, s[b - 1].1@);
            }
        } else {
            assert(u[a] == s[a - 1] && u[b] == s[b - 1]);
        }
    }
}

/// Every entry among the first `k` of `s` is one of `all[..k]`.
#[verifier::opaque]
spec fn entries_from(all: Seq<NodeId>, k: int, s: Seq<(NodeId, [u8; 32])>) -> bool {
    forall|j: int| 0 <= j < k ==> exists|m: int| 0 <= m < k && all[m] == (#[trigger] s[j]).0
}

/// Every node of `all[..k]` has an entry among the first `k` of `s`.
#[verifier::opaque]
spec fn entries_cover(all: Seq<NodeId>, k: int, s: Seq<(NodeId, [u8; 32])>) -> bool {
    forall|m: int| 0 <= m < k ==> exists|j: int| 0 <= j < k && s[j].0 == #[trigger] all[m]
}

/// Each entry carries the distance of its node to `target`.
spec fn entries_measured(s: Seq<(NodeId, [u8; 32])>, target: [u8; 32]) -> bool {
    forall|j: int| 0 <= j < s.len() ==> (#[trigger] s[j]).1@ == distance(s[j].0, target)
}

/// State of the insertion sort in `find_closest`: `s` holds the entries of `all[..k]`,
/// each with its distance to `target`, nearest first.
spec fn sort_state(all: Seq<NodeId>, target: [u8; 32], k: int, s: Seq<(NodeId, [u8; 32])>) -> bool {
    &&& s.len() == k
    &&& entries_sorted(s)
    &&& entries_measured(s, target)
    &&& entries_from(all, k, s)
    &&& entries_cover(all, k, s)
}

proof fn lemma_sort_state_empty(all: Seq<NodeId>, target: [u8; 32])
    ensures
        sort_state(all, target, 0, Seq::empty()),
{
    reveal(entries_from);
    reveal(entries_cover);
}

/// An entry of the state: its distance, and it is not the node about to be inserted.
proof fn lemma_sort_state_entry(
    all: Seq<NodeId>,
    target: [u8; 32],
    k: int,
    s: Seq<(NodeId, [u8; 32])>,
    j: int,
)
    requires
        sort_state(all, target, k, s),
        all.no_duplicates(),
        0 <= j < k < all.len(),
    ensures
        s.len() == k,
        s[j].1@ == distance(s[j].0, target),
        s[j].0 != all[k],
{
    reveal(entries_from);
    let m = choose|m: int| 0 <= m < k && all[m] == s[j].0;
    assert(all[m] != all[k]);
}

proof fn lemma_insert_distances(s: Seq<(NodeId, [u8; 32])>, pos: int, e: (NodeId, [u8; 32]), target: [u8; 32])
    requires
        0 <= pos <= s.len(),
        e.1@ == distance(e.0, target),
        entries_measured(s, target),
    ensures
        entries_measured(s.insert(pos, e), target),
{
    s.insert_ensures(pos, e);
    let u = s.insert(pos, e);
    assert forall|j: int| 0 <= j < s.len() + 1 implies (#[trigger] u[j]).1@ == distance(u[j].0, target) by {
        if j > pos {
            assert(u[j] == s[j - 1]);
        }
    }
}

proof fn lemma_insert_origins(all: Seq<NodeId>, s: Seq<(NodeId, [u8; 32])>, pos: int, e: (NodeId, [u8; 32]), k: int)
    requires
        s.len() == k,
        0 <= pos <= k < all.len(),
        e.0 == all[k],
        entries_from(all, k, s),
    ensures
        entries_from(all, k + 1, s.insert(pos, e)),
{
    reveal(entries_from);
    s.insert_ensures(pos, e);
    let u = s.insert(pos, e);
    assert forall|j: int| 0 <= j < k + 1 implies exists|m: int| 0 <= m < k + 1 && all[m] == (#[trigger] u[j]).0 by {
        if j < pos {
            let m = choose|m: int| 0 <= m < k && all[m] == s[j].0;
            assert(all[m] == u[j].0);
        } else if j == pos {
            assert(all[k] == u[j].0);
        } else {
            assert(u[j] == s[j - 1]);
            let m = choose|m: int| 0 <= m < k && all[m] == s[j - 1].0;
            assert(all[m] == u[j].0);
        }
    }
}

proof fn lemma_insert_places(all: Seq<NodeId>, s: Seq<(NodeId, [u8; 32])>, pos: int, e: (NodeId, [u8; 32]), k: int)
    requires
        s.len() == k,
        0 <= pos <= k < all.len(),
        e.0 == all[k],
        entries_cover(all, k, s),
    ensures
        entries_cover(all, k + 1, s.insert(pos, e)),
{
    reveal(entries_cover);
    s.insert_ensures(pos, e);
    let u = s.insert(pos, e);
    assert forall|m: int| 0 <= m < k + 1 implies exists|j: int| 0 <= j < k + 1 && u[j].0 == #[trigger] all[m] by {
        if m == k {
            assert(u[pos].0 == all[m]);
        } else {
            let j0 = choose|j: int| 0 <= j < k && s[j].0 == all[m];
            if j0 < pos {
                assert(u[j0].0 == all[m]);
            } else {
                assert(u[j0 + 1] == s[j0]);
                assert(u[j0 + 1].0 == all[m]);
            }
        }
    }
}

/// One insertion step keeps the state.
proof fn lemma_sort_state_step(
    all: Seq<NodeId>,
    target: [u8; 32],
    k: int,
    s: Seq<(NodeId, [u8; 32])>,
    pos: int,
    e: (NodeId, [u8; 32]),
)
    requires
        sort_state(all, target, k, s),
        0 <= k < all.len(),
        0 <= pos <= k,
        e.0 == all[k],
        e.1@ == distance(e.0, target),
        forall|j: int| 0 <= j < pos ==> lex_lt((#[trigger] s[j]).1@, e.1@),
        pos < k ==> lex_lt(e.1@, s[pos].1@),
    ensures
        sort_state(all, target, k + 1, s.insert(pos, e)),
{
    s.insert_ensures(pos, e);
    lemma_sorted_insert(s, pos, e);
    lemma_insert_distances(s, pos, e, target);
    lemma_insert_origins(all, s, pos, e, k);
    lemma_insert_places(all, s, pos, e, k);
}

/// Once every node is sorted, the first `count` entries answer the query.
proof fn lemma_sort_state_answer(
    all: Seq<NodeId>,
    target: [u8; 32],
    s: Seq<(NodeId, [u8; 32])>,
    count: nat,
    r: Seq<NodeId>,
)
    requires
        sort_state(all, target, all.len() as int, s),
        r.len() == (if count < all.len() { count } else { all.len() }),
        forall|j: int| 0 <= j < r.len() ==> r[j] == (#[trigger] s[j]).0,
    ensures
        closest_first(all, target, count, r),
{
    reveal(entries_from);
    reveal(entries_cover);
    let k = all.len() as int;
    assert forall|x: int| 0 <= x < r.len() implies all.contains(#[trigger] r[x]) by {
        let m = choose|m: int| 0 <= m < k && all[m] == s[x].0;
        assert(all[m] == r[x]);
    }
    assert forall|x: int, y: int| 0 <= x < y < r.len() implies lex_lt(
        distance(#[trigger] r[x], target),
        distance(#[trigger] r[y], target),
    ) by {
        assert(s[x].1@ == distance(s[x].0, target));
        assert(s[y].1@ == distance(s[y].0, target));
    }
    assert forall|nn: NodeId, x: int|
        #![trigger all.contains(nn), r[x]]
        all.contains(nn) && !r.contains(nn) && 0 <= x < r.len() implies lex_lt(
        distance(r[x], target),
        distance(nn, target),
    ) by {
        let m = choose|m: int| 0 <= m < all.len() && all[m] == nn;
        let j = choose|j: int| 0 <= j < k && s[j].0 == all[m];
        if j < r.len() {
            assert(r[j] == nn);
        }
        assert(s[x].1@ == distance(s[x].0, target));
        assert(s[j].1@ == distance(s[j].0, target));
    }
}

/// Kademlia-style routing table; each DHT layer has one with its own key space.
#[derive(Debug)]
pub struct RoutingTable {
    local_id: [u8; 32],
    buckets: Vec<Vec<NodeId>>,
}

impl View for RoutingTable {
    type V = Seq<Seq<NodeId>>;

    closed spec fn view(&self) -> Seq<Seq<NodeId>> {
        self.buckets@.map_values(|b: Vec<NodeId>| b@)
    }
}

/// Concatenation of the buckets, bucket 0 first.
pub open spec fn all_of(t: Seq<Seq<NodeId>>) -> Seq<NodeId> {
    t.flatten()
}

/// Total number of nodes in the buckets.
pub open spec fn count_of(t: Seq<Seq<NodeId>>) -> nat {
    t.flatten().len()
}

/// What inserting `node` into the buckets `t` of the owner `local` does: the owner is
/// refused; a present node moves to the back of its bucket; a new node joins the back
/// of its bucket when there is room, and is refused otherwise.
pub open spec fn inserted(t: Seq<Seq<NodeId>>, local: [u8; 32], node: NodeId, added: bool, r: Seq<Seq<NodeId>>) -> bool {
    let i = bucket_of(local, node);
    if node.0 == local {
        !added && r == t
    } else if t[i].contains(node) {
        added && r == t.update(i, t[i].filter(not_node(node)).push(node))
    } else if t[i].len() < K_BUCKET_SIZE {
        added && r == t.update(i, t[i].push(node))
    } else {
        !added && r == t
    }
}

proof fn lemma_flatten_update(t: Seq<Seq<NodeId>>, i: int, x: Seq<NodeId>)
    requires
        0 <= i < t.len(),
    ensures
        t.update(i, x).flatten() == t.take(i).flatten() + x + t.skip(i + 1).flatten(),
        t.flatten() == t.take(i).flatten() + t[i] + t.skip(i + 1).flatten(),
{
    assert(t.update(i, x) =~= t.take(i).push(x) + t.skip(i + 1));
    assert(t =~= t.take(i).push(t[i]) + t.skip(i + 1));
    vstd::seq_lib::lemma_flatten_concat(t.take(i).push(x), t.skip(i + 1));
    vstd::seq_lib::lemma_flatten_concat(t.take(i).push(t[i]), t.skip(i + 1));
    t.take(i).lemma_flatten_push(x);
    t.take(i).lemma_flatten_push(t[i]);
}

proof fn lemma_flatten_member(t: Seq<Seq<NodeId>>, n: NodeId)
    requires
        t.flatten().contains(n),
    ensures
        exists|j: int| 0 <= j < t.len() && #[trigger] t[j].contains(n),
    decreases t.len(),
{
    broadcast use vstd::seq_lib::group_seq_properties;

    if t.len() > 0 {
        let rest = t.drop_first();
        assert(t.flatten() == t[0] + rest.flatten());
        if t[0].contains(n) {
        } else {
            assert(rest.flatten().contains(n));
            lemma_flatten_member(rest, n);
            let j = choose|j: int| 0 <= j < rest.len() && #[trigger] rest[j].contains(n);
            assert(t[j + 1] == rest[j]);
        }
    }
}

/// Inserting into a well-formed table: an accepted node is in the table afterwards
/// and nothing else changes in the set of nodes, so the count rises by one exactly when
/// the node is new; a refused node leaves the table as it was.
pub proof fn lemma_insert_node_set(t: Seq<Seq<NodeId>>, local: [u8; 32], node: NodeId, added: bool, r: Seq<Seq<NodeId>>)
    requires
        table_wf(t, local),
        table_wf(r, local),
        inserted(t, local, node, added, r),
    ensures
        added ==> all_of(r).to_set() == all_of(t).to_set().insert(node),
        added ==> count_of(r) == count_of(t) + (if all_of(t).contains(node) {
            0int
        } else {
            1int
        }),
        !added ==> r == t,
{
    broadcast use vstd::seq_lib::group_seq_properties, vstd::seq_lib::group_filter_ensures;

    if added {
        let i = bucket_of(local, node);
        lemma_bucket_in_range(local@, node.0@);
        let x = r[i];
        assert(r == t.update(i, x));
        lemma_flatten_update(t, i, x);
        let a = t.take(i).flatten();
        let c = t.skip(i + 1).flatten();
        assert(x.contains(node)) by {
            assert(x[x.len() - 1] == node);
        }
        assert forall|n: NodeId| x.contains(n) <==> (t[i].contains(n) || n == node) by {
            if t[i].contains(node) {
                let p = not_node(node);
                assert(x == t[i].filter(p).push(node));
                if t[i].contains(n) && n != node {
                    let k = choose|k: int| 0 <= k < t[i].len() && t[i][k] == n;
                    t[i].lemma_filter_contains(p, k);
                }
                if t[i].filter(p).contains(n) {
                    t[i].lemma_filter_contains_rev(p, n);
                }
            }
        }
        assert(all_of(r) == a + x + c);
        assert(all_of(t) == a + t[i] + c);
        assert(all_of(r).to_set() =~= all_of(t).to_set().insert(node));
        assert(all_of(t).contains(node) == t[i].contains(node)) by {
            if all_of(t).contains(node) && !t[i].contains(node) {
                lemma_flatten_member(t, node);
            }
        }
        lemma_all_nodes_distinct(t, local);
        lemma_all_nodes_distinct(r, local);
        all_of(t).unique_seq_to_set();
        all_of(r).unique_seq_to_set();
    }
}

/// Predicate "lies in bucket `i` of the owner `local`".
pub open spec fn in_bucket(local: [u8; 32], i: int) -> spec_fn(NodeId) -> bool {
    |n: NodeId| bucket_of(local, n) == i
}

proof fn lemma_filter_none<A>(s: Seq<A>, p: spec_fn(A) -> bool)
    requires
        forall|k: int| 0 <= k < s.len() ==> !p(#[trigger] s[k]),
    ensures
        s.filter(p) == Seq::<A>::empty(),
    decreases s.len(),
{
    reveal(Seq::filter);
    if s.len() > 0 {
        let d = s.drop_last();
        assert forall|k: int| 0 <= k < d.len() implies !p(#[trigger] d[k]) by {
            assert(d[k] == s[k]);
        }
        lemma_filter_none(d, p);
        assert(!p(s[s.len() - 1]));
    }
    assert(s.filter(p) =~= Seq::<A>::empty());
}

proof fn lemma_filter_all<A>(s: Seq<A>, p: spec_fn(A) -> bool)
    requires
        forall|k: int| 0 <= k < s.len() ==> p(#[trigger] s[k]),
    ensures
        s.filter(p) == s,
    decreases s.len(),
{
    reveal(Seq::filter);
    if s.len() > 0 {
        let d = s.drop_last();
        assert forall|k: int| 0 <= k < d.len() implies p(#[trigger] d[k]) by {
            assert(d[k] == s[k]);
        }
        lemma_filter_all(d, p);
        assert(p(s[s.len() - 1]));
        assert(s =~= d.push(s[s.len() - 1]));
    }
    assert(s.filter(p) =~= s);
}

proof fn lemma_filter_flatten(t: Seq<Seq<NodeId>>, p: spec_fn(NodeId) -> bool)
    ensures
        t.map_values(|b: Seq<NodeId>| b.filter(p)).flatten() == t.flatten().filter(p),
    decreases t.len(),
{
    broadcast use vstd::seq_lib::group_seq_lib_default;

    let m = t.map_values(|b: Seq<NodeId>| b.filter(p));
    if t.len() == 0 {
        assert(m.flatten() =~= Seq::<NodeId>::empty());
        assert(t.flatten().filter(p) =~= Seq::<NodeId>::empty()) by {
            reveal(Seq::filter);
        }
    } else {
        let rest = t.drop_first();
        assert(m.drop_first() =~= rest.map_values(|b: Seq<NodeId>| b.filter(p)));
        lemma_filter_flatten(rest, p);
        assert(t.flatten() == t[0] + rest.flatten());
        assert(m.flatten() == m[0] + m.drop_first().flatten());
        assert((t[0] + rest.flatten()).filter(p) == t[0].filter(p) + rest.flatten().filter(p));
    }
}

proof fn lemma_filter_drops_one(s: Seq<NodeId>, x: NodeId)
    requires
        s.no_duplicates(),
    ensures
        s.filter(not_node(x)).len() == s.len() - (if s.contains(x) {
            1int
        } else {
            0int
        }),
    decreases s.len(),
{
    reveal(Seq::filter);
    if s.len() > 0 {
        let d = s.drop_last();
        assert(d.no_duplicates());
        lemma_filter_drops_one(d, x);
        if s.last() == x {
            assert(!d.contains(x)) by {
                if d.contains(x) {
                    let k = choose|k: int| 0 <= k < d.len() && d[k] == x;
                    assert(s[k] == s[s.len() - 1]);
                }
            }
            assert(s.contains(x)) by {
                assert(s[s.len() - 1] == x);
            }
        } else {
            assert(s.contains(x) == d.contains(x)) by {
                if s.contains(x) {
                    let k = choose|k: int| 0 <= k < s.len() && s[k] == x;
                    assert(k < s.len() - 1);
                    assert(d[k] == x);
                }
                if d.contains(x) {
                    let k = choose|k: int| 0 <= k < d.len() && d[k] == x;
                    assert(s[k] == x);
                }
            }
        }
    }
}

/// In a well-formed table, the nodes of bucket `i` among all nodes are exactly that
/// bucket, in its order.
pub proof fn lemma_bucket_members(t: Seq<Seq<NodeId>>, local: [u8; 32], i: int)
    requires
        table_wf(t, local),
        0 <= i < t.len(),
    ensures
        all_of(t).filter(in_bucket(local, i)) == t[i],
{
    broadcast use vstd::seq_lib::group_seq_lib_default;

    let p = in_bucket(local, i);
    lemma_flatten_update(t, i, t[i]);
    let a = t.take(i).flatten();
    let c = t.skip(i + 1).flatten();
    lemma_flatten_prefix_wf(t, local, i);
    assert forall|k: int| 0 <= k < a.len() implies !p(#[trigger] a[k]) by {
        assert(a.contains(a[k]));
    }
    lemma_filter_none(a, p);
    assert forall|k: int| 0 <= k < c.len() implies !p(#[trigger] c[k]) by {
        let n = c[k];
        assert(c.contains(n));
        lemma_flatten_member(t.skip(i + 1), n);
        let j = choose|j: int| 0 <= j < t.skip(i + 1).len() && #[trigger] t.skip(i + 1)[j].contains(n);
        assert(t[i + 1 + j].contains(n));
    }
    lemma_filter_none(c, p);
    assert forall|k: int| 0 <= k < t[i].len() implies p(#[trigger] t[i][k]) by {
        assert(t[i].contains(t[i][k]));
    }
    lemma_filter_all(t[i], p);
    assert(all_of(t) == a + t[i] + c);
    assert((a + t[i] + c).filter(p) == (a + t[i]).filter(p) + c.filter(p));
    assert((a + t[i]).filter(p) == a.filter(p) + t[i].filter(p));
    assert(all_of(t).filter(p) =~= t[i]);
}

/// Inserting into a well-formed table over all its nodes: a node other than the owner
/// is accepted exactly when it is already a node or fewer than `K_BUCKET_SIZE` nodes
/// share its bucket.
pub proof fn lemma_insert_accepts(t: Seq<Seq<NodeId>>, local: [u8; 32], node: NodeId, added: bool, r: Seq<Seq<NodeId>>)
    requires
        table_wf(t, local),
        inserted(t, local, node, added, r),
    ensures
        added == (node.0 != local && (all_of(t).contains(node) || all_of(t).filter(
            in_bucket(local, bucket_of(local, node)),
        ).len() < K_BUCKET_SIZE)),
{
    broadcast use vstd::seq_lib::group_seq_properties;

    let i = bucket_of(local, node);
    lemma_bucket_in_range(local@, node.0@);
    lemma_bucket_members(t, local, i);
    lemma_flatten_update(t, i, t[i]);
    if all_of(t).contains(node) && !t[i].contains(node) {
        lemma_flatten_member(t, node);
    }
    if node.0 == local && all_of(t).contains(node) {
        lemma_flatten_member(t, node);
    }
}

/// Removing a node from a well-formed table: the list of all nodes keeps its order
/// without that node, and the count drops by one exactly when the node was there.
pub proof fn lemma_remove_node_list(t: Seq<Seq<NodeId>>, local: [u8; 32], node: NodeId)
    requires
        table_wf(t, local),
    ensures
        all_of(t.map_values(|b: Seq<NodeId>| b.filter(not_node(node)))) == all_of(t).filter(not_node(node)),
        !all_of(t.map_values(|b: Seq<NodeId>| b.filter(not_node(node)))).contains(node),
        count_of(t.map_values(|b: Seq<NodeId>| b.filter(not_node(node)))) == count_of(t) - (if all_of(t).contains(
            node,
        ) {
            1int
        } else {
            0int
        }),
{
    broadcast use vstd::seq_lib::group_filter_ensures;

    lemma_filter_flatten(t, not_node(node));
    lemma_all_nodes_distinct(t, local);
    lemma_filter_drops_one(all_of(t), node);
    let f = all_of(t).filter(not_node(node));
    if f.contains(node) {
        let k = choose|k: int| 0 <= k < f.len() && f[k] == node;
        assert(not_node(node)(f[k]));
    }
}

impl RoutingTable {
    /// The key of the table's owner.
    pub closed spec fn local(&self) -> [u8; 32] {
        self.local_id
    }

    /// The table is well formed.
    pub open spec fn wf(&self) -> bool {
        table_wf(self@, self.local())
    }

    /// An empty table for `local_id`: 256 empty buckets.
    pub fn new(local_id: [u8; 32]) -> (t: Self)
        ensures
            t.wf(),
            t.local() == local_id,
            t@ == Seq::new(KEY_BITS as nat, |i: int| Seq::<NodeId>::empty()),
    {
        let mut buckets: Vec<Vec<NodeId>> = Vec::new();
        let mut i: usize = 0;
        while i < KEY_BITS
            invariant
                0 <= i <= KEY_BITS,
                buckets@.len() == i,
                forall|j: int| 0 <= j < i ==> (#[trigger] buckets@[j])@ == Seq::<NodeId>::empty(),
            decreases KEY_BITS - i,
        {
            buckets.push(Vec::new());
            i = i + 1;
        }
        let t = RoutingTable { local_id, buckets };
        assert(t@ =~= Seq::new(KEY_BITS as nat, |i: int| Seq::<NodeId>::empty()));
        t
    }

    /// Insert `node` (or refresh it as most recently seen). Returns whether the node
    /// is in the table afterwards: the owner itself and nodes of a full bucket are refused.
    pub fn insert(&mut self, node: NodeId) -> (added: bool)
        requires
            old(self).wf(),
        ensures
            final(self).wf(),
            final(self).local() == old(self).local(),
            inserted(old(self)@, old(self).local(), node, added, final(self)@),
    {
        if bytes32_eq(&node.0, &self.local_id) {
            return false;
        }
        let idx = bucket_index(&self.local_id, &node.0);
        let ghost t = self@;
        let ghost local = self.local_id;
        let ghost i = idx as int;
        assert(self.buckets@[i]@ == t[i]);
        if vec_contains(&self.buckets[idx], &node) {
            let mut nb = without_node(&self.buckets[idx], &node);
            nb.push(node);
            self.buckets.set(idx, nb);
            proof {
                let f = t[i].filter(not_node(node));
                lemma_filter_drops_present(t[i], node);
                assert(not_node(node) == (|n: NodeId| n != node));
                lemma_filter_no_duplicates(t[i], not_node(node));
                broadcast use vstd::seq_lib::group_filter_ensures;
                if f.contains(node) {
                    let k = choose|k: int| 0 <= k < f.len() && f[k] == node;
                    assert(not_node(node)(f[k]));
                }
                assert(self@ =~= t.update(i, f.push(node)));
                assert forall|b: int, n: NodeId| 0 <= b < self@.len() && #[trigger] self@[b].contains(n)
                    implies bucket_of(local, n) == b && n.0 != local by {
                    if b == i && n != node {
                        let k = choose|k: int| 0 <= k < f.push(node).len() && f.push(node)[k] == n;
                        assert(f.contains(n));
                        t[i].lemma_filter_contains_rev(not_node(node), n);
                    }
                }
                assert forall|b: int| 0 <= b < self@.len() implies #[trigger] self@[b].no_duplicates() by {
                    if b == i {
                        assert(f.push(node).no_duplicates());
                    }
                }
            }
            return true;
        }
        if self.buckets[idx].len() < K_BUCKET_SIZE {
            let mut nb = copy_nodes(&self.buckets[idx]);
            nb.push(node);
            self.buckets.set(idx, nb);
            proof {
                assert(self@ =~= t.update(i, t[i].push(node)));
                assert forall|b: int, n: NodeId| 0 <= b < self@.len() && #[trigger] self@[b].contains(n)
                    implies bucket_of(local, n) == b && n.0 != local by {
                    if b == i && n != node {
                        let k = choose|k: int| 0 <= k < t[i].push(node).len() && t[i].push(node)[k] == n;
                        assert(t[i].contains(n));
                    }
                }
                assert forall|b: int| 0 <= b < self@.len() implies #[trigger] self@[b].no_duplicates() by {
                    if b == i {
                        assert forall|x: int, y: int| 0 <= x < y < t[i].push(node).len()
                            implies t[i].push(node)[x] != t[i].push(node)[y] by {
                            assert(t[i][x] == t[i].push(node)[x]);
                            if y == t[i].len() {
                                if t[i][x] == node {
                                    assert(t[i].contains(node));
                                }
                            } else {
                                assert(t[i][y] == t[i].push(node)[y]);
                                assert(t[i].no_duplicates());
                            }
                        }
                    }
                }
                assert forall|b: int| 0 <= b < self@.len() implies #[trigger] self@[b].len() <= K_BUCKET_SIZE by {
                }
            }
            true
        } else {
            false
        }
    }

    /// The `count` known nodes closest to `target` by XOR distance, closest first.
    pub fn find_closest(&self, target: &[u8; 32], count: usize) -> (r: Vec<NodeId>)
        requires
            self.wf(),
        ensures
            closest_first(all_of(self@), *target, count as nat, r@),
    {
        let all = self.all_nodes();
        proof {
            lemma_all_nodes_distinct(self@, self.local());
            lemma_sort_state_empty(all@, *target);
        }
        let mut sorted: Vec<(NodeId, [u8; 32])> = Vec::new();
        let mut k: usize = 0;
        while k < all.len()
            invariant
                all@.no_duplicates(),
                0 <= k <= all@.len(),
                sort_state(all@, *target, k as int, sorted@),
            decreases all@.len() - k,
        {
            let n = all[k];
            let d = xor_distance(&n.0, target);
            assert(d@ == distance(n, *target));
            let mut pos: usize = 0;
            proof {
                if k > 0 {
                    lemma_sort_state_entry(all@, *target, k as int, sorted@, 0);
                }
                assert(sorted@.len() == k);
            }
            while pos < sorted.len()
                invariant
                    all@.no_duplicates(),
                    k < all@.len(),
                    n == all@[k as int],
                    d@ == distance(n, *target),
                    sorted@.len() == k,
                    sort_state(all@, *target, k as int, sorted@),
                    0 <= pos <= sorted@.len(),
                    forall|j: int| 0 <= j < pos ==> lex_lt((#[trigger] sorted@[j]).1@, d@),
                ensures
                    0 <= pos <= sorted@.len(),
                    forall|j: int| 0 <= j < pos ==> lex_lt((#[trigger] sorted@[j]).1@, d@),
                    pos < sorted@.len() ==> lex_lt(d@, sorted@[pos as int].1@),
                decreases sorted@.len() - pos,
            {
                if bytes32_lt(&d, &sorted[pos].1) {
                    break;
                }
                proof {
                    let e = sorted@[pos as int];
                    lemma_sort_state_entry(all@, *target, k as int, sorted@, pos as int);
                    if e.1@ == d@ {
                        lemma_distance_injective(e.0, n, *target);
                    }
                    lemma_lex_lt_total(e.1@, d@);
                }
                pos = pos + 1;
            }
            proof {
                lemma_sort_state_step(all@, *target, k as int, sorted@, pos as int, (n, d));
            }
            sorted.insert(pos, (n, d));
            k = k + 1;
        }
        let take = if count < sorted.len() { count } else { sorted.len() };
        assert(sorted@.len() == all@.len());
        let mut r: Vec<NodeId> = Vec::new();
        let mut i: usize = 0;
        while i < take
            invariant
                take <= sorted@.len(),
                0 <= i <= take,
                r@.len() == i,
                forall|j: int| 0 <= j < i ==> r@[j] == (#[trigger] sorted@[j]).0,
            decreases take - i,
        {
            r.push(sorted[i].0);
            i = i + 1;
        }
        proof {
            lemma_sort_state_answer(all@, *target, sorted@, count as nat, r@);
        }
        r
    }

    /// Remove `node` from every bucket.
    pub fn remove(&mut self, node: &NodeId)
        requires
            old(self).wf(),
        ensures
            final(self).wf(),
            final(self).local() == old(self).local(),
            final(self)@ == old(self)@.map_values(|b: Seq<NodeId>| b.filter(not_node(*node))),
    {
        let ghost t = self@;
        let ghost local = self.local_id;
        let mut i: usize = 0;
        while i < self.buckets.len()
            invariant
                self.local_id == local,
                table_wf(t, local),
                self@.len() == t.len(),
                0 <= i <= t.len(),
                forall|b: int| 0 <= b < i ==> #[trigger] self@[b] == t[b].filter(not_node(*node)),
                forall|b: int| i <= b < t.len() ==> #[trigger] self@[b] == t[b],
            decreases t.len() - i,
        {
            let ghost prev = self@;
            assert(self@[i as int] == self.buckets@[i as int]@);
            assert(self.buckets@[i as int]@ == t[i as int]);
            let nb = without_node(&self.buckets[i], node);
            let ghost nbv = nb@;
            self.buckets.set(i, nb);
            assert(self@ =~= prev.update(i as int, nbv));
            i = i + 1;
        }
        proof {
            assert(self@ =~= t.map_values(|b: Seq<NodeId>| b.filter(not_node(*node))));
            broadcast use vstd::seq_lib::group_filter_ensures;
            assert forall|b: int| 0 <= b < self@.len() implies #[trigger] self@[b].no_duplicates() by {
                lemma_filter_no_duplicates(t[b], not_node(*node));
            }
            assert forall|b: int, n: NodeId| 0 <= b < self@.len() && #[trigger] self@[b].contains(n)
                implies bucket_of(local, n) == b && n.0 != local by {
                t[b].lemma_filter_contains_rev(not_node(*node), n);
            }
        }
    }

    /// Number of nodes in the table.
    pub fn node_count(&self) -> (c: usize)
        requires
            self.wf(),
        ensures
            c == count_of(self@),
    {
        let ghost t = self@;
        let mut total: usize = 0;
        let mut i: usize = 0;
        assert(t.take(0) =~= Seq::<Seq<NodeId>>::empty());
        while i < self.buckets.len()
            invariant
                t == self@,
                table_wf(t, self.local()),
                0 <= i <= t.len(),
                total == t.take(i as int).flatten().len(),
                total <= K_BUCKET_SIZE * i,
            decreases t.len() - i,
        {
            proof {
                lemma_flatten_take_push(t, i as int);
            }
            assert(self.buckets@[i as int]@ == t[i as int]);
            total = total + self.buckets[i].len();
            i = i + 1;
        }
        assert(t.take(t.len() as int) =~= t);
        total
    }

    /// Every node in the table, bucket 0 first.
    pub fn all_nodes(&self) -> (r: Vec<NodeId>)
        requires
            self.wf(),
        ensures
            r@ == all_of(self@),
    {
        let ghost t = self@;
        let mut r: Vec<NodeId> = Vec::new();
        let mut i: usize = 0;
        assert(t.take(0) =~= Seq::<Seq<NodeId>>::empty());
        while i < self.buckets.len()
            invariant
                t == self@,
                t.len() == self.buckets@.len(),
                0 <= i <= t.len(),
                r@ == t.take(i as int).flatten(),
            decreases t.len() - i,
        {
            let bucket = &self.buckets[i];
            assert(bucket@ == t[i as int]);
            let mut j: usize = 0;
            while j < bucket.len()
                invariant
                    bucket@ == t[i as int],
                    0 <= j <= bucket@.len(),
                    r@ == t.take(i as int).flatten() + bucket@.take(j as int),
                decreases bucket@.len() - j,
            {
                assert(bucket@.take(j + 1) =~= bucket@.take(j as int).push(bucket@[j as int]));
                r.push(bucket[j]);
                j = j + 1;
            }
            proof {
                assert(bucket@.take(bucket@.len() as int) =~= bucket@);
                lemma_flatten_take_push(t, i as int);
            }
            i = i + 1;
        }
        assert(t.take(t.len() as int) =~= t);
        r
    }
}


/// One routing table per DHT layer, each with its own key space.
#[derive(Debug)]
pub struct LayeredRouting {
    pub layer0: RoutingTable,
    pub layer1: RoutingTable,
    pub layer2: RoutingTable,
    pub layer3: RoutingTable,
}

impl LayeredRouting {
    /// Four empty tables owned by `local_id`.
    pub fn new(local_id: [u8; 32]) -> (r: Self)
        ensures
            r.layer0.wf() && r.layer1.wf() && r.layer2.wf() && r.layer3.wf(),
            r.layer0.local() == local_id && r.layer1.local() == local_id,
            r.layer2.local() == local_id && r.layer3.local() == local_id,
            count_of(r.layer0@) == 0 && count_of(r.layer1@) == 0,
            count_of(r.layer2@) == 0 && count_of(r.layer3@) == 0,
    {
        let r = LayeredRouting {
            layer0: RoutingTable::new(local_id),
            layer1: RoutingTable::new(local_id),
            layer2: RoutingTable::new(local_id),
            layer3: RoutingTable::new(local_id),
        };
        proof {
            lemma_empty_table_count();
        }
        r
    }
}

proof fn lemma_empty_table_count()
    ensures
        count_of(Seq::new(KEY_BITS as nat, |i: int| Seq::<NodeId>::empty())) == 0,
{
    let t = Seq::new(KEY_BITS as nat, |i: int| Seq::<NodeId>::empty());
    assert forall|i: int| 0 <= i <= t.len() implies #[trigger] t.take(i).flatten().len() == 0 by {
        lemma_empty_prefix(t, i);
    }
    assert(t.take(t.len() as int) =~= t);
}

proof fn lemma_empty_prefix(t: Seq<Seq<NodeId>>, i: int)
    requires
        0 <= i <= t.len(),
        forall|j: int| 0 <= j < t.len() ==> (#[trigger] t[j]).len() == 0,
    ensures
        t.take(i).flatten().len() == 0,
    decreases i,
{
    if i == 0 {
        assert(t.take(0) =~= Seq::<Seq<NodeId>>::empty());
    } else {
        lemma_empty_prefix(t, i - 1);
        lemma_flatten_take_push(t, i - 1);
    }
}

/// XOR distance does not depend on the order of its arguments.
pub proof fn lemma_xor_symmetric(a: Seq<u8>, b: Seq<u8>)
    requires
        a.len() == b.len(),
    ensures
        xor_bytes(a, b) == xor_bytes(b, a),
{
    assert forall|i: int| 0 <= i < a.len() implies xor_bytes(a, b)[i] == xor_bytes(b, a)[i] by {
        let x = a[i];
        let y = b[i];
        assert(x ^ y == y ^ x) by (bit_vector);
    }
    assert(xor_bytes(a, b) =~= xor_bytes(b, a));
}

/// Every pair of keys has a bucket, one of the 256.
pub proof fn lemma_bucket_in_range(local: Seq<u8>, remote: Seq<u8>)
    requires
        local.len() == 32,
        remote.len() == 32,
    ensures
        0 <= bucket_index_spec(local, remote) < KEY_BITS,
{
    lemma_leading_zero_bits_bound(xor_bytes(local, remote));
}

} // verus!
