use vstd::prelude::*;

verus! {

/// Latency from node `i` to node `j` in a matrix of latencies, one row per node.
pub open spec fn latency(lat: Seq<Vec<u64>>, i: int, j: int) -> u64 {
    lat[i]@[j]
}

/// Seen from node `i`, node `a` comes before node `b`: lower latency, or the same latency and
/// a lower index.
pub open spec fn nearer(lat: Seq<Vec<u64>>, i: int, a: int, b: int) -> bool {
    latency(lat, i, a) < latency(lat, i, b) || (latency(lat, i, a) == latency(lat, i, b) && a
        < b)
}

/// Each entry of `s` comes strictly before the next, seen from node `i`.
pub open spec fn nearest_first(lat: Seq<Vec<u64>>, i: int, s: Seq<usize>) -> bool {
    forall|a: int, b: int| 0 <= a < b < s.len() ==> nearer(lat, i, s[a] as int, s[b] as int)
}

/// `s` lists every node of the matrix other than `i` once, nearest first.
pub open spec fn by_latency(lat: Seq<Vec<u64>>, i: int, s: Seq<usize>) -> bool {
    &&& nearest_first(lat, i, s)
    &&& forall|a: int| 0 <= a < s.len() ==> s[a] < lat.len() && s[a] != i
    &&& forall|j: int| 0 <= j < lat.len() && j != i ==> #[trigger] s.contains(j as usize)
}

/// The other nodes as seen from node `i`, nearest first (there is exactly one such list).
pub open spec fn latency_order(lat: Seq<Vec<u64>>, i: int) -> Seq<usize> {
    choose|s: Seq<usize>| by_latency(lat, i, s)
}

/// How many of the `k` peers of a node are its nearest ones: three quarters, rounded down.
pub open spec fn near_share(k: int) -> int {
    k * 3 / 4
}

/// Adds `rest[p]` for each pick `p` in turn to `chosen`, unless it is there already.
pub open spec fn with_picks(chosen: Seq<usize>, rest: Seq<usize>, picks: Seq<usize>) -> Seq<usize>
    decreases picks.len(),
{
    if picks.len() == 0 {
        chosen
    } else {
        let prev = with_picks(chosen, rest, picks.drop_last());
        let c = rest[picks.last() as int];
        if prev.contains(c) {
            prev
        } else {
            prev.push(c)
        }
    }
}

/// Number of nearest peers node `i` takes from its list `s` of other nodes.
pub open spec fn near_taken(s: Seq<usize>, k: int) -> int {
    if near_share(k) < s.len() {
        near_share(k)
    } else {
        s.len() as int
    }
}

/// Number of further peers drawn at random past the nearest ones.
pub open spec fn far_drawn(s: Seq<usize>, k: int) -> int {
    let left = s.len() - near_taken(s, k);
    if k - near_share(k) < left {
        k - near_share(k)
    } else {
        left
    }
}

/// The peers a node chooses from its list `s` of the other nodes (nearest first): the nearest
/// three quarters of `k`, then the rest of `k` drawn from the remaining nodes by `picks`
/// (positions among them), a node drawn twice kept once.
pub open spec fn own_peers(s: Seq<usize>, k: int, picks: Seq<usize>) -> Seq<usize> {
    let near = near_taken(s, k);
    with_picks(s.take(near), s.skip(near), picks.take(far_drawn(s, k)))
}

/// The peers node `i` chooses in the graph over `lat`, with its draws `picks[i]`.
pub open spec fn chosen_peers(lat: Seq<Vec<u64>>, k: int, picks: Seq<Vec<usize>>, i: int) -> Seq<
    usize,
> {
    own_peers(latency_order(lat, i), k, picks[i]@)
}

/// The nodes below `m`, in order, that chose `j` though `j` did not choose them.
pub open spec fn back_links(lat: Seq<Vec<u64>>, k: int, picks: Seq<Vec<usize>>, j: int, m: int) -> Seq<
    usize,
>
    decreases m,
{
    if m <= 0 {
        Seq::empty()
    } else {
        let prev = back_links(lat, k, picks, j, m - 1);
        if chosen_peers(lat, k, picks, m - 1).contains(j as usize) && !chosen_peers(
            lat,
            k,
            picks,
            j,
        ).contains((m - 1) as usize) {
            prev.push((m - 1) as usize)
        } else {
            prev
        }
    }
}

/// The peer list of node `j`: the peers it chose, then the nodes that chose it and that it
/// did not choose, in the order of their indices.
pub open spec fn peer_list(lat: Seq<Vec<u64>>, k: int, picks: Seq<Vec<usize>>, j: int) -> Seq<
    usize,
> {
    chosen_peers(lat, k, picks, j) + back_links(lat, k, picks, j, lat.len() as int)
}

/// A square matrix with one row per node.
pub open spec fn square(lat: Seq<Vec<u64>>) -> bool {
    forall|r: int| 0 <= r < lat.len() ==> #[trigger] lat[r]@.len() == lat.len()
}

/// Each node's draws are positions among the nodes left after its nearest ones, and there is
/// one for each further peer it draws.
pub open spec fn picks_fit(lat: Seq<Vec<u64>>, k: int, picks: Seq<Vec<usize>>) -> bool {
    &&& picks.len() == lat.len()
    &&& forall|i: int|
        0 <= i < lat.len() ==> {
            let s_len = lat.len() - 1;
            let near = if near_share(k) < s_len {
                near_share(k)
            } else {
                s_len
            };
            let far = if k - near_share(k) < s_len - near {
                k - near_share(k)
            } else {
                s_len - near
            };
            &&& far <= #[trigger] picks[i]@.len()
            &&& forall|t: int| 0 <= t < far ==> (picks[i]@[t] as int) < s_len - near
        }
}

proof fn lemma_nearer_asym(lat: Seq<Vec<u64>>, i: int, a: int, b: int)
    requires
        nearer(lat, i, a, b),
    ensures
        !nearer(lat, i, b, a),
        a != b,
{
}

/// Two lists that are both nearest first and hold the same nodes are the same list.
proof fn lemma_nearest_first_unique(lat: Seq<Vec<u64>>, i: int, s: Seq<usize>, t: Seq<usize>)
    requires
        nearest_first(lat, i, s),
        nearest_first(lat, i, t),
        forall|x: usize| s.contains(x) <==> t.contains(x),
    ensures
        s == t,
    decreases s.len(),
{
    if s.len() == 0 {
        if t.len() > 0 {
            assert(t.contains(t[0]));
        }
        assert(s =~= t);
    } else if t.len() == 0 {
        assert(s.contains(s[0]));
    } else {
        assert(s.contains(s[0]));
        assert(t.contains(t[0]));
        let ks = choose|k: int| 0 <= k < t.len() && t[k] == s[0];
        let kt = choose|k: int| 0 <= k < s.len() && s[k] == t[0];
        if s[0] != t[0] {
            assert(ks > 0);
            assert(kt > 0);
            assert(nearer(lat, i, t[0] as int, t[ks] as int));
            assert(nearer(lat, i, s[0] as int, s[kt] as int));
            lemma_nearer_asym(lat, i, t[0] as int, s[0] as int);
            assert(false);
        }
        let s1 = s.drop_first();
        let t1 = t.drop_first();
        assert forall|x: usize| s1.contains(x) implies t1.contains(x) by {
            let a = choose|a: int| 0 <= a < s1.len() && s1[a] == x;
            assert(s[a + 1] == x);
            assert(nearer(lat, i, s[0] as int, s[a + 1] as int));
            assert(s.contains(x));
            let b = choose|b: int| 0 <= b < t.len() && t[b] == x;
            if b == 0 {
                lemma_nearer_asym(lat, i, s[0] as int, x as int);
            }
            assert(t1[b - 1] == x);
        }
        assert forall|x: usize| t1.contains(x) implies s1.contains(x) by {
            let a = choose|a: int| 0 <= a < t1.len() && t1[a] == x;
            assert(t[a + 1] == x);
            assert(nearer(lat, i, t[0] as int, t[a + 1] as int));
            assert(t.contains(x));
            let b = choose|b: int| 0 <= b < s.len() && s[b] == x;
            if b == 0 {
                lemma_nearer_asym(lat, i, t[0] as int, x as int);
            }
            assert(s1[b - 1] == x);
        }
        assert(nearest_first(lat, i, s1)) by {
            assert forall|a: int, b: int| 0 <= a < b < s1.len() implies nearer(
                lat,
                i,
                s1[a] as int,
                s1[b] as int,
            ) by {
                assert(s1[a] == s[a + 1] && s1[b] == s[b + 1]);
            }
        }
        assert(nearest_first(lat, i, t1)) by {
            assert forall|a: int, b: int| 0 <= a < b < t1.len() implies nearer(
                lat,
                i,
                t1[a] as int,
                t1[b] as int,
            ) by {
                assert(t1[a] == t[a + 1] && t1[b] == t[b + 1]);
            }
        }
        lemma_nearest_first_unique(lat, i, s1, t1);
        assert(s =~= seq![s[0]] + s1);
        assert(t =~= seq![t[0]] + t1);
    }
}

/// A list that holds every other node once, nearest first, is the latency order.
proof fn lemma_latency_order(lat: Seq<Vec<u64>>, i: int, s: Seq<usize>)
    requires
        by_latency(lat, i, s),
    ensures
        latency_order(lat, i) == s,
{
    let o = latency_order(lat, i);
    assert(by_latency(lat, i, o));
    assert forall|x: usize| s.contains(x) implies o.contains(x) by {
        let a = choose|a: int| 0 <= a < s.len() && s[a] == x;
        assert(o.contains(x as int as usize));
    }
    assert forall|x: usize| o.contains(x) implies s.contains(x) by {
        let a = choose|a: int| 0 <= a < o.len() && o[a] == x;
        assert(s.contains(x as int as usize));
    }
    lemma_nearest_first_unique(lat, i, s, o);
}

/// The other nodes as seen from node `i`, nearest first.
fn candidates_by_latency(latencies: &Vec<Vec<u64>>, i: usize) -> (s: Vec<usize>)
    requires
        i < latencies.len(),
        square(latencies@),
    ensures
        by_latency(latencies@, i as int, s@),
        s.len() == latencies.len() - 1,
{
    let n = latencies.len();
    let row = &latencies[i];
    assert(row@.len() == n);
    let mut s: Vec<usize> = Vec::new();
    let mut j: usize = 0;
    while j < n
        invariant
            j <= n,
            n == latencies.len(),
            i < n,
            *row == latencies@[i as int],
            row@.len() == n,
            s.len() == (if i < j {
                j - 1
            } else {
                j as int
            }),
            nearest_first(latencies@, i as int, s@),
            forall|a: int| 0 <= a < s.len() ==> s[a] < j && s[a] != i,
            forall|c: int| 0 <= c < j && c != i ==> #[trigger] s@.contains(c as usize),
        decreases n - j,
    {
        if j != i {
            let lj = row[j];
            let mut p: usize = 0;
            while p < s.len() && row[s[p]] <= lj
                invariant
                    p <= s.len(),
                    j < n,
                    *row == latencies@[i as int],
                    row@.len() == n,
                    lj == row@[j as int],
                    forall|a: int| 0 <= a < s.len() ==> s[a] < j && s[a] != i,
                    forall|q: int| 0 <= q < p ==> nearer(latencies@, i as int, s[q] as int, j as int),
                decreases s.len() - p,
            {
                p = p + 1;
            }
            let ghost old_s = s@;
            assert forall|q: int| p <= q < old_s.len() implies nearer(
                latencies@,
                i as int,
                j as int,
                old_s[q] as int,
            ) by {
                assert(lj < row@[old_s[p as int] as int]);
                if q > p {
                    assert(nearer(latencies@, i as int, old_s[p as int] as int, old_s[q] as int));
                }
            }
            s.insert(p, j);
            assert(s@ =~= old_s.insert(p as int, j));
            assert forall|a: int, b: int| 0 <= a < b < s@.len() implies nearer(
                latencies@,
                i as int,
                s@[a] as int,
                s@[b] as int,
            ) by {
                if b < p {
                    assert(s@[a] == old_s[a] && s@[b] == old_s[b]);
                } else if b == p {
                    assert(s@[a] == old_s[a]);
                } else if a < p {
                    assert(s@[a] == old_s[a] && s@[b] == old_s[b - 1]);
                    assert(nearer(latencies@, i as int, j as int, old_s[b - 1] as int));
                    assert(nearer(latencies@, i as int, old_s[a] as int, j as int));
                } else if a == p {
                    assert(s@[b] == old_s[b - 1]);
                } else {
                    assert(s@[a] == old_s[a - 1] && s@[b] == old_s[b - 1]);
                }
            }
            assert forall|c: int| 0 <= c < j + 1 && c != i implies #[trigger] s@.contains(c as usize) by {
                if c == j {
                    assert(s@[p as int] == j);
                } else {
                    assert(old_s.contains(c as usize));
                    let k = choose|k: int| 0 <= k < old_s.len() && old_s[k] == c as usize;
                    if k < p {
                        assert(s@[k] == c as usize);
                    } else {
                        assert(s@[k + 1] == c as usize);
                    }
                }
            }
            assert forall|a: int| 0 <= a < s.len() implies s[a] < j + 1 && s[a] != i by {
                if a < p {
                    assert(s@[a] == old_s[a]);
                } else if a > p {
                    assert(s@[a] == old_s[a - 1]);
                }
            }
        }
        j = j + 1;
    }
    s
}

/// Whether `x` occurs in `v`.
fn holds(v: &Vec<usize>, x: usize) -> (r: bool)
    ensures
        r == v@.contains(x),
{
    let mut k: usize = 0;
    while k < v.len()
        invariant
            k <= v.len(),
            forall|q: int| 0 <= q < k ==> v@[q] != x,
        decreases v.len() - k,
    {
        if v[k] == x {
            assert(v@[k as int] == x);
            return true;
        }
        k = k + 1;
    }
    false
}

/// No entry of `s` occurs twice.
pub open spec fn distinct(s: Seq<usize>) -> bool {
    forall|a: int, b: int| 0 <= a < b < s.len() ==> s[a] != s[b]
}

proof fn lemma_with_picks(chosen: Seq<usize>, rest: Seq<usize>, picks: Seq<usize>, n: int, i: int)
    requires
        distinct(chosen),
        forall|a: int| 0 <= a < chosen.len() ==> chosen[a] < n && chosen[a] != i,
        forall|a: int| 0 <= a < rest.len() ==> rest[a] < n && rest[a] != i,
        forall|t: int| 0 <= t < picks.len() ==> (picks[t] as int) < rest.len(),
    ensures
        distinct(with_picks(chosen, rest, picks)),
        forall|a: int|
            0 <= a < with_picks(chosen, rest, picks).len() ==> with_picks(chosen, rest, picks)[a]
                < n && with_picks(chosen, rest, picks)[a] != i,
        chosen.len() <= with_picks(chosen, rest, picks).len(),
        with_picks(chosen, rest, picks).take(chosen.len() as int) == chosen,
    decreases picks.len(),
{
    if picks.len() > 0 {
        let pl = picks.drop_last();
        assert forall|t: int| 0 <= t < pl.len() implies (pl[t] as int) < rest.len() by {
            assert(pl[t] == picks[t]);
        }
        lemma_with_picks(chosen, rest, pl, n, i);
        let prev = with_picks(chosen, rest, pl);
        let c = rest[picks.last() as int];
        if !prev.contains(c) {
            let r = prev.push(c);
            assert forall|a: int, b: int| 0 <= a < b < r.len() implies r[a] != r[b] by {
                if b == prev.len() {
                    assert(r[a] == prev[a]);
                }
            }
            assert(r.take(chosen.len() as int) =~= prev.take(chosen.len() as int));
        }
    } else {
        assert(chosen.take(chosen.len() as int) =~= chosen);
    }
}

/// The peers a node chooses from its list `s` of the other nodes, with its draws `picks`.
fn choose_own(s: &Vec<usize>, k: usize, picks: &Vec<usize>) -> (own: Vec<usize>)
    requires
        k * 3 <= usize::MAX,
        far_drawn(s@, k as int) <= picks.len(),
        forall|t: int|
            0 <= t < far_drawn(s@, k as int) ==> (picks@[t] as int) < s.len() - near_taken(
                s@,
                k as int,
            ),
    ensures
        own@ == own_peers(s@, k as int, picks@),
{
    let near_all = k * 3 / 4;
    let near = if near_all < s.len() {
        near_all
    } else {
        s.len()
    };
    let far_all = k - near_all;
    let left = s.len() - near;
    let far = if far_all < left {
        far_all
    } else {
        left
    };
    assert(near as int == near_taken(s@, k as int));
    assert(far as int == far_drawn(s@, k as int));
    let ghost rest = s@.skip(near as int);
    let mut own: Vec<usize> = Vec::new();
    let mut t: usize = 0;
    while t < near
        invariant
            t <= near,
            near <= s.len(),
            own@ == s@.take(t as int),
        decreases near - t,
    {
        own.push(s[t]);
        t = t + 1;
        assert(own@ =~= s@.take(t as int));
    }
    assert(own@ == with_picks(s@.take(near as int), rest, picks@.take(0)));
    let mut t: usize = 0;
    while t < far
        invariant
            t <= far,
            far as int == far_drawn(s@, k as int),
            near as int == near_taken(s@, k as int),
            far <= picks.len(),
            near + far <= s.len(),
            rest == s@.skip(near as int),
            forall|q: int| 0 <= q < far ==> (picks@[q] as int) < s.len() - near,
            own@ == with_picks(s@.take(near as int), rest, picks@.take(t as int)),
        decreases far - t,
    {
        let c = s[near + picks[t]];
        let ghost pt = picks@.take(t as int + 1);
        assert(pt.drop_last() =~= picks@.take(t as int));
        assert(pt.last() == picks@[t as int]);
        assert(rest[picks@[t as int] as int] == c);
        if !holds(&own, c) {
            own.push(c);
        }
        t = t + 1;
    }
    assert(picks@.take(far as int) =~= picks@.take(far_drawn(s@, k as int)));
    own
}

proof fn lemma_chosen_peers(lat: Seq<Vec<u64>>, k: int, picks: Seq<Vec<usize>>, i: int)
    requires
        0 <= i < lat.len(),
        k >= 0,
        picks_fit(lat, k, picks),
        by_latency(lat, i, latency_order(lat, i)),
        latency_order(lat, i).len() == lat.len() - 1,
    ensures
        distinct(chosen_peers(lat, k, picks, i)),
        forall|a: int|
            0 <= a < chosen_peers(lat, k, picks, i).len() ==> chosen_peers(lat, k, picks, i)[a]
                < lat.len() && chosen_peers(lat, k, picks, i)[a] != i,
        near_taken(latency_order(lat, i), k) <= chosen_peers(lat, k, picks, i).len(),
        chosen_peers(lat, k, picks, i).take(near_taken(latency_order(lat, i), k))
            == latency_order(lat, i).take(near_taken(latency_order(lat, i), k)),
{
    let s = latency_order(lat, i);
    let near = near_taken(s, k);
    let far = far_drawn(s, k);
    let chosen = s.take(near);
    let rest = s.skip(near);
    let pk = picks[i]@.take(far);
    assert(far <= picks[i]@.len());
    assert forall|a: int, b: int| 0 <= a < b < chosen.len() implies chosen[a] != chosen[b] by {
        lemma_nearer_asym(lat, i, s[a] as int, s[b] as int);
    }
    assert forall|a: int| 0 <= a < chosen.len() implies chosen[a] < lat.len() && chosen[a] != i by {
        assert(chosen[a] == s[a]);
    }
    assert forall|a: int| 0 <= a < rest.len() implies rest[a] < lat.len() && rest[a] != i by {
        assert(rest[a] == s[a + near]);
    }
    assert forall|t: int| 0 <= t < pk.len() implies (pk[t] as int) < rest.len() by {
        assert(pk[t] == picks[i]@[t]);
    }
    lemma_with_picks(chosen, rest, pk, lat.len() as int, i);
}

proof fn lemma_back_links(lat: Seq<Vec<u64>>, k: int, picks: Seq<Vec<usize>>, j: int, m: int)
    requires
        m <= usize::MAX + 1,
    ensures
        forall|a: int| #![trigger back_links(lat, k, picks, j, m)[a]]
            0 <= a < back_links(lat, k, picks, j, m).len() ==> {
                let x = back_links(lat, k, picks, j, m)[a];
                &&& x < m
                &&& chosen_peers(lat, k, picks, x as int).contains(j as usize)
                &&& !chosen_peers(lat, k, picks, j).contains(x)
            },
        distinct(back_links(lat, k, picks, j, m)),
        forall|x: int|
            0 <= x < m && #[trigger] chosen_peers(lat, k, picks, x).contains(j as usize)
                && !chosen_peers(lat, k, picks, j).contains(x as usize) ==> back_links(
                lat,
                k,
                picks,
                j,
                m,
            ).contains(x as usize),
    decreases m,
{
    if m > 0 {
        lemma_back_links(lat, k, picks, j, m - 1);
        let prev = back_links(lat, k, picks, j, m - 1);
        let r = back_links(lat, k, picks, j, m);
        if r != prev {
            assert(r == prev.push((m - 1) as usize));
            assert forall|a: int| #![trigger r[a]] 0 <= a < r.len() implies {
                let x = r[a];
                &&& x < m
                &&& chosen_peers(lat, k, picks, x as int).contains(j as usize)
                &&& !chosen_peers(lat, k, picks, j).contains(x)
            } by {
                if a < prev.len() {
                    assert(r[a] == prev[a]);
                }
            }
            assert forall|a: int, b: int| 0 <= a < b < r.len() implies r[a] != r[b] by {
                if b == prev.len() {
                    assert(r[a] == prev[a]);
                }
            }
            assert forall|x: int|
                0 <= x < m && #[trigger] chosen_peers(lat, k, picks, x).contains(j as usize)
                    && !chosen_peers(lat, k, picks, j).contains(x as usize) implies r.contains(
                x as usize,
            ) by {
                if x < m - 1 {
                    let a = choose|a: int| 0 <= a < prev.len() && prev[a] == x as usize;
                    assert(r[a] == x as usize);
                } else {
                    assert(r[prev.len() as int] == x as usize);
                }
            }
        }
    }
}

proof fn lemma_peer_lists(lat: Seq<Vec<u64>>, k: int, picks: Seq<Vec<usize>>)
    requires
        k >= 0,
        lat.len() <= usize::MAX,
        picks_fit(lat, k, picks),
        forall|r: int|
            0 <= r < lat.len() ==> by_latency(lat, r, #[trigger] latency_order(lat, r))
                && latency_order(lat, r).len() == lat.len() - 1,
    ensures
        forall|i: int, a: int| #![trigger peer_list(lat, k, picks, i)[a]]
            0 <= i < lat.len() && 0 <= a < peer_list(lat, k, picks, i).len() ==> {
                let x = peer_list(lat, k, picks, i)[a];
                x < lat.len() && x != i && peer_list(lat, k, picks, x as int).contains(i as usize)
            },
        forall|i: int| 0 <= i < lat.len() ==> distinct(#[trigger] peer_list(lat, k, picks, i)),
        forall|i: int|
            0 <= i < lat.len() ==> (#[trigger] peer_list(lat, k, picks, i)).take(
                near_taken(latency_order(lat, i), k),
            ) == latency_order(lat, i).take(near_taken(latency_order(lat, i), k)),
{
    assert forall|i: int| 0 <= i < lat.len() as int implies {
        &&& distinct(#[trigger] chosen_peers(lat, k, picks, i))
        &&& forall|a: int|
            0 <= a < chosen_peers(lat, k, picks, i).len() ==> chosen_peers(lat, k, picks, i)[a]
                < lat.len() as int && chosen_peers(lat, k, picks, i)[a] != i
        &&& near_taken(latency_order(lat, i), k) <= chosen_peers(lat, k, picks, i).len()
        &&& chosen_peers(lat, k, picks, i).take(near_taken(latency_order(lat, i), k))
            == latency_order(lat, i).take(near_taken(latency_order(lat, i), k))
    } by {
        assert(by_latency(lat, i, latency_order(lat, i)));
        lemma_chosen_peers(lat, k, picks, i);
    }
    assert forall|i: int, a: int| #![trigger peer_list(lat, k, picks, i)[a]]
        0 <= i < lat.len() as int && 0 <= a < peer_list(lat, k, picks, i).len() implies {
        let x = peer_list(lat, k, picks, i)[a];
        x < lat.len() as int && x != i && peer_list(lat, k, picks, x as int).contains(i as usize)
    } by {
        let c = chosen_peers(lat, k, picks, i);
        let bl = back_links(lat, k, picks, i, lat.len() as int);
        let x = peer_list(lat, k, picks, i)[a];
        lemma_back_links(lat, k, picks, i, lat.len() as int);
        assert(bl.len() == back_links(lat, k, picks, i, lat.len() as int).len());
        if a < c.len() {
            assert(x == c[a]);
            assert(c.contains(x));
            let cx = chosen_peers(lat, k, picks, x as int);
            let blx = back_links(lat, k, picks, x as int, lat.len() as int);
            lemma_back_links(lat, k, picks, x as int, lat.len() as int);
            assert(blx.len() == back_links(lat, k, picks, x as int, lat.len() as int).len());
            if cx.contains(i as usize) {
                let q = choose|q: int| 0 <= q < cx.len() && cx[q] == i as usize;
                assert(peer_list(lat, k, picks, x as int)[q] == i as usize);
            } else {
                assert(blx.contains(i as usize));
                let q = choose|q: int| 0 <= q < blx.len() && blx[q] == i as usize;
                assert(peer_list(lat, k, picks, x as int)[cx.len() + q] == i as usize);
            }
        } else {
            assert(x == bl[a - c.len()]);
            if x == i {
                assert(chosen_peers(lat, k, picks, i).contains(i as usize));
                let q = choose|q: int| 0 <= q < c.len() && c[q] == i as usize;
                assert(false);
            }
            let cx = chosen_peers(lat, k, picks, x as int);
            assert(cx.contains(i as usize));
            let q = choose|q: int| 0 <= q < cx.len() && cx[q] == i as usize;
            assert(peer_list(lat, k, picks, x as int)[q] == i as usize);
        }
    }
    assert forall|i: int| 0 <= i < lat.len() as int implies distinct(#[trigger] peer_list(lat, k, picks, i)) by {
        let c = chosen_peers(lat, k, picks, i);
        let bl = back_links(lat, k, picks, i, lat.len() as int);
        let pl = peer_list(lat, k, picks, i);
        lemma_back_links(lat, k, picks, i, lat.len() as int);
        assert(bl.len() == back_links(lat, k, picks, i, lat.len() as int).len());
        assert forall|a: int, b: int| 0 <= a < b < pl.len() implies pl[a] != pl[b] by {
            if b < c.len() {
            } else if a < c.len() {
                assert(pl[b] == bl[b - c.len()]);
                assert(!c.contains(pl[b]));
                assert(c[a] == pl[a]);
            } else {
                assert(pl[a] == bl[a - c.len()] && pl[b] == bl[b - c.len()]);
            }
        }
    }
    assert forall|i: int| 0 <= i < lat.len() as int implies (#[trigger] peer_list(lat, k, picks, i)).take(
        near_taken(latency_order(lat, i), k),
    ) == latency_order(lat, i).take(near_taken(latency_order(lat, i), k)) by {
        let c = chosen_peers(lat, k, picks, i);
        let near = near_taken(latency_order(lat, i), k);
        assert(peer_list(lat, k, picks, i).take(near) =~= c.take(near));
    }
}

/// The peer graph of a simulated network: node `i` keeps, nearest first, three quarters of
/// `peers_per_node` of the other nodes by `latencies[i]` (ties by index), then draws the rest
/// from the remaining nodes by positions `far_picks[i]` (a node drawn twice is kept once);
/// finally each link is made two-way, each node appending the nodes that chose it, in index
/// order.
pub fn peer_graph(latencies: &Vec<Vec<u64>>, peers_per_node: usize, far_picks: &Vec<Vec<usize>>) -> (p:
    Vec<Vec<usize>>)
    requires
        square(latencies@),
        peers_per_node * 3 <= usize::MAX,
        picks_fit(latencies@, peers_per_node as int, far_picks@),
    ensures
        p.len() == latencies.len(),
        forall|i: int|
            0 <= i < p.len() ==> #[trigger] p[i]@ == peer_list(
                latencies@,
                peers_per_node as int,
                far_picks@,
                i,
            ),
        forall|i: int, a: int| #![trigger p[i]@[a]]
            0 <= i < p.len() && 0 <= a < p[i].len() ==> {
                let x = p[i]@[a];
                x < p.len() && x != i && p[x as int]@.contains(i as usize)
            },
        forall|i: int| 0 <= i < p.len() ==> distinct(#[trigger] p[i]@),
        forall|i: int|
            0 <= i < p.len() ==> (#[trigger] p[i]@).take(
                near_taken(latency_order(latencies@, i), peers_per_node as int),
            ) == latency_order(latencies@, i).take(
                near_taken(latency_order(latencies@, i), peers_per_node as int),
            ),
{
    let n = latencies.len();
    let ghost lat = latencies@;
    let ghost k = peers_per_node as int;
    let mut own_all: Vec<Vec<usize>> = Vec::new();
    let mut i: usize = 0;
    while i < n
        invariant
            i <= n,
            n == latencies.len(),
            lat == latencies@,
            k == peers_per_node,
            square(lat),
            peers_per_node * 3 <= usize::MAX,
            picks_fit(lat, k, far_picks@),
            own_all.len() == i,
            forall|r: int|
                0 <= r < i ==> by_latency(lat, r, #[trigger] latency_order(lat, r))
                    && latency_order(lat, r).len() == n - 1,
            forall|r: int|
                0 <= r < i ==> #[trigger] own_all@[r]@ == chosen_peers(lat, k, far_picks@, r),
        decreases n - i,
    {
        let s = candidates_by_latency(latencies, i);
        proof {
            lemma_latency_order(lat, i as int, s@);
            assert(far_drawn(s@, k) <= far_picks@[i as int]@.len());
        }
        let o = choose_own(&s, peers_per_node, &far_picks[i]);
        own_all.push(o);
        i = i + 1;
    }
    let mut p: Vec<Vec<usize>> = Vec::new();
    let mut j: usize = 0;
    while j < n
        invariant
            j <= n,
            n == latencies.len(),
            lat == latencies@,
            k == peers_per_node,
            own_all.len() == n,
            forall|r: int|
                0 <= r < n ==> #[trigger] own_all@[r]@ == chosen_peers(lat, k, far_picks@, r),
            p.len() == j,
            forall|r: int| 0 <= r < j ==> #[trigger] p@[r]@ == peer_list(lat, k, far_picks@, r),
        decreases n - j,
    {
        let mine = &own_all[j];
        let mut row: Vec<usize> = Vec::new();
        let mut t: usize = 0;
        while t < mine.len()
            invariant
                t <= mine.len(),
                row@ == mine@.take(t as int),
            decreases mine.len() - t,
        {
            row.push(mine[t]);
            t = t + 1;
            assert(row@ =~= mine@.take(t as int));
        }
        assert(mine@.take(mine.len() as int) =~= mine@);
        let mut m: usize = 0;
        while m < n
            invariant
                m <= n,
                j < n,
                n == latencies.len(),
                own_all.len() == n,
                forall|r: int|
                    0 <= r < n ==> #[trigger] own_all@[r]@ == chosen_peers(lat, k, far_picks@, r),
                row@ == chosen_peers(lat, k, far_picks@, j as int) + back_links(
                    lat,
                    k,
                    far_picks@,
                    j as int,
                    m as int,
                ),
            decreases n - m,
        {
            assert(own_all@[m as int]@ == chosen_peers(lat, k, far_picks@, m as int));
            assert(own_all@[j as int]@ == chosen_peers(lat, k, far_picks@, j as int));
            if holds(&own_all[m], j) && !holds(&own_all[j], m) {
                row.push(m);
            }
            m = m + 1;
        }
        p.push(row);
        j = j + 1;
    }
    proof {
        lemma_peer_lists(lat, k, far_picks@);
        assert forall|i: int| 0 <= i < p.len() implies #[trigger] p[i]@ == peer_list(
            lat,
            k,
            far_picks@,
            i,
        ) by {
            assert(p@[i]@ == peer_list(lat, k, far_picks@, i));
        }
    }
    p
}

} // verus!
