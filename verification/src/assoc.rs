use vstd::prelude::*;

verus! {

/// Whether `k` is a key of the association list.
pub open spec fn has_key<K, V>(s: Seq<(K, V)>, k: K) -> bool {
    exists|i: int| 0 <= i < s.len() && (#[trigger] s[i]).0 == k
}

/// Position of key `k` in the association list.
pub open spec fn key_index<K, V>(s: Seq<(K, V)>, k: K) -> int {
    choose|i: int| 0 <= i < s.len() && (#[trigger] s[i]).0 == k
}

/// The map an association list stands for.
pub open spec fn map_of<K, V>(s: Seq<(K, V)>) -> Map<K, V> {
    Map::new(|k: K| has_key(s, k), |k: K| s[key_index(s, k)].1)
}

/// No key occurs twice.
pub open spec fn keys_distinct<K, V>(s: Seq<(K, V)>) -> bool {
    forall|i: int, j: int| 0 <= i < j < s.len() ==> (#[trigger] s[i]).0 != (#[trigger] s[j]).0
}

/// The keys of an association list, in order.
pub open spec fn keys_of<K, V>(s: Seq<(K, V)>) -> Seq<K> {
    s.map_values(|e: (K, V)| e.0)
}

/// The entry at `i` is what the map holds under its key.
pub proof fn lemma_map_of_at<K, V>(s: Seq<(K, V)>, i: int)
    requires
        keys_distinct(s),
        0 <= i < s.len(),
    ensures
        map_of(s).dom().contains(s[i].0),
        map_of(s)[s[i].0] == s[i].1,
        key_index(s, s[i].0) == i,
{
    assert(has_key(s, s[i].0));
    let j = key_index(s, s[i].0);
    if j != i {
        if j < i {
            assert(s[j].0 != s[i].0);
        } else {
            assert(s[i].0 != s[j].0);
        }
    }
}

/// The map has as many keys as the list has entries.
pub proof fn lemma_map_of_len<K, V>(s: Seq<(K, V)>)
    requires
        keys_distinct(s),
    ensures
        map_of(s).dom().finite(),
        map_of(s).dom().len() == s.len(),
        map_of(s).dom() == keys_of(s).to_set(),
        keys_of(s).no_duplicates(),
{
    let ks = keys_of(s);
    assert forall|i: int, j: int| 0 <= i < j < ks.len() implies ks[i] != ks[j] by {
        assert(s[i].0 != s[j].0);
    }
    assert(ks.no_duplicates());
    ks.unique_seq_to_set();
    assert forall|k: K| map_of(s).dom().contains(k) <==> ks.to_set().contains(k) by {
        if map_of(s).dom().contains(k) {
            let i = key_index(s, k);
            assert(ks[i] == k);
        }
        if ks.to_set().contains(k) {
            let i = choose|i: int| 0 <= i < ks.len() && ks[i] == k;
            assert(s[i].0 == k);
        }
    }
    assert(map_of(s).dom() =~= ks.to_set());
}

/// Replacing the value of an entry replaces it in the map.
pub proof fn lemma_map_of_update<K, V>(s: Seq<(K, V)>, i: int, v: V)
    requires
        keys_distinct(s),
        0 <= i < s.len(),
    ensures
        keys_distinct(s.update(i, (s[i].0, v))),
        map_of(s.update(i, (s[i].0, v))) == map_of(s).insert(s[i].0, v),
{
    let u = s.update(i, (s[i].0, v));
    assert forall|a: int, b: int| 0 <= a < b < u.len() implies (#[trigger] u[a]).0 != (#[trigger] u[b]).0 by {
        assert(u[a].0 == s[a].0 && u[b].0 == s[b].0);
    }
    assert forall|k: K| map_of(u).dom().contains(k) <==> map_of(s).insert(s[i].0, v).dom().contains(k) by {
        if has_key(u, k) {
            let j = key_index(u, k);
            assert(s[j].0 == k);
        }
        if has_key(s, k) {
            let j = key_index(s, k);
            assert(u[j].0 == k);
        }
    }
    assert forall|k: K| #[trigger] map_of(u).dom().contains(k) implies map_of(u)[k] == map_of(s).insert(
        s[i].0,
        v,
    )[k] by {
        let j = key_index(u, k);
        lemma_map_of_at(u, j);
        lemma_map_of_at(s, j);
    }
    assert(map_of(u) =~= map_of(s).insert(s[i].0, v));
}

/// Appending an entry with a new key adds it to the map.
pub proof fn lemma_map_of_push<K, V>(s: Seq<(K, V)>, k: K, v: V)
    requires
        keys_distinct(s),
        !map_of(s).dom().contains(k),
    ensures
        keys_distinct(s.push((k, v))),
        map_of(s.push((k, v))) == map_of(s).insert(k, v),
{
    let u = s.push((k, v));
    assert forall|a: int, b: int| 0 <= a < b < u.len() implies (#[trigger] u[a]).0 != (#[trigger] u[b]).0 by {
        assert(u[a] == s[a]);
        if b < s.len() {
            assert(u[b] == s[b]);
        } else {
            if s[a].0 == k {
                assert(has_key(s, k));
            }
        }
    }
    assert forall|k2: K| map_of(u).dom().contains(k2) <==> map_of(s).insert(k, v).dom().contains(k2) by {
        if has_key(u, k2) {
            let j = key_index(u, k2);
            if j < s.len() {
                assert(s[j].0 == k2);
            }
        }
        if has_key(s, k2) {
            let j = key_index(s, k2);
            assert(u[j].0 == k2);
        }
        if k2 == k {
            assert(u[s.len() as int].0 == k);
        }
    }
    assert forall|k2: K| #[trigger] map_of(u).dom().contains(k2) implies map_of(u)[k2] == map_of(s).insert(
        k,
        v,
    )[k2] by {
        let j = key_index(u, k2);
        lemma_map_of_at(u, j);
        if j < s.len() {
            lemma_map_of_at(s, j);
        }
    }
    assert(map_of(u) =~= map_of(s).insert(k, v));
}

/// Removing an entry removes its key from the map.
pub proof fn lemma_map_of_remove<K, V>(s: Seq<(K, V)>, i: int)
    requires
        keys_distinct(s),
        0 <= i < s.len(),
    ensures
        keys_distinct(s.remove(i)),
        map_of(s.remove(i)) == map_of(s).remove(s[i].0),
{
    s.remove_ensures(i);
    let u = s.remove(i);
    let k = s[i].0;
    assert forall|a: int, b: int| 0 <= a < b < u.len() implies (#[trigger] u[a]).0 != (#[trigger] u[b]).0 by {
        let a0 = if a < i {
            a
        } else {
            a + 1
        };
        let b0 = if b < i {
            b
        } else {
            b + 1
        };
        assert(u[a] == s[a0] && u[b] == s[b0]);
    }
    assert forall|k2: K| map_of(u).dom().contains(k2) <==> map_of(s).remove(k).dom().contains(k2) by {
        if has_key(u, k2) {
            let j = key_index(u, k2);
            let j0 = if j < i {
                j
            } else {
                j + 1
            };
            assert(s[j0].0 == k2);
            assert(j0 != i);
        }
        if has_key(s, k2) && k2 != k {
            let j = key_index(s, k2);
            assert(j != i);
            if j < i {
                assert(u[j].0 == k2);
            } else {
                assert(u[j - 1].0 == k2);
            }
        }
    }
    assert forall|k2: K| #[trigger] map_of(u).dom().contains(k2) implies map_of(u)[k2] == map_of(s).remove(
        k,
    )[k2] by {
        let j = key_index(u, k2);
        lemma_map_of_at(u, j);
        let j0 = if j < i {
            j
        } else {
            j + 1
        };
        assert(u[j] == s[j0]);
        lemma_map_of_at(s, j0);
    }
    assert(map_of(u) =~= map_of(s).remove(k));
}

} // verus!
