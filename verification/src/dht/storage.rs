use vstd::prelude::*;

use crate::assoc::{
    has_key, key_index, keys_distinct, keys_of, lemma_map_of_at, lemma_map_of_len,
    lemma_map_of_push, lemma_map_of_remove, lemma_map_of_update, map_of,
};
use crate::bytes::bytes32_eq;

verus! {

/// A value stored in one DHT layer.
#[derive(Debug, Clone)]
pub struct StoredValue {
    pub data: Vec<u8>,
    pub timestamp: u64,
    pub ttl_epochs: u32,
    pub origin_epoch: u64,
}

/// A value is still alive at `epoch` while its origin epoch plus its time to live
/// lies beyond `epoch`.
pub open spec fn alive_at(v: StoredValue, epoch: u64) -> bool {
    v.origin_epoch + v.ttl_epochs > epoch
}

/// Largest number of entries a storage created with capacity `max` ever holds: the
/// capacity, but at least one, since a put into a full storage evicts one entry first.
pub open spec fn size_bound(max: usize) -> nat {
    if max == 0 {
        1
    } else {
        max as nat
    }
}

/// The entries with minimal timestamp are the eviction candidates.
pub open spec fn is_oldest(m: Map<[u8; 32], StoredValue>, k: [u8; 32]) -> bool {
    &&& m.dom().contains(k)
    &&& forall|k2: [u8; 32]| #[trigger] m.dom().contains(k2) ==> m[k].timestamp <= m[k2].timestamp
}

/// What `put(key, value)` makes of the map `m` held with capacity `max`: when the map is
/// full and `key` is new, one entry of minimal timestamp leaves first.
pub open spec fn put_result(
    m: Map<[u8; 32], StoredValue>,
    max: usize,
    key: [u8; 32],
    value: StoredValue,
    r: Map<[u8; 32], StoredValue>,
) -> bool {
    if m.dom().len() >= max && !m.dom().contains(key) && m.dom().len() > 0 {
        exists|old_key: [u8; 32]| is_oldest(m, old_key) && r == m.remove(old_key).insert(key, value)
    } else {
        r == m.insert(key, value)
    }
}

/// The entries of `m` still alive at `epoch`.
pub open spec fn alive_part(m: Map<[u8; 32], StoredValue>, epoch: u64) -> Map<[u8; 32], StoredValue> {
    m.restrict(m.dom().filter(|k: [u8; 32]| alive_at(m[k], epoch)))
}

/// Key-value storage of one DHT layer, bounded by `max_entries`.
#[derive(Debug)]
pub struct LayerStorage {
    store: Vec<([u8; 32], StoredValue)>,
    max_entries: usize,
}

impl View for LayerStorage {
    type V = Map<[u8; 32], StoredValue>;

    closed spec fn view(&self) -> Map<[u8; 32], StoredValue> {
        map_of(self.store@)
    }
}

impl LayerStorage {
    /// The capacity the storage was made with.
    pub closed spec fn capacity(&self) -> usize {
        self.max_entries
    }

    /// Keys are distinct and the size bound holds.
    pub closed spec fn wf(&self) -> bool {
        &&& keys_distinct(self.store@)
        &&& self.store@.len() <= size_bound(self.max_entries)
    }

    /// An empty storage for at most `max_entries` values.
    pub fn new(max_entries: usize) -> (s: Self)
        ensures
            s.wf(),
            s@ == Map::<[u8; 32], StoredValue>::empty(),
            s.capacity() == max_entries,
    {
        let s = LayerStorage { store: Vec::new(), max_entries };
        assert(s@ =~= Map::<[u8; 32], StoredValue>::empty());
        s
    }

    /// Position of `key`, if stored.
    fn find(&self, key: &[u8; 32]) -> (r: Option<usize>)
        requires
            keys_distinct(self.store@),
        ensures
            match r {
                Some(i) => i < self.store@.len() && self.store@[i as int].0 == *key,
                None => !has_key(self.store@, *key),
            },
    {
        let mut i: usize = 0;
        while i < self.store.len()
            invariant
                0 <= i <= self.store@.len(),
                forall|j: int| 0 <= j < i ==> (#[trigger] self.store@[j]).0 != *key,
            decreases self.store@.len() - i,
        {
            if bytes32_eq(&self.store[i].0, key) {
                return Some(i);
            }
            i = i + 1;
        }
        None
    }

    /// Store `value` under `key`, replacing an earlier value. When the storage is full
    /// and `key` is new, the entry with the oldest timestamp is evicted first.
    /// Always accepts the value.
    pub fn put(&mut self, key: [u8; 32], value: StoredValue) -> (ok: bool)
        requires
            old(self).wf(),
        ensures
            ok,
            final(self).wf(),
            final(self).capacity() == old(self).capacity(),
            put_result(old(self)@, old(self).capacity(), key, value, final(self)@),
            final(self)@.dom().finite(),
            final(self)@.dom().len() == if !old(self)@.dom().contains(key) && (old(self)@.dom().len()
                < old(self).capacity() || old(self)@.dom().len() == 0) {
                old(self)@.dom().len() + 1int
            } else {
                old(self)@.dom().len() as int
            },
    {
        proof {
            lemma_map_of_len(self.store@);
        }
        let ghost old_len = self.store@.len();
        let found = self.find(&key);
        match found {
            Some(i) => {
                let ghost s = self.store@;
                proof {
                    lemma_map_of_update(s, i as int, value);
                    lemma_map_of_at(s, i as int);
                }
                self.store.set(i, (key, value));
                assert(self.store@ == s.update(i as int, (s[i as int].0, value)));
            },
            None => {
                if self.store.len() >= self.max_entries && self.store.len() > 0 {
                    let ghost s = self.store@;
                    let oldest = self.evict_oldest();
                    proof {
                        lemma_map_of_len(self.store@);
                        assert(!map_of(self.store@).dom().contains(key));
                        lemma_map_of_push(self.store@, key, value);
                        assert(is_oldest(map_of(s), oldest@));
                    }
                    self.store.push((key, value));
                } else {
                    proof {
                        lemma_map_of_push(self.store@, key, value);
                    }
                    self.store.push((key, value));
                }
            },
        }
        proof {
            lemma_map_of_len(self.store@);
        }
        true
    }

    /// The value stored under `key`.
    pub fn get(&self, key: &[u8; 32]) -> (r: Option<&StoredValue>)
        requires
            self.wf(),
        ensures
            match r {
                Some(v) => self@.dom().contains(*key) && *v == self@[*key],
                None => !self@.dom().contains(*key),
            },
    {
        match self.find(key) {
            Some(i) => {
                proof {
                    lemma_map_of_at(self.store@, i as int);
                }
                Some(&self.store[i].1)
            },
            None => None,
        }
    }

    /// Remove the value under `key`; whether there was one.
    pub fn remove(&mut self, key: &[u8; 32]) -> (was: bool)
        requires
            old(self).wf(),
        ensures
            final(self).wf(),
            final(self).capacity() == old(self).capacity(),
            was == old(self)@.dom().contains(*key),
            final(self)@ == old(self)@.remove(*key),
            final(self)@.dom().finite(),
            final(self)@.dom().len() == old(self)@.dom().len() - (if was {
                1int
            } else {
                0int
            }),
    {
        proof {
            lemma_map_of_len(self.store@);
        }
        match self.find(key) {
            Some(i) => {
                let ghost s = self.store@;
                proof {
                    lemma_map_of_remove(s, i as int);
                }
                self.store.remove(i);
                proof {
                    lemma_map_of_len(self.store@);
                }
                true
            },
            None => {
                assert(self@ =~= self@.remove(*key));
                false
            },
        }
    }

    /// Number of stored values.
    pub fn len(&self) -> (n: usize)
        requires
            self.wf(),
        ensures
            n == self@.dom().len(),
    {
        proof {
            lemma_map_of_len(self.store@);
        }
        self.store.len()
    }

    /// Whether nothing is stored.
    pub fn is_empty(&self) -> (e: bool)
        requires
            self.wf(),
        ensures
            e == (self@.dom().len() == 0),
    {
        proof {
            lemma_map_of_len(self.store@);
        }
        self.store.len() == 0
    }

    /// Drop every value whose time to live has run out at `current_epoch`.
    pub fn expire(&mut self, current_epoch: u64)
        requires
            old(self).wf(),
        ensures
            final(self).wf(),
            final(self).capacity() == old(self).capacity(),
            final(self)@ == alive_part(old(self)@, current_epoch),
    {
        let ghost s = self.store@;
        let ghost m = map_of(s);
        let ghost cap = self.max_entries;
        let mut kept: Vec<([u8; 32], StoredValue)> = Vec::new();
        while self.store.len() > 0
            invariant
                keys_distinct(self.store@),
                keys_distinct(kept@),
                self.max_entries == cap,
                self.store@.len() + kept@.len() <= s.len(),
                s.len() <= size_bound(self.max_entries),
                forall|k: [u8; 32]| #[trigger] map_of(self.store@).dom().contains(k) ==> m.dom().contains(k)
                    && !map_of(kept@).dom().contains(k) && map_of(self.store@)[k] == m[k],
                forall|k: [u8; 32]|
                    #[trigger] m.dom().contains(k) ==> (map_of(self.store@).dom().contains(k) || (
                    map_of(kept@).dom().contains(k) == alive_at(m[k], current_epoch))),
                forall|k: [u8; 32]| #[trigger] map_of(kept@).dom().contains(k) ==> m.dom().contains(k)
                    && alive_at(m[k], current_epoch) && map_of(kept@)[k] == m[k],
            decreases self.store@.len(),
        {
            let ghost before = self.store@;
            let last = self.store.len() - 1;
            proof {
                lemma_map_of_at(before, last as int);
                lemma_map_of_remove(before, last as int);
                before.remove_ensures(last as int);
            }
            let entry = self.store.remove(last);
            let ghost k = entry.0;
            let v = &entry.1;
            let alive = v.origin_epoch > current_epoch || current_epoch - v.origin_epoch < v.ttl_epochs as u64;
            assert(alive == alive_at(m[k], current_epoch));
            if alive {
                proof {
                    lemma_map_of_push(kept@, entry.0, entry.1);
                }
                kept.push(entry);
            }
        }
        proof {
            assert(map_of(self.store@).dom() =~= Set::empty());
            assert forall|k: [u8; 32]| map_of(kept@).dom().contains(k) <==> alive_part(m, current_epoch).dom().contains(k) by {
            }
            assert(map_of(kept@) =~= alive_part(m, current_epoch));
            lemma_map_of_len(kept@);
            lemma_map_of_len(s);
            vstd::set_lib::lemma_len_subset(map_of(kept@).dom(), m.dom());
        }
        self.store = kept;
    }

    /// Remove one entry of minimal timestamp; the storage must not be empty.
    fn evict_oldest(&mut self) -> (oldest: Ghost<[u8; 32]>)
        requires
            keys_distinct(old(self).store@),
            old(self).store@.len() > 0,
        ensures
            keys_distinct(final(self).store@),
            final(self).max_entries == old(self).max_entries,
            final(self).store@.len() == old(self).store@.len() - 1,
            is_oldest(old(self)@, oldest@),
            final(self)@ == old(self)@.remove(oldest@),
    {
        let ghost s = self.store@;
        let mut best: usize = 0;
        let mut i: usize = 1;
        while i < self.store.len()
            invariant
                self.store@ == s,
                s.len() > 0,
                1 <= i <= s.len(),
                best < i,
                forall|j: int| 0 <= j < i ==> s[best as int].1.timestamp <= (#[trigger] s[j]).1.timestamp,
            decreases s.len() - i,
        {
            if self.store[i].1.timestamp < self.store[best].1.timestamp {
                best = i;
            }
            i = i + 1;
        }
        let ghost key = s[best as int].0;
        proof {
            lemma_map_of_at(s, best as int);
            lemma_map_of_remove(s, best as int);
            s.remove_ensures(best as int);
            assert forall|k2: [u8; 32]| #[trigger] map_of(s).dom().contains(k2) implies map_of(s)[key].timestamp
                <= map_of(s)[k2].timestamp by {
                let j = key_index(s, k2);
                lemma_map_of_at(s, j);
            }
        }
        self.store.remove(best);
        Ghost(key)
    }

    /// Every stored key, each once.
    pub fn keys(&self) -> (ks: Vec<[u8; 32]>)
        requires
            self.wf(),
        ensures
            ks@.no_duplicates(),
            ks@.to_set() == self@.dom(),
    {
        let mut ks: Vec<[u8; 32]> = Vec::new();
        let mut i: usize = 0;
        while i < self.store.len()
            invariant
                keys_distinct(self.store@),
                0 <= i <= self.store@.len(),
                ks@ == keys_of(self.store@).take(i as int),
            decreases self.store@.len() - i,
        {
            assert(keys_of(self.store@).take(i + 1) =~= keys_of(self.store@).take(i as int).push(
                self.store@[i as int].0,
            ));
            ks.push(self.store[i].0);
            i = i + 1;
        }
        let ghost s = self.store@;
        assert(keys_of(s).take(s.len() as int) =~= keys_of(s));
        assert forall|a: int, b: int| 0 <= a < b < ks@.len() implies ks@[a] != ks@[b] by {
            assert(s[a].0 != s[b].0);
        }
        assert forall|k: [u8; 32]| ks@.to_set().contains(k) <==> self@.dom().contains(k) by {
            if ks@.to_set().contains(k) {
                let j = choose|j: int| 0 <= j < ks@.len() && ks@[j] == k;
                assert(s[j].0 == k);
            }
            if self@.dom().contains(k) {
                let j = key_index(s, k);
                assert(ks@[j] == k);
            }
        }
        assert(ks@.to_set() =~= self@.dom());
        ks
    }
}

/// Capacity of the layer 0 storage.
pub const LAYER0_CAPACITY: usize = 10_000;

/// Capacity of the layer 1 storage.
pub const LAYER1_CAPACITY: usize = 50_000;

/// Capacity of the layer 2 storage.
pub const LAYER2_CAPACITY: usize = 10_000;

/// Capacity of the layer 3 storage.
pub const LAYER3_CAPACITY: usize = 1_000;

/// The storage of all four layers.
#[derive(Debug)]
pub struct FourLayerStorage {
    pub layer0: LayerStorage,
    pub layer1: LayerStorage,
    pub layer2: LayerStorage,
    pub layer3: LayerStorage,
}

impl FourLayerStorage {
    /// All layers well formed.
    pub open spec fn wf(&self) -> bool {
        &&& self.layer0.wf()
        &&& self.layer1.wf()
        &&& self.layer2.wf()
        &&& self.layer3.wf()
    }

    /// Four empty storages with the layers' capacities.
    pub fn new() -> (s: Self)
        ensures
            s.wf(),
            s.layer0@ == Map::<[u8; 32], StoredValue>::empty(),
            s.layer1@ == Map::<[u8; 32], StoredValue>::empty(),
            s.layer2@ == Map::<[u8; 32], StoredValue>::empty(),
            s.layer3@ == Map::<[u8; 32], StoredValue>::empty(),
            s.layer0.capacity() == LAYER0_CAPACITY,
            s.layer1.capacity() == LAYER1_CAPACITY,
            s.layer2.capacity() == LAYER2_CAPACITY,
            s.layer3.capacity() == LAYER3_CAPACITY,
    {
        FourLayerStorage {
            layer0: LayerStorage::new(LAYER0_CAPACITY),
            layer1: LayerStorage::new(LAYER1_CAPACITY),
            layer2: LayerStorage::new(LAYER2_CAPACITY),
            layer3: LayerStorage::new(LAYER3_CAPACITY),
        }
    }

    /// Expire every layer at `current_epoch`.
    pub fn expire_all(&mut self, current_epoch: u64)
        requires
            old(self).wf(),
        ensures
            final(self).wf(),
            final(self).layer0@ == alive_part(old(self).layer0@, current_epoch),
            final(self).layer1@ == alive_part(old(self).layer1@, current_epoch),
            final(self).layer2@ == alive_part(old(self).layer2@, current_epoch),
            final(self).layer3@ == alive_part(old(self).layer3@, current_epoch),
            final(self).layer0.capacity() == old(self).layer0.capacity(),
            final(self).layer1.capacity() == old(self).layer1.capacity(),
            final(self).layer2.capacity() == old(self).layer2.capacity(),
            final(self).layer3.capacity() == old(self).layer3.capacity(),
    {
        self.layer0.expire(current_epoch);
        self.layer1.expire(current_epoch);
        self.layer2.expire(current_epoch);
        self.layer3.expire(current_epoch);
    }
}

impl Default for FourLayerStorage {
    fn default() -> (s: Self)
        ensures
            s.wf(),
            s.layer0@ == Map::<[u8; 32], StoredValue>::empty(),
            s.layer1@ == Map::<[u8; 32], StoredValue>::empty(),
            s.layer2@ == Map::<[u8; 32], StoredValue>::empty(),
            s.layer3@ == Map::<[u8; 32], StoredValue>::empty(),
    {
        Self::new()
    }
}

/// A storage never holds more entries than its size bound.
pub proof fn lemma_storage_size_bounded(s: LayerStorage)
    requires
        s.wf(),
    ensures
        s@.dom().finite(),
        s@.dom().len() <= size_bound(s.capacity()),
{
    lemma_map_of_len(s.store@);
}

/// What a read gives back of a write: after `put(key, value)` the key holds `value`.
pub proof fn lemma_put_then_get(
    m: Map<[u8; 32], StoredValue>,
    max: usize,
    key: [u8; 32],
    value: StoredValue,
    r: Map<[u8; 32], StoredValue>,
)
    requires
        put_result(m, max, key, value, r),
    ensures
        r.dom().contains(key),
        r[key] == value,
{
}

/// A put leaves every other key that was not evicted untouched.
pub proof fn lemma_put_keeps_others(
    m: Map<[u8; 32], StoredValue>,
    max: usize,
    key: [u8; 32],
    value: StoredValue,
    r: Map<[u8; 32], StoredValue>,
    other: [u8; 32],
)
    requires
        put_result(m, max, key, value, r),
        other != key,
        m.dom().contains(other),
        !(m.dom().len() >= max && !m.dom().contains(key)),
    ensures
        r.dom().contains(other),
        r[other] == m[other],
{
}

/// Expiring twice at the same epoch changes nothing more.
pub proof fn lemma_expire_idempotent(m: Map<[u8; 32], StoredValue>, epoch: u64)
    ensures
        alive_part(alive_part(m, epoch), epoch) == alive_part(m, epoch),
{
    assert(alive_part(alive_part(m, epoch), epoch) =~= alive_part(m, epoch));
}

} // verus!
