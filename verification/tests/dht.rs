use rtfsn::dht::routing::{xor_distance, LayeredRouting, RoutingTable};
use rtfsn::dht::storage::{FourLayerStorage, LayerStorage, StoredValue};
use rtfsn::types::NodeId;

#[test]
fn test_routing_table() {
    let local = [0u8; 32];
    let mut rt = RoutingTable::new(local);

    for i in 1..=30u8 {
        let mut id = [0u8; 32];
        id[0] = i;
        assert!(rt.insert(NodeId(id)));
    }

    assert_eq!(rt.node_count(), 30);

    let target = {
        let mut t = [0u8; 32];
        t[0] = 5;
        t
    };
    let closest = rt.find_closest(&target, 5);
    assert_eq!(closest.len(), 5);
    assert_eq!(closest[0].0[0], 5);
}

#[test]
fn test_xor_distance_symmetry() {
    let a = [1u8; 32];
    let b = [2u8; 32];
    assert_eq!(xor_distance(&a, &b), xor_distance(&b, &a));
}

#[test]
fn routing_refuses_own_key_and_full_bucket() {
    let local = [0u8; 32];
    let mut rt = RoutingTable::new(local);
    assert!(!rt.insert(NodeId(local)));
    // Keys with first byte 0x80.. share bucket 255 relative to the zero key.
    for i in 0..20u8 {
        let mut id = [0u8; 32];
        id[0] = 0x80;
        id[31] = i;
        assert!(rt.insert(NodeId(id)));
    }
    let mut extra = [0u8; 32];
    extra[0] = 0x80;
    extra[31] = 200;
    assert!(!rt.insert(NodeId(extra)));
    assert_eq!(rt.node_count(), 20);
    // Re-inserting a known node refreshes it to the end of its bucket.
    let mut first = [0u8; 32];
    first[0] = 0x80;
    assert!(rt.insert(NodeId(first)));
    let all = rt.all_nodes();
    assert_eq!(all.len(), 20);
    assert_eq!(all[19], NodeId(first));
}

#[test]
fn routing_remove_and_closest_order() {
    let mut rt = RoutingTable::new([0u8; 32]);
    for i in 1..=10u8 {
        let mut id = [0u8; 32];
        id[0] = i;
        rt.insert(NodeId(id));
    }
    let mut gone = [0u8; 32];
    gone[0] = 3;
    rt.remove(&NodeId(gone));
    assert_eq!(rt.node_count(), 9);
    let mut target = [0u8; 32];
    target[0] = 3;
    let closest = rt.find_closest(&target, 3);
    // Distances from 3: 2 -> 1, 1 -> 2, 7 -> 4.
    assert_eq!(closest.len(), 3);
    assert_eq!(closest[0].0[0], 2);
    assert_eq!(closest[1].0[0], 1);
    assert_eq!(closest[2].0[0], 7);
    // Asking for more than there are gives all of them.
    assert_eq!(rt.find_closest(&target, 50).len(), 9);
}

#[test]
fn layered_routing_starts_empty() {
    let lr = LayeredRouting::new([9u8; 32]);
    assert_eq!(lr.layer0.node_count(), 0);
    assert_eq!(lr.layer3.node_count(), 0);
}

#[test]
fn test_layer_storage_basic() {
    let mut storage = LayerStorage::new(100);

    let key = [1u8; 32];
    let value = StoredValue {
        data: vec![42],
        timestamp: 100,
        ttl_epochs: 10,
        origin_epoch: 1,
    };

    assert!(storage.put(key, value));
    assert!(storage.get(&key).is_some());
    assert_eq!(storage.len(), 1);
}

#[test]
fn test_expiration() {
    let mut storage = LayerStorage::new(100);

    for i in 0..5u8 {
        let mut key = [0u8; 32];
        key[0] = i;
        storage.put(
            key,
            StoredValue {
                data: vec![i],
                timestamp: i as u64 * 100,
                ttl_epochs: 3,
                origin_epoch: i as u64,
            },
        );
    }

    assert_eq!(storage.len(), 5);
    storage.expire(5);
    assert_eq!(storage.len(), 2);
}

fn value(ts: u64) -> StoredValue {
    StoredValue { data: vec![ts as u8], timestamp: ts, ttl_epochs: 1, origin_epoch: 0 }
}

#[test]
fn storage_evicts_oldest_when_full() {
    let mut storage = LayerStorage::new(2);
    storage.put([1u8; 32], value(50));
    storage.put([2u8; 32], value(10));
    storage.put([3u8; 32], value(30));
    assert_eq!(storage.len(), 2);
    assert!(storage.get(&[2u8; 32]).is_none());
    assert!(storage.get(&[1u8; 32]).is_some());
    assert_eq!(storage.get(&[3u8; 32]).unwrap().timestamp, 30);
    // Replacing an existing key evicts nothing.
    storage.put([1u8; 32], value(70));
    assert_eq!(storage.len(), 2);
    assert_eq!(storage.get(&[1u8; 32]).unwrap().timestamp, 70);
    assert!(storage.remove(&[1u8; 32]));
    assert!(!storage.remove(&[1u8; 32]));
    assert_eq!(storage.keys(), vec![[3u8; 32]]);
    assert!(!storage.is_empty());
}

#[test]
fn storage_with_zero_capacity_keeps_one() {
    let mut storage = LayerStorage::new(0);
    storage.put([1u8; 32], value(1));
    storage.put([2u8; 32], value(2));
    assert_eq!(storage.len(), 1);
    assert!(storage.get(&[2u8; 32]).is_some());
}

#[test]
fn four_layer_storage_expires_every_layer() {
    let mut s = FourLayerStorage::new();
    s.layer0.put([1u8; 32], value(1));
    s.layer3.put([1u8; 32], value(1));
    s.expire_all(1);
    assert!(s.layer0.is_empty());
    assert!(s.layer3.is_empty());
}

#[test]
fn routing_remove_keeps_order_of_the_rest() {
    let mut rt = RoutingTable::new([0u8; 32]);
    for i in 1..=6u8 {
        let mut id = [0u8; 32];
        id[0] = i;
        assert!(rt.insert(NodeId(id)));
    }
    let before = rt.all_nodes();
    let mut absent = [0u8; 32];
    absent[0] = 9;
    rt.remove(&NodeId(absent));
    assert_eq!(rt.all_nodes(), before);
    assert_eq!(rt.node_count(), 6);
    let victim = before[2];
    rt.remove(&victim);
    let expected: Vec<NodeId> = before.iter().copied().filter(|n| *n != victim).collect();
    assert_eq!(rt.all_nodes(), expected);
    assert_eq!(rt.node_count(), 5);
}
