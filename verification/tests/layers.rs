use rtfsn::crypto::vdf::VdfProof;
use rtfsn::layers::layer1::{beacon_key, PeerCountProof};
use rtfsn::crypto::pedersen::SerializableCommitment;
use rtfsn::layers::layer2::{ClusterAggregator, ClusterId};
use rtfsn::layers::layer3::{ClockStream, ClockTick};
use rtfsn::layers::valve::valve_l2_to_l3;
use rtfsn::types::{Epoch, MerkleDigest, NodeId};

#[test]
fn test_clock_stream_chain() {
    let mut stream = ClockStream::new();

    for i in 1u64..=10 {
        let time = i * 1_000_000_000;
        let confidence = 5_000_000;
        let hash = *blake3::hash(&i.to_le_bytes()).as_bytes();
        stream.emit(time, confidence, hash, None);
    }

    assert_eq!(stream.len(), 11);
    assert!(stream.verify_all());
}

#[test]
fn test_monotonicity() {
    let mut stream = ClockStream::new();

    stream.emit(100, 1, [0u8; 32], None);
    stream.emit(50, 1, [1u8; 32], None);

    let latest = stream.latest();
    assert!(latest.network_time_nanos >= 100);
    assert!(stream.verify_all());
}

#[test]
fn test_chain_verification_detects_tampering() {
    let mut stream = ClockStream::new();
    stream.emit(1_000_000_000, 5_000, [0u8; 32], None);
    stream.emit(2_000_000_000, 5_000, [1u8; 32], None);

    assert!(stream.verify_all());
}

fn tick_bytes(t: &ClockTick) -> Vec<u8> {
    let mut v = Vec::new();
    v.extend_from_slice(&t.epoch.0.to_le_bytes());
    v.extend_from_slice(&t.network_time_nanos.to_le_bytes());
    v.extend_from_slice(&t.confidence_nanos.to_le_bytes());
    v.extend_from_slice(&t.epoch_hash);
    v.extend_from_slice(&t.prev_hash);
    v
}

#[test]
fn tick_hash_and_links() {
    let genesis = ClockTick::genesis();
    assert_eq!(genesis.hash(), *blake3::hash(&tick_bytes(&genesis)).as_bytes());
    let mut stream = ClockStream::new();
    let t = stream.emit(0, 9, [5u8; 32], None).clone();
    assert_eq!(t.epoch, Epoch(1));
    assert_eq!(t.network_time_nanos, 1);
    assert_eq!(t.prev_hash, genesis.hash());
    assert!(t.verify_chain(&genesis));
    let mut forged = t.clone();
    forged.prev_hash[0] ^= 1;
    assert!(!forged.verify_chain(&genesis));
    let mut skipped = t.clone();
    skipped.epoch = Epoch(2);
    assert!(!skipped.verify_chain(&genesis));
    assert_eq!(stream.get(Epoch(1)).unwrap().network_time_nanos, 1);
    assert!(stream.get(Epoch(2)).is_none());
    // A tick carrying a delay proof that does not hold breaks the chain.
    let mut bad = VdfProof::evaluate(&[3u8; 32], 2);
    bad.output[5] ^= 1;
    stream.emit(10, 9, [6u8; 32], Some(bad));
    assert!(!stream.verify_all());
}

#[test]
fn test_vdf_evaluate_verify() {
    let input = *blake3::hash(b"epoch_seed_42").as_bytes();
    let proof = VdfProof::evaluate(&input, 1000);
    assert!(proof.verify());
}

#[test]
fn test_vdf_wrong_output() {
    let input = *blake3::hash(b"epoch_seed_42").as_bytes();
    let mut proof = VdfProof::evaluate(&input, 1000);
    proof.output[0] ^= 1;
    assert!(!proof.verify());
}

#[test]
fn vdf_hashes_iteratively() {
    let input = [7u8; 32];
    let once = *blake3::hash(&input).as_bytes();
    let twice = *blake3::hash(&once).as_bytes();
    assert_eq!(VdfProof::evaluate(&input, 0).output, input);
    assert_eq!(VdfProof::evaluate(&input, 2).output, twice);
}

fn commitment(b: u8) -> SerializableCommitment {
    SerializableCommitment { bytes: [b; 32] }
}

#[test]
fn test_cluster_aggregation() {
    let mut agg = ClusterAggregator::new();
    let coords = [0.1f64, 0.2];
    let bits: Vec<u64> = coords.iter().map(|c| c.to_bits()).collect();
    let cluster_id = ClusterId::from_region(&bits, Epoch(1));

    let offsets = vec![0.001f64, 0.0012, 0.0008, 0.0011, 0.0009];
    let entry = agg.aggregate(cluster_id, Epoch(1), commitment(1), commitment(2), offsets.len());
    assert!(entry.is_some());

    let entry = entry.unwrap();
    assert_eq!(entry.cluster_size, 5);
}

#[test]
fn cluster_queries_and_tick() {
    let mut agg = ClusterAggregator::new();
    assert!(agg.aggregate(ClusterId([1u8; 32]), Epoch(2), commitment(1), commitment(2), 0).is_none());
    agg.aggregate(ClusterId([1u8; 32]), Epoch(2), commitment(1), commitment(2), 3);
    agg.aggregate(ClusterId([2u8; 32]), Epoch(3), commitment(3), commitment(4), 1);
    agg.aggregate(ClusterId([3u8; 32]), Epoch(2), commitment(5), commitment(6), 2);
    let e2 = agg.get_epoch(Epoch(2));
    assert_eq!(e2.len(), 2);
    assert_eq!(e2[1].cluster_id, ClusterId([3u8; 32]));
    assert!(!agg.has_consensus(Epoch(2), 1));
    assert!(agg.has_consensus(Epoch(2), 0));

    let mut stream = ClockStream::new();
    assert!(!valve_l2_to_l3(&agg, &mut stream, Epoch(9), 1_000, 1));
    assert!(valve_l2_to_l3(&agg, &mut stream, Epoch(2), 1_000, 1));
    assert_eq!(stream.len(), 2);
    let mut expected = Vec::new();
    for b in [1u8, 2, 5, 6] {
        expected.extend_from_slice(&[b; 32]);
    }
    assert_eq!(stream.latest().epoch_hash, *blake3::hash(&expected).as_bytes());
    assert_eq!(stream.latest().confidence_nanos, 5_000_000);
    assert!(stream.verify_all());
}

#[test]
fn region_and_merkle_hashes() {
    let id = ClusterId::from_region(&[1, 2], Epoch(3));
    let mut bytes = Vec::new();
    for v in [1u64, 2, 3] {
        bytes.extend_from_slice(&v.to_le_bytes());
    }
    assert_eq!(id.0, *blake3::hash(&bytes).as_bytes());

    let items: [&[u8]; 2] = [b"ab", b"c"];
    let d = MerkleDigest::from_items(&items);
    let mut cat = Vec::new();
    cat.extend_from_slice(blake3::hash(b"ab").as_bytes());
    cat.extend_from_slice(blake3::hash(b"c").as_bytes());
    assert_eq!(d.0, *blake3::hash(&cat).as_bytes());
    let both = MerkleDigest::combine(&MerkleDigest([1u8; 32]), &MerkleDigest([2u8; 32]));
    let mut lr = vec![1u8; 32];
    lr.extend_from_slice(&[2u8; 32]);
    assert_eq!(both.0, *blake3::hash(&lr).as_bytes());

    let key = beacon_key(&[4u8; 32], Epoch(7));
    let mut kb = vec![4u8; 32];
    kb.extend_from_slice(&7u64.to_le_bytes());
    assert_eq!(key, *blake3::hash(&kb).as_bytes());

    assert!(PeerCountProof::for_peers(0, &[]).is_none());
    let peers = [NodeId([1u8; 32]), NodeId([2u8; 32])];
    let p = PeerCountProof::for_peers(2, &peers).unwrap();
    assert_eq!(p.claimed_count, 2);
    let ids: [&[u8]; 2] = [&peers[0].0, &peers[1].0];
    assert_eq!(p.merkle_root, MerkleDigest::from_items(&ids).0);
}
