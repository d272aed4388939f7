use curve25519_dalek::scalar::Scalar;
use rtfsn::crypto::blinding::BlindingSecret;
use rtfsn::crypto::group::{random_scalar, scalar_from_i64, scalar_from_u64};
use rtfsn::crypto::pedersen::{PedersenCommitment, RangeProof};
use rtfsn::crypto::signatures::NodeKeypair;
use rtfsn::geoid::model::{CommittedGeoidCoordinate, RegionId};
use rtfsn::types::{Epoch, NodeId};

#[test]
fn test_sign_verify() {
    let kp = NodeKeypair::generate();
    let msg = b"hello network time";
    let signed = kp.sign(msg);
    assert!(signed.verify());
    assert_eq!(signed.signer_node_id(), kp.node_id);
}

#[test]
fn test_tampered_message() {
    let kp = NodeKeypair::generate();
    let mut signed = kp.sign(b"original");
    signed.payload = b"tampered".to_vec();
    assert!(!signed.verify());
}

#[test]
fn signature_shape() {
    let kp = NodeKeypair::generate();
    assert_eq!(kp.node_id, NodeId::from_public_key(&kp.verifying_key));
    assert_eq!(kp.node_id.0, *blake3::hash(&kp.verifying_key).as_bytes());
    let mut signed = kp.sign(b"x");
    assert_eq!(signed.payload, b"x".to_vec());
    assert_eq!(signed.signature.len(), 64);
    assert_eq!(signed.signer, kp.verifying_key);
    signed.signature.pop();
    assert!(!signed.verify());
}

#[test]
fn test_blinding_roundtrip() {
    let node_id = NodeId([42u8; 32]);
    let epoch = Epoch(1);
    let secret1 = BlindingSecret::new(&node_id, epoch);
    let secret2 = BlindingSecret::new(&node_id, epoch);
    let blinded1 = secret1.blind();
    let blinded2 = secret2.blind();
    // Different blinding factors produce different commitments
    assert_ne!(blinded1.commitment, blinded2.commitment);
}

#[test]
fn test_proof_of_knowledge() {
    let node_id = NodeId([7u8; 32]);
    let epoch = Epoch(5);
    let secret = BlindingSecret::new(&node_id, epoch);
    let proof = secret.prove_knowledge();
    assert!(proof.verify());
}

#[test]
fn test_tampered_proof_fails() {
    let node_id = NodeId([7u8; 32]);
    let epoch = Epoch(5);
    let secret = BlindingSecret::new(&node_id, epoch);
    let mut proof = secret.prove_knowledge();
    proof.s1[0] ^= 0xFF;
    assert!(!proof.verify());
}

#[test]
fn test_commitment_verify() {
    let value = scalar_from_u64(42);
    let blinding = random_scalar();
    let commitment = PedersenCommitment::commit(&value, &blinding);
    assert!(commitment.verify(&value, &blinding));
    let wrong_value = scalar_from_u64(43);
    assert!(!commitment.verify(&wrong_value, &blinding));
}

#[test]
fn test_commitment_homomorphic() {
    let v1 = scalar_from_u64(10);
    let v2 = scalar_from_u64(20);
    let b1 = random_scalar();
    let b2 = random_scalar();
    let c1 = PedersenCommitment::commit(&v1, &b1);
    let c2 = PedersenCommitment::commit(&v2, &b2);
    let c_sum = c1.add(&c2);
    let v_sum = scalar_from_u64(30);
    let b_sum = (Scalar::from_bytes_mod_order(b1) + Scalar::from_bytes_mod_order(b2)).to_bytes();
    assert!(c_sum.verify(&v_sum, &b_sum));
}

#[test]
fn test_range_proof() {
    let blinding = random_scalar();
    let proof = RangeProof::create(100, &blinding, 8);
    assert!(proof.is_some());
    let overflow = RangeProof::create(300, &blinding, 8);
    assert!(overflow.is_none());
}

#[test]
fn range_proof_response_and_challenge() {
    let blinding = scalar_from_u64(1_000);
    let proof = RangeProof::create(7, &blinding, 8).unwrap();
    let value = Scalar::from(7u64);
    let challenge = Scalar::from_bytes_mod_order(proof.challenge);
    let expected = Scalar::from(1_000u64) - challenge * value;
    assert_eq!(proof.response, expected.to_bytes());
    let commitment = PedersenCommitment::commit(&scalar_from_u64(7), &blinding);
    assert_eq!(proof.commitment.bytes, commitment.to_serializable().bytes);
}

#[test]
fn proofs_with_bad_points_or_scalars_fail() {
    let secret = BlindingSecret::new(&NodeId([9u8; 32]), Epoch(2));
    let good = secret.prove_knowledge();
    let mut bad_point = good.clone();
    bad_point.commitment = [0xFFu8; 32];
    assert!(!bad_point.verify());
    let mut bad_scalar = good.clone();
    bad_scalar.s2 = [0xFFu8; 32];
    assert!(!bad_scalar.verify());
    let mut other_nonce = good.clone();
    other_nonce.nonce_commitment = secret.prove_knowledge().nonce_commitment;
    assert!(!other_nonce.verify());
}

#[test]
fn scalars_of_integers() {
    assert_eq!(scalar_from_u64(0x0102), {
        let mut b = [0u8; 32];
        b[0] = 0x02;
        b[1] = 0x01;
        b
    });
    assert_eq!(scalar_from_i64(-5), (-Scalar::from(5u64)).to_bytes());
    assert_eq!(scalar_from_i64(i64::MIN), (-Scalar::from(1u64 << 63)).to_bytes());
    let r = random_scalar();
    assert_eq!(Scalar::from_bytes_mod_order(r).to_bytes(), r);
}

#[test]
fn region_path_commitments() {
    let path = [RegionId([3u8; 32]), RegionId([4u8; 32])];
    let (committed, blindings) = CommittedGeoidCoordinate::from_region_path(&path, Epoch(6));
    assert_eq!(committed.epoch, Epoch(6));
    assert_eq!(committed.region_commitments.len(), 2);
    assert_eq!(blindings.len(), 2);
    assert_ne!(committed.region_commitments[0].bytes, committed.region_commitments[1].bytes);
}
