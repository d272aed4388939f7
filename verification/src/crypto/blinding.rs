use vstd::prelude::*;

use vstd::string::StringSliceAdditionalSpecFns;

use crate::crypto::group::{
    base_mul, base_mul_point, bytes32_same, canonical_scalar, combine, commitment_point, computed_point,
    decompresses, group_order, hash_to_group, le_value, lemma_group_order_positive, lemma_residue_split,
    lemma_same_residue, point_add, point_log, point_mul, point_sum, random_scalar, reduce_scalar,
    ristretto_valid, scalar_canonical, scalar_mul_sub, scalar_point, seed_point,
};
use crate::crypto::hash::{blake3_digest, blake3_hash};
use crate::types::{Epoch, NodeId};

verus! {

/// A node identity hidden behind a Pedersen commitment, valid for one epoch.
#[derive(Debug, Clone)]
pub struct BlindedIdentity {
    pub commitment: [u8; 32],
    pub epoch: Epoch,
}

/// Proof of knowledge of the opening of a blinded identity (a Schnorr-style sigma
/// protocol): the commitment, the nonce commitment and the two responses.
#[derive(Debug, Clone)]
pub struct BlindingProof {
    pub commitment: [u8; 32],
    pub nonce_commitment: [u8; 32],
    pub s1: [u8; 32],
    pub s2: [u8; 32],
}

/// The challenge of a blinding proof: the hash of the commitment followed by the nonce
/// commitment.
pub fn blinding_challenge(commitment: &[u8; 32], nonce_commitment: &[u8; 32]) -> (c: [u8; 32])
    ensures
        c@ == blake3_digest(commitment@ + nonce_commitment@),
{
    let mut bytes: Vec<u8> = Vec::new();
    let mut i: usize = 0;
    while i < 32
        invariant
            0 <= i <= 32,
            bytes@ == commitment@.take(i as int),
        decreases 32 - i,
    {
        assert(commitment@.take(i + 1) =~= commitment@.take(i as int).push(commitment@[i as int]));
        bytes.push(commitment[i]);
        i = i + 1;
    }
    let mut j: usize = 0;
    while j < 32
        invariant
            0 <= j <= 32,
            bytes@ == commitment@.take(32) + nonce_commitment@.take(j as int),
        decreases 32 - j,
    {
        assert(nonce_commitment@.take(j + 1) =~= nonce_commitment@.take(j as int).push(
            nonce_commitment@[j as int],
        ));
        bytes.push(nonce_commitment[j]);
        j = j + 1;
    }
    assert(commitment@.take(32) =~= commitment@);
    assert(nonce_commitment@.take(32) =~= nonce_commitment@);
    blake3_hash(bytes.as_slice())
}

/// The second generator of blinded identities: the point the seed
/// `rtfsn_identity_blinding_generator_v1` hashes to.
pub open spec fn identity_generator() -> Seq<u8> {
    seed_point("rtfsn_identity_blinding_generator_v1")
}

fn identity_h() -> (h: [u8; 32])
    ensures
        h@ == identity_generator(),
        computed_point(h@, point_log(h@)),
{
    hash_to_group("rtfsn_identity_blinding_generator_v1")
}

/// The left side of the Schnorr equation, `s1·G + s2·H + e·C`, compressed.
pub open spec fn schnorr_lhs(h: Seq<u8>, c: Seq<u8>, s1: Seq<u8>, s2: Seq<u8>, e: Seq<u8>) -> Seq<u8> {
    point_sum(point_sum(base_mul_point(s1), scalar_point(h, s2)), scalar_point(c, e))
}

/// The challenge of a proof: the hash of its commitment and nonce commitment.
pub open spec fn proof_challenge(p: BlindingProof) -> Seq<u8> {
    blake3_digest(p.commitment@ + p.nonce_commitment@)
}

/// What `BlindingProof::verify` accepts: both points decompress, both responses are
/// canonical scalars, and `s1·G + s2·H + e·C` compresses to the nonce commitment `R`
/// for the challenge `e`.
pub open spec fn proof_accepted(p: BlindingProof) -> bool {
    &&& ristretto_valid(p.commitment@)
    &&& ristretto_valid(p.nonce_commitment@)
    &&& canonical_scalar(p.s1@)
    &&& canonical_scalar(p.s2@)
    &&& schnorr_lhs(identity_generator(), p.commitment@, p.s1@, p.s2@, proof_challenge(p)) == p.nonce_commitment@
}

/// The same acceptance in discrete logarithms: `log R == s1 + s2·log H + e·log C`
/// modulo the group order.
pub open spec fn proof_accepted_log(p: BlindingProof) -> bool {
    &&& ristretto_valid(p.commitment@)
    &&& ristretto_valid(p.nonce_commitment@)
    &&& canonical_scalar(p.s1@)
    &&& canonical_scalar(p.s2@)
    &&& point_log(p.nonce_commitment@) == (le_value(p.s1@) + point_log(identity_generator()) * le_value(p.s2@)
        + point_log(p.commitment@) * le_value(proof_challenge(p))) % group_order()
}

/// Three residues added up leave the residue of their sum.
proof fn lemma_three_residues(a: int, b: int, c: int, n: int)
    requires
        n > 0,
    ensures
        (((a % n + b % n) % n) + c % n) % n == (a + b + c) % n,
{
    lemma_residue_split(a, n);
    lemma_residue_split(b, n);
    lemma_residue_split(c, n);
    lemma_residue_split(a % n + b % n, n);
    let x = ((a % n + b % n) % n) + c % n;
    let q = -(a / n) - (b / n) - ((a % n + b % n) / n) - (c / n);
    assert(x == a + b + c + n * q) by (nonlinear_arith)
        requires
            a % n == a - n * (a / n),
            b % n == b - n * (b / n),
            c % n == c - n * (c / n),
            (a % n + b % n) % n == (a % n + b % n) - n * ((a % n + b % n) / n),
            x == ((a % n + b % n) % n) + c % n,
            q == -(a / n) - (b / n) - ((a % n + b % n) / n) - (c / n),
    ;
    lemma_same_residue(x, a + b + c, q, n);
}

impl BlindingProof {
    /// Check the proof of knowledge: `s1·G + s2·H + e·C == R` with `e` the challenge.
    pub fn verify(&self) -> (ok: bool)
        ensures
            ok == proof_accepted(*self),
            ok == proof_accepted_log(*self),
    {
        if !decompresses(&self.commitment) || !decompresses(&self.nonce_commitment) {
            return false;
        }
        let e = blinding_challenge(&self.commitment, &self.nonce_commitment);
        if !scalar_canonical(&self.s1) || !scalar_canonical(&self.s2) {
            return false;
        }
        proof {
            lemma_group_order_positive();
        }
        let h = identity_h();
        let g1 = base_mul(&self.s1);
        let g2 = match point_mul(&h, &self.s2) {
            Some(x) => x,
            None => {
                proof {
                    assert(false);
                }
                return false;
            },
        };
        let g3 = match point_mul(&self.commitment, &e) {
            Some(x) => x,
            None => {
                proof {
                    assert(false);
                }
                return false;
            },
        };
        let t = match point_add(&g1, &g2) {
            Some(x) => x,
            None => {
                proof {
                    assert(false);
                }
                return false;
            },
        };
        let lhs = match point_add(&t, &g3) {
            Some(x) => x,
            None => {
                proof {
                    assert(false);
                }
                return false;
            },
        };
        let ok = bytes32_same(&lhs, &self.nonce_commitment);
        proof {
            let n = group_order();
            let a = le_value(self.s1@);
            let b = point_log(h@) * le_value(self.s2@);
            let c = point_log(self.commitment@) * le_value(e@);
            lemma_three_residues(a, b, c, n);
            assert(point_log(lhs@) == (a + b + c) % n);
            if point_log(self.nonce_commitment@) == point_log(lhs@) {
                assert(self.nonce_commitment@ == lhs@);
            }
        }
        ok
    }
}

/// The secret material needed to prove ownership of a blinded identity: the node's
/// scalar and the blinding factor, as canonical scalar bytes.
#[derive(Debug, Clone)]
pub struct BlindingSecret {
    pub node_scalar: [u8; 32],
    pub blinding_factor: [u8; 32],
    pub epoch: Epoch,
}

impl BlindingSecret {
    /// The secret of `node_id` for `epoch`: its id reduced to a scalar and a fresh
    /// random blinding factor.
    pub fn new(node_id: &NodeId, epoch: Epoch) -> (s: Self)
        ensures
            le_value(s.node_scalar@) == le_value(node_id.0@) % group_order(),
            canonical_scalar(s.blinding_factor@),
            s.epoch == epoch,
    {
        let node_scalar = reduce_scalar(&node_id.0);
        let blinding_factor = random_scalar();
        BlindingSecret { node_scalar, blinding_factor, epoch }
    }

    /// The blinded identity: the commitment `node·G + blinding·H` for the epoch.
    pub fn blind(&self) -> (b: BlindedIdentity)
        ensures
            b.commitment@ == commitment_point(identity_generator(), self.node_scalar@, self.blinding_factor@),
            computed_point(
                b.commitment@,
                le_value(self.node_scalar@) + point_log(identity_generator()) * le_value(self.blinding_factor@),
            ),
            b.epoch == self.epoch,
    {
        let h = identity_h();
        BlindedIdentity { commitment: combine(&h, &self.node_scalar, &self.blinding_factor), epoch: self.epoch }
    }

    /// A proof of knowledge of the commitment's opening (a Schnorr-style sigma
    /// protocol): for random nonces `k1`, `k2` the nonce commitment is `k1·G + k2·H`
    /// and the responses are `k1 - e·node` and `k2 - e·blinding` for the challenge `e`.
    /// The proof is one that `BlindingProof::verify` accepts.
    pub fn prove_knowledge(&self) -> (p: BlindingProof)
        ensures
            p.commitment@ == commitment_point(identity_generator(), self.node_scalar@, self.blinding_factor@),
            proof_accepted_log(p),
            exists|k1: Seq<u8>, k2: Seq<u8>|
                #![trigger commitment_point(identity_generator(), k1, k2)]
                {
                    let e = proof_challenge(p);
                    &&& p.nonce_commitment@ == commitment_point(identity_generator(), k1, k2)
                    &&& le_value(p.s1@) == (le_value(k1) - le_value(e) * le_value(self.node_scalar@))
                        % group_order()
                    &&& le_value(p.s2@) == (le_value(k2) - le_value(e) * le_value(self.blinding_factor@))
                        % group_order()
                },
    {
        proof {
            lemma_group_order_positive();
        }
        let h = identity_h();
        let k1 = random_scalar();
        let k2 = random_scalar();
        let nonce_commitment = combine(&h, &k1, &k2);
        let commitment = combine(&h, &self.node_scalar, &self.blinding_factor);
        let e = blinding_challenge(&commitment, &nonce_commitment);
        let s1 = scalar_mul_sub(&k1, &e, &self.node_scalar);
        let s2 = scalar_mul_sub(&k2, &e, &self.blinding_factor);
        let p = BlindingProof { commitment, nonce_commitment, s1, s2 };
        proof {
            let n = group_order();
            let ph = point_log(h@);
            let kk1 = le_value(k1@);
            let kk2 = le_value(k2@);
            let nn = le_value(self.node_scalar@);
            let bb = le_value(self.blinding_factor@);
            let ee = le_value(e@);
            let x1 = kk1 - ee * nn;
            let x2 = kk2 - ee * bb;
            let x3 = nn + ph * bb;
            lemma_residue_split(x1, n);
            lemma_residue_split(x2, n);
            lemma_residue_split(x3, n);
            let q1 = x1 / n;
            let q2 = x2 / n;
            let q3 = x3 / n;
            let s1v = le_value(s1@);
            let s2v = le_value(s2@);
            let pc = point_log(commitment@);
            assert(s1v == x1 - n * q1);
            assert(s2v == x2 - n * q2);
            assert(pc == x3 - n * q3);
            assert(s1v + ph * s2v + pc * ee == kk1 + ph * kk2 + n * (-(q1 + ph * q2 + q3 * ee))) by (nonlinear_arith)
                requires
                    s1v == kk1 - ee * nn - n * q1,
                    s2v == kk2 - ee * bb - n * q2,
                    pc == nn + ph * bb - n * q3,
            ;
            lemma_same_residue(s1v + ph * s2v + pc * ee, kk1 + ph * kk2, -(q1 + ph * q2 + q3 * ee), n);
            assert(p.nonce_commitment@ == commitment_point(identity_generator(), k1@, k2@));
        }
        p
    }
}

} // verus!
