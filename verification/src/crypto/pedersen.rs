use vstd::prelude::*;

use vstd::string::StringSliceAdditionalSpecFns;

use crate::crypto::group::{
    bytes32_same, combine, commitment_point, computed_point, group_order, hash_to_group, le_value,
    lemma_group_order_positive, lemma_residue_split, lemma_same_residue, point_add, point_log, point_sum,
    ristretto_valid, scalar_from_u64, scalar_mul_sub, seed_point, u64_scalar,
};
use crate::crypto::hash::{blake3_digest, blake3_hash, le_bytes, push_le_u64};

verus! {

/// A Pedersen commitment as the 32 bytes of its compressed Ristretto point.
#[derive(Debug, Clone)]
pub struct SerializableCommitment {
    pub bytes: [u8; 32],
}

/// Evidence that a committed value lies in `[0, 2^bit_count)`.
#[derive(Debug, Clone)]
pub struct RangeProof {
    pub commitment: SerializableCommitment,
    pub challenge: [u8; 32],
    pub response: [u8; 32],
    pub bit_count: u32,
}

/// A range of `bit_count` bits admits `value`: `value < 2^min(bit_count, 63)`.
pub open spec fn in_range(value: u64, bit_count: u32) -> bool {
    value < vstd::arithmetic::power2::pow2(if bit_count < 63 {
        bit_count as nat
    } else {
        63
    })
}

/// Whether a range proof over `bit_count` bits can be made for `value`.
pub fn range_admits(value: u64, bit_count: u32) -> (ok: bool)
    ensures
        ok == in_range(value, bit_count),
{
    let bits = if bit_count < 63 {
        bit_count
    } else {
        63
    };
    let mut bound: u64 = 1;
    let mut i: u32 = 0;
    proof {
        vstd::arithmetic::power2::lemma2_to64();
        vstd::arithmetic::power2::lemma2_to64_rest();
    }
    while i < bits
        invariant
            bits <= 63,
            0 <= i <= bits,
            bound == vstd::arithmetic::power2::pow2(i as nat),
        decreases bits - i,
    {
        proof {
            vstd::arithmetic::power2::lemma_pow2_unfold((i + 1) as nat);
            if i + 1 < 63 {
                vstd::arithmetic::power2::lemma_pow2_strictly_increases((i + 1) as nat, 63);
            }
            vstd::arithmetic::power2::lemma2_to64_rest();
        }
        bound = bound * 2;
        i = i + 1;
    }
    value < bound
}

/// The bytes a range proof's challenge hashes: the commitment, then the value in
/// little-endian order.
pub open spec fn range_challenge_bytes(commitment: Seq<u8>, value: u64) -> Seq<u8> {
    commitment + le_bytes(value)
}

/// The challenge of a range proof: the hash of the commitment and the value.
pub fn range_challenge(commitment: &[u8; 32], value: u64) -> (c: [u8; 32])
    ensures
        c@ == blake3_digest(range_challenge_bytes(commitment@, value)),
{
    let mut bytes: Vec<u8> = Vec::new();
    let mut i: usize = 0;
    while i < 32
        invariant
            0 <= i <= 32,
            bytes@ == commitment@.take(i as int),
        decreases 32 - i,
    {
        assert(commitment@.take(i + 1) =~= commitment@.take(i as int).push(commitment@[i as int]));
        bytes.push(commitment[i]);
        i = i + 1;
    }
    assert(commitment@.take(32) =~= commitment@);
    push_le_u64(&mut bytes, value);
    blake3_hash(bytes.as_slice())
}

/// The second Pedersen generator: the point the seed `rtfsn_pedersen_h_generator_v1`
/// hashes to.
pub open spec fn pedersen_generator() -> Seq<u8> {
    seed_point("rtfsn_pedersen_h_generator_v1")
}

fn pedersen_h() -> (h: [u8; 32])
    ensures
        h@ == pedersen_generator(),
        computed_point(h@, point_log(h@)),
{
    hash_to_group("rtfsn_pedersen_h_generator_v1")
}

/// The commitment to `value` with `blinding`: `value·G + blinding·H`, compressed.
pub open spec fn commitment_to(value: Seq<u8>, blinding: Seq<u8>) -> Seq<u8> {
    commitment_point(pedersen_generator(), value, blinding)
}

/// The point `point` opens to the value `v` with the blinding `b`: it is `v·G + b·H`,
/// that is, its discrete logarithm is `v + b·log H` modulo the group order.
pub open spec fn opens(point: Seq<u8>, v: int, b: int) -> bool {
    &&& ristretto_valid(point)
    &&& point_log(point) == (v + point_log(pedersen_generator()) * b) % group_order()
}

/// Homomorphism: the sum of a commitment to `v1` with `b1` and a commitment to `v2`
/// with `b2` is a commitment to `v1 + v2` with `b1 + b2`.
pub proof fn lemma_commitments_add(c1: Seq<u8>, c2: Seq<u8>, c: Seq<u8>, v1: int, b1: int, v2: int, b2: int)
    requires
        opens(c1, v1, b1),
        opens(c2, v2, b2),
        ristretto_valid(c),
        point_log(c) == (point_log(c1) + point_log(c2)) % group_order(),
    ensures
        opens(c, v1 + v2, b1 + b2),
{
    lemma_group_order_positive();
    let n = group_order();
    let ph = point_log(pedersen_generator());
    let x1 = v1 + ph * b1;
    let x2 = v2 + ph * b2;
    lemma_residue_split(x1, n);
    lemma_residue_split(x2, n);
    assert(x1 % n + x2 % n == (v1 + v2) + ph * (b1 + b2) + n * (-(x1 / n) - (x2 / n))) by (nonlinear_arith)
        requires
            x1 == v1 + ph * b1,
            x2 == v2 + ph * b2,
            x1 % n == x1 - n * (x1 / n),
            x2 % n == x2 - n * (x2 / n),
    ;
    lemma_same_residue(x1 % n + x2 % n, (v1 + v2) + ph * (b1 + b2), -(x1 / n) - (x2 / n), n);
}

/// A Pedersen commitment: a Ristretto point, kept as its compressed bytes.
#[derive(Debug, Clone)]
pub struct PedersenCommitment {
    compressed: [u8; 32],
}

impl PedersenCommitment {
    /// The commitment encodes a point (every commitment made here does).
    pub closed spec fn wf(&self) -> bool {
        ristretto_valid(self.compressed@)
    }

    /// The compressed point.
    pub closed spec fn point(&self) -> Seq<u8> {
        self.compressed@
    }

    /// `C = value·G + blinding·H`.
    pub fn commit(value: &[u8; 32], blinding: &[u8; 32]) -> (c: Self)
        ensures
            c.wf(),
            c.point() == commitment_to(value@, blinding@),
            opens(c.point(), le_value(value@), le_value(blinding@)),
            computed_point(c.point(), le_value(value@) + point_log(pedersen_generator()) * le_value(blinding@)),
    {
        let h = pedersen_h();
        PedersenCommitment { compressed: combine(&h, value, blinding) }
    }

    /// The sum of two commitments: a commitment to the sum of the values with the sum of
    /// the blindings.
    pub fn add(&self, other: &PedersenCommitment) -> (c: Self)
        requires
            self.wf(),
            other.wf(),
        ensures
            c.wf(),
            c.point() == point_sum(self.point(), other.point()),
            point_log(c.point()) == (point_log(self.point()) + point_log(other.point())) % group_order(),
            forall|v1: int, b1: int, v2: int, b2: int|
                #![trigger opens(self.point(), v1, b1), opens(other.point(), v2, b2)]
                opens(self.point(), v1, b1) && opens(other.point(), v2, b2) ==> opens(c.point(), v1 + v2, b1 + b2),
    {
        match point_add(&self.compressed, &other.compressed) {
            Some(p) => {
                let c = PedersenCommitment { compressed: p };
                proof {
                    assert forall|v1: int, b1: int, v2: int, b2: int|
                        #![trigger opens(self.point(), v1, b1), opens(other.point(), v2, b2)]
                        opens(self.point(), v1, b1) && opens(other.point(), v2, b2) implies opens(
                        c.point(),
                        v1 + v2,
                        b1 + b2,
                    ) by {
                        lemma_commitments_add(self.point(), other.point(), c.point(), v1, b1, v2, b2);
                    }
                }
                c
            },
            None => {
                proof {
                    assert(false);
                }
                PedersenCommitment { compressed: self.compressed }
            },
        }
    }

    /// Whether the commitment opens to `value` with `blinding`.
    pub fn verify(&self, value: &[u8; 32], blinding: &[u8; 32]) -> (ok: bool)
        ensures
            ok == (self.point() == commitment_to(value@, blinding@)),
            ok == opens(self.point(), le_value(value@), le_value(blinding@)),
    {
        let expected = Self::commit(value, blinding);
        let ok = bytes32_same(&self.compressed, &expected.compressed);
        proof {
            if opens(self.point(), le_value(value@), le_value(blinding@)) {
                assert(point_log(self.compressed@) == point_log(expected.compressed@));
                assert(self.compressed@ == expected.compressed@);
            }
        }
        ok
    }

    /// The serialisable form: the compressed bytes.
    pub fn to_serializable(&self) -> (s: SerializableCommitment)
        ensures
            s.bytes@ == self.point(),
    {
        SerializableCommitment { bytes: self.compressed }
    }
}

impl RangeProof {
    /// A range proof for `value` over `bit_count` bits with the blinding scalar
    /// `blinding`: the commitment to the value, the challenge hashed from it and the
    /// value, and the response `blinding - challenge·value`. `None` when the value is
    /// out of range.
    pub fn create(value: u64, blinding: &[u8; 32], bit_count: u32) -> (r: Option<Self>)
        ensures
            r is None <==> !in_range(value, bit_count),
            r matches Some(p) ==> {
                &&& p.commitment.bytes@ == commitment_to(u64_scalar(value), blinding@)
                &&& p.challenge@ == blake3_digest(range_challenge_bytes(p.commitment.bytes@, value))
                &&& le_value(p.response@) == (le_value(blinding@) - le_value(p.challenge@) * le_value(
                    u64_scalar(value),
                )) % group_order()
                &&& p.bit_count == bit_count
            },
    {
        if !range_admits(value, bit_count) {
            return None;
        }
        let value_scalar = scalar_from_u64(value);
        let commitment = PedersenCommitment::commit(&value_scalar, blinding);
        let bytes = commitment.to_serializable();
        let challenge = range_challenge(&bytes.bytes, value);
        let response = scalar_mul_sub(blinding, &challenge, &value_scalar);
        Some(RangeProof { commitment: bytes, challenge, response, bit_count })
    }
}

} // verus!
