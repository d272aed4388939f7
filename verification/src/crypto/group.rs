use curve25519_dalek::constants::RISTRETTO_BASEPOINT_POINT;
use curve25519_dalek::ristretto::{CompressedRistretto, RistrettoPoint};
use curve25519_dalek::scalar::Scalar;
use sha2::Digest;
use vstd::prelude::*;
use vstd::string::StringSliceAdditionalSpecFns;

use crate::crypto::hash::{le_bytes, push_le_u64};
use crate::crypto::random::{first_32, first_64, random_bytes};
use crate::num::{abs_i64, unsigned_abs};

verus! {

/// The value of bytes read as a little-endian unsigned integer.
pub open spec fn le_value(b: Seq<u8>) -> int
    decreases b.len(),
{
    if b.len() == 0 {
        0
    } else {
        b[0] + 256 * le_value(b.drop_first())
    }
}

/// The order of the Ristretto group, the modulus of its scalars:
/// 2^252 + 27742317777372353535851937790883648493.
pub open spec fn group_order() -> int {
    vstd::arithmetic::power2::pow2(252) as int + 27742317777372353535851937790883648493
}

/// A canonical scalar encoding: its little-endian value is below the group order.
pub open spec fn canonical_scalar(b: Seq<u8>) -> bool {
    le_value(b) < group_order()
}

/// The 32-byte encoding of a 64-bit integer as a scalar: its little-endian bytes, then
/// zeros.
pub open spec fn u64_scalar(v: u64) -> Seq<u8> {
    le_bytes(v) + Seq::new(24, |i: int| 0u8)
}

/// The SHA-512 digest of `data`, as sha2's `Sha512::digest` computes it.
pub uninterp spec fn sha512_digest(data: Seq<u8>) -> Seq<u8>;

/// The compressed Ristretto point that curve25519-dalek's
/// `RistrettoPoint::from_uniform_bytes` maps 64 bytes to.
pub uninterp spec fn uniform_point(bytes: Seq<u8>) -> Seq<u8>;

/// Whether 32 bytes are the canonical encoding of a Ristretto point (they decompress).
pub uninterp spec fn ristretto_valid(bytes: Seq<u8>) -> bool;

/// The point that valid bytes decompress to, given as its discrete logarithm to the
/// Ristretto base point `G`: the `k` in `[0, group order)` with point `k·G`. (The
/// Ristretto group has prime order, so `G` generates it and every point has one such
/// `k`.)
pub uninterp spec fn point_log(bytes: Seq<u8>) -> int;

/// The compressed point `s·G`, with `s` the scalar of the bytes reduced modulo the
/// group order.
pub uninterp spec fn base_mul_point(s: Seq<u8>) -> Seq<u8>;

/// The compressed point `s·P`, with `P` the point that `p` encodes and `s` the scalar
/// of the bytes reduced modulo the group order.
pub uninterp spec fn scalar_point(p: Seq<u8>, s: Seq<u8>) -> Seq<u8>;

/// The compressed sum of the points that `p` and `q` encode.
pub uninterp spec fn point_sum(p: Seq<u8>, q: Seq<u8>) -> Seq<u8>;

/// `x` is the only valid encoding of its point: compression is canonical, and
/// decompression accepts canonical encodings only.
pub open spec fn sole_encoding(x: Seq<u8>) -> bool {
    forall|q: Seq<u8>| ristretto_valid(q) && #[trigger] point_log(q) == point_log(x) ==> q == x
}

/// A point as curve25519-dalek computes it: valid, the only encoding of its point, with
/// discrete logarithm `log`.
pub open spec fn computed_point(x: Seq<u8>, log: int) -> bool {
    &&& ristretto_valid(x)
    &&& sole_encoding(x)
    &&& point_log(x) == log % group_order()
}

/// The compressed point `a·G + b·H` for the point `H` that `h` encodes.
pub open spec fn commitment_point(h: Seq<u8>, a: Seq<u8>, b: Seq<u8>) -> Seq<u8> {
    point_sum(base_mul_point(a), scalar_point(h, b))
}

/// Calls sha2's `Sha512::digest`: the 64-byte digest of `data`.
#[verifier::external_body]
fn sha512(data: &[u8]) -> (d: [u8; 64])
    ensures
        d@ == sha512_digest(data@),
{
    sha2::Sha512::digest(data).into()
}

/// Calls `RistrettoPoint::from_uniform_bytes` and compresses the point; a compressed
/// point always decompresses.
#[verifier::external_body]
fn point_from_uniform_bytes(b: &[u8; 64]) -> (p: [u8; 32])
    ensures
        p@ == uniform_point(b@),
        computed_point(p@, point_log(p@)),
{
    RistrettoPoint::from_uniform_bytes(b).compress().to_bytes()
}

/// Calls `CompressedRistretto::decompress`: whether the bytes encode a point.
#[verifier::external_body]
pub(crate) fn decompresses(b: &[u8; 32]) -> (ok: bool)
    ensures
        ok == ristretto_valid(b@),
        ok ==> 0 <= point_log(b@) < group_order(),
{
    CompressedRistretto(*b).decompress().is_some()
}

/// Calls `Scalar::from_canonical_bytes`: whether the bytes are a canonical scalar, that
/// is (the source tests the top bit and compares with the reduced value) whether their
/// little-endian value is below the group order.
#[verifier::external_body]
pub(crate) fn scalar_canonical(b: &[u8; 32]) -> (ok: bool)
    ensures
        ok == canonical_scalar(b@),
{
    bool::from(Scalar::from_canonical_bytes(*b).is_some())
}

/// Calls `Scalar::from_bytes_mod_order`: the bytes' value reduced modulo the group
/// order.
#[verifier::external_body]
pub(crate) fn reduce_scalar(b: &[u8; 32]) -> (s: [u8; 32])
    ensures
        le_value(s@) == le_value(b@) % group_order(),
{
    Scalar::from_bytes_mod_order(*b).to_bytes()
}

/// Calls `Scalar::from_bytes_mod_order_wide`: the 64 bytes' value reduced modulo the
/// group order.
#[verifier::external_body]
pub(crate) fn reduce_wide(b: &[u8; 64]) -> (s: [u8; 32])
    ensures
        le_value(s@) == le_value(b@) % group_order(),
{
    Scalar::from_bytes_mod_order_wide(b).to_bytes()
}

/// Computes `a - c·v` in curve25519-dalek's scalar field, each operand read with
/// `Scalar::from_bytes_mod_order`: the result modulo the group order.
#[verifier::external_body]
pub(crate) fn scalar_mul_sub(a: &[u8; 32], c: &[u8; 32], v: &[u8; 32]) -> (s: [u8; 32])
    ensures
        le_value(s@) == (le_value(a@) - le_value(c@) * le_value(v@)) % group_order(),
{
    (Scalar::from_bytes_mod_order(*a) - Scalar::from_bytes_mod_order(*c) * Scalar::from_bytes_mod_order(*v)).to_bytes()
}

/// Computes the negation of a scalar (read with `Scalar::from_bytes_mod_order`) in
/// curve25519-dalek's scalar field.
#[verifier::external_body]
fn scalar_negate(a: &[u8; 32]) -> (s: [u8; 32])
    ensures
        le_value(s@) == (-le_value(a@)) % group_order(),
{
    (-Scalar::from_bytes_mod_order(*a)).to_bytes()
}

/// Computes `s·G` with curve25519-dalek (`RistrettoPoint::mul_base`, the scalar read
/// with `Scalar::from_bytes_mod_order`), compressed.
#[verifier::external_body]
pub(crate) fn base_mul(s: &[u8; 32]) -> (p: [u8; 32])
    ensures
        p@ == base_mul_point(s@),
        computed_point(p@, le_value(s@)),
{
    RistrettoPoint::mul_base(&Scalar::from_bytes_mod_order(*s)).compress().to_bytes()
}

/// Decompresses `p` and multiplies the point by `s` (read with
/// `Scalar::from_bytes_mod_order`) with curve25519-dalek, compressed; `None` when `p`
/// encodes no point.
#[verifier::external_body]
pub(crate) fn point_mul(p: &[u8; 32], s: &[u8; 32]) -> (r: Option<[u8; 32]>)
    ensures
        r is Some <==> ristretto_valid(p@),
        r matches Some(x) ==> x@ == scalar_point(p@, s@) && computed_point(x@, point_log(p@) * le_value(s@)),
{
    match CompressedRistretto(*p).decompress() {
        Some(pp) => Some((pp * Scalar::from_bytes_mod_order(*s)).compress().to_bytes()),
        None => None,
    }
}

/// Decompresses both points and adds them with curve25519-dalek, compressed; `None`
/// when either encodes no point.
#[verifier::external_body]
pub(crate) fn point_add(p: &[u8; 32], q: &[u8; 32]) -> (r: Option<[u8; 32]>)
    ensures
        r is Some <==> (ristretto_valid(p@) && ristretto_valid(q@)),
        r matches Some(x) ==> x@ == point_sum(p@, q@) && computed_point(x@, point_log(p@) + point_log(q@)),
{
    match (CompressedRistretto(*p).decompress(), CompressedRistretto(*q).decompress()) {
        (Some(a), Some(b)) => Some((a + b).compress().to_bytes()),
        _ => None,
    }
}

/// Whether two byte strings of 32 bytes are equal.
pub(crate) fn bytes32_same(a: &[u8; 32], b: &[u8; 32]) -> (ok: bool)
    ensures
        ok == (a@ == b@),
{
    let mut i: usize = 0;
    while i < 32
        invariant
            0 <= i <= 32,
            forall|j: int| 0 <= j < i ==> a@[j] == b@[j],
        decreases 32 - i,
    {
        if a[i] != b[i] {
            return false;
        }
        i = i + 1;
    }
    assert(a@ =~= b@);
    true
}

/// `x % m == y % m` when `x` and `y` differ by a multiple of `m`.
pub proof fn lemma_same_residue(x: int, y: int, q: int, m: int)
    requires
        m > 0,
        x == y + m * q,
    ensures
        x % m == y % m,
{
    vstd::arithmetic::div_mod::lemma_mod_multiples_vanish(q, y, m);
}

/// `x % m` is `x` less a multiple of `m`.
pub proof fn lemma_residue_split(x: int, m: int)
    requires
        m > 0,
    ensures
        x % m == x - m * (x / m),
{
    vstd::arithmetic::div_mod::lemma_fundamental_div_mod(x, m);
}

/// The point a seed string hashes to: SHA-512 of its bytes mapped onto the group.
pub open spec fn seed_point(seed: &str) -> Seq<u8> {
    uniform_point(sha512_digest(seed.spec_bytes()))
}

/// The compressed point that `seed` hashes to (a generator independent of the base
/// point).
pub fn hash_to_group(seed: &str) -> (p: [u8; 32])
    ensures
        p@ == seed_point(seed),
        computed_point(p@, point_log(p@)),
{
    let d = sha512(seed.as_bytes());
    point_from_uniform_bytes(&d)
}

/// `a·G + b·H` for a point `h` that decompresses, compressed.
pub(crate) fn combine(h: &[u8; 32], a: &[u8; 32], b: &[u8; 32]) -> (p: [u8; 32])
    requires
        ristretto_valid(h@),
    ensures
        p@ == commitment_point(h@, a@, b@),
        computed_point(p@, le_value(a@) + point_log(h@) * le_value(b@)),
{
    proof {
        lemma_group_order_positive();
    }
    let x = base_mul(a);
    let y = match point_mul(h, b) {
        Some(y) => y,
        None => {
            proof {
                assert(false);
            }
            [0u8; 32]
        },
    };
    match point_add(&x, &y) {
        Some(z) => {
            proof {
                let n = group_order();
                let la = le_value(a@);
                let lb = point_log(h@) * le_value(b@);
                lemma_residue_split(la, n);
                lemma_residue_split(lb, n);
                assert(la % n + lb % n == la + lb + n * (-(la / n) - (lb / n))) by (nonlinear_arith)
                    requires
                        la % n == la - n * (la / n),
                        lb % n == lb - n * (lb / n),
                ;
                lemma_same_residue(la % n + lb % n, la + lb, -(la / n) - (lb / n), n);
            }
            z
        },
        None => {
            proof {
                assert(false);
            }
            [0u8; 32]
        },
    }
}

/// The group order is positive.
pub proof fn lemma_group_order_positive()
    ensures
        group_order() > 0,
{
    vstd::arithmetic::power2::lemma_pow2_pos(252);
}

/// A uniformly random scalar: 64 random bytes reduced modulo the group order, so it is
/// canonical.
pub fn random_scalar() -> (s: [u8; 32])
    ensures
        canonical_scalar(s@),
{
    let v = random_bytes(64);
    let w = first_64(&v);
    proof {
        lemma_group_order_positive();
    }
    reduce_wide(&w)
}

/// The little-endian digits of `x`, `n` bytes of them.
pub open spec fn le_digits(x: nat, n: nat) -> Seq<u8> {
    Seq::new(n, |i: int| ((x / vstd::arithmetic::power2::pow2((8 * i) as nat)) % 256) as u8)
}

proof fn lemma_le_value_concat(a: Seq<u8>, b: Seq<u8>)
    ensures
        le_value(a + b) == le_value(a) + vstd::arithmetic::power2::pow2((8 * a.len()) as nat) * le_value(b),
    decreases a.len(),
{
    vstd::arithmetic::power2::lemma2_to64();
    if a.len() == 0 {
        assert(a + b =~= b);
        assert(vstd::arithmetic::power2::pow2(0) == 1);
        assert((8 * a.len()) as nat == 0);
        assert(vstd::arithmetic::power2::pow2((8 * a.len()) as nat) == 1);
        assert(le_value(a) == 0);
        assert(le_value(a + b) == le_value(b));
    } else {
        let a1 = a.drop_first();
        assert((a + b).drop_first() =~= a1 + b);
        assert((a + b)[0] == a[0]);
        assert(le_value(a + b) == a[0] + 256 * le_value(a1 + b));
        assert(le_value(a) == a[0] + 256 * le_value(a1));
        lemma_le_value_concat(a1, b);
        vstd::arithmetic::power2::lemma_pow2_adds(8, (8 * a1.len()) as nat);
        let p = vstd::arithmetic::power2::pow2((8 * a1.len()) as nat);
        assert((8 * a.len()) as nat == (8 + 8 * a1.len()) as nat);
        assert(vstd::arithmetic::power2::pow2((8 * a.len()) as nat) == 256 * p);
        let lb = le_value(b);
        let la1 = le_value(a1);
        let q = vstd::arithmetic::power2::pow2((8 * a.len()) as nat);
        assert(256 * (la1 + p * lb) == 256 * la1 + q * lb) by (nonlinear_arith)
            requires
                q == 256 * p,
        ;
        assert(le_value(a1 + b) == la1 + p * lb);
        assert(le_value(a + b) == le_value(a) + q * lb);
    }
}

proof fn lemma_le_value_zeros(k: nat)
    ensures
        le_value(Seq::new(k, |i: int| 0u8)) == 0,
    decreases k,
{
    if k > 0 {
        assert(Seq::new(k, |i: int| 0u8).drop_first() =~= Seq::new((k - 1) as nat, |i: int| 0u8));
        lemma_le_value_zeros((k - 1) as nat);
    }
}

proof fn lemma_le_value_digits(x: nat, n: nat)
    ensures
        le_value(le_digits(x, n)) == x % vstd::arithmetic::power2::pow2((8 * n) as nat),
    decreases n,
{
    vstd::arithmetic::power2::lemma2_to64();
    if n == 0 {
        assert(x % 1 == 0);
    } else {
        let d = le_digits(x, n);
        let y = x / 256;
        assert forall|i: int| 0 <= i < n - 1 implies #[trigger] d.drop_first()[i] == le_digits(y, (n - 1) as nat)[i] by {
            vstd::arithmetic::power2::lemma_pow2_adds(8, (8 * i) as nat);
            vstd::arithmetic::power2::lemma_pow2_pos((8 * i) as nat);
            vstd::arithmetic::div_mod::lemma_div_denominator(x as int, 256, vstd::arithmetic::power2::pow2((8 * i) as nat) as int);
            assert((8 * (i + 1)) as nat == (8 + 8 * i) as nat);
        }
        assert(d.drop_first() =~= le_digits(y, (n - 1) as nat));
        lemma_le_value_digits(y, (n - 1) as nat);
        let p = vstd::arithmetic::power2::pow2((8 * (n - 1)) as nat);
        vstd::arithmetic::power2::lemma_pow2_pos((8 * (n - 1)) as nat);
        vstd::arithmetic::power2::lemma_pow2_adds(8, (8 * (n - 1)) as nat);
        assert(vstd::arithmetic::power2::pow2((8 * n) as nat) == 256 * p);
        vstd::arithmetic::div_mod::lemma_mod_breakdown(x as int, 256, p as int);
        assert(x / vstd::arithmetic::power2::pow2(0) == x);
        assert(d[0] == x % 256);
    }
}

/// The little-endian bytes of a 64-bit integer have that integer as their value.
pub proof fn lemma_le_value_u64_scalar(v: u64)
    ensures
        le_value(u64_scalar(v)) == v,
{
    vstd::arithmetic::power2::lemma2_to64();
    assert(le_bytes(v) =~= le_digits(v as nat, 8));
    lemma_le_value_digits(v as nat, 8);
    lemma_le_value_concat(le_bytes(v), Seq::new(24, |i: int| 0u8));
    lemma_le_value_zeros(24);
    assert(v as nat % vstd::arithmetic::power2::pow2(64) == v as nat);
}

/// The scalar of a 64-bit integer.
pub fn scalar_from_u64(v: u64) -> (s: [u8; 32])
    ensures
        s@ == u64_scalar(v),
        le_value(s@) == v,
{
    proof {
        lemma_le_value_u64_scalar(v);
    }
    let mut bytes: Vec<u8> = Vec::new();
    push_le_u64(&mut bytes, v);
    let mut i: usize = 0;
    while i < 24
        invariant
            0 <= i <= 24,
            bytes@ == le_bytes(v) + Seq::new(i as nat, |j: int| 0u8),
        decreases 24 - i,
    {
        bytes.push(0u8);
        i = i + 1;
        assert(bytes@ =~= le_bytes(v) + Seq::new(i as nat, |j: int| 0u8));
    }
    let out = first_32(&bytes);
    assert(bytes@.take(32) =~= bytes@);
    out
}

/// The scalar of a signed 64-bit integer: a negative value is the negation of the
/// scalar of its magnitude.
pub fn scalar_from_i64(v: i64) -> (s: [u8; 32])
    ensures
        v >= 0 ==> s@ == u64_scalar(v as u64),
        v < 0 ==> le_value(s@) == (-le_value(u64_scalar(abs_i64(v)))) % group_order(),
{
    if v >= 0 {
        scalar_from_u64(v as u64)
    } else {
        let m = scalar_from_u64(unsigned_abs(v));
        scalar_negate(&m)
    }
}

} // verus!
