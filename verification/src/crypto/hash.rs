use vstd::prelude::*;

verus! {

/// The 32-byte BLAKE3 digest of `input`, as `blake3::hash` computes it.
pub uninterp spec fn blake3_digest(input: Seq<u8>) -> Seq<u8>;

/// Calls `blake3::hash`; its 32 bytes are the BLAKE3 digest of `data`. (The crate
/// documents that feeding a `Hasher` several pieces gives the digest of their
/// concatenation, which is how the library hashes records.)
#[verifier::external_body]
pub(crate) fn blake3_hash(data: &[u8]) -> (h: [u8; 32])
    ensures
        h@ == blake3_digest(data@),
{
    *blake3::hash(data).as_bytes()
}

/// Little-endian bytes of a 64-bit integer.
pub open spec fn le_bytes(x: u64) -> Seq<u8> {
    Seq::new(8, |i: int| ((x as nat / vstd::arithmetic::power2::pow2((8 * i) as nat)) % 256) as u8)
}

/// Append the little-endian bytes of `x` to `out`.
pub fn push_le_u64(out: &mut Vec<u8>, x: u64)
    ensures
        final(out)@ == old(out)@ + le_bytes(x),
{
    let ghost start = out@;
    let mut v: u64 = x;
    let mut i: usize = 0;
    proof {
        vstd::arithmetic::power2::lemma2_to64();
        assert(x as nat / 1 == x as nat);
    }
    while i < 8
        invariant
            0 <= i <= 8,
            out@ == start + le_bytes(x).take(i as int),
            v as nat == x as nat / vstd::arithmetic::power2::pow2((8 * i) as nat),
        decreases 8 - i,
    {
        proof {
            vstd::arithmetic::power2::lemma_pow2_adds((8 * i) as nat, 8);
            vstd::arithmetic::power2::lemma_pow2_pos((8 * i) as nat);
            vstd::arithmetic::power2::lemma2_to64();
            vstd::arithmetic::div_mod::lemma_div_denominator(
                x as int,
                vstd::arithmetic::power2::pow2((8 * i) as nat) as int,
                256,
            );
            assert(le_bytes(x).take(i + 1) =~= le_bytes(x).take(i as int).push((v % 256) as u8));
        }
        out.push((v % 256) as u8);
        v = v / 256;
        i = i + 1;
    }
    assert(le_bytes(x).take(8) =~= le_bytes(x));
}

} // verus!
