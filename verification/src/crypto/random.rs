use vstd::prelude::*;

verus! {

/// Calls `rand::fill` on `n` bytes: `n` random bytes, of which nothing more is stated.
#[verifier::external_body]
pub(crate) fn random_bytes(n: usize) -> (v: Vec<u8>)
    ensures
        v@.len() == n,
{
    let mut v = vec![0u8; n];
    rand::fill(v.as_mut_slice());
    v
}

/// The first 32 bytes of `v`.
pub(crate) fn first_32(v: &Vec<u8>) -> (out: [u8; 32])
    requires
        v@.len() >= 32,
    ensures
        out@ == v@.take(32),
{
    let mut out = [0u8; 32];
    let mut i: usize = 0;
    while i < 32
        invariant
            v@.len() >= 32,
            0 <= i <= 32,
            forall|j: int| 0 <= j < i ==> out@[j] == v@[j],
        decreases 32 - i,
    {
        out[i] = v[i];
        i = i + 1;
    }
    assert(out@ =~= v@.take(32));
    out
}

/// The first 64 bytes of `v`.
pub(crate) fn first_64(v: &Vec<u8>) -> (out: [u8; 64])
    requires
        v@.len() >= 64,
    ensures
        out@ == v@.take(64),
{
    let mut out = [0u8; 64];
    let mut i: usize = 0;
    while i < 64
        invariant
            v@.len() >= 64,
            0 <= i <= 64,
            forall|j: int| 0 <= j < i ==> out@[j] == v@[j],
        decreases 64 - i,
    {
        out[i] = v[i];
        i = i + 1;
    }
    assert(out@ =~= v@.take(64));
    out
}

} // verus!
