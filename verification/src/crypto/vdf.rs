use vstd::prelude::*;

use crate::bytes::bytes32_eq;
use crate::crypto::hash::{blake3_digest, blake3_hash};

verus! {

/// An iterated-hash delay proof: `output` is `input` hashed `iterations` times.
#[derive(Debug, Clone)]
pub struct VdfProof {
    pub input: [u8; 32],
    pub output: [u8; 32],
    pub iterations: u64,
}

/// `input` hashed `k` times with BLAKE3.
pub open spec fn hash_chain(input: Seq<u8>, k: nat) -> Seq<u8>
    decreases k,
{
    if k == 0 {
        input
    } else {
        blake3_digest(hash_chain(input, (k - 1) as nat))
    }
}

/// The proof holds: hashing the input `iterations` times gives the output.
pub open spec fn vdf_holds(p: VdfProof) -> bool {
    hash_chain(p.input@, p.iterations as nat) == p.output@
}

/// `input` hashed `iterations` times.
fn iterate_hash(input: &[u8; 32], iterations: u64) -> (r: [u8; 32])
    ensures
        r@ == hash_chain(input@, iterations as nat),
{
    let mut current = *input;
    let mut i: u64 = 0;
    while i < iterations
        invariant
            0 <= i <= iterations,
            current@ == hash_chain(input@, i as nat),
        decreases iterations - i,
    {
        current = blake3_hash(&current);
        i = i + 1;
    }
    current
}

impl VdfProof {
    /// Hash `input` `iterations` times and record the result.
    pub fn evaluate(input: &[u8; 32], iterations: u64) -> (p: Self)
        ensures
            p.input == *input,
            p.iterations == iterations,
            p.output@ == hash_chain(input@, iterations as nat),
    {
        let output = iterate_hash(input, iterations);
        VdfProof { input: *input, output, iterations }
    }

    /// Whether hashing the input `iterations` times gives the output.
    pub fn verify(&self) -> (ok: bool)
        ensures
            ok == vdf_holds(*self),
    {
        let current = iterate_hash(&self.input, self.iterations);
        let ok = bytes32_eq(&current, &self.output);
        proof {
            if current == self.output {
                assert(current@ == self.output@);
            }
            if current@ == self.output@ {
                assert(current =~= self.output);
            }
        }
        ok
    }
}

/// What `evaluate` produces verifies.
pub proof fn lemma_evaluate_verifies(p: VdfProof)
    requires
        p.output@ == hash_chain(p.input@, p.iterations as nat),
    ensures
        vdf_holds(p),
{
}

/// For one input and count there is one output that verifies: any other output, such
/// as a tampered one, is refused.
pub proof fn lemma_output_unique(p: VdfProof, q: VdfProof)
    requires
        vdf_holds(p),
        p.input == q.input,
        p.iterations == q.iterations,
        p.output != q.output,
    ensures
        !vdf_holds(q),
{
    if vdf_holds(q) {
        assert(p.output =~= q.output);
    }
}

} // verus!
