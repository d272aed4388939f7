use ed25519_dalek::{Signer, Verifier};
use vstd::prelude::*;

use crate::crypto::hash::{blake3_digest, blake3_hash};
use crate::crypto::random::{first_32, random_bytes};
use crate::types::NodeId;

verus! {

/// The Ed25519 public key of the secret key `secret`, as ed25519-dalek derives it.
pub uninterp spec fn ed25519_public(secret: Seq<u8>) -> Seq<u8>;

/// The Ed25519 signature of `message` under the secret key `secret` (deterministic).
pub uninterp spec fn ed25519_signature(secret: Seq<u8>, message: Seq<u8>) -> Seq<u8>;

/// Whether ed25519-dalek accepts `signature` on `message` for the public key bytes
/// `public`: false when the bytes are no valid key.
pub uninterp spec fn ed25519_accepts(public: Seq<u8>, message: Seq<u8>, signature: Seq<u8>) -> bool;

/// Whether the bytes decode to an Ed25519 public key.
pub uninterp spec fn ed25519_key_valid(public: Seq<u8>) -> bool;

/// 32 random bytes for a secret key.
fn random_secret() -> (b: [u8; 32]) {
    let v = random_bytes(32);
    first_32(&v)
}

/// Calls `SigningKey::from_bytes(secret).verifying_key().to_bytes()`: the public key of
/// the secret key, which is always a valid key.
#[verifier::external_body]
fn public_key_of(secret: &[u8; 32]) -> (pk: [u8; 32])
    ensures
        pk@ == ed25519_public(secret@),
        ed25519_key_valid(pk@),
{
    ed25519_dalek::SigningKey::from_bytes(secret).verifying_key().to_bytes()
}

/// Calls `Signer::sign` of `SigningKey::from_bytes(secret)` on `message`: the signature,
/// which the key's public key accepts (the crate's documented round trip).
#[verifier::external_body]
fn sign_bytes(secret: &[u8; 32], message: &[u8]) -> (sig: [u8; 64])
    ensures
        sig@ == ed25519_signature(secret@, message@),
        ed25519_accepts(ed25519_public(secret@), message@, sig@),
{
    ed25519_dalek::SigningKey::from_bytes(secret).sign(message).to_bytes()
}

/// Calls `VerifyingKey::from_bytes(public)`: whether the bytes are a valid key.
#[verifier::external_body]
fn key_valid(public: &[u8; 32]) -> (ok: bool)
    ensures
        ok == ed25519_key_valid(public@),
{
    ed25519_dalek::VerifyingKey::from_bytes(public).is_ok()
}

/// Calls `Verifier::verify` of `VerifyingKey::from_bytes(public)` on the message and the
/// signature bytes; false when the key bytes do not decode.
#[verifier::external_body]
fn verify_bytes(public: &[u8; 32], message: &[u8], signature: &[u8; 64]) -> (ok: bool)
    ensures
        ok == ed25519_accepts(public@, message@, signature@),
{
    match ed25519_dalek::VerifyingKey::from_bytes(public) {
        Ok(vk) => vk.verify(message, &ed25519_dalek::Signature::from_bytes(signature)).is_ok(),
        Err(_) => false,
    }
}

/// A node's signing identity: its secret key, public key and node id.
pub struct NodeKeypair {
    signing_key: [u8; 32],
    pub verifying_key: [u8; 32],
    pub node_id: NodeId,
}

/// A payload with its signature and the public key of the signer.
#[derive(Debug, Clone)]
pub struct SignedMessage {
    pub payload: Vec<u8>,
    pub signature: Vec<u8>,
    pub signer: [u8; 32],
}

/// The checks `SignedMessage::verify` makes: a 64-byte signature that the signer's key
/// accepts on the payload.
pub open spec fn signature_holds(m: SignedMessage) -> bool {
    m.signature@.len() == 64 && ed25519_accepts(m.signer@, m.payload@, m.signature@)
}

impl NodeKeypair {
    /// The secret key.
    pub closed spec fn secret(&self) -> Seq<u8> {
        self.signing_key@
    }

    /// The public key is that of the secret key, and the node id its hash.
    pub closed spec fn wf(&self) -> bool {
        &&& self.verifying_key@ == ed25519_public(self.signing_key@)
        &&& self.node_id.0@ == blake3_digest(self.verifying_key@)
    }

    /// The public key bytes.
    pub closed spec fn public(&self) -> Seq<u8> {
        self.verifying_key@
    }

    /// The node id.
    pub closed spec fn id(&self) -> NodeId {
        self.node_id
    }

    /// A keypair from a random secret key.
    pub fn generate() -> (kp: Self)
        ensures
            kp.wf(),
            kp.public() == ed25519_public(kp.secret()),
            kp.id().0@ == blake3_digest(kp.public()),
    {
        let secret = random_secret();
        let verifying_key = public_key_of(&secret);
        let node_id = NodeId::from_public_key(&verifying_key);
        NodeKeypair { signing_key: secret, verifying_key, node_id }
    }

    /// Sign `message`: the payload, its signature and the signer's public key.
    pub fn sign(&self, message: &[u8]) -> (m: SignedMessage)
        requires
            self.wf(),
        ensures
            m.payload@ == message@,
            m.signature@ == ed25519_signature(self.secret(), message@),
            m.signer@ == self.public(),
            signature_holds(m),
    {
        let sig = sign_bytes(&self.signing_key, message);
        let mut signature: Vec<u8> = Vec::new();
        let mut i: usize = 0;
        while i < 64
            invariant
                0 <= i <= 64,
                signature@ == sig@.take(i as int),
            decreases 64 - i,
        {
            assert(sig@.take(i + 1) =~= sig@.take(i as int).push(sig@[i as int]));
            signature.push(sig[i]);
            i = i + 1;
        }
        assert(sig@.take(64) =~= sig@);
        let mut payload: Vec<u8> = Vec::new();
        let mut j: usize = 0;
        while j < message.len()
            invariant
                0 <= j <= message@.len(),
                payload@ == message@.take(j as int),
            decreases message@.len() - j,
        {
            assert(message@.take(j + 1) =~= message@.take(j as int).push(message@[j as int]));
            payload.push(message[j]);
            j = j + 1;
        }
        assert(message@.take(message@.len() as int) =~= message@);
        SignedMessage { payload, signature, signer: self.verifying_key }
    }
}

impl SignedMessage {
    /// Whether the signature is 64 bytes and the signer's key accepts it on the payload.
    pub fn verify(&self) -> (ok: bool)
        ensures
            ok == signature_holds(*self),
    {
        if self.signature.len() != 64 {
            return false;
        }
        let mut sig = [0u8; 64];
        let mut i: usize = 0;
        while i < 64
            invariant
                self.signature@.len() == 64,
                0 <= i <= 64,
                forall|j: int| 0 <= j < i ==> sig@[j] == self.signature@[j],
            decreases 64 - i,
        {
            sig[i] = self.signature[i];
            i = i + 1;
        }
        assert(sig@ =~= self.signature@);
        verify_bytes(&self.signer, self.payload.as_slice(), &sig)
    }

    /// The node id of the signer; the zero id when the signer bytes are no valid key.
    pub fn signer_node_id(&self) -> (id: NodeId)
        ensures
            ed25519_key_valid(self.signer@) ==> id.0@ == blake3_digest(self.signer@),
            !ed25519_key_valid(self.signer@) ==> id.0@ == Seq::new(32, |i: int| 0u8),
    {
        if key_valid(&self.signer) {
            NodeId(blake3_hash(&self.signer))
        } else {
            let z = [0u8; 32];
            assert(z@ =~= Seq::new(32, |i: int| 0u8));
            NodeId(z)
        }
    }
}

} // verus!
