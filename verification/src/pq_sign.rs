//! ML-DSA-65 signatures, beside the Ed25519 ones.
//!
//! A node has an ML-DSA identity of its own, made from a seed that has nothing
//! to do with its Ed25519 secret.

use crate::crypto::{random_key, wipe};
use ml_dsa::signature::{Keypair, Signer, Verifier};
use ml_dsa::{
    EncodedSignature, EncodedVerifyingKey, MlDsa65, Signature, SigningKey, VerifyingKey, B32,
};
use vstd::prelude::*;

verus! {

broadcast use vstd::array::group_array_axioms;

/// Size of a public key.
pub const ML_DSA_PUB_BYTES: usize = 1952;

/// Size of a signature.
pub const ML_DSA_SIG_BYTES: usize = 3309;

/// Size of the seed that a key pair is made from.
pub const ML_DSA_SEED_BYTES: usize = 32;

/// The ML-DSA-65 public key made from `seed`.
pub uninterp spec fn ml_dsa_public_key(seed: Seq<u8>) -> Seq<u8>;

/// The deterministic ML-DSA-65 signature of `msg` under the key made from
/// `seed`.
pub uninterp spec fn ml_dsa_signature(seed: Seq<u8>, msg: Seq<u8>) -> Seq<u8>;

/// Whether `sig` is an ML-DSA-65 signature of `msg` under `public`.
pub uninterp spec fn ml_dsa_valid(public: Seq<u8>, msg: Seq<u8>, sig: Seq<u8>) -> bool;

/// Calls `ml_dsa::SigningKey::from_seed` and encodes the verifying key.
/// Trusted: the public key depends on the seed alone.
#[verifier::external_body]
fn derive_public(seed: &[u8; ML_DSA_SEED_BYTES]) -> (r: [u8; ML_DSA_PUB_BYTES])
    ensures
        r@ == ml_dsa_public_key(seed@),
{
    let sk = SigningKey::<MlDsa65>::from_seed(&B32::from(*seed));
    sk.verifying_key().encode().as_slice().try_into().expect("public key size")
}

/// Calls `ml_dsa::SigningKey::sign`. Trusted: the signature depends on the seed
/// and the message alone and is valid under the public key of the seed.
#[verifier::external_body]
fn sign_with(seed: &[u8; ML_DSA_SEED_BYTES], msg: &[u8]) -> (r: [u8; ML_DSA_SIG_BYTES])
    ensures
        r@ == ml_dsa_signature(seed@, msg@),
        ml_dsa_valid(ml_dsa_public_key(seed@), msg@, r@),
{
    let sk = SigningKey::<MlDsa65>::from_seed(&B32::from(*seed));
    let sig: Signature<MlDsa65> = sk.sign(msg);
    sig.encode().as_slice().try_into().expect("signature size")
}

/// Calls `ml_dsa::VerifyingKey::verify`. Trusted: the answer depends on the
/// arguments alone; bytes that are no signature verify nothing.
#[verifier::external_body]
fn verify_with(
    public: &[u8; ML_DSA_PUB_BYTES],
    msg: &[u8],
    sig: &[u8; ML_DSA_SIG_BYTES],
) -> (r: bool)
    ensures
        r == ml_dsa_valid(public@, msg@, sig@),
{
    let enc_vk = EncodedVerifyingKey::<MlDsa65>::try_from(public.as_slice());
    let enc_sig = EncodedSignature::<MlDsa65>::try_from(sig.as_slice());
    match (enc_vk, enc_sig) {
        (Ok(vk), Ok(s)) => match Signature::<MlDsa65>::decode(&s) {
            Some(sig) => VerifyingKey::<MlDsa65>::decode(&vk).verify(msg, &sig).is_ok(),
            None => false,
        },
        _ => false,
    }
}

/// A node's ML-DSA-65 identity.
pub struct PqSigner {
    seed: [u8; ML_DSA_SEED_BYTES],
    pub_bytes: [u8; ML_DSA_PUB_BYTES],
}

impl PqSigner {
    /// The seed of the identity.
    pub closed spec fn seed(&self) -> Seq<u8> {
        self.seed@
    }

    pub closed spec fn wf(&self) -> bool {
        self.pub_bytes@ == ml_dsa_public_key(self.seed@)
    }

    /// An identity from a random seed.
    pub fn generate_ephemeral() -> (s: PqSigner)
        ensures
            s.wf(),
            s.seed().len() == 32,
    {
        let mut seed: [u8; 32] = random_key();
        let signer = PqSigner::from_seed(&seed);
        wipe(&mut seed);
        signer
    }

    /// The identity made from `seed`.
    pub fn from_seed(seed: &[u8; ML_DSA_SEED_BYTES]) -> (s: PqSigner)
        ensures
            s.wf(),
            s.seed() == seed@,
    {
        PqSigner { seed: *seed, pub_bytes: derive_public(seed) }
    }

    /// The public key to announce.
    pub fn pub_bytes(&self) -> (p: &[u8; ML_DSA_PUB_BYTES])
        requires
            self.wf(),
        ensures
            p@ == ml_dsa_public_key(self.seed()),
    {
        &self.pub_bytes
    }

    /// Sign `msg`. The signature verifies under the public key of this
    /// identity.
    pub fn sign(&self, msg: &[u8]) -> (sig: [u8; ML_DSA_SIG_BYTES])
        ensures
            sig@ == ml_dsa_signature(self.seed(), msg@),
            ml_dsa_valid(ml_dsa_public_key(self.seed()), msg@, sig@),
    {
        sign_with(&self.seed, msg)
    }
}

/// Whether `sig_bytes` is a signature of `msg` under `pub_bytes`. Any bytes may
/// be given.
pub fn verify(
    pub_bytes: &[u8; ML_DSA_PUB_BYTES],
    msg: &[u8],
    sig_bytes: &[u8; ML_DSA_SIG_BYTES],
) -> (r: bool)
    ensures
        r == ml_dsa_valid(pub_bytes@, msg@, sig_bytes@),
{
    verify_with(pub_bytes, msg, sig_bytes)
}

} // verus!
