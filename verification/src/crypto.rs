//! Keys, signatures and authenticated encryption.
//!
//! Secrets are plain 32-byte arrays. What the ciphers compute is named here;
//! the facts stated about the names are those that the rest of the library
//! relies on.

use chacha20poly1305::{AeadInPlace, ChaCha20Poly1305, Key, KeyInit, Nonce};
use ed25519_dalek::{Signature, Signer, SigningKey, Verifier, VerifyingKey};
use rand::rngs::OsRng;
use rand::RngCore;
use subtle::ConstantTimeEq;
use vstd::prelude::*;
use x25519_dalek::{PublicKey, StaticSecret};
use zeroize::Zeroize;

verus! {

/// The longest message, in bytes, that ChaCha20-Poly1305 takes: 2^32 - 2 blocks
/// of 64 bytes.
pub const AEAD_MAX_LEN: u64 = 274_877_906_816;

/// The length of what ChaCha20-Poly1305 adds to a message.
pub const AEAD_TAG_LEN: u64 = 16;

/// The X25519 public key of `secret`.
pub uninterp spec fn x25519_public_key(secret: Seq<u8>) -> Seq<u8>;

/// The X25519 secret shared by `secret` and the holder of `public`.
pub uninterp spec fn x25519_shared(secret: Seq<u8>, public: Seq<u8>) -> Seq<u8>;

/// What ChaCha20-Poly1305 makes of `plain`: the ciphertext and its tag.
pub uninterp spec fn aead_sealed(
    key: Seq<u8>,
    nonce: Seq<u8>,
    aad: Seq<u8>,
    plain: Seq<u8>,
) -> Seq<u8>;

/// What opening `sealed` with ChaCha20-Poly1305 gives, if its tag is right.
pub uninterp spec fn aead_opened(
    key: Seq<u8>,
    nonce: Seq<u8>,
    aad: Seq<u8>,
    sealed: Seq<u8>,
) -> Option<Seq<u8>>;

/// The Ed25519 public key of the identity whose secret is `seed`.
pub uninterp spec fn ed25519_public_key(seed: Seq<u8>) -> Seq<u8>;

/// The Ed25519 signature of `msg` by the identity whose secret is `seed`.
pub uninterp spec fn ed25519_signature(seed: Seq<u8>, msg: Seq<u8>) -> Seq<u8>;

/// Whether `sig` is a valid Ed25519 signature of `msg` under `public`.
pub uninterp spec fn ed25519_valid(public: Seq<u8>, msg: Seq<u8>, sig: Seq<u8>) -> bool;

/// The X25519 secret that belongs to the Ed25519 secret `seed`.
pub uninterp spec fn ed25519_secret_as_x25519(seed: Seq<u8>) -> Seq<u8>;

/// The X25519 public key that belongs to the Ed25519 public key `public`, if
/// `public` is one.
pub uninterp spec fn ed25519_public_as_x25519(public: Seq<u8>) -> Option<Seq<u8>>;

/// Calls `x25519_dalek::PublicKey::from` on a secret. Trusted: the public key
/// depends on the secret alone.
#[verifier::external_body]
pub(crate) fn x25519_public(secret: &[u8; 32]) -> (r: [u8; 32])
    ensures
        r@ == x25519_public_key(secret@),
{
    PublicKey::from(&StaticSecret::from(*secret)).to_bytes()
}

/// Calls `x25519_dalek::StaticSecret::diffie_hellman`. Trusted: the shared
/// secret depends on the two arguments alone, and whoever holds the secret
/// behind `public` gets the same value from the public key of `secret`.
#[verifier::external_body]
pub(crate) fn x25519_agree(secret: &[u8; 32], public: &[u8; 32]) -> (r: [u8; 32])
    ensures
        r@ == x25519_shared(secret@, public@),
        forall|other: Seq<u8>|
            #![trigger x25519_public_key(other)]
            other.len() == 32 && public@ == x25519_public_key(other) ==> r@ == x25519_shared(
                other,
                x25519_public_key(secret@),
            ),
{
    StaticSecret::from(*secret).diffie_hellman(&PublicKey::from(*public)).to_bytes()
}

/// Calls `chacha20poly1305::ChaCha20Poly1305::encrypt_in_place`. Trusted: a
/// message for which the block counter suffices is sealed; the result depends on
/// the arguments alone, is 16 bytes longer than the message, and opens to the
/// message under the same key, nonce and associated data. On a longer message
/// the call fails or panics.
#[verifier::external_body]
pub(crate) fn aead_seal(key: &[u8; 32], nonce: &[u8; 12], aad: &[u8], plain: &[u8]) -> (r: Option<
    Vec<u8>,
>)
    requires
        plain@.len() <= AEAD_MAX_LEN,
    ensures
        r is Some,
        r matches Some(v) ==> v@ == aead_sealed(key@, nonce@, aad@, plain@) && v@.len()
            == plain@.len() + AEAD_TAG_LEN && aead_opened(key@, nonce@, aad@, v@) == Some(plain@),
{
    let mut buf = plain.to_vec();
    let cipher = ChaCha20Poly1305::new(Key::from_slice(key));
    match cipher.encrypt_in_place(Nonce::from_slice(nonce), aad, &mut buf) {
        Ok(()) => Some(buf),
        Err(_) => None,
    }
}

/// Calls `chacha20poly1305::ChaCha20Poly1305::decrypt_in_place`. Trusted: the
/// result depends on the arguments alone, and a message that opens is 16 bytes
/// shorter than what was opened. Where the block counter does not suffice for the
/// message, the call fails or panics.
#[verifier::external_body]
pub(crate) fn aead_open(key: &[u8; 32], nonce: &[u8; 12], aad: &[u8], sealed: &[u8]) -> (r: Option<
    Vec<u8>,
>)
    requires
        sealed@.len() <= AEAD_MAX_LEN + AEAD_TAG_LEN,
    ensures
        match r {
            Some(v) => aead_opened(key@, nonce@, aad@, sealed@) == Some(v@) && v@.len()
                + AEAD_TAG_LEN == sealed@.len(),
            None => aead_opened(key@, nonce@, aad@, sealed@) is None,
        },
{
    let mut buf = sealed.to_vec();
    let cipher = ChaCha20Poly1305::new(Key::from_slice(key));
    match cipher.decrypt_in_place(Nonce::from_slice(nonce), aad, &mut buf) {
        Ok(()) => Some(buf),
        Err(_) => None,
    }
}

/// Calls `ed25519_dalek::SigningKey::verifying_key`. Trusted: the public key
/// depends on the secret alone.
#[verifier::external_body]
pub(crate) fn ed25519_public(seed: &[u8; 32]) -> (r: [u8; 32])
    ensures
        r@ == ed25519_public_key(seed@),
{
    SigningKey::from_bytes(seed).verifying_key().to_bytes()
}

/// Calls `ed25519_dalek::SigningKey::sign`. Trusted: the signature depends on
/// the secret and the message alone, and is valid under the public key of the
/// secret.
#[verifier::external_body]
pub(crate) fn ed25519_sign(seed: &[u8; 32], msg: &[u8]) -> (r: [u8; 64])
    ensures
        r@ == ed25519_signature(seed@, msg@),
        ed25519_valid(ed25519_public_key(seed@), msg@, r@),
{
    SigningKey::from_bytes(seed).sign(msg).to_bytes()
}

/// Calls `ed25519_dalek::VerifyingKey::verify`. Trusted: the answer depends on
/// the arguments alone; bytes that are no public key verify nothing.
#[verifier::external_body]
pub(crate) fn ed25519_verify(public: &[u8; 32], msg: &[u8], sig: &[u8; 64]) -> (r: bool)
    ensures
        r == ed25519_valid(public@, msg@, sig@),
{
    match VerifyingKey::from_bytes(public) {
        Ok(key) => key.verify(msg, &Signature::from_bytes(sig)).is_ok(),
        Err(_) => false,
    }
}

/// Calls `ed25519_dalek::SigningKey::to_scalar_bytes`. Trusted: the secret
/// depends on the seed alone, and its X25519 public key is the Montgomery form
/// of the Ed25519 public key.
#[verifier::external_body]
pub(crate) fn ed25519_priv_to_x25519(seed: &[u8; 32]) -> (r: [u8; 32])
    ensures
        r@ == ed25519_secret_as_x25519(seed@),
        ed25519_public_as_x25519(ed25519_public_key(seed@)) == Some(x25519_public_key(r@)),
{
    SigningKey::from_bytes(seed).to_scalar_bytes()
}

/// Calls `ed25519_dalek::VerifyingKey::to_montgomery`. Trusted: the result
/// depends on the key alone; there is none where the bytes are no public key;
/// and for the public key of a seed it is the X25519 public key of the 32-byte
/// secret that belongs to the seed.
#[verifier::external_body]
pub(crate) fn ed25519_pub_to_x25519(public: &[u8; 32]) -> (r: Option<[u8; 32]>)
    ensures
        forall|seed: Seq<u8>|
            #![trigger ed25519_public_key(seed)]
            seed.len() == 32 && ed25519_public_key(seed) == public@ ==> r is Some
                && r->0@.len() == ed25519_secret_as_x25519(seed).len() && r->0@ == x25519_public_key(
                ed25519_secret_as_x25519(seed),
            ),
        match r {
            Some(x) => ed25519_public_as_x25519(public@) == Some(x@),
            None => ed25519_public_as_x25519(public@) is None,
        },
{
    match VerifyingKey::from_bytes(public) {
        Ok(key) => Some(key.to_montgomery().to_bytes()),
        Err(_) => None,
    }
}

/// Calls `rand::rngs::OsRng::fill_bytes`. Nothing is claimed of the bytes.
#[verifier::external_body]
pub(crate) fn random_key() -> (r: [u8; 32]) {
    let mut key = [0u8; 32];
    OsRng.fill_bytes(&mut key);
    key
}

/// Calls `zeroize::Zeroize::zeroize`. Trusted: every byte is zero afterwards.
#[verifier::external_body]
pub(crate) fn wipe(secret: &mut [u8; 32])
    ensures
        forall|i: int| 0 <= i < 32 ==> #[trigger] final(secret)@[i] == 0u8,
{
    secret.zeroize();
}

/// Calls `zeroize::Zeroize::zeroize` on a vector. Trusted: the vector is empty
/// afterwards. That its bytes are overwritten before it is emptied is left
/// unsaid.
#[verifier::external_body]
pub(crate) fn wipe_bytes(secret: &mut Vec<u8>)
    ensures
        final(secret)@.len() == 0,
{
    secret.zeroize();
}

/// Calls `subtle::ConstantTimeEq::ct_eq`. Trusted: the answer is whether the
/// two tags have the same bytes.
#[verifier::external_body]
pub(crate) fn tag_ct_eq(a: &[u8; 16], b: &[u8; 16]) -> (r: bool)
    ensures
        r == (a@ == b@),
{
    a.ct_eq(b).into()
}

} // verus!
