use norn_rs::pq_sign::{verify, PqSigner};

#[test]
fn keygen_from_seed_is_deterministic() {
    let seed = [7u8; 32];
    let a = PqSigner::from_seed(&seed);
    let b = PqSigner::from_seed(&seed);
    assert_eq!(a.pub_bytes(), b.pub_bytes(), "same seed → same public key");
    let other = PqSigner::from_seed(&[8u8; 32]);
    assert_ne!(a.pub_bytes(), other.pub_bytes(), "different seed → different key");
}

#[test]
fn sign_verify_roundtrip() {
    let signer = PqSigner::from_seed(&[1u8; 32]);
    let msg = b"norn handshake bytes";
    let sig = signer.sign(msg);
    assert!(verify(signer.pub_bytes(), msg, &sig), "valid signature must verify");
}

#[test]
fn verify_rejects_tampered_msg_and_sig() {
    let signer = PqSigner::from_seed(&[2u8; 32]);
    let sig = signer.sign(b"original");
    assert!(!verify(signer.pub_bytes(), b"tampered", &sig), "wrong message rejected");
    let mut bad = sig;
    bad[100] ^= 0xFF;
    assert!(!verify(signer.pub_bytes(), b"original", &bad), "tampered signature rejected");
    let other = PqSigner::from_seed(&[3u8; 32]);
    assert!(!verify(other.pub_bytes(), b"original", &sig), "wrong key rejected");
}

#[test]
fn ephemeral_identities_sign_and_differ() {
    let a = PqSigner::generate_ephemeral();
    let b = PqSigner::generate_ephemeral();
    assert_ne!(a.pub_bytes(), b.pub_bytes());
    let sig = a.sign(b"message");
    assert!(verify(a.pub_bytes(), b"message", &sig));
    assert!(!verify(b.pub_bytes(), b"message", &sig));
}
