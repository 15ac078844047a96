use norn_rs::keyshare::{from_mnemonic, qr_terminal, to_mnemonic};

#[test]
fn mnemonic_round_trips() {
    let key: [u8; 32] = std::array::from_fn(|i| (i as u8).wrapping_mul(37).wrapping_add(11));
    let phrase = to_mnemonic(&key);
    assert_eq!(phrase.split_whitespace().count(), 24, "256-bit key → 24 words");
    assert_eq!(from_mnemonic(&phrase).unwrap(), key, "round-trip must be lossless");
}

#[test]
fn zero_key_is_the_canonical_bip39_vector() {
    let phrase = to_mnemonic(&[0u8; 32]);
    let expected = format!("{}art", "abandon ".repeat(23));
    assert_eq!(phrase, expected);
    assert_eq!(from_mnemonic(&phrase).unwrap(), [0u8; 32]);
}

#[test]
fn checksum_rejects_a_single_word_typo() {
    let key = [0xABu8; 32];
    let phrase = to_mnemonic(&key);
    let mut words: Vec<&str> = phrase.split_whitespace().collect();
    words[0] = if words[0] == "zoo" { "abandon" } else { "zoo" };
    let corrupted = words.join(" ");
    assert!(
        from_mnemonic(&corrupted).is_err(),
        "a single-word change must fail the checksum, not decode silently"
    );
}

#[test]
fn rejects_too_short_a_phrase() {
    let short = bip39::Mnemonic::from_entropy(&[0u8; 16]).unwrap().to_string();
    assert!(from_mnemonic(&short).is_err(), "16-byte phrase is not a norn key");
}

#[test]
fn rejects_garbage() {
    assert!(from_mnemonic("not actually a mnemonic at all").is_err());
    assert!(from_mnemonic("").is_err());
}

#[test]
fn qr_encodes_a_hex_key() {
    let hex_key = hex::encode([0x5Au8; 32]);
    let qr = qr_terminal(&hex_key).unwrap();
    assert!(!qr.is_empty(), "QR render must produce output");
    assert!(qr.contains('█') || qr.contains('▀') || qr.contains('▄'));
}
