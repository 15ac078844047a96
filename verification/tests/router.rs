use blake2::digest::consts::U32;
use blake2::{Blake2b, Digest};
use ed25519_dalek::SigningKey;
use norn_rs::packet::routing_tag;
use norn_rs::router::{
    accelerate_rotations_secs, current_tree_epoch, decrypt_dest_from_header,
    decrypt_source_from_header, encrypt_header, malicious_cuckoo_poison_tags, metric_less,
    pad_payload, rotation_interval, routing_tag_eq, tree_metric, tree_metric_at, tree_seed_of,
    unpad_payload, warn_if_malicious, warn_if_rotation_accelerated, UnpadError, PAD_BLOCK,
};
use rand::rngs::OsRng;

#[test]
fn tree_metric_xor_not_or() {
    let key = [0u8; 32];
    let seed = *b"Verdandi";
    let metric = tree_metric(&key, &seed);
    let mut h: Blake2b<U32> = Blake2b::new();
    h.update(b"norn:tree-epoch");
    h.update(seed);
    h.update(0u64.to_le_bytes());
    let salt: [u8; 32] = h.finalize().into();
    for i in 0..32 {
        assert_eq!(metric[i], key[i] ^ salt[i],
            "byte {}: must XOR (not OR/AND); got {:#04x}", i, metric[i]);
    }
}

#[test]
fn tree_metric_at_uses_full_32_byte_salt() {
    let key = [0u8; 32];
    let seed = [0u8; 8];
    let metric = tree_metric_at(&key, &seed, 0);
    let lo = &metric[0..16];
    let hi = &metric[16..32];
    assert_ne!(lo, hi,
        "salt's low and high halves must differ — proves we use the full 32-byte salt");
}

#[test]
fn metric_less_orders_correctly() {
    let low  = [0u8; 32];
    let high = [0xFF_u8; 32];
    assert!(metric_less(&low, &high), "low < high must be true");
    assert!(!metric_less(&high, &low), "high < low must be false");
    assert!(!metric_less(&low, &low), "equal values must not satisfy <");
}

#[test]
fn tree_metric_deterministic() {
    let key  = [0xABu8; 32];
    let seed = [0u8; 8];
    assert_eq!(tree_metric(&key, &seed), tree_metric(&key, &seed));
}

#[test]
fn tree_metric_differs_with_seed() {
    let key   = [0xABu8; 32];
    let seed0 = [0u8; 8];
    let seed1 = *b"Verdandi";
    assert_ne!(tree_metric(&key, &seed0), tree_metric(&key, &seed1),
        "different seeds must give different metrics");
}

#[test]
fn tree_metric_xor_identity_with_zero_seed() {
    let key  = [0xABu8; 32];
    let seed = [0u8; 8];
    assert_eq!(tree_metric(&key, &seed), tree_metric(&key, &seed));
}

#[test]
fn tree_metric_at_rotates_with_epoch() {
    let key = [0x42u8; 32];
    let seed = *b"Verdandi";
    let m0 = tree_metric_at(&key, &seed, 0);
    let m1 = tree_metric_at(&key, &seed, 1);
    let m_far = tree_metric_at(&key, &seed, 365);
    assert_ne!(m0, m1, "metric must change between adjacent epochs");
    assert_ne!(m0, m_far, "metric must change across distant epochs");
    assert_ne!(m1, m_far, "epoch 1 and epoch 365 must also differ");
}

#[test]
fn tree_metric_at_deterministic_within_epoch() {
    let key = [0x99u8; 32];
    let seed = *b"Skuld___";
    assert_eq!(
        tree_metric_at(&key, &seed, 42),
        tree_metric_at(&key, &seed, 42),
        "metric must be deterministic per (key, seed, epoch)",
    );
}

#[test]
fn tree_metric_at_rotates_root_winner() {
    let keys: Vec<[u8; 32]> = (0u8..16).map(|i| [i; 32]).collect();
    let seed = [0u8; 8];
    let mut winners = std::collections::HashSet::new();
    for epoch in 0u64..32 {
        let winner = keys.iter()
            .min_by_key(|k| tree_metric_at(k, &seed, epoch))
            .copied()
            .unwrap();
        winners.insert(winner);
    }
    assert!(winners.len() >= 4,
        "expected ≥4 distinct root winners across 32 epochs, got {}: \
         root rotation is what makes the network resistant to long-lived \
         root-targeting attacks", winners.len());
}

#[test]
fn current_tree_epoch_monotonic_within_a_day() {
    let e = current_tree_epoch(1_700_000_000);
    assert!(e > 0, "current_tree_epoch should be > 0 after 1970");
    let max_plausible = 100_000u64;
    assert!(e < max_plausible, "epoch {} unexpectedly large", e);
}

#[test]
fn pad_unpad_roundtrip() {
    for len in [0, 1, 128, 255, 256, 257, 512, 1000] {
        let data: Vec<u8> = (0..len).map(|i| i as u8).collect();
        let padded = pad_payload(&data);
        let unpadded = unpad_payload(&padded).expect("unpad must succeed");
        assert_eq!(unpadded, data, "roundtrip failed for len={}", len);
    }
}

#[test]
fn pad_payload_result_is_multiple_of_block() {
    for len in [0usize, 1, 255, 256, 257] {
        let data = vec![0u8; len];
        let padded = pad_payload(&data);
        assert_eq!(padded.len() % PAD_BLOCK, 0,
            "padded length must be multiple of {}, got {} for input len {}", PAD_BLOCK, padded.len(), len);
    }
}

#[test]
fn pad_payload_minimum_size() {
    let padded = pad_payload(&[]);
    assert_eq!(padded.len(), PAD_BLOCK);
}

#[test]
fn unpad_too_short_fails() {
    assert!(unpad_payload(&[]).is_err());
    assert!(unpad_payload(&[0u8]).is_err());
    let mut bad = vec![0u8, 100u8];
    bad.extend_from_slice(&[0u8; 8]);
    assert!(unpad_payload(&bad).is_err());
}

#[test]
fn unpad_exactly_two_bytes_succeeds_with_zero_len() {
    let result = unpad_payload(&[0u8, 0u8]);
    assert!(result.is_ok(), "exactly 2 bytes (orig_len=0) must succeed: {:?}", result.err());
    assert_eq!(result.unwrap(), Vec::<u8>::new());
}

#[test]
fn unpad_exactly_at_data_boundary_succeeds() {
    let padded = vec![5u8, 0u8, 0xAu8, 0xBu8, 0xCu8, 0xDu8, 0xEu8];
    let result = unpad_payload(&padded);
    assert!(result.is_ok(), "exactly-at-boundary unpad must succeed: {:?}", result.err());
    assert_eq!(result.unwrap(), vec![0xAu8, 0xBu8, 0xCu8, 0xDu8, 0xEu8]);
}

#[test]
fn unpad_one_byte_short_of_data_fails() {
    let padded = vec![5u8, 0u8, 0xAu8, 0xBu8, 0xCu8, 0xDu8];
    assert!(unpad_payload(&padded).is_err(),
        "one byte short of claimed data length must fail");
}

#[test]
fn pad_payload_encodes_length_le() {
    let data = vec![0x42u8; 300];
    let padded = pad_payload(&data);
    let encoded_len = (padded[0] as usize) | ((padded[1] as usize) << 8);
    assert_eq!(encoded_len, 300, "length must be 300 in LE");
}

#[test]
fn encrypt_header_decrypt_source_roundtrip() {
    let sk = SigningKey::generate(&mut OsRng);
    let src = [0xAAu8; 32];
    let dst = sk.verifying_key().to_bytes();
    let (header, _tag) = encrypt_header(&src, &dst);
    let recovered = decrypt_source_from_header(&header, &sk.to_bytes());
    assert_eq!(recovered, Some(src), "decrypted source must match");
}

#[test]
fn routing_tag_in_encrypt_header_matches_standalone() {
    let src = [0x11u8; 32];
    let dst = [0x22u8; 32];
    let (_header, tag) = encrypt_header(&src, &dst);
    assert_eq!(tag, routing_tag(&dst), "tag from encrypt_header must match routing_tag(dst)");
}

#[test]
fn accelerate_rotations_secs_env_parsing() {
    assert!(
        accelerate_rotations_secs(None).is_none(),
        "unset env var must yield None (= production cadence)"
    );
    assert!(
        accelerate_rotations_secs(Some("0")).is_none(),
        "0 must be treated the same as unset"
    );
    assert!(
        accelerate_rotations_secs(Some("not-a-number")).is_none(),
        "non-numeric must yield None"
    );
    assert_eq!(accelerate_rotations_secs(Some("30")), Some(30));
    assert_eq!(accelerate_rotations_secs(Some(" +30\n")), Some(30));
}

#[test]
fn malicious_mode_env_parsing() {
    assert_eq!(
        malicious_cuckoo_poison_tags(None, None),
        0,
        "unset env must yield 0 (production path)"
    );
    assert_eq!(
        malicious_cuckoo_poison_tags(Some("bad_mouthing"), None),
        0,
        "unrecognised mode must yield 0"
    );
    assert_eq!(
        malicious_cuckoo_poison_tags(Some("cuckoo_poison"), None),
        64,
        "cuckoo_poison without count override must default to 64"
    );
    assert_eq!(malicious_cuckoo_poison_tags(Some("cuckoo_poison"), Some("200")), 200);
    assert_eq!(malicious_cuckoo_poison_tags(Some("cuckoo_poison"), Some("x")), 64);
}

#[test]
fn warnings_name_the_numbers() {
    assert!(warn_if_malicious(0).is_none());
    let text = warn_if_malicious(64).unwrap();
    assert!(text.starts_with("NORN_MALICIOUS_MODE=cuckoo_poison — this node will inject 64 random"));
    assert!(warn_if_rotation_accelerated(None).is_none());
    let text = warn_if_rotation_accelerated(Some(30)).unwrap();
    assert!(text.starts_with("NORN_ACCELERATE_ROTATIONS_SECS=30 — ALL key rotation intervals"));
    assert!(text.contains("compressed to 30 seconds."));
}

#[test]
fn accelerated_rotations_replace_the_interval() {
    assert_eq!(rotation_interval(None, 300), 300);
    assert_eq!(rotation_interval(Some(7), 300), 7);
}

#[test]
fn unpad_errors_say_what_is_wrong() {
    let short = unpad_payload(&[1]).unwrap_err();
    assert_eq!(short, UnpadError::TooShort);
    assert_eq!(short.to_string(), "unpad: too short");
    let long = unpad_payload(&[5, 0, 1]).unwrap_err();
    assert_eq!(long.to_string(), "unpad: length field 5 > available 1");
}

#[test]
fn the_largest_payload_is_padded() {
    let data = vec![7u8; 65535];
    let padded = pad_payload(&data);
    assert_eq!(padded.len(), 65792);
    assert_eq!(unpad_payload(&padded).unwrap(), data);
}

#[test]
fn headers_open_for_their_destination_alone() {
    let dst = SigningKey::generate(&mut OsRng);
    let other = SigningKey::generate(&mut OsRng);
    let key = dst.verifying_key().to_bytes();
    let (header, tag) = encrypt_header(&[9u8; 32], &key);
    assert!(routing_tag_eq(&tag, &routing_tag(&key)));
    assert_eq!(decrypt_source_from_header(&header, &dst.to_bytes()), Some([9u8; 32]));
    assert_eq!(decrypt_dest_from_header(&header, &dst.to_bytes()), Some(key));
    assert_eq!(decrypt_source_from_header(&header, &other.to_bytes()), None);
    assert_eq!(decrypt_dest_from_header(&header, &other.to_bytes()), None);
}

#[test]
fn headers_differ_from_packet_to_packet() {
    let key = SigningKey::generate(&mut OsRng).verifying_key().to_bytes();
    let (a, _) = encrypt_header(&[9u8; 32], &key);
    let (b, _) = encrypt_header(&[9u8; 32], &key);
    assert_ne!(a, b);
}

#[test]
fn a_destination_that_is_no_key_gets_an_empty_header() {
    let mut bad = [0u8; 32];
    bad[0] = 2;
    let (header, tag) = encrypt_header(&[9u8; 32], &bad);
    assert_eq!(header, [0u8; 128]);
    assert_eq!(tag, [0u8; 16]);
}

#[test]
fn the_trees_have_their_seeds() {
    assert_eq!(tree_seed_of(0), [0u8; 8]);
    assert_eq!(&tree_seed_of(1), b"Verdandi");
    assert_eq!(&tree_seed_of(2), b"Skuld___");
}

#[test]
fn epochs_last_a_day() {
    assert_eq!(current_tree_epoch(0), 0);
    assert_eq!(current_tree_epoch(86_399), 0);
    assert_eq!(current_tree_epoch(86_400), 1);
}
