use chacha20poly1305::aead::AeadInPlace;
use chacha20poly1305::{ChaCha20Poly1305, Key, KeyInit, Nonce};
use ed25519_dalek::SigningKey;
use norn_rs::conn::PacketConn;
use norn_rs::onion::{
    build_onion, OnionHop, OnionKeyChain, OnionPacket, PeeledOnion, ONION_CELL_SIZE, ONION_FORWARD,
    ONION_KEY_ROTATION_INTERVAL,
};
use norn_rs::packet::{encode_uvarint, routing_tag};
use rand::rngs::OsRng;
use x25519_dalek::{PublicKey as X25519PublicKey, StaticSecret};

fn hop_from_signing_key(sk: &SigningKey) -> (OnionHop, OnionKeyChain) {
    let chain = OnionKeyChain::new(0);
    let hop = OnionHop {
        identity_ed_pub: sk.verifying_key().to_bytes(),
        ephemeral_x_pub: chain.pub_key(),
    };
    (hop, chain)
}

#[test]
fn onion_roundtrip_no_relays() {
    let dest_sk = SigningKey::generate(&mut OsRng);
    let (dest_hop, dest_keys) = hop_from_signing_key(&dest_sk);

    let traffic = b"hello world traffic".to_vec();
    let packet = build_onion(&[], &dest_hop, traffic.clone()).unwrap();

    match packet.peel(&dest_keys).unwrap() {
        PeeledOnion::Deliver(bytes) => assert_eq!(bytes, traffic),
        PeeledOnion::Forward(_) => panic!("expected Deliver"),
    }
}

#[test]
fn onion_roundtrip_two_relays() {
    let r1_sk = SigningKey::generate(&mut OsRng);
    let r2_sk = SigningKey::generate(&mut OsRng);
    let dest_sk = SigningKey::generate(&mut OsRng);
    let (r1_hop, r1_keys) = hop_from_signing_key(&r1_sk);
    let (r2_hop, r2_keys) = hop_from_signing_key(&r2_sk);
    let (dest_hop, dest_keys) = hop_from_signing_key(&dest_sk);

    let traffic = b"secret payload".to_vec();
    let packet = build_onion(
        &[r1_hop.clone(), r2_hop.clone()],
        &dest_hop,
        traffic.clone(),
    )
    .unwrap();

    assert_eq!(packet.routing_tag, routing_tag(&r1_hop.identity_ed_pub));

    let inner1_bytes = match packet.peel(&r1_keys).unwrap() {
        PeeledOnion::Forward(b) => b,
        PeeledOnion::Deliver(_) => panic!("relay1 should forward"),
    };
    let inner1 = OnionPacket::decode(&inner1_bytes).unwrap();
    assert_eq!(inner1.routing_tag, routing_tag(&r2_hop.identity_ed_pub));

    let inner2_bytes = match inner1.peel(&r2_keys).unwrap() {
        PeeledOnion::Forward(b) => b,
        PeeledOnion::Deliver(_) => panic!("relay2 should forward"),
    };
    let inner2 = OnionPacket::decode(&inner2_bytes).unwrap();

    match inner2.peel(&dest_keys).unwrap() {
        PeeledOnion::Deliver(bytes) => assert_eq!(bytes, traffic),
        PeeledOnion::Forward(_) => panic!("dest should deliver"),
    }
}

#[test]
fn onion_wrong_key_fails() {
    let dest_sk = SigningKey::generate(&mut OsRng);
    let (dest_hop, _) = hop_from_signing_key(&dest_sk);
    let other_keys = OnionKeyChain::new(0);

    let packet = build_onion(&[], &dest_hop, b"payload".to_vec()).unwrap();
    assert!(packet.peel(&other_keys).is_err());
}

#[test]
fn rotation_keeps_in_flight_decryptable_once() {
    let dest_sk = SigningKey::generate(&mut OsRng);
    let (dest_hop, mut dest_keys) = hop_from_signing_key(&dest_sk);

    let traffic = b"in-flight".to_vec();
    let packet = build_onion(&[], &dest_hop, traffic.clone()).unwrap();

    dest_keys.rotate(0);
    match packet.peel(&dest_keys).expect("must decrypt with previous key") {
        PeeledOnion::Deliver(bytes) => assert_eq!(bytes, traffic),
        _ => panic!("expected Deliver"),
    }
}

#[test]
fn rotation_twice_loses_old_key() {
    let dest_sk = SigningKey::generate(&mut OsRng);
    let (dest_hop, mut dest_keys) = hop_from_signing_key(&dest_sk);

    let traffic = b"forward secret".to_vec();
    let packet = build_onion(&[], &dest_hop, traffic).unwrap();

    dest_keys.rotate(0);
    dest_keys.rotate(0);
    assert!(packet.peel(&dest_keys).is_err(),
        "after 2 rotations the first key must be gone");
}

#[test]
fn rotation_changes_pub_key() {
    let mut chain = OnionKeyChain::new(0);
    let before = chain.pub_key();
    chain.rotate(0);
    let after = chain.pub_key();
    assert_ne!(before, after, "rotate must change the public key");
}

#[test]
fn decode_47_bytes_fails() {
    assert!(OnionPacket::decode(&[0u8; 47]).is_err());
}

#[test]
fn decode_minimal_valid_packet() {
    let mut data = vec![0u8; 48];
    data.push(0u8);
    let result = OnionPacket::decode(&data);
    assert!(result.is_ok(), "49-byte minimal packet must succeed: {:?}", result.err());
    assert_eq!(result.unwrap().aead_payload.len(), 0);
}

#[test]
fn decode_exactly_48_bytes_fails_at_uvarint_not_too_short() {
    let data = [0u8; 48];
    let err = OnionPacket::decode(&data).unwrap_err().to_string();
    assert!(!err.contains("too short"),
        "48-byte input must fail at uvarint parse, not 'too short'; got: {err}");
}

#[test]
fn decode_aead_truncated_fails() {
    let mut data = vec![0u8; 48];
    encode_uvarint(100, &mut data);
    data.extend_from_slice(&[0u8; 5]);
    assert!(OnionPacket::decode(&data).is_err());
}

#[test]
fn decode_aead_len_above_cell_size_rejected() {
    let mut data = vec![0u8; 48];
    encode_uvarint(2 * 1024 * 1024, &mut data);
    let err = OnionPacket::decode(&data).unwrap_err().to_string();
    assert!(err.contains("cell size") || err.contains("exceeds"),
        "oversized aead_len must mention cell size; got: {err}");
}

#[test]
fn encoded_packet_pads_to_cell_size() {
    let sk = SigningKey::generate(&mut OsRng);
    let (hop, _keys) = hop_from_signing_key(&sk);
    let packet = build_onion(&[], &hop, b"small".to_vec()).unwrap();
    let encoded = packet.encode();
    assert_eq!(encoded.len(), ONION_CELL_SIZE,
        "every onion packet must be padded to ONION_CELL_SIZE");
}

#[test]
fn cell_size_independent_of_depth() {
    let dest_sk = SigningKey::generate(&mut OsRng);
    let r1_sk = SigningKey::generate(&mut OsRng);
    let r2_sk = SigningKey::generate(&mut OsRng);
    let (dest_hop, _) = hop_from_signing_key(&dest_sk);
    let (r1_hop, _) = hop_from_signing_key(&r1_sk);
    let (r2_hop, _) = hop_from_signing_key(&r2_sk);

    let p0 = build_onion(&[], &dest_hop, b"a".to_vec()).unwrap().encode();
    let p2 = build_onion(&[r1_hop, r2_hop], &dest_hop, b"a".to_vec()).unwrap().encode();
    assert_eq!(p0.len(), ONION_CELL_SIZE);
    assert_eq!(p2.len(), ONION_CELL_SIZE);
    assert_eq!(p0.len(), p2.len(),
        "cell size must not depend on onion depth (traffic-analysis resistance)");
}

#[test]
fn encode_decode_onionpacket_roundtrip() {
    let pkt = OnionPacket {
        routing_tag: [0xABu8; 16],
        epk: [0xCDu8; 32],
        aead_payload: vec![1, 2, 3, 4, 5],
    };
    let enc = pkt.encode();
    assert_eq!(enc[0], norn_rs::packet::TYPE_ONION, "first byte must be TYPE_ONION");
    let dec = OnionPacket::decode(&enc[1..]).unwrap();
    assert_eq!(dec.routing_tag, pkt.routing_tag);
    assert_eq!(dec.epk, pkt.epk);
    assert_eq!(dec.aead_payload, pkt.aead_payload);
}

#[test]
fn build_onion_outer_tag_addresses_first_relay() {
    let relay_sk = SigningKey::generate(&mut OsRng);
    let dest_sk  = SigningKey::generate(&mut OsRng);
    let (relay_hop, _) = hop_from_signing_key(&relay_sk);
    let (dest_hop, _) = hop_from_signing_key(&dest_sk);
    let pkt = build_onion(std::slice::from_ref(&relay_hop), &dest_hop, b"payload".to_vec()).unwrap();
    assert_eq!(pkt.routing_tag, routing_tag(&relay_hop.identity_ed_pub),
        "outer routing_tag must address first relay, not destination");
}

#[test]
fn build_onion_no_relays_tag_addresses_dest() {
    let dest_sk = SigningKey::generate(&mut OsRng);
    let (dest_hop, _) = hop_from_signing_key(&dest_sk);
    let pkt = build_onion(&[], &dest_hop, b"data".to_vec()).unwrap();
    assert_eq!(pkt.routing_tag, routing_tag(&dest_hop.identity_ed_pub),
        "with no relays, outer tag must address dest");
}

#[test]
fn peel_inner_truncated_fails() {
    let sk = SigningKey::generate(&mut OsRng);
    let chain = OnionKeyChain::new(0);

    let epk_priv = StaticSecret::random_from_rng(OsRng);
    let epk_pub = X25519PublicKey::from(&epk_priv);
    let shared = epk_priv.diffie_hellman(&X25519PublicKey::from(chain.pub_key()));
    let cipher = ChaCha20Poly1305::new(Key::from_slice(shared.as_bytes()));
    let nonce = Nonce::from([0u8; 12]);
    let aad = epk_pub.as_bytes();

    let mut plaintext = vec![ONION_FORWARD];
    encode_uvarint(100, &mut plaintext);
    plaintext.extend_from_slice(&[0u8; 4]);
    cipher.encrypt_in_place(&nonce, aad, &mut plaintext).unwrap();

    let pkt = OnionPacket {
        routing_tag: [0u8; 16],
        epk: *epk_pub.as_bytes(),
        aead_payload: plaintext,
    };
    let _ = &sk;
    let err = pkt.peel(&chain).unwrap_err().to_string();
    assert!(err.contains("truncated"),
        "inner-truncated onion must be rejected; got: {err}");
}

#[test]
fn keys_are_due_for_rotation_after_an_hour() {
    let mut chain = OnionKeyChain::from_secret([1u8; 32], 5000);
    assert_eq!(ONION_KEY_ROTATION_INTERVAL, 3_600_000);
    assert!(!chain.due_for_rotation(0));
    assert!(!chain.due_for_rotation(5000 + 3_599_999));
    assert!(chain.due_for_rotation(5000 + 3_600_000));
    chain.rotate(5000 + 3_600_000);
    assert!(!chain.due_for_rotation(5000 + 3_600_000));
}

#[test]
fn a_node_is_reached_by_its_identity() {
    let dest_sk = SigningKey::generate(&mut OsRng);
    let dest_id = dest_sk.verifying_key().to_bytes();
    let sender = PacketConn::new([7u8; 32], [0u8; 16], 0);
    let hop = sender.onion_hop_for(&dest_id).unwrap();
    let chain = OnionKeyChain::with_identity_fallback(&dest_sk.to_bytes(), 0);
    assert_ne!(hop.ephemeral_x_pub, chain.pub_key());
    let packet = build_onion(&[], &hop, b"traffic".to_vec()).unwrap();
    match packet.peel(&chain).unwrap() {
        PeeledOnion::Deliver(t) => assert_eq!(t, b"traffic".to_vec()),
        PeeledOnion::Forward(_) => panic!("nothing to send on"),
    }
    assert!(packet.peel(&OnionKeyChain::new(0)).is_err());
}

#[test]
fn the_size_of_an_onion_follows_from_length_and_relays() {
    let hops: Vec<OnionHop> = (0..4)
        .map(|_| hop_from_signing_key(&SigningKey::generate(&mut OsRng)).0)
        .collect();
    let direct = build_onion(&[], &hops[3], vec![7u8; 200]).unwrap();
    assert_eq!(direct.aead_payload.len(), 17 + 2 + 200);
    let mut size = 200;
    for n in 0..=3 {
        let p = build_onion(&hops[..n], &hops[3], vec![n as u8; 200]).unwrap();
        let prefix = if size < 128 { 1 } else { 2 };
        assert_eq!(p.aead_payload.len(), 17 + prefix + size);
        size = p.encode_inner().len();
    }
}
