use norn_rs::obfs::{conn_key, derive_psk_key, KeyStream, ObfsHandshake, OBFS_NONCE_LEN};

#[test]
fn derive_psk_key_empty_is_none() {
    assert!(derive_psk_key("").is_none(), "empty PSK = obfuscation off");
    assert!(derive_psk_key("hunter2").is_some());
}

#[test]
fn derive_psk_key_is_deterministic_and_distinct() {
    assert_eq!(derive_psk_key("alpha"), derive_psk_key("alpha"));
    assert_ne!(derive_psk_key("alpha"), derive_psk_key("beta"));
}

#[test]
fn keystream_round_trips_and_is_not_identity() {
    let key = [0x11u8; 32];
    let plain = b"the quick brown fox jumps over the lazy dog".to_vec();
    let mut buf = plain.clone();
    KeyStream::new(key).apply(&mut buf);
    assert_ne!(buf, plain, "keystream must actually change the bytes");
    KeyStream::new(key).apply(&mut buf);
    assert_eq!(buf, plain, "XOR with the same keystream must restore");
}

#[test]
fn keystream_spans_many_blocks_consistently() {
    let key = [0x5Au8; 32];
    let data: Vec<u8> = (0..1000u32).map(|i| i as u8).collect();
    let mut one_shot = data.clone();
    KeyStream::new(key).apply(&mut one_shot);
    let mut piecemeal = data.clone();
    let mut ks = KeyStream::new(key);
    for b in piecemeal.iter_mut() {
        ks.apply(std::slice::from_mut(b));
    }
    assert_eq!(one_shot, piecemeal, "chunked and one-shot keystream must match");
}

fn pair(psk_a: &str, psk_b: &str) -> (ObfsHandshake, ObfsHandshake) {
    let a = derive_psk_key(psk_a).unwrap();
    let b = derive_psk_key(psk_b).unwrap();
    let nonce_a = [1u8; OBFS_NONCE_LEN];
    let nonce_b = [2u8; OBFS_NONCE_LEN];
    (
        ObfsHandshake::from_nonces(&a, &nonce_a, &nonce_b),
        ObfsHandshake::from_nonces(&b, &nonce_b, &nonce_a),
    )
}

#[test]
fn obfuscated_stream_round_trips_over_a_pipe() {
    let (hs_a, hs_b) = pair("shared-mesh-secret", "shared-mesh-secret");
    let (mut a_read, mut a_write) = hs_a.wrap();
    let (mut b_read, mut b_write) = hs_b.wrap();

    let msg = b"ANNOUNCE tree=0 root=deadbeef ... plus a longer tail of bytes \
                so we cross several keystream blocks in one write"
        .to_vec();
    a_write.accept(&msg);
    let mut got = a_write.to_send().to_vec();
    a_write.taken(got.len()).unwrap();
    b_read.received(&mut got);
    assert_eq!(got, msg, "obfuscated round-trip must be lossless");

    let reply = b"COORD r=0.5 theta=1.2".to_vec();
    b_write.accept(&reply);
    let mut got2 = b_write.to_send().to_vec();
    b_write.taken(got2.len()).unwrap();
    a_read.received(&mut got2);
    assert_eq!(got2, reply);
}

#[test]
fn wire_bytes_are_obfuscated() {
    let (hs, _) = pair("p", "p");
    let (_r, mut writer) = hs.wrap();
    let plaintext = b"NRN1 hello plaintext marker".to_vec();
    writer.accept(&plaintext);
    let wire = writer.to_send().to_vec();
    assert_eq!(wire.len(), plaintext.len(), "obfuscation is byte-count preserving");
    assert_ne!(wire, plaintext, "the plaintext must not appear on the wire");
    assert!(
        !wire.windows(4).any(|w| w == b"NRN1"),
        "no recognisable protocol marker may survive on the wire"
    );
}

#[test]
fn wrong_psk_does_not_decode() {
    let (hs_a, hs_b) = pair("correct-horse", "wrong-horse");
    let (_, mut a_write) = hs_a.wrap();
    let (mut b_read, _) = hs_b.wrap();
    let msg = b"top secret".to_vec();
    a_write.accept(&msg);
    let mut got = a_write.to_send().to_vec();
    b_read.received(&mut got);
    assert_ne!(got, msg, "a mismatched PSK must not recover the plaintext");
}

#[test]
fn writes_that_stop_short_are_resumed() {
    let (hs_a, hs_b) = pair("p", "p");
    let (_, mut w) = hs_a.wrap();
    let (mut r, _) = hs_b.wrap();
    let msg: Vec<u8> = (0..200u8).collect();
    w.accept(&msg);
    let mut wire: Vec<u8> = Vec::new();
    while !w.drained() {
        let n = w.to_send().len().min(7);
        wire.extend_from_slice(&w.to_send()[..n]);
        w.taken(n).unwrap();
    }
    let err = w.taken(0);
    assert!(err.is_err());
    r.received(&mut wire);
    assert_eq!(wire, msg);
}

#[test]
fn connection_keys_depend_on_psk_and_nonce() {
    let k = conn_key(&[1u8; 32], &[2u8; OBFS_NONCE_LEN]);
    assert_ne!(k, conn_key(&[1u8; 32], &[3u8; OBFS_NONCE_LEN]));
    assert_ne!(k, conn_key(&[2u8; 32], &[2u8; OBFS_NONCE_LEN]));
    assert_ne!(k, [1u8; 32]);
}
