use norn_rs::cuckoo::FILTER_BYTES;
use norn_rs::packet::{
    decode_path, decode_uvarint, encode_path, encode_uvarint, read_frame, routing_tag, write_frame,
    Announce, CoordAnnounce, CuckooMsg, HolePunch, OnionKeyAnnounce, PacketError, PathBroken,
    PathLookup, PathNegative, PathNotify, ReputationReport, SigReq, SigRes, Traffic, PATH_BROKEN,
    PATH_LOOKUP, PATH_NOTIFY, PKT_DATA, SIG_REQ, SIG_RES, TYPE_HOLE_PUNCH, TYPE_ONION_KEY_ANNOUNCE,
    TYPE_PATH_NEGATIVE, TYPE_REPUTATION_REPORT,
};

#[test]
fn uvarint_roundtrip() {
    for v in [0u64, 1, 127, 128, 255, 16383, 16384, u64::MAX / 2] {
        let mut buf = Vec::new();
        encode_uvarint(v, &mut buf);
        let (decoded, _) = decode_uvarint(&buf).unwrap();
        assert_eq!(v, decoded);
    }
}

#[test]
fn path_roundtrip() {
    let path = vec![0u64, 1, 5, 100, 255];
    let encoded = encode_path(&path);
    let (decoded, _) = decode_path(&encoded).unwrap();
    assert_eq!(path, decoded);
}

#[test]
fn frame_roundtrip() {
    let data = b"hello world";
    let mut buf = Vec::new();
    write_frame(&mut buf, data);
    let (frame, used) = read_frame(&buf).unwrap();
    assert_eq!(frame, data);
    assert_eq!(used, buf.len());
}

#[test]
fn announce_roundtrip() {
    let ann = Announce {
        tree_id: 1,
        root: [0xABu8; 32],
        root_seq: 42,
        path_cost: 1000,
        sender: [0xCDu8; 32],
        signature: [0u8; 64],
        depth: 3,
    };
    let enc = ann.encode();
    let dec = Announce::decode(&enc[1..]).unwrap();
    assert_eq!(dec.tree_id, 1);
    assert_eq!(dec.root, [0xABu8; 32]);
    assert_eq!(dec.root_seq, 42);
    assert_eq!(dec.path_cost, 1000);
    assert_eq!(dec.depth, 3);
}

#[test]
fn traffic_roundtrip() {
    let traffic = Traffic {
        path: vec![1, 2, 3],
        from: [0xABu8; 32],
        enc_header: [0x11u8; 128],
        routing_tag: [0x22u8; 16],
        pkt_type: PKT_DATA,
        watermark: 999,
        payload: vec![1, 2, 3, 4, 5],
    };
    let enc = traffic.encode();
    let dec = Traffic::decode(&enc[1..]).unwrap();
    assert_eq!(dec.path, vec![1, 2, 3]);
    assert_eq!(dec.from, [0xABu8; 32]);
    assert_eq!(dec.enc_header, [0x11u8; 128]);
    assert_eq!(dec.routing_tag, [0x22u8; 16]);
    assert_eq!(dec.pkt_type, PKT_DATA);
    assert_eq!(dec.watermark, 999);
    assert_eq!(dec.payload, vec![1, 2, 3, 4, 5]);
}

#[test]
fn cuckoo_msg_roundtrip() {
    let data = [0xABu8; FILTER_BYTES];
    let msg = CuckooMsg { tree_id: 2, generation: 42, data };
    let enc = msg.encode();
    let dec = CuckooMsg::decode(&enc[1..]).unwrap();
    assert_eq!(dec.tree_id, 2);
    assert_eq!(dec.generation, 42);
    assert_eq!(dec.data, data);
}

#[test]
fn sigreq_roundtrip_all_fields() {
    let req = SigReq {
        tree_id: 2,
        seq: 0xDEAD_BEEF,
        timestamp_ms: 1_700_000_000_123,
        pub_key: [0xABu8; 32],
    };
    let enc = req.encode();
    assert_eq!(enc[0], SIG_REQ);
    let dec = SigReq::decode(&enc[1..]).unwrap();
    assert_eq!(dec.tree_id, req.tree_id);
    assert_eq!(dec.seq, req.seq);
    assert_eq!(dec.timestamp_ms, req.timestamp_ms);
    assert_eq!(dec.pub_key, req.pub_key);
}

#[test]
fn sigreq_decode_truncated_fails() {
    assert!(SigReq::decode(&[]).is_err());
    assert!(SigReq::decode(&[0u8; 1]).is_err());
    assert!(SigReq::decode(&[0u8, 1, 1]).is_err());
}

#[test]
fn sigreq_decode_2_bytes_fails_at_pubkey_not_too_short() {
    let err = SigReq::decode(&[0u8; 2]).unwrap_err().to_string();
    assert!(!err.contains("too short"),
        "2-byte SigReq must fail at seq/ts/pubkey parse, not 'too short'; got: {err}");
}

#[test]
fn sigres_roundtrip_all_fields() {
    let res = SigRes {
        tree_id: 1,
        seq: 999,
        timestamp_ms: 42_000,
        signature: [0x5Au8; 64],
        pub_key: [0x3Cu8; 32],
    };
    let enc = res.encode();
    assert_eq!(enc[0], SIG_RES);
    let dec = SigRes::decode(&enc[1..]).unwrap();
    assert_eq!(dec.tree_id, res.tree_id);
    assert_eq!(dec.seq, res.seq);
    assert_eq!(dec.timestamp_ms, res.timestamp_ms);
    assert_eq!(dec.signature, res.signature);
    assert_eq!(dec.pub_key, res.pub_key);
}

#[test]
fn sigres_decode_truncated_fails() {
    assert!(SigRes::decode(&[]).is_err());
    assert!(SigRes::decode(&[0u8, 1, 1]).is_err());
}

#[test]
fn sigres_decode_2_bytes_fails_at_parse_not_too_short() {
    let err = SigRes::decode(&[0u8; 2]).unwrap_err().to_string();
    assert!(!err.contains("too short"),
        "2-byte SigRes must fail at seq/ts/sig parse, not 'too short'; got: {err}");
}

#[test]
fn sigres_decode_sig_only_missing_pubkey_fails() {
    let mut data = vec![0u8];
    data.push(0u8);
    data.push(0u8);
    data.extend_from_slice(&[0x5Au8; 64]);
    assert!(SigRes::decode(&data).is_err(),
        "SigRes with sig but no pub_key must fail");
}

#[test]
fn announce_sign_bytes_changes_with_fields() {
    let base = Announce {
        tree_id: 0, root: [0xAAu8; 32], root_seq: 1, path_cost: 100,
        sender: [0xBBu8; 32], signature: [0u8; 64], depth: 1,
    };
    let mut changed_root = base.clone();
    changed_root.root = [0xCCu8; 32];
    let mut changed_seq = base.clone();
    changed_seq.root_seq = 2;
    let mut changed_cost = base.clone();
    changed_cost.path_cost = 200;

    assert_ne!(base.sign_bytes(), changed_root.sign_bytes(), "root change must affect sign_bytes");
    assert_ne!(base.sign_bytes(), changed_seq.sign_bytes(), "seq change must affect sign_bytes");
    assert_ne!(base.sign_bytes(), changed_cost.sign_bytes(), "cost change must affect sign_bytes");
}

#[test]
fn announce_decode_truncated_fails() {
    assert!(Announce::decode(&[]).is_err());
    assert!(Announce::decode(&[0u8; 5]).is_err());
}

#[test]
fn path_lookup_roundtrip() {
    let lookup = PathLookup {
        target: [0x11u8; 32],
        source: [0x22u8; 32],
        id: 0xCAFE_BABE,
        path: vec![1, 2, 3],
    };
    let enc = lookup.encode();
    assert_eq!(enc[0], PATH_LOOKUP);
    let dec = PathLookup::decode(&enc[1..]).unwrap();
    assert_eq!(dec.target, lookup.target);
    assert_eq!(dec.source, lookup.source);
    assert_eq!(dec.id, lookup.id);
    assert_eq!(dec.path, lookup.path);
}

#[test]
fn path_lookup_decode_truncated_fails() {
    assert!(PathLookup::decode(&[]).is_err());
    assert!(PathLookup::decode(&[0u8; 10]).is_err());
}

#[test]
fn path_notify_roundtrip() {
    let notify = PathNotify {
        target: [0x33u8; 32],
        source: [0x44u8; 32],
        id: 12345,
        path: vec![4, 5, 6],
    };
    let enc = notify.encode();
    assert_eq!(enc[0], PATH_NOTIFY);
    let dec = PathNotify::decode(&enc[1..]).unwrap();
    assert_eq!(dec.target, notify.target);
    assert_eq!(dec.source, notify.source);
    assert_eq!(dec.id, notify.id);
    assert_eq!(dec.path, notify.path);
}

#[test]
fn path_notify_decode_truncated_fails() {
    assert!(PathNotify::decode(&[]).is_err());
    assert!(PathNotify::decode(&[0u8; 10]).is_err());
}

#[test]
fn path_broken_roundtrip() {
    let broken = PathBroken {
        target: [0x55u8; 32],
        source: [0x66u8; 32],
        id: 0xBEEF,
    };
    let enc = broken.encode();
    assert_eq!(enc[0], PATH_BROKEN);
    let dec = PathBroken::decode(&enc[1..]).unwrap();
    assert_eq!(dec.target, broken.target);
    assert_eq!(dec.source, broken.source);
    assert_eq!(dec.id, broken.id);
}

#[test]
fn path_broken_decode_truncated_fails() {
    assert!(PathBroken::decode(&[]).is_err());
    assert!(PathBroken::decode(&[0u8; 31]).is_err());
}

#[test]
fn read_frame_empty_fails() {
    let buf: &[u8] = &[];
    assert!(read_frame(buf).is_err());
}

#[test]
fn read_frame_length_mismatch_fails() {
    let mut buf = Vec::new();
    encode_uvarint(100, &mut buf);
    buf.extend_from_slice(&[1u8; 5]);
    assert!(read_frame(&buf).is_err());
}

#[test]
fn uvarint_zero_and_max() {
    for v in [0u64, 1, u64::MAX] {
        let mut buf = Vec::new();
        encode_uvarint(v, &mut buf);
        let (decoded, used) = decode_uvarint(&buf).unwrap();
        assert_eq!(decoded, v);
        assert_eq!(used, buf.len());
    }
}

#[test]
fn decode_uvarint_empty_fails() {
    assert!(decode_uvarint(&[]).is_err());
}

#[test]
fn routing_tag_differs_for_different_keys() {
    let t1 = routing_tag(&[0u8; 32]);
    let t2 = routing_tag(&[1u8; 32]);
    assert_ne!(t1, t2, "different pub keys must give different routing tags");
}

#[test]
fn coord_announce_roundtrip() {
    let ann = CoordAnnounce {
        coord: [0xABu8; 16],
        tree_depth: 42,
        sig: [0x5Cu8; 64],
    };
    let mut buf = Vec::new();
    ann.encode_into(&mut buf);
    let dec = CoordAnnounce::decode(&buf).unwrap();
    assert_eq!(dec.coord, ann.coord);
    assert_eq!(dec.tree_depth, ann.tree_depth);
    assert_eq!(dec.sig, ann.sig);
}

#[test]
fn coord_announce_tree_depth_is_little_endian() {
    let ann = CoordAnnounce {
        coord: [0u8; 16],
        tree_depth: 0x01020304,
        sig: [0u8; 64],
    };
    let mut buf = Vec::new();
    ann.encode_into(&mut buf);
    assert_eq!(buf[16], 0x04, "LE byte 0");
    assert_eq!(buf[17], 0x03, "LE byte 1");
    assert_eq!(buf[18], 0x02, "LE byte 2");
    assert_eq!(buf[19], 0x01, "LE byte 3");
    let dec = CoordAnnounce::decode(&buf).unwrap();
    assert_eq!(dec.tree_depth, 0x01020304);
}

#[test]
fn coord_announce_decode_truncated_fails() {
    assert!(CoordAnnounce::decode(&[0u8; 83]).is_err(), "83 bytes must fail");
    assert!(CoordAnnounce::decode(&[0u8; 0]).is_err(), "empty must fail");
    assert!(CoordAnnounce::decode(&[0u8; 84]).is_ok(), "84 bytes must succeed");
}

#[test]
fn traffic_decode_truncated_after_path_fails() {
    let mut data = vec![0u8];
    data.extend_from_slice(&[0u8; 176]);
    assert!(Traffic::decode(&data).is_err(), "too-short traffic must fail");
}

#[test]
fn traffic_decode_minimal_succeeds() {
    let mut data = vec![0u8];
    data.extend_from_slice(&[0u8; 32]);
    data.extend_from_slice(&[0u8; 128]);
    data.extend_from_slice(&[0u8; 16]);
    data.push(0u8);
    data.push(0u8);
    data.push(0u8);
    let result = Traffic::decode(&data);
    assert!(result.is_ok(), "minimal traffic must decode: {:?}", result.err());
    let t = result.unwrap();
    assert_eq!(t.path, Vec::<u64>::new());
    assert_eq!(t.pkt_type, 0);
    assert_eq!(t.payload, Vec::<u8>::new());
}

#[test]
fn empty_path_roundtrip() {
    let path: Vec<u64> = vec![];
    let encoded = encode_path(&path);
    assert_eq!(encoded, vec![0u8], "empty path must encode as single zero byte");
    let (decoded, consumed) = decode_path(&encoded).unwrap();
    assert_eq!(decoded, path);
    assert_eq!(consumed, 1);
}

#[test]
fn encode_path_hop_zero_encodes_as_one() {
    let path = vec![0u64];
    let encoded = encode_path(&path);
    assert_ne!(encoded[0], 0, "hop=0 must encode as non-zero (hop+1=1)");
    let (decoded, _) = decode_path(&encoded).unwrap();
    assert_eq!(decoded, path);
}

#[test]
fn decode_path_not_terminated_fails() {
    let mut buf = Vec::new();
    encode_uvarint(5, &mut buf);
    assert!(decode_path(&buf).is_err(), "unterminated path must fail");
}

#[test]
fn uvarint_continuation_bit_correct() {
    let mut buf = Vec::new();
    encode_uvarint(128, &mut buf);
    assert_eq!(buf.len(), 2, "128 needs 2 bytes");
    assert_eq!(buf[0] & 0x80, 0x80, "first byte must have continuation bit set");
    assert_eq!(buf[1] & 0x80, 0x00, "last byte must NOT have continuation bit");
    let (val, n) = decode_uvarint(&buf).unwrap();
    assert_eq!(val, 128);
    assert_eq!(n, 2);
}

#[test]
fn uvarint_large_value_roundtrip() {
    let v = 0x0FFF_FFFF_FFFF_FFFFu64;
    let mut buf = Vec::new();
    encode_uvarint(v, &mut buf);
    let (decoded, _) = decode_uvarint(&buf).unwrap();
    assert_eq!(decoded, v, "large uvarint must roundtrip");
}

#[test]
fn uvarint_7bit_shift_is_correct() {
    let v = 0x3FFFu64;
    let mut buf = Vec::new();
    encode_uvarint(v, &mut buf);
    assert_eq!(buf.len(), 2, "0x3FFF needs 2 bytes with 7-bit groups");
    let (decoded, _) = decode_uvarint(&buf).unwrap();
    assert_eq!(decoded, v, "shift=7 must be correct, got {:#x}", decoded);
}

#[test]
fn cuckoo_msg_generation_roundtrips_for_large_values() {
    for g in [0u64, 1, 0xFFFF_FFFF, u64::MAX / 2] {
        let data = [0u8; FILTER_BYTES];
        let msg = CuckooMsg { tree_id: 0, generation: g, data };
        let enc = msg.encode();
        let dec = CuckooMsg::decode(&enc[1..]).unwrap();
        assert_eq!(dec.generation, g, "generation {} must roundtrip", g);
    }
}

#[test]
fn cuckoo_msg_decode_truncated_fails() {
    assert!(CuckooMsg::decode(&[]).is_err());
    assert!(CuckooMsg::decode(&[0u8; 10]).is_err());
}

#[test]
fn read_frame_exactly_1mb_passes_size_guard() {
    let limit = 1024u64 * 1024;
    let mut buf = Vec::new();
    encode_uvarint(limit, &mut buf);
    let err = read_frame(&buf).unwrap_err();
    assert!(!err.to_string().contains("too large"),
        "exactly-1MB frame must pass size guard (not 'too large'), got: {:?}", err);
}

#[test]
fn read_frame_over_1mb_fails_with_too_large() {
    let over = 1024u64 * 1024 + 1;
    let mut buf = Vec::new();
    encode_uvarint(over, &mut buf);
    let err = read_frame(&buf).unwrap_err();
    assert!(err.to_string().contains("too large"),
        "1MB+1 frame must fail with 'too large', got: {:?}", err);
}

#[test]
fn read_frame_overlong_varint_fails() {
    let buf = vec![0xFFu8; 11];
    let err = read_frame(&buf).unwrap_err();
    assert!(err.to_string().contains("too long") || err.to_string().contains("overflow"),
        "overlong varint must be rejected, got: {:?}", err);
}

#[test]
fn read_frame_9_continuation_bytes_fails_at_size_not_too_long() {
    let mut buf = vec![0xFFu8; 9];
    buf.push(0x01u8);
    let err = read_frame(&buf).unwrap_err();
    let msg = err.to_string();
    assert!(!msg.contains("too long"),
        "9 continuation bytes must NOT fail with 'too long' (guard is > 9, not >= 9); got: {msg}");
    assert!(msg.contains("too large") || msg.contains("overflow"),
        "9 cont bytes must fail at size guard or overflow, got: {msg}");
}

#[test]
fn read_frame_10_continuation_bytes_fails_with_too_long() {
    let buf = vec![0xFFu8; 10];
    let err = read_frame(&buf).unwrap_err();
    let msg = err.to_string();
    assert!(msg.contains("too long"),
        "10 continuation bytes must fail with 'too long' (len > 9); got: {msg}");
}

fn onion_key() -> OnionKeyAnnounce {
    OnionKeyAnnounce {
        origin: [1u8; 32],
        seq: 300,
        valid_from_ms: 1_700_000_000_000,
        onion_eph_pub: [2u8; 32],
        sig: [3u8; 64],
    }
}

fn report() -> ReputationReport {
    ReputationReport {
        observer: [1u8; 32],
        observed: [2u8; 32],
        score_q16: 0x1234,
        seq: 7,
        valid_from_ms: 1_700_000_000_000,
        sig: [3u8; 64],
    }
}

fn punch() -> HolePunch {
    HolePunch {
        initiator: [1u8; 32],
        target: [2u8; 32],
        endpoint: b"192.0.2.1:9001".to_vec(),
        valid_from_ms: 1_700_000_000_000,
        sig: [3u8; 64],
    }
}

#[test]
fn onion_key_announce_roundtrip() {
    let wire = onion_key().encode();
    assert_eq!(wire[0], TYPE_ONION_KEY_ANNOUNCE);
    let back = OnionKeyAnnounce::decode(&wire[1..]).unwrap();
    assert_eq!((back.origin, back.seq, back.valid_from_ms), ([1u8; 32], 300, 1_700_000_000_000));
    assert_eq!((back.onion_eph_pub, back.sig), ([2u8; 32], [3u8; 64]));
    let short = OnionKeyAnnounce::decode(&wire[1..20]).unwrap_err();
    assert_eq!(short, PacketError::OnionKeyAnnounceTooShort);
}

#[test]
fn reputation_report_roundtrip() {
    let wire = report().encode();
    assert_eq!(wire[0], TYPE_REPUTATION_REPORT);
    let back = ReputationReport::decode(&wire[1..]).unwrap();
    assert_eq!((back.observer, back.observed), ([1u8; 32], [2u8; 32]));
    assert_eq!((back.score_q16, back.seq), (0x1234, 7));
    assert_eq!((back.valid_from_ms, back.sig), (1_700_000_000_000, [3u8; 64]));
    let short = ReputationReport::decode(&wire[1..20]).unwrap_err();
    assert_eq!(short, PacketError::ReputationReportTooShort);
}

#[test]
fn hole_punch_roundtrip() {
    let wire = punch().encode();
    assert_eq!(wire[0], TYPE_HOLE_PUNCH);
    let back = HolePunch::decode(&wire[1..]).unwrap();
    assert_eq!((back.initiator, back.target), ([1u8; 32], [2u8; 32]));
    assert_eq!(back.endpoint, b"192.0.2.1:9001".to_vec());
    assert_eq!((back.valid_from_ms, back.sig), (1_700_000_000_000, [3u8; 64]));
    let short = HolePunch::decode(&wire[1..20]).unwrap_err();
    assert_eq!(short, PacketError::HolePunchTooShort);
}

#[test]
fn path_negative_roundtrip() {
    let wire = PathNegative { routing_tag: [9u8; 16], ttl: 4 }.encode();
    assert_eq!(wire[0], TYPE_PATH_NEGATIVE);
    let back = PathNegative::decode(&wire[1..]).unwrap();
    assert_eq!((back.routing_tag, back.ttl), ([9u8; 16], 4));
    assert_eq!(PathNegative::decode(&wire[1..17]).unwrap_err(), PacketError::PathNegativeTooShort);
}

#[test]
fn signed_bytes_show_every_field_but_the_signature() {
    let k = onion_key().sign_bytes();
    assert_eq!(OnionKeyAnnounce { sig: [0u8; 64], ..onion_key() }.sign_bytes(), k);
    assert_ne!(OnionKeyAnnounce { origin: [9u8; 32], ..onion_key() }.sign_bytes(), k);
    assert_ne!(OnionKeyAnnounce { seq: 301, ..onion_key() }.sign_bytes(), k);
    assert_ne!(OnionKeyAnnounce { valid_from_ms: 1, ..onion_key() }.sign_bytes(), k);
    assert_ne!(OnionKeyAnnounce { onion_eph_pub: [9u8; 32], ..onion_key() }.sign_bytes(), k);
    let r = report().sign_bytes();
    assert_eq!(ReputationReport { sig: [0u8; 64], ..report() }.sign_bytes(), r);
    assert_ne!(ReputationReport { observer: [9u8; 32], ..report() }.sign_bytes(), r);
    assert_ne!(ReputationReport { observed: [9u8; 32], ..report() }.sign_bytes(), r);
    assert_ne!(ReputationReport { score_q16: 1, ..report() }.sign_bytes(), r);
    assert_ne!(ReputationReport { seq: 8, ..report() }.sign_bytes(), r);
    assert_ne!(ReputationReport { valid_from_ms: 1, ..report() }.sign_bytes(), r);
    let p = punch().sign_bytes();
    assert_eq!(HolePunch { sig: [0u8; 64], ..punch() }.sign_bytes(), p);
    assert_ne!(HolePunch { initiator: [9u8; 32], ..punch() }.sign_bytes(), p);
    assert_ne!(HolePunch { target: [9u8; 32], ..punch() }.sign_bytes(), p);
    assert_ne!(HolePunch { endpoint: b"x".to_vec(), ..punch() }.sign_bytes(), p);
    assert_ne!(HolePunch { valid_from_ms: 1, ..punch() }.sign_bytes(), p);
    let coord = CoordAnnounce { coord: [1u8; 16], tree_depth: 2, sig: [3u8; 64] };
    let c = coord.sign_bytes();
    assert_eq!(CoordAnnounce { sig: [0u8; 64], ..coord.clone() }.sign_bytes(), c);
    assert_ne!(CoordAnnounce { coord: [9u8; 16], ..coord.clone() }.sign_bytes(), c);
    assert_ne!(CoordAnnounce { tree_depth: 3, ..coord }.sign_bytes(), c);
}
