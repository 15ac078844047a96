use ed25519_dalek::SigningKey;
use norn_rs::conn::{batch_result, BatchStep, PacketConn, SessionStep, WriteError};
use norn_rs::discovery::{beacon_to_dial, dial_uri, Beacon};
use norn_rs::dispatch::{Arrival, Context, Inbound};
use norn_rs::gossip::CoordCheck;
use norn_rs::onion::{OnionError, OnionPacket, PeeledOnion};
use norn_rs::packet::{
    routing_tag, HolePunch, PathLookup, Traffic, PKT_CONTROL, PKT_DATA, TYPE_HOLE_PUNCH,
};
use norn_rs::peers::LinkTry;
use norn_rs::quic::{
    capped_delay, next_wait, release, welcome, Admission, DialOutcome, FIRST_DELAY_MS,
    MAX_DELAY_MS, RECONNECT_DELAY_MS,
};
use norn_rs::router::{pad_payload, unpad_payload, PeerId};
use norn_rs::traffic::{cover_due, cover_len, cover_pause_ms, deliver, Delivery};
use rand::rngs::OsRng;

const NOW: u64 = 10_000_000_000;
const NOW_MS: u64 = 1_700_000_000_000;

fn conn() -> PacketConn {
    let sk = SigningKey::generate(&mut OsRng);
    PacketConn::new(sk.to_bytes(), [0u8; 16], NOW_MS)
}

fn node_key() -> PeerId {
    SigningKey::generate(&mut OsRng).verifying_key().to_bytes()
}

fn frames_for(c: &PacketConn, key: &PeerId) -> Vec<Vec<u8>> {
    c.state.outbox.iter().filter(|o| o.to == *key).map(|o| o.frame.clone()).collect()
}

#[test]
fn without_a_session_one_is_asked_for() {
    let mut c = conn();
    let dst = node_key();
    c.state.add_peer(dst, 1, 0, NOW);
    let r = c.write_to(&dst, SessionStep::Missing(vec![1, 2, 3]), &None);
    assert_eq!(r, Err(WriteError::NotEstablished(dst)));
    let frame = frames_for(&c, &dst).remove(0);
    let t = Traffic::decode(&frame[1..]).unwrap();
    assert_eq!(t.pkt_type, PKT_CONTROL);
    assert_eq!(t.routing_tag, routing_tag(&dst));
    assert_eq!(unpad_payload(&t.payload).unwrap(), vec![1, 2, 3]);
    let r = c.write_to(&dst, SessionStep::Missing(vec![]), &None);
    assert!(r.is_err());
    assert_eq!(frames_for(&c, &dst).len(), 1, "an empty message is not sent");
}

#[test]
fn a_message_reaches_its_destination() {
    let mut a = conn();
    let mut b = conn();
    let dst = b.state.pub_key;
    a.state.add_peer(dst, 1, 0, NOW);
    let sealed = pad_payload(b"hello");
    a.write_to(&dst, SessionStep::Sealed(sealed), &None).unwrap();
    let frame = frames_for(&a, &dst).remove(0);
    let ctx = Context { now: NOW, now_ms: NOW_MS, distances: None, coord: CoordCheck::Agrees };
    let from = a.state.pub_key;
    match b.state.dispatch(from, Inbound::read(&frame), &ctx) {
        Arrival::Packet(Delivery::Data(source, sealed)) => {
            let got = deliver(source, &sealed).unwrap();
            assert_eq!((got.from, got.payload), (from, b"hello".to_vec()));
        }
        other => panic!("{other:?}"),
    }
}

#[test]
fn without_neighbours_there_is_no_route() {
    let mut c = conn();
    let mut dst = [0u8; 32];
    dst[..4].copy_from_slice(&[1, 20, 255, 0]);
    let e = c.write_to(&dst, SessionStep::Sealed(vec![1]), &None).unwrap_err();
    assert_eq!(e, WriteError::NoRoute(dst));
    assert_eq!(e.to_string(), "no route to [1, 20, 255, 0]");
    let e = c.write_to_batch(&dst, BatchStep::Sealed(vec![vec![1]]), &None).unwrap_err();
    assert_eq!(e, WriteError::NoRoute(dst));
}

#[test]
fn errors_have_their_texts() {
    let k = [7u8; 32];
    assert_eq!(
        WriteError::NotEstablished(k).to_string(),
        "session not established with [7, 7, 7, 7]"
    );
    assert_eq!(WriteError::NoRelayRoute(k).to_string(), "no route to first relay [7, 7, 7, 7]");
    assert_eq!(
        WriteError::NoOnionKey(k).to_string(),
        "no onion ephemeral pub known for dst [7, 7, 7, 7]; wait for CoordAnnounce or use write_to"
    );
    assert_eq!(
        WriteError::Onion(OnionError::EncryptLayer).to_string(),
        "failed to build onion: onion encrypt layer: Error"
    );
}

#[test]
fn a_batch_keeps_its_order() {
    let mut c = conn();
    let dst = node_key();
    c.state.add_peer(dst, 1, 0, NOW);
    let sealed = vec![vec![1u8], vec![2, 2], vec![3]];
    assert_eq!(c.write_to_batch(&dst, BatchStep::Sealed(sealed.clone()), &None), Ok(3));
    let frames = frames_for(&c, &dst);
    let packets: Vec<Traffic> =
        frames.iter().map(|f| Traffic::decode(&f[1..]).unwrap()).collect();
    for (p, s) in packets.iter().zip(&sealed) {
        assert_eq!(p.payload, *s);
        assert_eq!(p.pkt_type, PKT_DATA);
        assert_eq!(p.enc_header, packets[0].enc_header, "one header for all");
    }
    assert_eq!(c.write_to_batch(&dst, BatchStep::Sealed(vec![]), &None), Ok(0));
    let r = c.write_to_batch(&dst, BatchStep::Missing(vec![9]), &None);
    assert_eq!(r, Err(WriteError::NotEstablished(dst)));
    assert_eq!(frames_for(&c, &dst).len(), 4);
}

#[test]
fn a_batch_counts_what_is_queued_and_taken() {
    let mut c = conn();
    let dst = node_key();
    c.state.add_peer(dst, 1, 0, NOW);
    assert!(!c.state.frame_tried(&dst, &vec![(1, LinkTry::Closed)], 1, NOW));
    let sealed = vec![vec![1u8], vec![2], vec![3]];
    let queued = c.write_to_batch(&dst, BatchStep::Sealed(sealed.clone()), &None);
    assert_eq!(queued, Ok(0), "a next hop without links gets nothing");
    assert!(c.state.outbox.is_empty());
    assert_eq!(batch_result(queued, &vec![]), Ok(0));
    c.state.add_peer(dst, 2, 0, NOW);
    let queued = c.write_to_batch(&dst, BatchStep::Sealed(sealed), &None);
    assert_eq!(queued, Ok(3));
    assert_eq!(batch_result(queued, &vec![true, false, true]), Ok(2));
    assert_eq!(batch_result(queued, &vec![true, true, true]), Ok(3));
    let none = Err(WriteError::NoRoute(dst));
    assert_eq!(batch_result(none, &vec![true]), none);
}

#[test]
fn relays_are_neighbours_with_an_onion_key() {
    let mut c = conn();
    for b in 1..=5u8 {
        c.state.add_peer([b; 32], 1, 0, NOW);
    }
    assert!(c.select_relays(3).is_empty());
    for b in 0..4 {
        c.state.peers[b].onion_eph_pub = Some([b as u8 + 101; 32]);
    }
    let relays = c.select_relays(3);
    assert_eq!(relays.len(), 3);
    let mut ids: Vec<u8> = relays.iter().map(|h| h.identity_ed_pub[0]).collect();
    ids.sort();
    ids.dedup();
    assert_eq!(ids.len(), 3);
    for h in &relays {
        assert!(h.identity_ed_pub[0] <= 4);
        assert_eq!(h.ephemeral_x_pub[0], h.identity_ed_pub[0] + 100);
    }
    assert_eq!(c.select_relays(10).len(), 4);
    let mut orders: Vec<Vec<u8>> = (0..60)
        .map(|_| c.select_relays(4).iter().map(|h| h.identity_ed_pub[0]).collect())
        .collect();
    orders.sort();
    orders.dedup();
    assert!(orders.len() > 1, "the order is left to chance");
}

#[test]
fn an_onion_goes_to_its_first_relay() {
    let mut a = conn();
    let relay = conn();
    let dest = conn();
    let (r, d) = (relay.state.pub_key, dest.state.pub_key);
    a.state.add_peer(r, 1, 0, NOW);
    a.state.peers[0].onion_eph_pub = Some(relay.state.onion_keys.pub_key());
    let relays = a.select_relays(1);
    let step = SessionStep::Sealed(vec![5, 6]);
    a.write_to_onion(&d, &relays, step, &None, &None).unwrap();
    let cell = frames_for(&a, &r).remove(0);
    let outer = OnionPacket::decode(&cell[1..]).unwrap();
    assert_eq!(outer.routing_tag, routing_tag(&r));
    let inner = match outer.peel(&relay.state.onion_keys).unwrap() {
        PeeledOnion::Forward(b) => OnionPacket::decode(&b).unwrap(),
        other => panic!("{other:?}"),
    };
    assert_eq!(inner.routing_tag, routing_tag(&d));
    match inner.peel(&dest.state.onion_keys).unwrap() {
        PeeledOnion::Deliver(t) => {
            assert_eq!(Traffic::decode(&t[1..]).unwrap().payload, vec![5, 6]);
        }
        other => panic!("{other:?}"),
    }
    let missing = a.write_to_onion(&d, &relays, SessionStep::Missing(vec![]), &None, &None);
    assert_eq!(missing, Err(WriteError::NotEstablished(d)));
}

#[test]
fn onions_need_a_key_and_a_route() {
    let mut a = conn();
    let relay = conn();
    let hop = relay.onion_hop_for(&relay.state.pub_key).unwrap();
    let r = hop.identity_ed_pub;
    let mut bad = [0u8; 32];
    bad[0] = 2;
    let e = a.write_to_onion(&bad, &[hop.clone()], SessionStep::Sealed(vec![1]), &None, &None);
    assert_eq!(e, Err(WriteError::NoOnionKey(bad)));
    let d = node_key();
    let e = a.write_to_onion(&d, &[hop], SessionStep::Sealed(vec![1]), &None, &None);
    assert_eq!(e, Err(WriteError::NoRelayRoute(r)));
    let e = a.write_to_onion(&d, &[], SessionStep::Sealed(vec![1]), &None, &None);
    assert_eq!(e, Err(WriteError::NoRoute(d)));
}

#[test]
fn onion_hops_prefer_announced_keys() {
    let mut c = conn();
    let key = node_key();
    let derived = c.onion_hop_for(&key).unwrap().ephemeral_x_pub;
    assert_ne!(derived, key);
    c.state.record_remote_onion_key(key, 1, [8u8; 32], NOW);
    assert_eq!(c.onion_hop_for(&key).unwrap().ephemeral_x_pub, [8u8; 32]);
    c.state.add_peer(key, 1, 0, NOW);
    assert_eq!(c.onion_hop_for(&key).unwrap().ephemeral_x_pub, [8u8; 32]);
    c.state.peers[0].onion_eph_pub = Some([9u8; 32]);
    assert_eq!(c.onion_hop_for(&key).unwrap().ephemeral_x_pub, [9u8; 32]);
}

#[test]
fn statistics_and_settings() {
    let mut c = conn();
    assert_eq!(c.mtu(), 65000);
    assert_eq!(c.min_peer_difficulty_bits(), 0);
    c.set_min_peer_difficulty_bits(500);
    assert_eq!(c.min_peer_difficulty_bits(), 500);
    assert!(!c.admits(&[1u8; 32]));
    c.set_min_peer_difficulty_bits(0);
    assert!(c.admits(&[1u8; 32]));
    assert_eq!(
        SigningKey::from_bytes(c.signing_key()).verifying_key().to_bytes(),
        c.state.pub_key
    );
    c.state.add_peer([1u8; 32], 1, 3, NOW);
    assert!(c.record_kernel_link_stats(&[1u8; 32], 1234));
    assert!(!c.record_kernel_link_stats(&[2u8; 32], 1234));
    let stats = c.get_peer_stats(NOW + 50);
    assert_eq!(stats.len(), 1);
    assert_eq!((stats[0].lag_us, stats[0].priority, stats[0].uptime_us), (1234, 3, 50));
    let trees = c.get_tree_state();
    assert_eq!(trees.len(), 3);
    assert!(trees.iter().all(|t| t.is_root && t.root == c.state.pub_key));
    c.close();
    assert!(c.get_peer_stats(NOW).is_empty());
}

#[test]
fn requests_and_lookups_go_out() {
    let mut c = conn();
    let peer = [1u8; 32];
    c.state.add_peer(peer, 1, 0, NOW);
    c.send_hole_punch(&peer, [2u8; 32], b"1.2.3.4:5".to_vec(), NOW_MS);
    let frame = frames_for(&c, &peer).remove(0);
    assert_eq!(frame[0], TYPE_HOLE_PUNCH);
    let hp = HolePunch::decode(&frame[1..]).unwrap();
    assert_eq!((hp.initiator, hp.target), (c.state.pub_key, [2u8; 32]));
    c.state.outbox.clear();
    c.send_lookup(&[9, 8]);
    c.send_lookup(&[7u8; 40]);
    let frames = frames_for(&c, &peer);
    let first = PathLookup::decode(&frames[0][1..]).unwrap();
    let mut target = [0u8; 32];
    target[0] = 9;
    target[1] = 8;
    assert_eq!((first.target, first.source), (target, c.state.pub_key));
    let second = PathLookup::decode(&frames[1][1..]).unwrap();
    assert_eq!(second.target, [7u8; 32]);
    assert_ne!(first.id, second.id);
}

#[test]
fn cover_traffic_has_the_length_asked_for() {
    let mut c = conn();
    let peer = [1u8; 32];
    c.state.add_peer(peer, 1, 0, NOW);
    c.state.send_cover(&peer, 64);
    assert_eq!(frames_for(&c, &peer), vec![vec![0u8; 64]]);
}

#[test]
fn beacons_lead_to_new_neighbours() {
    let mut c = conn();
    let b = Beacon { pub_key: [5u8; 32], port: 9001 };
    let wire = b.encode();
    assert_eq!(&wire[..4], b"NORN");
    assert_eq!(&wire[36..], [0x29, 0x23]);
    let got = beacon_to_dial(&c, &wire).unwrap();
    assert_eq!((got.pub_key, got.port), ([5u8; 32], 9001));
    assert!(Beacon::decode(&wire[..37]).is_none());
    let mut other = wire.clone();
    other[0] = b'M';
    assert!(Beacon::decode(&other).is_none());
    let own = Beacon { pub_key: c.state.pub_key, port: 1 }.encode();
    assert!(beacon_to_dial(&c, &own).is_none(), "the node's own beacon");
    c.state.add_peer([5u8; 32], 1, 0, NOW);
    assert!(beacon_to_dial(&c, &wire).is_none(), "a neighbour already");
    assert_eq!(dial_uri("fe80::1", false, 9001), "tcp://[fe80::1]:9001");
    assert_eq!(dial_uri("::1", true, 9001), "tcp://127.0.0.1:9001");
}

#[test]
fn nodes_are_welcome_once() {
    let mut c = conn();
    let mut connected = vec![];
    let key = [1u8; 32];
    assert_eq!(welcome(&c, &mut connected, key), Admission::Admitted);
    assert_eq!(welcome(&c, &mut connected, key), Admission::Duplicate);
    assert_eq!(connected, vec![key]);
    release(&mut connected, &key);
    assert!(connected.is_empty());
    c.set_min_peer_difficulty_bits(100);
    assert!(matches!(welcome(&c, &mut connected, key), Admission::TooEasy(b) if b < 100));
    assert!(connected.is_empty());
}

#[test]
fn what_happened_decides_when_to_dial_again() {
    assert_eq!(next_wait(1_000, DialOutcome::NotReached), Some(1_000));
    assert_eq!(next_wait(60_000, DialOutcome::NotReached), Some(60_000));
    assert_eq!(next_wait(60_000, DialOutcome::NoStream), None);
    assert_eq!(next_wait(60_000, DialOutcome::LinkEnded), Some(5_000));
}

#[test]
fn cover_traffic_keeps_its_ranges() {
    assert_eq!((cover_pause_ms(0), cover_pause_ms(21_999)), (8_000, 29_999));
    assert_eq!(cover_pause_ms(22_000), 8_000);
    assert_eq!((cover_len(0), cover_len(191), cover_len(192)), (64, 255, 64));
    let due: Vec<bool> = (0..5).map(cover_due).collect();
    assert_eq!(due, vec![true, true, false, false, false]);
}

#[test]
fn delays_are_capped() {
    assert_eq!(capped_delay(FIRST_DELAY_MS), 1_000);
    assert_eq!(capped_delay(RECONNECT_DELAY_MS), 5_000);
    assert_eq!(capped_delay(60_001), MAX_DELAY_MS);
    assert_eq!(MAX_DELAY_MS, 60_000);
}
