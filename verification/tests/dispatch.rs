use ed25519_dalek::SigningKey;
use norn_rs::dispatch::{admit_forward, forward_pause_ms, Arrival, Context, Inbound};
use norn_rs::gossip::CoordCheck;
use norn_rs::lookup::Distances;
use norn_rs::onion::{build_onion, OnionHop, OnionPacket};
use norn_rs::packet::{
    routing_tag, PathBroken, PathLookup, PathNegative, PathNotify, Traffic, DUMMY, KEEP_ALIVE,
    PATH_BROKEN, PATH_LOOKUP, PATH_NOTIFY, PKT_CONTROL, PKT_DATA, TRAFFIC, TYPE_ONION,
    TYPE_PATH_NEGATIVE,
};
use norn_rs::router::{encrypt_header, pad_payload, PeerId};
use norn_rs::state::RouterState;
use norn_rs::traffic::{control_kind, deliver, init_sender, ControlKind, Delivery};
use rand::rngs::OsRng;

const NOW: u64 = 10_000_000_000;
const NOW_MS: u64 = 1_700_000_000_000;

fn router() -> RouterState {
    let sk = SigningKey::generate(&mut OsRng);
    RouterState::new(sk.to_bytes(), [0u8; 16], NOW_MS)
}

fn context() -> Context {
    Context { now: NOW, now_ms: NOW_MS, distances: None, coord: CoordCheck::Agrees }
}

fn add(rs: &mut RouterState, key: PeerId) {
    rs.add_peer(key, 1, 0, 0);
}

fn claim(rs: &mut RouterState, key: &PeerId, tag: &[u8; 16]) {
    rs.peers.iter_mut().find(|p| p.pub_key == *key).unwrap().cuckoo[0].add(tag);
}

fn frames_for(rs: &RouterState, key: &PeerId) -> Vec<Vec<u8>> {
    rs.outbox.iter().filter(|o| o.to == *key).map(|o| o.frame.clone()).collect()
}

fn traffic_for(tag: [u8; 16], watermark: u64) -> Traffic {
    Traffic {
        path: vec![],
        from: [3u8; 32],
        enc_header: [0u8; 128],
        routing_tag: tag,
        pkt_type: PKT_DATA,
        watermark,
        payload: vec![1, 2, 3],
    }
}

#[test]
fn frames_that_say_nothing_are_ignored() {
    let mut rs = router();
    add(&mut rs, [1u8; 32]);
    for frame in [vec![], vec![DUMMY, 0, 0], vec![200, 1], vec![TRAFFIC, 1], vec![TYPE_ONION]] {
        let msg = Inbound::read(&frame);
        assert!(matches!(msg, Inbound::Ignored), "{frame:?}");
        let r = rs.dispatch([1u8; 32], msg, &context());
        assert!(matches!(r, Arrival::Nothing));
    }
    assert!(rs.outbox.is_empty());
    assert_eq!(rs.peers[0].last_rx, 0);
}

#[test]
fn a_keep_alive_shows_that_the_neighbour_is_there() {
    let mut rs = router();
    add(&mut rs, [1u8; 32]);
    rs.dispatch([1u8; 32], Inbound::read(&[KEEP_ALIVE]), &context());
    assert_eq!(rs.peers[0].last_rx, NOW);
}

#[test]
fn traffic_for_this_node_arrives() {
    let mut rs = router();
    let from = [1u8; 32];
    add(&mut rs, from);
    let source = [9u8; 32];
    let (enc_header, tag) = encrypt_header(&source, &rs.pub_key);
    let t = Traffic { enc_header, ..traffic_for(tag, 0) };
    let msg = Inbound::read(&t.encode());
    assert!(rs.is_for_us(&msg));
    match rs.dispatch(from, msg, &context()) {
        Arrival::Packet(Delivery::Data(k, sealed)) => {
            assert_eq!(k, source);
            assert_eq!(sealed, vec![1, 2, 3]);
        }
        other => panic!("{other:?}"),
    }
    assert_eq!(rs.peers[0].rx_bytes, 3);
    let got = deliver(source, &pad_payload(b"hello")).unwrap();
    assert_eq!((got.from, got.payload), (source, b"hello".to_vec()));
    assert!(deliver(source, &[1]).is_none());
}

#[test]
fn a_header_has_to_name_its_destination() {
    let mut rs = router();
    let (mut enc_header, tag) = encrypt_header(&[9u8; 32], &rs.pub_key);
    enc_header[100] ^= 1;
    let t = Traffic { enc_header, ..traffic_for(tag, 0) };
    let arrival = rs.dispatch([1u8; 32], Inbound::read(&t.encode()), &context());
    assert!(matches!(arrival, Arrival::Packet(Delivery::Nothing)));
}

#[test]
fn control_traffic_arrives_without_padding() {
    let mut rs = router();
    let (_, tag) = encrypt_header(&[9u8; 32], &rs.pub_key);
    let t = Traffic {
        pkt_type: PKT_CONTROL,
        payload: pad_payload(&[7u8; 40]),
        ..traffic_for(tag, 0)
    };
    match rs.dispatch([1u8; 32], Inbound::read(&t.encode()), &context()) {
        Arrival::Packet(Delivery::Control(raw)) => {
            assert_eq!(raw, vec![7u8; 40]);
            assert_eq!(control_kind(&raw, 7, 8), ControlKind::Init);
            assert_eq!(control_kind(&raw, 6, 7), ControlKind::Ack);
            assert_eq!(control_kind(&raw, 5, 6), ControlKind::Unknown);
            assert_eq!(init_sender(&raw), Some([7u8; 32]));
            assert_eq!(init_sender(&raw[..32]), None);
        }
        other => panic!("{other:?}"),
    }
    let strange = Traffic { pkt_type: 77, ..traffic_for(tag, 0) };
    let r = rs.dispatch([1u8; 32], Inbound::read(&strange.encode()), &context());
    assert!(matches!(r, Arrival::Packet(Delivery::Nothing)));
}

#[test]
fn traffic_for_others_is_sent_on() {
    let mut rs = router();
    let from = [1u8; 32];
    let next = [2u8; 32];
    let tag = [5u8; 16];
    add(&mut rs, from);
    add(&mut rs, next);
    claim(&mut rs, &from, &tag);
    claim(&mut rs, &next, &tag);
    let msg = Inbound::read(&traffic_for(tag, 31).encode());
    assert!(!rs.is_for_us(&msg));
    rs.dispatch(from, msg, &context());
    let frame = frames_for(&rs, &next).remove(0);
    let sent = Traffic::decode(&frame[1..]).unwrap();
    assert_eq!(sent.watermark, 32);
    assert_eq!(sent.from, rs.pub_key);
    assert_eq!(sent.payload, vec![1, 2, 3]);
    assert!(frames_for(&rs, &from).is_empty(), "never back to the sender");
}

#[test]
fn traffic_that_took_too_many_hops_is_dropped() {
    let mut rs = router();
    let from = [1u8; 32];
    let next = [2u8; 32];
    let tag = [5u8; 16];
    add(&mut rs, from);
    add(&mut rs, next);
    claim(&mut rs, &next, &tag);
    rs.dispatch(from, Inbound::read(&traffic_for(tag, 32).encode()), &context());
    assert!(frames_for(&rs, &next).is_empty());
    let notice = frames_for(&rs, &from).remove(0);
    assert_eq!(notice[0], TYPE_PATH_NEGATIVE);
    let neg = PathNegative::decode(&notice[1..]).unwrap();
    assert_eq!((neg.routing_tag, neg.ttl), (tag, 4));
}

#[test]
fn traffic_without_a_route_is_reported() {
    let mut rs = router();
    let from = [1u8; 32];
    add(&mut rs, from);
    rs.dispatch(from, Inbound::read(&traffic_for([5u8; 16], 0).encode()), &context());
    assert_eq!(frames_for(&rs, &from)[0][0], TYPE_PATH_NEGATIVE);
}

fn lookup(target: PeerId, id: u64) -> Vec<u8> {
    PathLookup { target, source: [8u8; 32], id, path: vec![4] }.encode()
}

#[test]
fn a_lookup_for_this_node_is_answered_once() {
    let mut rs = router();
    let from = [1u8; 32];
    add(&mut rs, from);
    let frame = lookup(rs.pub_key, 77);
    rs.dispatch(from, Inbound::read(&frame), &context());
    rs.dispatch(from, Inbound::read(&frame), &context());
    let answers = frames_for(&rs, &from);
    assert_eq!(answers.len(), 1);
    assert_eq!(answers[0][0], PATH_NOTIFY);
    let notify = PathNotify::decode(&answers[0][1..]).unwrap();
    assert_eq!((notify.target, notify.source), (rs.pub_key, [8u8; 32]));
    assert_eq!((notify.id, notify.path), (77, vec![4]));
}

#[test]
fn a_lookup_goes_to_the_neighbour_that_claims() {
    let mut rs = router();
    let from = [1u8; 32];
    let next = [2u8; 32];
    let target = [9u8; 32];
    add(&mut rs, from);
    add(&mut rs, next);
    claim(&mut rs, &next, &routing_tag(&target));
    rs.dispatch(from, Inbound::read(&lookup(target, 1)), &context());
    let frame = frames_for(&rs, &next).remove(0);
    assert_eq!(frame[0], PATH_LOOKUP);
    assert_eq!(PathLookup::decode(&frame[1..]).unwrap().path, vec![4, 0]);
}

#[test]
fn a_lookup_goes_to_landmarks_or_everyone() {
    let mut rs = router();
    let from = [1u8; 32];
    let (a, b) = ([2u8; 32], [3u8; 32]);
    add(&mut rs, from);
    add(&mut rs, a);
    rs.dispatch(from, Inbound::read(&lookup([9u8; 32], 1)), &context());
    assert_eq!(frames_for(&rs, &a).len(), 1, "without landmarks everyone but the sender");
    assert!(frames_for(&rs, &from).is_empty());
    add(&mut rs, b);
    rs.landmarks = vec![from, b];
    rs.dispatch(from, Inbound::read(&lookup([9u8; 32], 2)), &context());
    assert_eq!(frames_for(&rs, &a).len(), 1);
    assert_eq!(frames_for(&rs, &b).len(), 1);
}

#[test]
fn answers_and_notices_are_sent_towards_their_source() {
    let mut rs = router();
    let (a, b) = ([1u8; 32], [2u8; 32]);
    add(&mut rs, a);
    add(&mut rs, b);
    let source = [0xF0u8; 32];
    let notify = PathNotify { target: [9u8; 32], source, id: 1, path: vec![] }.encode();
    let msg = Inbound::read(&notify);
    assert_eq!(msg.towards(), Some(source));
    let ctx = Context {
        distances: Some(Distances { own: 10, peers: vec![Some(3), Some(5)] }),
        ..context()
    };
    rs.dispatch(b, msg, &ctx);
    assert_eq!(frames_for(&rs, &a), vec![notify]);
    rs.outbox.clear();
    let broken = PathBroken { target: [9u8; 32], source, id: 1 }.encode();
    rs.dispatch(b, Inbound::read(&broken), &context());
    assert_eq!(frames_for(&rs, &a)[0][0], PATH_BROKEN, "the closest key");
    rs.outbox.clear();
    let own = PathBroken { target: [9u8; 32], source: rs.pub_key, id: 1 }.encode();
    rs.dispatch(a, Inbound::read(&own), &context());
    assert!(rs.outbox.is_empty());
}

#[test]
fn what_was_looked_for_is_found() {
    let mut rs = router();
    let target = [9u8; 32];
    let notify = PathNotify { target, source: rs.pub_key, id: 1, path: vec![] }.encode();
    match rs.dispatch([1u8; 32], Inbound::read(&notify), &context()) {
        Arrival::Found(k) => assert_eq!(k, target),
        other => panic!("{other:?}"),
    }
}

#[test]
fn an_onion_travels_through_its_relay() {
    let mut relay = router();
    let mut dest = router();
    let before = [1u8; 32];
    let (r, d) = (relay.pub_key, dest.pub_key);
    add(&mut relay, before);
    add(&mut relay, d);
    claim(&mut relay, &d, &routing_tag(&d));
    let (enc_header, tag) = encrypt_header(&[7u8; 32], &d);
    let t = Traffic { enc_header, ..traffic_for(tag, 0) };
    let relay_hop =
        OnionHop { identity_ed_pub: r, ephemeral_x_pub: relay.onion_keys.pub_key() };
    let dest_hop = OnionHop { identity_ed_pub: d, ephemeral_x_pub: dest.onion_keys.pub_key() };
    let cell = build_onion(&[relay_hop], &dest_hop, t.encode()).unwrap().encode();

    let r1 = relay.dispatch(before, Inbound::read(&cell), &context());
    assert!(matches!(r1, Arrival::Packet(Delivery::Nothing)));
    let onward = frames_for(&relay, &d).remove(0);
    assert_eq!(onward.len(), cell.len());
    match dest.dispatch(r, Inbound::read(&onward), &context()) {
        Arrival::Packet(Delivery::Data(source, sealed)) => {
            assert_eq!(source, [7u8; 32]);
            assert_eq!(sealed, vec![1, 2, 3]);
        }
        other => panic!("{other:?}"),
    }
    match dest.dispatch(r, Inbound::read(&onward), &context()) {
        Arrival::Packet(Delivery::Nothing) => {}
        other => panic!("a replay must be dropped: {other:?}"),
    }
}

#[test]
fn an_onion_for_another_node_is_sent_on_as_it_is() {
    let mut rs = router();
    let from = [1u8; 32];
    let next = [2u8; 32];
    add(&mut rs, from);
    add(&mut rs, next);
    let pkt =
        OnionPacket { routing_tag: [5u8; 16], epk: [6u8; 32], aead_payload: vec![7u8; 20] };
    rs.dispatch(from, Inbound::read(&pkt.encode()), &context());
    assert_eq!(frames_for(&rs, &from)[0][0], TYPE_PATH_NEGATIVE);
    claim(&mut rs, &next, &[5u8; 16]);
    rs.dispatch(from, Inbound::read(&pkt.encode()), &context());
    assert_eq!(frames_for(&rs, &next), vec![pkt.encode()]);
}

#[test]
fn only_so_many_packets_are_held_back() {
    assert!(admit_forward(4_095, false));
    assert!(!admit_forward(4_096, false));
    assert!(admit_forward(4_096, true));
    assert_eq!((forward_pause_ms(49), forward_pause_ms(50)), (49, 0));
}
