use blake2::digest::consts::U32;
use blake2::{Blake2b, Digest};
use ed25519_dalek::{Signer, SigningKey, Verifier, VerifyingKey};
use norn_rs::address::key_difficulty_bits;
use norn_rs::cuckoo::FILTER_BYTES;
use norn_rs::gossip::CoordCheck;
use norn_rs::hyperbolic::CoordBits;
use norn_rs::lookup::Distances;
use norn_rs::maintenance::{
    cleanup_stale_sessions, rotate_session_keys, Clock, SessionInfo,
};
use norn_rs::onion::OnionPacket;
use norn_rs::packet::{
    encode_uvarint, routing_tag, Announce, CoordAnnounce, CuckooMsg, HolePunch, OnionKeyAnnounce,
    PathNegative, PathNotify, ReputationReport, SigReq, SigRes, ANNOUNCE, SIG_RES,
    TYPE_HOLE_PUNCH, TYPE_ONION_KEY_ANNOUNCE,
};
use norn_rs::peers::LinkTry;
use norn_rs::router::{
    current_tree_epoch, tree_seed_of, PeerId, ANNOUNCE_EXPIRY, CUCKOO_GEN_TICKS, K,
    MAX_PATH_NEG_CACHE, PATH_NEG_TTL, PEER_TIMEOUT, PROBE_TIMEOUT, REPUTATION_MIN_QUORUM,
    SESSION_IDLE_EXPIRY,
};
use norn_rs::state::{
    CoordEntry, Event, EventKind, NegativeRoute, Observation, PeerData, Probe, RouterState,
    SeenLookup, TreeAnnounce,
};
use rand::rngs::OsRng;

/// A monotonic time, in microseconds.
const NOW: u64 = 10_000_000_000;
const SECOND: u64 = 1_000_000;
/// A time of day, in milliseconds.
const NOW_MS: u64 = 1_700_000_000_000;
const EPOCH_SECS: u64 = NOW_MS / 1000;

const TRUST_MIN: f32 = 0.01;
const TRUST_MAX: f32 = 4.0;

fn make_router() -> RouterState {
    let sk = SigningKey::generate(&mut OsRng);
    RouterState::new(sk.to_bytes(), [0u8; 16], NOW_MS)
}

fn add_dummy_peer(rs: &mut RouterState, key: PeerId) {
    rs.add_peer(key, 1, 0, NOW);
}

fn peer<'a>(rs: &'a RouterState, key: &PeerId) -> &'a PeerData {
    rs.peers.iter().find(|p| p.pub_key == *key).expect("a neighbour")
}

fn peer_mut<'a>(rs: &'a mut RouterState, key: &PeerId) -> &'a mut PeerData {
    rs.peers.iter_mut().find(|p| p.pub_key == *key).expect("a neighbour")
}

fn has_peer(rs: &RouterState, key: &PeerId) -> bool {
    rs.peers.iter().any(|p| p.pub_key == *key)
}

/// A lag without losses and with the initial trust.
fn set_lag(rs: &mut RouterState, key: &PeerId, us: u64) {
    peer_mut(rs, key).lag_us = us;
    rs.set_costs(key, us, us);
}

fn frames_for(rs: &RouterState, key: &PeerId) -> Vec<Vec<u8>> {
    rs.outbox.iter().filter(|o| o.to == *key).map(|o| o.frame.clone()).collect()
}

fn kinds_for(events: &[Event], key: &PeerId) -> Vec<EventKind> {
    events.iter().filter(|e| e.peer == *key).map(|e| e.kind).collect()
}

/// The loss rate after the events of a neighbour.
fn loss_after(mut loss: f32, events: &[Event], key: &PeerId) -> f32 {
    for k in kinds_for(events, key) {
        match k {
            EventKind::LossUp => loss = loss * 0.875 + 0.125,
            EventKind::LossDown => loss *= 0.875,
            _ => {}
        }
    }
    loss
}

fn has_coord(rs: &RouterState, key: &PeerId) -> bool {
    rs.coord_table.iter().any(|c| c.key == *key)
}

fn make_valid_sig_res(
    peer_sk: &SigningKey,
    own_pub: &[u8; 32],
    seq: u64,
    timestamp_ms: u64,
) -> SigRes {
    let mut sign_data = vec![0u8];
    encode_uvarint(seq, &mut sign_data);
    encode_uvarint(timestamp_ms, &mut sign_data);
    sign_data.extend_from_slice(own_pub);
    let signature = peer_sk.sign(&sign_data).to_bytes();
    SigRes {
        tree_id: 0,
        seq,
        timestamp_ms,
        signature,
        pub_key: peer_sk.verifying_key().to_bytes(),
    }
}

fn epoch() -> u64 {
    current_tree_epoch(EPOCH_SECS)
}

fn salt_for_test(tree_id: usize, epoch: u64) -> [u8; 32] {
    let mut h: Blake2b<U32> = Blake2b::new();
    h.update(b"norn:tree-epoch");
    h.update(tree_seed_of(tree_id));
    h.update(epoch.to_le_bytes());
    h.finalize().into()
}

#[test]
fn send_to_peer_increments_tx_bytes() {
    let mut rs = make_router();
    let peer_key = [0xF0u8; 32];
    add_dummy_peer(&mut rs, peer_key);
    assert_eq!(peer(&rs, &peer_key).tx_bytes, 0, "tx_bytes starts at 0");
    let payload = vec![0u8; 100];
    rs.send_to_peer(&peer_key, payload);
    let frame = rs.outbox.remove(0);
    assert_eq!(frame.to, peer_key);
    assert_eq!(rs.send_order(&peer_key), vec![1]);
    let len = frame.frame.len() as u64;
    assert!(rs.frame_tried(&peer_key, &vec![(1, LinkTry::Taken)], len, NOW));
    assert_eq!(
        peer(&rs, &peer_key).tx_bytes,
        100,
        "tx_bytes must increase by payload length"
    );
}

#[test]
fn links_take_turns() {
    let mut rs = make_router();
    let key = [1u8; 32];
    for link in [10, 20, 30] {
        rs.add_peer(key, link, 0, NOW);
    }
    assert_eq!(rs.peers.len(), 1);
    assert_eq!(rs.send_order(&key), vec![10, 20, 30]);
    assert_eq!(rs.send_order(&key), vec![20, 30, 10]);
    assert_eq!(rs.send_order(&key), vec![30, 10, 20]);
    assert_eq!(rs.send_order(&key), vec![10, 20, 30]);
}

#[test]
fn links_are_given_up_where_no_link_takes_a_frame() {
    let mut rs = make_router();
    let key = [1u8; 32];
    for link in [10, 20, 30] {
        rs.add_peer(key, link, 0, NOW);
    }
    let taken = vec![(10, LinkTry::Full), (20, LinkTry::Closed), (30, LinkTry::Taken)];
    assert!(rs.frame_tried(&key, &taken, 7, NOW + 5));
    assert_eq!(peer(&rs, &key).links, vec![10, 20, 30]);
    assert_eq!((peer(&rs, &key).tx_bytes, peer(&rs, &key).last_tx), (7, NOW + 5));
    let refused = vec![(10, LinkTry::Full), (20, LinkTry::Closed), (30, LinkTry::Full)];
    assert!(!rs.frame_tried(&key, &refused, 7, NOW + 6));
    assert_eq!(peer(&rs, &key).links, vec![10, 30]);
    assert_eq!((peer(&rs, &key).tx_bytes, peer(&rs, &key).last_tx), (7, NOW + 5));
    assert!(!rs.frame_tried(&key, &vec![(10, LinkTry::Closed), (30, LinkTry::Closed)], 7, NOW));
    assert_eq!(rs.send_order(&key), Vec::<u64>::new());
    rs.send_to_peer(&key, vec![1]);
    assert!(rs.outbox.is_empty(), "a neighbour without links gets nothing");
}

#[test]
fn a_neighbour_has_at_most_eight_links() {
    let mut rs = make_router();
    for link in 0..20 {
        rs.add_peer([1u8; 32], link, 0, NOW);
    }
    assert_eq!(peer(&rs, &[1u8; 32]).links.len(), 8);
}

#[test]
fn landmarks_self_not_set_with_two_peers() {
    let mut rs = make_router();
    add_dummy_peer(&mut rs, [1u8; 32]);
    add_dummy_peer(&mut rs, [2u8; 32]);
    rs.update_landmarks();
    assert!(
        !rs.landmarks.contains(&rs.pub_key),
        "self must NOT be a landmark with only 2 peers (need > 2)"
    );
}

#[test]
fn landmarks_self_set_with_three_peers() {
    let mut rs = make_router();
    add_dummy_peer(&mut rs, [1u8; 32]);
    add_dummy_peer(&mut rs, [2u8; 32]);
    add_dummy_peer(&mut rs, [3u8; 32]);
    rs.update_landmarks();
    assert!(
        rs.landmarks.contains(&rs.pub_key),
        "self must be a landmark with 3 peers (> 2)"
    );
}

#[test]
fn landmarks_peer_at_depth_zero_marked() {
    let mut rs = make_router();
    let peer_key = [0xAAu8; 32];
    add_dummy_peer(&mut rs, peer_key);
    peer_mut(&mut rs, &peer_key).trees[0] =
        Some(TreeAnnounce { root: [0u8; 32], path_cost: 0, received_at: NOW, depth: 0 });
    rs.update_landmarks();
    assert!(rs.landmarks.contains(&peer_key), "depth-0 peer must become a landmark");
}

#[test]
fn landmarks_peer_at_depth_two_not_marked() {
    let mut rs = make_router();
    let peer_key = [0xBBu8; 32];
    add_dummy_peer(&mut rs, peer_key);
    peer_mut(&mut rs, &peer_key).trees[0] =
        Some(TreeAnnounce { root: [0u8; 32], path_cost: 0, received_at: NOW, depth: 2 });
    rs.update_landmarks();
    assert!(!rs.landmarks.contains(&peer_key), "depth-2 peer must NOT be a landmark");
}

#[test]
fn remove_peer_clears_tree_parent() {
    let mut rs = make_router();
    let peer_key = [42u8; 32];
    add_dummy_peer(&mut rs, peer_key);
    let own_key = rs.pub_key;
    for i in 0..K {
        rs.trees[i].parent = Some(peer_key);
        rs.trees[i].root = peer_key;
        rs.trees[i].parent_cost = 1000;
    }
    rs.remove_peer(&peer_key);
    for i in 0..K {
        assert!(rs.trees[i].parent.is_none(), "tree[{}] parent must be cleared", i);
        assert_eq!(rs.trees[i].root, own_key, "tree[{}] root must reset to self", i);
        assert_eq!(rs.trees[i].parent_cost, 0, "tree[{}] parent_cost must reset to 0", i);
    }
    assert!(!has_peer(&rs, &peer_key));
}

#[test]
fn remove_peer_does_not_clear_unrelated_parent() {
    let mut rs = make_router();
    let peer_a = [10u8; 32];
    let peer_b = [20u8; 32];
    add_dummy_peer(&mut rs, peer_a);
    add_dummy_peer(&mut rs, peer_b);
    rs.trees[0].parent = Some(peer_b);
    rs.trees[0].root = [0xBBu8; 32];
    rs.trees[0].parent_cost = 500;
    rs.remove_peer(&peer_a);
    assert_eq!(rs.trees[0].parent, Some(peer_b), "unrelated parent must not be cleared");
    assert_eq!(rs.trees[0].parent_cost, 500, "parent_cost must not change");
}

#[test]
fn fix_tree_is_own_root_with_no_peers() {
    let mut rs = make_router();
    let own_key = rs.pub_key;
    rs.fix_tree(0, NOW, epoch());
    assert!(rs.trees[0].parent.is_none(), "no peers: must have no parent");
    assert_eq!(rs.trees[0].root, own_key, "no peers: root must be self");
    assert_eq!(rs.trees[0].parent_cost, 0);
}

#[test]
fn fix_tree_selects_peer_with_lower_cost() {
    let mut rs = make_router();
    let peer_a = [0x11u8; 32];
    let peer_b = [0x22u8; 32];
    add_dummy_peer(&mut rs, peer_a);
    add_dummy_peer(&mut rs, peer_b);
    let root = salt_for_test(0, epoch());
    peer_mut(&mut rs, &peer_a).trees[0] =
        Some(TreeAnnounce { root, path_cost: 10_000, received_at: NOW, depth: 1 });
    set_lag(&mut rs, &peer_a, 10_000);
    peer_mut(&mut rs, &peer_b).trees[0] =
        Some(TreeAnnounce { root, path_cost: 1_000, received_at: NOW, depth: 1 });
    set_lag(&mut rs, &peer_b, 1_000);
    rs.fix_tree(0, NOW, epoch());
    assert_eq!(rs.trees[0].parent, Some(peer_b), "must select lower-cost peer");
    assert_eq!(rs.trees[0].root, root);
    assert_eq!(rs.trees[0].parent_cost, 2_000);
}

#[test]
fn fix_tree_adopts_peer_with_better_root_metric() {
    let mut rs = make_router();
    let peer_key = [0x55u8; 32];
    add_dummy_peer(&mut rs, peer_key);
    let root = salt_for_test(0, epoch());
    peer_mut(&mut rs, &peer_key).trees[0] =
        Some(TreeAnnounce { root, path_cost: 0, received_at: NOW, depth: 1 });
    set_lag(&mut rs, &peer_key, 1_000);
    rs.fix_tree(0, NOW, epoch());
    if rs.pub_key != root {
        assert_eq!(
            rs.trees[0].parent,
            Some(peer_key),
            "peer with better root metric must be selected as parent"
        );
        assert_eq!(rs.trees[0].root, root);
    }
}

#[test]
fn a_root_whose_child_echoes_it_has_no_parent() {
    let mut rs = make_router();
    let child = [0x55u8; 32];
    add_dummy_peer(&mut rs, child);
    let own = rs.pub_key;
    for t in 0..3 {
        peer_mut(&mut rs, &child).trees[t] =
            Some(TreeAnnounce { root: own, path_cost: 5, received_at: NOW, depth: 1 });
        rs.fix_tree(t, NOW, epoch());
        assert_eq!((rs.trees[t].root, rs.trees[t].parent), (own, None));
        assert_eq!(rs.trees[t].parent_cost, 0);
    }
    assert_eq!(rs.own_depth, 0);
    assert!(rs.get_tree_state().iter().all(|t| t.is_root));
}

#[test]
fn fix_tree_ignores_expired_announces() {
    let mut rs = make_router();
    let peer_key = [0x77u8; 32];
    add_dummy_peer(&mut rs, peer_key);
    let own_key = rs.pub_key;
    peer_mut(&mut rs, &peer_key).trees[0] = Some(TreeAnnounce {
        root: [0u8; 32],
        path_cost: 0,
        received_at: NOW - ANNOUNCE_EXPIRY - SECOND,
        depth: 1,
    });
    rs.fix_tree(0, NOW, epoch());
    assert!(rs.trees[0].parent.is_none(), "expired announce must be ignored");
    assert_eq!(rs.trees[0].root, own_key, "must remain own root");
}

#[test]
fn expire_peers_removes_timed_out_peer() {
    let mut rs = make_router();
    let peer_key = [5u8; 32];
    add_dummy_peer(&mut rs, peer_key);
    peer_mut(&mut rs, &peer_key).last_rx = NOW - PEER_TIMEOUT - SECOND;
    rs.expire_peers(NOW);
    assert!(!has_peer(&rs, &peer_key), "timed-out peer must be removed");
}

#[test]
fn expire_peers_keeps_active_peer() {
    let mut rs = make_router();
    let peer_key = [6u8; 32];
    add_dummy_peer(&mut rs, peer_key);
    rs.expire_peers(NOW);
    assert!(has_peer(&rs, &peer_key), "active peer must not be expired");
}

#[test]
fn expire_peers_boundary_just_before_timeout() {
    let mut rs = make_router();
    let peer_key = [11u8; 32];
    add_dummy_peer(&mut rs, peer_key);
    peer_mut(&mut rs, &peer_key).last_rx = NOW - PEER_TIMEOUT + SECOND;
    rs.expire_peers(NOW);
    assert!(has_peer(&rs, &peer_key), "peer just before timeout must not be removed");
}

#[test]
fn keepalive_unanswered_increases_loss_rate_from_half() {
    let mut rs = make_router();
    let peer_key = [7u8; 32];
    add_dummy_peer(&mut rs, peer_key);
    peer_mut(&mut rs, &peer_key).pending_sig_req = Some((1, NOW));
    rs.send_keepalives(NOW, NOW_MS);
    let new_loss = loss_after(0.5, &rs.events, &peer_key);
    assert!(
        (new_loss - 0.5625_f32).abs() < 1e-5,
        "unanswered keepalive from 0.5: expected 0.5625, got {}",
        new_loss
    );
    assert_eq!(kinds_for(&rs.events, &peer_key), vec![EventKind::LossUp, EventKind::TrustDown]);
}

#[test]
fn keepalive_first_unanswered_sets_loss_to_eighth() {
    let mut rs = make_router();
    let peer_key = [8u8; 32];
    add_dummy_peer(&mut rs, peer_key);
    peer_mut(&mut rs, &peer_key).pending_sig_req = Some((1, NOW));
    rs.send_keepalives(NOW, NOW_MS);
    let new_loss = loss_after(0.0, &rs.events, &peer_key);
    assert!(
        (new_loss - 0.125_f32).abs() < 1e-5,
        "first unanswered: expected loss_rate 0.125, got {}",
        new_loss
    );
}

#[test]
fn keepalive_seq_increments() {
    let mut rs = make_router();
    let peer_key = [9u8; 32];
    add_dummy_peer(&mut rs, peer_key);
    let initial_seq = peer(&rs, &peer_key).sig_req_seq;
    rs.send_keepalives(NOW, NOW_MS);
    let new_seq = peer(&rs, &peer_key).sig_req_seq;
    assert_eq!(new_seq, initial_seq + 1, "sig_req_seq must increment by 1");
    let frames = frames_for(&rs, &peer_key);
    let req = SigReq::decode(&frames[0][1..]).unwrap();
    assert_eq!((req.seq, req.timestamp_ms, req.pub_key), (1, NOW_MS, rs.pub_key));
}

#[test]
fn keepalive_sets_pending_sig_req() {
    let mut rs = make_router();
    let peer_key = [12u8; 32];
    add_dummy_peer(&mut rs, peer_key);
    assert!(peer(&rs, &peer_key).pending_sig_req.is_none());
    rs.send_keepalives(NOW, NOW_MS);
    assert!(
        peer(&rs, &peer_key).pending_sig_req.is_some(),
        "pending_sig_req must be set after send_keepalives"
    );
    assert!(rs.events.is_empty(), "the first ping costs nothing");
}

#[test]
fn sig_res_decays_lag_ewma() {
    let mut rs = make_router();
    let peer_sk = SigningKey::generate(&mut OsRng);
    let peer_key = peer_sk.verifying_key().to_bytes();
    add_dummy_peer(&mut rs, peer_key);
    let own_pub = rs.pub_key;
    peer_mut(&mut rs, &peer_key).lag_us = 80_000;
    let seq = 1u64;
    peer_mut(&mut rs, &peer_key).pending_sig_req = Some((seq, NOW));
    peer_mut(&mut rs, &peer_key).sig_req_seq = seq;
    let res = make_valid_sig_res(&peer_sk, &own_pub, seq, NOW_MS);
    rs.handle_sig_res(peer_key, res, NOW);
    let loss = loss_after(0.5, &rs.events, &peer_key);
    let p = peer(&rs, &peer_key);
    assert!(p.lag_us < 80_000, "lag must decrease toward new measurement");
    assert!(p.lag_us > 50_000, "lag must not drop too fast");
    assert_eq!(p.lag_us, 70_000);
    assert!(loss < 0.5, "loss_rate must decay on successful ACK");
    assert!(loss > 0.4, "loss_rate must not drop too fast");
}

#[test]
fn sig_res_loss_rate_decays_exactly() {
    let mut rs = make_router();
    let peer_sk = SigningKey::generate(&mut OsRng);
    let peer_key = peer_sk.verifying_key().to_bytes();
    add_dummy_peer(&mut rs, peer_key);
    let own_pub = rs.pub_key;
    let seq = 2u64;
    peer_mut(&mut rs, &peer_key).pending_sig_req = Some((seq, NOW));
    let res = make_valid_sig_res(&peer_sk, &own_pub, seq, NOW_MS);
    rs.handle_sig_res(peer_key, res, NOW);
    let new_loss = loss_after(1.0, &rs.events, &peer_key);
    assert!(
        (new_loss - 0.875_f32).abs() < 1e-5,
        "loss_rate after successful ACK from 1.0 must be 0.875, got {}",
        new_loss
    );
    assert_eq!(kinds_for(&rs.events, &peer_key), vec![EventKind::LossDown, EventKind::TrustUp]);
}

#[test]
fn sig_res_wrong_seq_does_not_update_lag() {
    let mut rs = make_router();
    let peer_sk = SigningKey::generate(&mut OsRng);
    let peer_key = peer_sk.verifying_key().to_bytes();
    add_dummy_peer(&mut rs, peer_key);
    let own_pub = rs.pub_key;
    peer_mut(&mut rs, &peer_key).lag_us = 80_000;
    peer_mut(&mut rs, &peer_key).pending_sig_req = Some((5, NOW));
    let res = make_valid_sig_res(&peer_sk, &own_pub, 6, NOW_MS);
    rs.handle_sig_res(peer_key, res, NOW);
    assert_eq!(peer(&rs, &peer_key).lag_us, 80_000, "wrong-seq response must not update lag");
    assert!(rs.events.is_empty());
}

#[test]
fn a_forged_answer_changes_nothing() {
    let mut rs = make_router();
    let peer_sk = SigningKey::generate(&mut OsRng);
    let peer_key = peer_sk.verifying_key().to_bytes();
    add_dummy_peer(&mut rs, peer_key);
    peer_mut(&mut rs, &peer_key).pending_sig_req = Some((5, NOW));
    let res = make_valid_sig_res(&peer_sk, &[1u8; 32], 5, NOW_MS);
    rs.handle_sig_res(peer_key, res, NOW + SECOND);
    assert_eq!(peer(&rs, &peer_key).pending_sig_req, Some((5, NOW)));
    assert_eq!(peer(&rs, &peer_key).last_rx, NOW);
}

#[test]
fn cuckoo_generation_increments_at_tick_multiple() {
    let mut rs = make_router();
    assert_eq!(rs.cuckoo_generation[0], 0);
    rs.tick = CUCKOO_GEN_TICKS;
    rs.cuckoo_do_maintenance(0, None, &vec![]);
    assert_eq!(rs.cuckoo_generation[0], 1, "generation must increment at CUCKOO_GEN_TICKS");
}

#[test]
fn cuckoo_generation_does_not_increment_at_tick_zero() {
    let mut rs = make_router();
    rs.tick = 0;
    rs.cuckoo_do_maintenance(0, None, &vec![]);
    assert_eq!(rs.cuckoo_generation[0], 0, "tick=0 must NOT increment generation");
}

#[test]
fn cuckoo_generation_does_not_increment_at_non_multiple() {
    let mut rs = make_router();
    rs.tick = CUCKOO_GEN_TICKS - 1;
    rs.cuckoo_do_maintenance(0, None, &vec![]);
    assert_eq!(rs.cuckoo_generation[0], 0, "non-multiple tick must not increment generation");
}

#[test]
fn cuckoo_generation_increments_all_three_trees_independently() {
    let mut rs = make_router();
    rs.tick = CUCKOO_GEN_TICKS;
    for i in 0..K {
        rs.cuckoo_do_maintenance(i, None, &vec![]);
    }
    for i in 0..K {
        assert_eq!(rs.cuckoo_generation[i], 1, "tree {} generation must be 1", i);
    }
}

#[test]
fn handle_cuckoo_advances_generation_on_newer_msg() {
    let mut rs = make_router();
    let peer_key = [0xC0u8; 32];
    add_dummy_peer(&mut rs, peer_key);
    assert_eq!(peer(&rs, &peer_key).cuckoo_gen[0], 0);
    let msg = CuckooMsg { tree_id: 0, generation: 1, data: [0u8; FILTER_BYTES] };
    rs.handle_cuckoo(peer_key, msg, NOW);
    assert_eq!(
        peer(&rs, &peer_key).cuckoo_gen[0],
        1,
        "generation must advance when msg.generation > current"
    );
}

#[test]
fn handle_cuckoo_does_not_regress_generation() {
    let mut rs = make_router();
    let peer_key = [0xC1u8; 32];
    add_dummy_peer(&mut rs, peer_key);
    peer_mut(&mut rs, &peer_key).cuckoo_gen[0] = 5;
    let msg = CuckooMsg { tree_id: 0, generation: 3, data: [0u8; FILTER_BYTES] };
    rs.handle_cuckoo(peer_key, msg, NOW);
    assert_eq!(
        peer(&rs, &peer_key).cuckoo_gen[0],
        5,
        "old generation message must not overwrite newer generation counter"
    );
}

#[test]
fn handle_cuckoo_same_generation_does_not_advance() {
    let mut rs = make_router();
    let peer_key = [0xC2u8; 32];
    add_dummy_peer(&mut rs, peer_key);
    peer_mut(&mut rs, &peer_key).cuckoo_gen[0] = 7;
    let msg = CuckooMsg { tree_id: 0, generation: 7, data: [0u8; FILTER_BYTES] };
    rs.handle_cuckoo(peer_key, msg, NOW);
    assert_eq!(
        peer(&rs, &peer_key).cuckoo_gen[0],
        7,
        "equal-generation message must not advance counter"
    );
}

#[test]
fn cleanup_stale_lookups_removes_old_entries() {
    let mut rs = make_router();
    rs.pending_lookups.push(SeenLookup { id: 42, at: NOW - 11 * SECOND });
    rs.pending_lookups.push(SeenLookup { id: 43, at: NOW });
    rs.cleanup_stale_lookups(NOW);
    let ids: Vec<u64> = rs.pending_lookups.iter().map(|l| l.id).collect();
    assert!(!ids.contains(&42), "entry older than 10s must be removed");
    assert!(ids.contains(&43), "fresh entry must be kept");
}

#[test]
fn cleanup_stale_lookups_keeps_boundary_entry() {
    let mut rs = make_router();
    rs.pending_lookups.push(SeenLookup { id: 99, at: NOW - 9 * SECOND });
    rs.cleanup_stale_lookups(NOW);
    assert_eq!(
        rs.pending_lookups.len(),
        1,
        "entry 9s old (< 10s threshold) must be kept"
    );
}

#[test]
fn lookup_xor_fallback_returns_xor_closest_peer() {
    let mut rs = make_router();
    let dst = [0xFFu8; 32];
    let peer_a = [0xFEu8; 32];
    let peer_b = [0x00u8; 32];
    add_dummy_peer(&mut rs, peer_a);
    add_dummy_peer(&mut rs, peer_b);
    let result = rs.lookup(&dst, &None);
    assert_eq!(result, Some(peer_a), "XOR fallback must select closest peer");
}

#[test]
fn lookup_returns_none_with_no_peers() {
    let rs = make_router();
    assert!(rs.lookup(&[1u8; 32], &None).is_none(), "empty router must return None");
}

#[test]
fn lookup_cuckoo_filter_hit_routes_to_matching_peer() {
    let mut rs = make_router();
    let dst = [0x42u8; 32];
    let peer_key = [0x10u8; 32];
    add_dummy_peer(&mut rs, peer_key);
    let tag = routing_tag(&dst);
    peer_mut(&mut rs, &peer_key).cuckoo[0].add(&tag);
    let result = rs.lookup(&dst, &None);
    assert_eq!(result, Some(peer_key), "cuckoo filter hit must route to matching peer");
}

#[test]
fn fix_tree_root_seq_increments_when_self_is_root() {
    let mut rs = make_router();
    let initial_seq = rs.trees[0].root_seq;
    rs.fix_tree(0, NOW, epoch());
    assert_eq!(rs.trees[0].root_seq, initial_seq + 1, "root_seq must increment by 1");
}

#[test]
fn fix_tree_sets_own_depth_zero_when_self_is_root_for_tree_0() {
    let mut rs = make_router();
    rs.own_depth = 5;
    rs.fix_tree(0, NOW, epoch());
    assert_eq!(rs.own_depth, 0, "own_depth must reset to 0 when self is root (tree_id=0)");
}

#[test]
fn fix_tree_does_not_reset_own_depth_for_nonzero_tree() {
    let mut rs = make_router();
    rs.own_depth = 7;
    rs.fix_tree(1, NOW, epoch());
    assert_eq!(rs.own_depth, 7, "own_depth must not change for tree_id=1");
}

#[test]
fn fix_tree_own_depth_is_parent_depth_plus_one() {
    let mut rs = make_router();
    let peer_key = [0x55u8; 32];
    add_dummy_peer(&mut rs, peer_key);
    peer_mut(&mut rs, &peer_key).trees[0] =
        Some(TreeAnnounce { root: [0u8; 32], path_cost: 0, received_at: NOW, depth: 3 });
    set_lag(&mut rs, &peer_key, 1_000);
    rs.own_depth = 0;
    rs.fix_tree(0, NOW, epoch());
    if rs.trees[0].parent == Some(peer_key) {
        assert_eq!(
            rs.own_depth, 4,
            "own_depth must be parent.depth + 1 = 4; got {}",
            rs.own_depth
        );
    }
}

#[test]
fn do_maintenance_increments_tick() {
    let mut rs = make_router();
    let initial_tick = rs.tick;
    let clock = Clock { now: NOW, now_ms: NOW_MS, epoch: epoch() };
    rs.do_maintenance(|_depth| [7u8; 16], |_key| 0, clock, None, 0);
    assert_eq!(
        rs.tick,
        initial_tick + 1,
        "tick must increment by 1 per maintenance call"
    );
    assert_eq!(rs.own_coord, [7u8; 16]);
}

#[test]
fn maintenance_leaves_parents_that_are_neighbours() {
    let mut rs = make_router();
    let key = [0x55u8; 32];
    add_dummy_peer(&mut rs, key);
    for t in 0..3 {
        let root = salt_for_test(t, epoch());
        peer_mut(&mut rs, &key).trees[t] =
            Some(TreeAnnounce { root, path_cost: 0, received_at: NOW, depth: 1 });
    }
    let clock = Clock { now: NOW, now_ms: NOW_MS, epoch: epoch() };
    rs.do_maintenance(|_depth| [7u8; 16], |_key| 0, clock, None, 0);
    for t in 0..3 {
        assert_eq!(rs.trees[t].parent, Some(key));
    }
    let clock = Clock { now: NOW + 61 * SECOND, ..clock };
    rs.do_maintenance(|_depth| [7u8; 16], |_key| 0, clock, None, 0);
    assert!(rs.peers.is_empty());
    for t in 0..3 {
        assert_eq!((rs.trees[t].parent, rs.trees[t].root), (None, rs.pub_key));
    }
}

#[test]
fn maintenance_announces_everything() {
    let mut rs = make_router();
    let key = [1u8; 32];
    add_dummy_peer(&mut rs, key);
    let clock = Clock { now: NOW, now_ms: NOW_MS, epoch: epoch() };
    rs.do_maintenance(|_depth| [7u8; 16], |_key| 0, clock, None, 0);
    let kinds: Vec<u8> = frames_for(&rs, &key).iter().map(|f| f[0]).collect();
    assert_eq!(kinds, vec![4, 5, 4, 5, 4, 5, 10, 12]);
    rs.outbox.clear();
    rs.tick = 59;
    rs.do_maintenance(|_depth| [7u8; 16], |_key| 9, clock, None, 0);
    let kinds: Vec<u8> = frames_for(&rs, &key).iter().map(|f| f[0]).collect();
    assert_eq!(kinds, vec![4, 5, 4, 5, 4, 5, 10, 2, 13]);
    assert_eq!(rs.reputation.len(), 1);
    assert_eq!(rs.reputation[0].score_q16, 9);
}

#[test]
fn accelerated_maintenance_rotates_the_onion_key() {
    let mut rs = make_router();
    let before = rs.onion_keys.pub_key();
    let clock = Clock { now: NOW, now_ms: NOW_MS, epoch: epoch() };
    rs.tick = 2;
    rs.do_maintenance(|_depth| [7u8; 16], |_key| 0, clock, Some(3), 0);
    assert_ne!(rs.onion_keys.pub_key(), before);
    let after = rs.onion_keys.pub_key();
    rs.do_maintenance(|_depth| [7u8; 16], |_key| 0, clock, Some(3), 0);
    assert_eq!(rs.onion_keys.pub_key(), after);
}

#[test]
fn lookup_by_tag_prefers_higher_trust_on_tie() {
    let mut rs = make_router();
    let high = [0xB0u8; 32];
    let low = [0xB1u8; 32];
    add_dummy_peer(&mut rs, high);
    add_dummy_peer(&mut rs, low);
    rs.set_costs(&high, 50_000, 25_000);
    rs.set_costs(&low, 50_000, 500_000);
    let tag = [0xCC_u8; 16];
    peer_mut(&mut rs, &high).cuckoo[0].add(&tag);
    peer_mut(&mut rs, &low).cuckoo[0].add(&tag);
    let winner = rs.lookup_by_tag(&tag, NOW).expect("at least one peer should match");
    assert_eq!(winner, high, "the high-trust peer must win the lookup tie");
}

fn make_coord_announce(sk: &SigningKey, tree_depth: u32, coord: [u8; 16]) -> CoordAnnounce {
    let unsigned = CoordAnnounce { coord, tree_depth, sig: [0u8; 64] };
    let sig = sk.sign(&unsigned.sign_bytes()).to_bytes();
    CoordAnnounce { sig, ..unsigned }
}

#[test]
fn coord_announce_consistent_accepted() {
    let mut rs = make_router();
    let sk = SigningKey::generate(&mut OsRng);
    let pk = sk.verifying_key().to_bytes();
    add_dummy_peer(&mut rs, pk);
    let ann = make_coord_announce(&sk, 3, [1u8; 16]);
    rs.handle_coord_announce(pk, ann, CoordCheck::Agrees);
    assert!(has_coord(&rs, &pk), "consistent CoordAnnounce must be recorded");
}

#[test]
fn coord_announce_spoofed_r_rejected() {
    let mut rs = make_router();
    let sk = SigningKey::generate(&mut OsRng);
    let pk = sk.verifying_key().to_bytes();
    add_dummy_peer(&mut rs, pk);
    let ann = make_coord_announce(&sk, 10, [1u8; 16]);
    rs.handle_coord_announce(pk, ann, CoordCheck::Differs);
    assert!(!has_coord(&rs, &pk), "spoofed CoordAnnounce must be rejected");
    assert_eq!(kinds_for(&rs.events, &pk), vec![EventKind::TrustDown]);
}

#[test]
fn coord_announce_spoofed_theta_rejected() {
    let mut rs = make_router();
    let sk = SigningKey::generate(&mut OsRng);
    let pk = sk.verifying_key().to_bytes();
    add_dummy_peer(&mut rs, pk);
    let spoof =
        CoordBits { rho: (3.0_f64 * 0.5).tanh().to_bits(), theta: 1.234_f64.to_bits() }.encode();
    let ann = make_coord_announce(&sk, 3, spoof);
    rs.handle_coord_announce(pk, ann, CoordCheck::Differs);
    assert!(!has_coord(&rs, &pk), "an angle that is not the key's must be rejected");
}

#[test]
fn coord_announce_depth_disagreement_with_announce_rejected() {
    let mut rs = make_router();
    let sk = SigningKey::generate(&mut OsRng);
    let pk = sk.verifying_key().to_bytes();
    add_dummy_peer(&mut rs, pk);
    peer_mut(&mut rs, &pk).trees[0] =
        Some(TreeAnnounce { root: pk, path_cost: 0, received_at: NOW, depth: 10 });
    let ann = make_coord_announce(&sk, 0, [1u8; 16]);
    rs.handle_coord_announce(pk, ann, CoordCheck::Agrees);
    assert!(
        !has_coord(&rs, &pk),
        "CoordAnnounce depth disagreement with Announce must be rejected"
    );
}

#[test]
fn coordinates_heard_of_last_stay_longest() {
    let mut rs = make_router();
    let first = SigningKey::generate(&mut OsRng);
    let second = SigningKey::generate(&mut OsRng);
    let third = SigningKey::generate(&mut OsRng);
    let id = |sk: &SigningKey| sk.verifying_key().to_bytes();
    for sk in [&first, &second] {
        rs.handle_coord_announce(id(sk), make_coord_announce(sk, 3, [1; 16]), CoordCheck::Agrees);
    }
    for i in 0..16_381u32 {
        let mut key = [0xF0u8; 32];
        key[..4].copy_from_slice(&i.to_le_bytes());
        rs.coord_table.push(CoordEntry { key, coord: [0u8; 16] });
    }
    assert_eq!(rs.coord_table.len(), 16_384);
    let again = make_coord_announce(&first, 3, [2; 16]);
    rs.handle_coord_announce(id(&first), again, CoordCheck::Agrees);
    let ann = make_coord_announce(&third, 3, [3; 16]);
    rs.handle_coord_announce(id(&third), ann, CoordCheck::Agrees);
    assert_eq!(rs.coord_table.len(), 16_384);
    assert!(has_coord(&rs, &id(&first)) && has_coord(&rs, &id(&third)));
    assert!(!has_coord(&rs, &id(&second)), "not heard of for the longest time");
}

#[test]
fn coord_announce_needs_a_signature() {
    let mut rs = make_router();
    let sk = SigningKey::generate(&mut OsRng);
    let pk = sk.verifying_key().to_bytes();
    add_dummy_peer(&mut rs, pk);
    let mut ann = make_coord_announce(&sk, 3, [1u8; 16]);
    ann.tree_depth = 4;
    rs.handle_coord_announce(pk, ann, CoordCheck::Agrees);
    assert!(!has_coord(&rs, &pk));
    assert!(rs.events.is_empty());
}

#[test]
fn probe_decays_trust_on_timeout() {
    let mut rs = make_router();
    let via = [0x44u8; 32];
    add_dummy_peer(&mut rs, via);
    let id = 0xCAFE_BABE;
    rs.pending_probes.push(Probe { id, via, at: NOW - PROBE_TIMEOUT - SECOND });
    rs.cleanup_stale_probes(NOW);
    assert!(rs.pending_probes.is_empty(), "stale probe must be removed");
    assert_eq!(
        kinds_for(&rs.events, &via),
        vec![EventKind::TrustDown],
        "trust must decay after probe timeout"
    );
}

#[test]
fn probe_kept_if_not_yet_expired() {
    let mut rs = make_router();
    let via = [0x45u8; 32];
    add_dummy_peer(&mut rs, via);
    let id = 0xDEAD_BEEF;
    rs.pending_probes.push(Probe { id, via, at: NOW });
    rs.cleanup_stale_probes(NOW);
    assert_eq!(rs.pending_probes.len(), 1, "fresh probe must NOT be cleaned up");
    assert_eq!(rs.pending_probes[0].id, id);
}

#[test]
fn probe_match_on_path_notify_boosts_trust() {
    let mut rs = make_router();
    let via = [0x46u8; 32];
    let target = [0x47u8; 32];
    add_dummy_peer(&mut rs, via);
    let id = 0xFEED_F00D;
    rs.pending_probes.push(Probe { id, via, at: NOW });
    let own_pub = rs.pub_key;
    let found = rs.handle_path_notify(
        via,
        PathNotify { target, source: own_pub, id, path: vec![] },
        &None,
        NOW,
    );
    assert_eq!(found, Some(target));
    assert!(rs.pending_probes.is_empty(), "matched probe must be removed");
    assert_eq!(
        kinds_for(&rs.events, &via),
        vec![EventKind::TrustUp],
        "trust must boost on probe success"
    );
}

#[test]
fn probes_go_to_the_neighbour_that_claims() {
    let mut rs = make_router();
    let a = [1u8; 32];
    let b = [2u8; 32];
    add_dummy_peer(&mut rs, a);
    add_dummy_peer(&mut rs, b);
    rs.probe_cuckoo_claim(NOW);
    assert!(rs.outbox.is_empty(), "without a claim there is nothing to probe");
    let tag = routing_tag(&b);
    peer_mut(&mut rs, &a).cuckoo[1].add(&tag);
    assert_eq!(rs.probe_candidates(), vec![(a, b)]);
    rs.probe_cuckoo_claim(NOW);
    assert_eq!(frames_for(&rs, &a).len(), 1);
    assert_eq!(rs.pending_probes.len(), 1);
    assert_eq!(rs.pending_probes[0].via, a);
}

fn make_hole_punch(initiator_sk: &SigningKey, target: [u8; 32], endpoint: &str) -> HolePunch {
    let unsigned = HolePunch {
        initiator: initiator_sk.verifying_key().to_bytes(),
        target,
        valid_from_ms: NOW_MS,
        endpoint: endpoint.as_bytes().to_vec(),
        sig: [0u8; 64],
    };
    let sig = initiator_sk.sign(&unsigned.sign_bytes()).to_bytes();
    HolePunch { sig, ..unsigned }
}

#[test]
fn hole_punch_for_us_fires_callback() {
    let mut rs = make_router();
    let initiator = SigningKey::generate(&mut OsRng);
    let own_pub = rs.pub_key;
    let hp = make_hole_punch(&initiator, own_pub, "10.0.0.5:9001");
    let r = rs.handle_hole_punch(hp, &None, NOW_MS);
    assert!(r.is_some(), "callback must fire on for-us HolePunch");
    let (pk, ep) = r.unwrap();
    assert_eq!(pk, initiator.verifying_key().to_bytes());
    assert_eq!(ep, b"10.0.0.5:9001");
}

#[test]
fn hole_punch_invalid_sig_rejected() {
    let mut rs = make_router();
    let initiator = SigningKey::generate(&mut OsRng);
    let own_pub = rs.pub_key;
    let mut hp = make_hole_punch(&initiator, own_pub, "1.2.3.4:9001");
    hp.sig[0] ^= 0xFF;
    assert!(
        rs.handle_hole_punch(hp, &None, NOW_MS).is_none(),
        "callback must not fire on bad signature"
    );
}

#[test]
fn hole_punch_has_to_be_recent() {
    let mut rs = make_router();
    let initiator = SigningKey::generate(&mut OsRng);
    let own_pub = rs.pub_key;
    let hp = make_hole_punch(&initiator, own_pub, "1.2.3.4:9001");
    assert!(rs.handle_hole_punch(hp.clone(), &None, NOW_MS + 60_001).is_none());
    assert!(rs.handle_hole_punch(hp.clone(), &None, NOW_MS - 60_001).is_none());
    assert!(rs.handle_hole_punch(hp.clone(), &None, 5).is_none());
    assert!(rs.handle_hole_punch(hp.clone(), &None, u64::MAX).is_none());
    assert!(rs.handle_hole_punch(hp, &None, NOW_MS + 60_000).is_some());
}

#[test]
fn hole_punch_for_other_target_no_route_drops() {
    let mut rs = make_router();
    let initiator = SigningKey::generate(&mut OsRng);
    let other_target = [0xCCu8; 32];
    let hp = make_hole_punch(&initiator, other_target, "1.2.3.4:9001");
    assert!(rs.handle_hole_punch(hp, &None, NOW_MS).is_none());
    assert!(rs.outbox.is_empty());
}

#[test]
fn hole_punch_relays_to_peer_with_route() {
    let mut rs = make_router();
    let initiator = SigningKey::generate(&mut OsRng);
    let target = [0xCCu8; 32];
    add_dummy_peer(&mut rs, target);
    let hp = make_hole_punch(&initiator, target, "203.0.113.7:9001");
    rs.handle_hole_punch(hp.clone(), &None, NOW_MS);
    let forwarded = &frames_for(&rs, &target)[0];
    assert_eq!(forwarded[0], TYPE_HOLE_PUNCH, "forwarded frame must be of HolePunch type");
    let decoded = HolePunch::decode(&forwarded[1..]).unwrap();
    assert_eq!(decoded.initiator, hp.initiator);
    assert_eq!(decoded.endpoint, hp.endpoint);
}

fn make_report(
    observer_sk: &SigningKey,
    observed: [u8; 32],
    seq: u64,
    score: f32,
) -> ReputationReport {
    let frac = ((score - TRUST_MIN) / (TRUST_MAX - TRUST_MIN)).clamp(0.0, 1.0);
    let score_q16 = (frac * u16::MAX as f32) as u16;
    let unsigned = ReputationReport {
        observer: observer_sk.verifying_key().to_bytes(),
        observed,
        score_q16,
        seq,
        valid_from_ms: NOW_MS,
        sig: [0u8; 64],
    };
    let sig = observer_sk.sign(&unsigned.sign_bytes()).to_bytes();
    ReputationReport { sig, ..unsigned }
}

/// The consensus as a trust value.
fn consensus_trust(rs: &RouterState, observed: &[u8; 32]) -> Option<f32> {
    let (sum, total) = rs.consensus_trust(observed, NOW)?;
    let score = sum as f64 / total as f64 / f64::from(u16::MAX);
    Some((f64::from(TRUST_MIN) + score * f64::from(TRUST_MAX - TRUST_MIN)) as f32)
}

#[test]
fn votes_weigh_as_much_as_their_keys_are_hard_to_find() {
    let mut rs = make_router();
    let observed = [0xEEu8; 32];
    let mut sum = 0u128;
    let mut total = 0u128;
    for (i, b) in [1u8, 2, 3].iter().enumerate() {
        let observer = [*b; 32];
        let score = 1000 * (i as u16 + 1);
        rs.record_reputation(observer, observed, 1, score, NOW);
        let weight = u128::from(key_difficulty_bits(&observer).clamp(1, 16));
        sum += weight * u128::from(score);
        total += weight;
    }
    assert_eq!(rs.consensus_trust(&observed, NOW), Some((sum, total)));
    assert_eq!(rs.consensus_trust(&[0xDDu8; 32], NOW), None);
}

#[test]
fn reputation_report_valid_recorded() {
    let mut rs = make_router();
    let observed = [0x99u8; 32];
    for _ in 0..REPUTATION_MIN_QUORUM {
        let observer = SigningKey::generate(&mut OsRng);
        let r = make_report(&observer, observed, 1, 2.0);
        rs.handle_reputation_report([0xFEu8; 32], r, NOW, NOW_MS);
    }
    let c = consensus_trust(&rs, &observed).unwrap();
    assert!((c - 2.0).abs() < 0.05, "consensus must roughly equal reported score; got {c}");
}

#[test]
fn reputation_below_quorum_returns_none() {
    let mut rs = make_router();
    let observer = SigningKey::generate(&mut OsRng);
    let observed = [0xDEu8; 32];
    let r = make_report(&observer, observed, 1, 4.0);
    rs.handle_reputation_report([0xFEu8; 32], r, NOW, NOW_MS);
    assert!(
        consensus_trust(&rs, &observed).is_none(),
        "single observation must not pass quorum (need ≥{})",
        REPUTATION_MIN_QUORUM
    );
}

#[test]
fn reputation_report_self_observed_rejected() {
    let mut rs = make_router();
    let sk = SigningKey::generate(&mut OsRng);
    let me = sk.verifying_key().to_bytes();
    let mut r = make_report(&sk, me, 1, 3.0);
    r.sig = sk.sign(&r.sign_bytes()).to_bytes();
    rs.handle_reputation_report([0xFEu8; 32], r, NOW, NOW_MS);
    assert!(consensus_trust(&rs, &me).is_none(), "self-praise must not be accepted");
    assert!(rs.reputation.is_empty());
}

#[test]
fn reputation_report_invalid_sig_rejected() {
    let mut rs = make_router();
    let observer = SigningKey::generate(&mut OsRng);
    let observed = [0xAAu8; 32];
    let mut r = make_report(&observer, observed, 1, 1.5);
    r.sig[0] ^= 0xFF;
    rs.handle_reputation_report([0xFEu8; 32], r, NOW, NOW_MS);
    assert!(consensus_trust(&rs, &observed).is_none());
    assert!(rs.reputation.is_empty());
}

#[test]
fn reputation_report_newer_seq_replaces() {
    let mut rs = make_router();
    let observer = SigningKey::generate(&mut OsRng);
    let pad1 = SigningKey::generate(&mut OsRng);
    let pad2 = SigningKey::generate(&mut OsRng);
    let observed = [0xBBu8; 32];
    for r in [
        make_report(&observer, observed, 1, 0.5),
        make_report(&observer, observed, 2, 3.5),
        make_report(&pad1, observed, 1, 2.0),
        make_report(&pad2, observed, 1, 2.0),
    ] {
        rs.handle_reputation_report([0u8; 32], r, NOW, NOW_MS);
    }
    let c = consensus_trust(&rs, &observed).unwrap();
    assert!(
        c >= 2.0,
        "newer seq must replace prior — mean must be ≥ 2.0 with replace, got {c}"
    );
    assert_eq!(rs.reputation.len(), 3);
}

#[test]
fn reputation_aggregates_across_observers() {
    let mut rs = make_router();
    let observers: Vec<SigningKey> =
        (0..3).map(|_| SigningKey::generate(&mut OsRng)).collect();
    let observed = [0xCCu8; 32];
    for (i, sk) in observers.iter().enumerate() {
        let score = 1.0 + i as f32;
        let r = make_report(sk, observed, 1, score);
        rs.handle_reputation_report([0u8; 32], r, NOW, NOW_MS);
    }
    let c = consensus_trust(&rs, &observed).unwrap();
    assert!(
        (1.0..=3.0).contains(&c),
        "weighted consensus must lie within [1.0, 3.0]; got {c}"
    );
}

#[test]
fn reputation_trimmed_mean_rejects_extreme_minority() {
    let mut rs = make_router();
    let observed = [0xEEu8; 32];
    for _ in 0..4 {
        let sk = SigningKey::generate(&mut OsRng);
        let r = make_report(&sk, observed, 1, 2.0);
        rs.handle_reputation_report([0u8; 32], r, NOW, NOW_MS);
    }
    let attacker = SigningKey::generate(&mut OsRng);
    let r = make_report(&attacker, observed, 1, 4.0);
    rs.handle_reputation_report([0u8; 32], r, NOW, NOW_MS);
    let c = consensus_trust(&rs, &observed).unwrap();
    assert!(
        (c - 2.0).abs() < 0.05,
        "trimmed mean must drop the attacker's extreme vote; got {c} (expected ≈ 2.0)"
    );
}

#[test]
fn old_votes_do_not_count() {
    let mut rs = make_router();
    let observed = [0xEEu8; 32];
    for b in 1..=3u8 {
        rs.record_reputation([b; 32], observed, 1, 100, NOW - 3_600 * SECOND);
    }
    assert_eq!(rs.consensus_votes(&observed, NOW).unwrap().len(), 3);
    assert!(rs.consensus_votes(&observed, NOW + 1).is_none());
}

#[test]
fn young_votes_count_in_the_first_hour() {
    let mut rs = make_router();
    let observed = [0xEEu8; 32];
    for b in 1..=3u8 {
        rs.record_reputation([b; 32], observed, 1, 100, u64::from(b));
    }
    for now in [3, 10 * SECOND, 3_600 * SECOND, 3_600 * SECOND + 1] {
        assert_eq!(rs.consensus_votes(&observed, now).unwrap().len(), 3);
        let (sum, total) = rs.consensus_trust(&observed, now).unwrap();
        assert_eq!(sum, 100 * total);
    }
    assert!(rs.consensus_votes(&observed, 3_600 * SECOND + 2).is_none());
    assert!(rs.consensus_trust(&observed, 3_600 * SECOND + 2).is_none());
}

#[test]
fn observations_stay_within_their_bound() {
    let mut rs = make_router();
    let key = |i: u32| {
        let mut k = [0u8; 32];
        k[..4].copy_from_slice(&i.to_le_bytes());
        k
    };
    let observed = [0xEEu8; 32];
    add_dummy_peer(&mut rs, observed);
    rs.reputation = (0..16_384u32)
        .map(|i| Observation { observed, observer: key(i), seq: 1, score_q16: 9, at: NOW })
        .collect();
    rs.record_reputation(key(20_000), observed, 1, 9, NOW);
    assert_eq!(rs.reputation.len(), 16_384, "nothing may leave, so it is not kept");
    assert!(!rs.reputation.iter().any(|o| o.observer == key(20_000)));
    rs.record_reputation(key(3), observed, 2, 10, NOW);
    assert_eq!((rs.reputation[3].seq, rs.reputation[3].score_q16), (2, 10));
    rs.reputation[0].observed = [0xDDu8; 32];
    rs.reputation[5].observed = [0xDDu8; 32];
    rs.record_reputation(key(20_000), observed, 1, 9, NOW);
    assert_eq!(rs.reputation.len(), 16_383, "what was known of another node made room");
    assert!(!rs.reputation.iter().any(|o| o.observed == [0xDDu8; 32]));
    assert_eq!(rs.reputation.last().unwrap().observer, key(20_000));
}

#[test]
fn a_quarter_of_liars_moves_nothing() {
    let mut rs = make_router();
    let observed = [0xEEu8; 32];
    for b in 1..=6u8 {
        rs.record_reputation([b; 32], observed, 1, 1000 + u16::from(b), NOW);
    }
    rs.record_reputation([7u8; 32], observed, 1, 0, NOW);
    rs.record_reputation([8u8; 32], observed, 1, u16::MAX, NOW);
    let kept = rs.consensus_votes(&observed, NOW).unwrap();
    let scores: Vec<u16> = kept.iter().map(|o| o.score_q16).collect();
    assert_eq!(scores, vec![1002, 1003, 1004, 1005]);
}

#[test]
fn reports_pass_on_once() {
    let mut rs = make_router();
    let sender = [0xAAu8; 32];
    let other = [0xBBu8; 32];
    add_dummy_peer(&mut rs, sender);
    add_dummy_peer(&mut rs, other);
    let observer = SigningKey::generate(&mut OsRng);
    let r = make_report(&observer, [1u8; 32], 1, 2.0);
    rs.handle_reputation_report(sender, r.clone(), NOW, NOW_MS);
    rs.handle_reputation_report(sender, r, NOW, NOW_MS);
    assert_eq!(frames_for(&rs, &other).len(), 1);
    assert_eq!(frames_for(&rs, &sender).len(), 0);
}

fn make_oka(sk: &SigningKey, seq: u64, eph: [u8; 32], age_ms: i64) -> OnionKeyAnnounce {
    let valid_from_ms = if age_ms >= 0 {
        NOW_MS.saturating_sub(age_ms as u64)
    } else {
        NOW_MS.saturating_add((-age_ms) as u64)
    };
    let unsigned = OnionKeyAnnounce {
        origin: sk.verifying_key().to_bytes(),
        seq,
        valid_from_ms,
        onion_eph_pub: eph,
        sig: [0u8; 64],
    };
    let sig = sk.sign(&unsigned.sign_bytes()).to_bytes();
    OnionKeyAnnounce { sig, ..unsigned }
}

fn onion_key(rs: &RouterState, origin: &PeerId) -> Option<(u64, [u8; 32])> {
    rs.remote_onion_keys.iter().find(|e| e.origin == *origin).map(|e| (e.seq, e.eph_pub))
}

#[test]
fn onion_key_announce_valid_is_recorded() {
    let mut rs = make_router();
    let origin_sk = SigningKey::generate(&mut OsRng);
    let origin_pub = origin_sk.verifying_key().to_bytes();
    let eph = [0x77u8; 32];
    let ann = make_oka(&origin_sk, 1, eph, 5_000);
    let from = [0xFEu8; 32];
    rs.handle_onion_key_announce(from, ann, NOW, NOW_MS);
    let recorded = onion_key(&rs, &origin_pub);
    assert!(recorded.is_some(), "valid announce must be recorded");
    let (seq, recorded_eph) = recorded.unwrap();
    assert_eq!(seq, 1);
    assert_eq!(recorded_eph, eph);
}

#[test]
fn onion_key_announce_invalid_sig_rejected() {
    let mut rs = make_router();
    let origin_sk = SigningKey::generate(&mut OsRng);
    let origin_pub = origin_sk.verifying_key().to_bytes();
    let mut ann = make_oka(&origin_sk, 1, [0x77u8; 32], 0);
    ann.sig[0] ^= 0xFF;
    rs.handle_onion_key_announce([0u8; 32], ann, NOW, NOW_MS);
    assert!(onion_key(&rs, &origin_pub).is_none(), "bad sig must not be recorded");
}

#[test]
fn onion_key_announce_too_old_rejected() {
    let mut rs = make_router();
    let origin_sk = SigningKey::generate(&mut OsRng);
    let origin_pub = origin_sk.verifying_key().to_bytes();
    let ann = make_oka(&origin_sk, 1, [0x77u8; 32], 25 * 60 * 60 * 1000);
    rs.handle_onion_key_announce([0u8; 32], ann, NOW, NOW_MS);
    assert!(onion_key(&rs, &origin_pub).is_none(), "stale announce must not be recorded");
}

#[test]
fn onion_key_announce_self_origin_rejected() {
    let mut rs = make_router();
    let own_sk = SigningKey::from_bytes(&rs.signing_key);
    let ann = make_oka(&own_sk, 99, [0x77u8; 32], 0);
    rs.handle_onion_key_announce([0u8; 32], ann, NOW, NOW_MS);
    let entry = onion_key(&rs, &rs.pub_key);
    assert!(
        entry.is_none() || entry.unwrap().0 != 99,
        "self-origin announce must not pollute table"
    );
}

#[test]
fn onion_key_announce_newer_replaces_older() {
    let mut rs = make_router();
    let origin_sk = SigningKey::generate(&mut OsRng);
    let origin_pub = origin_sk.verifying_key().to_bytes();
    let eph1 = [0x01u8; 32];
    let eph2 = [0x02u8; 32];
    rs.handle_onion_key_announce([0u8; 32], make_oka(&origin_sk, 1, eph1, 0), NOW, NOW_MS);
    rs.handle_onion_key_announce([0u8; 32], make_oka(&origin_sk, 2, eph2, 0), NOW, NOW_MS);
    assert_eq!(onion_key(&rs, &origin_pub), Some((2, eph2)));
}

#[test]
fn onion_key_announce_older_ignored() {
    let mut rs = make_router();
    let origin_sk = SigningKey::generate(&mut OsRng);
    let origin_pub = origin_sk.verifying_key().to_bytes();
    let eph1 = [0x01u8; 32];
    let eph_old = [0xEEu8; 32];
    rs.handle_onion_key_announce([0u8; 32], make_oka(&origin_sk, 5, eph1, 0), NOW, NOW_MS);
    rs.handle_onion_key_announce([0u8; 32], make_oka(&origin_sk, 4, eph_old, 0), NOW, NOW_MS);
    assert_eq!(
        onion_key(&rs, &origin_pub),
        Some((5, eph1)),
        "older seq must not overwrite"
    );
}

#[test]
fn onion_key_announce_forwards_to_other_peers() {
    let mut rs = make_router();
    let origin_sk = SigningKey::generate(&mut OsRng);
    let sender = [0xAAu8; 32];
    let other = [0xBBu8; 32];
    add_dummy_peer(&mut rs, sender);
    add_dummy_peer(&mut rs, other);
    let ann = make_oka(&origin_sk, 1, [0x77u8; 32], 0);
    rs.handle_onion_key_announce(sender, ann, NOW, NOW_MS);
    let forwarded = &frames_for(&rs, &other)[0];
    assert_eq!(
        forwarded[0], TYPE_ONION_KEY_ANNOUNCE,
        "forwarded frame must be of OnionKeyAnnounce type"
    );
}

#[test]
fn onion_key_announce_does_not_loop_back_to_sender() {
    let mut rs = make_router();
    let origin_sk = SigningKey::generate(&mut OsRng);
    let sender = [0xAAu8; 32];
    add_dummy_peer(&mut rs, sender);
    let ann = make_oka(&origin_sk, 1, [0x77u8; 32], 0);
    rs.handle_onion_key_announce(sender, ann, NOW, NOW_MS);
    assert!(
        frames_for(&rs, &sender).is_empty(),
        "must not echo OnionKeyAnnounce back to its sender"
    );
}

#[test]
fn onion_replay_first_sight_not_replay() {
    let mut rs = make_router();
    let pkt =
        OnionPacket { routing_tag: [0u8; 16], epk: [1u8; 32], aead_payload: vec![0xAA; 32] };
    assert!(!rs.is_onion_replay(&pkt), "first sighting must not be flagged");
}

#[test]
fn onion_replay_second_sight_is_replay() {
    let mut rs = make_router();
    let pkt =
        OnionPacket { routing_tag: [0u8; 16], epk: [1u8; 32], aead_payload: vec![0xAA; 32] };
    assert!(!rs.is_onion_replay(&pkt));
    assert!(rs.is_onion_replay(&pkt), "identical second sighting must be detected as replay");
}

#[test]
fn onion_replay_distinguishes_different_epks() {
    let mut rs = make_router();
    let pkt_a =
        OnionPacket { routing_tag: [0u8; 16], epk: [1u8; 32], aead_payload: vec![0xAA; 32] };
    let pkt_b =
        OnionPacket { routing_tag: [0u8; 16], epk: [2u8; 32], aead_payload: vec![0xAA; 32] };
    assert!(!rs.is_onion_replay(&pkt_a));
    assert!(
        !rs.is_onion_replay(&pkt_b),
        "different epk → different digest → not a replay"
    );
}

#[test]
fn only_the_last_onions_are_remembered() {
    let mut rs = make_router();
    let pkt = |i: u32| {
        let mut epk = [0u8; 32];
        epk[..4].copy_from_slice(&i.to_le_bytes());
        OnionPacket { routing_tag: [0u8; 16], epk, aead_payload: vec![] }
    };
    for i in 0..4097 {
        assert!(!rs.is_onion_replay(&pkt(i)));
    }
    assert_eq!(rs.onion_seen.len(), 4096);
    assert!(rs.is_onion_replay(&pkt(1)));
    assert!(!rs.is_onion_replay(&pkt(0)), "the oldest has been forgotten");
}

#[test]
fn an_onion_seen_again_is_remembered_longer() {
    let mut rs = make_router();
    let pkt = |i: u32| {
        let mut epk = [0u8; 32];
        epk[..4].copy_from_slice(&i.to_le_bytes());
        OnionPacket { routing_tag: [0u8; 16], epk, aead_payload: vec![] }
    };
    for i in 0..4096 {
        assert!(!rs.is_onion_replay(&pkt(i)));
    }
    assert!(rs.is_onion_replay(&pkt(0)));
    assert!(!rs.is_onion_replay(&pkt(5000)));
    assert!(rs.is_onion_replay(&pkt(0)));
    assert!(!rs.is_onion_replay(&pkt(1)), "now the one not seen for longest");
    assert_eq!(rs.onion_seen.len(), 4096);
}

#[test]
fn send_announces_encodes_own_depth_for_tree_0() {
    let mut rs = make_router();
    rs.own_depth = 7;
    let peer_key = [0x30u8; 32];
    add_dummy_peer(&mut rs, peer_key);
    rs.send_announces(0);
    let data = &frames_for(&rs, &peer_key)[0];
    assert_eq!(data[0], ANNOUNCE, "must be ANNOUNCE type");
    let ann = Announce::decode(&data[1..]).expect("must decode as Announce");
    assert_eq!(ann.depth, 7, "depth in tree-0 announce must equal own_depth=7");
    let vk = VerifyingKey::from_bytes(&rs.pub_key).unwrap();
    let sig = ed25519_dalek::Signature::from_bytes(&ann.signature);
    assert!(vk.verify(&ann.sign_bytes(), &sig).is_ok());
}

#[test]
fn send_announces_encodes_zero_depth_for_nonzero_tree() {
    let mut rs = make_router();
    rs.own_depth = 7;
    let peer_key = [0x31u8; 32];
    add_dummy_peer(&mut rs, peer_key);
    rs.send_announces(1);
    let data = &frames_for(&rs, &peer_key)[0];
    assert_eq!(data[0], ANNOUNCE, "must be ANNOUNCE type");
    let ann = Announce::decode(&data[1..]).expect("must decode as Announce");
    assert_eq!(
        ann.depth, 0,
        "depth for tree_id=1 must be 0 (own_depth only applies to tree 0)"
    );
}

#[test]
fn announcements_of_neighbours_are_kept() {
    let mut rs = make_router();
    let sk = SigningKey::generate(&mut OsRng);
    let key = sk.verifying_key().to_bytes();
    add_dummy_peer(&mut rs, key);
    let mut ann = Announce {
        tree_id: 2,
        root: [9u8; 32],
        root_seq: 1,
        path_cost: 77,
        sender: key,
        signature: [0u8; 64],
        depth: 3,
    };
    rs.handle_announce(key, ann.clone(), NOW + 1);
    assert!(peer(&rs, &key).trees[2].is_none(), "not signed");
    ann.signature = sk.sign(&ann.sign_bytes()).to_bytes();
    rs.handle_announce(key, ann, NOW + 1);
    let kept = peer(&rs, &key).trees[2].unwrap();
    assert_eq!((kept.root, kept.path_cost, kept.depth), ([9u8; 32], 77, 3));
    assert_eq!(peer(&rs, &key).last_rx, NOW + 1);
}

#[test]
fn handle_sig_req_sends_signed_sig_res() {
    let mut rs = make_router();
    let peer_sk = SigningKey::generate(&mut OsRng);
    let peer_key = peer_sk.verifying_key().to_bytes();
    add_dummy_peer(&mut rs, peer_key);

    let own_pub = rs.pub_key;
    let req = SigReq { tree_id: 0, seq: 42u64, timestamp_ms: 0, pub_key: own_pub };
    rs.handle_sig_req(peer_key, req, NOW, NOW_MS);

    let data = &frames_for(&rs, &peer_key)[0];
    assert_eq!(data[0], SIG_RES, "response type must be SIG_RES");
    let sig_res = SigRes::decode(&data[1..]).expect("must decode as SigRes");
    assert_eq!(sig_res.seq, 42, "SigRes seq must echo req seq");
    assert_eq!(sig_res.tree_id, 0, "tree_id must echo request");

    let responder_vk = VerifyingKey::from_bytes(&sig_res.pub_key).unwrap();
    let mut sign_data = vec![sig_res.tree_id];
    encode_uvarint(sig_res.seq, &mut sign_data);
    encode_uvarint(sig_res.timestamp_ms, &mut sign_data);
    sign_data.extend_from_slice(&own_pub);
    let sig = ed25519_dalek::Signature::from_bytes(&sig_res.signature);
    assert!(responder_vk.verify(&sign_data, &sig).is_ok(), "SigRes signature must be valid");
}

#[test]
fn an_answer_reaches_the_asker() {
    let mut asker = make_router();
    let mut other = make_router();
    let (a, b) = (asker.pub_key, other.pub_key);
    add_dummy_peer(&mut asker, b);
    add_dummy_peer(&mut other, a);
    asker.send_keepalives(NOW, NOW_MS);
    let ping = frames_for(&asker, &b).remove(0);
    other.handle_sig_req(a, SigReq::decode(&ping[1..]).unwrap(), NOW, NOW_MS + 5);
    let pong = frames_for(&other, &a).remove(0);
    asker.handle_sig_res(b, SigRes::decode(&pong[1..]).unwrap(), NOW + 800);
    assert_eq!(peer(&asker, &b).pending_sig_req, None);
    assert_eq!(kinds_for(&asker.events, &b), vec![EventKind::LossDown, EventKind::TrustUp]);
}

#[test]
fn sig_res_nonzero_rtt_updates_lag_ewma() {
    let mut rs = make_router();
    let peer_sk = SigningKey::generate(&mut OsRng);
    let peer_key = peer_sk.verifying_key().to_bytes();
    add_dummy_peer(&mut rs, peer_key);
    let own_pub = rs.pub_key;

    peer_mut(&mut rs, &peer_key).lag_us = 10_000;
    peer_mut(&mut rs, &peer_key).jitter_us = 0;

    let seq = 10u64;
    peer_mut(&mut rs, &peer_key).pending_sig_req = Some((seq, NOW - SECOND));
    let res = make_valid_sig_res(&peer_sk, &own_pub, seq, NOW_MS);
    rs.handle_sig_res(peer_key, res, NOW);

    let p = peer(&rs, &peer_key);
    assert!(
        p.lag_us > 40_000,
        "lag must rise substantially toward new 500ms measurement; got {:?}",
        p.lag_us
    );
    assert!(p.lag_us < 120_000, "lag must be < 120ms; got {:?}", p.lag_us);
    assert_eq!(p.lag_us, 71_250);
    assert!(p.jitter_us > 0, "jitter must be non-zero; got {:?}", p.jitter_us);
    assert!(p.jitter_us < 120_000, "jitter must be < 120ms; got {:?}", p.jitter_us);
    assert_eq!(p.jitter_us, 61_250);
}

#[test]
fn lookup_by_tag_selects_lower_cost_peer() {
    let mut rs = make_router();
    let cheap_key = [0xC0u8; 32];
    let costly_key = [0xC1u8; 32];
    add_dummy_peer(&mut rs, cheap_key);
    add_dummy_peer(&mut rs, costly_key);

    let tag = [0xABu8; 16];
    peer_mut(&mut rs, &cheap_key).cuckoo[0].add(&tag);
    peer_mut(&mut rs, &costly_key).cuckoo[0].add(&tag);

    set_lag(&mut rs, &cheap_key, 1_000);
    set_lag(&mut rs, &costly_key, 100_000);

    let result = rs.lookup_by_tag(&tag, NOW);
    assert_eq!(
        result,
        Some(cheap_key),
        "lookup_by_tag must return the peer with lower effective cost"
    );
}

#[test]
fn sig_res_jitter_ewma_with_nonzero_initial() {
    let mut rs = make_router();
    let peer_sk = SigningKey::generate(&mut OsRng);
    let peer_key = peer_sk.verifying_key().to_bytes();
    add_dummy_peer(&mut rs, peer_key);
    let own_pub = rs.pub_key;

    peer_mut(&mut rs, &peer_key).lag_us = 200_000;
    peer_mut(&mut rs, &peer_key).jitter_us = 80_000;

    let seq = 7u64;
    peer_mut(&mut rs, &peer_key).pending_sig_req = Some((seq, NOW - 2 * SECOND));
    let res = make_valid_sig_res(&peer_sk, &own_pub, seq, NOW_MS);
    rs.handle_sig_res(peer_key, res, NOW);

    let p = peer(&rs, &peer_key);
    assert!(p.jitter_us > 160_000, "jitter must be > 160ms; got {:?}", p.jitter_us);
    assert!(p.jitter_us < 177_000, "jitter must be < 177ms; got {:?}", p.jitter_us);
    assert_eq!(p.jitter_us, 170_000);
}

fn session(b: u8, last_used: u64) -> SessionInfo {
    SessionInfo { peer: [b; 32], established: false, local_seq: 0, last_used }
}

#[test]
fn cleanup_stale_sessions_removes_expired() {
    let sessions = vec![session(0x77, NOW - SESSION_IDLE_EXPIRY - 10 * SECOND)];
    let kept = cleanup_stale_sessions(&sessions, NOW);
    assert!(kept.is_empty(), "stale session must be removed by cleanup_stale_sessions");
}

#[test]
fn cleanup_stale_sessions_retains_fresh() {
    let sessions = vec![session(0x78, NOW)];
    let kept = cleanup_stale_sessions(&sessions, NOW);
    assert_eq!(kept.len(), 1, "fresh session must survive cleanup_stale_sessions");
    assert_eq!(kept[0].peer, [0x78u8; 32]);
}

#[test]
fn sessions_get_new_keys_every_hundred_messages() {
    let s = |established: bool, local_seq: u64| SessionInfo {
        peer: [local_seq as u8; 32],
        established,
        local_seq,
        last_used: NOW,
    };
    let sessions = vec![s(true, 0), s(true, 99), s(true, 100), s(false, 100), s(true, 200)];
    let due: Vec<u64> = rotate_session_keys(&sessions).iter().map(|s| s.local_seq).collect();
    assert_eq!(due, vec![100, 200]);
}

#[test]
fn lookup_hyperbolic_greedy_selects_closer_peer() {
    let mut rs = make_router();
    let peer_a_key = [0xA1u8; 32];
    let peer_b_key = [0xB1u8; 32];
    add_dummy_peer(&mut rs, peer_a_key);
    add_dummy_peer(&mut rs, peer_b_key);
    let dst_key = [0xD0u8; 32];
    let d = Distances { own: 800, peers: vec![Some(100), Some(1_400)] };
    let result = rs.lookup(&dst_key, &Some(d));
    assert_eq!(
        result,
        Some(peer_a_key),
        "hyperbolic greedy lookup must return the closest peer (A)"
    );
}

#[test]
fn greedy_lookup_must_get_closer() {
    let mut rs = make_router();
    let a = [0xA1u8; 32];
    let b = [0xB1u8; 32];
    add_dummy_peer(&mut rs, a);
    add_dummy_peer(&mut rs, b);
    let dst = [0xB0u8; 32];
    let d = Distances { own: 800, peers: vec![Some(800), None] };
    assert_eq!(rs.lookup(&dst, &Some(d)), Some(b), "falls back to the closest key");
}

#[test]
fn lookup_xor_distance_uses_xor_not_or() {
    let mut rs = make_router();
    let peer_a_key: PeerId = [0xFEu8; 32];
    let peer_b_key: PeerId = [0x01u8; 32];
    add_dummy_peer(&mut rs, peer_a_key);
    add_dummy_peer(&mut rs, peer_b_key);
    let dst_key: PeerId = [0xFFu8; 32];
    set_lag(&mut rs, &peer_a_key, 200_000);
    set_lag(&mut rs, &peer_b_key, 1_000);
    let result = rs.lookup(&dst_key, &None);
    assert_eq!(
        result,
        Some(peer_a_key),
        "XOR fallback must select peer with smallest XOR distance (peer_A)"
    );
}

#[test]
fn lookup_cuckoo_fallback_selects_lower_cost_peer() {
    let mut rs = make_router();
    let cheap_key = [0xD0u8; 32];
    let costly_key = [0xD1u8; 32];
    add_dummy_peer(&mut rs, cheap_key);
    add_dummy_peer(&mut rs, costly_key);
    let dst_key = [0xEFu8; 32];
    let dst_tag = routing_tag(&dst_key);
    peer_mut(&mut rs, &cheap_key).cuckoo[0].add(&dst_tag);
    peer_mut(&mut rs, &costly_key).cuckoo[0].add(&dst_tag);
    set_lag(&mut rs, &cheap_key, 1_000);
    set_lag(&mut rs, &costly_key, 200_000);
    let result = rs.lookup(&dst_key, &None);
    assert_eq!(result, Some(cheap_key), "cuckoo fallback must return cheaper peer");
}

#[test]
fn cuckoo_maintenance_skips_parent_in_full_merged_loop() {
    let mut rs = make_router();
    let parent_key = [0xA0u8; 32];
    let nonparent_key = [0xB0u8; 32];
    add_dummy_peer(&mut rs, parent_key);
    add_dummy_peer(&mut rs, nonparent_key);
    rs.trees[0].parent = Some(parent_key);
    rs.cuckoo_do_maintenance(0, None, &vec![]);
    assert_eq!(
        frames_for(&rs, &parent_key).len(),
        1,
        "parent must receive exactly 1 message (upstream)"
    );
    assert_eq!(
        frames_for(&rs, &nonparent_key).len(),
        1,
        "non-parent must receive exactly 1 message (full_merged)"
    );
}

#[test]
fn filters_do_not_go_back_to_the_parent() {
    let mut rs = make_router();
    let parent = [0xA0u8; 32];
    let child = [0xB0u8; 32];
    add_dummy_peer(&mut rs, parent);
    add_dummy_peer(&mut rs, child);
    rs.trees[0].parent = Some(parent);
    let above = [1u8; 16];
    let below = [2u8; 16];
    peer_mut(&mut rs, &parent).cuckoo[0].add(&above);
    peer_mut(&mut rs, &child).cuckoo[0].add(&below);
    rs.cuckoo_do_maintenance(0, None, &vec![]);
    let filter = |key: &PeerId| {
        let frame = &frames_for(&rs, key)[0];
        norn_rs::cuckoo::CuckooFilter::decode(&CuckooMsg::decode(&frame[1..]).unwrap().data)
    };
    let own = routing_tag(&rs.pub_key);
    let up = filter(&parent);
    assert!(up.contains(&own) && up.contains(&below) && !up.contains(&above));
    let down = filter(&child);
    assert!(down.contains(&own) && down.contains(&below) && down.contains(&above));
}

#[test]
fn path_negative_cache_blocks_peer_for_tag() {
    let mut rs = make_router();
    let peer_a = [0xAA_u8; 32];
    let peer_b = [0xBB_u8; 32];
    add_dummy_peer(&mut rs, peer_a);
    add_dummy_peer(&mut rs, peer_b);
    let tag = [0xCD_u8; 16];

    peer_mut(&mut rs, &peer_a).cuckoo[0].add(&tag);
    peer_mut(&mut rs, &peer_b).cuckoo[0].add(&tag);
    let first = rs.lookup_by_tag(&tag, NOW).expect("at least one match");
    assert!(first == peer_a || first == peer_b);

    rs.record_path_negative(first, tag, NOW);
    let second = rs.lookup_by_tag(&tag, NOW).expect("fallback peer must be picked");
    assert_ne!(second, first, "after PathNegative for `first`, lookup must pick the alternative");
}

#[test]
fn path_negative_cache_expires() {
    let mut rs = make_router();
    let peer = [0x11_u8; 32];
    let tag = [0x22_u8; 16];
    rs.path_negative_cache.push(NegativeRoute { peer, tag, at: NOW - PATH_NEG_TTL - SECOND });
    rs.cleanup_path_negative_cache(NOW);
    assert!(
        !rs.is_path_negative(&peer, &tag, NOW),
        "expired entry must be evicted by cleanup_path_negative_cache"
    );
    assert!(rs.path_negative_cache.is_empty());
}

#[test]
fn path_negative_ttl_decrement_terminates_propagation() {
    let mut rs = make_router();
    let peer_a = [0xA1_u8; 32];
    let peer_b = [0xB2_u8; 32];
    add_dummy_peer(&mut rs, peer_a);
    add_dummy_peer(&mut rs, peer_b);
    let tag = [0x55_u8; 16];
    peer_mut(&mut rs, &peer_b).cuckoo[0].add(&tag);

    let neg = PathNegative { routing_tag: tag, ttl: 1 };
    rs.handle_path_negative(peer_a, neg, NOW);
    assert!(rs.is_path_negative(&peer_a, &tag, NOW), "ttl=1 must still cache");
    assert!(rs.outbox.is_empty());

    rs.handle_path_negative(peer_a, PathNegative { routing_tag: tag, ttl: 2 }, NOW);
    let passed_on = &frames_for(&rs, &peer_b)[0];
    assert_eq!(PathNegative::decode(&passed_on[1..]).unwrap().ttl, 1);

    let mut rs2 = make_router();
    add_dummy_peer(&mut rs2, peer_a);
    rs2.handle_path_negative(peer_a, PathNegative { routing_tag: tag, ttl: 0 }, NOW);
    assert!(
        rs2.is_path_negative(&peer_a, &tag, NOW),
        "even ttl=0 frames record into the negative cache"
    );
}

#[test]
fn path_negative_cache_evicts_when_full() {
    let mut rs = make_router();
    for i in 0..MAX_PATH_NEG_CACHE {
        let mut peer = [0u8; 32];
        peer[..8].copy_from_slice(&(i as u64).to_le_bytes());
        let mut tag = [0u8; 16];
        tag[..8].copy_from_slice(&(i as u64).to_le_bytes());
        rs.path_negative_cache.push(NegativeRoute { peer, tag, at: NOW });
    }
    let len_before = rs.path_negative_cache.len();
    rs.record_path_negative([0xFF; 32], [0xFF; 16], NOW);
    assert!(
        rs.path_negative_cache.len() <= len_before,
        "record_path_negative must evict to stay within MAX_PATH_NEG_CACHE; before={}, after={}",
        len_before,
        rs.path_negative_cache.len()
    );
    assert!(
        rs.is_path_negative(&[0xFF; 32], &[0xFF; 16], NOW),
        "newly-inserted entry must be present after eviction"
    );
}

#[test]
fn early_entries_are_not_too_old() {
    let mut rs = make_router();
    for i in 0..MAX_PATH_NEG_CACHE {
        let mut peer = [0u8; 32];
        peer[..8].copy_from_slice(&(i as u64).to_le_bytes());
        let at = if i == 1 { 3 } else { 5 };
        rs.path_negative_cache.push(NegativeRoute { peer, tag: [7u8; 16], at });
    }
    let (first, second) = (rs.path_negative_cache[0].peer, rs.path_negative_cache[1].peer);
    rs.record_path_negative([0xFF; 32], [0xFF; 16], 10);
    assert_eq!(rs.path_negative_cache.len(), MAX_PATH_NEG_CACHE);
    assert!(!rs.is_path_negative(&first, &[7u8; 16], 10), "the first makes room");
    assert!(rs.is_path_negative(&second, &[7u8; 16], 10));
    assert!(rs.is_path_negative(&[0xFF; 32], &[0xFF; 16], 10));
}
