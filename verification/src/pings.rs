//! Pings between neighbours: they show that a neighbour is alive, and measure
//! how far away it is.

use crate::bytes::append;
use crate::crypto::{ed25519_sign, ed25519_signature, ed25519_valid, ed25519_verify};
use crate::packet::{
    encode_uvarint, parse_sig_req, parse_sig_res, uvarint, PacketError, SigReq, SigReqView, SigRes,
    SigResView, SIG_REQ, SIG_RES,
};
use crate::router::{elapsed, time_since, PeerId};
use crate::state::{
    distinct_peers, has_peer, index_of, is_at, lemma_index, lemma_update_keeps_keys, one, touched,
    Event, EventKind, PeerData, RouterState, Sent,
};
use vstd::prelude::*;

verus! {

broadcast use vstd::array::group_array_axioms;

/// The bytes that a neighbour signs to answer a ping from the node `asker`.
pub open spec fn answer_signed(
    tree_id: u8,
    seq: u64,
    timestamp_ms: u64,
    asker: Seq<u8>,
) -> Seq<u8> {
    seq![tree_id] + uvarint(seq as nat) + uvarint(timestamp_ms as nat) + asker
}

/// The answer to a ping.
pub open spec fn answer(s: RouterState, req: SigReqView, now_ms: u64) -> SigResView {
    SigResView {
        tree_id: req.tree_id,
        seq: req.seq,
        timestamp_ms: now_ms,
        signature: ed25519_signature(
            s.signing_key@,
            answer_signed(req.tree_id, req.seq, now_ms, req.pub_key),
        ),
        pub_key: s.pub_key@,
    }
}

/// The answer is signed by the node that it names, for the node `asker`.
pub open spec fn answer_valid(res: SigResView, asker: Seq<u8>) -> bool {
    ed25519_valid(
        res.pub_key,
        answer_signed(res.tree_id, res.seq, res.timestamp_ms, asker),
        res.signature,
    )
}

/// An average once a new sample is in: an eighth of the way from the old value
/// to the sample.
pub open spec fn smoothed(old: u64, sample: int) -> int {
    (old * 7) / 8 + sample / 8
}

pub open spec fn distance(a: int, b: int) -> int {
    if a <= b {
        b - a
    } else {
        a - b
    }
}

/// The answer `seq` is the one that the neighbour owes.
pub open spec fn owed(p: PeerData, seq: u64) -> bool {
    p.pending_sig_req matches Some(q) && q.0 == seq
}

/// A neighbour once it answered the ping `seq`.
pub open spec fn answered(p: PeerData, seq: u64, now: u64) -> PeerData {
    if owed(p, seq) {
        let sample = elapsed(now, (p.pending_sig_req->0).1) / 2;
        PeerData {
            last_rx: now,
            pending_sig_req: None,
            jitter_us: smoothed(p.jitter_us, distance(sample as int, p.lag_us as int)) as u64,
            lag_us: smoothed(p.lag_us, sample as int) as u64,
            ..p
        }
    } else {
        PeerData { last_rx: now, pending_sig_req: None, ..p }
    }
}

/// A neighbour once it has been pinged.
pub open spec fn pinged(p: PeerData, now: u64) -> PeerData {
    PeerData {
        sig_req_seq: p.sig_req_seq.wrapping_add(1),
        pending_sig_req: Some((p.sig_req_seq.wrapping_add(1), now)),
        ..p
    }
}

/// The ping for a neighbour.
pub open spec fn ping_frame(own: PeerId, p: PeerData, now_ms: u64) -> Seq<u8> {
    seq![SIG_REQ] + (SigReqView {
        tree_id: 0,
        seq: p.sig_req_seq.wrapping_add(1),
        timestamp_ms: now_ms,
        pub_key: own@,
    }).wire()
}

/// The pings for all neighbours.
pub open spec fn pings(own: PeerId, peers: Seq<PeerData>, now_ms: u64) -> Seq<Sent>
    decreases peers.len(),
{
    if peers.len() == 0 {
        Seq::empty()
    } else {
        let rest = pings(own, peers.drop_last(), now_ms);
        let p = peers.last();
        if p.links@.len() > 0 {
            rest.push(Sent { to: p.pub_key, frame: ping_frame(own, p, now_ms) })
        } else {
            rest
        }
    }
}

/// What neighbours lose that still owe an answer when they are pinged again.
pub open spec fn unanswered(peers: Seq<PeerData>) -> Seq<Event>
    decreases peers.len(),
{
    if peers.len() == 0 {
        Seq::empty()
    } else {
        let rest = unanswered(peers.drop_last());
        let p = peers.last();
        if p.pending_sig_req is Some {
            rest.push(Event { peer: p.pub_key, kind: EventKind::LossUp }).push(
                Event { peer: p.pub_key, kind: EventKind::TrustDown },
            )
        } else {
            rest
        }
    }
}

fn bytes_to_sign(tree_id: u8, seq: u64, timestamp_ms: u64, asker: &PeerId) -> (r: Vec<u8>)
    ensures
        r@ == answer_signed(tree_id, seq, timestamp_ms, asker@),
{
    let mut r: Vec<u8> = vec![tree_id];
    encode_uvarint(seq, &mut r);
    encode_uvarint(timestamp_ms, &mut r);
    append(&mut r, asker.as_slice());
    assert(r@ =~= answer_signed(tree_id, seq, timestamp_ms, asker@));
    r
}

fn smooth(old: u64, sample: u64) -> (r: u64)
    ensures
        r == smoothed(old, sample as int),
{
    let a: u128 = (old as u128 * 7) / 8;
    let b: u128 = (sample / 8) as u128;
    (a + b) as u64
}

/// What pinging all neighbours makes of `before`.
pub open spec fn all_pinged(
    before: RouterState,
    now: u64,
    now_ms: u64,
    after: RouterState,
) -> bool {
    &&& after == (RouterState {
        peers: after.peers,
        events: after.events,
        outbox: after.outbox,
        ..before
    })
    &&& after.peers@ == before.peers@.map_values(|p: PeerData| pinged(p, now))
    &&& after.events@ == before.events@ + unanswered(before.peers@)
    &&& after.sent() == before.sent() + pings(
        before.pub_key,
        before.peers@,
        now_ms,
    )
}

/// What a ping from the neighbour `from` makes of `before`.
pub open spec fn ping_answered(
    before: RouterState,
    from: PeerId,
    req: SigReq,
    now: u64,
    now_ms: u64,
    after: RouterState,
) -> bool {
    &&& after == (RouterState {
        peers: after.peers,
        outbox: after.outbox,
        ..before
    })
    &&& after.peers@ == touched(before.peers@, from, now)
    &&& after.sent() == before.sent() + one(
        after.peers@,
        from,
        seq![SIG_RES] + answer(before, req@, now_ms).wire(),
    )
    &&& answer(before, req@, now_ms).wf()
    &&& answer_valid(answer(before, req@, now_ms), req.pub_key@)
}

/// What an answer from the neighbour `from` makes of `before`.
pub open spec fn answer_taken(
    before: RouterState,
    from: PeerId,
    res: SigRes,
    now: u64,
    after: RouterState,
) -> bool {
    &&& after == (RouterState {
        peers: after.peers,
        events: after.events,
        ..before
    })
    &&& ({
        let peers = before.peers@;
        let i = index_of(peers, from);
        if has_peer(peers, from) && answer_valid(res@, before.pub_key@) {
            &&& after.peers@ == peers.update(i, answered(peers[i], res.seq, now))
            &&& after.events@ == if owed(peers[i], res.seq) {
                before.events@ + seq![
                    Event { peer: from, kind: EventKind::LossDown },
                    Event { peer: from, kind: EventKind::TrustUp },
                ]
            } else {
                before.events@
            }
        } else {
            after.peers@ == peers && after.events@ == before.events@
        }
    })
}

/// What a lag that the transport measured makes of `before`. `known` says whether the node
/// is a neighbour.
pub open spec fn lag_measured(
    before: RouterState,
    peer: PeerId,
    rtt_us: u64,
    known: bool,
    after: RouterState,
) -> bool {
    &&& after == (RouterState { peers: after.peers, ..before })
    &&& known == has_peer(before.peers@, peer)
    &&& after.peers@ == if known {
        let i = index_of(before.peers@, peer);
        before.peers@.update(i, PeerData { lag_us: rtt_us, ..before.peers@[i] })
    } else {
        before.peers@
    }
}

/// What new costs of a neighbour make of `before`.
pub open spec fn costs_taken_over(
    before: RouterState,
    peer: PeerId,
    cost: u64,
    tag_cost: u64,
    after: RouterState,
) -> bool {
    &&& after == (RouterState { peers: after.peers, ..before })
    &&& after.peers@ == if has_peer(before.peers@, peer) {
        let i = index_of(before.peers@, peer);
        before.peers@.update(i, PeerData { cost, tag_cost, ..before.peers@[i] })
    } else {
        before.peers@
    }
}

impl RouterState {
    /// A neighbour pinged: answer.
    pub fn handle_sig_req(&mut self, from: PeerId, req: SigReq, now: u64, now_ms: u64)
        requires
            old(self).wf(),
        ensures
            final(self).wf(),
            ping_answered(*old(self), from, req, now, now_ms, *final(self)),
    {
        self.touch(&from, now);
        let signed: Vec<u8> = bytes_to_sign(req.tree_id, req.seq, now_ms, &req.pub_key);
        let signature: [u8; 64] = ed25519_sign(&self.signing_key, signed.as_slice());
        let res = SigRes {
            tree_id: req.tree_id,
            seq: req.seq,
            timestamp_ms: now_ms,
            signature,
            pub_key: self.pub_key,
        };
        assert(res@ =~= answer(*old(self), req@, now_ms));
        let frame: Vec<u8> = res.encode();
        self.send_to_peer(&from, frame);
    }

    /// A neighbour answered a ping. An answer that is not signed for this node
    /// is ignored. The answer that is owed updates lag and jitter, and speaks
    /// for the neighbour; any other only shows that it is alive, and leaves
    /// the ping without an answer.
    pub fn handle_sig_res(&mut self, from: PeerId, res: SigRes, now: u64)
        requires
            old(self).wf(),
        ensures
            final(self).wf(),
            answer_taken(*old(self), from, res, now, *final(self)),
    {
        let signed: Vec<u8> = bytes_to_sign(res.tree_id, res.seq, res.timestamp_ms, &self.pub_key);
        if !ed25519_verify(&res.pub_key, signed.as_slice(), &res.signature) {
            return ;
        }
        if let Some(i) = self.find_peer(&from) {
            let ghost p = self.peers@[i as int];
            let pending: Option<(u64, u64)> = self.peers[i].pending_sig_req;
            self.peers[i].last_rx = now;
            self.peers[i].pending_sig_req = None;
            let mut good: bool = false;
            if let Some((seq, at)) = pending {
                if seq == res.seq {
                    let sample: u64 = time_since(now, at) / 2;
                    let old_lag: u64 = self.peers[i].lag_us;
                    let diff: u64 = if sample <= old_lag {
                        old_lag - sample
                    } else {
                        sample - old_lag
                    };
                    let jitter: u64 = smooth(self.peers[i].jitter_us, diff);
                    self.peers[i].jitter_us = jitter;
                    self.peers[i].lag_us = smooth(old_lag, sample);
                    good = true;
                }
            }
            proof {
                let q = self.peers@[i as int];
                assert(q == answered(p, res.seq, now));
                assert(self.peers@ =~= old(self).peers@.update(i as int, q));
                lemma_update_keeps_keys(old(self).peers@, i as int, q);
            }
            if good {
                self.push_event(from, EventKind::LossDown);
                self.push_event(from, EventKind::TrustUp);
                assert(self.events@ =~= old(self).events@ + seq![
                    Event { peer: from, kind: EventKind::LossDown },
                    Event { peer: from, kind: EventKind::TrustUp },
                ]);
            }
        }
    }

    /// Ping all neighbours. One that still owes an answer loses trust, and
    /// counts as lossy.
    pub fn send_keepalives(&mut self, now: u64, now_ms: u64)
        requires
            old(self).wf(),
        ensures
            final(self).wf(),
            all_pinged(*old(self), now, now_ms, *final(self)),
    {
        let ghost all = self.peers@;
        let mut i: usize = 0;
        proof {
            assert(all.take(0) =~= Seq::<PeerData>::empty());
            assert(self.events@ =~= old(self).events@ + unanswered(all.take(0)));
            assert(self.sent() =~= old(self).sent() + pings(self.pub_key, all.take(0), now_ms));
        }
        while i < self.peers.len()
            invariant
                self.wf(),
                all == old(self).peers@,
                distinct_peers(all),
                *self == (RouterState {
                    peers: self.peers,
                    events: self.events,
                    outbox: self.outbox,
                    ..*old(self)
                }),
                i <= all.len(),
                self.peers@.len() == all.len(),
                forall|j: int| 0 <= j < i ==> #[trigger] self.peers@[j] == pinged(all[j], now),
                forall|j: int| i <= j < all.len() ==> #[trigger] self.peers@[j] == all[j],
                self.events@ == old(self).events@ + unanswered(all.take(i as int)),
                self.sent() == old(self).sent() + pings(
                    old(self).pub_key,
                    all.take(i as int),
                    now_ms,
                ),
            decreases all.len() - i,
        {
            let ghost before = *self;
            let ghost p = all[i as int];
            proof {
                assert(all.take(i + 1).drop_last() =~= all.take(i as int));
                assert(all.take(i + 1).last() == p);
                assert(self.peers@[i as int] == p);
            }
            let key: PeerId = self.peers[i].pub_key;
            if self.peers[i].pending_sig_req.is_some() {
                self.push_event(key, EventKind::LossUp);
                self.push_event(key, EventKind::TrustDown);
            }
            assert(self.events@ =~= old(self).events@ + unanswered(all.take(i + 1)));
            let seq: u64 = self.peers[i].sig_req_seq.wrapping_add(1);
            self.peers[i].sig_req_seq = seq;
            self.peers[i].pending_sig_req = Some((seq, now));
            proof {
                let q = self.peers@[i as int];
                assert(q == pinged(p, now));
                assert(self.peers@ =~= before.peers@.update(i as int, q));
                lemma_update_keeps_keys(before.peers@, i as int, q);
                assert(is_at(self.peers@, key, i as int));
                lemma_index(self.peers@, key, i as int);
            }
            let req = SigReq { tree_id: 0, seq, timestamp_ms: now_ms, pub_key: self.pub_key };
            assert(req@ =~= SigReqView {
                tree_id: 0,
                seq: p.sig_req_seq.wrapping_add(1),
                timestamp_ms: now_ms,
                pub_key: old(self).pub_key@,
            });
            let frame: Vec<u8> = req.encode();
            self.send_to_peer(&key, frame);
            assert(self.sent() =~= old(self).sent() + pings(
                old(self).pub_key,
                all.take(i + 1),
                now_ms,
            ));
            i = i + 1;
        }
        proof {
            assert(all.take(i as int) =~= all);
            assert(self.peers@ =~= all.map_values(|p: PeerData| pinged(p, now)));
        }
    }

    /// Take over a lag that the transport measured. A node that is no neighbour
    /// is ignored. The result says whether it is one.
    pub fn record_kernel_link_stats(&mut self, peer: &PeerId, rtt_us: u64) -> (known: bool)
        requires
            old(self).wf(),
        ensures
            final(self).wf(),
            lag_measured(*old(self), *peer, rtt_us, known, *final(self)),
    {
        match self.find_peer(peer) {
            Some(i) => {
                self.peers[i].lag_us = rtt_us;
                proof {
                    let q = self.peers@[i as int];
                    assert(self.peers@ =~= old(self).peers@.update(i as int, q));
                    lemma_update_keeps_keys(old(self).peers@, i as int, q);
                }
                true
            },
            None => false,
        }
    }

    /// Take over the costs of a neighbour, which follow from its lag, its loss
    /// rate and the trust in it. A node that is no neighbour is ignored.
    pub fn set_costs(&mut self, peer: &PeerId, cost: u64, tag_cost: u64)
        requires
            old(self).wf(),
        ensures
            final(self).wf(),
            costs_taken_over(*old(self), *peer, cost, tag_cost, *final(self)),
    {
        if let Some(i) = self.find_peer(peer) {
            self.peers[i].cost = cost;
            self.peers[i].tag_cost = tag_cost;
            proof {
                let q = self.peers@[i as int];
                assert(self.peers@ =~= old(self).peers@.update(i as int, q));
                lemma_update_keeps_keys(old(self).peers@, i as int, q);
            }
        }
    }
}

/// The lag never leaves the range of the old value and the new sample by more
/// than rounding.
pub proof fn lag_follows_the_samples(old: u64, sample: u64)
    ensures
        smoothed(old, sample as int) <= old || smoothed(old, sample as int) <= sample,
        smoothed(old, sample as int) + 2 >= old || smoothed(old, sample as int) + 2 >= sample,
{
}

/// An answer is counted once: after it, the same answer is not owed any more.
pub proof fn answers_count_once(p: PeerData, seq: u64, now: u64, again: u64)
    ensures
        !owed(answered(p, seq, now), again),
{
}

/// The answer to the last ping is the one owed.
pub proof fn last_ping_is_owed(p: PeerData, now: u64)
    ensures
        owed(pinged(p, now), pinged(p, now).sig_req_seq),
{
}

/// A signed answer to the last ping moves the lag an eighth of the way to half the
/// time that it took, and the jitter an eighth of the way to how far that is from
/// the lag. It speaks for the neighbour: less loss, more trust. Any other signed
/// answer only ends the wait and shows that the neighbour is alive; an answer that
/// is not signed for this node shows nothing. No other neighbour is touched.
pub proof fn answers_measure_the_lag(
    before: RouterState,
    from: PeerId,
    res: SigRes,
    now: u64,
    after: RouterState,
    i: int,
)
    requires
        before.wf(),
        answer_taken(before, from, res, now, after),
        0 <= i < before.peers@.len(),
    ensures
        after.peers@.len() == before.peers@.len(),
        ({
            let p = before.peers@[i];
            let q = after.peers@[i];
            let signed = ed25519_valid(
                res.pub_key@,
                seq![res.tree_id] + uvarint(res.seq as nat) + uvarint(res.timestamp_ms as nat)
                    + before.pub_key@,
                res.signature@,
            );
            if p.pub_key == from && signed {
                match p.pending_sig_req {
                    Some((seq, at)) if seq == res.seq => {
                        let half = if now >= at {
                            (now - at) / 2
                        } else {
                            0
                        };
                        &&& q.lag_us == (p.lag_us * 7) / 8 + half / 8
                        &&& q.jitter_us == (p.jitter_us * 7) / 8 + (if half <= p.lag_us {
                            p.lag_us - half
                        } else {
                            half - p.lag_us
                        }) / 8
                        &&& after.events@ == before.events@.push(
                            Event { peer: from, kind: EventKind::LossDown },
                        ).push(Event { peer: from, kind: EventKind::TrustUp })
                        &&& q == (PeerData {
                            last_rx: now,
                            pending_sig_req: None,
                            lag_us: q.lag_us,
                            jitter_us: q.jitter_us,
                            ..p
                        })
                    },
                    _ => q == (PeerData { last_rx: now, pending_sig_req: None, ..p })
                        && after.events@ == before.events@,
                }
            } else {
                q == p && (!signed ==> after == (RouterState {
                    peers: after.peers,
                    events: after.events,
                    ..before
                }) && after.events@ == before.events@)
            }
        }),
{
    let peers = before.peers@;
    if peers[i].pub_key == from {
        assert(is_at(peers, from, i));
        lemma_index(peers, from, i);
        let p = peers[i];
        if let Some((seq, at)) = p.pending_sig_req {
            if seq == res.seq {
                assert(before.events@ + seq![
                    Event { peer: from, kind: EventKind::LossDown },
                    Event { peer: from, kind: EventKind::TrustUp },
                ] =~= before.events@.push(Event { peer: from, kind: EventKind::LossDown }).push(
                    Event { peer: from, kind: EventKind::TrustUp },
                ));
            }
        }
    } else if has_peer(peers, from) {
        assert(is_at(peers, from, index_of(peers, from)));
    }
}

/// A ping is answered to the neighbour that it came from, with its number and the
/// time, signed for the node that asks.
pub proof fn pings_are_answered(
    before: RouterState,
    from: PeerId,
    req: SigReq,
    now: u64,
    now_ms: u64,
    after: RouterState,
    i: int,
)
    requires
        before.wf(),
        ping_answered(before, from, req, now, now_ms, after),
        0 <= i < before.peers@.len(),
        before.peers@[i].pub_key == from,
        before.peers@[i].links@.len() > 0,
    ensures
        after.sent().len() == before.sent().len() + 1,
        after.sent().last().to == from,
        after.sent().last().frame[0] == SIG_RES,
        parse_sig_res(after.sent().last().frame.skip(1)) matches Ok(v) && {
            &&& v.tree_id == req.tree_id
            &&& v.seq == req.seq
            &&& v.timestamp_ms == now_ms
            &&& v.pub_key == before.pub_key@
            &&& ed25519_valid(
                before.pub_key@,
                seq![v.tree_id] + uvarint(v.seq as nat) + uvarint(v.timestamp_ms as nat)
                    + req.pub_key@,
                v.signature,
            )
        },
        after.peers@[i].last_rx == now,
{
    let v = answer(before, req@, now_ms);
    let frame = seq![SIG_RES] + v.wire();
    crate::state::hearing_is_noted(before.peers@, from, now, i);
    crate::state::touched_keeps_peers(before.peers@, from, now);
    crate::state::frames_go_to_neighbours(after.peers@, from, frame);
    assert(after.peers@[i].pub_key == from);
    crate::packet::sig_res_round_trip(v, Seq::empty());
    assert(frame.skip(1) =~= v.wire() + Seq::<u8>::empty());
}

/// Every neighbour is pinged, under a number one higher than the last time, and
/// owes the answer from then on. One that still owed an answer counts as lossy and
/// loses trust, once; the others do not.
pub proof fn every_neighbour_is_pinged(
    before: RouterState,
    now: u64,
    now_ms: u64,
    after: RouterState,
    i: int,
)
    requires
        before.wf(),
        all_pinged(before, now, now_ms, after),
        0 <= i < before.peers@.len(),
    ensures
        ({
            let p = before.peers@[i];
            let next = p.sig_req_seq.wrapping_add(1);
            let down = Event { peer: p.pub_key, kind: EventKind::TrustDown };
            let lossy = Event { peer: p.pub_key, kind: EventKind::LossUp };
            &&& after.peers@.len() == before.peers@.len()
            &&& after.peers@[i] == (PeerData {
                sig_req_seq: next,
                pending_sig_req: Some((next, now)),
                ..p
            })
            &&& p.links@.len() > 0 <==> exists|k: int|
                before.sent().len() <= k < after.sent().len() && (#[trigger] after.sent()[k]).to
                    == p.pub_key
            &&& forall|k: int|
                before.sent().len() <= k < after.sent().len() && (#[trigger] after.sent()[k]).to
                    == p.pub_key ==> after.sent()[k].frame[0] == SIG_REQ && parse_sig_req(
                    after.sent()[k].frame.skip(1),
                ) == Ok::<SigReqView, PacketError>(
                    SigReqView {
                        tree_id: 0,
                        seq: next,
                        timestamp_ms: now_ms,
                        pub_key: before.pub_key@,
                    },
                )
            &&& after.events@.len() >= before.events@.len()
            &&& after.events@.take(before.events@.len() as int) == before.events@
            &&& after.events@.skip(before.events@.len() as int).contains(down)
                <==> p.pending_sig_req is Some
            &&& after.events@.skip(before.events@.len() as int).contains(lossy)
                <==> p.pending_sig_req is Some
        }),
{
    let peers = before.peers@;
    let out = pings(before.pub_key, peers, now_ms);
    let n = before.sent().len() as int;
    lemma_pings(before.pub_key, peers, now_ms, i);
    lemma_unanswered(peers, i);
    let key = peers[i].pub_key;
    if exists|k: int| 0 <= k < out.len() && (#[trigger] out[k]).to == key {
        let k = choose|k: int| 0 <= k < out.len() && (#[trigger] out[k]).to == key;
        assert(after.sent()[n + k].to == key);
    }
    assert forall|k: int|
        n <= k < after.sent().len() && (#[trigger] after.sent()[k]).to
            == key implies after.sent()[k].frame == ping_frame(before.pub_key, peers[i], now_ms)
        && peers[i].links@.len() > 0 by {
        assert(out[k - n].to == key);
    }
    let v = SigReqView {
        tree_id: 0,
        seq: peers[i].sig_req_seq.wrapping_add(1),
        timestamp_ms: now_ms,
        pub_key: before.pub_key@,
    };
    crate::packet::sig_req_round_trip(v, Seq::empty());
    assert(ping_frame(before.pub_key, peers[i], now_ms).skip(1) =~= v.wire() + Seq::<u8>::empty());
    assert(after.events@.skip(before.events@.len() as int) =~= unanswered(peers));
    assert(after.events@.take(before.events@.len() as int) =~= before.events@);
}

proof fn lemma_pings(own: PeerId, peers: Seq<PeerData>, now_ms: u64, i: int)
    requires
        distinct_peers(peers),
        0 <= i < peers.len(),
    ensures
        peers[i].links@.len() > 0 <==> exists|k: int|
            0 <= k < pings(own, peers, now_ms).len() && (#[trigger] pings(own, peers, now_ms)[k]).to
                == peers[i].pub_key,
        forall|k: int|
            0 <= k < pings(own, peers, now_ms).len() && (#[trigger] pings(own, peers, now_ms)[k]).to
                == peers[i].pub_key ==> pings(own, peers, now_ms)[k].frame == ping_frame(
                own,
                peers[i],
                now_ms,
            ),
    decreases peers.len(),
{
    let t = peers.drop_last();
    let last = peers.last();
    let out = pings(own, peers, now_ms);
    let rest = pings(own, t, now_ms);
    let key = peers[i].pub_key;
    assert forall|a: int, b: int|
        #![trigger t[a], t[b]]
        0 <= a < b < t.len() implies t[a].pub_key != t[b].pub_key by {
        assert(peers[a].pub_key != peers[b].pub_key);
    }
    if i < t.len() {
        assert(peers[i].pub_key != peers[peers.len() - 1].pub_key);
        lemma_pings(own, t, now_ms, i);
        assert(t[i] == peers[i]);
        if exists|k: int| 0 <= k < rest.len() && (#[trigger] rest[k]).to == key {
            let k = choose|k: int| 0 <= k < rest.len() && (#[trigger] rest[k]).to == key;
            assert(out[k].to == key);
        }
        assert forall|k: int| 0 <= k < out.len() && (#[trigger] out[k]).to == key implies k
            < rest.len() && rest[k] == out[k] by {}
    } else {
        lemma_pings_go_to(own, t, now_ms);
        assert forall|k: int| 0 <= k < rest.len() implies (#[trigger] rest[k]).to != key by {
            if rest[k].to == key {
                let j = choose|j: int| 0 <= j < t.len() && (#[trigger] t[j]).pub_key == key;
                assert(peers[j].pub_key != peers[peers.len() - 1].pub_key);
            }
        }
        if last.links@.len() > 0 {
            assert(out[rest.len() as int].to == key);
        }
        assert forall|k: int| 0 <= k < out.len() && (#[trigger] out[k]).to == key implies k
            == rest.len() by {
            if k < rest.len() {
                assert(rest[k] == out[k]);
            }
        }
    }
}

proof fn lemma_pings_go_to(own: PeerId, peers: Seq<PeerData>, now_ms: u64)
    ensures
        forall|k: int|
            0 <= k < pings(own, peers, now_ms).len() ==> exists|j: int|
                0 <= j < peers.len() && (#[trigger] peers[j]).pub_key == (#[trigger] pings(
                    own,
                    peers,
                    now_ms,
                )[k]).to,
    decreases peers.len(),
{
    if peers.len() > 0 {
        let t = peers.drop_last();
        let out = pings(own, peers, now_ms);
        let rest = pings(own, t, now_ms);
        lemma_pings_go_to(own, t, now_ms);
        assert forall|k: int| 0 <= k < out.len() implies exists|j: int|
            0 <= j < peers.len() && (#[trigger] peers[j]).pub_key == (#[trigger] out[k]).to by {
            if k < rest.len() {
                assert(out[k] == rest[k]);
                let j = choose|j: int| 0 <= j < t.len() && (#[trigger] t[j]).pub_key == rest[k].to;
                assert(peers[j].pub_key == out[k].to);
            } else {
                assert(peers[peers.len() - 1].pub_key == out[k].to);
            }
        }
    }
}

proof fn lemma_unanswered(peers: Seq<PeerData>, i: int)
    requires
        distinct_peers(peers),
        0 <= i < peers.len(),
    ensures
        forall|kind: EventKind|
            (kind == EventKind::LossUp || kind == EventKind::TrustDown) ==> (
            #[trigger] unanswered(peers).contains(Event { peer: peers[i].pub_key, kind })
                <==> peers[i].pending_sig_req is Some),
    decreases peers.len(),
{
    let t = peers.drop_last();
    let last = peers.last();
    let all = unanswered(peers);
    let rest = unanswered(t);
    let key = peers[i].pub_key;
    assert forall|a: int, b: int|
        #![trigger t[a], t[b]]
        0 <= a < b < t.len() implies t[a].pub_key != t[b].pub_key by {
        assert(peers[a].pub_key != peers[b].pub_key);
    }
    lemma_unanswered_are(t);
    assert forall|kind: EventKind|
        (kind == EventKind::LossUp || kind == EventKind::TrustDown) implies (
    #[trigger] all.contains(Event { peer: key, kind }) <==> peers[i].pending_sig_req is Some) by {
        let e = Event { peer: key, kind };
        if i < t.len() {
            assert(peers[i].pub_key != peers[peers.len() - 1].pub_key);
            lemma_unanswered(t, i);
            assert(t[i] == peers[i]);
            if rest.contains(e) {
                let k = choose|k: int| 0 <= k < rest.len() && rest[k] == e;
                assert(all[k] == e);
            }
            if all.contains(e) {
                let k = choose|k: int| 0 <= k < all.len() && all[k] == e;
                assert(k < rest.len() && rest[k] == e);
            }
        } else {
            if last.pending_sig_req is Some {
                assert(all[rest.len() as int] == Event { peer: key, kind: EventKind::LossUp });
                assert(all[rest.len() as int + 1] == Event { peer: key, kind: EventKind::TrustDown });
            } else if all.contains(e) {
                let k = choose|k: int| 0 <= k < all.len() && all[k] == e;
                assert(rest[k].peer == key);
                let j = choose|j: int| 0 <= j < t.len() && (#[trigger] t[j]).pub_key == key;
                assert(peers[j].pub_key != peers[peers.len() - 1].pub_key);
            }
        }
    }
}

proof fn lemma_unanswered_are(peers: Seq<PeerData>)
    ensures
        forall|k: int|
            0 <= k < unanswered(peers).len() ==> exists|j: int|
                0 <= j < peers.len() && (#[trigger] peers[j]).pub_key == (#[trigger] unanswered(
                    peers,
                )[k]).peer,
    decreases peers.len(),
{
    if peers.len() > 0 {
        let t = peers.drop_last();
        let all = unanswered(peers);
        let rest = unanswered(t);
        lemma_unanswered_are(t);
        assert forall|k: int| 0 <= k < all.len() implies exists|j: int|
            0 <= j < peers.len() && (#[trigger] peers[j]).pub_key == (#[trigger] all[k]).peer by {
            if k < rest.len() {
                assert(all[k] == rest[k]);
                let j = choose|j: int| 0 <= j < t.len() && (#[trigger] t[j]).pub_key
                    == rest[k].peer;
                assert(peers[j].pub_key == all[k].peer);
            } else {
                assert(peers[peers.len() - 1].pub_key == all[k].peer);
            }
        }
    }
}

/// A measured lag, and new costs, are those of the neighbour that they are for from then on,
/// and change nothing else of it, nor another neighbour.
pub proof fn measures_are_taken_over(
    before: RouterState,
    peer: PeerId,
    rtt_us: u64,
    known: bool,
    mid: RouterState,
    cost: u64,
    tag_cost: u64,
    after: RouterState,
    i: int,
)
    requires
        before.wf(),
        lag_measured(before, peer, rtt_us, known, mid),
        costs_taken_over(before, peer, cost, tag_cost, after),
        0 <= i < before.peers@.len(),
    ensures
        before.peers@[i].pub_key == peer ==> known && mid.peers@[i] == (PeerData {
            lag_us: rtt_us,
            ..before.peers@[i]
        }) && after.peers@[i] == (PeerData { cost, tag_cost, ..before.peers@[i] }),
        before.peers@[i].pub_key != peer ==> mid.peers@[i] == before.peers@[i] && after.peers@[i]
            == before.peers@[i],
        mid.peers@.len() == before.peers@.len(),
        after.peers@.len() == before.peers@.len(),
{
    let peers = before.peers@;
    if peers[i].pub_key == peer {
        assert(is_at(peers, peer, i));
        lemma_index(peers, peer, i);
    } else if has_peer(peers, peer) {
        assert(is_at(peers, peer, index_of(peers, peer)));
    }
}

} // verus!
