//! Onion keys of other nodes: how they are announced, and for how many they
//! are remembered.

use crate::bytes::key_eq;
use crate::crypto::{
    ed25519_pub_to_x25519, ed25519_public_as_x25519, ed25519_sign, ed25519_signature, ed25519_valid,
    ed25519_verify, x25519_public_key,
};
use crate::onion::{KeyChainView, OnionHop};
use crate::packet::{
    parse_onion_key_announce, OnionKeyAnnounce, OnionKeyAnnounceView, TYPE_ONION_KEY_ANNOUNCE,
};
use crate::router::{
    due, is_due, rotation_interval, rotation_ticks, PeerId, CLOCK_SKEW_MS, MAX_REMOTE_ONION_KEYS,
    ONION_KEY_ROTATION_TICKS, ONION_KEY_VALIDITY_MS,
};
use crate::state::{
    distinct_origins, flood, has_peer, index_of, lemma_update_keeps_keys, origin_at,
    origins_bounded, PeerData, RemoteOnionKey, RouterState,
};
use vstd::prelude::*;

verus! {

broadcast use vstd::array::group_array_axioms;

/// Where the onion key of `origin` is.
pub open spec fn origin_index(s: Seq<RemoteOnionKey>, origin: PeerId) -> int {
    choose|i: int| origin_at(s, origin, i)
}

pub open spec fn has_origin(s: Seq<RemoteOnionKey>, origin: PeerId) -> bool {
    exists|i: int| origin_at(s, origin, i)
}

/// The key `e` in place of another of the same node, if there is one.
pub open spec fn put_origin(s: Seq<RemoteOnionKey>, e: RemoteOnionKey) -> Seq<RemoteOnionKey> {
    if has_origin(s, e.origin) {
        s.update(origin_index(s, e.origin), e)
    } else {
        s.push(e)
    }
}

pub open spec fn origin_expendable(s: RouterState, i: int) -> bool {
    !has_peer(s.peers@, s.remote_onion_keys@[i].origin) && s.remote_onion_keys@[i].origin
        != s.pub_key
}

/// Entry `v` is the first of a node that is neither a neighbour nor the node
/// itself.
pub open spec fn origin_victim(s: RouterState, v: int) -> bool {
    &&& 0 <= v < s.remote_onion_keys@.len()
    &&& origin_expendable(s, v)
    &&& forall|j: int| 0 <= j < v ==> !#[trigger] origin_expendable(s, j)
}

/// Where the first expendable onion key is.
pub open spec fn origin_victim_index(s: RouterState) -> int {
    choose|v: int| origin_victim(s, v)
}

/// What learning the onion key `e` makes of the onion keys of `s`. A new one
/// takes the place of an expendable one where there are too many; where there
/// is none such, it is not kept.
pub open spec fn learned_origin(s: RouterState, e: RemoteOnionKey) -> Seq<RemoteOnionKey> {
    if has_origin(s.remote_onion_keys@, e.origin) || s.remote_onion_keys@.len()
        < MAX_REMOTE_ONION_KEYS {
        put_origin(s.remote_onion_keys@, e)
    } else if exists|v: int| origin_victim(s, v) {
        s.remote_onion_keys@.remove(origin_victim_index(s)).push(e)
    } else {
        s.remote_onion_keys@
    }
}

/// A time that others signed is neither too long ago nor too far ahead.
pub open spec fn timely(now_ms: u64, signed_ms: u64, validity: u64) -> bool {
    now_ms - signed_ms <= validity && signed_ms <= now_ms + CLOCK_SKEW_MS
}

/// Whether a time that others signed is neither too long ago nor too far ahead.
pub fn is_timely(now_ms: u64, signed_ms: u64, validity: u64) -> (r: bool)
    ensures
        r == timely(now_ms, signed_ms, validity),
{
    if now_ms >= signed_ms {
        now_ms - signed_ms <= validity
    } else {
        signed_ms - now_ms <= CLOCK_SKEW_MS
    }
}

/// The announcement is from another node, signed by it, timely, and newer than
/// what is known of that node.
pub open spec fn acceptable(s: RouterState, a: OnionKeyAnnounce, now_ms: u64) -> bool {
    &&& a.origin != s.pub_key
    &&& ed25519_valid(a.origin@, a@.signed(), a.sig@)
    &&& timely(now_ms, a.valid_from_ms, ONION_KEY_VALIDITY_MS)
    &&& has_origin(s.remote_onion_keys@, a.origin) ==> a.seq > s.remote_onion_keys@[origin_index(
        s.remote_onion_keys@,
        a.origin,
    )].seq
}

/// The neighbours once `origin` is known to use the onion key `eph`.
pub open spec fn with_onion_key(
    peers: Seq<PeerData>,
    origin: PeerId,
    eph: [u8; 32],
) -> Seq<PeerData> {
    if has_peer(peers, origin) {
        let i = index_of(peers, origin);
        peers.update(i, PeerData { onion_eph_pub: Some(eph), ..peers[i] })
    } else {
        peers
    }
}

/// The announcement of the own onion key, not signed yet.
pub open spec fn unsigned_key(s: RouterState, now_ms: u64) -> OnionKeyAnnounceView {
    OnionKeyAnnounceView {
        origin: s.pub_key@,
        seq: s.own_onion_key_seq.wrapping_add(1),
        valid_from_ms: now_ms,
        onion_eph_pub: x25519_public_key(s.onion_keys@.current),
        sig: Seq::new(64, |i: int| 0u8),
    }
}

/// The announcement of the own onion key.
pub open spec fn own_key_announce(s: RouterState, now_ms: u64) -> OnionKeyAnnounceView {
    let u = unsigned_key(s, now_ms);
    OnionKeyAnnounceView { sig: ed25519_signature(s.signing_key@, u.signed()), ..u }
}

/// What announcing the own onion key makes of `before`.
pub open spec fn key_announced(
    before: RouterState,
    now: u64,
    now_ms: u64,
    after: RouterState,
) -> bool {
    &&& after == (RouterState {
        own_onion_key_seq: before.own_onion_key_seq.wrapping_add(1),
        remote_onion_keys: after.remote_onion_keys,
        outbox: after.outbox,
        ..before
    })
    &&& exists|eph: [u8; 32]|
        eph@ == x25519_public_key(before.onion_keys@.current) && after.remote_onion_keys@
            == #[trigger] put_origin(
            before.remote_onion_keys@,
            RemoteOnionKey {
                origin: before.pub_key,
                seq: before.own_onion_key_seq.wrapping_add(1),
                eph_pub: eph,
                at: now,
            },
        )
    &&& after.sent() == before.sent() + flood(
        before.peers@,
        None,
        seq![TYPE_ONION_KEY_ANNOUNCE] + own_key_announce(before, now_ms).wire(),
    )
    &&& own_key_announce(before, now_ms).wf()
    &&& ed25519_valid(
        before.pub_key@,
        own_key_announce(before, now_ms).signed(),
        own_key_announce(before, now_ms).sig,
    )
}

proof fn lemma_origin_index(s: Seq<RemoteOnionKey>, origin: PeerId, i: int)
    requires
        distinct_origins(s),
        origin_at(s, origin, i),
    ensures
        has_origin(s, origin),
        origin_index(s, origin) == i,
{
    let j = origin_index(s, origin);
    assert(origin_at(s, origin, j));
    if i < j {
        assert(s[i].origin != s[j].origin);
    } else if j < i {
        assert(s[j].origin != s[i].origin);
    }
}

proof fn lemma_put_origin(s: Seq<RemoteOnionKey>, e: RemoteOnionKey, own: PeerId)
    requires
        distinct_origins(s),
        origins_bounded(s, own),
        e.origin == own || s.len() < MAX_REMOTE_ONION_KEYS || has_origin(s, e.origin),
    ensures
        distinct_origins(put_origin(s, e)),
        origins_bounded(put_origin(s, e), own),
{
    let r = put_origin(s, e);
    if has_origin(s, e.origin) {
        let k = origin_index(s, e.origin);
        assert(origin_at(s, e.origin, k));
        assert forall|a: int, b: int|
            #![trigger r[a], r[b]]
            0 <= a < b < r.len() implies r[a].origin != r[b].origin by {
            assert(s[a].origin != s[b].origin);
        }
        if s.len() > MAX_REMOTE_ONION_KEYS {
            let i = choose|i: int| origin_at(s, own, i);
            assert(origin_at(r, own, i));
        }
    } else {
        assert forall|a: int, b: int|
            #![trigger r[a], r[b]]
            0 <= a < b < r.len() implies r[a].origin != r[b].origin by {
            if b < s.len() {
                assert(s[a].origin != s[b].origin);
            } else {
                assert(!origin_at(s, e.origin, a));
            }
        }
        if e.origin == own {
            assert(origin_at(r, own, s.len() as int));
        }
    }
}

proof fn lemma_swap_origin(s: Seq<RemoteOnionKey>, v: int, e: RemoteOnionKey, own: PeerId)
    requires
        distinct_origins(s),
        origins_bounded(s, own),
        0 <= v < s.len(),
        s[v].origin != own,
        !has_origin(s, e.origin),
    ensures
        distinct_origins(s.remove(v).push(e)),
        origins_bounded(s.remove(v).push(e), own),
{
    let r = s.remove(v).push(e);
    assert forall|a: int, b: int|
        #![trigger r[a], r[b]]
        0 <= a < b < r.len() implies r[a].origin != r[b].origin by {
        let x = if a < v {
            a
        } else {
            a + 1
        };
        if b < s.len() - 1 {
            let y = if b < v {
                b
            } else {
                b + 1
            };
            assert(s[x].origin != s[y].origin);
        } else {
            assert(!origin_at(s, e.origin, x));
        }
    }
    if s.len() > MAX_REMOTE_ONION_KEYS {
        let i = choose|i: int| origin_at(s, own, i);
        let j = if i < v {
            i
        } else {
            i - 1
        };
        assert(origin_at(r, own, j));
    }
}

/// What the rotation of the onion key, at the ticks set for it, makes of
/// `before`.
pub open spec fn keys_rotated(
    before: RouterState,
    accelerated: Option<u64>,
    fresh: Seq<u8>,
    now: u64,
    now_ms: u64,
    after: RouterState,
) -> bool {
    &&& if due(before.tick, rotation_ticks(accelerated, ONION_KEY_ROTATION_TICKS)) {
        exists|mid: RouterState| #[trigger]
            key_announced(mid, now, now_ms, after) && mid == (RouterState {
                onion_keys: mid.onion_keys,
                ..before
            }) && mid.onion_keys@ == (KeyChainView {
                current: fresh,
                previous: Some(before.onion_keys@.current),
                identity: before.onion_keys@.identity,
                rotated_at: now_ms,
            })
    } else {
        after == before
    }
}

/// What an announced onion key makes of `before`.
pub open spec fn key_announce_taken(
    before: RouterState,
    from: PeerId,
    ann: OnionKeyAnnounce,
    now: u64,
    now_ms: u64,
    after: RouterState,
) -> bool {
    &&& if !acceptable(before, ann, now_ms) {
        after == before
    } else {
        &&& after == (RouterState {
            remote_onion_keys: after.remote_onion_keys,
            peers: after.peers,
            outbox: after.outbox,
            ..before
        })
        &&& after.remote_onion_keys@ == learned_origin(
            before,
            RemoteOnionKey {
                origin: ann.origin,
                seq: ann.seq,
                eph_pub: ann.onion_eph_pub,
                at: now,
            },
        )
        &&& after.peers@ == with_onion_key(
            before.peers@,
            ann.origin,
            ann.onion_eph_pub,
        )
        &&& after.sent() == before.sent() + flood(
            after.peers@,
            Some(from),
            seq![TYPE_ONION_KEY_ANNOUNCE] + ann@.wire(),
        )
    }
}

impl RouterState {
    /// Where the onion key of `origin` is.
    pub fn find_origin(&self, origin: &PeerId) -> (r: Option<usize>)
        requires
            distinct_origins(self.remote_onion_keys@),
        ensures
            match r {
                Some(i) => i < self.remote_onion_keys@.len() && origin_at(
                    self.remote_onion_keys@,
                    *origin,
                    i as int,
                ) && has_origin(self.remote_onion_keys@, *origin) && origin_index(
                    self.remote_onion_keys@,
                    *origin,
                ) == i,
                None => !has_origin(self.remote_onion_keys@, *origin),
            },
    {
        let mut i: usize = 0;
        while i < self.remote_onion_keys.len()
            invariant
                distinct_origins(self.remote_onion_keys@),
                i <= self.remote_onion_keys@.len(),
                forall|j: int| 0 <= j < i ==> !origin_at(self.remote_onion_keys@, *origin, j),
            decreases self.remote_onion_keys@.len() - i,
        {
            if key_eq(&self.remote_onion_keys[i].origin, origin) {
                proof {
                    assert(origin_at(self.remote_onion_keys@, *origin, i as int));
                    lemma_origin_index(self.remote_onion_keys@, *origin, i as int);
                }
                return Some(i);
            }
            i = i + 1;
        }
        None
    }

    fn find_origin_victim(&self) -> (r: Option<usize>)
        requires
            self.wf(),
        ensures
            match r {
                Some(v) => origin_victim(*self, v as int) && origin_victim_index(*self) == v,
                None => !exists|v: int| origin_victim(*self, v),
            },
    {
        let mut i: usize = 0;
        while i < self.remote_onion_keys.len()
            invariant
                self.wf(),
                i <= self.remote_onion_keys@.len(),
                forall|j: int| 0 <= j < i ==> !#[trigger] origin_expendable(*self, j),
            decreases self.remote_onion_keys@.len() - i,
        {
            let key: PeerId = self.remote_onion_keys[i].origin;
            if self.find_peer(&key).is_none() && !key_eq(&key, &self.pub_key) {
                proof {
                    assert(origin_expendable(*self, i as int));
                    assert(origin_victim(*self, i as int));
                    let c = origin_victim_index(*self);
                    assert(origin_victim(*self, c));
                    if c < i {
                        assert(!origin_expendable(*self, c));
                    } else if i < c {
                        assert(!origin_expendable(*self, i as int));
                    }
                }
                return Some(i);
            }
            assert(!origin_expendable(*self, i as int));
            i = i + 1;
        }
        None
    }

    /// Remember the onion key of a node.
    pub fn record_remote_onion_key(&mut self, origin: PeerId, seq: u64, eph: [u8; 32], now: u64)
        requires
            old(self).wf(),
        ensures
            final(self).wf(),
            *final(self) == (RouterState {
                remote_onion_keys: final(self).remote_onion_keys,
                ..*old(self)
            }),
            final(self).remote_onion_keys@ == learned_origin(
                *old(self),
                RemoteOnionKey { origin, seq, eph_pub: eph, at: now },
            ),
    {
        let e = RemoteOnionKey { origin, seq, eph_pub: eph, at: now };
        assert(e.origin == origin);
        let ghost before = self.remote_onion_keys@;
        match self.find_origin(&origin) {
            Some(i) => {
                proof {
                    lemma_put_origin(before, e, self.pub_key);
                }
                self.remote_onion_keys.set(i, e);
            },
            None => {
                if self.remote_onion_keys.len() >= MAX_REMOTE_ONION_KEYS {
                    match self.find_origin_victim() {
                        Some(v) => {
                            proof {
                                lemma_swap_origin(before, v as int, e, self.pub_key);
                            }
                            let gone: RemoteOnionKey = self.remote_onion_keys.remove(v);
                            self.remote_onion_keys.push(e);
                        },
                        None => {
                            return ;
                        },
                    }
                } else {
                    proof {
                        lemma_put_origin(before, e, self.pub_key);
                    }
                    self.remote_onion_keys.push(e);
                }
            },
        }
        assert(self.remote_onion_keys@ == learned_origin(*old(self), e));
    }

    /// Announce the own onion key to all neighbours, with a number higher than
    /// that of the last announcement.
    pub fn broadcast_onion_key_announce(&mut self, now: u64, now_ms: u64)
        requires
            old(self).wf(),
        ensures
            final(self).wf(),
            key_announced(*old(self), now, now_ms, *final(self)),
    {
        let seq: u64 = self.own_onion_key_seq.wrapping_add(1);
        let eph: [u8; 32] = self.onion_keys.pub_key();
        let mut ann = OnionKeyAnnounce {
            origin: self.pub_key,
            seq,
            valid_from_ms: now_ms,
            onion_eph_pub: eph,
            sig: vstd::array::array_fill_for_copy_types::<u8, 64>(0u8),
        };
        assert(ann@ =~= unsigned_key(*self, now_ms));
        let signed: Vec<u8> = ann.sign_bytes();
        ann.sig = ed25519_sign(&self.signing_key, signed.as_slice());
        assert(ann@ =~= own_key_announce(*self, now_ms));
        self.own_onion_key_seq = seq;
        let own: PeerId = self.pub_key;
        let e = RemoteOnionKey { origin: own, seq, eph_pub: eph, at: now };
        assert(e.origin == own);
        let ghost before = self.remote_onion_keys@;
        proof {
            lemma_put_origin(before, e, own);
        }
        match self.find_origin(&own) {
            Some(i) => {
                self.remote_onion_keys.set(i, e);
            },
            None => {
                self.remote_onion_keys.push(e);
            },
        }
        assert(self.remote_onion_keys@ == put_origin(before, e));
        let frame: Vec<u8> = ann.encode();
        self.send_to_all(None, &frame);
    }

    /// Some node announced its onion key. An announcement that is acceptable is
    /// remembered and passed on to all neighbours but the one it came from.
    pub fn handle_onion_key_announce(
        &mut self,
        from: PeerId,
        ann: OnionKeyAnnounce,
        now: u64,
        now_ms: u64,
    )
        requires
            old(self).wf(),
        ensures
            final(self).wf(),
            key_announce_taken(*old(self), from, ann, now, now_ms, *final(self)),
    {
        if key_eq(&ann.origin, &self.pub_key) {
            return ;
        }
        let signed: Vec<u8> = ann.sign_bytes();
        if !ed25519_verify(&ann.origin, signed.as_slice(), &ann.sig) {
            return ;
        }
        if !is_timely(now_ms, ann.valid_from_ms, ONION_KEY_VALIDITY_MS) {
            return ;
        }
        if let Some(i) = self.find_origin(&ann.origin) {
            if ann.seq <= self.remote_onion_keys[i].seq {
                return ;
            }
        }
        self.record_remote_onion_key(ann.origin, ann.seq, ann.onion_eph_pub, now);
        if let Some(i) = self.find_peer(&ann.origin) {
            self.peers[i].onion_eph_pub = Some(ann.onion_eph_pub);
            proof {
                let q = self.peers@[i as int];
                assert(self.peers@ =~= old(self).peers@.update(i as int, q));
                lemma_update_keeps_keys(old(self).peers@, i as int, q);
            }
        }
        let frame: Vec<u8> = ann.encode();
        self.send_to_all(Some(from), &frame);
    }

    /// Replace the onion key by `fresh` at the ticks set for it, and announce
    /// the new one.
    pub fn rotate_onion_keys_if_due(
        &mut self,
        accelerated: Option<u64>,
        fresh: [u8; 32],
        now: u64,
        now_ms: u64,
    )
        requires
            old(self).wf(),
        ensures
            final(self).wf(),
            keys_rotated(*old(self), accelerated, fresh@, now, now_ms, *final(self)),
    {
        let interval: u32 = rotation_interval(accelerated, ONION_KEY_ROTATION_TICKS);
        if is_due(self.tick, interval) {
            self.onion_keys.rotate_to(fresh, now_ms);
            let ghost mid = *self;
            self.broadcast_onion_key_announce(now, now_ms);
            assert(key_announced(mid, now, now_ms, *self));
        }
    }

    /// The hop of an onion route at the node `identity`: its announced onion
    /// key, as known from itself, from a neighbour, or from the network, or
    /// else the X25519 form of its identity. There is none where `identity` is
    /// no public key.
    pub fn onion_hop_for(&self, identity: &PeerId) -> (r: Option<OnionHop>)
        requires
            self.wf(),
        ensures
            r matches Some(h) ==> h.identity_ed_pub == *identity,
            match hop_key(*self, *identity) {
                Some(k) => r matches Some(h) && h.ephemeral_x_pub@ == k,
                None => r is None,
            },
    {
        if key_eq(identity, &self.pub_key) {
            return Some(
                OnionHop {
                    identity_ed_pub: *identity,
                    ephemeral_x_pub: self.onion_keys.pub_key(),
                },
            );
        }
        if let Some(i) = self.find_peer(identity) {
            if let Some(eph) = self.peers[i].onion_eph_pub {
                return Some(OnionHop { identity_ed_pub: *identity, ephemeral_x_pub: eph });
            }
        }
        if let Some(i) = self.find_origin(identity) {
            let eph: [u8; 32] = self.remote_onion_keys[i].eph_pub;
            return Some(OnionHop { identity_ed_pub: *identity, ephemeral_x_pub: eph });
        }
        match ed25519_pub_to_x25519(identity) {
            Some(x) => Some(OnionHop { identity_ed_pub: *identity, ephemeral_x_pub: x }),
            None => None,
        }
    }
}

/// The key for which the layer of the node `identity` is sealed.
pub open spec fn hop_key(s: RouterState, identity: PeerId) -> Option<Seq<u8>> {
    if identity == s.pub_key {
        Some(x25519_public_key(s.onion_keys@.current))
    } else if has_peer(s.peers@, identity) && s.peers@[index_of(
        s.peers@,
        identity,
    )].onion_eph_pub is Some {
        Some(s.peers@[index_of(s.peers@, identity)].onion_eph_pub->0@)
    } else if has_origin(s.remote_onion_keys@, identity) {
        Some(s.remote_onion_keys@[origin_index(s.remote_onion_keys@, identity)].eph_pub@)
    } else {
        ed25519_public_as_x25519(identity@)
    }
}

/// An announcement is passed on at most once: once it has been accepted and
/// remembered, it is not acceptable any more, nor is any older one of the same
/// node.
pub proof fn announcements_are_accepted_once(
    s: RouterState,
    a: OnionKeyAnnounce,
    now: u64,
    now_ms: u64,
    after: RouterState,
    b: OnionKeyAnnounce,
    later_ms: u64,
)
    requires
        s.wf(),
        acceptable(s, a, now_ms),
        after.wf(),
        has_origin(after.remote_onion_keys@, a.origin),
        after.remote_onion_keys@ == learned_origin(
            s,
            RemoteOnionKey { origin: a.origin, seq: a.seq, eph_pub: a.onion_eph_pub, at: now },
        ),
        b.origin == a.origin,
        b.seq <= a.seq,
    ensures
        !acceptable(after, b, later_ms),
{
    let e = RemoteOnionKey { origin: a.origin, seq: a.seq, eph_pub: a.onion_eph_pub, at: now };
    let t = s.remote_onion_keys@;
    let r = after.remote_onion_keys@;
    let k = if has_origin(t, a.origin) {
        origin_index(t, a.origin)
    } else if t.len() < MAX_REMOTE_ONION_KEYS {
        t.len() as int
    } else {
        t.len() - 1
    };
    if has_origin(t, a.origin) {
        assert(origin_at(t, a.origin, k));
        assert(r[k] == e);
    } else if t.len() < MAX_REMOTE_ONION_KEYS {
        assert(r[k] == e);
    } else if exists|v: int| origin_victim(s, v) {
        let v = origin_victim_index(s);
        assert(origin_victim(s, v));
        assert(r[k] == e);
    } else {
        let j = origin_index(r, a.origin);
        assert(origin_at(r, a.origin, j));
        assert(origin_at(t, a.origin, j));
    }
    assert(origin_at(r, a.origin, k));
    lemma_origin_index(r, a.origin, k);
}

/// An announced onion key is taken where another node signed it, not more than a
/// day ago and not more than a minute ahead, and where nothing as new is known of
/// that node. It is then passed on, unchanged, to every neighbour with a link but
/// the one it came from. Any other announcement changes nothing.
pub proof fn only_fresh_signed_keys_are_taken(
    before: RouterState,
    from: PeerId,
    ann: OnionKeyAnnounce,
    now: u64,
    now_ms: u64,
    after: RouterState,
    j: int,
)
    requires
        before.wf(),
        key_announce_taken(before, from, ann, now, now_ms, after),
        0 <= j < before.peers@.len(),
    ensures
        ({
            let known = exists|i: int|
                0 <= i < before.remote_onion_keys@.len() && (
                #[trigger] before.remote_onion_keys@[i]).origin == ann.origin
                    && before.remote_onion_keys@[i].seq >= ann.seq;
            let good = ann.origin != before.pub_key && ed25519_valid(
                ann.origin@,
                ann@.signed(),
                ann.sig@,
            ) && now_ms <= ann.valid_from_ms + 86_400_000 && ann.valid_from_ms <= now_ms + 60_000
                && !known;
            if good {
                &&& after.remote_onion_keys@ == learned_origin(
                    before,
                    RemoteOnionKey {
                        origin: ann.origin,
                        seq: ann.seq,
                        eph_pub: ann.onion_eph_pub,
                        at: now,
                    },
                )
                &&& after.peers@.len() == before.peers@.len()
                &&& after.peers@[j] == (if before.peers@[j].pub_key == ann.origin {
                    PeerData { onion_eph_pub: Some(ann.onion_eph_pub), ..before.peers@[j] }
                } else {
                    before.peers@[j]
                })
                &&& before.peers@[j].links@.len() > 0 && before.peers@[j].pub_key != from
                    <==> exists|k: int|
                    before.sent().len() <= k < after.sent().len() && (#[trigger] after.sent()[k])
                        == (crate::state::Sent {
                        to: before.peers@[j].pub_key,
                        frame: seq![TYPE_ONION_KEY_ANNOUNCE] + ann@.wire(),
                    })
            } else {
                after == before
            }
        }),
{
    let s = before.remote_onion_keys@;
    if has_origin(s, ann.origin) {
        let k = origin_index(s, ann.origin);
        assert(origin_at(s, ann.origin, k));
        assert forall|i: int| 0 <= i < s.len() && (#[trigger] s[i]).origin
            == ann.origin implies i == k by {
            assert(origin_at(s, ann.origin, i));
            lemma_origin_index(s, ann.origin, i);
        }
        assert(s[k].origin == ann.origin);
    } else {
        assert forall|i: int| 0 <= i < s.len() implies (#[trigger] s[i]).origin != ann.origin by {
            assert(!origin_at(s, ann.origin, i));
        }
    }
    if acceptable(before, ann, now_ms) {
        let peers = before.peers@;
        let key = peers[j].pub_key;
        if has_peer(peers, ann.origin) {
            let i = index_of(peers, ann.origin);
            assert(crate::state::is_at(peers, ann.origin, i));
            lemma_update_keeps_keys(peers, i, after.peers@[i]);
            if key == ann.origin {
                assert(crate::state::is_at(peers, ann.origin, j));
                crate::state::lemma_index(peers, ann.origin, j);
            }
        } else if key == ann.origin {
            assert(crate::state::is_at(peers, ann.origin, j));
        }
        let frame = seq![TYPE_ONION_KEY_ANNOUNCE] + ann@.wire();
        let out = flood(after.peers@, Some(from), frame);
        let n = before.sent().len() as int;
        let f = crate::state::Sent { to: key, frame };
        assert(crate::state::is_at(after.peers@, key, j));
        crate::state::lemma_index(after.peers@, key, j);
        crate::state::flood_reaches_each_neighbour_once(after.peers@, Some(from), frame, key);
        if out.contains(f) {
            let k = choose|k: int| 0 <= k < out.len() && out[k] == f;
            assert(after.sent()[n + k] == f);
        }
        if exists|k: int| n <= k < after.sent().len() && (#[trigger] after.sent()[k]) == f {
            let k = choose|k: int| n <= k < after.sent().len() && (#[trigger] after.sent()[k]) == f;
            assert(out[k - n] == f);
        }
    }
}

/// A key that is learned is there afterwards, in place of an older one of the same
/// node, while fewer than 16384 are remembered or the node is among them. The keys
/// of neighbours and of the node itself are never given up, and while there is room
/// none is.
pub proof fn learned_keys_are_kept(s: RouterState, e: RemoteOnionKey, i: int)
    requires
        s.wf(),
        0 <= i < s.remote_onion_keys@.len(),
    ensures
        s.remote_onion_keys@.len() < 16384 || s.remote_onion_keys@[i].origin == e.origin
            ==> learned_origin(s, e).contains(e),
        s.remote_onion_keys@[i].origin != e.origin && (s.remote_onion_keys@.len() < 16384
            || has_peer(s.peers@, s.remote_onion_keys@[i].origin) || s.remote_onion_keys@[i].origin
            == s.pub_key) ==> learned_origin(s, e).contains(s.remote_onion_keys@[i]),
        s.remote_onion_keys@[i].origin == e.origin && s.remote_onion_keys@[i] != e
            ==> !learned_origin(s, e).contains(s.remote_onion_keys@[i]),
{
    let t = s.remote_onion_keys@;
    let r = learned_origin(s, e);
    if t[i].origin == e.origin {
        assert(origin_at(t, e.origin, i));
        lemma_origin_index(t, e.origin, i);
        assert(r[i] == e);
        if r.contains(t[i]) && t[i] != e {
            let k = choose|k: int| 0 <= k < r.len() && r[k] == t[i];
            assert(t[k].origin == e.origin);
            assert(origin_at(t, e.origin, k));
            lemma_origin_index(t, e.origin, k);
        }
    } else if has_origin(t, e.origin) {
        let c = origin_index(t, e.origin);
        assert(origin_at(t, e.origin, c));
        assert(r[c] == e);
        assert(r[i] == t[i]);
    } else if t.len() < MAX_REMOTE_ONION_KEYS {
        assert(r[t.len() as int] == e);
        assert(r[i] == t[i]);
    } else if exists|v: int| origin_victim(s, v) {
        let v = origin_victim_index(s);
        assert(origin_victim(s, v));
        assert(origin_expendable(s, v));
        if i != v {
            let k = if i < v {
                i
            } else {
                i - 1
            };
            assert(r[k] == t[i]);
        }
    } else {
        assert(r.contains(t[i]));
    }
}

/// The layer for a node is sealed for a key that the node opens layers with: for
/// the node itself its own current key; for another the key that it announced,
/// where one is known; and only where none is known, the X25519 form of its
/// identity.
pub proof fn layers_are_sealed_for_the_announced_key(s: RouterState, identity: PeerId)
    requires
        s.wf(),
    ensures
        identity == s.pub_key ==> hop_key(s, identity) == Some(
            x25519_public_key(s.onion_keys@.current),
        ),
        identity != s.pub_key ==> forall|i: int|
            0 <= i < s.peers@.len() && (#[trigger] s.peers@[i]).pub_key == identity
                && s.peers@[i].onion_eph_pub is Some ==> hop_key(s, identity) == Some(
                s.peers@[i].onion_eph_pub->0@,
            ),
        identity != s.pub_key && (forall|i: int|
            0 <= i < s.peers@.len() && (#[trigger] s.peers@[i]).pub_key == identity
                ==> s.peers@[i].onion_eph_pub is None) ==> {
            &&& forall|k: int|
                0 <= k < s.remote_onion_keys@.len() && (#[trigger] s.remote_onion_keys@[k]).origin
                    == identity ==> hop_key(s, identity) == Some(s.remote_onion_keys@[k].eph_pub@)
            &&& (forall|k: int|
                0 <= k < s.remote_onion_keys@.len() ==> (#[trigger] s.remote_onion_keys@[k]).origin
                    != identity) ==> hop_key(s, identity) == ed25519_public_as_x25519(identity@)
        },
{
    if has_peer(s.peers@, identity) {
        let j = index_of(s.peers@, identity);
        assert(crate::state::is_at(s.peers@, identity, j));
        assert(s.peers@[j].pub_key == identity);
    }
    assert forall|i: int| 0 <= i < s.peers@.len() && (#[trigger] s.peers@[i]).pub_key
        == identity implies has_peer(s.peers@, identity) && i == index_of(s.peers@, identity) by {
        assert(crate::state::is_at(s.peers@, identity, i));
        crate::state::lemma_index(s.peers@, identity, i);
    }
    assert forall|k: int| 0 <= k < s.remote_onion_keys@.len() && (
    #[trigger] s.remote_onion_keys@[k]).origin == identity implies has_origin(
        s.remote_onion_keys@,
        identity,
    ) && k == origin_index(s.remote_onion_keys@, identity) by {
        assert(origin_at(s.remote_onion_keys@, identity, k));
        lemma_origin_index(s.remote_onion_keys@, identity, k);
    }
    if has_origin(s.remote_onion_keys@, identity) {
        let j = origin_index(s.remote_onion_keys@, identity);
        assert(origin_at(s.remote_onion_keys@, identity, j));
        assert(s.remote_onion_keys@[j].origin == identity);
    }
}

/// Every neighbour with a link is told, once, the own current onion key, under a number one
/// higher than the last time, with the time, signed by the node.
pub proof fn the_own_key_is_announced(
    before: RouterState,
    now: u64,
    now_ms: u64,
    after: RouterState,
    j: int,
) -> (k: int)
    requires
        before.wf(),
        key_announced(before, now, now_ms, after),
        0 <= j < before.peers@.len(),
        before.peers@[j].links@.len() > 0,
    ensures
        before.sent().len() <= k < after.sent().len(),
        after.sent()[k].to == before.peers@[j].pub_key,
        after.sent()[k].frame[0] == TYPE_ONION_KEY_ANNOUNCE,
        parse_onion_key_announce(after.sent()[k].frame.skip(1)) matches Ok(v) && {
            &&& v.origin == before.pub_key@
            &&& v.seq == before.own_onion_key_seq.wrapping_add(1)
            &&& v.valid_from_ms == now_ms
            &&& v.onion_eph_pub == x25519_public_key(before.onion_keys@.current)
            &&& ed25519_valid(before.pub_key@, v.signed(), v.sig)
        },
        after.own_onion_key_seq == before.own_onion_key_seq.wrapping_add(1),
        forall|a: int, b: int|
            #![trigger after.sent()[a], after.sent()[b]]
            before.sent().len() <= a < b < after.sent().len() ==> after.sent()[a].to
                != after.sent()[b].to,
{
    let v = own_key_announce(before, now_ms);
    let frame = seq![TYPE_ONION_KEY_ANNOUNCE] + v.wire();
    let k = crate::state::lemma_flooded(before.peers@, None, frame, j);
    crate::state::lemma_flood_is_even(before.sent(), before.peers@, None, frame, after.sent());
    crate::packet::onion_key_announce_round_trip(v, Seq::empty());
    assert(frame.skip(1) =~= v.wire() + Seq::<u8>::empty());
    before.sent().len() as int + k
}

/// Every 3600 ticks, and at no other, the onion key is replaced by the fresh one. The
/// key that it replaces stays in use beside it, and the identity key stays.
pub proof fn onion_keys_rotate_on_time(
    before: RouterState,
    fresh: Seq<u8>,
    now: u64,
    now_ms: u64,
    after: RouterState,
)
    requires
        keys_rotated(before, None, fresh, now, now_ms, after),
    ensures
        before.tick > 0 && before.tick % 3600 == 0 ==> {
            &&& after.onion_keys@.current == fresh
            &&& after.onion_keys@.previous == Some(before.onion_keys@.current)
            &&& after.onion_keys@.identity == before.onion_keys@.identity
            &&& after.onion_keys@.rotated_at == now_ms
            &&& after.own_onion_key_seq == before.own_onion_key_seq.wrapping_add(1)
        },
        before.tick == 0 || before.tick % 3600 != 0 ==> after == before,
{
}

/// The node knows its own announced key as that of any other node.
pub proof fn the_own_key_is_known(
    before: RouterState,
    now: u64,
    now_ms: u64,
    after: RouterState,
)
    requires
        before.wf(),
        key_announced(before, now, now_ms, after),
    ensures
        exists|k: RemoteOnionKey| #[trigger]
            after.remote_onion_keys@.contains(k) && k.origin == before.pub_key && k.seq
                == before.own_onion_key_seq.wrapping_add(1) && k.eph_pub@ == x25519_public_key(
                before.onion_keys@.current,
            ) && k.at == now,
{
    let s = before.remote_onion_keys@;
    let seq = before.own_onion_key_seq.wrapping_add(1);
    let eph = choose|eph: [u8; 32]|
        eph@ == x25519_public_key(before.onion_keys@.current) && after.remote_onion_keys@
            == #[trigger] put_origin(
            s,
            RemoteOnionKey { origin: before.pub_key, seq, eph_pub: eph, at: now },
        );
    let e = RemoteOnionKey { origin: before.pub_key, seq, eph_pub: eph, at: now };
    let r = after.remote_onion_keys@;
    if has_origin(s, before.pub_key) {
        let k = origin_index(s, before.pub_key);
        assert(origin_at(s, before.pub_key, k));
        assert(r[k] == e);
    } else {
        assert(r[s.len() as int] == e);
    }
    assert(r.contains(e));
}

} // verus!
