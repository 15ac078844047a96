//! Finding nodes in the network, and asking them to open a direct connection.

use crate::bytes::key_eq;
use crate::crypto::{ed25519_sign, ed25519_signature, ed25519_valid, ed25519_verify};
use crate::lookup::{
    claim_route, claims, next_hop, the_cheapest_claim_is_chosen, the_next_hop_is_the_best, Distances,
};
use crate::packet::{
    parse_path_lookup, parse_path_notify, path_encodable, routing_tag, tag_of,
    HolePunch, HolePunchView, PacketError, PathBroken, PathLookup, PathLookupView, PathNotify,
    PathNotifyView, PATH_BROKEN, PATH_LOOKUP, PATH_NOTIFY, TYPE_HOLE_PUNCH,
};
use crate::reputation::{has_probe, probe_at, probe_index, random_id};
use crate::router::{PeerId, CLOCK_SKEW_MS, MAX_PENDING_LOOKUPS};
use crate::state::{
    flood, frames_go_to_neighbours, has_peer, index_of, is_at, lemma_index, one, touched, Event,
    EventKind, PeerData, Probe, RouterState, SeenLookup, Sent,
};
use crate::tables::lemma_remove;
use vstd::prelude::*;

verus! {

broadcast use vstd::array::group_array_axioms;

/// The lookup `id` has been seen.
pub open spec fn seen(s: Seq<SeenLookup>, id: u64) -> bool {
    exists|i: int| 0 <= i < s.len() && (#[trigger] s[i]).id == id
}

/// The answer to a lookup for this node.
pub open spec fn found_frame(s: RouterState, lookup: PathLookupView) -> Seq<u8> {
    seq![PATH_NOTIFY] + (PathNotifyView {
        target: s.pub_key@,
        source: lookup.source,
        id: lookup.id,
        path: lookup.path,
    }).wire()
}

/// A frame for the landmarks, `from` apart.
pub open spec fn to_landmarks(
    peers: Seq<PeerData>,
    landmarks: Seq<PeerId>,
    from: PeerId,
    frame: Seq<u8>,
) -> Seq<Sent>
    decreases landmarks.len(),
{
    if landmarks.len() == 0 {
        Seq::empty()
    } else {
        let rest = to_landmarks(peers, landmarks.drop_last(), from, frame);
        if landmarks.last() != from {
            rest + one(peers, landmarks.last(), frame)
        } else {
            rest
        }
    }
}

/// What a lookup that is new leads to: an answer where it is for this node; or
/// else it goes to the cheapest neighbour that claims to reach the target, with
/// one more hop in its path; or else to the landmarks; or else to everyone.
pub open spec fn lookup_step(s: RouterState, from: PeerId, lookup: PathLookupView) -> Seq<Sent> {
    let bare = seq![PATH_LOOKUP] + lookup.wire();
    if lookup.target == s.pub_key@ {
        one(s.peers@, from, found_frame(s, lookup))
    } else {
        match claim_route(s.peers@, tag_of(lookup.target), s.peers@.len() as int) {
            Some(i) => one(
                s.peers@,
                s.peers@[i].pub_key,
                seq![PATH_LOOKUP] + (PathLookupView {
                    path: lookup.path.push(0),
                    ..lookup
                }).wire(),
            ),
            None => if s.landmarks@.len() > 0 {
                to_landmarks(s.peers@, s.landmarks@, from, bare)
            } else {
                flood(s.peers@, Some(from), bare)
            },
        }
    }
}

/// The pending probes without `id`.
pub open spec fn without_probe(s: Seq<Probe>, id: u64) -> Seq<Probe> {
    if has_probe(s, id) {
        s.remove(probe_index(s, id))
    } else {
        s
    }
}

/// The trust that an answer to the probe `id` earns.
pub open spec fn probe_reward(s: RouterState, id: u64) -> Seq<Event> {
    if has_probe(s.pending_probes@, id) && has_peer(
        s.peers@,
        s.pending_probes@[probe_index(s.pending_probes@, id)].via,
    ) {
        seq![
            Event {
                peer: s.pending_probes@[probe_index(s.pending_probes@, id)].via,
                kind: EventKind::TrustUp,
            },
        ]
    } else {
        Seq::empty()
    }
}

/// The frame goes to the next hop towards `dst`, if there is one.
pub open spec fn routed(
    s: RouterState,
    dst: PeerId,
    d: Option<Distances>,
    frame: Seq<u8>,
) -> Seq<Sent> {
    match next_hop(s, dst, d) {
        Some(h) => one(s.peers@, h, frame),
        None => Seq::empty(),
    }
}

/// Two times differ by a minute at most.
pub open spec fn near(a: u64, b: u64) -> bool {
    a <= b + CLOCK_SKEW_MS && b <= a + CLOCK_SKEW_MS
}

fn is_near(a: u64, b: u64) -> (r: bool)
    ensures
        r == near(a, b),
{
    if a >= b {
        a - b <= CLOCK_SKEW_MS
    } else {
        b - a <= CLOCK_SKEW_MS
    }
}

/// The request is signed by its initiator, and recent.
pub open spec fn punch_acceptable(hp: HolePunchView, now_ms: u64) -> bool {
    ed25519_valid(hp.initiator, hp.signed(), hp.sig) && near(now_ms, hp.valid_from_ms)
}

/// A request of this node, not signed yet.
pub open spec fn unsigned_punch(
    s: RouterState,
    target: PeerId,
    endpoint: Seq<u8>,
    now_ms: u64,
) -> HolePunchView {
    HolePunchView {
        initiator: s.pub_key@,
        target: target@,
        endpoint,
        valid_from_ms: now_ms,
        sig: Seq::new(64, |i: int| 0u8),
    }
}

/// A request of this node.
pub open spec fn own_punch(
    s: RouterState,
    target: PeerId,
    endpoint: Seq<u8>,
    now_ms: u64,
) -> HolePunchView {
    let u = unsigned_punch(s, target, endpoint, now_ms);
    HolePunchView { sig: ed25519_signature(s.signing_key@, u.signed()), ..u }
}

/// `s` filled up with zeros, or cut, to 32 bytes.
pub open spec fn zero_padded(s: Seq<u8>) -> Seq<u8> {
    Seq::new(
        32,
        |i: int|
            if i < s.len() {
                s[i]
            } else {
                0u8
            },
    )
}

/// The lookup of this node for a key of which the front is known.
pub open spec fn own_lookup(s: RouterState, partial: Seq<u8>, id: u64) -> PathLookupView {
    PathLookupView {
        target: zero_padded(partial),
        source: s.pub_key@,
        id,
        path: Seq::empty(),
    }
}

/// What a lookup makes of `before`.
pub open spec fn lookup_taken(
    before: RouterState,
    from: PeerId,
    lookup: PathLookup,
    now: u64,
    after: RouterState,
) -> bool {
    &&& if seen(before.pending_lookups@, lookup.id) || before.pending_lookups@.len()
        >= MAX_PENDING_LOOKUPS {
        after == before
    } else {
        &&& after == (RouterState {
            pending_lookups: after.pending_lookups,
            outbox: after.outbox,
            ..before
        })
        &&& after.pending_lookups@ == before.pending_lookups@.push(
            SeenLookup { id: lookup.id, at: now },
        )
        &&& after.sent() == before.sent() + lookup_step(before, from, lookup@)
    }
}

/// What the answer to a lookup makes of `before`. `found` is the node found,
/// where this node had asked.
pub open spec fn notify_taken(
    before: RouterState,
    from: PeerId,
    notify: PathNotify,
    d: Option<Distances>,
    now: u64,
    found: Option<PeerId>,
    after: RouterState,
) -> bool {
    &&& after == (RouterState {
        peers: after.peers,
        pending_probes: after.pending_probes,
        events: after.events,
        outbox: after.outbox,
        ..before
    })
    &&& after.peers@ == touched(before.peers@, from, now)
    &&& if notify.source == before.pub_key {
        &&& found == Some(notify.target)
        &&& after.pending_probes@ == without_probe(
            before.pending_probes@,
            notify.id,
        )
        &&& after.events@ == before.events@ + probe_reward(before, notify.id)
        &&& after.outbox == before.outbox
    } else {
        &&& found is None
        &&& after.pending_probes == before.pending_probes
        &&& after.events == before.events
        &&& after.sent() == before.sent() + routed(
            after,
            notify.source,
            d,
            seq![PATH_NOTIFY] + notify@.wire(),
        )
    }
}

/// What the notice of a broken path makes of `before`.
pub open spec fn broken_taken(
    before: RouterState,
    from: PeerId,
    broken: PathBroken,
    d: Option<Distances>,
    now: u64,
    after: RouterState,
) -> bool {
    &&& after == (RouterState {
        peers: after.peers,
        outbox: after.outbox,
        ..before
    })
    &&& after.peers@ == touched(before.peers@, from, now)
    &&& after.sent() == before.sent() + if broken.source == before.pub_key {
        Seq::<Sent>::empty()
    } else {
        routed(after, broken.source, d, seq![PATH_BROKEN] + broken@.wire())
    }
}

/// What a request for a direct connection makes of `before`. `r` says who asks
/// this node, and where to connect to.
pub open spec fn punch_taken(
    before: RouterState,
    hp: HolePunch,
    d: Option<Distances>,
    now_ms: u64,
    r: Option<(PeerId, Vec<u8>)>,
    after: RouterState,
) -> bool {
    &&& after == (RouterState { outbox: after.outbox, ..before })
    &&& if punch_acceptable(hp@, now_ms) && hp.target == before.pub_key {
        r matches Some(p) && p.0 == hp.initiator && p.1@ == hp.endpoint@
    } else {
        r is None
    }
    &&& after.sent() == before.sent() + if punch_acceptable(hp@, now_ms) && hp.target
        != before.pub_key {
        routed(before, hp.target, d, seq![TYPE_HOLE_PUNCH] + hp@.wire())
    } else {
        Seq::<Sent>::empty()
    }
}

impl RouterState {
    fn has_seen(&self, id: u64) -> (r: bool)
        ensures
            r == seen(self.pending_lookups@, id),
    {
        let mut i: usize = 0;
        while i < self.pending_lookups.len()
            invariant
                i <= self.pending_lookups@.len(),
                forall|j: int| 0 <= j < i ==> (#[trigger] self.pending_lookups@[j]).id != id,
            decreases self.pending_lookups@.len() - i,
        {
            if self.pending_lookups[i].id == id {
                assert(self.pending_lookups@[i as int].id == id);
                return true;
            }
            i = i + 1;
        }
        false
    }

    fn send_to_landmarks(&mut self, from: &PeerId, frame: &Vec<u8>)
        requires
            old(self).wf(),
        ensures
            final(self).wf(),
            *final(self) == (RouterState { outbox: final(self).outbox, ..*old(self) }),
            final(self).sent() == old(self).sent() + to_landmarks(
                old(self).peers@,
                old(self).landmarks@,
                *from,
                frame@,
            ),
    {
        let ghost all = self.landmarks@;
        let mut i: usize = 0;
        proof {
            assert(all.take(0) =~= Seq::<PeerId>::empty());
            assert(self.sent() =~= old(self).sent() + to_landmarks(
                self.peers@,
                all.take(0),
                *from,
                frame@,
            ));
        }
        while i < self.landmarks.len()
            invariant
                self.wf(),
                *self == (RouterState { outbox: self.outbox, ..*old(self) }),
                all == self.landmarks@,
                i <= all.len(),
                self.sent() == old(self).sent() + to_landmarks(
                    old(self).peers@,
                    all.take(i as int),
                    *from,
                    frame@,
                ),
            decreases all.len() - i,
        {
            let to: PeerId = self.landmarks[i];
            proof {
                assert(all.take(i + 1).drop_last() =~= all.take(i as int));
                assert(all.take(i + 1).last() == to);
            }
            if !key_eq(&to, from) {
                let copy: Vec<u8> = crate::state::copy_bytes(frame);
                self.send_to_peer(&to, copy);
            }
            assert(self.sent() =~= old(self).sent() + to_landmarks(
                old(self).peers@,
                all.take(i + 1),
                *from,
                frame@,
            ));
            i = i + 1;
        }
        assert(all.take(i as int) =~= all);
    }

    /// Some node looks for another. A lookup seen before is ignored, and so is
    /// a new one while too many are pending.
    pub fn handle_path_lookup(&mut self, from: PeerId, lookup: PathLookup, now: u64)
        requires
            old(self).wf(),
            path_encodable(lookup.path@),
        ensures
            final(self).wf(),
            lookup_taken(*old(self), from, lookup, now, *final(self)),
    {
        if self.has_seen(lookup.id) {
            return ;
        }
        if self.pending_lookups.len() >= MAX_PENDING_LOOKUPS {
            return ;
        }
        let ghost before = self.pending_lookups@;
        self.pending_lookups.push(SeenLookup { id: lookup.id, at: now });
        proof {
            let r = self.pending_lookups@;
            assert forall|a: int, b: int|
                #![trigger r[a], r[b]]
                0 <= a < b < r.len() implies r[a].id != r[b].id by {
                if b < before.len() {
                    assert(before[a].id != before[b].id);
                } else {
                    assert(before[a].id != lookup.id);
                }
            }
        }
        let ghost view = lookup@;
        if key_eq(&lookup.target, &self.pub_key) {
            let notify = PathNotify {
                target: self.pub_key,
                source: lookup.source,
                id: lookup.id,
                path: lookup.path,
            };
            assert(notify@ =~= PathNotifyView {
                target: self.pub_key@,
                source: view.source,
                id: view.id,
                path: view.path,
            });
            let frame: Vec<u8> = notify.encode();
            self.send_to_peer(&from, frame);
            return ;
        }
        assert(lookup.target@ != self.pub_key@) by {
            if lookup.target@ == self.pub_key@ {
                assert(lookup.target =~= self.pub_key);
            }
        }
        let tag: [u8; 16] = routing_tag(&lookup.target);
        match self.cheapest_claim(&tag) {
            Some(i) => {
                let best: PeerId = self.peers[i].pub_key;
                let mut fwd = lookup;
                fwd.path.push(0);
                assert(fwd@ =~= PathLookupView { path: view.path.push(0), ..view });
                let frame: Vec<u8> = fwd.encode();
                self.send_to_peer(&best, frame);
            },
            None => {
                let frame: Vec<u8> = lookup.encode();
                if self.landmarks.len() > 0 {
                    self.send_to_landmarks(&from, &frame);
                } else {
                    self.send_to_all(Some(from), &frame);
                }
            },
        }
    }

    /// Forget the probe `id`, and say through which neighbour it went.
    fn take_probe(&mut self, id: u64) -> (r: Option<PeerId>)
        requires
            old(self).wf(),
        ensures
            final(self).wf(),
            *final(self) == (RouterState {
                pending_probes: final(self).pending_probes,
                ..*old(self)
            }),
            final(self).pending_probes@ == without_probe(old(self).pending_probes@, id),
            match r {
                Some(k) => has_probe(old(self).pending_probes@, id) && k == old(
                    self,
                ).pending_probes@[probe_index(old(self).pending_probes@, id)].via,
                None => !has_probe(old(self).pending_probes@, id),
            },
    {
        let ghost s = self.pending_probes@;
        let mut i: usize = 0;
        while i < self.pending_probes.len()
            invariant
                self.wf(),
                *self == *old(self),
                s == self.pending_probes@,
                i <= s.len(),
                forall|j: int| 0 <= j < i ==> !probe_at(s, id, j),
            decreases s.len() - i,
        {
            if self.pending_probes[i].id == id {
                proof {
                    assert(probe_at(s, id, i as int));
                    let j = probe_index(s, id);
                    assert(probe_at(s, id, j));
                    if i < j {
                        assert(s[i as int].id != s[j].id);
                    }
                    lemma_remove(s, i as int, |a: Probe, b: Probe| a.id != b.id);
                }
                let p: Probe = self.pending_probes.remove(i);
                return Some(p.via);
            }
            i = i + 1;
        }
        None
    }

    /// The answer to a lookup. Where this node had asked, the result is the
    /// node found, and a neighbour that was probed earns trust; the answer for
    /// another node is sent on.
    pub fn handle_path_notify(
        &mut self,
        from: PeerId,
        notify: PathNotify,
        d: &Option<Distances>,
        now: u64,
    ) -> (found: Option<PeerId>)
        requires
            old(self).wf(),
            path_encodable(notify.path@),
        ensures
            final(self).wf(),
            notify_taken(*old(self), from, notify, *d, now, found, *final(self)),
    {
        self.touch(&from, now);
        proof {
            crate::state::touched_keeps_peers(old(self).peers@, from, now);
        }
        if key_eq(&notify.source, &self.pub_key) {
            assert(self.events@ =~= old(self).events@ + Seq::<Event>::empty());
            if let Some(hop) = self.take_probe(notify.id) {
                if self.find_peer(&hop).is_some() {
                    self.push_event(hop, EventKind::TrustUp);
                }
            }
            assert(self.events@ =~= old(self).events@ + probe_reward(*old(self), notify.id));
            return Some(notify.target);
        }
        assert(self.sent() =~= old(self).sent() + Seq::<Sent>::empty());
        if let Some(hop) = self.lookup(&notify.source, d) {
            let frame: Vec<u8> = notify.encode();
            self.send_to_peer(&hop, frame);
        }
        None
    }

    /// A path is broken: the notice is sent on towards the node that uses it.
    pub fn handle_path_broken(
        &mut self,
        from: PeerId,
        broken: PathBroken,
        d: &Option<Distances>,
        now: u64,
    )
        requires
            old(self).wf(),
        ensures
            final(self).wf(),
            broken_taken(*old(self), from, broken, *d, now, *final(self)),
    {
        self.touch(&from, now);
        assert(self.sent() =~= old(self).sent() + Seq::<Sent>::empty());
        if !key_eq(&broken.source, &self.pub_key) {
            if let Some(hop) = self.lookup(&broken.source, d) {
                let frame: Vec<u8> = broken.encode();
                self.send_to_peer(&hop, frame);
            }
        }
    }

    /// Some node asks another for a direct connection. A request that is not
    /// signed or not recent is dropped. Where it is for this node, the result
    /// says who asks and where to connect to; a request for another node is
    /// sent on.
    pub fn handle_hole_punch(&mut self, hp: HolePunch, d: &Option<Distances>, now_ms: u64) -> (r:
        Option<(PeerId, Vec<u8>)>)
        requires
            old(self).wf(),
        ensures
            final(self).wf(),
            punch_taken(*old(self), hp, *d, now_ms, r, *final(self)),
    {
        assert(self.sent() =~= old(self).sent() + Seq::<Sent>::empty());
        let signed: Vec<u8> = hp.sign_bytes();
        if !ed25519_verify(&hp.initiator, signed.as_slice(), &hp.sig) {
            return None;
        }
        if !is_near(now_ms, hp.valid_from_ms) {
            return None;
        }
        if key_eq(&hp.target, &self.pub_key) {
            return Some((hp.initiator, hp.endpoint));
        }
        if let Some(hop) = self.lookup(&hp.target, d) {
            let frame: Vec<u8> = hp.encode();
            self.send_to_peer(&hop, frame);
        }
        None
    }

    /// Ask `target`, by way of the neighbour `rendezvous`, to connect to
    /// `endpoint`.
    pub fn send_hole_punch(
        &mut self,
        rendezvous: &PeerId,
        target: PeerId,
        endpoint: Vec<u8>,
        now_ms: u64,
    )
        requires
            old(self).wf(),
        ensures
            final(self).wf(),
            *final(self) == (RouterState { outbox: final(self).outbox, ..*old(self) }),
            final(self).sent() == old(self).sent() + one(
                old(self).peers@,
                *rendezvous,
                seq![TYPE_HOLE_PUNCH] + own_punch(*old(self), target, endpoint@, now_ms).wire(),
            ),
            punch_acceptable(own_punch(*old(self), target, endpoint@, now_ms), now_ms),
    {
        let ghost bytes = endpoint@;
        let mut hp = HolePunch {
            initiator: self.pub_key,
            target,
            endpoint,
            valid_from_ms: now_ms,
            sig: vstd::array::array_fill_for_copy_types::<u8, 64>(0u8),
        };
        assert(hp@ =~= unsigned_punch(*self, target, bytes, now_ms));
        let signed: Vec<u8> = hp.sign_bytes();
        hp.sig = ed25519_sign(&self.signing_key, signed.as_slice());
        assert(hp@ =~= own_punch(*self, target, bytes, now_ms));
        let frame: Vec<u8> = hp.encode();
        self.send_to_peer(rendezvous, frame);
    }

    /// Look for the node whose key starts with `partial`, under the number
    /// `id`.
    pub fn send_lookup_as(&mut self, partial: &[u8], id: u64)
        requires
            old(self).wf(),
        ensures
            final(self).wf(),
            *final(self) == (RouterState { outbox: final(self).outbox, ..*old(self) }),
            final(self).sent() == old(self).sent() + flood(
                old(self).peers@,
                None,
                seq![PATH_LOOKUP] + own_lookup(*old(self), partial@, id).wire(),
            ),
    {
        let mut target: [u8; 32] = vstd::array::array_fill_for_copy_types::<u8, 32>(0u8);
        let mut i: usize = 0;
        while i < 32 && i < partial.len()
            invariant
                i <= 32,
                i <= partial@.len(),
                forall|j: int| 0 <= j < i ==> target@[j] == partial@[j],
                forall|j: int| i <= j < 32 ==> target@[j] == 0u8,
            decreases 32 - i,
        {
            target[i] = partial[i];
            i = i + 1;
        }
        let lookup = PathLookup { target, source: self.pub_key, id, path: Vec::new() };
        assert(target@ =~= zero_padded(partial@));
        assert(lookup@ =~= own_lookup(*self, partial@, id));
        let frame: Vec<u8> = lookup.encode();
        self.send_to_all(None, &frame);
    }

    /// Look for the node whose key starts with `partial`, under a number chosen
    /// by chance.
    pub fn send_lookup(&mut self, partial: &[u8])
        requires
            old(self).wf(),
        ensures
            final(self).wf(),
            *final(self) == (RouterState { outbox: final(self).outbox, ..*old(self) }),
            exists|id: u64|
                final(self).sent() == old(self).sent() + flood(
                    old(self).peers@,
                    None,
                    seq![PATH_LOOKUP] + (#[trigger] own_lookup(*old(self), partial@, id)).wire(),
                ),
    {
        let id: u64 = random_id();
        self.send_lookup_as(partial, id);
        assert(self.sent() == old(self).sent() + flood(
            old(self).peers@,
            None,
            seq![PATH_LOOKUP] + own_lookup(*old(self), partial@, id).wire(),
        ));
    }
}

/// A lookup is acted on once: where it was new, it has been seen afterwards.
pub proof fn lookups_are_handled_once(s: Seq<SeenLookup>, id: u64, now: u64)
    ensures
        seen(s.push(SeenLookup { id, at: now }), id),
{
    assert(s.push(SeenLookup { id, at: now })[s.len() as int].id == id);
}

/// A frame for the next hop goes nowhere else, and is dropped only where the next
/// hop has no link, or where there is no neighbour at all.
pub proof fn frames_take_the_next_hop(
    s: RouterState,
    dst: PeerId,
    d: Option<Distances>,
    frame: Seq<u8>,
)
    requires
        s.wf(),
    ensures
        s.peers@.len() == 0 ==> routed(s, dst, d, frame).len() == 0,
        s.peers@.len() > 0 ==> exists|b: int|
            {
                &&& 0 <= b < s.peers@.len()
                &&& next_hop(s, dst, d) == Some((#[trigger] s.peers@[b]).pub_key)
                &&& routed(s, dst, d, frame) == if s.peers@[b].links@.len() > 0 {
                    seq![Sent { to: s.peers@[b].pub_key, frame }]
                } else {
                    Seq::empty()
                }
            },
{
    the_next_hop_is_the_best(s, dst, d);
    if let Some(h) = next_hop(s, dst, d) {
        let b = choose|b: int| 0 <= b < s.peers@.len() && (#[trigger] s.peers@[b]).pub_key == h;
        assert(is_at(s.peers@, h, b));
        lemma_index(s.peers@, h, b);
    }
}

/// A lookup that was seen before, or that comes while 10000 are pending, changes
/// nothing. A new one is remembered, with the time.
pub proof fn lookups_are_acted_on_once(
    before: RouterState,
    from: PeerId,
    lookup: PathLookup,
    now: u64,
    after: RouterState,
    again: PathLookup,
    later: u64,
    last: RouterState,
)
    requires
        lookup_taken(before, from, lookup, now, after),
        again.id == lookup.id,
        lookup_taken(after, from, again, later, last),
    ensures
        last == after,
        before.pending_lookups@.len() >= 10000 || (exists|i: int|
            0 <= i < before.pending_lookups@.len() && (#[trigger] before.pending_lookups@[i]).id
                == lookup.id) ==> after == before,
        before.pending_lookups@.len() < 10000 && (forall|i: int|
            0 <= i < before.pending_lookups@.len() ==> (#[trigger] before.pending_lookups@[i]).id
                != lookup.id) ==> after.pending_lookups@ == before.pending_lookups@.push(
            SeenLookup { id: lookup.id, at: now },
        ),
{
    if after != before || seen(before.pending_lookups@, lookup.id) {
        if !seen(before.pending_lookups@, lookup.id) {
            lookups_are_handled_once(before.pending_lookups@, lookup.id, now);
        }
    }
}

/// A new lookup for this node is answered to the neighbour that it came from, and
/// to nobody else. The answer names this node as found, and the asker, the number
/// and the path of the lookup.
pub proof fn lookups_for_this_node_are_answered(
    before: RouterState,
    from: PeerId,
    lookup: PathLookup,
    now: u64,
    after: RouterState,
    i: int,
)
    requires
        before.wf(),
        path_encodable(lookup.path@),
        lookup_taken(before, from, lookup, now, after),
        before.pending_lookups@.len() < 10000,
        !seen(before.pending_lookups@, lookup.id),
        lookup.target == before.pub_key,
        0 <= i < before.peers@.len(),
        before.peers@[i].pub_key == from,
        before.peers@[i].links@.len() > 0,
    ensures
        after.sent().len() == before.sent().len() + 1,
        after.sent().last().to == from,
        after.sent().last().frame[0] == PATH_NOTIFY,
        parse_path_notify(after.sent().last().frame.skip(1)) matches Ok(v) && v.target
            == before.pub_key@ && v.source == lookup.source@ && v.id == lookup.id && v.path
            == lookup.path@,
{
    let v = PathNotifyView {
        target: before.pub_key@,
        source: lookup.source@,
        id: lookup.id,
        path: lookup.path@,
    };
    let frame = found_frame(before, lookup@);
    frames_go_to_neighbours(before.peers@, from, frame);
    assert(before.peers@[i].pub_key == from);
    crate::packet::path_notify_round_trip(v, Seq::empty());
    assert(frame.skip(1) =~= v.wire() + Seq::<u8>::empty());
}

/// A new lookup for another node goes to one neighbour alone where some neighbour
/// claims to reach the target: to one of those with the lowest cost, with one more
/// hop in its path. Otherwise it goes unchanged to every landmark that is a
/// neighbour, the one that it came from apart, or, where there are no landmarks, to
/// every neighbour but that one.
pub proof fn lookups_for_others_are_passed_on(
    before: RouterState,
    from: PeerId,
    lookup: PathLookup,
    now: u64,
    after: RouterState,
    j: int,
)
    requires
        before.wf(),
        path_encodable(lookup.path@),
        lookup_taken(before, from, lookup, now, after),
        before.pending_lookups@.len() < 10000,
        !seen(before.pending_lookups@, lookup.id),
        lookup.target != before.pub_key,
        0 <= j < before.peers@.len(),
    ensures
        if exists|i: int|
            0 <= i < before.peers@.len() && claims(
                #[trigger] before.peers@[i],
                tag_of(lookup.target@),
            ) {
            exists|b: int|
                {
                    &&& 0 <= b < before.peers@.len()
                    &&& claims(#[trigger] before.peers@[b], tag_of(lookup.target@))
                    &&& claims(before.peers@[j], tag_of(lookup.target@)) ==> before.peers@[b].cost
                        <= before.peers@[j].cost
                    &&& before.peers@[b].links@.len() == 0 ==> after.sent() == before.sent()
                    &&& before.peers@[b].links@.len() > 0 ==> {
                        &&& after.sent().len() == before.sent().len() + 1
                        &&& after.sent().last().to == before.peers@[b].pub_key
                        &&& after.sent().last().frame[0] == PATH_LOOKUP
                        &&& parse_path_lookup(after.sent().last().frame.skip(1)) == Ok::<
                            PathLookupView,
                            PacketError,
                        >(
                            PathLookupView {
                                target: lookup.target@,
                                source: lookup.source@,
                                id: lookup.id,
                                path: lookup.path@.push(0),
                            },
                        )
                    }
                }
        } else {
            let asked = before.peers@[j].links@.len() > 0 && before.peers@[j].pub_key != from && (
            before.landmarks@.len() == 0 || before.landmarks@.contains(before.peers@[j].pub_key));
            asked <==> exists|k: int|
                before.sent().len() <= k < after.sent().len() && (#[trigger] after.sent()[k])
                    == (Sent {
                    to: before.peers@[j].pub_key,
                    frame: seq![PATH_LOOKUP] + lookup@.wire(),
                })
        },
{
    let n = before.peers@.len() as int;
    let tag = tag_of(lookup.target@);
    the_cheapest_claim_is_chosen(before.peers@, tag, n);
    assert(lookup.target@ != before.pub_key@) by {
        if lookup.target@ == before.pub_key@ {
            assert(lookup.target =~= before.pub_key);
        }
    }
    let m = before.sent().len() as int;
    let step = lookup_step(before, from, lookup@);
    match claim_route(before.peers@, tag, n) {
        Some(b) => {
            let v = PathLookupView { path: lookup.path@.push(0), ..lookup@ };
            let frame = seq![PATH_LOOKUP] + v.wire();
            frames_go_to_neighbours(before.peers@, before.peers@[b].pub_key, frame);
            crate::packet::path_lookup_round_trip(v, Seq::empty());
            assert(frame.skip(1) =~= v.wire() + Seq::<u8>::empty());
            assert(claims(before.peers@[b], tag));
            if before.peers@[b].links@.len() == 0 {
                assert forall|i: int|
                    0 <= i < n && (#[trigger] before.peers@[i]).pub_key
                        == before.peers@[b].pub_key implies before.peers@[i].links@.len() == 0 by {
                    assert(is_at(before.peers@, before.peers@[b].pub_key, i));
                    assert(is_at(before.peers@, before.peers@[b].pub_key, b));
                    lemma_index(before.peers@, before.peers@[b].pub_key, i);
                    lemma_index(before.peers@, before.peers@[b].pub_key, b);
                }
                assert(after.sent() =~= before.sent());
            }
        },
        None => {
            let key = before.peers@[j].pub_key;
            let bare = seq![PATH_LOOKUP] + lookup@.wire();
            assert(is_at(before.peers@, key, j));
            lemma_index(before.peers@, key, j);
            let s = Sent { to: key, frame: bare };
            if before.landmarks@.len() > 0 {
                lemma_to_landmarks(before.peers@, before.landmarks@, from, bare, key);
            } else {
                crate::state::flood_reaches_each_neighbour_once(
                    before.peers@,
                    Some(from),
                    bare,
                    key,
                );
                if before.landmarks@.contains(key) {
                    let i = choose|i: int|
                        0 <= i < before.landmarks@.len() && before.landmarks@[i] == key;
                }
            }
            if step.contains(s) {
                let k = choose|k: int| 0 <= k < step.len() && step[k] == s;
                assert(after.sent()[m + k] == s);
            }
            if exists|k: int| m <= k < after.sent().len() && (#[trigger] after.sent()[k]) == s {
                let k = choose|k: int| m <= k < after.sent().len() && (#[trigger] after.sent()[k])
                    == s;
                assert(step[k - m] == s);
            }
        },
    }
}

proof fn lemma_to_landmarks(
    peers: Seq<PeerData>,
    landmarks: Seq<PeerId>,
    from: PeerId,
    frame: Seq<u8>,
    key: PeerId,
)
    ensures
        to_landmarks(peers, landmarks, from, frame).contains(Sent { to: key, frame })
            <==> landmarks.contains(key) && key != from && crate::state::reachable(peers, key),
    decreases landmarks.len(),
{
    let s = Sent { to: key, frame };
    let r = to_landmarks(peers, landmarks, from, frame);
    if landmarks.len() > 0 {
        let t = landmarks.drop_last();
        let last = landmarks.last();
        let rest = to_landmarks(peers, t, from, frame);
        lemma_to_landmarks(peers, t, from, frame, key);
        let head = if last != from {
            one(peers, last, frame)
        } else {
            Seq::empty()
        };
        assert(r =~= rest + head);
        if r.contains(s) {
            let k = choose|k: int| 0 <= k < r.len() && r[k] == s;
            if k < rest.len() {
                assert(rest[k] == s);
                let i = choose|i: int| 0 <= i < t.len() && t[i] == key;
                assert(landmarks[i] == key);
            } else {
                assert(head[k - rest.len()] == s);
                assert(landmarks[landmarks.len() - 1] == key);
            }
        }
        if landmarks.contains(key) && key != from && crate::state::reachable(peers, key) {
            let i = choose|i: int| 0 <= i < landmarks.len() && landmarks[i] == key;
            if i < t.len() {
                assert(t[i] == key);
                let k = choose|k: int| 0 <= k < rest.len() && rest[k] == s;
                assert(r[k] == s);
            } else {
                assert(r[rest.len() as int] == head[0]);
            }
        }
    }
}

/// The answer to a lookup of this node tells the node found. Where it answers a
/// probe, the probe is done, and the neighbour through which it went earns trust;
/// nobody else does. Nothing is sent.
pub proof fn answers_to_this_node_are_taken(
    before: RouterState,
    from: PeerId,
    notify: PathNotify,
    d: Option<Distances>,
    now: u64,
    found: Option<PeerId>,
    after: RouterState,
)
    requires
        before.wf(),
        notify_taken(before, from, notify, d, now, found, after),
        notify.source == before.pub_key,
    ensures
        found == Some(notify.target),
        after.outbox == before.outbox,
        forall|i: int|
            0 <= i < before.pending_probes@.len() && (#[trigger] before.pending_probes@[i]).id
                == notify.id ==> {
                &&& after.pending_probes@ == before.pending_probes@.remove(i)
                &&& has_peer(before.peers@, before.pending_probes@[i].via) ==> after.events@
                    == before.events@.push(
                    Event { peer: before.pending_probes@[i].via, kind: EventKind::TrustUp },
                )
                &&& !has_peer(before.peers@, before.pending_probes@[i].via) ==> after.events@
                    == before.events@
            },
        (forall|k: int|
            0 <= k < before.pending_probes@.len() ==> (#[trigger] before.pending_probes@[k]).id
                != notify.id) ==> after.events@ == before.events@ && after.pending_probes@
            == before.pending_probes@,
{
    let s = before.pending_probes@;
    let id = notify.id;
    if has_probe(s, id) {
        let k = probe_index(s, id);
        assert(probe_at(s, id, k));
        assert(s[k].id == id);
        assert forall|i: int| 0 <= i < s.len() && (#[trigger] s[i]).id == id implies i == k by {
            if i < k {
                assert(s[i].id != s[k].id);
            } else if k < i {
                assert(s[k].id != s[i].id);
            }
        }
    } else {
        assert forall|i: int| 0 <= i < s.len() implies (#[trigger] s[i]).id != id by {
            assert(!probe_at(s, id, i));
        }
    }
    assert(before.events@ + probe_reward(before, id) =~= if has_probe(s, id) && has_peer(
        before.peers@,
        s[probe_index(s, id)].via,
    ) {
        before.events@.push(Event { peer: s[probe_index(s, id)].via, kind: EventKind::TrustUp })
    } else {
        before.events@
    });
}

/// The answer to the lookup of another node is sent on unchanged towards that node,
/// and so is the notice of a broken path; a notice for this node ends here.
pub proof fn answers_for_others_are_sent_on(
    before: RouterState,
    from: PeerId,
    notify: PathNotify,
    broken: PathBroken,
    d: Option<Distances>,
    now: u64,
    found: Option<PeerId>,
    after: RouterState,
    last: RouterState,
)
    requires
        before.wf(),
        after.wf(),
        last.wf(),
        notify_taken(before, from, notify, d, now, found, after),
        broken_taken(before, from, broken, d, now, last),
    ensures
        notify.source != before.pub_key ==> {
            &&& found is None
            &&& after.sent() == before.sent() + routed(
                after,
                notify.source,
                d,
                seq![PATH_NOTIFY] + notify@.wire(),
            )
            &&& after.pending_probes == before.pending_probes
            &&& after.events == before.events
        },
        broken.source != before.pub_key ==> last.sent() == before.sent() + routed(
            last,
            broken.source,
            d,
            seq![PATH_BROKEN] + broken@.wire(),
        ),
        broken.source == before.pub_key ==> last.sent() == before.sent(),
        after.peers@ == touched(before.peers@, from, now),
        last.peers@ == touched(before.peers@, from, now),
{
    assert(before.sent() + Seq::<Sent>::empty() =~= before.sent());
}

/// A request for a direct connection is taken up exactly where its initiator
/// signed it and its time is within a minute of the own clock. For this node it
/// tells who asks and where to connect to, and is not sent on; for another node it
/// is sent on unchanged towards that node.
pub proof fn only_recent_signed_requests_are_taken_up(
    before: RouterState,
    hp: HolePunch,
    d: Option<Distances>,
    now_ms: u64,
    r: Option<(PeerId, Vec<u8>)>,
    after: RouterState,
)
    requires
        punch_taken(before, hp, d, now_ms, r, after),
    ensures
        ({
            let good = ed25519_valid(hp.initiator@, hp@.signed(), hp.sig@) && now_ms
                <= hp.valid_from_ms + 60_000 && hp.valid_from_ms <= now_ms + 60_000;
            &&& r is Some <==> good && hp.target == before.pub_key
            &&& r matches Some(p) ==> p.0 == hp.initiator && p.1@ == hp.endpoint@
            &&& good && hp.target != before.pub_key ==> after.sent() == before.sent() + routed(
                before,
                hp.target,
                d,
                seq![TYPE_HOLE_PUNCH] + hp@.wire(),
            )
            &&& !good || hp.target == before.pub_key ==> after.sent() == before.sent()
        }),
        after.peers == before.peers,
{
    assert(before.sent() + Seq::<Sent>::empty() =~= before.sent());
}

/// A request that this node makes is taken up by its target within a minute, and
/// tells it this node and the endpoint.
pub proof fn own_requests_are_taken_up(
    s: RouterState,
    target: PeerId,
    endpoint: Seq<u8>,
    now_ms: u64,
    there: RouterState,
    hp: HolePunch,
    d: Option<Distances>,
    later_ms: u64,
    r: Option<(PeerId, Vec<u8>)>,
    after: RouterState,
)
    requires
        punch_acceptable(own_punch(s, target, endpoint, now_ms), now_ms),
        hp@ == own_punch(s, target, endpoint, now_ms),
        there.pub_key == target,
        now_ms <= later_ms <= now_ms + 60_000,
        punch_taken(there, hp, d, later_ms, r, after),
    ensures
        r matches Some(p) && p.0@ == s.pub_key@ && p.1@ == endpoint,
{
    assert(hp.target@ == target@);
    assert(hp.target =~= target);
    assert(hp@.endpoint == endpoint);
}

/// The lookup for a key of which the front is known asks for that front, with zeros behind
/// it, names this node as the asker, and has an empty path.
pub proof fn own_lookups_ask_for_the_front(s: RouterState, partial: Seq<u8>, id: u64, i: int)
    requires
        0 <= i < 32,
    ensures
        own_lookup(s, partial, id).target.len() == 32,
        i < partial.len() ==> own_lookup(s, partial, id).target[i] == partial[i],
        i >= partial.len() ==> own_lookup(s, partial, id).target[i] == 0,
        own_lookup(s, partial, id).source == s.pub_key@,
        own_lookup(s, partial, id).id == id,
        own_lookup(s, partial, id).path.len() == 0,
{
}

} // verus!
