//! The state of a routing node: its neighbours, its trees, and the tables it
//! keeps of the rest of the network.
//!
//! The state makes decisions and sends nothing itself. Frames to send are
//! queued in `outbox`, changes of a neighbour's loss rate and trust in
//! `events`. The costs `cost` and `tag_cost` of a neighbour are set by whoever
//! keeps those rates. Times named `now` come from a monotonic clock, in
//! microseconds.

use crate::bytes::key_eq;
use crate::crypto::ed25519_public_key;
use crate::cuckoo::CuckooFilter;
use crate::onion::OnionKeyChain;
use crate::router::{
    PeerId, MAX_COORD_TABLE_SIZE, MAX_PARALLEL_LINKS_PER_PEER, MAX_PATH_NEG_CACHE,
    MAX_PENDING_LOOKUPS, MAX_REMOTE_ONION_KEYS, MAX_REPUTATION_OBSERVATIONS,
    ONION_REPLAY_CACHE_SIZE,
};
use std::collections::VecDeque;
use vstd::prelude::*;

verus! {

broadcast use vstd::array::group_array_axioms;

/// What a neighbour announced of its position in a tree.
#[derive(Clone, Copy, Debug)]
pub struct TreeAnnounce {
    pub root: PeerId,
    pub path_cost: u64,
    pub received_at: u64,
    pub depth: u32,
}

/// The own position in a tree.
#[derive(Clone, Copy, Debug)]
pub struct TreeState {
    /// The neighbour towards the root; none at the root.
    pub parent: Option<PeerId>,
    pub root: PeerId,
    pub root_seq: u64,
    pub parent_cost: u64,
}

/// A neighbour.
pub struct PeerData {
    pub pub_key: PeerId,
    pub lag_us: u64,
    pub jitter_us: u64,
    /// Lag adjusted for loss, in microseconds.
    pub cost: u64,
    /// `cost` adjusted for trust.
    pub tag_cost: u64,
    pub last_rx: u64,
    pub last_tx: u64,
    /// The filter last received for each tree.
    pub cuckoo: [CuckooFilter; 3],
    /// The newest generation received for each tree.
    pub cuckoo_gen: [u64; 3],
    pub trees: [Option<TreeAnnounce>; 3],
    /// The links to the neighbour, used in turn.
    pub links: Vec<u64>,
    pub next_tx: usize,
    pub priority: u8,
    pub rx_bytes: u64,
    pub tx_bytes: u64,
    pub connected_at: u64,
    /// The unanswered ping, with its number and time.
    pub pending_sig_req: Option<(u64, u64)>,
    pub sig_req_seq: u64,
    pub onion_eph_pub: Option<[u8; 32]>,
}

/// What happened to the reputation of a neighbour.
#[derive(Clone, Copy, Debug, PartialEq, Eq, Structural)]
pub enum EventKind {
    LossUp,
    LossDown,
    TrustUp,
    TrustDown,
}

/// A change of a neighbour's loss rate or trust.
#[derive(Clone, Copy, Debug)]
pub struct Event {
    pub peer: PeerId,
    pub kind: EventKind,
}

/// A frame to send.
#[derive(Debug)]
pub struct Outgoing {
    pub to: PeerId,
    pub frame: Vec<u8>,
}

/// The contents of an [`Outgoing`].
#[verifier::ext_equal]
pub struct Sent {
    pub to: PeerId,
    pub frame: Seq<u8>,
}

/// A lookup that has been seen.
#[derive(Clone, Copy, Debug)]
pub struct SeenLookup {
    pub id: u64,
    pub at: u64,
}

/// The coordinate of a node, in its serialized form.
#[derive(Clone, Copy, Debug)]
pub struct CoordEntry {
    pub key: PeerId,
    pub coord: [u8; 16],
}

/// The onion key that a node announced.
#[derive(Clone, Copy, Debug)]
pub struct RemoteOnionKey {
    pub origin: PeerId,
    pub seq: u64,
    pub eph_pub: [u8; 32],
    pub at: u64,
}

/// A lookup sent to find out whether `via` can reach what it claims.
#[derive(Clone, Copy, Debug)]
pub struct Probe {
    pub id: u64,
    pub via: PeerId,
    pub at: u64,
}

/// What `observer` reported of `observed`.
#[derive(Clone, Copy, Debug)]
pub struct Observation {
    pub observed: PeerId,
    pub observer: PeerId,
    pub seq: u64,
    pub score_q16: u16,
    pub at: u64,
}

/// `peer` said that it cannot route `tag`.
#[derive(Clone, Copy, Debug)]
pub struct NegativeRoute {
    pub peer: PeerId,
    pub tag: [u8; 16],
    pub at: u64,
}

/// The state of a routing node.
pub struct RouterState {
    /// The node's Ed25519 secret.
    pub signing_key: [u8; 32],
    pub pub_key: PeerId,
    pub peers: Vec<PeerData>,
    pub trees: [TreeState; 3],
    pub landmarks: Vec<PeerId>,
    pub pending_lookups: Vec<SeenLookup>,
    pub coord_table: Vec<CoordEntry>,
    pub own_coord: [u8; 16],
    /// Distance to the root of the first tree, in hops.
    pub own_depth: u32,
    pub tick: u32,
    pub cuckoo_generation: [u64; 3],
    pub onion_keys: OnionKeyChain,
    pub onion_seen: VecDeque<[u8; 32]>,
    pub remote_onion_keys: Vec<RemoteOnionKey>,
    pub own_onion_key_seq: u64,
    pub pending_probes: Vec<Probe>,
    pub reputation: Vec<Observation>,
    pub own_reputation_seq: u64,
    pub path_negative_cache: Vec<NegativeRoute>,
    pub outbox: Vec<Outgoing>,
    pub events: Vec<Event>,
}

/// The contents of a queue of frames.
pub open spec fn sent_of(outbox: Seq<Outgoing>) -> Seq<Sent> {
    outbox.map_values(|o: Outgoing| Sent { to: o.to, frame: o.frame@ })
}

/// `peers[i]` is the neighbour `key`.
pub open spec fn is_at(peers: Seq<PeerData>, key: PeerId, i: int) -> bool {
    0 <= i < peers.len() && peers[i].pub_key == key
}

/// Whether `key` is a neighbour.
pub open spec fn has_peer(peers: Seq<PeerData>, key: PeerId) -> bool {
    exists|i: int| is_at(peers, key, i)
}

/// Where the neighbour `key` is.
pub open spec fn index_of(peers: Seq<PeerData>, key: PeerId) -> int {
    choose|i: int| is_at(peers, key, i)
}

/// Whether something sent to `key` goes anywhere.
pub open spec fn reachable(peers: Seq<PeerData>, key: PeerId) -> bool {
    has_peer(peers, key) && peers[index_of(peers, key)].links@.len() > 0
}

/// No two neighbours have the same key.
pub open spec fn distinct_peers(peers: Seq<PeerData>) -> bool {
    forall|i: int, j: int|
        #![trigger peers[i], peers[j]]
        0 <= i < j < peers.len() ==> peers[i].pub_key != peers[j].pub_key
}

/// The filters and the links of a neighbour are as they should be.
pub open spec fn peer_ok(p: PeerData) -> bool {
    &&& p.cuckoo@[0].wf()
    &&& p.cuckoo@[1].wf()
    &&& p.cuckoo@[2].wf()
    &&& p.links@.len() <= MAX_PARALLEL_LINKS_PER_PEER
}

pub open spec fn peers_ok(peers: Seq<PeerData>) -> bool {
    distinct_peers(peers) && forall|i: int| 0 <= i < peers.len() ==> peer_ok(#[trigger] peers[i])
}

/// The frames that go to all neighbours but `except`.
pub open spec fn flood(peers: Seq<PeerData>, except: Option<PeerId>, frame: Seq<u8>) -> Seq<Sent>
    decreases peers.len(),
{
    if peers.len() == 0 {
        Seq::empty()
    } else {
        let rest = flood(peers.drop_last(), except, frame);
        let p = peers.last();
        if p.links@.len() > 0 && Some(p.pub_key) != except {
            rest.push(Sent { to: p.pub_key, frame })
        } else {
            rest
        }
    }
}

/// The frame that goes to `to`, if that is a neighbour with a link.
pub open spec fn one(peers: Seq<PeerData>, to: PeerId, frame: Seq<u8>) -> Seq<Sent> {
    if reachable(peers, to) {
        seq![Sent { to, frame }]
    } else {
        Seq::empty()
    }
}

/// The neighbours once something has been heard from `from`.
pub open spec fn touched(peers: Seq<PeerData>, from: PeerId, now: u64) -> Seq<PeerData> {
    if has_peer(peers, from) {
        let i = index_of(peers, from);
        peers.update(i, PeerData { last_rx: now, ..peers[i] })
    } else {
        peers
    }
}

/// The neighbours without `key`.
pub open spec fn without(peers: Seq<PeerData>, key: PeerId) -> Seq<PeerData> {
    if has_peer(peers, key) {
        peers.remove(index_of(peers, key))
    } else {
        peers
    }
}

pub open spec fn distinct_ids(s: Seq<SeenLookup>) -> bool {
    forall|i: int, j: int| #![trigger s[i], s[j]] 0 <= i < j < s.len() ==> s[i].id != s[j].id
}

pub open spec fn distinct_coords(s: Seq<CoordEntry>) -> bool {
    forall|i: int, j: int| #![trigger s[i], s[j]] 0 <= i < j < s.len() ==> s[i].key != s[j].key
}

pub open spec fn distinct_origins(s: Seq<RemoteOnionKey>) -> bool {
    forall|i: int, j: int|
        #![trigger s[i], s[j]]
        0 <= i < j < s.len() ==> s[i].origin != s[j].origin
}

pub open spec fn distinct_probes(s: Seq<Probe>) -> bool {
    forall|i: int, j: int| #![trigger s[i], s[j]] 0 <= i < j < s.len() ==> s[i].id != s[j].id
}

pub open spec fn distinct_observations(s: Seq<Observation>) -> bool {
    forall|i: int, j: int|
        #![trigger s[i], s[j]]
        0 <= i < j < s.len() ==> s[i].observed != s[j].observed || s[i].observer != s[j].observer
}

pub open spec fn distinct_negatives(s: Seq<NegativeRoute>) -> bool {
    forall|i: int, j: int|
        #![trigger s[i], s[j]]
        0 <= i < j < s.len() ==> s[i].peer != s[j].peer || s[i].tag != s[j].tag
}

/// `s[i]` is the coordinate of `key`.
pub open spec fn coord_at(s: Seq<CoordEntry>, key: PeerId, i: int) -> bool {
    0 <= i < s.len() && s[i].key == key
}

/// `s[i]` is the onion key of `origin`.
pub open spec fn origin_at(s: Seq<RemoteOnionKey>, origin: PeerId, i: int) -> bool {
    0 <= i < s.len() && s[i].origin == origin
}

/// The coordinates of other nodes are within the bound.
pub open spec fn coords_bounded(s: Seq<CoordEntry>, own: PeerId) -> bool {
    s.len() <= MAX_COORD_TABLE_SIZE || (s.len() == MAX_COORD_TABLE_SIZE + 1 && exists|i: int|
        coord_at(s, own, i))
}

/// The onion keys of other nodes are within the bound.
pub open spec fn origins_bounded(s: Seq<RemoteOnionKey>, own: PeerId) -> bool {
    s.len() <= MAX_REMOTE_ONION_KEYS || (s.len() == MAX_REMOTE_ONION_KEYS + 1 && exists|i: int|
        origin_at(s, own, i))
}

/// The node is the root of a tree exactly where it has no parent in it.
pub open spec fn roots_ok(trees: Seq<TreeState>, own: PeerId) -> bool {
    forall|t: int|
        0 <= t < 3 ==> ((#[trigger] trees[t]).root == own <==> trees[t].parent is None)
}

impl RouterState {
    /// What every operation keeps: each table has one entry per key, the tables
    /// that others can fill stay within their bounds, and a root has no parent.
    pub open spec fn wf(&self) -> bool {
        &&& self.pub_key@ == ed25519_public_key(self.signing_key@)
        &&& peers_ok(self.peers@)
        &&& roots_ok(self.trees@, self.pub_key)
        &&& distinct_ids(self.pending_lookups@)
        &&& self.pending_lookups@.len() <= MAX_PENDING_LOOKUPS
        &&& distinct_coords(self.coord_table@)
        &&& coords_bounded(self.coord_table@, self.pub_key)
        &&& self.onion_keys.wf()
        &&& self.onion_seen@.no_duplicates()
        &&& self.onion_seen@.len() <= ONION_REPLAY_CACHE_SIZE
        &&& distinct_origins(self.remote_onion_keys@)
        &&& origins_bounded(self.remote_onion_keys@, self.pub_key)
        &&& distinct_probes(self.pending_probes@)
        &&& distinct_observations(self.reputation@)
        &&& self.reputation@.len() <= MAX_REPUTATION_OBSERVATIONS
        &&& distinct_negatives(self.path_negative_cache@)
        &&& self.path_negative_cache@.len() <= MAX_PATH_NEG_CACHE
    }

    /// The frames queued so far.
    pub open spec fn sent(&self) -> Seq<Sent> {
        sent_of(self.outbox@)
    }
}

/// A key is that of at most one neighbour.
pub proof fn lemma_index(peers: Seq<PeerData>, key: PeerId, i: int)
    requires
        distinct_peers(peers),
        is_at(peers, key, i),
    ensures
        has_peer(peers, key),
        index_of(peers, key) == i,
{
    let j = index_of(peers, key);
    assert(is_at(peers, key, j));
    if i < j {
        assert(peers[i].pub_key != peers[j].pub_key);
    } else if j < i {
        assert(peers[j].pub_key != peers[i].pub_key);
    }
}

/// Changing a neighbour in place, its key apart, moves no neighbour.
pub proof fn lemma_update_keeps_keys(peers: Seq<PeerData>, i: int, p: PeerData)
    requires
        distinct_peers(peers),
        0 <= i < peers.len(),
        p.pub_key == peers[i].pub_key,
    ensures
        distinct_peers(peers.update(i, p)),
        forall|k: PeerId| has_peer(peers.update(i, p), k) == #[trigger] has_peer(peers, k),
        forall|k: PeerId| #[trigger]
            has_peer(peers, k) ==> index_of(peers.update(i, p), k) == index_of(peers, k),
{
    let q = peers.update(i, p);
    assert forall|a: int, b: int|
        #![trigger q[a], q[b]]
        0 <= a < b < q.len() implies q[a].pub_key != q[b].pub_key by {
        assert(peers[a].pub_key != peers[b].pub_key);
    }
    assert forall|k: PeerId| has_peer(q, k) == #[trigger] has_peer(peers, k) by {
        if has_peer(peers, k) {
            let j = index_of(peers, k);
            assert(is_at(q, k, j));
        }
        if has_peer(q, k) {
            let j = index_of(q, k);
            assert(is_at(peers, k, j));
        }
    }
    assert forall|k: PeerId| #[trigger] has_peer(peers, k) implies index_of(q, k) == index_of(
        peers,
        k,
    ) by {
        let j = index_of(peers, k);
        assert(is_at(q, k, j));
        lemma_index(q, k, j);
    }
}

impl RouterState {
    /// Where the neighbour `key` is.
    pub fn find_peer(&self, key: &PeerId) -> (r: Option<usize>)
        requires
            distinct_peers(self.peers@),
        ensures
            match r {
                Some(i) => has_peer(self.peers@, *key) && index_of(self.peers@, *key) == i && i
                    < self.peers@.len() && self.peers@[i as int].pub_key == *key,
                None => !has_peer(self.peers@, *key),
            },
    {
        let mut i: usize = 0;
        while i < self.peers.len()
            invariant
                i <= self.peers@.len(),
                distinct_peers(self.peers@),
                forall|j: int| 0 <= j < i ==> (#[trigger] self.peers@[j]).pub_key != *key,
            decreases self.peers@.len() - i,
        {
            if key_eq(&self.peers[i].pub_key, key) {
                proof {
                    assert(is_at(self.peers@, *key, i as int));
                    lemma_index(self.peers@, *key, i as int);
                }
                return Some(i);
            }
            i = i + 1;
        }
        proof {
            if has_peer(self.peers@, *key) {
                let j = index_of(self.peers@, *key);
                assert(is_at(self.peers@, *key, j));
            }
        }
        None
    }

    /// Queue a frame for a neighbour. A frame for a node that is no neighbour,
    /// or one without links, is dropped.
    pub fn send_to_peer(&mut self, to: &PeerId, frame: Vec<u8>)
        requires
            old(self).wf(),
        ensures
            final(self).wf(),
            *final(self) == (RouterState { outbox: final(self).outbox, ..*old(self) }),
            final(self).sent() == old(self).sent() + one(old(self).peers@, *to, frame@),
    {
        match self.find_peer(to) {
            Some(i) => {
                if self.peers[i].links.len() > 0 {
                    let ghost bytes = frame@;
                    self.outbox.push(Outgoing { to: *to, frame });
                    assert(self.sent() =~= old(self).sent() + one(old(self).peers@, *to, bytes));
                } else {
                    assert(self.sent() =~= old(self).sent() + one(old(self).peers@, *to, frame@));
                }
            },
            None => {
                assert(self.sent() =~= old(self).sent() + one(old(self).peers@, *to, frame@));
            },
        }
    }

    /// Queue a frame for all neighbours but `except`.
    pub fn send_to_all(&mut self, except: Option<PeerId>, frame: &Vec<u8>)
        requires
            old(self).wf(),
        ensures
            final(self).wf(),
            *final(self) == (RouterState { outbox: final(self).outbox, ..*old(self) }),
            final(self).sent() == old(self).sent() + flood(old(self).peers@, except, frame@),
    {
        let mut i: usize = 0;
        assert(self.peers@.take(0) =~= Seq::<PeerData>::empty());
        assert(self.sent() =~= old(self).sent() + flood(self.peers@.take(0), except, frame@));
        while i < self.peers.len()
            invariant
                self.wf(),
                *self == (RouterState { outbox: self.outbox, ..*old(self) }),
                i <= self.peers@.len(),
                self.sent() == old(self).sent() + flood(
                    self.peers@.take(i as int),
                    except,
                    frame@,
                ),
            decreases self.peers@.len() - i,
        {
            let skip: bool = match &except {
                Some(k) => key_eq(&self.peers[i].pub_key, k),
                None => false,
            };
            let ghost before = self.sent();
            let ghost p = self.peers@[i as int];
            proof {
                assert(self.peers@.take(i + 1).drop_last() =~= self.peers@.take(i as int));
                assert(self.peers@.take(i + 1).last() == p);
            }
            if !skip && self.peers[i].links.len() > 0 {
                let copy: Vec<u8> = copy_bytes(frame);
                let to: PeerId = self.peers[i].pub_key;
                self.outbox.push(Outgoing { to, frame: copy });
                assert(self.sent() =~= before.push(Sent { to: p.pub_key, frame: frame@ }));
            }
            assert(self.sent() =~= old(self).sent() + flood(
                self.peers@.take(i + 1),
                except,
                frame@,
            ));
            i = i + 1;
        }
        assert(self.peers@.take(i as int) =~= self.peers@);
    }

    /// Note that something has been heard from `from`.
    pub fn touch(&mut self, from: &PeerId, now: u64)
        requires
            old(self).wf(),
        ensures
            final(self).wf(),
            *final(self) == (RouterState { peers: final(self).peers, ..*old(self) }),
            final(self).peers@ == touched(old(self).peers@, *from, now),
    {
        if let Some(i) = self.find_peer(from) {
            self.peers[i].last_rx = now;
            proof {
                let p = self.peers@[i as int];
                assert(self.peers@ =~= old(self).peers@.update(i as int, p));
                lemma_update_keeps_keys(old(self).peers@, i as int, p);
            }
        }
    }

    /// Queue a change of a neighbour's loss rate or trust.
    pub fn push_event(&mut self, peer: PeerId, kind: EventKind)
        requires
            old(self).wf(),
        ensures
            final(self).wf(),
            *final(self) == (RouterState { events: final(self).events, ..*old(self) }),
            final(self).events@ == old(self).events@.push(Event { peer, kind }),
    {
        self.events.push(Event { peer, kind });
    }
}

/// A copy of some bytes.
pub fn copy_bytes(v: &Vec<u8>) -> (r: Vec<u8>)
    ensures
        r@ == v@,
{
    let mut r: Vec<u8> = Vec::new();
    crate::bytes::append(&mut r, v.as_slice());
    assert(r@ =~= v@);
    r
}

/// Hearing from a neighbour changes nothing but the time it was last heard.
pub proof fn touched_keeps_peers(peers: Seq<PeerData>, from: PeerId, now: u64)
    requires
        peers_ok(peers),
    ensures
        peers_ok(touched(peers, from, now)),
        touched(peers, from, now).len() == peers.len(),
        forall|i: int|
            0 <= i < peers.len() ==> (#[trigger] touched(peers, from, now)[i]) == (PeerData {
                last_rx: touched(peers, from, now)[i].last_rx,
                ..peers[i]
            }),
        forall|k: PeerId|
            has_peer(touched(peers, from, now), k) == #[trigger] has_peer(peers, k),
{
    if has_peer(peers, from) {
        let i = index_of(peers, from);
        assert(is_at(peers, from, i));
        lemma_update_keeps_keys(peers, i, PeerData { last_rx: now, ..peers[i] });
    }
}

/// No frame goes to a node that is no neighbour, and a flood leaves out the
/// neighbour that the flooded message came from.
pub proof fn flood_reaches_each_neighbour_once(
    peers: Seq<PeerData>,
    except: Option<PeerId>,
    frame: Seq<u8>,
    key: PeerId,
)
    requires
        distinct_peers(peers),
    ensures
        flood(peers, except, frame).contains(Sent { to: key, frame }) <==> Some(key) != except
            && reachable(peers, key),
        forall|i: int|
            0 <= i < flood(peers, except, frame).len() ==> (#[trigger] flood(
                peers,
                except,
                frame,
            )[i]).frame == frame,
        forall|i: int, j: int|
            #![trigger flood(peers, except, frame)[i], flood(peers, except, frame)[j]]
            0 <= i < j < flood(peers, except, frame).len() ==> flood(peers, except, frame)[i].to
                != flood(peers, except, frame)[j].to,
    decreases peers.len(),
{
    let f = flood(peers, except, frame);
    if peers.len() > 0 {
        let t = peers.drop_last();
        let p = peers.last();
        let rest = flood(t, except, frame);
        assert forall|a: int, b: int|
            #![trigger t[a], t[b]]
            0 <= a < b < t.len() implies t[a].pub_key != t[b].pub_key by {
            assert(peers[a].pub_key != peers[b].pub_key);
        }
        flood_reaches_each_neighbour_once(t, except, frame, key);
        if has_peer(t, key) {
            let i = index_of(t, key);
            assert(is_at(t, key, i));
            assert(is_at(peers, key, i));
            lemma_index(peers, key, i);
            assert(peers[i].pub_key != peers[peers.len() - 1].pub_key);
        }
        if key == p.pub_key {
            assert(is_at(peers, key, peers.len() - 1));
            lemma_index(peers, key, peers.len() - 1);
        }
        if has_peer(peers, key) && key != p.pub_key {
            let i = index_of(peers, key);
            assert(is_at(peers, key, i));
            assert(is_at(t, key, i));
        }
        if p.links@.len() > 0 && Some(p.pub_key) != except {
            assert(f =~= rest.push(Sent { to: p.pub_key, frame }));
            assert(f[rest.len() as int] == Sent { to: p.pub_key, frame });
            if rest.contains(Sent { to: key, frame }) {
                let i = choose|i: int| 0 <= i < rest.len() && rest[i] == Sent { to: key, frame };
                assert(f[i] == rest[i]);
            }
            flood_reaches_each_neighbour_once(t, except, frame, p.pub_key);
            assert(!has_peer(t, p.pub_key)) by {
                if has_peer(t, p.pub_key) {
                    let i = index_of(t, p.pub_key);
                    assert(is_at(t, p.pub_key, i));
                    assert(peers[i].pub_key != peers[peers.len() - 1].pub_key);
                }
            }
            assert forall|i: int, j: int|
                #![trigger f[i], f[j]]
                0 <= i < j < f.len() implies f[i].to != f[j].to by {
                if j == rest.len() {
                    assert(f[i] == rest[i]);
                    if rest[i].to == p.pub_key {
                        assert(rest[i] == Sent { to: p.pub_key, frame });
                        assert(rest.contains(Sent { to: p.pub_key, frame }));
                    }
                } else {
                    assert(rest[i].to != rest[j].to);
                }
            }
        }
    } else {
        if has_peer(peers, key) {
            assert(is_at(peers, key, index_of(peers, key)));
        }
    }
}

/// A neighbour with a link, other than `except`, has its place in a flood.
pub proof fn lemma_flooded(
    peers: Seq<PeerData>,
    except: Option<PeerId>,
    frame: Seq<u8>,
    j: int,
) -> (k: int)
    requires
        distinct_peers(peers),
        0 <= j < peers.len(),
        peers[j].links@.len() > 0,
        Some(peers[j].pub_key) != except,
    ensures
        0 <= k < flood(peers, except, frame).len(),
        flood(peers, except, frame)[k] == (Sent { to: peers[j].pub_key, frame }),
{
    let key = peers[j].pub_key;
    assert(is_at(peers, key, j));
    lemma_index(peers, key, j);
    flood_reaches_each_neighbour_once(peers, except, frame, key);
    let f = flood(peers, except, frame);
    choose|k: int| 0 <= k < f.len() && f[k] == (Sent { to: key, frame })
}

/// What is sent to a neighbour with a link is one frame for that neighbour;
/// nothing is sent to a node that is no neighbour.
pub proof fn frames_go_to_neighbours(peers: Seq<PeerData>, to: PeerId, frame: Seq<u8>)
    requires
        distinct_peers(peers),
    ensures
        (exists|i: int|
            0 <= i < peers.len() && (#[trigger] peers[i]).pub_key == to && peers[i].links@.len() > 0)
            ==> one(peers, to, frame) == seq![Sent { to, frame }],
        (forall|i: int|
            0 <= i < peers.len() && (#[trigger] peers[i]).pub_key == to ==> peers[i].links@.len()
                == 0) ==> one(peers, to, frame).len() == 0,
{
    if exists|i: int|
        0 <= i < peers.len() && (#[trigger] peers[i]).pub_key == to && peers[i].links@.len() > 0 {
        let i = choose|i: int|
            0 <= i < peers.len() && (#[trigger] peers[i]).pub_key == to && peers[i].links@.len() > 0;
        assert(is_at(peers, to, i));
        lemma_index(peers, to, i);
    }
    if has_peer(peers, to) {
        assert(is_at(peers, to, index_of(peers, to)));
    }
}

/// Hearing from a neighbour sets the time that it was last heard, and changes
/// neither anything else of it nor another neighbour.
pub proof fn hearing_is_noted(peers: Seq<PeerData>, from: PeerId, now: u64, i: int)
    requires
        distinct_peers(peers),
        0 <= i < peers.len(),
    ensures
        touched(peers, from, now).len() == peers.len(),
        touched(peers, from, now)[i] == (if peers[i].pub_key == from {
            PeerData { last_rx: now, ..peers[i] }
        } else {
            peers[i]
        }),
{
    if peers[i].pub_key == from {
        assert(is_at(peers, from, i));
        lemma_index(peers, from, i);
    } else if has_peer(peers, from) {
        assert(is_at(peers, from, index_of(peers, from)));
    }
}

/// What a flood adds to the frames queued goes to each neighbour once at most.
pub proof fn lemma_flood_is_even(
    before: Seq<Sent>,
    peers: Seq<PeerData>,
    except: Option<PeerId>,
    frame: Seq<u8>,
    after: Seq<Sent>,
)
    requires
        distinct_peers(peers),
        after == before + flood(peers, except, frame),
    ensures
        forall|a: int, b: int|
            #![trigger after[a], after[b]]
            before.len() <= a < b < after.len() ==> after[a].to != after[b].to,
        forall|a: int|
            before.len() <= a < after.len() ==> (#[trigger] after[a]).frame == frame && Some(
                after[a].to,
            ) != except,
{
    let out = flood(peers, except, frame);
    let n = before.len() as int;
    assert forall|a: int, b: int|
        #![trigger after[a], after[b]]
        n <= a < b < after.len() implies after[a].to != after[b].to by {
        flood_reaches_each_neighbour_once(peers, except, frame, after[a].to);
        assert(out[a - n].to != out[b - n].to);
    }
    assert forall|a: int| n <= a < after.len() implies (#[trigger] after[a]).frame == frame && Some(
        after[a].to,
    ) != except by {
        let key = after[a].to;
        flood_reaches_each_neighbour_once(peers, except, frame, key);
        assert(out[a - n].frame == frame);
        assert(out.contains(Sent { to: key, frame })) by {
            assert(out[a - n] == (Sent { to: key, frame }));
        }
    }
}

} // verus!
