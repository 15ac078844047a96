//! Neighbours: how they come and go, their links, and which of them are
//! landmarks.

use crate::bytes::key_eq;
use crate::crypto::{ed25519_public, ed25519_secret_as_x25519};
use crate::cuckoo::CuckooFilter;
use crate::onion::OnionKeyChain;
use crate::router::{
    elapsed, time_since, PeerId, MAX_COORD_TABLE_SIZE, MAX_PARALLEL_LINKS_PER_PEER, PEER_TIMEOUT,
};
use crate::state::{
    coord_at, coords_bounded, distinct_coords, distinct_peers, has_peer, index_of, is_at,
    lemma_index, lemma_update_keeps_keys, peer_ok, peers_ok, without, CoordEntry, PeerData,
    RouterState, TreeState,
};
use crate::tables::{lemma_filter_ends, lemma_filter_members, lemma_filter_step};
use std::collections::VecDeque;
use vstd::multiset::Multiset;
use vstd::prelude::*;

verus! {

broadcast use vstd::array::group_array_axioms;

/// Lag assumed of a new neighbour, in microseconds.
pub const INITIAL_LAG: u64 = 100000;

/// A neighbour is near the root of some tree.
pub open spec fn shallow(p: PeerData) -> bool {
    exists|t: int|
        0 <= t < 3 && (#[trigger] p.trees@[t]) is Some && p.trees@[t]->0.depth <= 1
}

/// The neighbours near the root of some tree, `skip` apart.
pub open spec fn shallow_keys(peers: Seq<PeerData>, skip: Option<PeerId>) -> Seq<PeerId>
    decreases peers.len(),
{
    if peers.len() == 0 {
        Seq::empty()
    } else {
        let rest = shallow_keys(peers.drop_last(), skip);
        let p = peers.last();
        if shallow(p) && Some(p.pub_key) != skip {
            rest.push(p.pub_key)
        } else {
            rest
        }
    }
}

/// The landmarks: the node itself, where it has more than two neighbours, and
/// the neighbours near the root of some tree.
pub open spec fn landmarks_of(own: PeerId, peers: Seq<PeerData>) -> Seq<PeerId> {
    if peers.len() > 2 {
        seq![own] + shallow_keys(peers, Some(own))
    } else {
        shallow_keys(peers, None)
    }
}

/// The tree states once `gone` is no neighbour any more: where it was the
/// parent, the node is its own root.
pub open spec fn reset_parents(
    trees: Seq<TreeState>,
    own: PeerId,
    gone: PeerId,
) -> Seq<TreeState> {
    Seq::new(
        trees.len(),
        |t: int|
            if trees[t].parent == Some(gone) {
                TreeState { parent: None, root: own, parent_cost: 0, ..trees[t] }
            } else {
                trees[t]
            },
    )
}

/// The coordinates without that of `key`.
pub open spec fn coords_without(s: Seq<CoordEntry>, key: PeerId) -> Seq<CoordEntry>
    decreases s.len(),
{
    if s.len() == 0 {
        s
    } else if s.last().key == key {
        coords_without(s.drop_last(), key)
    } else {
        coords_without(s.drop_last(), key).push(s.last())
    }
}

/// What became of a frame that was offered to a link.
#[derive(Clone, Copy, Debug, PartialEq, Eq, Structural)]
pub enum LinkTry {
    Taken,
    Full,
    Closed,
}

/// The links in the order in which they are offered a frame: in turn, from the
/// one that the number `next` points at.
pub open spec fn send_links(links: Seq<u64>, next: int) -> Seq<u64> {
    let n = links.len() as int;
    Seq::new(links.len(), |k: int| links[(next % n + k) % n])
}

/// The link was found to be closed.
pub open spec fn found_closed(tries: Seq<(u64, LinkTry)>, link: u64) -> bool {
    exists|j: int| 0 <= j < tries.len() && #[trigger] tries[j] == (link, LinkTry::Closed)
}

/// A neighbour that has just connected.
pub open spec fn fresh_peer(p: PeerData, key: PeerId, link: u64, priority: u8, now: u64) -> bool {
    &&& p.pub_key == key
    &&& p.lag_us == INITIAL_LAG && p.jitter_us == 0 && p.cost == INITIAL_LAG && p.tag_cost
        == INITIAL_LAG
    &&& p.last_rx == now && p.last_tx == now && p.connected_at == now
    &&& forall|t: int|
        0 <= t < 3 ==> (#[trigger] p.cuckoo@[t])@ == Multiset::<crate::cuckoo::Item>::empty()
            && p.cuckoo@[t].wf()
    &&& forall|t: int| 0 <= t < 3 ==> #[trigger] p.cuckoo_gen@[t] == 0
    &&& forall|t: int| 0 <= t < 3 ==> (#[trigger] p.trees@[t]) is None
    &&& p.links@ == seq![link]
    &&& p.next_tx == 0
    &&& p.priority == priority
    &&& p.rx_bytes == 0 && p.tx_bytes == 0
    &&& p.pending_sig_req is None && p.sig_req_seq == 0
    &&& p.onion_eph_pub is None
}

/// The state of a node that has just started. Its first onion key is left to
/// chance.
pub open spec fn fresh_state(
    s: RouterState,
    signing_key: [u8; 32],
    origin: [u8; 16],
    now_ms: u64,
) -> bool {
    &&& s.signing_key == signing_key
    &&& s.peers@.len() == 0 && s.landmarks@.len() == 0 && s.pending_lookups@.len() == 0
    &&& forall|t: int|
        0 <= t < 3 ==> (#[trigger] s.trees@[t]) == (TreeState {
            parent: None,
            root: s.pub_key,
            root_seq: 0,
            parent_cost: 0,
        })
    &&& s.coord_table@ == seq![CoordEntry { key: s.pub_key, coord: origin }]
    &&& s.own_coord == origin && s.own_depth == 0 && s.tick == 0
    &&& forall|t: int| 0 <= t < 3 ==> #[trigger] s.cuckoo_generation@[t] == 0
    &&& s.onion_keys@.previous is None && s.onion_keys@.identity == Some(
        ed25519_secret_as_x25519(signing_key@),
    ) && s.onion_keys@.rotated_at == now_ms
    &&& s.onion_seen@.len() == 0 && s.remote_onion_keys@.len() == 0
    &&& s.own_onion_key_seq == 0 && s.own_reputation_seq == 0
    &&& s.pending_probes@.len() == 0 && s.reputation@.len() == 0
    &&& s.path_negative_cache@.len() == 0 && s.outbox@.len() == 0 && s.events@.len() == 0
}

/// What dropping the neighbours that have been silent for too long makes of
/// `before`.
pub open spec fn peers_expired(
    before: RouterState,
    now: u64,
    after: RouterState,
) -> bool {
    &&& after == (RouterState {
        peers: after.peers,
        coord_table: after.coord_table,
        landmarks: after.landmarks,
        trees: after.trees,
        ..before
    })
    &&& after.peers@ == alive(before.peers@, now)
    &&& forall|e: CoordEntry|
        after.coord_table@.contains(e) <==> before.coord_table@.contains(e)
            && !timed_out(before.peers@, e.key, now)
    &&& forall|t: int|
        0 <= t < 3 ==> (#[trigger] after.trees@[t]) == (if before.trees@[t].parent is Some && timed_out(
            before.peers@,
            before.trees@[t].parent->0,
            now,
        ) {
            TreeState {
                parent: None,
                root: before.pub_key,
                parent_cost: 0,
                ..before.trees@[t]
            }
        } else {
            before.trees@[t]
        })
    &&& after.landmarks@ == if after.peers@.len() == before.peers@.len() {
        before.landmarks@
    } else {
        landmarks_of(before.pub_key, after.peers@)
    }
}

/// What a link to the node `key` that comes up makes of `before`.
pub open spec fn peer_added(
    before: RouterState,
    key: PeerId,
    link: u64,
    priority: u8,
    now: u64,
    after: RouterState,
) -> bool {
    if has_peer(before.peers@, key) {
        let i = index_of(before.peers@, key);
        let p = before.peers@[i];
        if p.links@.len() >= MAX_PARALLEL_LINKS_PER_PEER {
            after == before
        } else {
            &&& after == (RouterState { peers: after.peers, ..before })
            &&& after.peers@ == before.peers@.update(
                i,
                PeerData { links: after.peers@[i].links, ..p },
            )
            &&& after.peers@[i].links@ == p.links@.push(link)
        }
    } else {
        &&& after == (RouterState { peers: after.peers, landmarks: after.landmarks, ..before })
        &&& after.peers@.drop_last() == before.peers@
        &&& after.peers@.len() == before.peers@.len() + 1
        &&& fresh_peer(after.peers@.last(), key, link, priority, now)
        &&& after.landmarks@ == landmarks_of(before.pub_key, after.peers@)
    }
}

/// What the loss of the neighbour `key` makes of `before`.
pub open spec fn peer_removed(before: RouterState, key: PeerId, after: RouterState) -> bool {
    &&& after == (RouterState {
        peers: after.peers,
        coord_table: after.coord_table,
        landmarks: after.landmarks,
        trees: after.trees,
        ..before
    })
    &&& after.peers@ == without(before.peers@, key)
    &&& after.coord_table@ == coords_without(before.coord_table@, key)
    &&& after.landmarks@ == landmarks_of(before.pub_key, after.peers@)
    &&& after.trees@ == reset_parents(before.trees@, before.pub_key, key)
}

/// The links `r` are those to try for the next frame to `to`, and `after` is
/// `before` with the turn passed on.
pub open spec fn order_given(
    before: RouterState,
    to: PeerId,
    r: Seq<u64>,
    after: RouterState,
) -> bool {
    &&& after == (RouterState { peers: after.peers, ..before })
    &&& if has_peer(before.peers@, to) && before.peers@[index_of(before.peers@, to)].links@.len()
        > 0 {
        let i = index_of(before.peers@, to);
        let p = before.peers@[i];
        &&& after.peers@ == before.peers@.update(
            i,
            PeerData { next_tx: p.next_tx.wrapping_add(1), ..p },
        )
        &&& r == send_links(p.links@, p.next_tx as int)
    } else {
        after.peers@ == before.peers@ && r.len() == 0
    }
}

/// What offering a frame of `len` bytes to the links of `to` makes of `before`.
pub open spec fn frame_noted(
    before: RouterState,
    to: PeerId,
    tries: Seq<(u64, LinkTry)>,
    len: u64,
    now: u64,
    sent: bool,
    after: RouterState,
) -> bool {
    &&& after == (RouterState { peers: after.peers, ..before })
    &&& sent == (exists|j: int| 0 <= j < tries.len() && (#[trigger] tries[j]).1 is Taken)
    &&& if has_peer(before.peers@, to) {
        let i = index_of(before.peers@, to);
        let p = before.peers@[i];
        if sent {
            after.peers@ == before.peers@.update(
                i,
                PeerData { tx_bytes: p.tx_bytes.wrapping_add(len), last_tx: now, ..p },
            )
        } else {
            &&& after.peers@ == before.peers@.update(
                i,
                PeerData { links: after.peers@[i].links, ..p },
            )
            &&& after.peers@[i].links@ == p.links@.filter(|l: u64| !found_closed(tries, l))
        }
    } else {
        after.peers@ == before.peers@
    }
}

impl RouterState {
    /// The state of a node without neighbours, whose identity is `signing_key`
    /// and whose coordinate is `origin`.
    pub fn new(signing_key: [u8; 32], origin: [u8; 16], now_ms: u64) -> (s: RouterState)
        ensures
            s.wf(),
            fresh_state(s, signing_key, origin, now_ms),
    {
        let pub_key: PeerId = ed25519_public(&signing_key);
        let onion_keys: OnionKeyChain = OnionKeyChain::with_identity_fallback(&signing_key, now_ms);
        let tree: TreeState = TreeState { parent: None, root: pub_key, root_seq: 0, parent_cost: 0 };
        let mut coord_table: Vec<CoordEntry> = Vec::new();
        coord_table.push(CoordEntry { key: pub_key, coord: origin });
        let s = RouterState {
            signing_key,
            pub_key,
            peers: Vec::new(),
            trees: [tree, tree, tree],
            landmarks: Vec::new(),
            pending_lookups: Vec::new(),
            coord_table,
            own_coord: origin,
            own_depth: 0,
            tick: 0,
            cuckoo_generation: [0u64, 0u64, 0u64],
            onion_keys,
            onion_seen: VecDeque::new(),
            remote_onion_keys: Vec::new(),
            own_onion_key_seq: 0,
            pending_probes: Vec::new(),
            reputation: Vec::new(),
            own_reputation_seq: 0,
            path_negative_cache: Vec::new(),
            outbox: Vec::new(),
            events: Vec::new(),
        };
        assert(s.coord_table@ =~= seq![CoordEntry { key: s.pub_key, coord: origin }]);
        s
    }

    /// Find out again which nodes are landmarks.
    pub fn update_landmarks(&mut self)
        requires
            old(self).wf(),
        ensures
            final(self).wf(),
            *final(self) == (RouterState { landmarks: final(self).landmarks, ..*old(self) }),
            final(self).landmarks@ == landmarks_of(old(self).pub_key, old(self).peers@),
    {
        let mut marks: Vec<PeerId> = Vec::new();
        let many: bool = self.peers.len() > 2;
        if many {
            marks.push(self.pub_key);
        }
        let ghost skip: Option<PeerId> = if many {
            Some(self.pub_key)
        } else {
            None
        };
        let ghost head = marks@;
        let mut i: usize = 0;
        assert(self.peers@.take(0) =~= Seq::<PeerData>::empty());
        assert(marks@ =~= head + shallow_keys(self.peers@.take(0), skip));
        while i < self.peers.len()
            invariant
                i <= self.peers@.len(),
                skip == if many {
                    Some(self.pub_key)
                } else {
                    None
                },
                marks@ == head + shallow_keys(self.peers@.take(i as int), skip),
            decreases self.peers@.len() - i,
        {
            let ghost before = marks@;
            let near: bool = is_shallow(&self.peers[i]);
            let own: bool = many && key_eq(&self.peers[i].pub_key, &self.pub_key);
            proof {
                assert(self.peers@.take(i + 1).drop_last() =~= self.peers@.take(i as int));
                assert(self.peers@.take(i + 1).last() == self.peers@[i as int]);
            }
            if near && !own {
                marks.push(self.peers[i].pub_key);
            }
            assert(marks@ =~= head + shallow_keys(self.peers@.take(i + 1), skip));
            i = i + 1;
        }
        assert(self.peers@.take(i as int) =~= self.peers@);
        assert(marks@ =~= landmarks_of(self.pub_key, self.peers@));
        self.landmarks = marks;
    }

    /// A link to the node `pub_key` is up. A node that is a neighbour already
    /// gets one more link, as long as it has not too many.
    pub fn add_peer(&mut self, pub_key: PeerId, link: u64, priority: u8, now: u64)
        requires
            old(self).wf(),
        ensures
            final(self).wf(),
            peer_added(*old(self), pub_key, link, priority, now, *final(self)),
    {
        match self.find_peer(&pub_key) {
            Some(i) => {
                if self.peers[i].links.len() >= MAX_PARALLEL_LINKS_PER_PEER {
                    return ;
                }
                self.peers[i].links.push(link);
                proof {
                    let p = self.peers@[i as int];
                    assert(self.peers@ =~= old(self).peers@.update(i as int, p));
                    lemma_update_keeps_keys(old(self).peers@, i as int, p);
                }
            },
            None => {
                let mut links: Vec<u64> = Vec::new();
                links.push(link);
                let p = PeerData {
                    pub_key,
                    lag_us: INITIAL_LAG,
                    jitter_us: 0,
                    cost: INITIAL_LAG,
                    tag_cost: INITIAL_LAG,
                    last_rx: now,
                    last_tx: now,
                    cuckoo: [CuckooFilter::new(), CuckooFilter::new(), CuckooFilter::new()],
                    cuckoo_gen: [0u64, 0u64, 0u64],
                    trees: [None, None, None],
                    links,
                    next_tx: 0,
                    priority,
                    rx_bytes: 0,
                    tx_bytes: 0,
                    connected_at: now,
                    pending_sig_req: None,
                    sig_req_seq: 0,
                    onion_eph_pub: None,
                };
                assert(p.links@ =~= seq![link]);
                assert(fresh_peer(p, pub_key, link, priority, now));
                let ghost before = self.peers@;
                self.peers.push(p);
                proof {
                    lemma_push_peer(before, p);
                    assert(self.peers@.drop_last() =~= before);
                }
                self.update_landmarks();
            },
        }
    }

    /// The node `pub_key` is no neighbour any more.
    pub fn remove_peer(&mut self, pub_key: &PeerId)
        requires
            old(self).wf(),
        ensures
            final(self).wf(),
            peer_removed(*old(self), *pub_key, *final(self)),
    {
        if let Some(i) = self.find_peer(pub_key) {
            let ghost before = self.peers@;
            let gone = self.peers.remove(i);
            proof {
                lemma_remove_peer(before, i as int);
            }
        }
        self.forget_coord(pub_key);
        self.update_landmarks();
        let mut t: usize = 0;
        let ghost trees = self.trees@;
        while t < 3
            invariant
                self.wf(),
                t <= 3,
                *self == (RouterState {
                    peers: self.peers,
                    coord_table: self.coord_table,
                    landmarks: self.landmarks,
                    trees: self.trees,
                    ..*old(self)
                }),
                self.peers@ == without(old(self).peers@, *pub_key),
                self.coord_table@ == coords_without(old(self).coord_table@, *pub_key),
                self.landmarks@ == landmarks_of(old(self).pub_key, self.peers@),
                trees == old(self).trees@,
                forall|u: int|
                    0 <= u < t ==> (#[trigger] self.trees@[u]) == reset_parents(
                        trees,
                        old(self).pub_key,
                        *pub_key,
                    )[u],
                forall|u: int| t <= u < 3 ==> (#[trigger] self.trees@[u]) == trees[u],
            decreases 3 - t,
        {
            let here: TreeState = self.trees[t];
            let lost: bool = match &here.parent {
                Some(p) => key_eq(p, pub_key),
                None => false,
            };
            if lost {
                let own: PeerId = self.pub_key;
                self.trees[t] = TreeState {
                    parent: None,
                    root: own,
                    root_seq: here.root_seq,
                    parent_cost: 0,
                };
            }
            t = t + 1;
        }
        assert(self.trees@ =~= reset_parents(trees, old(self).pub_key, *pub_key));
    }

    /// Drop the coordinate of `key`.
    fn forget_coord(&mut self, key: &PeerId)
        requires
            old(self).wf(),
        ensures
            final(self).wf(),
            *final(self) == (RouterState { coord_table: final(self).coord_table, ..*old(self) }),
            final(self).coord_table@ == coords_without(old(self).coord_table@, *key),
    {
        let mut kept: Vec<CoordEntry> = Vec::new();
        let mut i: usize = 0;
        assert(self.coord_table@.take(0) =~= Seq::<CoordEntry>::empty());
        while i < self.coord_table.len()
            invariant
                i <= self.coord_table@.len(),
                kept@ == coords_without(self.coord_table@.take(i as int), *key),
            decreases self.coord_table@.len() - i,
        {
            let e: CoordEntry = self.coord_table[i];
            proof {
                assert(self.coord_table@.take(i + 1).drop_last() =~= self.coord_table@.take(
                    i as int,
                ));
            }
            if !key_eq(&e.key, key) {
                kept.push(e);
            }
            i = i + 1;
        }
        assert(self.coord_table@.take(i as int) =~= self.coord_table@);
        proof {
            lemma_coords_without(self.coord_table@, *key);
            lemma_coords_without_bounded(self.coord_table@, *key, self.pub_key);
        }
        self.coord_table = kept;
    }

    /// Drop the neighbours that have been silent for too long.
    pub fn expire_peers(&mut self, now: u64)
        requires
            old(self).wf(),
        ensures
            final(self).wf(),
            peers_expired(*old(self), now, *final(self)),
    {
        let mut i: usize = 0;
        let ghost all = self.peers@;
        let ghost n = all.len() as int;
        let ghost mut seen: int = 0;
        proof {
            assert(all.take(0) =~= Seq::<PeerData>::empty());
            assert(alive(all.take(0), now) + all.skip(0) =~= all);
        }
        while i < self.peers.len()
            invariant
                self.wf(),
                all == old(self).peers@,
                distinct_peers(all),
                n == all.len(),
                0 <= seen <= n,
                i <= self.peers@.len(),
                self.peers@.len() - i == n - seen,
                *self == (RouterState {
                    peers: self.peers,
                    coord_table: self.coord_table,
                    landmarks: self.landmarks,
                    trees: self.trees,
                    ..*old(self)
                }),
                self.peers@ == alive(all.take(seen), now) + all.skip(seen),
                i == alive(all.take(seen), now).len(),
                forall|e: CoordEntry|
                    self.coord_table@.contains(e) <==> old(self).coord_table@.contains(e)
                        && !timed_out(all.take(seen), e.key, now),
                forall|t: int|
                    0 <= t < 3 ==> (#[trigger] self.trees@[t]) == (if old(
                        self,
                    ).trees@[t].parent is Some && timed_out(
                        all.take(seen),
                        old(self).trees@[t].parent->0,
                        now,
                    ) {
                        TreeState {
                            parent: None,
                            root: old(self).pub_key,
                            parent_cost: 0,
                            ..old(self).trees@[t]
                        }
                    } else {
                        old(self).trees@[t]
                    }),
                self.peers@.len() <= n,
                self.landmarks@ == if self.peers@.len() == n {
                    old(self).landmarks@
                } else {
                    landmarks_of(old(self).pub_key, self.peers@)
                },
            decreases n - seen,
        {
            let ghost p = all[seen];
            proof {
                assert(self.peers@[i as int] == p);
                assert(all.take(seen + 1).drop_last() =~= all.take(seen));
                assert(all.take(seen + 1).last() == p);
                lemma_timed_out_step(all, seen, now);
            }
            if time_since(now, self.peers[i].last_rx) > PEER_TIMEOUT {
                let key: PeerId = self.peers[i].pub_key;
                let ghost before = self.peers@;
                let ghost coords = self.coord_table@;
                proof {
                    assert(is_at(before, key, i as int));
                    lemma_index(before, key, i as int);
                }
                self.remove_peer(&key);
                proof {
                    assert(self.peers@ =~= alive(all.take(seen + 1), now) + all.skip(seen + 1));
                    assert forall|e: CoordEntry|
                        self.coord_table@.contains(e) <==> old(self).coord_table@.contains(e)
                            && !timed_out(all.take(seen + 1), e.key, now) by {
                        lemma_coords_without_contains(coords, key, e);
                    }
                }
            } else {
                proof {
                    assert(self.peers@ =~= alive(all.take(seen + 1), now) + all.skip(seen + 1));
                }
                i = i + 1;
            }
            proof {
                seen = seen + 1;
            }
        }
        proof {
            assert(all.take(seen) =~= all);
            assert(all.skip(seen) =~= Seq::<PeerData>::empty());
            assert(self.peers@ =~= alive(all, now));
        }
    }

    /// The links to try for the next frame to `to`, in order: all of them,
    /// starting one further than the last time.
    pub fn send_order(&mut self, to: &PeerId) -> (r: Vec<u64>)
        requires
            old(self).wf(),
        ensures
            final(self).wf(),
            order_given(*old(self), *to, r@, *final(self)),
    {
        let mut order: Vec<u64> = Vec::new();
        if let Some(i) = self.find_peer(to) {
            let n: usize = self.peers[i].links.len();
            if n == 0 {
                return order;
            }
            let start: usize = self.peers[i].next_tx % n;
            let mut k: usize = 0;
            while k < n
                invariant
                    k <= n,
                    0 < n <= MAX_PARALLEL_LINKS_PER_PEER,
                    i < self.peers@.len(),
                    n == self.peers@[i as int].links@.len(),
                    start == self.peers@[i as int].next_tx as int % n as int,
                    start < n,
                    order@.len() == k,
                    forall|j: int|
                        0 <= j < k ==> #[trigger] order@[j] == self.peers@[i as int].links@[(start
                            + j) % n as int],
                decreases n - k,
            {
                let link: u64 = self.peers[i].links[(start + k) % n];
                order.push(link);
                k = k + 1;
            }
            let ghost p = self.peers@[i as int];
            let next: usize = self.peers[i].next_tx.wrapping_add(1);
            self.peers[i].next_tx = next;
            proof {
                let q = self.peers@[i as int];
                assert(self.peers@ =~= old(self).peers@.update(i as int, q));
                lemma_update_keeps_keys(old(self).peers@, i as int, q);
                assert(order@ =~= send_links(p.links@, p.next_tx as int));
            }
        }
        order
    }

    /// A frame of `len` bytes for `to` has been offered to its links. Where one
    /// took it, the frame counts as sent; where none did, the links that were
    /// closed are given up.
    pub fn frame_tried(
        &mut self,
        to: &PeerId,
        tries: &Vec<(u64, LinkTry)>,
        len: u64,
        now: u64,
    ) -> (sent: bool)
        requires
            old(self).wf(),
        ensures
            final(self).wf(),
            frame_noted(*old(self), *to, tries@, len, now, sent, *final(self)),
    {
        let mut sent: bool = false;
        let mut j: usize = 0;
        while j < tries.len()
            invariant
                j <= tries@.len(),
                sent == (exists|k: int| 0 <= k < j && (#[trigger] tries@[k]).1 is Taken),
            decreases tries@.len() - j,
        {
            if tries[j].1 == LinkTry::Taken {
                assert(tries@[j as int].1 is Taken);
                sent = true;
            }
            j = j + 1;
        }
        if let Some(i) = self.find_peer(to) {
            if sent {
                let total: u64 = self.peers[i].tx_bytes.wrapping_add(len);
                self.peers[i].tx_bytes = total;
                self.peers[i].last_tx = now;
            } else {
                let kept: Vec<u64> = open_links(&self.peers[i].links, tries);
                self.peers[i].links = kept;
            }
            proof {
                let q = self.peers@[i as int];
                assert(self.peers@ =~= old(self).peers@.update(i as int, q));
                lemma_update_keeps_keys(old(self).peers@, i as int, q);
            }
        }
        sent
    }
}

fn is_found_closed(tries: &Vec<(u64, LinkTry)>, link: u64) -> (r: bool)
    ensures
        r == found_closed(tries@, link),
{
    let mut j: usize = 0;
    while j < tries.len()
        invariant
            j <= tries@.len(),
            forall|k: int| 0 <= k < j ==> #[trigger] tries@[k] != (link, LinkTry::Closed),
        decreases tries@.len() - j,
    {
        if tries[j].0 == link && tries[j].1 == LinkTry::Closed {
            assert(tries@[j as int] == (link, LinkTry::Closed));
            return true;
        }
        j = j + 1;
    }
    false
}

fn open_links(links: &Vec<u64>, tries: &Vec<(u64, LinkTry)>) -> (kept: Vec<u64>)
    ensures
        kept@ == links@.filter(|l: u64| !found_closed(tries@, l)),
        kept@.len() <= links@.len(),
{
    let mut kept: Vec<u64> = Vec::new();
    let mut k: usize = 0;
    let ghost keep = |l: u64| !found_closed(tries@, l);
    proof {
        lemma_filter_ends(links@, keep);
    }
    while k < links.len()
        invariant
            k <= links@.len(),
            keep == (|l: u64| !found_closed(tries@, l)),
            kept@ == links@.take(k as int).filter(keep),
            kept@.len() <= k,
        decreases links@.len() - k,
    {
        let l: u64 = links[k];
        proof {
            lemma_filter_step(links@, keep, k as int);
        }
        if !is_found_closed(tries, l) {
            kept.push(l);
        }
        k = k + 1;
    }
    kept
}

/// The neighbours that have not been silent for too long.
pub open spec fn alive(peers: Seq<PeerData>, now: u64) -> Seq<PeerData>
    decreases peers.len(),
{
    if peers.len() == 0 {
        peers
    } else if elapsed(now, peers.last().last_rx) > PEER_TIMEOUT {
        alive(peers.drop_last(), now)
    } else {
        alive(peers.drop_last(), now).push(peers.last())
    }
}

/// `key` is a neighbour that has been silent for too long.
pub open spec fn timed_out(peers: Seq<PeerData>, key: PeerId, now: u64) -> bool {
    exists|i: int| #[trigger] is_at(peers, key, i) && elapsed(now, peers[i].last_rx) > PEER_TIMEOUT
}

proof fn lemma_timed_out_step(all: Seq<PeerData>, seen: int, now: u64)
    requires
        distinct_peers(all),
        0 <= seen < all.len(),
    ensures
        forall|k: PeerId| #[trigger]
            timed_out(all.take(seen + 1), k, now) <==> timed_out(all.take(seen), k, now) || (k
                == all[seen].pub_key && elapsed(now, all[seen].last_rx) > PEER_TIMEOUT),
        forall|k: PeerId| #[trigger]
            timed_out(all.take(seen), k, now) ==> k != all[seen].pub_key,
{
    let a = all.take(seen);
    let b = all.take(seen + 1);
    assert forall|k: PeerId| #[trigger]
        timed_out(b, k, now) <==> timed_out(a, k, now) || (k == all[seen].pub_key && elapsed(
            now,
            all[seen].last_rx,
        ) > PEER_TIMEOUT) by {
        if timed_out(b, k, now) {
            let i = choose|i: int| #[trigger]
                is_at(b, k, i) && elapsed(now, b[i].last_rx) > PEER_TIMEOUT;
            if i < seen {
                assert(is_at(a, k, i));
            }
        }
        if timed_out(a, k, now) {
            let i = choose|i: int| #[trigger]
                is_at(a, k, i) && elapsed(now, a[i].last_rx) > PEER_TIMEOUT;
            assert(is_at(b, k, i));
        }
        if k == all[seen].pub_key && elapsed(now, all[seen].last_rx) > PEER_TIMEOUT {
            assert(is_at(b, k, seen));
        }
    }
    assert forall|k: PeerId| #[trigger] timed_out(a, k, now) implies k != all[seen].pub_key by {
        let i = choose|i: int| #[trigger]
            is_at(a, k, i) && elapsed(now, a[i].last_rx) > PEER_TIMEOUT;
        assert(all[i].pub_key != all[seen].pub_key);
    }
}

proof fn lemma_push_peer(peers: Seq<PeerData>, p: PeerData)
    requires
        peers_ok(peers),
        !has_peer(peers, p.pub_key),
        peer_ok(p),
    ensures
        peers_ok(peers.push(p)),
{
    let q = peers.push(p);
    assert forall|a: int, b: int|
        #![trigger q[a], q[b]]
        0 <= a < b < q.len() implies q[a].pub_key != q[b].pub_key by {
        if b < peers.len() {
            assert(peers[a].pub_key != peers[b].pub_key);
        } else if q[a].pub_key == p.pub_key {
            assert(is_at(peers, p.pub_key, a));
        }
    }
    assert forall|i: int| 0 <= i < q.len() implies peer_ok(#[trigger] q[i]) by {
        if i < peers.len() {
            assert(peer_ok(peers[i]));
        }
    }
}

proof fn lemma_remove_peer(peers: Seq<PeerData>, k: int)
    requires
        peers_ok(peers),
        0 <= k < peers.len(),
    ensures
        peers_ok(peers.remove(k)),
{
    let q = peers.remove(k);
    assert forall|a: int, b: int|
        #![trigger q[a], q[b]]
        0 <= a < b < q.len() implies q[a].pub_key != q[b].pub_key by {
        let x = if a < k {
            a
        } else {
            a + 1
        };
        let y = if b < k {
            b
        } else {
            b + 1
        };
        assert(peers[x].pub_key != peers[y].pub_key);
    }
    assert forall|i: int| 0 <= i < q.len() implies peer_ok(#[trigger] q[i]) by {
        let x = if i < k {
            i
        } else {
            i + 1
        };
        assert(peer_ok(peers[x]));
    }
}

proof fn lemma_coords_without(s: Seq<CoordEntry>, key: PeerId)
    requires
        distinct_coords(s),
    ensures
        distinct_coords(coords_without(s, key)),
        coords_without(s, key).len() <= s.len(),
        forall|i: int|
            0 <= i < coords_without(s, key).len() ==> s.contains(
                #[trigger] coords_without(s, key)[i],
            ),
    decreases s.len(),
{
    if s.len() > 0 {
        let t = s.drop_last();
        assert forall|a: int, b: int|
            #![trigger t[a], t[b]]
            0 <= a < b < t.len() implies t[a].key != t[b].key by {
            assert(s[a].key != s[b].key);
        }
        lemma_coords_without(t, key);
        let w = coords_without(t, key);
        let r = coords_without(s, key);
        assert forall|i: int| 0 <= i < r.len() implies s.contains(#[trigger] r[i]) by {
            if i < w.len() {
                assert(t.contains(w[i]));
                let j = choose|j: int| 0 <= j < t.len() && t[j] == w[i];
                assert(s[j] == r[i]);
            } else {
                assert(s[s.len() - 1] == r[i]);
            }
        }
        assert forall|a: int, b: int|
            #![trigger r[a], r[b]]
            0 <= a < b < r.len() implies r[a].key != r[b].key by {
            if b < w.len() {
                assert(w[a].key != w[b].key);
            } else {
                assert(t.contains(w[a]));
                let j = choose|j: int| 0 <= j < t.len() && t[j] == w[a];
                assert(s[j].key != s[s.len() - 1].key);
            }
        }
    }
}

proof fn lemma_coords_without_contains(s: Seq<CoordEntry>, key: PeerId, e: CoordEntry)
    ensures
        coords_without(s, key).contains(e) <==> s.contains(e) && e.key != key,
    decreases s.len(),
{
    if s.len() > 0 {
        let t = s.drop_last();
        let w = coords_without(t, key);
        let r = coords_without(s, key);
        lemma_coords_without_contains(t, key, e);
        if r.contains(e) {
            let i = choose|i: int| 0 <= i < r.len() && r[i] == e;
            if i < w.len() {
                assert(w[i] == e);
                let j = choose|j: int| 0 <= j < t.len() && t[j] == e;
                assert(s[j] == e);
            } else {
                assert(s[s.len() - 1] == e);
            }
        }
        if s.contains(e) && e.key != key {
            let i = choose|i: int| 0 <= i < s.len() && s[i] == e;
            if i < t.len() {
                assert(t[i] == e);
                let j = choose|j: int| 0 <= j < w.len() && w[j] == e;
                assert(r[j] == e);
            } else {
                assert(r[w.len() as int] == e);
            }
        }
    }
}

proof fn lemma_coords_without_bounded(s: Seq<CoordEntry>, key: PeerId, own: PeerId)
    requires
        distinct_coords(s),
        coords_bounded(s, own),
    ensures
        coords_bounded(coords_without(s, key), own),
{
    let w = coords_without(s, key);
    lemma_coords_without(s, key);
    if s.len() > MAX_COORD_TABLE_SIZE {
        let i = choose|i: int| coord_at(s, own, i);
        assert(s.contains(s[i]));
        if key == own {
            lemma_coords_without_shrinks(s, key, i);
        } else {
            lemma_coords_without_contains(s, key, s[i]);
            let j = choose|j: int| 0 <= j < w.len() && w[j] == s[i];
            assert(coord_at(w, own, j));
        }
    }
}

proof fn lemma_coords_without_shrinks(s: Seq<CoordEntry>, key: PeerId, i: int)
    requires
        coord_at(s, key, i),
    ensures
        coords_without(s, key).len() < s.len(),
    decreases s.len(),
{
    let t = s.drop_last();
    lemma_coords_without_len(t, key);
    if i < t.len() {
        lemma_coords_without_shrinks(t, key, i);
    }
}

proof fn lemma_coords_without_len(s: Seq<CoordEntry>, key: PeerId)
    ensures
        coords_without(s, key).len() <= s.len(),
    decreases s.len(),
{
    if s.len() > 0 {
        lemma_coords_without_len(s.drop_last(), key);
    }
}

/// Whether a neighbour is near the root of some tree.
fn is_shallow(p: &PeerData) -> (r: bool)
    ensures
        r == shallow(*p),
{
    let mut t: usize = 0;
    while t < 3
        invariant
            t <= 3,
            forall|u: int|
                0 <= u < t ==> !((#[trigger] p.trees@[u]) is Some && p.trees@[u]->0.depth <= 1),
        decreases 3 - t,
    {
        if let Some(a) = p.trees[t] {
            if a.depth <= 1 {
                assert(p.trees@[t as int] is Some);
                return true;
            }
        }
        t = t + 1;
    }
    false
}

/// No node is a landmark twice.
pub proof fn landmarks_are_distinct(own: PeerId, peers: Seq<PeerData>)
    requires
        distinct_peers(peers),
    ensures
        landmarks_of(own, peers).no_duplicates(),
        landmarks_of(own, peers).contains(own) <== peers.len() > 2,
{
    let m = landmarks_of(own, peers);
    if peers.len() > 2 {
        lemma_shallow_keys(peers, Some(own));
        assert(m[0] == own);
        let s = shallow_keys(peers, Some(own));
        assert forall|i: int, j: int| 0 <= i < m.len() && 0 <= j < m.len() && i != j implies m[i]
            != m[j] by {
            if i == 0 {
                assert(m[j] == s[j - 1]);
            } else if j == 0 {
                assert(m[i] == s[i - 1]);
            } else {
                assert(m[i] == s[i - 1] && m[j] == s[j - 1]);
            }
        }
    } else {
        lemma_shallow_keys(peers, None);
    }
}

proof fn lemma_shallow_keys(peers: Seq<PeerData>, skip: Option<PeerId>)
    requires
        distinct_peers(peers),
    ensures
        shallow_keys(peers, skip).no_duplicates(),
        forall|i: int|
            0 <= i < shallow_keys(peers, skip).len() ==> has_peer(
                peers,
                #[trigger] shallow_keys(peers, skip)[i],
            ) && Some(shallow_keys(peers, skip)[i]) != skip,
    decreases peers.len(),
{
    if peers.len() > 0 {
        let t = peers.drop_last();
        assert forall|a: int, b: int|
            #![trigger t[a], t[b]]
            0 <= a < b < t.len() implies t[a].pub_key != t[b].pub_key by {
            assert(peers[a].pub_key != peers[b].pub_key);
        }
        lemma_shallow_keys(t, skip);
        let s = shallow_keys(t, skip);
        let r = shallow_keys(peers, skip);
        let last = peers[peers.len() - 1];
        assert forall|i: int| 0 <= i < r.len() implies has_peer(peers, #[trigger] r[i]) && Some(
            r[i],
        ) != skip by {
            if i < s.len() {
                assert(has_peer(t, s[i]));
                let j = index_of(t, s[i]);
                assert(is_at(t, s[i], j));
                assert(is_at(peers, r[i], j));
            } else {
                assert(is_at(peers, r[i], peers.len() - 1));
            }
        }
        assert forall|i: int, j: int| 0 <= i < r.len() && 0 <= j < r.len() && i != j implies r[i]
            != r[j] by {
            let lo = if i < j {
                i
            } else {
                j
            };
            let hi = if i < j {
                j
            } else {
                i
            };
            if hi >= s.len() {
                assert(has_peer(t, s[lo]));
                let k = index_of(t, s[lo]);
                assert(is_at(t, s[lo], k));
                assert(peers[k].pub_key != peers[peers.len() - 1].pub_key);
            } else {
                assert(s[lo] != s[hi]);
            }
        }
    }
}

/// A frame is offered to every link, before it is given up.
pub proof fn every_link_is_tried(links: Seq<u64>, next: int, link: u64)
    requires
        0 <= next,
    ensures
        send_links(links, next).contains(link) <==> links.contains(link),
{
    let n = links.len() as int;
    let order = send_links(links, next);
    if links.contains(link) {
        let i = choose|i: int| 0 <= i < n && links[i] == link;
        vstd::arithmetic::div_mod::lemma_mod_bound(next, n);
        let start = next % n;
        if i >= start {
            vstd::arithmetic::div_mod::lemma_small_mod(i as nat, n as nat);
            assert(order[i - start] == link);
        } else {
            vstd::arithmetic::div_mod::lemma_fundamental_div_mod_converse(n + i, n, 1, i);
            assert(order[n + i - start] == link);
        }
    }
    if order.contains(link) {
        let k = choose|k: int| 0 <= k < n && order[k] == link;
        vstd::arithmetic::div_mod::lemma_mod_bound(next % n + k, n);
        assert(links[(next % n + k) % n] == link);
    }
}

/// The links take turns: of as many frames in a row as there are links, each
/// link is the first choice for one.
pub proof fn links_take_turns(links: Seq<u64>, next: int, i: int) -> (k: int)
    requires
        0 <= next,
        0 <= i < links.len(),
    ensures
        0 <= k < links.len(),
        send_links(links, next + k)[0] == links[i],
{
    let n = links.len() as int;
    vstd::arithmetic::div_mod::lemma_mod_bound(next, n);
    vstd::arithmetic::div_mod::lemma_fundamental_div_mod(next, n);
    let start = next % n;
    let q = next / n;
    let k = if i >= start {
        i - start
    } else {
        n + i - start
    };
    if i >= start {
        assert(next + k == q * n + i) by (nonlinear_arith)
            requires
                next == n * q + start,
                k == i - start,
        ;
        vstd::arithmetic::div_mod::lemma_fundamental_div_mod_converse(next + k, n, q, i);
    } else {
        assert(next + k == (q + 1) * n + i) by (nonlinear_arith)
            requires
                next == n * q + start,
                k == n + i - start,
        ;
        vstd::arithmetic::div_mod::lemma_fundamental_div_mod_converse(next + k, n, q + 1, i);
    }
    vstd::arithmetic::div_mod::lemma_small_mod(i as nat, n as nat);
    k
}

/// A node that connects for the first time is the last of the neighbours, with one
/// link, a lag of a tenth of a second, nothing announced, and no claim to reach
/// anything. The other neighbours stay as they are.
pub proof fn new_neighbours_start_afresh(
    before: RouterState,
    key: PeerId,
    link: u64,
    priority: u8,
    now: u64,
    after: RouterState,
    tag: Seq<u8>,
)
    requires
        peer_added(before, key, link, priority, now, after),
        forall|i: int| 0 <= i < before.peers@.len() ==> (#[trigger] before.peers@[i]).pub_key != key,
    ensures
        ({
            let n = before.peers@.len() as int;
            let p = after.peers@[n];
            &&& after.peers@.len() == n + 1
            &&& forall|i: int| 0 <= i < n ==> (#[trigger] after.peers@[i]) == before.peers@[i]
            &&& p.pub_key == key && p.links@ == seq![link] && p.priority == priority
            &&& p.lag_us == 100_000 && p.cost == 100_000 && p.tag_cost == 100_000
            &&& p.jitter_us == 0 && p.rx_bytes == 0 && p.tx_bytes == 0
            &&& p.last_rx == now && p.last_tx == now && p.connected_at == now
            &&& p.pending_sig_req is None && p.onion_eph_pub is None
            &&& p.trees@[0] is None && p.trees@[1] is None && p.trees@[2] is None
            &&& !crate::lookup::claims(p, tag)
        }),
        after.trees == before.trees,
        after.outbox == before.outbox,
{
    if has_peer(before.peers@, key) {
        assert(is_at(before.peers@, key, index_of(before.peers@, key)));
    }
    let p = after.peers@.last();
    assert forall|i: int| 0 <= i < before.peers@.len() implies (#[trigger] after.peers@[i])
        == before.peers@[i] by {
        assert(after.peers@.drop_last()[i] == before.peers@[i]);
    }
    assert(p.cuckoo@[0]@.len() == 0 && p.cuckoo@[1]@.len() == 0 && p.cuckoo@[2]@.len() == 0);
    crate::lookup::a_claim_in_any_tree_counts(p, tag);
}

/// A neighbour that connects once more keeps all that is known of it, and gets the
/// link on top of those it has, up to eight.
pub proof fn neighbours_get_more_links(
    before: RouterState,
    i: int,
    link: u64,
    priority: u8,
    now: u64,
    after: RouterState,
)
    requires
        before.wf(),
        0 <= i < before.peers@.len(),
        peer_added(before, before.peers@[i].pub_key, link, priority, now, after),
    ensures
        before.peers@[i].links@.len() == 8 ==> after == before,
        before.peers@[i].links@.len() < 8 ==> {
            &&& after.peers@.len() == before.peers@.len()
            &&& after.peers@[i] == (PeerData { links: after.peers@[i].links, ..before.peers@[i] })
            &&& after.peers@[i].links@ == before.peers@[i].links@.push(link)
            &&& forall|j: int|
                0 <= j < before.peers@.len() && j != i ==> (#[trigger] after.peers@[j])
                    == before.peers@[j]
        },
{
    let key = before.peers@[i].pub_key;
    assert(is_at(before.peers@, key, i));
    lemma_index(before.peers@, key, i);
    assert(peer_ok(before.peers@[i]));
}

/// Where a neighbour is lost, all others stay as they are and none else goes. Its
/// coordinate is forgotten, and no other. Where it was the parent, the node is its
/// own root; where it was not, the tree stays as it is.
pub proof fn lost_neighbours_leave_nothing_behind(
    before: RouterState,
    key: PeerId,
    after: RouterState,
    p: PeerData,
    e: CoordEntry,
    t: int,
)
    requires
        before.wf(),
        peer_removed(before, key, after),
        0 <= t < 3,
    ensures
        after.peers@.contains(p) <==> before.peers@.contains(p) && p.pub_key != key,
        after.coord_table@.contains(e) <==> before.coord_table@.contains(e) && e.key != key,
        before.trees@[t].parent == Some(key) ==> after.trees@[t].parent is None
            && after.trees@[t].root == before.pub_key && after.trees@[t].parent_cost == 0,
        before.trees@[t].parent != Some(key) ==> after.trees@[t] == before.trees@[t],
        forall|u: int| 0 <= u < 3 ==> (#[trigger] after.trees@[u]).parent != Some(key),
{
    let peers = before.peers@;
    let rest = after.peers@;
    lemma_coords_without_contains(before.coord_table@, key, e);
    if has_peer(peers, key) {
        let k = index_of(peers, key);
        assert(is_at(peers, key, k));
        if rest.contains(p) {
            let i = choose|i: int| 0 <= i < rest.len() && rest[i] == p;
            let j = if i < k {
                i
            } else {
                i + 1
            };
            assert(peers[j] == p);
            if j < k {
                assert(peers[j].pub_key != peers[k].pub_key);
            } else {
                assert(peers[k].pub_key != peers[j].pub_key);
            }
        }
        if peers.contains(p) && p.pub_key != key {
            let i = choose|i: int| 0 <= i < peers.len() && peers[i] == p;
            let j = if i < k {
                i
            } else {
                i - 1
            };
            assert(rest[j] == p);
        }
    } else if peers.contains(p) && p.pub_key == key {
        let i = choose|i: int| 0 <= i < peers.len() && peers[i] == p;
        assert(is_at(peers, key, i));
    }
}

/// Exactly the neighbours are dropped of which nothing was heard for more than a
/// minute. Their coordinates are forgotten with them, and where one was the parent
/// in a tree the node is its own root there.
pub proof fn silent_neighbours_are_dropped(
    before: RouterState,
    now: u64,
    after: RouterState,
    i: int,
    e: CoordEntry,
    t: int,
)
    requires
        before.wf(),
        peers_expired(before, now, after),
        0 <= i < before.peers@.len(),
        0 <= t < 3,
    ensures
        after.peers@.contains(before.peers@[i]) <==> now <= before.peers@[i].last_rx + 60_000_000,
        forall|j: int| 0 <= j < after.peers@.len() ==> before.peers@.contains(
            #[trigger] after.peers@[j],
        ),
        e.key == before.peers@[i].pub_key ==> (after.coord_table@.contains(e)
            <==> before.coord_table@.contains(e) && now <= before.peers@[i].last_rx + 60_000_000),
        !has_peer(before.peers@, e.key) ==> (after.coord_table@.contains(e)
            <==> before.coord_table@.contains(e)),
        before.trees@[t].parent == Some(before.peers@[i].pub_key) && now
            > before.peers@[i].last_rx + 60_000_000 ==> after.trees@[t].parent is None
            && after.trees@[t].root == before.pub_key,
        before.trees@[t].parent == Some(before.peers@[i].pub_key) && now
            <= before.peers@[i].last_rx + 60_000_000 ==> after.trees@[t] == before.trees@[t],
        before.trees@[t].parent is None ==> after.trees@[t] == before.trees@[t],
{
    let peers = before.peers@;
    let key = peers[i].pub_key;
    lemma_alive_members(peers, now, i);
    assert(is_at(peers, key, i));
    lemma_index(peers, key, i);
    assert(timed_out(peers, key, now) <==> now > peers[i].last_rx + 60_000_000) by {
        if timed_out(peers, key, now) {
            let j = choose|j: int| #[trigger]
                is_at(peers, key, j) && elapsed(now, peers[j].last_rx) > PEER_TIMEOUT;
            lemma_index(peers, key, j);
        }
        if now > peers[i].last_rx + 60_000_000 {
            assert(is_at(peers, key, i) && elapsed(now, peers[i].last_rx) > PEER_TIMEOUT);
        }
    }
    if !has_peer(peers, e.key) && timed_out(peers, e.key, now) {
        let j = choose|j: int| #[trigger]
            is_at(peers, e.key, j) && elapsed(now, peers[j].last_rx) > PEER_TIMEOUT;
    }
}

proof fn lemma_alive_members(peers: Seq<PeerData>, now: u64, i: int)
    requires
        distinct_peers(peers),
        0 <= i < peers.len(),
    ensures
        alive(peers, now).contains(peers[i]) <==> now <= peers[i].last_rx + 60_000_000,
        forall|j: int| 0 <= j < alive(peers, now).len() ==> peers.contains(
            #[trigger] alive(peers, now)[j],
        ),
    decreases peers.len(),
{
    let t = peers.drop_last();
    let last = peers.last();
    let r = alive(peers, now);
    let w = alive(t, now);
    assert forall|a: int, b: int|
        #![trigger t[a], t[b]]
        0 <= a < b < t.len() implies t[a].pub_key != t[b].pub_key by {
        assert(peers[a].pub_key != peers[b].pub_key);
    }
    if t.len() > 0 {
        lemma_alive_members(t, now, if i < t.len() {
            i
        } else {
            0
        });
    }
    assert forall|j: int| 0 <= j < r.len() implies peers.contains(#[trigger] r[j]) by {
        if j < w.len() {
            assert(r[j] == w[j]);
            assert(t.contains(w[j]));
            let k = choose|k: int| 0 <= k < t.len() && t[k] == w[j];
            assert(peers[k] == r[j]);
        } else {
            assert(peers[peers.len() - 1] == r[j]);
        }
    }
    if i < t.len() {
        assert(t[i] == peers[i]);
        assert(peers[i].pub_key != peers[peers.len() - 1].pub_key);
        if w.contains(t[i]) {
            let k = choose|k: int| 0 <= k < w.len() && w[k] == t[i];
            assert(r[k] == peers[i]);
        }
        if r.contains(peers[i]) {
            let k = choose|k: int| 0 <= k < r.len() && r[k] == peers[i];
            assert(k < w.len());
            assert(w[k] == t[i]);
        }
    } else {
        if r.contains(last) && r.len() == w.len() {
            let k = choose|k: int| 0 <= k < r.len() && r[k] == last;
            assert(t.contains(w[k]));
            let j = choose|j: int| 0 <= j < t.len() && t[j] == w[k];
            assert(peers[j].pub_key != peers[peers.len() - 1].pub_key);
        }
        if elapsed(now, last.last_rx) <= PEER_TIMEOUT {
            assert(r[w.len() as int] == last);
        }
    }
}

/// The landmarks are the neighbours that announced, for some tree, to be the root
/// or right below it, and the node itself where it has three neighbours or more.
pub proof fn landmarks_are_near_the_roots(own: PeerId, peers: Seq<PeerData>, key: PeerId)
    requires
        distinct_peers(peers),
    ensures
        landmarks_of(own, peers).contains(key) <==> (key == own && peers.len() >= 3) || exists|i: int|
            0 <= i < peers.len() && (#[trigger] peers[i]).pub_key == key && ((peers[i].trees@[0]
                is Some && peers[i].trees@[0]->0.depth <= 1) || (peers[i].trees@[1] is Some
                && peers[i].trees@[1]->0.depth <= 1) || (peers[i].trees@[2] is Some
                && peers[i].trees@[2]->0.depth <= 1)),
{
    let m = landmarks_of(own, peers);
    let skip = if peers.len() > 2 {
        Some(own)
    } else {
        None
    };
    let keys = shallow_keys(peers, skip);
    lemma_shallow_members(peers, skip, key);
    if peers.len() > 2 {
        assert(m[0] == own);
        if keys.contains(key) {
            let k = choose|k: int| 0 <= k < keys.len() && keys[k] == key;
            assert(m[k + 1] == key);
        }
        if m.contains(key) && key != own {
            let k = choose|k: int| 0 <= k < m.len() && m[k] == key;
            assert(keys[k - 1] == key);
        }
    }
    assert forall|i: int| 0 <= i < peers.len() implies (shallow(#[trigger] peers[i]) <==> ((
    peers[i].trees@[0] is Some && peers[i].trees@[0]->0.depth <= 1) || (peers[i].trees@[1] is Some
        && peers[i].trees@[1]->0.depth <= 1) || (peers[i].trees@[2] is Some
        && peers[i].trees@[2]->0.depth <= 1))) by {}
}

proof fn lemma_shallow_members(peers: Seq<PeerData>, skip: Option<PeerId>, key: PeerId)
    ensures
        shallow_keys(peers, skip).contains(key) <==> Some(key) != skip && exists|i: int|
            0 <= i < peers.len() && (#[trigger] peers[i]).pub_key == key && shallow(peers[i]),
    decreases peers.len(),
{
    let r = shallow_keys(peers, skip);
    if peers.len() > 0 {
        let t = peers.drop_last();
        let w = shallow_keys(t, skip);
        let n = peers.len() - 1;
        lemma_shallow_members(t, skip, key);
        if r.contains(key) {
            let k = choose|k: int| 0 <= k < r.len() && r[k] == key;
            if k < w.len() {
                assert(w[k] == key);
                let i = choose|i: int|
                    0 <= i < t.len() && (#[trigger] t[i]).pub_key == key && shallow(t[i]);
                assert(peers[i].pub_key == key);
            } else {
                assert(peers[n].pub_key == key);
            }
        }
        if Some(key) != skip && exists|i: int|
            0 <= i < peers.len() && (#[trigger] peers[i]).pub_key == key && shallow(peers[i]) {
            let i = choose|i: int|
                0 <= i < peers.len() && (#[trigger] peers[i]).pub_key == key && shallow(peers[i]);
            if i < n {
                assert(t[i].pub_key == key);
                let k = choose|k: int| 0 <= k < w.len() && w[k] == key;
                assert(r[k] == key);
            } else {
                assert(r[w.len() as int] == key);
            }
        }
    }
}

/// A frame that some link took counts, with its length and its time, for the
/// neighbour that it was for. A frame that no link took does not count; then the
/// links that were found closed are given up, and only those.
pub proof fn only_frames_that_were_taken_count(
    before: RouterState,
    i: int,
    tries: Seq<(u64, LinkTry)>,
    len: u64,
    now: u64,
    sent: bool,
    after: RouterState,
    link: u64,
)
    requires
        before.wf(),
        0 <= i < before.peers@.len(),
        frame_noted(before, before.peers@[i].pub_key, tries, len, now, sent, after),
    ensures
        sent <==> exists|j: int| 0 <= j < tries.len() && (#[trigger] tries[j]).1 == LinkTry::Taken,
        sent ==> after.peers@[i] == (PeerData {
            tx_bytes: before.peers@[i].tx_bytes.wrapping_add(len),
            last_tx: now,
            ..before.peers@[i]
        }),
        !sent ==> {
            &&& after.peers@[i] == (PeerData { links: after.peers@[i].links, ..before.peers@[i] })
            &&& after.peers@[i].links@.contains(link) <==> before.peers@[i].links@.contains(link)
                && !tries.contains((link, LinkTry::Closed))
        },
        forall|j: int|
            0 <= j < before.peers@.len() && j != i ==> (#[trigger] after.peers@[j])
                == before.peers@[j],
{
    let key = before.peers@[i].pub_key;
    assert(is_at(before.peers@, key, i));
    lemma_index(before.peers@, key, i);
    let keep = |l: u64| !found_closed(tries, l);
    lemma_filter_members(before.peers@[i].links@, keep, link);
    if tries.contains((link, LinkTry::Closed)) {
        let j = choose|j: int| 0 <= j < tries.len() && tries[j] == (link, LinkTry::Closed);
        assert(tries[j] == (link, LinkTry::Closed));
    }
    if found_closed(tries, link) {
        let j = choose|j: int| 0 <= j < tries.len() && #[trigger] tries[j] == (
            link,
            LinkTry::Closed,
        );
        assert(tries.contains((link, LinkTry::Closed)));
    }
}

/// For each frame all links of a neighbour are tried, each once, and from one frame
/// to the next the first one tried is the next one in the row.
pub proof fn the_turn_is_passed_on(
    before: RouterState,
    i: int,
    r: Seq<u64>,
    after: RouterState,
    q: Seq<u64>,
    last: RouterState,
    k: int,
)
    requires
        before.wf(),
        0 <= i < before.peers@.len(),
        before.peers@[i].links@.len() > 0,
        before.peers@[i].next_tx < usize::MAX,
        order_given(before, before.peers@[i].pub_key, r, after),
        after.wf(),
        order_given(after, before.peers@[i].pub_key, q, last),
        0 <= k < before.peers@[i].links@.len(),
    ensures
        r.len() == before.peers@[i].links@.len(),
        q.len() == r.len(),
        r[0] == before.peers@[i].links@[before.peers@[i].next_tx as int
            % before.peers@[i].links@.len() as int],
        q[k] == r[(k + 1) % r.len() as int],
{
    let p = before.peers@[i];
    let n = p.links@.len() as int;
    let a = p.next_tx as int;
    assert(is_at(before.peers@, p.pub_key, i));
    lemma_index(before.peers@, p.pub_key, i);
    assert(is_at(after.peers@, p.pub_key, i));
    lemma_index(after.peers@, p.pub_key, i);
    assert(r == send_links(p.links@, a));
    assert(q == send_links(p.links@, a + 1));
    vstd::arithmetic::div_mod::lemma_mod_bound(a, n);
    vstd::arithmetic::div_mod::lemma_mod_bound(k + 1, n);
    vstd::arithmetic::div_mod::lemma_mod_twice(a, n);
    vstd::arithmetic::div_mod::lemma_add_mod_noop(a + 1, k, n);
    vstd::arithmetic::div_mod::lemma_add_mod_noop(a, k + 1, n);
    vstd::arithmetic::div_mod::lemma_small_mod(k as nat, n as nat);
    assert(((a + 1) % n + k) % n == (a + 1 + k) % n);
    assert((a % n + (k + 1) % n) % n == (a + (k + 1)) % n);
    assert(0 <= k + 1);
}

} // verus!
