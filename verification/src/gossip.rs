//! What neighbours tell each other: filters of what they reach, and
//! coordinates.

use crate::bytes::key_eq;
use crate::crypto::{ed25519_sign, ed25519_signature, ed25519_valid, ed25519_verify};
use crate::cuckoo::{
    add_keeps_all_where_there_is_room, add_reaches, decoded, empty_slots_use_nothing, encoded,
    items_of, key_item, merge_keeps_all_where_there_is_room, merge_reaches, used, CuckooFilter,
    Item, NUM_BUCKETS, NUM_SLOTS,
};
use crate::packet::{
    parse_coord_announce, parse_cuckoo_msg, routing_tag, tag_of, CoordAnnounce, CoordAnnounceView,
    CuckooMsg, CuckooMsgView, CUCKOO_FILTER, TYPE_COORD_ANNOUNCE,
};
use crate::router::{
    due, is_due, rotation_interval, rotation_ticks, PeerId, CUCKOO_GEN_TICKS, K,
    MAX_COORD_TABLE_SIZE,
};
use crate::state::{
    coord_at, coords_bounded, distinct_coords, flood, has_peer, index_of, lemma_update_keeps_keys,
    one, CoordEntry, Event, EventKind, PeerData, RouterState, Sent,
};
use crate::tables::lemma_remove;
use vstd::prelude::*;

verus! {

broadcast use {vstd::array::group_array_axioms, crate::cuckoo::slots_len};

/// `after` is `before` merged with the filters that the first `n` neighbours
/// sent for tree `t`, that of `parent` apart.
pub open spec fn merged_with_peers(
    before: Seq<u16>,
    peers: Seq<PeerData>,
    parent: Option<PeerId>,
    t: int,
    n: int,
    after: Seq<u16>,
) -> bool
    decreases n,
{
    if n <= 0 {
        after == before
    } else {
        exists|mid: Seq<u16>|
            merged_with_peers(before, peers, parent, t, n - 1, mid) && #[trigger] merged_with(
                mid,
                peers[n - 1],
                parent,
                t,
                after,
            )
    }
}

/// `after` is `before` merged with the filter that the neighbour `p` sent for
/// tree `t`, unless it is `parent`.
pub open spec fn merged_with(
    before: Seq<u16>,
    p: PeerData,
    parent: Option<PeerId>,
    t: int,
    after: Seq<u16>,
) -> bool {
    if Some(p.pub_key) == parent {
        after == before
    } else {
        merge_reaches(before, p.cuckoo@[t].slots(), NUM_SLOTS as int, after)
    }
}

/// `after` is `before` with the first `n` of `tags` added.
pub open spec fn added_tags(before: Seq<u16>, tags: Seq<[u8; 16]>, n: int, after: Seq<u16>) -> bool
    decreases n,
{
    if n <= 0 {
        after == before
    } else {
        exists|mid: Seq<u16>|
            added_tags(before, tags, n - 1, mid) && #[trigger] add_reaches(
                mid,
                tags[n - 1]@,
                after,
            )
    }
}

/// The slots of an empty filter.
pub open spec fn no_slots() -> Seq<u16> {
    Seq::new(NUM_SLOTS as nat, |k: int| 0u16)
}

/// `m` is what the node reaches in tree `t` other than through its parent: its
/// own tag, what its neighbours say they reach, and `tags`.
pub open spec fn downstream(s: RouterState, t: int, tags: Seq<[u8; 16]>, m: Seq<u16>) -> bool {
    exists|a: Seq<u16>, b: Seq<u16>| #[trigger]
        add_reaches(no_slots(), tag_of(s.pub_key@), a) && #[trigger] merged_with_peers(
            a,
            s.peers@,
            s.trees@[t].parent,
            t,
            s.peers@.len() as int,
            b,
        ) && added_tags(b, tags, tags.len() as int, m)
}

/// `f` is `m` together with what the parent in tree `t` says it reaches.
pub open spec fn with_upstream(s: RouterState, t: int, m: Seq<u16>, f: Seq<u16>) -> bool {
    match s.trees@[t].parent {
        Some(p) => if has_peer(s.peers@, p) {
            merge_reaches(
                m,
                s.peers@[index_of(s.peers@, p)].cuckoo@[t].slots(),
                NUM_SLOTS as int,
                f,
            )
        } else {
            f == m
        },
        None => f == m,
    }
}

/// The message that carries a filter.
pub open spec fn filter_frame(t: int, generation: u64, slots: Seq<u16>) -> Seq<u8> {
    seq![CUCKOO_FILTER] + (CuckooMsgView {
        tree_id: t as u8,
        generation,
        data: encoded(slots),
    }).wire()
}

/// The frames that carry the filters: what is reached without the parent goes
/// to the parent, everything goes to the others.
pub open spec fn filter_frames(
    s: RouterState,
    t: int,
    generation: u64,
    m: Seq<u16>,
    f: Seq<u16>,
) -> Seq<Sent> {
    (match s.trees@[t].parent {
        Some(p) => one(s.peers@, p, filter_frame(t, generation, m)),
        None => Seq::empty(),
    }) + flood(s.peers@, s.trees@[t].parent, filter_frame(t, generation, f))
}

/// The own generation of tree `t` at the current tick.
pub open spec fn next_generation(s: RouterState, t: int, accelerated: Option<u64>) -> u64 {
    if due(s.tick, rotation_ticks(accelerated, CUCKOO_GEN_TICKS)) {
        s.cuckoo_generation@[t].wrapping_add(1)
    } else {
        s.cuckoo_generation@[t]
    }
}

/// How the coordinate in an announcement compares with the one that follows
/// from the announced depth and the key of the sender.
#[derive(Clone, Copy, Debug, PartialEq, Eq, Structural)]
pub enum CoordCheck {
    NotFinite,
    Differs,
    Agrees,
}

/// The depth in a coordinate announcement is too far from the one that the
/// neighbour announced for the first tree.
pub open spec fn depth_disagrees(s: RouterState, from: PeerId, depth: u32) -> bool {
    has_peer(s.peers@, from) && match s.peers@[index_of(s.peers@, from)].trees@[0] {
        Some(a) => a.depth - depth > 2 || depth - a.depth > 2,
        None => false,
    }
}

/// `s[v]` is the first coordinate, and so the one not heard of for the longest
/// time, of a node that is neither a neighbour nor the node itself.
pub open spec fn coord_victim(s: RouterState, v: int) -> bool {
    &&& 0 <= v < s.coord_table@.len()
    &&& coord_expendable(s, v)
    &&& forall|j: int| 0 <= j < v ==> !#[trigger] coord_expendable(s, j)
}

pub open spec fn coord_expendable(s: RouterState, i: int) -> bool {
    !has_peer(s.peers@, s.coord_table@[i].key) && s.coord_table@[i].key != s.pub_key
}

/// Where the coordinate of `key` is.
pub open spec fn coord_index(s: Seq<CoordEntry>, key: PeerId) -> int {
    choose|i: int| coord_at(s, key, i)
}

/// The coordinate `e` behind all others, in place of another of the same node, if
/// there is one. The coordinates are thus in the order in which they were heard
/// of last.
pub open spec fn put_coord(s: Seq<CoordEntry>, e: CoordEntry) -> Seq<CoordEntry> {
    if exists|i: int| coord_at(s, e.key, i) {
        s.remove(coord_index(s, e.key)).push(e)
    } else {
        s.push(e)
    }
}

/// What learning the coordinate `e` makes of the coordinates of `s`. Where there
/// are too many, a new coordinate drives out the expendable one that has not
/// been heard of for the longest time; where there is none such, it is not kept.
pub open spec fn learned_coord(s: RouterState, e: CoordEntry) -> Seq<CoordEntry> {
    if (exists|i: int| coord_at(s.coord_table@, e.key, i)) || s.coord_table@.len()
        < MAX_COORD_TABLE_SIZE {
        put_coord(s.coord_table@, e)
    } else if exists|v: int| coord_victim(s, v) {
        s.coord_table@.remove(coord_victim_index(s)).push(e)
    } else {
        s.coord_table@
    }
}

/// Where the first expendable coordinate is.
pub open spec fn coord_victim_index(s: RouterState) -> int {
    choose|v: int| coord_victim(s, v)
}

/// The announcement of the own coordinate, not signed yet.
pub open spec fn unsigned_coord(s: RouterState) -> CoordAnnounceView {
    CoordAnnounceView {
        coord: s.own_coord@,
        tree_depth: s.own_depth,
        sig: Seq::new(64, |i: int| 0u8),
    }
}

/// The announcement of the own coordinate.
pub open spec fn own_coord_announce(s: RouterState) -> CoordAnnounceView {
    let u = unsigned_coord(s);
    CoordAnnounceView { sig: ed25519_signature(s.signing_key@, u.signed()), ..u }
}

proof fn lemma_coord_index(s: Seq<CoordEntry>, key: PeerId, i: int)
    requires
        distinct_coords(s),
        coord_at(s, key, i),
    ensures
        coord_index(s, key) == i,
{
    let j = coord_index(s, key);
    assert(coord_at(s, key, j));
    if i < j {
        assert(s[i].key != s[j].key);
    } else if j < i {
        assert(s[j].key != s[i].key);
    }
}

/// What sending the filters of tree `t` makes of `before`.
pub open spec fn filters_sent(
    before: RouterState,
    t: int,
    accelerated: Option<u64>,
    poison: Seq<[u8; 16]>,
    after: RouterState,
) -> bool {
    &&& after == (RouterState {
        cuckoo_generation: after.cuckoo_generation,
        outbox: after.outbox,
        ..before
    })
    &&& after.cuckoo_generation@ == before.cuckoo_generation@.update(
        t,
        next_generation(before, t, accelerated),
    )
    &&& exists|m: Seq<u16>, f: Seq<u16>| #[trigger]
        downstream(before, t, poison, m) && #[trigger] with_upstream(
            before,
            t,
            m,
            f,
        ) && after.sent() == before.sent() + filter_frames(
            before,
            t,
            next_generation(before, t, accelerated),
            m,
            f,
        )
}

/// What setting the own coordinate makes of `before`.
pub open spec fn coord_set(
    before: RouterState,
    coord: [u8; 16],
    after: RouterState,
) -> bool {
    &&& after == (RouterState {
        own_coord: coord,
        coord_table: after.coord_table,
        ..before
    })
    &&& after.coord_table@ == put_coord(
        before.coord_table@,
        CoordEntry { key: before.pub_key, coord },
    )
}

/// What announcing the own coordinate makes of `before`.
pub open spec fn coord_announced(
    before: RouterState,
    after: RouterState,
) -> bool {
    &&& after == (RouterState { outbox: after.outbox, ..before })
    &&& after.sent() == before.sent() + flood(
        before.peers@,
        None,
        seq![TYPE_COORD_ANNOUNCE] + own_coord_announce(before).wire(),
    )
    &&& own_coord_announce(before).wf()
    &&& ed25519_valid(
        before.pub_key@,
        own_coord_announce(before).signed(),
        own_coord_announce(before).sig,
    )
}

/// What a filter of a neighbour makes of `before`.
pub open spec fn filter_taken(
    before: RouterState,
    from: PeerId,
    msg: CuckooMsg,
    now: u64,
    after: RouterState,
) -> bool {
    &&& after == (RouterState { peers: after.peers, ..before })
    &&& if msg.tree_id < K && has_peer(before.peers@, from) {
        let i = index_of(before.peers@, from);
        let p = before.peers@[i];
        let q = after.peers@[i];
        let t = msg.tree_id as int;
        &&& after.peers@ == before.peers@.update(
            i,
            PeerData { last_rx: now, cuckoo: q.cuckoo, cuckoo_gen: q.cuckoo_gen, ..p },
        )
        &&& q.cuckoo@ == p.cuckoo@.update(t, q.cuckoo@[t])
        &&& q.cuckoo@[t].slots() == decoded(msg.data@)
        &&& q.cuckoo_gen@ == p.cuckoo_gen@.update(
            t,
            if msg.generation > p.cuckoo_gen@[t] {
                msg.generation
            } else {
                p.cuckoo_gen@[t]
            },
        )
    } else {
        after.peers@ == before.peers@
    }
}

/// What a coordinate that a neighbour announced makes of `before`.
pub open spec fn coord_taken(
    before: RouterState,
    from: PeerId,
    ann: CoordAnnounce,
    check: CoordCheck,
    after: RouterState,
) -> bool {
    &&& after == (RouterState {
        coord_table: after.coord_table,
        events: after.events,
        ..before
    })
    &&& if !ed25519_valid(from@, ann@.signed(), ann.sig@) || check == CoordCheck::NotFinite {
        after.coord_table@ == before.coord_table@ && after.events@ == before.events@
    } else if check == CoordCheck::Differs || depth_disagrees(
        before,
        from,
        ann.tree_depth,
    ) {
        &&& after.coord_table@ == before.coord_table@
        &&& after.events@ == if has_peer(before.peers@, from) {
            before.events@.push(Event { peer: from, kind: EventKind::TrustDown })
        } else {
            before.events@
        }
    } else {
        &&& after.events@ == before.events@
        &&& after.coord_table@ == learned_coord(
            before,
            CoordEntry { key: from, coord: ann.coord },
        )
    }
}

impl RouterState {
    /// A neighbour sent its filter for a tree. The filter replaces the last
    /// one; the generation only rises.
    pub fn handle_cuckoo(&mut self, from: PeerId, msg: CuckooMsg, now: u64)
        requires
            old(self).wf(),
        ensures
            final(self).wf(),
            filter_taken(*old(self), from, msg, now, *final(self)),
    {
        let t: usize = msg.tree_id as usize;
        if t >= K {
            return ;
        }
        if let Some(i) = self.find_peer(&from) {
            self.peers[i].last_rx = now;
            if msg.generation > self.peers[i].cuckoo_gen[t] {
                self.peers[i].cuckoo_gen[t] = msg.generation;
            }
            self.peers[i].cuckoo[t] = CuckooFilter::decode(&msg.data);
            proof {
                let p = old(self).peers@[i as int];
                let q = self.peers@[i as int];
                assert(self.peers@ =~= old(self).peers@.update(i as int, q));
                assert(q.cuckoo_gen@ =~= p.cuckoo_gen@.update(t as int, q.cuckoo_gen@[t as int]));
                lemma_update_keeps_keys(old(self).peers@, i as int, q);
            }
        }
    }

    /// Build the filter of what the node reaches in tree `tree_id` other than
    /// through its parent, with `tags` added.
    fn build_downstream(&self, tree_id: usize, tags: &Vec<[u8; 16]>) -> (f: CuckooFilter)
        requires
            self.wf(),
            tree_id < K,
        ensures
            f.wf(),
            downstream(*self, tree_id as int, tags@, f.slots()),
    {
        let ghost t = tree_id as int;
        let mut f: CuckooFilter = CuckooFilter::new();
        let my_tag: [u8; 16] = routing_tag(&self.pub_key);
        let kept = f.add(my_tag.as_slice());
        let ghost a = f.slots();
        assert(no_slots() =~= Seq::new(NUM_SLOTS as nat, |k: int| 0u16));
        assert(add_reaches(no_slots(), tag_of(self.pub_key@), a));
        let parent: Option<PeerId> = self.trees[tree_id].parent;
        let mut i: usize = 0;
        while i < self.peers.len()
            invariant
                self.wf(),
                tree_id < K,
                t == tree_id,
                parent == self.trees@[t].parent,
                i <= self.peers@.len(),
                f.wf(),
                merged_with_peers(a, self.peers@, parent, t, i as int, f.slots()),
            decreases self.peers@.len() - i,
        {
            let ghost mid = f.slots();
            let is_parent: bool = match &parent {
                Some(p) => key_eq(&self.peers[i].pub_key, p),
                None => false,
            };
            if !is_parent {
                f.merge(&self.peers[i].cuckoo[tree_id]);
            }
            proof {
                let n = i + 1;
                assert(merged_with_peers(a, self.peers@, parent, t, n - 1, mid));
                assert(merged_with(mid, self.peers@[n - 1], parent, t, f.slots()));
                assert(merged_with_peers(a, self.peers@, parent, t, n, f.slots()));
            }
            i = i + 1;
        }
        let ghost b = f.slots();
        let mut k: usize = 0;
        while k < tags.len()
            invariant
                k <= tags@.len(),
                f.wf(),
                added_tags(b, tags@, k as int, f.slots()),
            decreases tags@.len() - k,
        {
            let ghost mid = f.slots();
            let tag: [u8; 16] = tags[k];
            let added = f.add(tag.as_slice());
            proof {
                let n = k + 1;
                assert(added_tags(b, tags@, n - 1, mid));
                assert(add_reaches(mid, tags@[n - 1]@, f.slots()));
                assert(added_tags(b, tags@, n, f.slots()));
            }
            k = k + 1;
        }
        proof {
            assert(merged_with_peers(a, self.peers@, parent, t, self.peers@.len() as int, b));
        }
        f
    }

    /// Send the filters of tree `tree_id`: to the parent what the node reaches
    /// other than through it, to the other neighbours everything. At the ticks
    /// set for it the generation rises first. `poison` holds tags that the node
    /// does not reach, for tests of its neighbours; it is empty otherwise.
    pub fn cuckoo_do_maintenance(
        &mut self,
        tree_id: usize,
        accelerated: Option<u64>,
        poison: &Vec<[u8; 16]>,
    )
        requires
            old(self).wf(),
            tree_id < K,
        ensures
            final(self).wf(),
            filters_sent(*old(self), tree_id as int, accelerated, poison@, *final(self)),
    {
        let ghost t = tree_id as int;
        let interval: u32 = rotation_interval(accelerated, CUCKOO_GEN_TICKS);
        if is_due(self.tick, interval) {
            let raised: u64 = self.cuckoo_generation[tree_id].wrapping_add(1);
            self.cuckoo_generation[tree_id] = raised;
        }
        let generation: u64 = self.cuckoo_generation[tree_id];
        assert(self.cuckoo_generation@ =~= old(self).cuckoo_generation@.update(
            t,
            next_generation(*old(self), t, accelerated),
        ));
        let merged: CuckooFilter = self.build_downstream(tree_id, poison);
        let ghost m = merged.slots();
        proof {
            lemma_downstream_same(*old(self), *self, t, poison@, m);
        }
        let parent: Option<PeerId> = self.trees[tree_id].parent;
        let ghost start = self.sent();
        let mut full: CuckooFilter = merged.duplicate();
        if let Some(p) = parent {
            let up = CuckooMsg { tree_id: tree_id as u8, generation, data: merged.encode() };
            assert(up@ =~= CuckooMsgView { tree_id: t as u8, generation, data: encoded(m) });
            let frame: Vec<u8> = up.encode();
            self.send_to_peer(&p, frame);
            if let Some(i) = self.find_peer(&p) {
                full.merge(&self.peers[i].cuckoo[tree_id]);
            }
        }
        let ghost f = full.slots();
        let ghost middle = self.sent();
        let down = CuckooMsg { tree_id: tree_id as u8, generation, data: full.encode() };
        assert(down@ =~= CuckooMsgView { tree_id: t as u8, generation, data: encoded(f) });
        let frame: Vec<u8> = down.encode();
        self.send_to_all(parent, &frame);
        proof {
            assert(with_upstream(*old(self), t, m, f));
            assert(self.sent() =~= start + filter_frames(*old(self), t, generation, m, f));
        }
    }

    /// The own coordinate is `coord` from now on.
    pub fn update_own_coord(&mut self, coord: [u8; 16])
        requires
            old(self).wf(),
        ensures
            final(self).wf(),
            coord_set(*old(self), coord, *final(self)),
    {
        self.own_coord = coord;
        let own: PeerId = self.pub_key;
        let ghost before = self.coord_table@;
        self.put_coord_entry(CoordEntry { key: own, coord });
        proof {
            lemma_put_coord(before, CoordEntry { key: own, coord }, own);
        }
    }

    /// Where the coordinate of `key` is.
    fn find_coord(&self, key: &PeerId) -> (r: Option<usize>)
        requires
            distinct_coords(self.coord_table@),
        ensures
            match r {
                Some(i) => coord_at(self.coord_table@, *key, i as int) && coord_index(
                    self.coord_table@,
                    *key,
                ) == i,
                None => !exists|i: int| coord_at(self.coord_table@, *key, i),
            },
    {
        let mut i: usize = 0;
        while i < self.coord_table.len()
            invariant
                distinct_coords(self.coord_table@),
                i <= self.coord_table@.len(),
                forall|j: int| 0 <= j < i ==> !coord_at(self.coord_table@, *key, j),
            decreases self.coord_table@.len() - i,
        {
            if key_eq(&self.coord_table[i].key, key) {
                proof {
                    assert(coord_at(self.coord_table@, *key, i as int));
                    lemma_coord_index(self.coord_table@, *key, i as int);
                }
                return Some(i);
            }
            i = i + 1;
        }
        None
    }

    fn put_coord_entry(&mut self, e: CoordEntry)
        requires
            distinct_coords(old(self).coord_table@),
        ensures
            *final(self) == (RouterState { coord_table: final(self).coord_table, ..*old(self) }),
            final(self).coord_table@ == put_coord(old(self).coord_table@, e),
    {
        match self.find_coord(&e.key) {
            Some(i) => {
                let gone: CoordEntry = self.coord_table.remove(i);
                self.coord_table.push(e);
            },
            None => {
                self.coord_table.push(e);
            },
        }
    }

    /// The first coordinate that can make room for another.
    fn find_coord_victim(&self) -> (r: Option<usize>)
        requires
            self.wf(),
        ensures
            match r {
                Some(v) => coord_victim(*self, v as int),
                None => !exists|v: int| coord_victim(*self, v),
            },
    {
        let mut i: usize = 0;
        while i < self.coord_table.len()
            invariant
                self.wf(),
                i <= self.coord_table@.len(),
                forall|j: int| 0 <= j < i ==> !#[trigger] coord_expendable(*self, j),
            decreases self.coord_table@.len() - i,
        {
            let key: PeerId = self.coord_table[i].key;
            if self.find_peer(&key).is_none() && !key_eq(&key, &self.pub_key) {
                assert(coord_expendable(*self, i as int));
                return Some(i);
            }
            assert(!coord_expendable(*self, i as int));
            i = i + 1;
        }
        None
    }

    /// Announce the own coordinate to all neighbours.
    pub fn broadcast_coord(&mut self)
        requires
            old(self).wf(),
        ensures
            final(self).wf(),
            coord_announced(*old(self), *final(self)),
    {
        let mut ann = CoordAnnounce {
            coord: self.own_coord,
            tree_depth: self.own_depth,
            sig: vstd::array::array_fill_for_copy_types::<u8, 64>(0u8),
        };
        assert(ann@ =~= unsigned_coord(*self));
        let signed: Vec<u8> = ann.sign_bytes();
        ann.sig = ed25519_sign(&self.signing_key, signed.as_slice());
        assert(ann@ =~= own_coord_announce(*self));
        let mut frame: Vec<u8> = vec![TYPE_COORD_ANNOUNCE];
        ann.encode_into(&mut frame);
        assert(frame@ =~= seq![TYPE_COORD_ANNOUNCE] + own_coord_announce(*self).wire());
        self.send_to_all(None, &frame);
    }

    /// A neighbour announced its coordinate. It is learned if the neighbour
    /// signed it, if it follows from the announced depth, and if that depth is
    /// close to the one the neighbour announced for the first tree. Where one
    /// of the last two fails, the neighbour loses trust.
    pub fn handle_coord_announce(&mut self, from: PeerId, ann: CoordAnnounce, check: CoordCheck)
        requires
            old(self).wf(),
        ensures
            final(self).wf(),
            coord_taken(*old(self), from, ann, check, *final(self)),
    {
        let signed: Vec<u8> = ann.sign_bytes();
        if !ed25519_verify(&from, signed.as_slice(), &ann.sig) {
            return ;
        }
        let found: Option<usize> = self.find_peer(&from);
        match check {
            CoordCheck::NotFinite => {
                return ;
            },
            CoordCheck::Differs => {
                if found.is_some() {
                    self.push_event(from, EventKind::TrustDown);
                }
                return ;
            },
            CoordCheck::Agrees => {},
        }
        if let Some(i) = found {
            if let Some(a) = self.peers[i].trees[0] {
                let apart: u32 = if a.depth >= ann.tree_depth {
                    a.depth - ann.tree_depth
                } else {
                    ann.tree_depth - a.depth
                };
                if apart > 2 {
                    assert(depth_disagrees(*self, from, ann.tree_depth));
                    self.push_event(from, EventKind::TrustDown);
                    return ;
                }
            }
        }
        assert(!depth_disagrees(*self, from, ann.tree_depth));
        let e = CoordEntry { key: from, coord: ann.coord };
        assert(e.key == from);
        let ghost before = self.coord_table@;
        let known: bool = self.find_coord(&from).is_some();
        if self.coord_table.len() >= MAX_COORD_TABLE_SIZE && !known {
            match self.find_coord_victim() {
                Some(v) => {
                    let ghost c = coord_victim_index(*self);
                    proof {
                        assert(coord_victim(*self, c));
                        if c < v {
                            assert(!coord_expendable(*self, c));
                        } else if v < c {
                            assert(!coord_expendable(*self, v as int));
                        }
                        lemma_remove(
                            before,
                            v as int,
                            |a: CoordEntry, b: CoordEntry| a.key != b.key,
                        );
                        lemma_swap_coord(before, v as int, e, self.pub_key);
                    }
                    let gone: CoordEntry = self.coord_table.remove(v);
                    self.coord_table.push(e);
                    assert(self.coord_table@ == learned_coord(*old(self), e));
                },
                None => {
                    assert(self.coord_table@ == learned_coord(*old(self), e));
                    return ;
                },
            }
        } else {
            self.put_coord_entry(e);
            proof {
                lemma_put_coord(before, e, self.pub_key);
                assert(self.coord_table@ == learned_coord(*old(self), e));
            }
        }
    }
}

proof fn lemma_swap_coord(s: Seq<CoordEntry>, v: int, e: CoordEntry, own: PeerId)
    requires
        distinct_coords(s),
        coords_bounded(s, own),
        0 <= v < s.len(),
        s[v].key != own,
        !exists|i: int| coord_at(s, e.key, i),
    ensures
        distinct_coords(s.remove(v).push(e)),
        coords_bounded(s.remove(v).push(e), own),
{
    let r = s.remove(v).push(e);
    assert forall|a: int, b: int|
        #![trigger r[a], r[b]]
        0 <= a < b < r.len() implies r[a].key != r[b].key by {
        let x = if a < v {
            a
        } else {
            a + 1
        };
        if b < s.len() - 1 {
            let y = if b < v {
                b
            } else {
                b + 1
            };
            assert(s[x].key != s[y].key);
        } else {
            assert(!coord_at(s, e.key, x));
        }
    }
    if s.len() > MAX_COORD_TABLE_SIZE {
        let i = choose|i: int| coord_at(s, own, i);
        let j = if i < v {
            i
        } else {
            i - 1
        };
        assert(coord_at(r, own, j));
    }
}

/// Putting a coordinate in keeps the table as it should be: it is that of the
/// node itself, or there is room, or there was one already.
proof fn lemma_put_coord(s: Seq<CoordEntry>, e: CoordEntry, own: PeerId)
    requires
        distinct_coords(s),
        coords_bounded(s, own),
        e.key == own || s.len() < MAX_COORD_TABLE_SIZE || exists|i: int| coord_at(s, e.key, i),
    ensures
        distinct_coords(put_coord(s, e)),
        coords_bounded(put_coord(s, e), own),
{
    let r = put_coord(s, e);
    if exists|i: int| coord_at(s, e.key, i) {
        let k = coord_index(s, e.key);
        assert(coord_at(s, e.key, k));
        assert forall|a: int, b: int|
            #![trigger r[a], r[b]]
            0 <= a < b < r.len() implies r[a].key != r[b].key by {
            let x = if a < k {
                a
            } else {
                a + 1
            };
            let y = if b == s.len() - 1 {
                k
            } else if b < k {
                b
            } else {
                b + 1
            };
            if x < y {
                assert(s[x].key != s[y].key);
            } else {
                assert(s[y].key != s[x].key);
            }
        }
        if s.len() > MAX_COORD_TABLE_SIZE {
            let i = choose|i: int| coord_at(s, own, i);
            let j = if i == k {
                s.len() - 1
            } else if i < k {
                i
            } else {
                i - 1
            };
            assert(coord_at(r, own, j));
        }
    } else {
        assert forall|a: int, b: int|
            #![trigger r[a], r[b]]
            0 <= a < b < r.len() implies r[a].key != r[b].key by {
            if b < s.len() {
                assert(s[a].key != s[b].key);
            } else {
                assert(!coord_at(s, e.key, a));
            }
        }
        if e.key == own {
            assert(coord_at(r, own, s.len() as int));
        }
    }
}

proof fn lemma_downstream_same(
    a: RouterState,
    b: RouterState,
    t: int,
    tags: Seq<[u8; 16]>,
    m: Seq<u16>,
)
    requires
        a.peers == b.peers,
        a.trees == b.trees,
        a.pub_key == b.pub_key,
    ensures
        downstream(a, t, tags, m) == downstream(b, t, tags, m),
{
}

/// An announced coordinate never drives out that of a neighbour or of the node
/// itself.
pub proof fn neighbours_keep_their_coordinates(s: RouterState, e: CoordEntry, k: CoordEntry)
    requires
        s.wf(),
        s.coord_table@.contains(k),
        k.key != e.key,
        has_peer(s.peers@, k.key) || k.key == s.pub_key,
    ensures
        learned_coord(s, e).contains(k),
{
    let i = choose|i: int| 0 <= i < s.coord_table@.len() && s.coord_table@[i] == k;
    let r = learned_coord(s, e);
    if (exists|j: int| coord_at(s.coord_table@, e.key, j)) || s.coord_table@.len()
        < MAX_COORD_TABLE_SIZE {
        if exists|j: int| coord_at(s.coord_table@, e.key, j) {
            let c = coord_index(s.coord_table@, e.key);
            assert(coord_at(s.coord_table@, e.key, c));
            let j = if i < c {
                i
            } else {
                i - 1
            };
            assert(r[j] == k);
        } else {
            assert(r[i] == k);
        }
    } else if exists|v: int| coord_victim(s, v) {
        let v = coord_victim_index(s);
        assert(coord_victim(s, v));
        assert(coord_expendable(s, v));
        let j = if i < v {
            i
        } else {
            i - 1
        };
        assert(r[j] == k);
    }
}

/// Neighbour `i` is not `parent`, and says that it reaches `x` in tree `t`.
pub open spec fn reached_through(
    peers: Seq<PeerData>,
    parent: Option<PeerId>,
    t: int,
    i: int,
    x: Item,
) -> bool {
    &&& 0 <= i < peers.len()
    &&& Some(peers[i].pub_key) != parent
    &&& peers[i].cuckoo@[t]@.count(x) > 0
}

/// A node claims to reach nothing but itself and what its neighbours say they
/// reach, and to its parent it claims only what it reaches without the parent.
/// Only tags that were added on purpose come on top.
pub proof fn claims_have_a_reason(
    s: RouterState,
    t: int,
    tags: Seq<[u8; 16]>,
    m: Seq<u16>,
    f: Seq<u16>,
    x: Item,
)
    requires
        s.wf(),
        0 <= t < K,
        downstream(s, t, tags, m),
        with_upstream(s, t, m, f),
    ensures
        items_of(m, NUM_SLOTS as int).count(x) > 0 ==> {
            ||| x == key_item(tag_of(s.pub_key@))
            ||| exists|i: int| #[trigger] reached_through(s.peers@, s.trees@[t].parent, t, i, x)
            ||| exists|k: int| 0 <= k < tags.len() && x == key_item(#[trigger] tags[k]@)
        },
        items_of(f, NUM_SLOTS as int).count(x) > 0 ==> {
            ||| items_of(m, NUM_SLOTS as int).count(x) > 0
            ||| exists|i: int| #[trigger] reached_through(s.peers@, None, t, i, x)
        },
{
    let parent = s.trees@[t].parent;
    let n = s.peers@.len() as int;
    let (a, b) = choose|a: Seq<u16>, b: Seq<u16>| #[trigger]
        add_reaches(no_slots(), tag_of(s.pub_key@), a) && #[trigger] merged_with_peers(
            a,
            s.peers@,
            parent,
            t,
            n,
            b,
        ) && added_tags(b, tags, tags.len() as int, m);
    crate::cuckoo::add_invents_nothing(no_slots(), tag_of(s.pub_key@), a, x);
    crate::cuckoo::empty_slots_hold_nothing(no_slots(), x);
    lemma_merged_has_a_reason(a, s.peers@, parent, t, n, b, x);
    lemma_added_has_a_reason(b, tags, tags.len() as int, m, x);
    if let Some(p) = parent {
        if has_peer(s.peers@, p) {
            let i = index_of(s.peers@, p);
            if items_of(f, NUM_SLOTS as int).count(x) > 0 {
                crate::cuckoo::merge_invents_nothing(
                    m,
                    s.peers@[i].cuckoo@[t].slots(),
                    NUM_SLOTS as int,
                    f,
                    x,
                );
                if items_of(m, NUM_SLOTS as int).count(x) == 0 {
                    assert(reached_through(s.peers@, None, t, i, x));
                }
            }
        }
    }
}

proof fn lemma_merged_has_a_reason(
    before: Seq<u16>,
    peers: Seq<PeerData>,
    parent: Option<PeerId>,
    t: int,
    n: int,
    after: Seq<u16>,
    x: Item,
)
    requires
        before.len() == NUM_SLOTS,
        0 <= n <= peers.len(),
        0 <= t < K,
        merged_with_peers(before, peers, parent, t, n, after),
    ensures
        after.len() == NUM_SLOTS,
        items_of(after, NUM_SLOTS as int).count(x) > 0 ==> items_of(before, NUM_SLOTS as int).count(
            x,
        ) > 0 || exists|i: int| #[trigger] reached_through(peers, parent, t, i, x),
    decreases n,
{
    if n > 0 {
        let p = peers[n - 1];
        let mid = choose|mid: Seq<u16>|
            merged_with_peers(before, peers, parent, t, n - 1, mid) && #[trigger] merged_with(
                mid,
                p,
                parent,
                t,
                after,
            );
        lemma_merged_has_a_reason(before, peers, parent, t, n - 1, mid, x);
        if Some(p.pub_key) != parent {
            crate::cuckoo::merge_keeps_the_size(mid, p.cuckoo@[t].slots(), NUM_SLOTS as int, after);
            if items_of(after, NUM_SLOTS as int).count(x) > 0 {
                crate::cuckoo::merge_invents_nothing(
                    mid,
                    p.cuckoo@[t].slots(),
                    NUM_SLOTS as int,
                    after,
                    x,
                );
                if items_of(mid, NUM_SLOTS as int).count(x) == 0 {
                    assert(reached_through(peers, parent, t, n - 1, x));
                }
            }
        }
    }
}

proof fn lemma_added_has_a_reason(
    before: Seq<u16>,
    tags: Seq<[u8; 16]>,
    n: int,
    after: Seq<u16>,
    x: Item,
)
    requires
        before.len() == NUM_SLOTS,
        0 <= n <= tags.len(),
        added_tags(before, tags, n, after),
    ensures
        after.len() == NUM_SLOTS,
        items_of(after, NUM_SLOTS as int).count(x) > 0 ==> items_of(before, NUM_SLOTS as int).count(
            x,
        ) > 0 || exists|k: int| 0 <= k < n && x == key_item(#[trigger] tags[k]@),
    decreases n,
{
    if n > 0 {
        let mid = choose|mid: Seq<u16>|
            added_tags(before, tags, n - 1, mid) && #[trigger] add_reaches(
                mid,
                tags[n - 1]@,
                after,
            );
        lemma_added_has_a_reason(before, tags, n - 1, mid, x);
        crate::cuckoo::add_invents_nothing(mid, tags[n - 1]@, after, x);
    }
}

/// How many slots of bucket `b` the filters that the first `n` neighbours sent
/// for tree `t` use together.
pub open spec fn load(peers: Seq<PeerData>, t: int, b: int, n: int) -> int
    decreases n,
{
    if n <= 0 {
        0
    } else {
        load(peers, t, b, n - 1) + used(peers[n - 1].cuckoo@[t].slots(), b, NUM_SLOTS as int)
    }
}

/// There is room in every bucket for all that the neighbours reach in tree `t`,
/// for the node itself, and for `extra` more.
pub open spec fn has_room(s: RouterState, t: int, extra: int) -> bool {
    forall|b: int|
        0 <= b < NUM_BUCKETS ==> 1 + extra + #[trigger] load(s.peers@, t, b, s.peers@.len() as int)
            <= 4
}

proof fn lemma_load(peers: Seq<PeerData>, t: int, b: int, i: int, n: int)
    requires
        0 <= b < NUM_BUCKETS,
        0 <= n,
    ensures
        0 <= load(peers, t, b, n),
        0 <= i < n ==> load(peers, t, b, i) + used(
            peers[i].cuckoo@[t].slots(),
            b,
            NUM_SLOTS as int,
        ) <= load(peers, t, b, n),
    decreases n,
{
    if n > 0 {
        lemma_load(peers, t, b, i, n - 1);
        if i == n - 1 {
            lemma_load(peers, t, b, 0, n - 1);
        }
    }
}

/// The slots of the filter hold `x`.
pub open spec fn holds(slots: Seq<u16>, x: Item) -> bool {
    items_of(slots, NUM_SLOTS as int).count(x) > 0
}

proof fn lemma_merged_all(
    before: Seq<u16>,
    peers: Seq<PeerData>,
    parent: Option<PeerId>,
    t: int,
    n: int,
    after: Seq<u16>,
    first: int,
)
    requires
        before.len() == NUM_SLOTS,
        0 <= n <= peers.len(),
        0 <= t < K,
        merged_with_peers(before, peers, parent, t, n, after),
        forall|b: int|
            0 <= b < NUM_BUCKETS ==> #[trigger] used(before, b, NUM_SLOTS as int) <= first,
        forall|b: int|
            0 <= b < NUM_BUCKETS ==> first + #[trigger] load(peers, t, b, n) <= 4,
    ensures
        after.len() == NUM_SLOTS,
        forall|b: int|
            0 <= b < NUM_BUCKETS ==> #[trigger] used(after, b, NUM_SLOTS as int) <= first + load(
                peers,
                t,
                b,
                n,
            ),
        forall|x: Item| holds(before, x) ==> #[trigger] holds(after, x),
        forall|i: int, x: Item|
            0 <= i < n && Some(peers[i].pub_key) != parent && #[trigger] peers[i].cuckoo@[t]@.count(
                x,
            ) > 0 ==> holds(after, x),
    decreases n,
{
    if n > 0 {
        let p = peers[n - 1];
        let mid = choose|mid: Seq<u16>|
            merged_with_peers(before, peers, parent, t, n - 1, mid) && #[trigger] merged_with(
                mid,
                p,
                parent,
                t,
                after,
            );
        assert forall|b: int| 0 <= b < NUM_BUCKETS implies first + #[trigger] load(
            peers,
            t,
            b,
            n - 1,
        ) <= 4 by {
            lemma_load(peers, t, b, n - 1, n);
            assert(first + load(peers, t, b, n) <= 4);
        }
        lemma_merged_all(before, peers, parent, t, n - 1, mid, first);
        let other = p.cuckoo@[t].slots();
        assert forall|b: int| 0 <= b < NUM_BUCKETS implies #[trigger] used(
            mid,
            b,
            NUM_SLOTS as int,
        ) + used(other, b, NUM_SLOTS as int) <= 4 by {
            assert(first + load(peers, t, b, n) <= 4);
        }
        if Some(p.pub_key) != parent {
            merge_keeps_all_where_there_is_room(mid, other, after);
        }
        assert forall|x: Item| holds(mid, x) implies #[trigger] holds(after, x) by {}
        assert forall|i: int, x: Item|
            0 <= i < n && Some(peers[i].pub_key) != parent && #[trigger] peers[i].cuckoo@[t]@.count(
                x,
            ) > 0 implies holds(after, x) by {
            if i < n - 1 {
                assert(holds(mid, x));
            }
        }
    }
}

proof fn lemma_added_all(
    before: Seq<u16>,
    tags: Seq<[u8; 16]>,
    n: int,
    after: Seq<u16>,
    first: Seq<int>,
)
    requires
        before.len() == NUM_SLOTS,
        0 <= n <= tags.len(),
        added_tags(before, tags, n, after),
        forall|b: int|
            0 <= b < NUM_BUCKETS ==> #[trigger] used(before, b, NUM_SLOTS as int) <= first[b],
        forall|b: int| 0 <= b < NUM_BUCKETS ==> n + #[trigger] first[b] <= 4,
    ensures
        after.len() == NUM_SLOTS,
        forall|b: int|
            0 <= b < NUM_BUCKETS ==> #[trigger] used(after, b, NUM_SLOTS as int) <= n + first[b],
        forall|x: Item| holds(before, x) ==> #[trigger] holds(after, x),
        forall|k: int| 0 <= k < n ==> holds(after, key_item(#[trigger] tags[k]@)),
    decreases n,
{
    if n > 0 {
        let mid = choose|mid: Seq<u16>|
            added_tags(before, tags, n - 1, mid) && #[trigger] add_reaches(
                mid,
                tags[n - 1]@,
                after,
            );
        lemma_added_all(before, tags, n - 1, mid, first);
        let c = crate::cuckoo::key_bucket(tags[n - 1]@);
        assert(n + first[c] <= 4);
        assert(used(mid, c, NUM_SLOTS as int) <= n - 1 + first[c]);
        add_keeps_all_where_there_is_room(mid, tags[n - 1]@, after);
        assert forall|x: Item| holds(mid, x) implies #[trigger] holds(after, x) by {}
        assert forall|k: int| 0 <= k < n implies holds(after, key_item(#[trigger] tags[k]@)) by {
            if k < n - 1 {
                assert(holds(mid, key_item(tags[k]@)));
            }
        }
    }
}

/// Whatever a node reaches it says: where there is room, what it reaches other
/// than through its parent holds the node itself and all that its neighbours, the
/// parent apart, say they reach; and with the parent's share it holds all that
/// any neighbour says it reaches.
pub proof fn all_that_is_reached_is_claimed(
    s: RouterState,
    t: int,
    tags: Seq<[u8; 16]>,
    m: Seq<u16>,
    f: Seq<u16>,
)
    requires
        s.wf(),
        0 <= t < 3,
        downstream(s, t, tags, m),
        with_upstream(s, t, m, f),
        has_room(s, t, tags.len() as int),
    ensures
        holds(m, key_item(tag_of(s.pub_key@))),
        forall|i: int, x: Item|
            0 <= i < s.peers@.len() && Some(s.peers@[i].pub_key) != s.trees@[t].parent
                && #[trigger] s.peers@[i].cuckoo@[t]@.count(x) > 0 ==> holds(m, x),
        forall|k: int| 0 <= k < tags.len() ==> holds(m, key_item(#[trigger] tags[k]@)),
        forall|x: Item| holds(m, x) ==> #[trigger] holds(f, x),
        forall|i: int, x: Item|
            0 <= i < s.peers@.len() && #[trigger] s.peers@[i].cuckoo@[t]@.count(x) > 0 ==> holds(
                f,
                x,
            ),
        m.len() == NUM_SLOTS,
        f.len() == NUM_SLOTS,
{
    let parent = s.trees@[t].parent;
    let n = s.peers@.len() as int;
    let extra = tags.len() as int;
    let (a, b) = choose|a: Seq<u16>, b: Seq<u16>| #[trigger]
        add_reaches(no_slots(), tag_of(s.pub_key@), a) && #[trigger] merged_with_peers(
            a,
            s.peers@,
            parent,
            t,
            n,
            b,
        ) && added_tags(b, tags, extra, m);
    let own = crate::cuckoo::key_bucket(tag_of(s.pub_key@));
    assert forall|c: int| 0 <= c < NUM_BUCKETS implies #[trigger] used(
        no_slots(),
        c,
        NUM_SLOTS as int,
    ) == 0 by {
        empty_slots_use_nothing(no_slots(), c);
    }
    assert(used(no_slots(), own, NUM_SLOTS as int) == 0);
    add_keeps_all_where_there_is_room(no_slots(), tag_of(s.pub_key@), a);
    assert(holds(a, key_item(tag_of(s.pub_key@))));
    assert forall|c: int| 0 <= c < NUM_BUCKETS implies #[trigger] used(a, c, NUM_SLOTS as int)
        <= 1 by {
        assert(used(no_slots(), c, NUM_SLOTS as int) == 0);
    }
    assert forall|c: int| 0 <= c < NUM_BUCKETS implies 1 + #[trigger] load(s.peers@, t, c, n) <= 4 by {}
    if parent is None || !has_peer(s.peers@, parent->0) {
        lemma_merged_all(a, s.peers@, parent, t, n, b, 1);
        let first = Seq::new(NUM_BUCKETS as nat, |c: int| 1 + load(s.peers@, t, c, n));
        lemma_added_all(b, tags, extra, m, first);
        assert forall|i: int, x: Item|
            0 <= i < s.peers@.len() && #[trigger] s.peers@[i].cuckoo@[t]@.count(
                x,
            ) > 0 implies holds(f, x) by {
            if Some(s.peers@[i].pub_key) == parent {
                assert(crate::state::is_at(s.peers@, s.peers@[i].pub_key, i));
            } else {
                assert(holds(b, x));
            }
        }
    } else {
        let q = index_of(s.peers@, parent->0);
        assert(crate::state::is_at(s.peers@, parent->0, q));
        let other = s.peers@[q].cuckoo@[t].slots();
        lemma_merged_all(a, s.peers@, parent, t, n, b, 1);
        lemma_merged_others(a, s.peers@, parent, t, n, b, q);
        let first = Seq::new(
            NUM_BUCKETS as nat,
            |c: int| 1 + load(s.peers@, t, c, n) - used(other, c, NUM_SLOTS as int),
        );
        assert forall|c: int| 0 <= c < NUM_BUCKETS implies extra + #[trigger] first[c] <= 4 by {
            assert(1 + extra + load(s.peers@, t, c, n) <= 4);
        }
        lemma_added_all(b, tags, extra, m, first);
        assert forall|c: int| 0 <= c < NUM_BUCKETS implies #[trigger] used(m, c, NUM_SLOTS as int)
            + used(other, c, NUM_SLOTS as int) <= 4 by {
            assert(1 + extra + load(s.peers@, t, c, n) <= 4);
            assert(used(m, c, NUM_SLOTS as int) <= extra + first[c]);
        }
        merge_keeps_all_where_there_is_room(m, other, f);
        assert forall|x: Item| holds(m, x) implies #[trigger] holds(f, x) by {}
        assert forall|i: int, x: Item|
            0 <= i < s.peers@.len() && #[trigger] s.peers@[i].cuckoo@[t]@.count(
                x,
            ) > 0 implies holds(f, x) by {
            if Some(s.peers@[i].pub_key) == parent {
                assert(crate::state::is_at(s.peers@, parent->0, i));
                crate::state::lemma_index(s.peers@, parent->0, i);
            } else {
                assert(holds(b, x));
                assert(holds(m, x));
            }
        }
    }
}

/// The parent's filter takes no room before it is merged.
proof fn lemma_merged_others(
    before: Seq<u16>,
    peers: Seq<PeerData>,
    parent: Option<PeerId>,
    t: int,
    n: int,
    after: Seq<u16>,
    q: int,
)
    requires
        before.len() == NUM_SLOTS,
        0 <= n <= peers.len(),
        0 <= q < peers.len(),
        0 <= t < K,
        Some(peers[q].pub_key) == parent,
        merged_with_peers(before, peers, parent, t, n, after),
        forall|b: int| 0 <= b < NUM_BUCKETS ==> #[trigger] used(before, b, NUM_SLOTS as int) <= 1,
        forall|b: int| 0 <= b < NUM_BUCKETS ==> 1 + #[trigger] load(peers, t, b, n) <= 4,
    ensures
        after.len() == NUM_SLOTS,
        forall|b: int|
            0 <= b < NUM_BUCKETS ==> #[trigger] used(after, b, NUM_SLOTS as int) <= 1 + load(
                peers,
                t,
                b,
                n,
            ) - if q < n {
                used(peers[q].cuckoo@[t].slots(), b, NUM_SLOTS as int)
            } else {
                0
            },
    decreases n,
{
    if n > 0 {
        let p = peers[n - 1];
        let mid = choose|mid: Seq<u16>|
            merged_with_peers(before, peers, parent, t, n - 1, mid) && #[trigger] merged_with(
                mid,
                p,
                parent,
                t,
                after,
            );
        assert forall|b: int| 0 <= b < NUM_BUCKETS implies 1 + #[trigger] load(peers, t, b, n - 1)
            <= 4 by {
            lemma_load(peers, t, b, n - 1, n);
            assert(1 + load(peers, t, b, n) <= 4);
        }
        lemma_merged_others(before, peers, parent, t, n - 1, mid, q);
        let other = p.cuckoo@[t].slots();
        if Some(p.pub_key) != parent {
            assert forall|b: int| 0 <= b < NUM_BUCKETS implies #[trigger] used(
                mid,
                b,
                NUM_SLOTS as int,
            ) + used(other, b, NUM_SLOTS as int) <= 4 by {
                assert(1 + load(peers, t, b, n) <= 4);
            }
            merge_keeps_all_where_there_is_room(mid, other, after);
        }
    }
}

/// The frame carries a filter for tree `t` with the slots `slots`.
pub open spec fn carries_filter(frame: Seq<u8>, t: int, generation: u64, slots: Seq<u16>) -> bool {
    &&& frame.len() > 0
    &&& frame[0] == CUCKOO_FILTER
    &&& parse_cuckoo_msg(frame.skip(1)) matches Ok(v) && v.tree_id == t && v.generation == generation
        && decoded(v.data) == slots
}

proof fn lemma_filter_frame(t: int, generation: u64, slots: Seq<u16>)
    requires
        0 <= t < 3,
        slots.len() == NUM_SLOTS,
    ensures
        carries_filter(filter_frame(t, generation, slots), t, generation, slots),
{
    let v = CuckooMsgView { tree_id: t as u8, generation, data: encoded(slots) };
    let frame = filter_frame(t, generation, slots);
    crate::packet::cuckoo_msg_round_trip(v, Seq::empty());
    assert(frame.skip(1) =~= v.wire() + Seq::<u8>::empty());
    crate::cuckoo::filter_round_trip(slots, encoded(slots));
}

/// Every neighbour with a link gets a filter. Where there is room, it holds the
/// node itself and all that the other neighbours, the parent apart, say they
/// reach; and but for the one that the parent gets, also what the parent says it
/// reaches.
pub proof fn every_neighbour_learns_what_is_reached(
    before: RouterState,
    t: int,
    accelerated: Option<u64>,
    tags: Seq<[u8; 16]>,
    after: RouterState,
    j: int,
) -> (r: (int, Seq<u16>))
    requires
        before.wf(),
        0 <= t < 3,
        filters_sent(before, t, accelerated, tags, after),
        has_room(before, t, tags.len() as int),
        0 <= j < before.peers@.len(),
        before.peers@[j].links@.len() > 0,
    ensures
        before.sent().len() <= r.0 < after.sent().len(),
        after.sent()[r.0].to == before.peers@[j].pub_key,
        carries_filter(after.sent()[r.0].frame, t, after.cuckoo_generation@[t], r.1),
        holds(r.1, key_item(tag_of(before.pub_key@))),
        forall|i: int, x: Item|
            0 <= i < before.peers@.len() && Some(before.peers@[i].pub_key)
                != before.trees@[t].parent && #[trigger] before.peers@[i].cuckoo@[t]@.count(x) > 0
                ==> holds(r.1, x),
        Some(before.peers@[j].pub_key) != before.trees@[t].parent ==> forall|i: int, x: Item|
            0 <= i < before.peers@.len() && #[trigger] before.peers@[i].cuckoo@[t]@.count(x) > 0
                ==> holds(r.1, x),
{
    let parent = before.trees@[t].parent;
    let generation = next_generation(before, t, accelerated);
    let key = before.peers@[j].pub_key;
    let (m, f) = choose|m: Seq<u16>, f: Seq<u16>| #[trigger]
        downstream(before, t, tags, m) && #[trigger] with_upstream(
            before,
            t,
            m,
            f,
        ) && after.sent() == before.sent() + filter_frames(before, t, generation, m, f);
    all_that_is_reached_is_claimed(before, t, tags, m, f);
    lemma_filter_frame(t, generation, m);
    lemma_filter_frame(t, generation, f);
    let n = before.sent().len() as int;
    if Some(key) == parent {
        crate::state::frames_go_to_neighbours(before.peers@, key, filter_frame(t, generation, m));
        assert(after.sent()[n] == filter_frames(before, t, generation, m, f)[0]);
        (n, m)
    } else {
        let k = crate::state::lemma_flooded(
            before.peers@,
            parent,
            filter_frame(t, generation, f),
            j,
        );
        let head: Seq<Sent> = match parent {
            Some(p) => one(before.peers@, p, filter_frame(t, generation, m)),
            None => Seq::empty(),
        };
        assert(after.sent()[n + head.len() + k] == filter_frames(before, t, generation, m, f)[
            head.len() + k
        ]);
        (n + head.len() + k, f)
    }
}

/// What a neighbour says it reaches in a tree is what its last filter for that
/// tree says; the filters of the other trees and of the other neighbours stay.
/// The generation never falls.
pub proof fn the_last_filter_counts(
    before: RouterState,
    from: PeerId,
    msg: CuckooMsg,
    now: u64,
    after: RouterState,
    i: int,
)
    requires
        before.wf(),
        filter_taken(before, from, msg, now, after),
        0 <= i < before.peers@.len(),
    ensures
        after.peers@.len() == before.peers@.len(),
        after.peers@[i].pub_key == before.peers@[i].pub_key,
        before.peers@[i].pub_key == from && msg.tree_id < 3 ==> {
            &&& after.peers@[i].last_rx == now
            &&& forall|x: Item| #[trigger]
                after.peers@[i].cuckoo@[msg.tree_id as int]@.count(x) > 0 <==> holds(
                    decoded(msg.data@),
                    x,
                )
            &&& forall|u: int|
                0 <= u < 3 && u != msg.tree_id ==> #[trigger] after.peers@[i].cuckoo@[u]
                    == before.peers@[i].cuckoo@[u]
            &&& after.peers@[i].cuckoo_gen@[msg.tree_id as int] >= msg.generation
            &&& after.peers@[i].cuckoo_gen@[msg.tree_id as int]
                >= before.peers@[i].cuckoo_gen@[msg.tree_id as int]
        },
        before.peers@[i].pub_key != from || msg.tree_id >= 3 ==> after.peers@[i] == before.peers@[i],
{
    if before.peers@[i].pub_key == from {
        assert(crate::state::is_at(before.peers@, from, i));
        crate::state::lemma_index(before.peers@, from, i);
    } else if has_peer(before.peers@, from) {
        assert(crate::state::is_at(before.peers@, from, index_of(before.peers@, from)));
    }
}

/// An announced coordinate is learned exactly where the neighbour signed it, it
/// agrees with the announced depth, and that depth is within two of the one that
/// the neighbour announced for the first tree. A coordinate that was signed and is
/// a point, but does not meet the other two conditions, costs the neighbour trust;
/// nothing else does.
pub proof fn only_honest_coordinates_are_learned(
    before: RouterState,
    from: PeerId,
    ann: CoordAnnounce,
    check: CoordCheck,
    after: RouterState,
    i: int,
)
    requires
        before.wf(),
        coord_taken(before, from, ann, check, after),
        0 <= i < before.peers@.len(),
        before.peers@[i].pub_key == from,
    ensures
        ({
            let signed = ed25519_valid(from@, ann@.signed(), ann.sig@);
            let deep = before.peers@[i].trees@[0] matches Some(a) && (a.depth > ann.tree_depth + 2
                || ann.tree_depth > a.depth + 2);
            &&& signed && check == CoordCheck::Agrees && !deep ==> {
                &&& after.coord_table@ == learned_coord(
                    before,
                    CoordEntry { key: from, coord: ann.coord },
                )
                &&& after.events@ == before.events@
            }
            &&& !signed || check == CoordCheck::NotFinite ==> after.coord_table@
                == before.coord_table@ && after.events@ == before.events@
            &&& signed && (check == CoordCheck::Differs || (check == CoordCheck::Agrees && deep))
                ==> after.coord_table@ == before.coord_table@ && after.events@
                == before.events@.push(Event { peer: from, kind: EventKind::TrustDown })
        }),
{
    assert(crate::state::is_at(before.peers@, from, i));
    crate::state::lemma_index(before.peers@, from, i);
}

/// A coordinate that is learned is there afterwards, in place of an older one of
/// the same node, wherever the table has fewer than 16384 entries, or the node is
/// in it already, or some entry is of a node that is neither a neighbour nor this
/// node. At most one entry of another node is dropped, and none while there is
/// room.
pub proof fn learned_coordinates_are_kept(s: RouterState, e: CoordEntry, i: int)
    requires
        s.wf(),
        0 <= i < s.coord_table@.len(),
    ensures
        s.coord_table@.len() < 16384 || s.coord_table@[i].key == e.key || (!has_peer(
            s.peers@,
            s.coord_table@[i].key,
        ) && s.coord_table@[i].key != s.pub_key) ==> learned_coord(s, e).contains(e) && learned_coord(
            s,
            e,
        ).last() == e,
        forall|k: int|
            0 <= k < learned_coord(s, e).len() && (#[trigger] learned_coord(s, e)[k]).key == e.key
                && learned_coord(s, e).contains(e) ==> learned_coord(s, e)[k] == e,
        s.coord_table@.len() < 16384 && s.coord_table@[i].key != e.key ==> learned_coord(
            s,
            e,
        ).contains(s.coord_table@[i]),
        s.coord_table@.len() <= learned_coord(s, e).len() <= s.coord_table@.len() + 1,
        s.coord_table@[i].key != e.key && !learned_coord(s, e).contains(s.coord_table@[i])
            ==> forall|j: int|
            0 <= j < i ==> has_peer(s.peers@, (#[trigger] s.coord_table@[j]).key)
                || s.coord_table@[j].key == s.pub_key,
{
    let t = s.coord_table@;
    let r = learned_coord(s, e);
    let known = exists|j: int| coord_at(t, e.key, j);
    if t[i].key == e.key {
        assert(coord_at(t, e.key, i));
    }
    if !known && t.len() >= MAX_COORD_TABLE_SIZE {
        if !has_peer(s.peers@, t[i].key) && t[i].key != s.pub_key {
            assert(coord_expendable(s, i));
            lemma_first_expendable(s, i);
        }
        if exists|v: int| coord_victim(s, v) {
            let v = coord_victim_index(s);
            assert(coord_victim(s, v));
            if i != v {
                let k = if i < v {
                    i
                } else {
                    i - 1
                };
                assert(r[k] == t[i]);
            } else {
                assert forall|j: int| 0 <= j < i implies has_peer(
                    s.peers@,
                    (#[trigger] t[j]).key,
                ) || t[j].key == s.pub_key by {
                    assert(!coord_expendable(s, j));
                }
            }
            assert(r[r.len() - 1] == e);
            assert forall|k: int|
                0 <= k < r.len() && (#[trigger] r[k]).key == e.key implies r[k] == e by {
                if k < r.len() - 1 {
                    let j = if k < v {
                        k
                    } else {
                        k + 1
                    };
                    assert(r[k] == t[j]);
                    assert(coord_at(t, e.key, j));
                }
            }
        } else {
            assert(r == t);
            assert(r[i] == t[i]);
            assert(!r.contains(e)) by {
                if r.contains(e) {
                    let k = choose|k: int| 0 <= k < r.len() && r[k] == e;
                    assert(coord_at(t, e.key, k));
                }
            }
        }
    } else if known {
        let c = coord_index(t, e.key);
        assert(coord_at(t, e.key, c));
        if i != c {
            let k = if i < c {
                i
            } else {
                i - 1
            };
            assert(r[k] == t[i]);
        }
        assert(r[r.len() - 1] == e);
        assert forall|k: int| 0 <= k < r.len() && (#[trigger] r[k]).key == e.key implies r[k] == e by {
            if k < r.len() - 1 {
                let j = if k < c {
                    k
                } else {
                    k + 1
                };
                assert(r[k] == t[j]);
                assert(coord_at(t, e.key, j));
                lemma_coord_index(t, e.key, j);
            }
        }
    } else {
        assert(r[i] == t[i]);
        assert(r[r.len() - 1] == e);
        assert forall|k: int| 0 <= k < r.len() && (#[trigger] r[k]).key == e.key implies r[k] == e by {
            if k < r.len() - 1 {
                assert(coord_at(t, e.key, k));
            }
        }
    }
}

/// Where some coordinate is expendable, there is a first that is.
proof fn lemma_first_expendable(s: RouterState, i: int)
    requires
        0 <= i < s.coord_table@.len(),
        coord_expendable(s, i),
    ensures
        exists|v: int| coord_victim(s, v),
    decreases i,
{
    if exists|j: int| 0 <= j < i && coord_expendable(s, j) {
        let j = choose|j: int| 0 <= j < i && coord_expendable(s, j);
        lemma_first_expendable(s, j);
    } else {
        assert(coord_victim(s, i));
    }
}

/// Every neighbour with a link is told, once, the node's own coordinate and depth,
/// signed by the node.
pub proof fn the_own_coordinate_is_announced(
    before: RouterState,
    after: RouterState,
    j: int,
) -> (k: int)
    requires
        crate::state::distinct_peers(before.peers@),
        coord_announced(before, after),
        0 <= j < before.peers@.len(),
        before.peers@[j].links@.len() > 0,
    ensures
        before.sent().len() <= k < after.sent().len(),
        after.sent()[k].to == before.peers@[j].pub_key,
        after.sent()[k].frame[0] == TYPE_COORD_ANNOUNCE,
        parse_coord_announce(after.sent()[k].frame.skip(1)) matches Ok(v) && v.coord
            == before.own_coord@ && v.tree_depth == before.own_depth && ed25519_valid(
            before.pub_key@,
            v.signed(),
            v.sig,
        ),
        forall|a: int, b: int|
            #![trigger after.sent()[a], after.sent()[b]]
            before.sent().len() <= a < b < after.sent().len() ==> after.sent()[a].to
                != after.sent()[b].to,
{
    let v = own_coord_announce(before);
    let frame = seq![TYPE_COORD_ANNOUNCE] + v.wire();
    let k = crate::state::lemma_flooded(before.peers@, None, frame, j);
    crate::state::lemma_flood_is_even(before.sent(), before.peers@, None, frame, after.sent());
    crate::packet::coord_announce_round_trip(v, Seq::empty());
    assert(frame.skip(1) =~= v.wire() + Seq::<u8>::empty());
    before.sent().len() as int + k
}

/// The generation of the own filters rises by one where its interval has passed,
/// and stays otherwise.
pub proof fn generations_rise_on_time(
    before: RouterState,
    t: int,
    tags: Seq<[u8; 16]>,
    after: RouterState,
)
    requires
        0 <= t < 3,
        filters_sent(before, t, None, tags, after),
    ensures
        after.cuckoo_generation@[t] == if before.tick > 0 && before.tick % 300 == 0 {
            before.cuckoo_generation@[t].wrapping_add(1)
        } else {
            before.cuckoo_generation@[t]
        },
        forall|u: int|
            0 <= u < 3 && u != t ==> #[trigger] after.cuckoo_generation@[u]
                == before.cuckoo_generation@[u],
{
}

/// The own coordinate is in the table once it is set, and the only one of this node; the
/// coordinates of all other nodes stay.
pub proof fn the_own_coordinate_is_kept(
    before: RouterState,
    coord: [u8; 16],
    after: RouterState,
    e: CoordEntry,
)
    requires
        before.wf(),
        coord_set(before, coord, after),
    ensures
        after.own_coord == coord,
        e.key == before.pub_key ==> (after.coord_table@.contains(e) <==> e.coord == coord),
        e.key != before.pub_key ==> (after.coord_table@.contains(e)
            <==> before.coord_table@.contains(e)),
{
    let t = before.coord_table@;
    let own = CoordEntry { key: before.pub_key, coord };
    let r = after.coord_table@;
    assert(r.len() > 0 && r[r.len() - 1] == own);
    if exists|i: int| coord_at(t, own.key, i) {
        let c = coord_index(t, own.key);
        assert(coord_at(t, own.key, c));
        assert forall|k: int| 0 <= k < r.len() - 1 implies #[trigger] r[k] == t[if k < c {
            k
        } else {
            k + 1
        }] by {}
        if r.contains(e) {
            let k = choose|k: int| 0 <= k < r.len() && r[k] == e;
            if k < r.len() - 1 {
                let j = if k < c {
                    k
                } else {
                    k + 1
                };
                assert(t[j] == e);
                if e.key == own.key {
                    assert(coord_at(t, own.key, j));
                    lemma_coord_index(t, own.key, j);
                }
            }
        }
        if t.contains(e) && e.key != own.key {
            let i = choose|i: int| 0 <= i < t.len() && t[i] == e;
            let k = if i < c {
                i
            } else {
                i - 1
            };
            assert(r[k] == e);
        }
    } else {
        if r.contains(e) {
            let k = choose|k: int| 0 <= k < r.len() && r[k] == e;
            if k < t.len() {
                assert(t[k] == e);
                assert(e.key == own.key ==> coord_at(t, own.key, k));
            }
        }
        if t.contains(e) {
            let i = choose|i: int| 0 <= i < t.len() && t[i] == e;
            assert(r[i] == e);
        }
    }
}

/// What a node says that is no neighbour costs nobody trust; its coordinate is learned where
/// it signed it and it agrees with the announced depth.
pub proof fn strangers_lose_no_trust(
    before: RouterState,
    from: PeerId,
    ann: CoordAnnounce,
    check: CoordCheck,
    after: RouterState,
)
    requires
        coord_taken(before, from, ann, check, after),
        forall|i: int| 0 <= i < before.peers@.len() ==> (#[trigger] before.peers@[i]).pub_key != from,
    ensures
        after.events@ == before.events@,
        after.coord_table@ == if ed25519_valid(from@, ann@.signed(), ann.sig@) && check
            == CoordCheck::Agrees {
            learned_coord(before, CoordEntry { key: from, coord: ann.coord })
        } else {
            before.coord_table@
        },
{
    if has_peer(before.peers@, from) {
        assert(crate::state::is_at(before.peers@, from, index_of(before.peers@, from)));
    }
}

/// What a filter says has a reason: it is the node itself, or what a neighbour says it
/// reaches, or a tag added on purpose. What the parent gets does not rest on the parent.
pub open spec fn has_reason(
    s: RouterState,
    t: int,
    tags: Seq<[u8; 16]>,
    to: PeerId,
    slots: Seq<u16>,
) -> bool {
    forall|x: Item| #[trigger]
        holds(slots, x) ==> {
            ||| x == key_item(tag_of(s.pub_key@))
            ||| exists|k: int| 0 <= k < tags.len() && x == key_item(#[trigger] tags[k]@)
            ||| exists|i: int|
                0 <= i < s.peers@.len() && (#[trigger] s.peers@[i]).cuckoo@[t]@.count(x) > 0 && (
                s.trees@[t].parent == Some(to) ==> s.peers@[i].pub_key != to)
        }
}

/// The filters are all that is sent, one to each neighbour at most, and what they say has a
/// reason.
pub proof fn neighbours_are_told_nothing_else(
    before: RouterState,
    t: int,
    accelerated: Option<u64>,
    tags: Seq<[u8; 16]>,
    after: RouterState,
    a: int,
    b: int,
) -> (slots: Seq<u16>)
    requires
        before.wf(),
        0 <= t < 3,
        filters_sent(before, t, accelerated, tags, after),
        before.sent().len() <= a < after.sent().len(),
        before.sent().len() <= b < after.sent().len(),
    ensures
        a != b ==> after.sent()[a].to != after.sent()[b].to,
        carries_filter(after.sent()[a].frame, t, after.cuckoo_generation@[t], slots),
        has_reason(before, t, tags, after.sent()[a].to, slots),
{
    let parent = before.trees@[t].parent;
    let generation = next_generation(before, t, accelerated);
    let (m, f) = choose|m: Seq<u16>, f: Seq<u16>| #[trigger]
        downstream(before, t, tags, m) && #[trigger] with_upstream(
            before,
            t,
            m,
            f,
        ) && after.sent() == before.sent() + filter_frames(before, t, generation, m, f);
    lemma_sizes(before, t, tags, m, f);
    lemma_filter_frame(t, generation, m);
    lemma_filter_frame(t, generation, f);
    let n = before.sent().len() as int;
    let head: Seq<Sent> = match parent {
        Some(p) => one(before.peers@, p, filter_frame(t, generation, m)),
        None => Seq::empty(),
    };
    let out = flood(before.peers@, parent, filter_frame(t, generation, f));
    let rest = before.sent() + head;
    assert(after.sent() =~= rest + out);
    crate::state::lemma_flood_is_even(
        rest,
        before.peers@,
        parent,
        filter_frame(t, generation, f),
        after.sent(),
    );
    let to = after.sent()[a].to;
    assert(a >= n + head.len() ==> after.sent()[a].frame == filter_frame(t, generation, f));
    assert(b >= n + head.len() ==> Some(after.sent()[b].to) != parent);
    if a < n + head.len() {
        assert(after.sent()[a] == head[a - n]);
        assert(Some(to) == parent);
        assert forall|x: Item| #[trigger] holds(m, x) implies {
            ||| x == key_item(tag_of(before.pub_key@))
            ||| exists|k: int| 0 <= k < tags.len() && x == key_item(#[trigger] tags[k]@)
            ||| exists|i: int|
                0 <= i < before.peers@.len() && (#[trigger] before.peers@[i]).cuckoo@[t]@.count(x)
                    > 0 && (before.trees@[t].parent == Some(to) ==> before.peers@[i].pub_key != to)
        } by {
            claims_have_a_reason(before, t, tags, m, f, x);
            if exists|i: int| #[trigger] reached_through(before.peers@, parent, t, i, x) {
                let i = choose|i: int| #[trigger] reached_through(before.peers@, parent, t, i, x);
                assert(before.peers@[i].cuckoo@[t]@.count(x) > 0);
            }
        }
        m
    } else {
        assert(Some(to) != parent);
        assert forall|x: Item| #[trigger] holds(f, x) implies {
            ||| x == key_item(tag_of(before.pub_key@))
            ||| exists|k: int| 0 <= k < tags.len() && x == key_item(#[trigger] tags[k]@)
            ||| exists|i: int|
                0 <= i < before.peers@.len() && (#[trigger] before.peers@[i]).cuckoo@[t]@.count(x)
                    > 0 && (before.trees@[t].parent == Some(to) ==> before.peers@[i].pub_key != to)
        } by {
            claims_have_a_reason(before, t, tags, m, f, x);
            if exists|i: int| #[trigger] reached_through(before.peers@, None, t, i, x) {
                let i = choose|i: int| #[trigger] reached_through(before.peers@, None, t, i, x);
                assert(before.peers@[i].cuckoo@[t]@.count(x) > 0);
            }
            if exists|i: int| #[trigger] reached_through(before.peers@, parent, t, i, x) {
                let i = choose|i: int| #[trigger] reached_through(before.peers@, parent, t, i, x);
                assert(before.peers@[i].cuckoo@[t]@.count(x) > 0);
            }
        }
        f
    }
}

proof fn lemma_sizes(
    s: RouterState,
    t: int,
    tags: Seq<[u8; 16]>,
    m: Seq<u16>,
    f: Seq<u16>,
)
    requires
        s.wf(),
        0 <= t < 3,
        downstream(s, t, tags, m),
        with_upstream(s, t, m, f),
    ensures
        m.len() == NUM_SLOTS,
        f.len() == NUM_SLOTS,
{
    let x = key_item(tag_of(s.pub_key@));
    let parent = s.trees@[t].parent;
    let n = s.peers@.len() as int;
    let (a, b) = choose|a: Seq<u16>, b: Seq<u16>| #[trigger]
        add_reaches(no_slots(), tag_of(s.pub_key@), a) && #[trigger] merged_with_peers(
            a,
            s.peers@,
            parent,
            t,
            n,
            b,
        ) && added_tags(b, tags, tags.len() as int, m);
    crate::cuckoo::add_invents_nothing(no_slots(), tag_of(s.pub_key@), a, x);
    lemma_merged_has_a_reason(a, s.peers@, parent, t, n, b, x);
    lemma_added_has_a_reason(b, tags, tags.len() as int, m, x);
    if let Some(p) = parent {
        if has_peer(s.peers@, p) {
            let i = index_of(s.peers@, p);
            crate::cuckoo::merge_keeps_the_size(
                m,
                s.peers@[i].cuckoo@[t].slots(),
                NUM_SLOTS as int,
                f,
            );
        }
    }
}

} // verus!
