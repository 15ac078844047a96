//! Next hops: by tag for packets on their way, by key for packets of the
//! node's own, and the routes that neighbours said they do not have.

use crate::bytes::{bytes_eq, key_eq};
use crate::cuckoo::key_item;
use crate::packet::{routing_tag, tag_of, PathNegative, PathNegativeView, TYPE_PATH_NEGATIVE};
use crate::router::{
    elapsed, lex_less, metric_less, metric_order_is_total, time_since, xor_bytes, xor_keys, PeerId, MAX_PATH_NEG_CACHE,
    PATH_NEG_TTL,
};
use crate::state::{distinct_negatives, one, touched, NegativeRoute, PeerData, RouterState, Sent};
use crate::tables::{lemma_filter, lemma_filter_ends, lemma_filter_step, lemma_remove};
use vstd::prelude::*;

verus! {

broadcast use vstd::array::group_array_axioms;

/// The neighbour claims, in some tree, to reach what has the tag `tag`.
pub open spec fn claims(p: PeerData, tag: Seq<u8>) -> bool {
    exists|t: int| 0 <= t < 3 && (#[trigger] p.cuckoo@[t])@.count(key_item(tag)) > 0
}

/// `peer` said not long ago that it cannot route `tag`.
pub open spec fn negative(
    cache: Seq<NegativeRoute>,
    peer: PeerId,
    tag: [u8; 16],
    now: u64,
) -> bool {
    exists|i: int|
        0 <= i < cache.len() && (#[trigger] cache[i]).peer == peer && cache[i].tag == tag
            && elapsed(now, cache[i].at) < PATH_NEG_TTL
}

/// Neighbour `i` can take a packet with the tag `tag`.
pub open spec fn tag_ok(
    s: RouterState,
    tag: [u8; 16],
    exclude: Option<PeerId>,
    now: u64,
    i: int,
) -> bool {
    let p = s.peers@[i];
    &&& Some(p.pub_key) != exclude
    &&& !negative(s.path_negative_cache@, p.pub_key, tag, now)
    &&& claims(p, tag@)
}

/// Of the first `n` neighbours that can take a packet with the tag `tag`, the
/// one with the lowest trust-adjusted cost.
pub open spec fn tag_route(
    s: RouterState,
    tag: [u8; 16],
    exclude: Option<PeerId>,
    now: u64,
    n: int,
) -> Option<int>
    decreases n,
{
    if n <= 0 {
        None
    } else {
        let b = tag_route(s, tag, exclude, now, n - 1);
        if tag_ok(s, tag, exclude, now, n - 1) && (b is None || s.peers@[n - 1].tag_cost
            < s.peers@[b->0].tag_cost) {
            Some(n - 1)
        } else {
            b
        }
    }
}

/// The next hop for a packet with the tag `tag`, `exclude` apart.
pub open spec fn hop_by_tag(
    s: RouterState,
    tag: [u8; 16],
    exclude: Option<PeerId>,
    now: u64,
) -> Option<PeerId> {
    match tag_route(s, tag, exclude, now, s.peers@.len() as int) {
        Some(i) => Some(s.peers@[i].pub_key),
        None => None,
    }
}

/// Distances to a destination in hyperbolic space, as numbers in the same
/// order: that of the node itself, and that of each neighbour whose coordinate
/// is known, by its place among the neighbours.
pub struct Distances {
    pub own: u64,
    pub peers: Vec<Option<u64>>,
}

/// The distance of neighbour `i`, if it is closer than the node itself.
pub open spec fn closer(d: Distances, i: int) -> Option<u64> {
    if i < d.peers@.len() {
        match d.peers@[i] {
            Some(x) => if x < d.own {
                Some(x)
            } else {
                None
            },
            None => None,
        }
    } else {
        None
    }
}

/// Of the first `n` neighbours that are closer than the node itself, the
/// closest.
pub open spec fn greedy_route(d: Distances, n: int) -> Option<int>
    decreases n,
{
    if n <= 0 {
        None
    } else {
        let b = greedy_route(d, n - 1);
        if closer(d, n - 1) is Some && (b is None || closer(d, n - 1)->0 < closer(d, b->0)->0) {
            Some(n - 1)
        } else {
            b
        }
    }
}

/// Of the first `n` neighbours that claim to reach `tag`, the one with the
/// lowest cost.
pub open spec fn claim_route(peers: Seq<PeerData>, tag: Seq<u8>, n: int) -> Option<int>
    decreases n,
{
    if n <= 0 {
        None
    } else {
        let b = claim_route(peers, tag, n - 1);
        if claims(peers[n - 1], tag) && (b is None || peers[n - 1].cost < peers[b->0].cost) {
            Some(n - 1)
        } else {
            b
        }
    }
}

/// Of the first `n` neighbours, the one whose key is closest to `dst`.
pub open spec fn xor_route(peers: Seq<PeerData>, dst: Seq<u8>, n: int) -> Option<int>
    decreases n,
{
    if n <= 0 {
        None
    } else {
        let b = xor_route(peers, dst, n - 1);
        if b is None || lex_less(
            xor_bytes(peers[n - 1].pub_key@, dst),
            xor_bytes(peers[b->0].pub_key@, dst),
        ) || (xor_bytes(peers[n - 1].pub_key@, dst) == xor_bytes(peers[b->0].pub_key@, dst)
            && peers[n - 1].cost < peers[b->0].cost) {
            Some(n - 1)
        } else {
            b
        }
    }
}

/// Where the next hop towards `dst` is among the neighbours: one that is closer
/// in hyperbolic space, or else one that claims to reach `dst`, or else the one
/// whose key is closest to that of `dst`.
pub open spec fn route_to(s: RouterState, dst: PeerId, d: Option<Distances>) -> Option<int> {
    let n = s.peers@.len() as int;
    let greedy = match d {
        Some(dist) => greedy_route(dist, n),
        None => None,
    };
    if greedy is Some {
        greedy
    } else if claim_route(s.peers@, tag_of(dst@), n) is Some {
        claim_route(s.peers@, tag_of(dst@), n)
    } else {
        xor_route(s.peers@, dst@, n)
    }
}

/// The next hop towards `dst`.
pub open spec fn next_hop(s: RouterState, dst: PeerId, d: Option<Distances>) -> Option<PeerId> {
    match route_to(s, dst, d) {
        Some(i) => Some(s.peers@[i].pub_key),
        None => None,
    }
}

/// The entry `e` in place of one for the same neighbour and tag, if there is
/// one.
pub open spec fn put_negative(s: Seq<NegativeRoute>, e: NegativeRoute) -> Seq<NegativeRoute> {
    if exists|i: int| negative_at(s, e.peer, e.tag, i) {
        s.update(negative_index(s, e.peer, e.tag), e)
    } else {
        s.push(e)
    }
}

/// Where the entry for a neighbour and a tag is.
pub open spec fn negative_index(s: Seq<NegativeRoute>, peer: PeerId, tag: [u8; 16]) -> int {
    choose|i: int| negative_at(s, peer, tag, i)
}

pub open spec fn negative_at(s: Seq<NegativeRoute>, peer: PeerId, tag: [u8; 16], i: int) -> bool {
    0 <= i < s.len() && s[i].peer == peer && s[i].tag == tag
}

/// Entries from before this time are too old to count.
pub open spec fn negative_cutoff(now: u64) -> int {
    if now >= PATH_NEG_TTL {
        now - PATH_NEG_TTL
    } else {
        0
    }
}

/// The entry that makes room: the oldest, where some are too old to count, or
/// else the first.
pub open spec fn victim(s: Seq<NegativeRoute>, now: u64, v: int) -> bool {
    &&& 0 <= v < s.len()
    &&& if exists|i: int| 0 <= i < s.len() && (#[trigger] s[i]).at < negative_cutoff(now) {
        forall|j: int| 0 <= j < s.len() ==> s[v].at <= (#[trigger] s[j]).at
    } else {
        v == 0
    }
}

/// What recording an entry makes of the cache.
pub open spec fn recorded_negative(
    before: Seq<NegativeRoute>,
    e: NegativeRoute,
    after: Seq<NegativeRoute>,
) -> bool {
    if before.len() < MAX_PATH_NEG_CACHE {
        after == put_negative(before, e)
    } else {
        exists|v: int| #[trigger]
            victim(before, e.at, v) && after == put_negative(before.remove(v), e)
    }
}

/// The notice that goes to `to`, unless it has run out.
pub open spec fn negative_notice(
    peers: Seq<PeerData>,
    to: PeerId,
    tag: [u8; 16],
    ttl: int,
) -> Seq<Sent> {
    if ttl == 0 {
        Seq::empty()
    } else {
        one(
            peers,
            to,
            seq![TYPE_PATH_NEGATIVE] + (PathNegativeView {
                routing_tag: tag@,
                ttl: ttl as u8,
            }).wire(),
        )
    }
}

fn tags_eq(a: &[u8; 16], b: &[u8; 16]) -> (r: bool)
    ensures
        r == (a == b),
{
    let r = bytes_eq(a.as_slice(), b.as_slice());
    assert(a@ =~= b@ ==> a =~= b);
    r
}

/// Whether a neighbour claims, in some tree, to reach what has the tag `tag`.
pub fn claims_tag(p: &PeerData, tag: &[u8; 16]) -> (r: bool)
    ensures
        r == claims(*p, tag@),
{
    let mut t: usize = 0;
    while t < 3
        invariant
            t <= 3,
            forall|u: int|
                0 <= u < t ==> (#[trigger] p.cuckoo@[u])@.count(key_item(tag@)) == 0,
        decreases 3 - t,
    {
        if p.cuckoo[t].contains(tag.as_slice()) {
            assert(p.cuckoo@[t as int]@.count(key_item(tag@)) > 0);
            return true;
        }
        t = t + 1;
    }
    false
}

proof fn lemma_recorded(
    before: Seq<NegativeRoute>,
    base: Seq<NegativeRoute>,
    e: NegativeRoute,
    after: Seq<NegativeRoute>,
)
    requires
        before.len() < MAX_PATH_NEG_CACHE ==> base == before,
        before.len() >= MAX_PATH_NEG_CACHE ==> exists|v: int| #[trigger]
            victim(before, e.at, v) && base == before.remove(v),
        after == put_negative(base, e),
    ensures
        recorded_negative(before, e, after),
{
    if before.len() >= MAX_PATH_NEG_CACHE {
        let v = choose|v: int| #[trigger] victim(before, e.at, v) && base == before.remove(v);
        assert(victim(before, e.at, v) && after == put_negative(before.remove(v), e));
    }
}

/// What forgetting old negative routes makes of `before`.
pub open spec fn negatives_expired(
    before: RouterState,
    now: u64,
    after: RouterState,
) -> bool {
    &&& after == (RouterState {
        path_negative_cache: after.path_negative_cache,
        ..before
    })
    &&& after.path_negative_cache@ == before.path_negative_cache@.filter(
        |e: NegativeRoute| elapsed(now, e.at) < PATH_NEG_TTL,
    )
}

/// What the notice that `from` cannot route a tag makes of `before`.
pub open spec fn negative_taken(
    before: RouterState,
    from: PeerId,
    neg: PathNegative,
    now: u64,
    after: RouterState,
) -> bool {
    &&& after == (RouterState {
        peers: after.peers,
        path_negative_cache: after.path_negative_cache,
        outbox: after.outbox,
        ..before
    })
    &&& after.peers@ == touched(before.peers@, from, now)
    &&& recorded_negative(
        before.path_negative_cache@,
        NegativeRoute { peer: from, tag: neg.routing_tag, at: now },
        after.path_negative_cache@,
    )
    &&& ({
        let next = hop_by_tag(after, neg.routing_tag, Some(from), now);
        after.sent() == before.sent() + if neg.ttl > 1 && next is Some {
            negative_notice(
                after.peers@,
                next->0,
                neg.routing_tag,
                neg.ttl - 1,
            )
        } else {
            Seq::<Sent>::empty()
        }
    })
}

impl RouterState {
    /// Whether `peer` said not long ago that it cannot route `tag`.
    pub fn is_path_negative(&self, peer: &PeerId, tag: &[u8; 16], now: u64) -> (r: bool)
        ensures
            r == negative(self.path_negative_cache@, *peer, *tag, now),
    {
        let mut i: usize = 0;
        while i < self.path_negative_cache.len()
            invariant
                i <= self.path_negative_cache@.len(),
                forall|j: int|
                    0 <= j < i ==> !((#[trigger] self.path_negative_cache@[j]).peer == *peer
                        && self.path_negative_cache@[j].tag == *tag && elapsed(
                        now,
                        self.path_negative_cache@[j].at,
                    ) < PATH_NEG_TTL),
            decreases self.path_negative_cache@.len() - i,
        {
            let e: NegativeRoute = self.path_negative_cache[i];
            if key_eq(&e.peer, peer) && tags_eq(&e.tag, tag) && time_since(now, e.at)
                < PATH_NEG_TTL {
                assert(self.path_negative_cache@[i as int].peer == *peer);
                return true;
            }
            i = i + 1;
        }
        false
    }

    /// The entry that makes room for another one.
    fn negative_victim(&self, now: u64) -> (v: usize)
        requires
            self.path_negative_cache@.len() > 0,
        ensures
            victim(self.path_negative_cache@, now, v as int),
    {
        let ghost s = self.path_negative_cache@;
        let mut oldest: usize = 0;
        let mut i: usize = 1;
        while i < self.path_negative_cache.len()
            invariant
                s == self.path_negative_cache@,
                1 <= i <= s.len(),
                oldest < i,
                forall|j: int| 0 <= j < i ==> s[oldest as int].at <= (#[trigger] s[j]).at,
            decreases s.len() - i,
        {
            if self.path_negative_cache[i].at < self.path_negative_cache[oldest].at {
                oldest = i;
            }
            i = i + 1;
        }
        let cutoff: u64 = if now >= PATH_NEG_TTL {
            now - PATH_NEG_TTL
        } else {
            0
        };
        if self.path_negative_cache[oldest].at < cutoff {
            assert(s[oldest as int].at < negative_cutoff(now));
            oldest
        } else {
            proof {
                if exists|i: int| 0 <= i < s.len() && (#[trigger] s[i]).at < negative_cutoff(now) {
                    let j = choose|j: int|
                        0 <= j < s.len() && (#[trigger] s[j]).at < negative_cutoff(now);
                    assert(s[oldest as int].at <= s[j].at);
                }
            }
            0
        }
    }

    /// Remember that `peer` cannot route `tag`. Where the cache is full, an
    /// entry makes room.
    pub fn record_path_negative(&mut self, peer: PeerId, tag: [u8; 16], now: u64)
        requires
            old(self).wf(),
        ensures
            final(self).wf(),
            *final(self) == (RouterState {
                path_negative_cache: final(self).path_negative_cache,
                ..*old(self)
            }),
            recorded_negative(
                old(self).path_negative_cache@,
                NegativeRoute { peer, tag, at: now },
                final(self).path_negative_cache@,
            ),
    {
        let e: NegativeRoute = NegativeRoute { peer, tag, at: now };
        let ghost before = self.path_negative_cache@;
        let ghost rel = |a: NegativeRoute, b: NegativeRoute| a.peer != b.peer || a.tag != b.tag;
        if self.path_negative_cache.len() >= MAX_PATH_NEG_CACHE {
            let v: usize = self.negative_victim(now);
            let gone: NegativeRoute = self.path_negative_cache.remove(v);
            proof {
                lemma_remove(before, v as int, rel);
                assert(victim(before, now, v as int));
            }
        }
        let ghost base = self.path_negative_cache@;
        assert(distinct_negatives(base));
        assert(base.len() < MAX_PATH_NEG_CACHE);
        let mut i: usize = 0;
        while i < self.path_negative_cache.len()
            invariant
                *self == (RouterState {
                    path_negative_cache: self.path_negative_cache,
                    ..*old(self)
                }),
                old(self).wf(),
                base == self.path_negative_cache@,
                distinct_negatives(base),
                base.len() < MAX_PATH_NEG_CACHE,
                before == old(self).path_negative_cache@,
                before.len() < MAX_PATH_NEG_CACHE ==> base == before,
                before.len() >= MAX_PATH_NEG_CACHE ==> exists|v: int| #[trigger]
                    victim(before, now, v) && base == before.remove(v),
                e == (NegativeRoute { peer, tag, at: now }),
                i <= base.len(),
                forall|j: int| 0 <= j < i ==> !negative_at(base, peer, tag, j),
            decreases base.len() - i,
        {
            let f: NegativeRoute = self.path_negative_cache[i];
            if key_eq(&f.peer, &peer) && tags_eq(&f.tag, &tag) {
                self.path_negative_cache.set(i, e);
                proof {
                    assert(negative_at(base, peer, tag, i as int));
                    let c = negative_index(base, peer, tag);
                    assert(negative_at(base, peer, tag, c));
                    if c < i {
                        assert(base[c].peer != base[i as int].peer || base[c].tag
                            != base[i as int].tag);
                    } else if c > i {
                        assert(base[i as int].peer != base[c].peer || base[i as int].tag
                            != base[c].tag);
                    }
                    let after = self.path_negative_cache@;
                    assert(e.peer == peer && e.tag == tag && e.at == now);
                    assert(after == put_negative(base, e));
                    lemma_recorded(before, base, e, after);
                    assert forall|a: int, b: int|
                        #![trigger after[a], after[b]]
                        0 <= a < b < after.len() implies after[a].peer != after[b].peer
                        || after[a].tag != after[b].tag by {
                        assert(base[a].peer != base[b].peer || base[a].tag != base[b].tag);
                    }
                }
                return ;
            }
            i = i + 1;
        }
        self.path_negative_cache.push(e);
        proof {
            let after = self.path_negative_cache@;
            assert(!exists|c: int| negative_at(base, peer, tag, c));
            assert(e.at == now);
            assert(after == put_negative(base, e));
            lemma_recorded(before, base, e, after);
            assert forall|a: int, b: int|
                #![trigger after[a], after[b]]
                0 <= a < b < after.len() implies after[a].peer != after[b].peer || after[a].tag
                != after[b].tag by {
                if b < base.len() {
                    assert(base[a].peer != base[b].peer || base[a].tag != base[b].tag);
                } else {
                    assert(!negative_at(base, peer, tag, a));
                }
            }
        }
    }

    /// Forget the negative routes that are too old to count.
    pub fn cleanup_path_negative_cache(&mut self, now: u64)
        requires
            old(self).wf(),
        ensures
            final(self).wf(),
            negatives_expired(*old(self), now, *final(self)),
    {
        let ghost s = self.path_negative_cache@;
        let ghost keep = |e: NegativeRoute| elapsed(now, e.at) < PATH_NEG_TTL;
        let mut kept: Vec<NegativeRoute> = Vec::new();
        let mut i: usize = 0;
        proof {
            lemma_filter_ends(s, keep);
        }
        while i < self.path_negative_cache.len()
            invariant
                s == self.path_negative_cache@,
                i <= s.len(),
                keep == (|e: NegativeRoute| elapsed(now, e.at) < PATH_NEG_TTL),
                kept@ == s.take(i as int).filter(keep),
            decreases s.len() - i,
        {
            let e: NegativeRoute = self.path_negative_cache[i];
            proof {
                lemma_filter_step(s, keep, i as int);
            }
            if time_since(now, e.at) < PATH_NEG_TTL {
                kept.push(e);
            }
            i = i + 1;
        }
        proof {
            lemma_filter_ends(s, keep);
            lemma_filter(
                s,
                keep,
                |a: NegativeRoute, b: NegativeRoute| a.peer != b.peer || a.tag != b.tag,
            );
        }
        self.path_negative_cache = kept;
    }

    /// Tell `to` that packets with the tag `tag` cannot be routed here. A
    /// notice with no hops left is not sent.
    pub fn send_path_negative(&mut self, to: PeerId, tag: [u8; 16], ttl: u8)
        requires
            old(self).wf(),
        ensures
            final(self).wf(),
            *final(self) == (RouterState { outbox: final(self).outbox, ..*old(self) }),
            final(self).sent() == old(self).sent() + negative_notice(
                old(self).peers@,
                to,
                tag,
                ttl as int,
            ),
    {
        if ttl == 0 {
            assert(self.sent() =~= old(self).sent() + negative_notice(
                old(self).peers@,
                to,
                tag,
                0,
            ));
            return ;
        }
        let notice = PathNegative { routing_tag: tag, ttl };
        assert(notice@ =~= PathNegativeView { routing_tag: tag@, ttl });
        let frame: Vec<u8> = notice.encode();
        self.send_to_peer(&to, frame);
    }

    /// The next hop for a packet with the tag `tag`: of the neighbours that
    /// claim to reach it, that did not say otherwise, and that are not
    /// `exclude`, the one with the lowest trust-adjusted cost.
    pub fn lookup_by_tag_excluding(&self, tag: &[u8; 16], exclude: Option<PeerId>, now: u64) -> (r:
        Option<PeerId>)
        ensures
            r == hop_by_tag(*self, *tag, exclude, now),
    {
        let mut best: Option<usize> = None;
        let mut i: usize = 0;
        while i < self.peers.len()
            invariant
                i <= self.peers@.len(),
                match best {
                    Some(b) => tag_route(*self, *tag, exclude, now, i as int) == Some(b as int) && b
                        < i,
                    None => tag_route(*self, *tag, exclude, now, i as int) is None,
                },
            decreases self.peers@.len() - i,
        {
            let p: &PeerData = &self.peers[i];
            let skip: bool = match &exclude {
                Some(k) => key_eq(&p.pub_key, k),
                None => false,
            };
            if !skip && !self.is_path_negative(&p.pub_key, tag, now) && claims_tag(p, tag) {
                let take: bool = match best {
                    None => true,
                    Some(b) => p.tag_cost < self.peers[b].tag_cost,
                };
                if take {
                    best = Some(i);
                }
            }
            i = i + 1;
        }
        match best {
            Some(b) => Some(self.peers[b].pub_key),
            None => None,
        }
    }

    /// The next hop for a packet with the tag `tag`.
    pub fn lookup_by_tag(&self, tag: &[u8; 16], now: u64) -> (r: Option<PeerId>)
        ensures
            r == hop_by_tag(*self, *tag, None, now),
    {
        self.lookup_by_tag_excluding(tag, None, now)
    }

    fn greedy(&self, d: &Distances) -> (r: Option<usize>)
        ensures
            match r {
                Some(b) => greedy_route(*d, self.peers@.len() as int) == Some(b as int) && b
                    < self.peers@.len(),
                None => greedy_route(*d, self.peers@.len() as int) is None,
            },
    {
        let mut best: Option<usize> = None;
        let mut best_dist: u64 = d.own;
        let mut i: usize = 0;
        while i < self.peers.len()
            invariant
                i <= self.peers@.len(),
                match best {
                    Some(b) => greedy_route(*d, i as int) == Some(b as int) && b < i && closer(
                        *d,
                        b as int,
                    ) == Some(best_dist),
                    None => greedy_route(*d, i as int) is None && best_dist == d.own,
                },
            decreases self.peers@.len() - i,
        {
            if i < d.peers.len() {
                if let Some(x) = d.peers[i] {
                    if x < best_dist {
                        assert(closer(*d, i as int) == Some(x));
                        best_dist = x;
                        best = Some(i);
                    }
                }
            }
            i = i + 1;
        }
        best
    }

    pub(crate) fn cheapest_claim(&self, tag: &[u8; 16]) -> (r: Option<usize>)
        ensures
            match r {
                Some(b) => claim_route(self.peers@, tag@, self.peers@.len() as int) == Some(
                    b as int,
                ) && b < self.peers@.len(),
                None => claim_route(self.peers@, tag@, self.peers@.len() as int) is None,
            },
    {
        let mut best: Option<usize> = None;
        let mut i: usize = 0;
        while i < self.peers.len()
            invariant
                i <= self.peers@.len(),
                match best {
                    Some(b) => claim_route(self.peers@, tag@, i as int) == Some(b as int) && b < i,
                    None => claim_route(self.peers@, tag@, i as int) is None,
                },
            decreases self.peers@.len() - i,
        {
            if claims_tag(&self.peers[i], tag) {
                let take: bool = match best {
                    None => true,
                    Some(b) => self.peers[i].cost < self.peers[b].cost,
                };
                if take {
                    best = Some(i);
                }
            }
            i = i + 1;
        }
        best
    }

    fn closest_key(&self, dst: &PeerId) -> (r: Option<usize>)
        ensures
            match r {
                Some(b) => xor_route(self.peers@, dst@, self.peers@.len() as int) == Some(b as int)
                    && b < self.peers@.len(),
                None => xor_route(self.peers@, dst@, self.peers@.len() as int) is None,
            },
    {
        let mut best: Option<usize> = None;
        let mut best_dist: [u8; 32] = *dst;
        let mut i: usize = 0;
        while i < self.peers.len()
            invariant
                i <= self.peers@.len(),
                match best {
                    Some(b) => xor_route(self.peers@, dst@, i as int) == Some(b as int) && b < i
                        && best_dist@ == xor_bytes(self.peers@[b as int].pub_key@, dst@),
                    None => xor_route(self.peers@, dst@, i as int) is None,
                },
            decreases self.peers@.len() - i,
        {
            let dist: [u8; 32] = xor_keys(&self.peers[i].pub_key, dst);
            let take: bool = match best {
                None => true,
                Some(b) => metric_less(&dist, &best_dist) || (key_eq(&dist, &best_dist)
                    && self.peers[i].cost < self.peers[b].cost),
            };
            if take {
                best = Some(i);
                best_dist = dist;
            }
            i = i + 1;
        }
        best
    }

    /// The next hop towards `dst`. `d` gives the distances to `dst` where its
    /// coordinate is known.
    pub fn lookup(&self, dst: &PeerId, d: &Option<Distances>) -> (r: Option<PeerId>)
        ensures
            r == next_hop(*self, *dst, *d),
    {
        if let Some(dist) = d {
            if let Some(b) = self.greedy(dist) {
                return Some(self.peers[b].pub_key);
            }
        }
        let tag: [u8; 16] = routing_tag(dst);
        if let Some(b) = self.cheapest_claim(&tag) {
            return Some(self.peers[b].pub_key);
        }
        match self.closest_key(dst) {
            Some(b) => Some(self.peers[b].pub_key),
            None => None,
        }
    }

    /// A neighbour says that it cannot route a tag. The route is remembered as
    /// negative, and a neighbour that claims to reach the tag is told, as long
    /// as the notice has hops left.
    pub fn handle_path_negative(&mut self, from: PeerId, neg: PathNegative, now: u64)
        requires
            old(self).wf(),
        ensures
            final(self).wf(),
            negative_taken(*old(self), from, neg, now, *final(self)),
    {
        self.touch(&from, now);
        self.record_path_negative(from, neg.routing_tag, now);
        assert(self.sent() =~= old(self).sent() + Seq::<Sent>::empty());
        let ghost mid = *self;
        if neg.ttl > 1 {
            if let Some(next) = self.lookup_by_tag_excluding(&neg.routing_tag, Some(from), now) {
                self.send_path_negative(next, neg.routing_tag, neg.ttl - 1);
            }
        }
        proof {
            lemma_hop_by_tag_same(mid, *self, neg.routing_tag, Some(from), now);
        }
    }
}

/// The next hop for a tag follows from the neighbours and the negative routes
/// alone.
pub proof fn lemma_hop_by_tag_same(
    a: RouterState,
    b: RouterState,
    tag: [u8; 16],
    exclude: Option<PeerId>,
    now: u64,
)
    requires
        a.peers == b.peers,
        a.path_negative_cache == b.path_negative_cache,
    ensures
        hop_by_tag(a, tag, exclude, now) == hop_by_tag(b, tag, exclude, now),
{
    lemma_tag_route_same(a, b, tag, exclude, now, a.peers@.len() as int);
}

proof fn lemma_tag_route_same(
    a: RouterState,
    b: RouterState,
    tag: [u8; 16],
    exclude: Option<PeerId>,
    now: u64,
    n: int,
)
    requires
        a.peers == b.peers,
        a.path_negative_cache == b.path_negative_cache,
    ensures
        tag_route(a, tag, exclude, now, n) == tag_route(b, tag, exclude, now, n),
    decreases n,
{
    if n > 0 {
        lemma_tag_route_same(a, b, tag, exclude, now, n - 1);
    }
}

/// A neighbour that said it cannot route a tag is not chosen for that tag, nor
/// is the neighbour that the packet came from; the one chosen claims the tag,
/// and no other that could be chosen has a lower trust-adjusted cost.
pub proof fn chosen_by_tag_is_sound(
    s: RouterState,
    tag: [u8; 16],
    exclude: Option<PeerId>,
    now: u64,
    n: int,
)
    requires
        0 <= n <= s.peers@.len(),
    ensures
        match tag_route(s, tag, exclude, now, n) {
            Some(b) => {
                &&& 0 <= b < n
                &&& tag_ok(s, tag, exclude, now, b)
                &&& Some(s.peers@[b].pub_key) != exclude
                &&& !negative(s.path_negative_cache@, s.peers@[b].pub_key, tag, now)
                &&& forall|j: int|
                    0 <= j < n && tag_ok(s, tag, exclude, now, j) ==> s.peers@[b].tag_cost <= (
                    #[trigger] s.peers@[j]).tag_cost
            },
            None => forall|j: int| 0 <= j < n ==> !#[trigger] tag_ok(s, tag, exclude, now, j),
        },
    decreases n,
{
    if n > 0 {
        chosen_by_tag_is_sound(s, tag, exclude, now, n - 1);
    }
}

/// A greedy step takes a packet closer to its destination: the neighbour
/// chosen is closer than the node itself, and no other neighbour is closer.
pub proof fn greedy_step_gets_closer(d: Distances, n: int)
    ensures
        match greedy_route(d, n) {
            Some(b) => {
                &&& 0 <= b < n
                &&& closer(d, b) is Some && closer(d, b)->0 < d.own
                &&& forall|j: int|
                    0 <= j < n && (#[trigger] closer(d, j)) is Some ==> closer(d, b)->0 <= closer(
                        d,
                        j,
                    )->0
            },
            None => forall|j: int| 0 <= j < n ==> (#[trigger] closer(d, j)) is None,
        },
    decreases n,
{
    if n > 0 {
        greedy_step_gets_closer(d, n - 1);
    }
}

/// Once a negative route is recorded it counts, and it stops to count after
/// its time.
pub proof fn recorded_negative_counts(
    before: Seq<NegativeRoute>,
    e: NegativeRoute,
    after: Seq<NegativeRoute>,
    later: u64,
)
    requires
        distinct_negatives(before),
        recorded_negative(before, e, after),
        e.at <= later,
        distinct_negatives(after),
    ensures
        negative(after, e.peer, e.tag, later) <==> later - e.at < PATH_NEG_TTL,
{
    let base = if before.len() < MAX_PATH_NEG_CACHE {
        before
    } else {
        before.remove(choose|v: int| #[trigger]
            victim(before, e.at, v) && after == put_negative(before.remove(v), e))
    };
    assert(after == put_negative(base, e));
    let k = if exists|i: int| negative_at(base, e.peer, e.tag, i) {
        negative_index(base, e.peer, e.tag)
    } else {
        base.len() as int
    };
    assert(after[k] == e);
    if negative(after, e.peer, e.tag, later) {
        let i = choose|i: int|
            0 <= i < after.len() && (#[trigger] after[i]).peer == e.peer && after[i].tag == e.tag
                && elapsed(later, after[i].at) < PATH_NEG_TTL;
        if i < k {
            assert(after[i].peer != after[k].peer || after[i].tag != after[k].tag);
        } else if k < i {
            assert(after[k].peer != after[i].peer || after[k].tag != after[i].tag);
        }
    }
}

/// A neighbour claims a tag where the filter of one of its three trees, whichever
/// it is, holds the tag.
pub proof fn a_claim_in_any_tree_counts(p: PeerData, tag: Seq<u8>)
    ensures
        claims(p, tag) <==> p.cuckoo@[0]@.count(key_item(tag)) > 0 || p.cuckoo@[1]@.count(
            key_item(tag),
        ) > 0 || p.cuckoo@[2]@.count(key_item(tag)) > 0,
{
}

/// A neighbour is passed over for a tag exactly as long as it said less than a
/// minute ago that it cannot route the tag.
pub proof fn negative_routes_last_a_minute(
    cache: Seq<NegativeRoute>,
    peer: PeerId,
    tag: [u8; 16],
    now: u64,
)
    ensures
        negative(cache, peer, tag, now) <==> exists|i: int|
            0 <= i < cache.len() && (#[trigger] cache[i]).peer == peer && cache[i].tag == tag && now
                < cache[i].at + 60_000_000,
{
    if negative(cache, peer, tag, now) {
        let i = choose|i: int|
            0 <= i < cache.len() && (#[trigger] cache[i]).peer == peer && cache[i].tag == tag
                && elapsed(now, cache[i].at) < PATH_NEG_TTL;
        assert(now < cache[i].at + 60_000_000);
    }
    if exists|i: int|
        0 <= i < cache.len() && (#[trigger] cache[i]).peer == peer && cache[i].tag == tag && now
            < cache[i].at + 60_000_000 {
        let i = choose|i: int|
            0 <= i < cache.len() && (#[trigger] cache[i]).peer == peer && cache[i].tag == tag && now
                < cache[i].at + 60_000_000;
        assert(elapsed(now, cache[i].at) < PATH_NEG_TTL);
    }
}

/// Neighbour `i` claims the tag, is not the one to leave out, and did not say
/// lately that it cannot route the tag.
pub open spec fn takes_tag(
    s: RouterState,
    tag: [u8; 16],
    exclude: Option<PeerId>,
    now: u64,
    i: int,
) -> bool {
    &&& 0 <= i < s.peers@.len()
    &&& claims(s.peers@[i], tag@)
    &&& exclude != Some(s.peers@[i].pub_key)
    &&& !negative(s.path_negative_cache@, s.peers@[i].pub_key, tag, now)
}

/// The next hop for a tag is, of the neighbours that claim the tag, that did not
/// say lately that they cannot route it, and that are not the one to leave out,
/// one with the lowest trust-adjusted cost. There is none only where there is no
/// such neighbour.
pub proof fn the_hop_for_a_tag_is_the_cheapest(
    s: RouterState,
    tag: [u8; 16],
    exclude: Option<PeerId>,
    now: u64,
)
    ensures
        match hop_by_tag(s, tag, exclude, now) {
            Some(h) => exists|b: int| #[trigger]
                takes_tag(s, tag, exclude, now, b) && s.peers@[b].pub_key == h && exclude != Some(h)
                    && claims(s.peers@[b], tag@) && !negative(s.path_negative_cache@, h, tag, now)
                    && forall|j: int|
                    0 <= j < s.peers@.len() && claims(#[trigger] s.peers@[j], tag@) && exclude
                        != Some(s.peers@[j].pub_key) && !negative(
                        s.path_negative_cache@,
                        s.peers@[j].pub_key,
                        tag,
                        now,
                    ) ==> s.peers@[b].tag_cost <= s.peers@[j].tag_cost,
            None => forall|j: int|
                0 <= j < s.peers@.len() && claims(#[trigger] s.peers@[j], tag@) && exclude != Some(
                    s.peers@[j].pub_key,
                ) ==> negative(s.path_negative_cache@, s.peers@[j].pub_key, tag, now),
        },
{
    let n = s.peers@.len() as int;
    chosen_by_tag_is_sound(s, tag, exclude, now, n);
    match tag_route(s, tag, exclude, now, n) {
        Some(b) => {
            assert(tag_ok(s, tag, exclude, now, b));
            assert(takes_tag(s, tag, exclude, now, b));
            assert forall|j: int|
                0 <= j < s.peers@.len() && claims(#[trigger] s.peers@[j], tag@) && exclude != Some(
                    s.peers@[j].pub_key,
                ) && !negative(
                    s.path_negative_cache@,
                    s.peers@[j].pub_key,
                    tag,
                    now,
                ) implies s.peers@[b].tag_cost <= s.peers@[j].tag_cost by {
                assert(tag_ok(s, tag, exclude, now, j));
            }
        },
        None => {
            assert forall|j: int|
                0 <= j < s.peers@.len() && claims(#[trigger] s.peers@[j], tag@) && exclude != Some(
                    s.peers@[j].pub_key,
                ) implies negative(s.path_negative_cache@, s.peers@[j].pub_key, tag, now) by {
                assert(!tag_ok(s, tag, exclude, now, j));
            }
        },
    }
}

/// Of the neighbours that claim a tag, one with the lowest cost is chosen; none
/// only where none claims it.
pub proof fn the_cheapest_claim_is_chosen(peers: Seq<PeerData>, tag: Seq<u8>, n: int)
    requires
        0 <= n <= peers.len(),
    ensures
        match claim_route(peers, tag, n) {
            Some(b) => {
                &&& 0 <= b < n
                &&& claims(peers[b], tag)
                &&& forall|j: int|
                    0 <= j < n && claims(#[trigger] peers[j], tag) ==> peers[b].cost
                        <= peers[j].cost
            },
            None => forall|j: int| 0 <= j < n ==> !claims(#[trigger] peers[j], tag),
        },
    decreases n,
{
    if n > 0 {
        the_cheapest_claim_is_chosen(peers, tag, n - 1);
    }
}

/// Of all neighbours, one whose key is closest to that of the destination is
/// chosen, and of several the cheapest; none only where there is no neighbour.
pub proof fn the_closest_key_is_chosen(peers: Seq<PeerData>, dst: Seq<u8>, n: int)
    requires
        0 <= n <= peers.len(),
    ensures
        match xor_route(peers, dst, n) {
            Some(b) => {
                &&& 0 <= b < n
                &&& forall|j: int|
                    0 <= j < n ==> !lex_less(
                        xor_bytes((#[trigger] peers[j]).pub_key@, dst),
                        xor_bytes(peers[b].pub_key@, dst),
                    )
            },
            None => n == 0,
        },
    decreases n,
{
    if n > 0 {
        the_closest_key_is_chosen(peers, dst, n - 1);
        let last = xor_bytes(peers[n - 1].pub_key@, dst);
        metric_order_is_total(last, last, last);
        if let Some(b) = xor_route(peers, dst, n - 1) {
            let x = xor_bytes(peers[b].pub_key@, dst);
            metric_order_is_total(last, x, last);
            assert forall|j: int| 0 <= j < n - 1 && lex_less(last, x) implies !lex_less(
                xor_bytes((#[trigger] peers[j]).pub_key@, dst),
                last,
            ) by {
                metric_order_is_total(xor_bytes(peers[j].pub_key@, dst), last, x);
            }
        }
    }
}

/// Neighbour `j` is known to be closer to the destination than the node itself.
pub open spec fn gets_closer(s: RouterState, d: Option<Distances>, j: int) -> bool {
    &&& d is Some
    &&& 0 <= j < s.peers@.len()
    &&& j < d->0.peers@.len()
    &&& d->0.peers@[j] matches Some(x) && x < d->0.own
}

/// The next hop towards a node is a neighbour, and there is one wherever the node
/// has neighbours at all. Where some neighbours are closer to the destination
/// than the node itself, it is the closest of them. Or else, where some claim to
/// reach the destination, it is one of those with the lowest cost. Or else it is
/// one whose key is closest to that of the destination.
pub proof fn the_next_hop_is_the_best(s: RouterState, dst: PeerId, d: Option<Distances>)
    ensures
        match next_hop(s, dst, d) {
            Some(h) => exists|b: int|
                {
                    &&& 0 <= b < s.peers@.len()
                    &&& (#[trigger] s.peers@[b]).pub_key == h
                    &&& if exists|j: int| gets_closer(s, d, j) {
                        gets_closer(s, d, b) && forall|j: int| #[trigger]
                            gets_closer(s, d, j) ==> d->0.peers@[b]->0 <= d->0.peers@[j]->0
                    } else if exists|j: int|
                        0 <= j < s.peers@.len() && claims(#[trigger] s.peers@[j], tag_of(dst@)) {
                        claims(s.peers@[b], tag_of(dst@)) && forall|j: int|
                            0 <= j < s.peers@.len() && claims(#[trigger] s.peers@[j], tag_of(dst@))
                                ==> s.peers@[b].cost <= s.peers@[j].cost
                    } else {
                        forall|j: int|
                            0 <= j < s.peers@.len() ==> !lex_less(
                                xor_bytes((#[trigger] s.peers@[j]).pub_key@, dst@),
                                xor_bytes(s.peers@[b].pub_key@, dst@),
                            )
                    }
                },
            None => s.peers@.len() == 0,
        },
{
    let n = s.peers@.len() as int;
    the_cheapest_claim_is_chosen(s.peers@, tag_of(dst@), n);
    the_closest_key_is_chosen(s.peers@, dst@, n);
    if let Some(dist) = d {
        greedy_step_gets_closer(dist, n);
        assert forall|j: int| 0 <= j < n implies (closer(dist, j) is Some <==> #[trigger]
            gets_closer(s, d, j)) by {}
        if let Some(b) = greedy_route(dist, n) {
            assert(gets_closer(s, d, b));
            assert forall|j: int| #[trigger] gets_closer(s, d, j) implies d->0.peers@[b]->0
                <= d->0.peers@[j]->0 by {
                assert(closer(dist, j) is Some);
            }
        }
    }
    if let Some(b) = route_to(s, dst, d) {
        assert(s.peers@[b].pub_key == next_hop(s, dst, d)->0);
    }
}

/// Recording a negative route drops at most one other entry, and none as long as
/// there are fewer than 16384. While there are entries of more than a minute ago,
/// the one dropped is of more than a minute ago.
pub proof fn negative_routes_are_kept(
    before: Seq<NegativeRoute>,
    e: NegativeRoute,
    after: Seq<NegativeRoute>,
    i: int,
)
    requires
        distinct_negatives(before),
        recorded_negative(before, e, after),
        0 <= i < before.len(),
        before[i].peer != e.peer || before[i].tag != e.tag,
    ensures
        before.len() < 16384 ==> after.contains(before[i]),
        after.len() + 1 >= before.len(),
        after.len() <= before.len() + 1,
        before.len() >= 16384 && !after.contains(before[i]) ==> (exists|j: int|
            0 <= j < before.len() && (#[trigger] before[j]).at + 60_000_000 < e.at)
            ==> before[i].at + 60_000_000 < e.at,
        after.contains(e),
{
    let full = before.len() >= MAX_PATH_NEG_CACHE;
    let v = if full {
        choose|v: int| #[trigger]
            victim(before, e.at, v) && after == put_negative(before.remove(v), e)
    } else {
        before.len() as int
    };
    let base = if full {
        before.remove(v)
    } else {
        before
    };
    if exists|k: int| negative_at(base, e.peer, e.tag, k) {
        let k = negative_index(base, e.peer, e.tag);
        assert(negative_at(base, e.peer, e.tag, k));
        assert(after[k] == e);
    } else {
        assert(after[base.len() as int] == e);
    }
    if i != v {
        let j = if i < v {
            i
        } else {
            i - 1
        };
        assert(base[j] == before[i]);
        assert(after[j] == before[i]);
    }
}

/// A notice that a neighbour cannot route a tag is remembered, with its time. As long as
/// it has hops left, the neighbour that is now the next hop for the tag gets it too,
/// with one hop less; nobody else does.
pub proof fn negative_routes_are_passed_on(
    before: RouterState,
    from: PeerId,
    neg: PathNegative,
    now: u64,
    after: RouterState,
)
    requires
        before.wf(),
        after.wf(),
        negative_taken(before, from, neg, now, after),
    ensures
        negative(after.path_negative_cache@, from, neg.routing_tag, now),
        hop_by_tag(after, neg.routing_tag, Some(from), now) != Some(from),
        match hop_by_tag(after, neg.routing_tag, Some(from), now) {
            Some(h) => if neg.ttl > 1 && (exists|i: int|
                0 <= i < after.peers@.len() && (#[trigger] after.peers@[i]).pub_key == h
                    && after.peers@[i].links@.len() > 0) {
                after.sent() == before.sent().push(
                    Sent {
                        to: h,
                        frame: seq![TYPE_PATH_NEGATIVE] + (PathNegativeView {
                            routing_tag: neg.routing_tag@,
                            ttl: (neg.ttl - 1) as u8,
                        }).wire(),
                    },
                )
            } else {
                after.sent() == before.sent()
            },
            None => after.sent() == before.sent(),
        },
{
    let e = NegativeRoute { peer: from, tag: neg.routing_tag, at: now };
    recorded_negative_counts(
        before.path_negative_cache@,
        e,
        after.path_negative_cache@,
        now,
    );
    the_hop_for_a_tag_is_the_cheapest(after, neg.routing_tag, Some(from), now);
    if let Some(h) = hop_by_tag(after, neg.routing_tag, Some(from), now) {
        let frame = seq![TYPE_PATH_NEGATIVE] + (PathNegativeView {
            routing_tag: neg.routing_tag@,
            ttl: (neg.ttl - 1) as u8,
        }).wire();
        crate::state::frames_go_to_neighbours(after.peers@, h, frame);
        if neg.ttl > 1 {
            if exists|i: int|
                0 <= i < after.peers@.len() && (#[trigger] after.peers@[i]).pub_key == h
                    && after.peers@[i].links@.len() > 0 {
                assert(one(after.peers@, h, frame) == seq![Sent { to: h, frame }]);
                assert(after.sent() =~= before.sent().push(Sent { to: h, frame }));
            } else {
                assert forall|i: int|
                    0 <= i < after.peers@.len() && (#[trigger] after.peers@[i]).pub_key
                        == h implies after.peers@[i].links@.len() == 0 by {}
                assert(after.sent() =~= before.sent());
            }
        } else {
            assert(after.sent() =~= before.sent());
        }
    } else {
        assert(after.sent() =~= before.sent());
    }
}

} // verus!
