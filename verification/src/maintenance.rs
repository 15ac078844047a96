//! The upkeep of a node, once a second.
//!
//! It has two parts. The first drops silent neighbours and mends the trees;
//! the depth that results gives the node's new coordinate, with which the
//! second part starts. Coordinates, and the trust in neighbours, are not
//! integers: both are left to functions that the caller gives.

use crate::bytes::read_array;
use crate::crypto::random_key;
use crate::gossip::{coord_announced, coord_set, filters_sent};
use crate::lookup::negatives_expired;
use crate::onionkeys::{key_announced, keys_rotated};
use crate::peers::{alive, peers_expired};
use crate::pings::all_pinged;
use crate::reputation::{
    claim_probed, lookups_expired, probes_expired, reported, reported_all,
};
use crate::router::{
    elapsed, lex_less, root_metric, time_since, tree_seed, PeerId, K, KEEPALIVE_TICKS, KEY_ROTATION_INTERVAL,
    ONION_KEY_ANNOUNCE_TICKS, PEER_TIMEOUT, PROBE_INTERVAL_TICKS, REPUTATION_REPORT_TICKS,
    SESSION_IDLE_EXPIRY,
};
use crate::state::{has_peer, is_at, PeerData, RouterState};
use crate::tables::{lemma_filter_ends, lemma_filter_members, lemma_filter_step};
use crate::tree::{
    below, best_of, the_parent_is_the_cheapest_way_to_the_best_root, tree_announced, tree_fixed,
};
use vstd::prelude::*;

verus! {

broadcast use vstd::array::group_array_axioms;

fn random_tags(n: usize) -> (tags: Vec<[u8; 16]>)
    ensures
        tags@.len() == n,
{
    let mut tags: Vec<[u8; 16]> = Vec::new();
    while tags.len() < n
        invariant
            tags@.len() <= n,
        decreases n - tags@.len(),
    {
        let bytes: [u8; 32] = random_key();
        let tag: [u8; 16] = read_array(bytes.as_slice(), 0);
        tags.push(tag);
    }
    tags
}

/// The time, as the upkeep needs it.
#[derive(Clone, Copy, Debug)]
pub struct Clock {
    /// Of a monotonic clock, in microseconds.
    pub now: u64,
    /// Since the Unix epoch, in milliseconds.
    pub now_ms: u64,
    /// The tree epoch.
    pub epoch: u64,
}

/// The state one tick later.
pub open spec fn ticked(s: RouterState) -> RouterState {
    RouterState { tick: s.tick.wrapping_add(1), ..s }
}

/// What mending tree `t` makes of `before`. `poison` is the number of tags that
/// the filters hold without reason.
pub open spec fn tree_upkept(
    before: RouterState,
    t: int,
    now: u64,
    epoch: u64,
    accelerated: Option<u64>,
    poison: usize,
    after: RouterState,
) -> bool {
    exists|x: RouterState, y: RouterState, tags: Seq<[u8; 16]>|
        #![trigger tree_fixed(before, t, now, epoch, x), tree_announced(x, t, y), filters_sent(y, t, accelerated, tags, after)]
        tree_fixed(before, t, now, epoch, x) && tree_announced(x, t, y) && filters_sent(
            y,
            t,
            accelerated,
            tags,
            after,
        ) && tags.len() == poison
}

/// What the first part of the upkeep makes of `before`.
pub open spec fn upkeep_begun(
    before: RouterState,
    now: u64,
    epoch: u64,
    accelerated: Option<u64>,
    poison: usize,
    after: RouterState,
) -> bool {
    exists|a: RouterState, b: RouterState, c: RouterState|
        #![trigger peers_expired(ticked(before), now, a), tree_upkept(a, 0, now, epoch, accelerated, poison, b), tree_upkept(b, 1, now, epoch, accelerated, poison, c)]
        peers_expired(ticked(before), now, a) && tree_upkept(
            a,
            0,
            now,
            epoch,
            accelerated,
            poison,
            b,
        ) && tree_upkept(b, 1, now, epoch, accelerated, poison, c) && tree_upkept(
            c,
            2,
            now,
            epoch,
            accelerated,
            poison,
            after,
        )
}

/// Whether neighbours are pinged at this tick.
pub open spec fn ping_tick(tick: u32) -> bool {
    tick % KEEPALIVE_TICKS == 0
}

/// Whether the onion key is announced at this tick, though it did not change.
pub open spec fn key_tick(tick: u32) -> bool {
    tick == 1 || tick % ONION_KEY_ANNOUNCE_TICKS == 0
}

/// Whether a claim is probed at this tick.
pub open spec fn probe_tick(tick: u32) -> bool {
    tick % PROBE_INTERVAL_TICKS == 0 && tick > 0
}

/// Whether trust is reported at this tick.
pub open spec fn report_tick(tick: u32) -> bool {
    tick % REPUTATION_REPORT_TICKS == 0 && tick > 0
}

/// `c` holds the states after each step of the second part of the upkeep.
pub open spec fn upkeep_steps(
    before: RouterState,
    coord: [u8; 16],
    scores: Seq<u16>,
    accelerated: Option<u64>,
    fresh: Seq<u8>,
    now: u64,
    now_ms: u64,
    c: Seq<RouterState>,
) -> bool {
    let tick = before.tick;
    &&& c.len() == 10
    &&& coord_set(before, coord, c[0])
    &&& coord_announced(c[0], c[1])
    &&& if ping_tick(tick) {
        all_pinged(c[1], now, now_ms, c[2])
    } else {
        c[2] == c[1]
    }
    &&& keys_rotated(c[2], accelerated, fresh, now, now_ms, c[3])
    &&& if key_tick(tick) {
        key_announced(c[3], now, now_ms, c[4])
    } else {
        c[4] == c[3]
    }
    &&& if probe_tick(tick) {
        claim_probed(c[4], now, c[5])
    } else {
        c[5] == c[4]
    }
    &&& if report_tick(tick) {
        reported_all(c[5], scores, scores.len() as int, now, now_ms, c[6])
    } else {
        c[6] == c[5]
    }
    &&& probes_expired(c[6], now, c[7])
    &&& lookups_expired(c[7], now, c[8])
    &&& negatives_expired(c[8], now, c[9])
}

/// What the second part of the upkeep makes of `before`. The new onion key,
/// where there is one, is random.
pub open spec fn upkeep_finished(
    before: RouterState,
    coord: [u8; 16],
    scores: Seq<u16>,
    accelerated: Option<u64>,
    now: u64,
    now_ms: u64,
    after: RouterState,
) -> bool {
    exists|fresh: Seq<u8>, c: Seq<RouterState>| #[trigger]
        upkeep_steps(before, coord, scores, accelerated, fresh, now, now_ms, c) && c[9] == after
}

impl RouterState {
    fn upkeep_tree(
        &mut self,
        t: usize,
        now: u64,
        epoch: u64,
        accelerated: Option<u64>,
        poison: usize,
    )
        requires
            old(self).wf(),
            t < K,
        ensures
            final(self).wf(),
            tree_upkept(*old(self), t as int, now, epoch, accelerated, poison, *final(self)),
    {
        self.fix_tree(t, now, epoch);
        let ghost x = *self;
        self.send_announces(t);
        let ghost y = *self;
        let tags: Vec<[u8; 16]> = random_tags(poison);
        self.cuckoo_do_maintenance(t, accelerated, &tags);
        proof {
            assert(tree_fixed(*old(self), t as int, now, epoch, x));
            assert(tree_announced(x, t as int, y));
            assert(filters_sent(y, t as int, accelerated, tags@, *self));
        }
    }

    /// The first part of the upkeep.
    fn begin_maintenance(
        &mut self,
        now: u64,
        epoch: u64,
        accelerated: Option<u64>,
        poison: usize,
    )
        requires
            old(self).wf(),
        ensures
            final(self).wf(),
            upkeep_begun(*old(self), now, epoch, accelerated, poison, *final(self)),
    {
        self.tick = self.tick.wrapping_add(1);
        assert(*self == ticked(*old(self)));
        self.expire_peers(now);
        let ghost a = *self;
        assert(peers_expired(ticked(*old(self)), now, a));
        self.upkeep_tree(0, now, epoch, accelerated, poison);
        let ghost b = *self;
        self.upkeep_tree(1, now, epoch, accelerated, poison);
        let ghost c = *self;
        self.upkeep_tree(2, now, epoch, accelerated, poison);
        proof {
            assert(tree_upkept(a, 0, now, epoch, accelerated, poison, b));
            assert(tree_upkept(b, 1, now, epoch, accelerated, poison, c));
            assert(tree_upkept(c, 2, now, epoch, accelerated, poison, *self));
        }
    }

    /// The second part of the upkeep. `coord` is the node's coordinate, `scores`
    /// the trust in each neighbour, in their order.
    fn finish_maintenance(
        &mut self,
        coord: [u8; 16],
        scores: &Vec<u16>,
        accelerated: Option<u64>,
        now: u64,
        now_ms: u64,
    )
        requires
            old(self).wf(),
            scores@.len() == old(self).peers@.len(),
        ensures
            final(self).wf(),
            upkeep_finished(
                *old(self),
                coord,
                scores@,
                accelerated,
                now,
                now_ms,
                *final(self),
            ),
    {
        let tick: u32 = self.tick;
        self.update_own_coord(coord);
        let ghost c0 = *self;
        self.broadcast_coord();
        let ghost c1 = *self;
        if tick % KEEPALIVE_TICKS == 0 {
            self.send_keepalives(now, now_ms);
        }
        let ghost c2 = *self;
        let fresh: [u8; 32] = random_key();
        self.rotate_onion_keys_if_due(accelerated, fresh, now, now_ms);
        let ghost c3 = *self;
        if tick == 1 || tick % ONION_KEY_ANNOUNCE_TICKS == 0 {
            self.broadcast_onion_key_announce(now, now_ms);
        }
        let ghost c4 = *self;
        if tick % PROBE_INTERVAL_TICKS == 0 && tick > 0 {
            self.probe_cuckoo_claim(now);
        }
        let ghost c5 = *self;
        if tick % REPUTATION_REPORT_TICKS == 0 && tick > 0 {
            self.broadcast_reputation(scores, now, now_ms);
        }
        let ghost c6 = *self;
        self.cleanup_stale_probes(now);
        let ghost c7 = *self;
        self.cleanup_stale_lookups(now);
        let ghost c8 = *self;
        self.cleanup_path_negative_cache(now);
        proof {
            let c = seq![c0, c1, c2, c3, c4, c5, c6, c7, c8, *self];
            assert(upkeep_steps(
                *old(self),
                coord,
                scores@,
                accelerated,
                fresh@,
                now,
                now_ms,
                c,
            ));
        }
    }

    /// The upkeep of the node, once a second. `coord_of` gives the coordinate
    /// of the node at a depth, `score_of` the trust in a neighbour.
    pub fn do_maintenance<F: Fn(u32) -> [u8; 16], G: Fn(PeerId) -> u16>(
        &mut self,
        coord_of: F,
        score_of: G,
        clock: Clock,
        accelerated: Option<u64>,
        poison: usize,
    )
        requires
            old(self).wf(),
            forall|depth: u32| #[trigger] call_requires(coord_of, (depth,)),
            forall|key: PeerId| #[trigger] call_requires(score_of, (key,)),
        ensures
            final(self).wf(),
            exists|mid: RouterState, coord: [u8; 16], scores: Seq<u16>|
                #![trigger upkeep_finished(mid, coord, scores, accelerated, clock.now, clock.now_ms, *final(self))]
                {
                    &&& upkeep_begun(
                        *old(self),
                        clock.now,
                        clock.epoch,
                        accelerated,
                        poison,
                        mid,
                    )
                    &&& call_ensures(coord_of, (mid.own_depth,), coord)
                    &&& scores.len() == mid.peers@.len()
                    &&& forall|i: int|
                        0 <= i < scores.len() ==> call_ensures(
                            score_of,
                            (mid.peers@[i].pub_key,),
                            #[trigger] scores[i],
                        )
                    &&& upkeep_finished(
                        mid,
                        coord,
                        scores,
                        accelerated,
                        clock.now,
                        clock.now_ms,
                        *final(self),
                    )
                },
    {
        self.begin_maintenance(clock.now, clock.epoch, accelerated, poison);
        let ghost mid = *self;
        let coord: [u8; 16] = coord_of(self.own_depth);
        let mut scores: Vec<u16> = Vec::new();
        while scores.len() < self.peers.len()
            invariant
                *self == mid,
                forall|key: PeerId| #[trigger] call_requires(score_of, (key,)),
                scores@.len() <= mid.peers@.len(),
                forall|i: int|
                    0 <= i < scores@.len() ==> call_ensures(
                        score_of,
                        (mid.peers@[i].pub_key,),
                        #[trigger] scores@[i],
                    ),
            decreases mid.peers@.len() - scores@.len(),
        {
            let key: PeerId = self.peers[scores.len()].pub_key;
            scores.push(score_of(key));
        }
        self.finish_maintenance(coord, &scores, accelerated, clock.now, clock.now_ms);
    }
}

/// What decides over the upkeep of a session.
#[derive(Clone, Copy, Debug)]
pub struct SessionInfo {
    pub peer: PeerId,
    pub established: bool,
    /// Messages sent so far.
    pub local_seq: u64,
    pub last_used: u64,
}

/// The session needs a new key.
pub open spec fn needs_key(s: SessionInfo) -> bool {
    s.established && s.local_seq > 0 && s.local_seq % KEY_ROTATION_INTERVAL == 0
}

/// The session has not been idle for too long.
pub open spec fn in_use(s: SessionInfo, now: u64) -> bool {
    elapsed(now, s.last_used) < SESSION_IDLE_EXPIRY
}

/// The sessions that need a new key.
pub fn rotate_session_keys(sessions: &Vec<SessionInfo>) -> (r: Vec<SessionInfo>)
    ensures
        r@ == sessions@.filter(|s: SessionInfo| needs_key(s)),
{
    let ghost all = sessions@;
    let ghost keep = |s: SessionInfo| needs_key(s);
    let mut r: Vec<SessionInfo> = Vec::new();
    let mut i: usize = 0;
    proof {
        lemma_filter_ends(all, keep);
    }
    while i < sessions.len()
        invariant
            all == sessions@,
            i <= all.len(),
            keep == (|s: SessionInfo| needs_key(s)),
            r@ == all.take(i as int).filter(keep),
        decreases all.len() - i,
    {
        let s: SessionInfo = sessions[i];
        proof {
            lemma_filter_step(all, keep, i as int);
        }
        if s.established && s.local_seq > 0 && s.local_seq % KEY_ROTATION_INTERVAL == 0 {
            r.push(s);
        }
        i = i + 1;
    }
    proof {
        lemma_filter_ends(all, keep);
    }
    r
}

/// The sessions without those that have been idle for too long.
pub fn cleanup_stale_sessions(sessions: &Vec<SessionInfo>, now: u64) -> (r: Vec<SessionInfo>)
    ensures
        r@ == sessions@.filter(|s: SessionInfo| in_use(s, now)),
{
    let ghost all = sessions@;
    let ghost keep = |s: SessionInfo| in_use(s, now);
    let mut r: Vec<SessionInfo> = Vec::new();
    let mut i: usize = 0;
    proof {
        lemma_filter_ends(all, keep);
    }
    while i < sessions.len()
        invariant
            all == sessions@,
            i <= all.len(),
            keep == (|s: SessionInfo| in_use(s, now)),
            r@ == all.take(i as int).filter(keep),
        decreases all.len() - i,
    {
        let s: SessionInfo = sessions[i];
        proof {
            lemma_filter_step(all, keep, i as int);
        }
        if time_since(now, s.last_used) < SESSION_IDLE_EXPIRY {
            r.push(s);
        }
        i = i + 1;
    }
    proof {
        lemma_filter_ends(all, keep);
    }
    r
}

/// The parent in tree `t`, where there is one, is a neighbour.
pub open spec fn parent_known(s: RouterState, t: int) -> bool {
    s.trees@[t].parent matches Some(p) ==> has_peer(s.peers@, p)
}

/// No neighbour has been silent for too long.
pub open spec fn all_alive(s: RouterState, now: u64) -> bool {
    forall|i: int|
        0 <= i < s.peers@.len() ==> elapsed(now, (#[trigger] s.peers@[i]).last_rx) <= PEER_TIMEOUT
}

/// After the upkeep, whatever the state before, the parent in each tree is a
/// neighbour, and no neighbour has been silent for too long.
pub proof fn upkeep_mends_the_trees(
    before: RouterState,
    coord: [u8; 16],
    scores: Seq<u16>,
    clock: Clock,
    accelerated: Option<u64>,
    poison: usize,
    mid: RouterState,
    after: RouterState,
)
    requires
        upkeep_begun(before, clock.now, clock.epoch, accelerated, poison, mid),
        upkeep_finished(mid, coord, scores, accelerated, clock.now, clock.now_ms, after),
    ensures
        forall|t: int| 0 <= t < K ==> #[trigger] parent_known(after, t),
        all_alive(after, clock.now),
{
    let now = clock.now;
    let epoch = clock.epoch;
    let (a, b, c) = choose|a: RouterState, b: RouterState, c: RouterState|
        #![trigger peers_expired(ticked(before), now, a), tree_upkept(a, 0, now, epoch, accelerated, poison, b), tree_upkept(b, 1, now, epoch, accelerated, poison, c)]
        peers_expired(ticked(before), now, a) && tree_upkept(
            a,
            0,
            now,
            epoch,
            accelerated,
            poison,
            b,
        ) && tree_upkept(b, 1, now, epoch, accelerated, poison, c) && tree_upkept(
            c,
            2,
            now,
            epoch,
            accelerated,
            poison,
            mid,
        );
    lemma_alive(before.peers@, now);
    lemma_tree_upkept(a, 0, now, epoch, accelerated, poison, b);
    lemma_tree_upkept(b, 1, now, epoch, accelerated, poison, c);
    lemma_tree_upkept(c, 2, now, epoch, accelerated, poison, mid);
    assert(parent_known(mid, 0) && parent_known(mid, 1) && parent_known(mid, 2));
    let (fresh, steps) = choose|fresh: Seq<u8>, steps: Seq<RouterState>| #[trigger]
        upkeep_steps(mid, coord, scores, accelerated, fresh, now, clock.now_ms, steps) && steps[9]
            == after;
    lemma_reports_keep_trees(steps[5], scores, scores.len() as int, now, clock.now_ms, steps[6]);
    assert(after.trees == mid.trees);
    assert(after.peers@.len() == mid.peers@.len());
    assert forall|i: int| 0 <= i < mid.peers@.len() implies (#[trigger] after.peers@[i]).pub_key
        == mid.peers@[i].pub_key && after.peers@[i].last_rx == mid.peers@[i].last_rx by {}
    assert forall|t: int| 0 <= t < K implies #[trigger] parent_known(after, t) by {
        assert(parent_known(mid, t));
        if let Some(p) = mid.trees@[t].parent {
            let i = choose|i: int| is_at(mid.peers@, p, i);
            assert(is_at(after.peers@, p, i));
        }
    }
}

proof fn lemma_alive(peers: Seq<PeerData>, now: u64)
    ensures
        forall|i: int|
            0 <= i < alive(peers, now).len() ==> elapsed(
                now,
                (#[trigger] alive(peers, now)[i]).last_rx,
            ) <= PEER_TIMEOUT,
    decreases peers.len(),
{
    if peers.len() > 0 {
        lemma_alive(peers.drop_last(), now);
    }
}

/// Mending a tree leaves a parent that is a neighbour, the other trees, and the
/// neighbours as they are.
proof fn lemma_tree_upkept(
    before: RouterState,
    t: int,
    now: u64,
    epoch: u64,
    accelerated: Option<u64>,
    poison: usize,
    after: RouterState,
)
    requires
        0 <= t < K,
        tree_upkept(before, t, now, epoch, accelerated, poison, after),
    ensures
        after.peers == before.peers,
        parent_known(after, t),
        forall|u: int| 0 <= u < K && u != t ==> #[trigger] after.trees@[u] == before.trees@[u],
{
    let (x, y, tags) = choose|x: RouterState, y: RouterState, tags: Seq<[u8; 16]>|
        #![trigger tree_fixed(before, t, now, epoch, x), tree_announced(x, t, y), filters_sent(y, t, accelerated, tags, after)]
        tree_fixed(before, t, now, epoch, x) && tree_announced(x, t, y) && filters_sent(
            y,
            t,
            accelerated,
            tags,
            after,
        ) && tags.len() == poison;
    assert(after.trees == x.trees);
    if let Some(p) = after.trees@[t].parent {
        let n = before.peers@.len() as int;
        let i = choose|i: int| #[trigger]
            best_of(before.peers@, t, now, epoch, n, i) && x.trees@ == before.trees@.update(
                t,
                below(before, t, i),
            );
        assert(is_at(before.peers@, p, i));
    }
}

proof fn lemma_reports_keep_trees(
    before: RouterState,
    scores: Seq<u16>,
    n: int,
    now: u64,
    now_ms: u64,
    after: RouterState,
)
    ensures
        reported_all(before, scores, n, now, now_ms, after) ==> after.trees == before.trees
            && after.peers == before.peers,
    decreases n,
{
    if n > 0 && reported_all(before, scores, n, now, now_ms, after) {
        let mid = choose|mid: RouterState|
            reported_all(before, scores, n - 1, now, now_ms, mid) && #[trigger] reported(
                mid,
                n - 1,
                scores[n - 1],
                now,
                now_ms,
                after,
            );
        lemma_reports_keep_trees(before, scores, n - 1, now, now_ms, mid);
    }
}

/// A session gets a new key exactly where it is established and has sent a multiple
/// of a hundred messages, and some at all.
pub proof fn session_keys_last_a_hundred_messages(sessions: Seq<SessionInfo>, s: SessionInfo)
    ensures
        sessions.filter(|x: SessionInfo| needs_key(x)).contains(s) <==> sessions.contains(s)
            && s.established && s.local_seq >= 100 && s.local_seq % 100 == 0,
{
    lemma_filter_members(sessions, |x: SessionInfo| needs_key(x), s);
}

/// A session is kept exactly as long as it was used less than five minutes ago.
pub proof fn sessions_last_five_minutes(sessions: Seq<SessionInfo>, s: SessionInfo, now: u64)
    ensures
        sessions.filter(|x: SessionInfo| in_use(x, now)).contains(s) <==> sessions.contains(s)
            && now < s.last_used + 300_000_000,
{
    lemma_filter_members(sessions, |x: SessionInfo| in_use(x, now), s);
}

/// The state once the steps of the upkeep up to the reports are done.
proof fn lemma_reports_count(
    before: RouterState,
    scores: Seq<u16>,
    n: int,
    now: u64,
    now_ms: u64,
    after: RouterState,
)
    requires
        n >= 0,
        reported_all(before, scores, n, now, now_ms, after),
    ensures
        after == (RouterState {
            own_reputation_seq: after.own_reputation_seq,
            reputation: after.reputation,
            outbox: after.outbox,
            ..before
        }),
        n == 0 ==> after.own_reputation_seq == before.own_reputation_seq,
        before.own_reputation_seq + n <= u64::MAX ==> after.own_reputation_seq
            == before.own_reputation_seq + n,
    decreases n,
{
    if n > 0 {
        let mid = choose|mid: RouterState|
            reported_all(before, scores, n - 1, now, now_ms, mid) && #[trigger] reported(
                mid,
                n - 1,
                scores[n - 1],
                now,
                now_ms,
                after,
            );
        lemma_reports_count(before, scores, n - 1, now, now_ms, mid);
    }
}

/// The upkeep keeps its rhythm. Every fifth tick the neighbours are pinged; the
/// trust in each of them is reported every sixtieth; the onion key is announced at
/// the first tick and every three hundredth, and it is replaced every 3600th. The own
/// coordinate is taken over at each.
pub proof fn the_upkeep_keeps_its_rhythm(
    before: RouterState,
    coord: [u8; 16],
    scores: Seq<u16>,
    now: u64,
    now_ms: u64,
    after: RouterState,
    i: int,
)
    requires
        before.wf(),
        upkeep_finished(before, coord, scores, None, now, now_ms, after),
        before.own_reputation_seq + scores.len() <= u64::MAX,
        before.own_onion_key_seq + 2 <= u64::MAX,
        0 <= i < before.peers@.len(),
    ensures
        after.tick == before.tick,
        after.trees == before.trees,
        after.own_coord == coord,
        after.peers@.len() == before.peers@.len(),
        before.tick % 5 == 0 ==> after.peers@[i].sig_req_seq == before.peers@[i].sig_req_seq.wrapping_add(
            1,
        ) && after.peers@[i].pending_sig_req == Some((after.peers@[i].sig_req_seq, now)),
        before.tick % 5 != 0 ==> after.peers@[i] == before.peers@[i],
        after.own_reputation_seq == before.own_reputation_seq + if before.tick > 0 && before.tick
            % 60 == 0 {
            scores.len() as int
        } else {
            0
        },
        after.own_onion_key_seq == before.own_onion_key_seq + (if before.tick == 1 || before.tick
            % 300 == 0 {
            1int
        } else {
            0int
        }) + (if before.tick > 0 && before.tick % 3600 == 0 {
            1int
        } else {
            0int
        }),
        before.tick > 0 && before.tick % 3600 == 0 ==> after.onion_keys@.previous == Some(
            before.onion_keys@.current,
        ),
        before.tick == 0 || before.tick % 3600 != 0 ==> after.onion_keys == before.onion_keys,
{
    let (fresh, c) = choose|fresh: Seq<u8>, c: Seq<RouterState>| #[trigger]
        upkeep_steps(before, coord, scores, None, fresh, now, now_ms, c) && c[9] == after;
    crate::onionkeys::onion_keys_rotate_on_time(c[2], fresh, now, now_ms, c[3]);
    if report_tick(before.tick) {
        lemma_reports_count(c[5], scores, scores.len() as int, now, now_ms, c[6]);
    }
}

/// After the upkeep nothing is left that has had its time: no lookup of more than ten
/// seconds ago, no negative route of more than a minute ago, and no probe that has
/// waited for more than ten seconds. What has not had its time stays.
pub proof fn the_upkeep_forgets_in_time(
    before: RouterState,
    coord: [u8; 16],
    scores: Seq<u16>,
    accelerated: Option<u64>,
    now: u64,
    now_ms: u64,
    after: RouterState,
    l: crate::state::SeenLookup,
    e: crate::state::NegativeRoute,
    p: crate::state::Probe,
)
    requires
        upkeep_finished(before, coord, scores, accelerated, now, now_ms, after),
    ensures
        after.pending_lookups@.contains(l) <==> before.pending_lookups@.contains(l) && now < l.at
            + 10_000_000,
        after.path_negative_cache@.contains(e) <==> before.path_negative_cache@.contains(e) && now
            < e.at + 60_000_000,
        after.pending_probes@.contains(p) ==> now <= p.at + 10_000_000,
        before.tick % 15 != 0 || before.tick == 0 ==> (after.pending_probes@.contains(p)
            <==> before.pending_probes@.contains(p) && now <= p.at + 10_000_000),
{
    let (fresh, c) = choose|fresh: Seq<u8>, c: Seq<RouterState>| #[trigger]
        upkeep_steps(before, coord, scores, accelerated, fresh, now, now_ms, c) && c[9] == after;
    if report_tick(before.tick) {
        lemma_reports_count(c[5], scores, scores.len() as int, now, now_ms, c[6]);
    }
    lemma_filter_members(
        c[7].pending_lookups@,
        |l: crate::state::SeenLookup| elapsed(now, l.at) < crate::router::LOOKUP_EXPIRY,
        l,
    );
    lemma_filter_members(
        c[8].path_negative_cache@,
        |e: crate::state::NegativeRoute| elapsed(now, e.at) < crate::router::PATH_NEG_TTL,
        e,
    );
    lemma_filter_members(
        c[6].pending_probes@,
        |p: crate::state::Probe| elapsed(now, p.at) <= crate::router::PROBE_TIMEOUT,
        p,
    );
    assert(c[6].pending_probes == c[5].pending_probes);
}

/// With each upkeep the node chooses anew in every tree: the root is no worse than the
/// node itself, nor than any root that a neighbour announced in the last 30 seconds,
/// provided the neighbour has not been silent for more than a minute; and where such
/// a neighbour announced the same root, it offers no cheaper way.
pub proof fn the_upkeep_chooses_the_best_parents(
    before: RouterState,
    now: u64,
    epoch: u64,
    accelerated: Option<u64>,
    poison: usize,
    after: RouterState,
    t: int,
    i: int,
)
    requires
        before.wf(),
        upkeep_begun(before, now, epoch, accelerated, poison, after),
        0 <= t < 3,
        0 <= i < before.peers@.len(),
    ensures
        after.tick == before.tick.wrapping_add(1),
        !lex_less(
            root_metric(before.pub_key@, tree_seed(t), epoch),
            root_metric(after.trees@[t].root@, tree_seed(t), epoch),
        ),
        before.peers@[i].trees@[t] matches Some(a) ==> (now <= before.peers@[i].last_rx + 60_000_000
            && now <= a.received_at + 30_000_000 ==> {
            &&& !lex_less(
                root_metric(a.root@, tree_seed(t), epoch),
                root_metric(after.trees@[t].root@, tree_seed(t), epoch),
            )
            &&& after.trees@[t].parent is Some && after.trees@[t].root == a.root
                ==> after.trees@[t].parent_cost <= a.path_cost + before.peers@[i].cost
        }),
{
    let (a, b, c) = choose|a: RouterState, b: RouterState, c: RouterState|
        #![trigger peers_expired(ticked(before), now, a), tree_upkept(a, 0, now, epoch, accelerated, poison, b), tree_upkept(b, 1, now, epoch, accelerated, poison, c)]
        peers_expired(ticked(before), now, a) && tree_upkept(
            a,
            0,
            now,
            epoch,
            accelerated,
            poison,
            b,
        ) && tree_upkept(b, 1, now, epoch, accelerated, poison, c) && tree_upkept(
            c,
            2,
            now,
            epoch,
            accelerated,
            poison,
            after,
        );
    crate::peers::silent_neighbours_are_dropped(
        ticked(before),
        now,
        a,
        i,
        before.coord_table@[0],
        t,
    );
    lemma_tree_upkept(a, 0, now, epoch, accelerated, poison, b);
    lemma_tree_upkept(b, 1, now, epoch, accelerated, poison, c);
    lemma_tree_upkept(c, 2, now, epoch, accelerated, poison, after);
    let j = if a.peers@.contains(before.peers@[i]) {
        choose|j: int| 0 <= j < a.peers@.len() && a.peers@[j] == before.peers@[i]
    } else {
        0
    };
    lemma_tree_chosen(a, 0, now, epoch, accelerated, poison, b, j);
    lemma_tree_chosen(b, 1, now, epoch, accelerated, poison, c, j);
    lemma_tree_chosen(c, 2, now, epoch, accelerated, poison, after, j);
    assert(after.trees@[0] == b.trees@[0]);
    assert(after.trees@[1] == c.trees@[1]);
}

proof fn lemma_tree_chosen(
    before: RouterState,
    t: int,
    now: u64,
    epoch: u64,
    accelerated: Option<u64>,
    poison: usize,
    after: RouterState,
    j: int,
)
    requires
        0 <= t < K,
        tree_upkept(before, t, now, epoch, accelerated, poison, after),
    ensures
        after.tick == before.tick,
        after.pub_key == before.pub_key,
        !lex_less(
            root_metric(before.pub_key@, tree_seed(t), epoch),
            root_metric(after.trees@[t].root@, tree_seed(t), epoch),
        ),
        0 <= j < before.peers@.len() ==> (before.peers@[j].trees@[t] matches Some(a) ==> (now
            <= a.received_at + 30_000_000 ==> {
            &&& !lex_less(
                root_metric(a.root@, tree_seed(t), epoch),
                root_metric(after.trees@[t].root@, tree_seed(t), epoch),
            )
            &&& after.trees@[t].parent is Some && after.trees@[t].root == a.root
                ==> after.trees@[t].parent_cost <= a.path_cost + before.peers@[j].cost
        })),
{
    let (x, y, tags) = choose|x: RouterState, y: RouterState, tags: Seq<[u8; 16]>|
        #![trigger tree_fixed(before, t, now, epoch, x), tree_announced(x, t, y), filters_sent(y, t, accelerated, tags, after)]
        tree_fixed(before, t, now, epoch, x) && tree_announced(x, t, y) && filters_sent(
            y,
            t,
            accelerated,
            tags,
            after,
        ) && tags.len() == poison;
    the_parent_is_the_cheapest_way_to_the_best_root(before, t, now, epoch, x);
    assert(after.trees == x.trees);
}

proof fn lemma_alive_distinct(peers: Seq<PeerData>, now: u64)
    requires
        crate::state::distinct_peers(peers),
    ensures
        crate::state::distinct_peers(alive(peers, now)),
        forall|j: int|
            0 <= j < alive(peers, now).len() ==> peers.contains(#[trigger] alive(peers, now)[j]),
    decreases peers.len(),
{
    if peers.len() > 0 {
        let t = peers.drop_last();
        let r = alive(peers, now);
        let w = alive(t, now);
        assert forall|a: int, b: int|
            #![trigger t[a], t[b]]
            0 <= a < b < t.len() implies t[a].pub_key != t[b].pub_key by {
            assert(peers[a].pub_key != peers[b].pub_key);
        }
        lemma_alive_distinct(t, now);
        assert forall|j: int| 0 <= j < r.len() implies peers.contains(#[trigger] r[j]) by {
            if j < w.len() {
                assert(r[j] == w[j]);
                assert(t.contains(w[j]));
                let k = choose|k: int| 0 <= k < t.len() && t[k] == w[j];
                assert(peers[k] == r[j]);
            } else {
                assert(peers[peers.len() - 1] == r[j]);
            }
        }
        assert forall|a: int, b: int|
            #![trigger r[a], r[b]]
            0 <= a < b < r.len() implies r[a].pub_key != r[b].pub_key by {
            if b < w.len() {
                assert(w[a].pub_key != w[b].pub_key);
            } else {
                assert(t.contains(w[a]));
                let k = choose|k: int| 0 <= k < t.len() && t[k] == w[a];
                assert(peers[k].pub_key != peers[peers.len() - 1].pub_key);
            }
        }
    }
}

/// The frame `k` of those queued announces to `to` the position in tree `t` that `s` has.
pub open spec fn announces_position(s: RouterState, t: int, to: PeerId, k: int) -> bool {
    &&& 0 <= k < s.sent().len()
    &&& s.sent()[k].to == to
    &&& s.sent()[k].frame[0] == crate::packet::ANNOUNCE
    &&& crate::packet::parse_announce(s.sent()[k].frame.skip(1)) matches Ok(v) && v.tree_id == t
        && v.root == s.trees@[t].root@ && v.path_cost == s.trees@[t].parent_cost && v.sender
        == s.pub_key@
}

proof fn lemma_tree_told(
    before: RouterState,
    t: int,
    now: u64,
    epoch: u64,
    accelerated: Option<u64>,
    poison: usize,
    after: RouterState,
    j: int,
) -> (k: int)
    requires
        0 <= t < K,
        crate::state::distinct_peers(before.peers@),
        tree_upkept(before, t, now, epoch, accelerated, poison, after),
    ensures
        before.sent().is_prefix_of(after.sent()),
        after.pub_key == before.pub_key,
        0 <= j < before.peers@.len() && before.peers@[j].links@.len() > 0 ==> k
            >= before.sent().len() && announces_position(after, t, before.peers@[j].pub_key, k),
{
    let (x, y, tags) = choose|x: RouterState, y: RouterState, tags: Seq<[u8; 16]>|
        #![trigger tree_fixed(before, t, now, epoch, x), tree_announced(x, t, y), filters_sent(y, t, accelerated, tags, after)]
        tree_fixed(before, t, now, epoch, x) && tree_announced(x, t, y) && filters_sent(
            y,
            t,
            accelerated,
            tags,
            after,
        ) && tags.len() == poison;
    assert(x.sent() == before.sent());
    assert(y.sent().subrange(0, x.sent().len() as int) =~= x.sent());
    assert(after.sent().subrange(0, y.sent().len() as int) =~= y.sent());
    assert(after.sent().subrange(0, x.sent().len() as int) =~= x.sent());
    if 0 <= j < before.peers@.len() && before.peers@[j].links@.len() > 0 {
        let k = crate::tree::the_own_position_is_announced(x, t, y, j);
        assert(after.sent()[k] == y.sent()[k]);
        k
    } else {
        0
    }
}

/// With each upkeep every neighbour with a link that stays is told the node's position in
/// each tree, as it is after the choice.
pub proof fn the_upkeep_announces_each_position(
    before: RouterState,
    now: u64,
    epoch: u64,
    accelerated: Option<u64>,
    poison: usize,
    after: RouterState,
    t: int,
    j: int,
) -> (k: int)
    requires
        before.wf(),
        upkeep_begun(before, now, epoch, accelerated, poison, after),
        0 <= t < 3,
        0 <= j < after.peers@.len(),
        after.peers@[j].links@.len() > 0,
    ensures
        k >= before.sent().len(),
        announces_position(after, t, after.peers@[j].pub_key, k),
        before.peers@.contains(after.peers@[j]),
{
    let (a, b, c) = choose|a: RouterState, b: RouterState, c: RouterState|
        #![trigger peers_expired(ticked(before), now, a), tree_upkept(a, 0, now, epoch, accelerated, poison, b), tree_upkept(b, 1, now, epoch, accelerated, poison, c)]
        peers_expired(ticked(before), now, a) && tree_upkept(
            a,
            0,
            now,
            epoch,
            accelerated,
            poison,
            b,
        ) && tree_upkept(b, 1, now, epoch, accelerated, poison, c) && tree_upkept(
            c,
            2,
            now,
            epoch,
            accelerated,
            poison,
            after,
        );
    lemma_alive_distinct(before.peers@, now);
    lemma_tree_upkept(a, 0, now, epoch, accelerated, poison, b);
    lemma_tree_upkept(b, 1, now, epoch, accelerated, poison, c);
    lemma_tree_upkept(c, 2, now, epoch, accelerated, poison, after);
    let x = lemma_tree_told(a, 0, now, epoch, accelerated, poison, b, j);
    let y = lemma_tree_told(b, 1, now, epoch, accelerated, poison, c, j);
    let z = lemma_tree_told(c, 2, now, epoch, accelerated, poison, after, j);
    assert(a.sent() == before.sent());
    assert(after.trees@[0] == b.trees@[0] && after.trees@[1] == c.trees@[1]);
    assert forall|i: int| 0 <= i < b.sent().len() implies (#[trigger] c.sent()[i]) == b.sent()[i] by {
        assert(c.sent().subrange(0, b.sent().len() as int)[i] == b.sent()[i]);
    }
    assert forall|i: int| 0 <= i < c.sent().len() implies (#[trigger] after.sent()[i])
        == c.sent()[i] by {
        assert(after.sent().subrange(0, c.sent().len() as int)[i] == c.sent()[i]);
    }
    if t == 0 {
        assert(c.sent()[x] == b.sent()[x]);
        assert(after.sent()[x] == c.sent()[x]);
        x
    } else if t == 1 {
        assert(after.sent()[y] == c.sent()[y]);
        y
    } else {
        z
    }
}

/// What is queued stays queued while trust is reported.
proof fn lemma_reports_append(
    before: RouterState,
    scores: Seq<u16>,
    n: int,
    now: u64,
    now_ms: u64,
    after: RouterState,
)
    requires
        reported_all(before, scores, n, now, now_ms, after),
    ensures
        before.sent().is_prefix_of(after.sent()),
    decreases n,
{
    if n > 0 {
        let mid = choose|mid: RouterState|
            reported_all(before, scores, n - 1, now, now_ms, mid) && #[trigger] reported(
                mid,
                n - 1,
                scores[n - 1],
                now,
                now_ms,
                after,
            );
        lemma_reports_append(before, scores, n - 1, now, now_ms, mid);
        assert(after.sent().subrange(0, mid.sent().len() as int) =~= mid.sent());
        lemma_prefix(before.sent(), mid.sent(), after.sent());
    } else {
        assert(after.sent().subrange(0, before.sent().len() as int) =~= before.sent());
    }
}

proof fn lemma_prefix(
    a: Seq<crate::state::Sent>,
    b: Seq<crate::state::Sent>,
    c: Seq<crate::state::Sent>,
)
    requires
        a.is_prefix_of(b),
        b.is_prefix_of(c),
    ensures
        a.is_prefix_of(c),
{
    assert(c.subrange(0, a.len() as int) =~= b.subrange(0, a.len() as int));
}

/// With each upkeep every neighbour with a link is told the node's own coordinate; and every
/// fifteenth tick a claim is probed, where some neighbour claims to reach another one.
pub proof fn the_upkeep_tells_the_coordinate_and_probes(
    before: RouterState,
    coord: [u8; 16],
    scores: Seq<u16>,
    accelerated: Option<u64>,
    now: u64,
    now_ms: u64,
    after: RouterState,
    i: int,
    j: int,
)
    requires
        before.wf(),
        upkeep_finished(before, coord, scores, accelerated, now, now_ms, after),
        0 <= i < before.peers@.len(),
        0 <= j < before.peers@.len(),
    ensures
        before.peers@[j].links@.len() > 0 ==> exists|k: int|
            {
                &&& before.sent().len() <= k < after.sent().len()
                &&& (#[trigger] after.sent()[k]).to == before.peers@[j].pub_key
                &&& after.sent()[k].frame[0] == crate::packet::TYPE_COORD_ANNOUNCE
                &&& crate::packet::parse_coord_announce(after.sent()[k].frame.skip(1)) matches Ok(v)
                    && v.coord == coord@ && v.tree_depth == before.own_depth
            },
        before.tick > 0 && before.tick % 15 == 0 && i != j && before.peers@[j].pub_key
            != before.pub_key && crate::lookup::claims(
            before.peers@[i],
            crate::packet::tag_of(before.peers@[j].pub_key@),
        ) ==> exists|p: crate::state::Probe| #[trigger]
            after.pending_probes@.contains(p) && p.at == now,
{
    let (fresh, c) = choose|fresh: Seq<u8>, c: Seq<RouterState>| #[trigger]
        upkeep_steps(before, coord, scores, accelerated, fresh, now, now_ms, c) && c[9] == after;
    assert(c[0].sent() == before.sent());
    if report_tick(before.tick) {
        lemma_reports_append(c[5], scores, scores.len() as int, now, now_ms, c[6]);
        lemma_reports_count(c[5], scores, scores.len() as int, now, now_ms, c[6]);
    } else {
        assert(c[6].sent().subrange(0, c[5].sent().len() as int) =~= c[5].sent());
    }
    assert(c[2].sent().subrange(0, c[1].sent().len() as int) =~= c[1].sent());
    assert(c[3].sent().subrange(0, c[2].sent().len() as int) =~= c[2].sent());
    assert(c[4].sent().subrange(0, c[3].sent().len() as int) =~= c[3].sent());
    assert(c[5].sent().subrange(0, c[4].sent().len() as int) =~= c[4].sent());
    lemma_prefix(c[1].sent(), c[2].sent(), c[3].sent());
    lemma_prefix(c[1].sent(), c[3].sent(), c[4].sent());
    lemma_prefix(c[1].sent(), c[4].sent(), c[5].sent());
    lemma_prefix(c[1].sent(), c[5].sent(), c[6].sent());
    assert(after.sent() == c[6].sent());
    if before.peers@[j].links@.len() > 0 {
        let k = crate::gossip::the_own_coordinate_is_announced(c[0], c[1], j);
        assert(after.sent().subrange(0, c[1].sent().len() as int)[k] == c[1].sent()[k]);
        assert(after.sent()[k] == c[1].sent()[k]);
    }
    if before.tick > 0 && before.tick % 15 == 0 && i != j && before.peers@[j].pub_key
        != before.pub_key && crate::lookup::claims(
        before.peers@[i],
        crate::packet::tag_of(before.peers@[j].pub_key@),
    ) {
        let peers = c[4].peers@;
        let tag = crate::packet::tag_of(before.peers@[j].pub_key@);
        assert(c[4].peers == c[2].peers);
        assert(peers.len() == before.peers@.len());
        assert forall|a: int| 0 <= a < peers.len() implies (#[trigger] peers[a]).pub_key
            == before.peers@[a].pub_key && peers[a].cuckoo == before.peers@[a].cuckoo by {}
        assert(crate::state::distinct_peers(peers)) by {
            assert forall|a: int, b: int|
                #![trigger peers[a], peers[b]]
                0 <= a < b < peers.len() implies peers[a].pub_key != peers[b].pub_key by {
                assert(before.peers@[a].pub_key != before.peers@[b].pub_key);
            }
        }
        crate::lookup::a_claim_in_any_tree_counts(peers[i], tag);
        crate::lookup::a_claim_in_any_tree_counts(before.peers@[i], tag);
        assert(crate::lookup::claims(peers[i], crate::packet::tag_of(peers[j].pub_key@)));
        crate::reputation::only_claims_are_probed(c[4], now, c[5]);
        let p = choose|p: crate::state::Probe| #[trigger]
            c[5].pending_probes@.contains(p) && p.at == now;
        lemma_filter_members(
            c[6].pending_probes@,
            |p: crate::state::Probe| elapsed(now, p.at) <= crate::router::PROBE_TIMEOUT,
            p,
        );
        assert(after.pending_probes@.contains(p));
    }
}

} // verus!
