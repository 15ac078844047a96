//! Spanning trees: the choice of a parent, and the announcements by which
//! neighbours make theirs.

use crate::bytes::key_eq;
use crate::crypto::{ed25519_sign, ed25519_signature, ed25519_valid, ed25519_verify};
use crate::packet::{parse_announce, Announce, AnnounceView, PacketError, ANNOUNCE};
use crate::peers::landmarks_of;
use crate::router::{
    elapsed, lex_less, metric_less, metric_order_is_total, root_metric, time_since, tree_metric_at,
    tree_seed, tree_seed_of, PeerId, ANNOUNCE_EXPIRY, K,
};
use crate::state::{
    flood, has_peer, index_of, lemma_update_keeps_keys, PeerData, RouterState, TreeAnnounce,
    TreeState,
};
use vstd::prelude::*;

verus! {

broadcast use vstd::array::group_array_axioms;

/// Neighbour `i` has announced a position in tree `t`, and not too long ago.
pub open spec fn candidate(peers: Seq<PeerData>, t: int, now: u64, i: int) -> bool {
    &&& 0 <= i < peers.len()
    &&& peers[i].trees@[t] is Some
    &&& elapsed(now, peers[i].trees@[t]->0.received_at) <= ANNOUNCE_EXPIRY
}

/// The sum, or the largest number.
pub open spec fn capped_sum(a: u64, b: u64) -> u64 {
    if a + b <= u64::MAX {
        (a + b) as u64
    } else {
        u64::MAX
    }
}

/// How good the root is that neighbour `i` announced.
pub open spec fn root_rank(peers: Seq<PeerData>, t: int, epoch: u64, i: int) -> Seq<u8> {
    root_metric(peers[i].trees@[t]->0.root@, tree_seed(t), epoch)
}

/// What it costs to reach the root through neighbour `i`.
pub open spec fn root_cost(peers: Seq<PeerData>, t: int, i: int) -> u64 {
    capped_sum(peers[i].trees@[t]->0.path_cost, peers[i].cost)
}

/// Neighbour `i` makes a better parent than `j`: it leads to a better root, or
/// to the same root at lower cost.
pub open spec fn better(peers: Seq<PeerData>, t: int, epoch: u64, i: int, j: int) -> bool {
    let a = root_rank(peers, t, epoch, i);
    let b = root_rank(peers, t, epoch, j);
    lex_less(a, b) || (a == b && root_cost(peers, t, i) < root_cost(peers, t, j))
}

/// Neighbour `i` is the best parent among the first `n` neighbours: no other is
/// better, and it is the first of those that are as good.
pub open spec fn best_of(
    peers: Seq<PeerData>,
    t: int,
    now: u64,
    epoch: u64,
    n: int,
    i: int,
) -> bool {
    &&& 0 <= i < n
    &&& candidate(peers, t, now, i)
    &&& forall|j: int|
        0 <= j < n && #[trigger] candidate(peers, t, now, j) ==> !better(peers, t, epoch, j, i) && (j
            < i ==> better(peers, t, epoch, i, j))
}

/// None of the first `n` neighbours can be a parent.
pub open spec fn none_of(peers: Seq<PeerData>, t: int, now: u64, n: int) -> bool {
    forall|j: int| 0 <= j < n ==> !#[trigger] candidate(peers, t, now, j)
}

/// The node is as good a root as the one that neighbour `i` announced, or a
/// better one.
pub open spec fn own_rank_holds(s: RouterState, t: int, epoch: u64, i: int) -> bool {
    !lex_less(root_rank(s.peers@, t, epoch, i), root_metric(s.pub_key@, tree_seed(t), epoch))
}

/// The tree state of a node that is its own root.
pub open spec fn as_root(s: RouterState, t: int) -> TreeState {
    TreeState {
        parent: None,
        root: s.pub_key,
        root_seq: s.trees@[t].root_seq.wrapping_add(1),
        parent_cost: 0,
    }
}

/// The tree state of a node whose parent is neighbour `i`.
pub open spec fn below(s: RouterState, t: int, i: int) -> TreeState {
    TreeState {
        parent: Some(s.peers@[i].pub_key),
        root: s.peers@[i].trees@[t]->0.root,
        root_seq: s.trees@[t].root_seq,
        parent_cost: root_cost(s.peers@, t, i),
    }
}

/// The announcement of the own position in tree `t`, not signed yet.
pub open spec fn unsigned_announce(s: RouterState, t: int) -> AnnounceView {
    AnnounceView {
        tree_id: t as u8,
        root: s.trees@[t].root@,
        root_seq: s.trees@[t].root_seq,
        path_cost: s.trees@[t].parent_cost,
        sender: s.pub_key@,
        signature: Seq::new(64, |i: int| 0u8),
        depth: if t == 0 {
            s.own_depth
        } else {
            0
        },
    }
}

/// The announcement of the own position in tree `t`.
pub open spec fn own_announce(s: RouterState, t: int) -> AnnounceView {
    let u = unsigned_announce(s, t);
    AnnounceView { signature: ed25519_signature(s.signing_key@, u.signed()), ..u }
}

/// The own position in one tree, for display.
#[derive(Clone, Copy, Debug)]
pub struct TreeStat {
    pub tree_id: u8,
    pub root: PeerId,
    /// The neighbour towards the root; none at the root.
    pub parent: Option<PeerId>,
    /// Distance to the root in hops; kept for the first tree only.
    pub depth: u32,
    pub parent_cost: u64,
    pub is_root: bool,
}

proof fn lemma_better_trans(peers: Seq<PeerData>, t: int, epoch: u64, i: int, j: int, k: int)
    ensures
        better(peers, t, epoch, i, j) && better(peers, t, epoch, j, k) ==> better(
            peers,
            t,
            epoch,
            i,
            k,
        ),
        !better(peers, t, epoch, i, j) && !better(peers, t, epoch, j, k) ==> !better(
            peers,
            t,
            epoch,
            i,
            k,
        ),
        better(peers, t, epoch, i, j) ==> !better(peers, t, epoch, j, i),
        !better(peers, t, epoch, i, i),
{
    let a = root_rank(peers, t, epoch, i);
    let b = root_rank(peers, t, epoch, j);
    let c = root_rank(peers, t, epoch, k);
    metric_order_is_total(a, b, c);
    metric_order_is_total(c, b, a);
    metric_order_is_total(a, c, b);
    metric_order_is_total(b, c, a);
    metric_order_is_total(b, a, c);
    metric_order_is_total(c, a, b);
}

/// What choosing the parent in tree `t` makes of `before`. The root chosen is no
/// worse than the node itself and than any root announced, the node has no
/// parent exactly where it is the root, and no neighbour that announced the same
/// root leads to it at a lower cost.
pub open spec fn tree_fixed(
    before: RouterState,
    t: int,
    now: u64,
    epoch: u64,
    after: RouterState,
) -> bool {
    &&& after == (RouterState {
        trees: after.trees,
        own_depth: after.own_depth,
        ..before
    })
    &&& ({
        let n = before.peers@.len() as int;
        let none = none_of(before.peers@, t, now, n);
        if none || exists|i: int| #[trigger]
            best_of(before.peers@, t, now, epoch, n, i) && own_rank_holds(
                before,
                t,
                epoch,
                i,
            ) {
            &&& after.trees@ == before.trees@.update(t, as_root(before, t))
            &&& after.own_depth == if t == 0 {
                0
            } else {
                before.own_depth
            }
        } else {
            exists|i: int| #[trigger]
                best_of(before.peers@, t, now, epoch, n, i) && after.trees@
                    == before.trees@.update(t, below(before, t, i)) && after.own_depth == if t == 0 {
                    before.peers@[i].trees@[0]->0.depth.wrapping_add(1)
                } else {
                    before.own_depth
                }
        }
    })
    &&& after.trees@[t].root == before.pub_key <==> after.trees@[t].parent is None
    &&& after.trees@[t].parent is Some ==> forall|j: int|
        0 <= j < before.peers@.len() && (#[trigger] before.peers@[j]).trees@[t] is Some && now
            <= before.peers@[j].trees@[t]->0.received_at + ANNOUNCE_EXPIRY
            && before.peers@[j].trees@[t]->0.root == after.trees@[t].root
            ==> after.trees@[t].parent_cost <= before.peers@[j].trees@[t]->0.path_cost
            + before.peers@[j].cost
    &&& ({
        let root = root_metric(after.trees@[t].root@, tree_seed(t), epoch);
        &&& !lex_less(root_metric(before.pub_key@, tree_seed(t), epoch), root)
        &&& forall|j: int| #[trigger]
            candidate(before.peers@, t, now, j) ==> !lex_less(
                root_rank(before.peers@, t, epoch, j),
                root,
            )
    })
}

/// What announcing the position in tree `t` makes of `before`.
pub open spec fn tree_announced(
    before: RouterState,
    t: int,
    after: RouterState,
) -> bool {
    &&& after == (RouterState { outbox: after.outbox, ..before })
    &&& after.sent() == before.sent() + flood(
        before.peers@,
        None,
        seq![ANNOUNCE] + own_announce(before, t).wire(),
    )
    &&& own_announce(before, t).wf()
    &&& ed25519_valid(
        before.pub_key@,
        own_announce(before, t).signed(),
        own_announce(before, t).signature,
    )
}

/// What an announcement of a neighbour makes of `before`.
pub open spec fn announce_taken(
    before: RouterState,
    from: PeerId,
    ann: Announce,
    now: u64,
    after: RouterState,
) -> bool {
    &&& if !ed25519_valid(ann.sender@, ann@.signed(), ann.signature@) || ann.tree_id >= K {
        after == before
    } else {
        &&& after == (RouterState {
            peers: after.peers,
            landmarks: after.landmarks,
            ..before
        })
        &&& after.landmarks@ == landmarks_of(before.pub_key, after.peers@)
        &&& if has_peer(before.peers@, from) {
            let i = index_of(before.peers@, from);
            let p = before.peers@[i];
            &&& after.peers@ == before.peers@.update(
                i,
                PeerData { last_rx: now, trees: after.peers@[i].trees, ..p },
            )
            &&& after.peers@[i].trees@ == p.trees@.update(
                ann.tree_id as int,
                Some(
                    TreeAnnounce {
                        root: ann.root,
                        path_cost: ann.path_cost,
                        received_at: now,
                        depth: ann.depth,
                    },
                ),
            )
        } else {
            after.peers@ == before.peers@
        }
    }
}

impl RouterState {
    /// Choose the parent in tree `tree_id`: the neighbour that leads to the
    /// best root, and of several the one with the lowest cost. Where no
    /// neighbour leads to a root better than the node itself, the node is the
    /// root, and has no parent. The root chosen is thus no worse than the node
    /// itself and than any root announced.
    pub fn fix_tree(&mut self, tree_id: usize, now: u64, epoch: u64)
        requires
            old(self).wf(),
            tree_id < K,
        ensures
            final(self).wf(),
            tree_fixed(*old(self), tree_id as int, now, epoch, *final(self)),
    {
        let ghost t = tree_id as int;
        let ghost peers = self.peers@;
        let seed: [u8; 8] = tree_seed_of(tree_id);
        let my_metric: [u8; 32] = tree_metric_at(&self.pub_key, &seed, epoch);
        let mut best: Option<usize> = None;
        let mut best_metric: [u8; 32] = my_metric;
        let mut best_cost: u64 = 0;
        let mut i: usize = 0;
        while i < self.peers.len()
            invariant
                *self == *old(self),
                peers == self.peers@,
                tree_id < K,
                t == tree_id,
                seed@ == tree_seed(t),
                i <= peers.len(),
                match best {
                    None => none_of(peers, t, now, i as int),
                    Some(b) => b < i && best_of(peers, t, now, epoch, i as int, b as int)
                        && best_metric@ == root_rank(peers, t, epoch, b as int) && best_cost
                        == root_cost(peers, t, b as int),
                },
            decreases peers.len() - i,
        {
            let ann: Option<TreeAnnounce> = self.peers[i].trees[tree_id];
            let ghost was = best;
            if let Some(a) = ann {
                if time_since(now, a.received_at) <= ANNOUNCE_EXPIRY {
                    let metric: [u8; 32] = tree_metric_at(&a.root, &seed, epoch);
                    let total: u64 = a.path_cost.saturating_add(self.peers[i].cost);
                    let take: bool = match best {
                        None => true,
                        Some(_) => if metric_less(&metric, &best_metric) {
                            true
                        } else {
                            key_eq(&metric, &best_metric) && total < best_cost
                        },
                    };
                    proof {
                        assert(candidate(peers, t, now, i as int));
                        assert(metric@ == root_rank(peers, t, epoch, i as int));
                        assert(total == root_cost(peers, t, i as int));
                        if let Some(b) = was {
                            assert(take == better(peers, t, epoch, i as int, b as int));
                            assert forall|j: int| 0 <= j <= i && #[trigger] candidate(
                                peers,
                                t,
                                now,
                                j,
                            ) implies {
                                &&& take ==> !better(peers, t, epoch, j, i as int) && (j < i
                                    ==> better(peers, t, epoch, i as int, j))
                                &&& !take ==> !better(peers, t, epoch, j, b as int) && (j < b
                                    ==> better(peers, t, epoch, b as int, j))
                            } by {
                                lemma_better_trans(peers, t, epoch, i as int, b as int, j);
                                lemma_better_trans(peers, t, epoch, j, b as int, i as int);
                                if j < i {
                                    if take {
                                        lemma_not_worse(peers, t, epoch, i as int, b as int, j);
                                    }
                                }
                            }
                        } else {
                            lemma_better_trans(peers, t, epoch, i as int, i as int, i as int);
                        }
                    }
                    if take {
                        best = Some(i);
                        best_metric = metric;
                        best_cost = total;
                    }
                }
            }
            i = i + 1;
        }
        let use_self: bool = match best {
            None => true,
            Some(_) => !metric_less(&best_metric, &my_metric),
        };
        proof {
            if let Some(b) = best {
                assert(candidate(peers, t, now, b as int));
                assert forall|j: int| best_of(peers, t, now, epoch, peers.len() as int, j) implies j
                    == b by {
                    assert(candidate(peers, t, now, j));
                    lemma_better_trans(peers, t, epoch, b as int, j, b as int);
                }
            }
        }
        proof {
            let own = root_metric(self.pub_key@, tree_seed(t), epoch);
            metric_order_is_total(own, own, own);
            if let Some(b) = best {
                let top = root_rank(peers, t, epoch, b as int);
                metric_order_is_total(top, own, top);
                metric_order_is_total(top, top, top);
                assert forall|j: int| #[trigger] candidate(peers, t, now, j) implies !lex_less(
                    root_rank(peers, t, epoch, j),
                    top,
                ) && (!lex_less(top, own) ==> !lex_less(root_rank(peers, t, epoch, j), own)) by {
                    assert(!better(peers, t, epoch, j, b as int));
                    metric_order_is_total(root_rank(peers, t, epoch, j), own, top);
                    metric_order_is_total(top, root_rank(peers, t, epoch, j), own);
                }
            }
        }
        if use_self {
            let own: PeerId = self.pub_key;
            let seq: u64 = self.trees[tree_id].root_seq.wrapping_add(1);
            self.trees[tree_id] = TreeState {
                parent: None,
                root: own,
                root_seq: seq,
                parent_cost: 0,
            };
            assert(self.trees@ =~= old(self).trees@.update(t, as_root(*old(self), t)));
            if tree_id == 0 {
                self.own_depth = 0;
            }
        } else {
            if let Some(b) = best {
                if let Some(a) = self.peers[b].trees[tree_id] {
                    let seq: u64 = self.trees[tree_id].root_seq;
                    self.trees[tree_id] = TreeState {
                        parent: Some(self.peers[b].pub_key),
                        root: a.root,
                        root_seq: seq,
                        parent_cost: best_cost,
                    };
                    assert(self.trees@ =~= old(self).trees@.update(
                        t,
                        below(*old(self), t, b as int),
                    ));
                    assert forall|j: int|
                        0 <= j < peers.len() && (#[trigger] peers[j]).trees@[t] is Some && now
                            <= peers[j].trees@[t]->0.received_at + ANNOUNCE_EXPIRY
                            && peers[j].trees@[t]->0.root == a.root implies best_cost
                        <= peers[j].trees@[t]->0.path_cost + peers[j].cost by {
                        assert(candidate(peers, t, now, j));
                        assert(!better(peers, t, epoch, j, b as int));
                    }
                    if tree_id == 0 {
                        self.own_depth = a.depth.wrapping_add(1);
                    }
                }
            }
        }
    }

    /// Announce the own position in tree `tree_id` to all neighbours.
    pub fn send_announces(&mut self, tree_id: usize)
        requires
            old(self).wf(),
            tree_id < K,
        ensures
            final(self).wf(),
            tree_announced(*old(self), tree_id as int, *final(self)),
    {
        let tree: TreeState = self.trees[tree_id];
        let depth: u32 = if tree_id == 0 {
            self.own_depth
        } else {
            0
        };
        let mut ann = Announce {
            tree_id: tree_id as u8,
            root: tree.root,
            root_seq: tree.root_seq,
            path_cost: tree.parent_cost,
            sender: self.pub_key,
            signature: vstd::array::array_fill_for_copy_types::<u8, 64>(0u8),
            depth,
        };
        assert(ann@ =~= unsigned_announce(*self, tree_id as int));
        let signed: Vec<u8> = ann.sign_bytes();
        ann.signature = ed25519_sign(&self.signing_key, signed.as_slice());
        assert(ann@ =~= own_announce(*self, tree_id as int));
        let frame: Vec<u8> = ann.encode();
        self.send_to_all(None, &frame);
    }

    /// A neighbour announced its position in a tree. An announcement that is
    /// not signed by its sender, or of a tree that does not exist, is ignored.
    pub fn handle_announce(&mut self, from: PeerId, ann: Announce, now: u64)
        requires
            old(self).wf(),
        ensures
            final(self).wf(),
            announce_taken(*old(self), from, ann, now, *final(self)),
    {
        let signed: Vec<u8> = ann.sign_bytes();
        if !ed25519_verify(&ann.sender, signed.as_slice(), &ann.signature) {
            return ;
        }
        let tree_id: usize = ann.tree_id as usize;
        if tree_id >= K {
            return ;
        }
        if let Some(i) = self.find_peer(&from) {
            self.peers[i].last_rx = now;
            self.peers[i].trees[tree_id] = Some(
                TreeAnnounce {
                    root: ann.root,
                    path_cost: ann.path_cost,
                    received_at: now,
                    depth: ann.depth,
                },
            );
            proof {
                let q = self.peers@[i as int];
                assert(self.peers@ =~= old(self).peers@.update(i as int, q));
                lemma_update_keeps_keys(old(self).peers@, i as int, q);
            }
        }
        self.update_landmarks();
    }

    /// The own position in each tree.
    pub fn get_tree_state(&self) -> (out: Vec<TreeStat>)
        requires
            self.wf(),
        ensures
            forall|t: int|
                0 <= t < 3 ==> (#[trigger] out@[t]).is_root == (out@[t].root == self.pub_key),
            out@.len() == 3,
            forall|t: int|
                0 <= t < 3 ==> (#[trigger] out@[t]) == (TreeStat {
                    tree_id: t as u8,
                    root: self.trees@[t].root,
                    parent: self.trees@[t].parent,
                    depth: if t == 0 {
                        self.own_depth
                    } else {
                        0
                    },
                    parent_cost: self.trees@[t].parent_cost,
                    is_root: self.trees@[t].parent is None,
                }),
    {
        let mut out: Vec<TreeStat> = Vec::new();
        let mut t: usize = 0;
        while t < 3
            invariant
                t <= 3,
                out@.len() == t,
                forall|u: int|
                    0 <= u < t ==> (#[trigger] out@[u]) == (TreeStat {
                        tree_id: u as u8,
                        root: self.trees@[u].root,
                        parent: self.trees@[u].parent,
                        depth: if u == 0 {
                            self.own_depth
                        } else {
                            0
                        },
                        parent_cost: self.trees@[u].parent_cost,
                        is_root: self.trees@[u].parent is None,
                    }),
            decreases 3 - t,
        {
            let s: TreeState = self.trees[t];
            let depth: u32 = if t == 0 {
                self.own_depth
            } else {
                0
            };
            out.push(
                TreeStat {
                    tree_id: t as u8,
                    root: s.root,
                    parent: s.parent,
                    depth,
                    parent_cost: s.parent_cost,
                    is_root: s.parent.is_none(),
                },
            );
            t = t + 1;
        }
        out
    }
}

/// Better than something that nothing else beats is better than everything.
proof fn lemma_not_worse(peers: Seq<PeerData>, t: int, epoch: u64, i: int, b: int, j: int)
    ensures
        better(peers, t, epoch, i, b) && !better(peers, t, epoch, j, b) ==> better(
            peers,
            t,
            epoch,
            i,
            j,
        ),
{
    let x = root_rank(peers, t, epoch, i);
    let y = root_rank(peers, t, epoch, b);
    let z = root_rank(peers, t, epoch, j);
    metric_order_is_total(x, y, z);
    metric_order_is_total(z, y, x);
    metric_order_is_total(y, z, x);
}

/// The parent is a neighbour whose announcement is at most 30 seconds old. The
/// node takes over its root, and adds the cost of the link to the cost that it
/// announced. Of all neighbours that announced the same root none is cheaper in
/// total, and no root announced, nor the node itself, ranks better. Without a
/// parent the node is the root, at no cost. The other trees are left alone.
pub proof fn the_parent_is_the_cheapest_way_to_the_best_root(
    before: RouterState,
    t: int,
    now: u64,
    epoch: u64,
    after: RouterState,
)
    requires
        0 <= t < 3,
        tree_fixed(before, t, now, epoch, after),
    ensures
        match after.trees@[t].parent {
            Some(p) => exists|i: int|
                {
                    &&& 0 <= i < before.peers@.len()
                    &&& (#[trigger] before.peers@[i]).pub_key == p
                    &&& before.peers@[i].trees@[t] matches Some(a) && {
                        &&& now <= a.received_at + 30_000_000
                        &&& after.trees@[t].root == a.root
                        &&& after.trees@[t].parent_cost == if a.path_cost + before.peers@[i].cost
                            <= u64::MAX {
                            a.path_cost + before.peers@[i].cost
                        } else {
                            u64::MAX as int
                        }
                        &&& after.trees@[t].root_seq == before.trees@[t].root_seq
                        &&& t == 0 ==> after.own_depth == a.depth.wrapping_add(1)
                    }
                },
            None => {
                &&& after.trees@[t].root == before.pub_key
                &&& after.trees@[t].parent_cost == 0
                &&& after.trees@[t].root_seq == before.trees@[t].root_seq.wrapping_add(1)
                &&& t == 0 ==> after.own_depth == 0
            },
        },
        forall|j: int|
            0 <= j < before.peers@.len() ==> ((#[trigger] before.peers@[j]).trees@[t] matches Some(a)
                ==> (now <= a.received_at + 30_000_000 ==> {
                &&& after.trees@[t].parent is Some && a.root == after.trees@[t].root
                    ==> after.trees@[t].parent_cost <= a.path_cost + before.peers@[j].cost
                &&& !lex_less(
                    root_metric(a.root@, tree_seed(t), epoch),
                    root_metric(after.trees@[t].root@, tree_seed(t), epoch),
                )
            })),
        !lex_less(
            root_metric(before.pub_key@, tree_seed(t), epoch),
            root_metric(after.trees@[t].root@, tree_seed(t), epoch),
        ),
        forall|u: int| 0 <= u < 3 && u != t ==> #[trigger] after.trees@[u] == before.trees@[u],
        t != 0 ==> after.own_depth == before.own_depth,
        after.peers == before.peers,
{
    let n = before.peers@.len() as int;
    assert forall|j: int|
        0 <= j < before.peers@.len() && (#[trigger] before.peers@[j]).trees@[t] is Some && now
            <= before.peers@[j].trees@[t]->0.received_at + 30_000_000 implies candidate(
        before.peers@,
        t,
        now,
        j,
    ) by {}
    if after.trees@[t].parent is Some {
        let i = choose|i: int| #[trigger]
            best_of(before.peers@, t, now, epoch, n, i) && after.trees@ == before.trees@.update(
                t,
                below(before, t, i),
            );
        assert(candidate(before.peers@, t, now, i));
        assert(before.peers@[i].trees@[t] is Some);
    }
}

/// What a neighbour announced, signed, counts for the next 30 seconds: the root
/// that the node chooses is no worse than the one announced, and where it is the
/// one announced, the node has no dearer way to it than through the neighbour.
pub proof fn announcements_count(
    before: RouterState,
    from: PeerId,
    ann: Announce,
    now: u64,
    mid: RouterState,
    later: u64,
    epoch: u64,
    after: RouterState,
    i: int,
)
    requires
        before.wf(),
        0 <= i < before.peers@.len(),
        before.peers@[i].pub_key == from,
        ed25519_valid(ann.sender@, ann@.signed(), ann.signature@),
        ann.tree_id < 3,
        announce_taken(before, from, ann, now, mid),
        tree_fixed(mid, ann.tree_id as int, later, epoch, after),
        later <= now + 30_000_000,
    ensures
        !lex_less(
            root_metric(ann.root@, tree_seed(ann.tree_id as int), epoch),
            root_metric(after.trees@[ann.tree_id as int].root@, tree_seed(ann.tree_id as int), epoch),
        ),
        after.trees@[ann.tree_id as int].parent is Some && after.trees@[ann.tree_id as int].root
            == ann.root ==> after.trees@[ann.tree_id as int].parent_cost <= ann.path_cost
            + before.peers@[i].cost,
{
    let t = ann.tree_id as int;
    assert(crate::state::is_at(before.peers@, from, i));
    crate::state::lemma_index(before.peers@, from, i);
    the_parent_is_the_cheapest_way_to_the_best_root(mid, t, later, epoch, after);
    assert(mid.peers@[i].cost == before.peers@[i].cost);
    assert(mid.peers@[i].trees@[t] is Some);
}

/// An announcement that is not signed by the node it names, or from no neighbour,
/// or of a tree that does not exist, changes no neighbour. Otherwise it replaces
/// what the neighbour announced for that tree, and nothing else of it but the
/// time it was last heard.
pub proof fn announcements_replace_each_other(
    before: RouterState,
    from: PeerId,
    ann: Announce,
    now: u64,
    after: RouterState,
    j: int,
)
    requires
        before.wf(),
        announce_taken(before, from, ann, now, after),
        0 <= j < before.peers@.len(),
    ensures
        after.peers@.len() == before.peers@.len(),
        ({
            let p = before.peers@[j];
            let q = after.peers@[j];
            if p.pub_key == from && ann.tree_id < 3 && ed25519_valid(
                ann.sender@,
                ann@.signed(),
                ann.signature@,
            ) {
                &&& q == (PeerData { last_rx: now, trees: q.trees, ..p })
                &&& q.trees@[ann.tree_id as int] matches Some(a) && a.root == ann.root
                    && a.path_cost == ann.path_cost && a.depth == ann.depth && a.received_at == now
                &&& forall|u: int|
                    0 <= u < 3 && u != ann.tree_id ==> #[trigger] q.trees@[u] == p.trees@[u]
                &&& after.landmarks@ == landmarks_of(before.pub_key, after.peers@)
            } else {
                q == p
            }
        }),
        after.trees == before.trees,
        after.outbox == before.outbox,
{
    if before.peers@[j].pub_key == from {
        assert(crate::state::is_at(before.peers@, from, j));
        crate::state::lemma_index(before.peers@, from, j);
    } else if has_peer(before.peers@, from) {
        let i = index_of(before.peers@, from);
        assert(crate::state::is_at(before.peers@, from, i));
    }
}

/// Every neighbour with a link gets one announcement, which reads as the node's own
/// position in the tree, signed by the node.
pub proof fn the_own_position_is_announced(
    before: RouterState,
    t: int,
    after: RouterState,
    j: int,
) -> (k: int)
    requires
        crate::state::distinct_peers(before.peers@),
        0 <= t < 3,
        tree_announced(before, t, after),
        0 <= j < before.peers@.len(),
        before.peers@[j].links@.len() > 0,
    ensures
        before.sent().len() <= k < after.sent().len(),
        after.sent()[k].to == before.peers@[j].pub_key,
        after.sent()[k].frame[0] == ANNOUNCE,
        parse_announce(after.sent()[k].frame.skip(1)) matches Ok(v) && {
            &&& v.tree_id == t
            &&& v.root == before.trees@[t].root@
            &&& v.root_seq == before.trees@[t].root_seq
            &&& v.path_cost == before.trees@[t].parent_cost
            &&& v.sender == before.pub_key@
            &&& t == 0 ==> v.depth == before.own_depth
            &&& ed25519_valid(before.pub_key@, v.signed(), v.signature)
        },
        forall|a: int, b: int|
            #![trigger after.sent()[a], after.sent()[b]]
            before.sent().len() <= a < b < after.sent().len() ==> after.sent()[a].to
                != after.sent()[b].to,
        after.trees == before.trees,
        after.peers == before.peers,
{
    let v = own_announce(before, t);
    let frame = seq![ANNOUNCE] + v.wire();
    let k = crate::state::lemma_flooded(before.peers@, None, frame, j);
    crate::state::lemma_flood_is_even(before.sent(), before.peers@, None, frame, after.sent());
    crate::packet::announce_round_trip(v, Seq::empty());
    assert(frame.skip(1) =~= v.wire() + Seq::<u8>::empty());
    before.sent().len() as int + k
}

} // verus!
