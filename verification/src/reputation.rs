//! Reputation: what nodes report of each other, and probes of what neighbours
//! claim.

use crate::address::{key_difficulty_bits, leading_ones};
use crate::bytes::key_eq;
use crate::crypto::{ed25519_sign, ed25519_signature, ed25519_valid, ed25519_verify};
use crate::hash::blake2b_64;
use crate::lookup::{claims, claims_tag};
use crate::onionkeys::{is_timely, timely};
use crate::packet::{
    parse_path_lookup, parse_reputation_report, routing_tag, tag_of, PacketError, PathLookup,
    PathLookupView, ReputationReport, ReputationReportView, PATH_LOOKUP, TYPE_REPUTATION_REPORT,
};
use crate::router::{
    elapsed, time_since, PeerId, LOOKUP_EXPIRY, MAX_REPUTATION_OBSERVATIONS, PROBE_TIMEOUT,
    REPUTATION_MIN_QUORUM, REPUTATION_VALIDITY_MS, REPUTATION_WEIGHT_BITS,
};
use crate::state::{
    distinct_observations, distinct_probes, flood, has_peer, index_of, is_at, one, Event, EventKind,
    Observation, PeerData, Probe, RouterState, SeenLookup,
};
use crate::tables::{lemma_filter, lemma_filter_ends, lemma_filter_members, lemma_filter_step};
use rand::rngs::OsRng;
use rand::seq::SliceRandom;
use vstd::multiset::Multiset;
use vstd::prelude::*;

verus! {

broadcast use vstd::array::group_array_axioms;

/// `s[i]` is what `observer` reported of `observed`.
pub open spec fn observation_at(
    s: Seq<Observation>,
    observed: PeerId,
    observer: PeerId,
    i: int,
) -> bool {
    0 <= i < s.len() && s[i].observed == observed && s[i].observer == observer
}

pub open spec fn has_observation(s: Seq<Observation>, observed: PeerId, observer: PeerId) -> bool {
    exists|i: int| observation_at(s, observed, observer, i)
}

pub open spec fn observation_index(
    s: Seq<Observation>,
    observed: PeerId,
    observer: PeerId,
) -> int {
    choose|i: int| observation_at(s, observed, observer, i)
}

/// The observation `e` in place of another of the same pair, if there is one.
pub open spec fn put_observation(s: Seq<Observation>, e: Observation) -> Seq<Observation> {
    if has_observation(s, e.observed, e.observer) {
        s.update(observation_index(s, e.observed, e.observer), e)
    } else {
        s.push(e)
    }
}

/// Entry `i` is about a node other than `observed` that is neither a neighbour
/// nor the node itself.
pub open spec fn observation_expendable(s: RouterState, observed: PeerId, i: int) -> bool {
    let key = s.reputation@[i].observed;
    key != observed && !has_peer(s.peers@, key) && key != s.pub_key
}

/// Entry `v` is the first that can make room for one about `observed`.
pub open spec fn observation_victim(s: RouterState, observed: PeerId, v: int) -> bool {
    &&& 0 <= v < s.reputation@.len()
    &&& observation_expendable(s, observed, v)
    &&& forall|j: int| 0 <= j < v ==> !#[trigger] observation_expendable(s, observed, j)
}

pub open spec fn observation_victim_index(s: RouterState, observed: PeerId) -> int {
    choose|v: int| observation_victim(s, observed, v)
}

/// What remains once all that is known of `gone` is dropped.
pub open spec fn without_observed(s: Seq<Observation>, gone: PeerId) -> Seq<Observation> {
    s.filter(|o: Observation| o.observed != gone)
}

/// What learning `e` makes of the observations of `s`. Where there are as many
/// as are remembered and none is of the same pair, all that is known of an
/// expendable node makes room; where there is none such, `e` is not kept.
pub open spec fn learned_observation(s: RouterState, e: Observation) -> Seq<Observation> {
    if s.reputation@.len() < MAX_REPUTATION_OBSERVATIONS || has_observation(
        s.reputation@,
        e.observed,
        e.observer,
    ) {
        put_observation(s.reputation@, e)
    } else if exists|v: int| observation_victim(s, e.observed, v) {
        put_observation(
            without_observed(
                s.reputation@,
                s.reputation@[observation_victim_index(s, e.observed)].observed,
            ),
            e,
        )
    } else {
        s.reputation@
    }
}

/// The report is about another node than its observer, not from this node,
/// signed, timely, and newer than what is known from that observer.
pub open spec fn report_acceptable(s: RouterState, r: ReputationReport, now_ms: u64) -> bool {
    &&& r.observer != r.observed
    &&& r.observer != s.pub_key
    &&& ed25519_valid(r.observer@, r@.signed(), r.sig@)
    &&& timely(now_ms, r.valid_from_ms, REPUTATION_VALIDITY_MS)
    &&& has_observation(s.reputation@, r.observed, r.observer) ==> r.seq
        > s.reputation@[observation_index(s.reputation@, r.observed, r.observer)].seq
}

/// The report of the trust in neighbour `i`, not signed yet.
pub open spec fn unsigned_report(
    s: RouterState,
    i: int,
    score: u16,
    seq: u64,
    now_ms: u64,
) -> ReputationReportView {
    ReputationReportView {
        observer: s.pub_key@,
        observed: s.peers@[i].pub_key@,
        score_q16: score,
        seq,
        valid_from_ms: now_ms,
        sig: Seq::new(64, |k: int| 0u8),
    }
}

/// The report of the trust in neighbour `i`.
pub open spec fn own_report(
    s: RouterState,
    i: int,
    score: u16,
    seq: u64,
    now_ms: u64,
) -> ReputationReportView {
    let u = unsigned_report(s, i, score, seq, now_ms);
    ReputationReportView { sig: ed25519_signature(s.signing_key@, u.signed()), ..u }
}

/// What reporting the trust in neighbour `i` makes of `before`.
pub open spec fn reported(
    before: RouterState,
    i: int,
    score: u16,
    now: u64,
    now_ms: u64,
    after: RouterState,
) -> bool {
    let seq = before.own_reputation_seq.wrapping_add(1);
    &&& after == (RouterState {
        own_reputation_seq: seq,
        reputation: after.reputation,
        outbox: after.outbox,
        ..before
    })
    &&& after.reputation@ == learned_observation(
        before,
        Observation {
            observed: before.peers@[i].pub_key,
            observer: before.pub_key,
            seq,
            score_q16: score,
            at: now,
        },
    )
    &&& after.sent() == before.sent() + flood(
        before.peers@,
        None,
        seq![TYPE_REPUTATION_REPORT] + own_report(before, i, score, seq, now_ms).wire(),
    )
    &&& own_report(before, i, score, seq, now_ms).wf()
    &&& ed25519_valid(
        before.pub_key@,
        own_report(before, i, score, seq, now_ms).signed(),
        own_report(before, i, score, seq, now_ms).sig,
    )
}

/// What reporting the trust in the first `n` neighbours makes of `before`.
pub open spec fn reported_all(
    before: RouterState,
    scores: Seq<u16>,
    n: int,
    now: u64,
    now_ms: u64,
    after: RouterState,
) -> bool
    decreases n,
{
    if n <= 0 {
        after == before
    } else {
        exists|mid: RouterState|
            reported_all(before, scores, n - 1, now, now_ms, mid) && #[trigger] reported(
                mid,
                n - 1,
                scores[n - 1],
                now,
                now_ms,
                after,
            )
    }
}

/// An observation that counts in the consensus on `observed`: it is not too old.
pub open spec fn counts(o: Observation, observed: PeerId, now: u64) -> bool {
    o.observed == observed && elapsed(now, o.at) <= 1000 * REPUTATION_VALIDITY_MS
}

/// The votes that count, in the order of the table.
pub open spec fn votes(s: Seq<Observation>, observed: PeerId, now: u64) -> Seq<Observation> {
    s.filter(|o: Observation| counts(o, observed, now))
}

pub open spec fn sorted_by_score(s: Seq<Observation>) -> bool {
    forall|i: int, j: int|
        #![trigger s[i], s[j]]
        0 <= i <= j < s.len() ==> s[i].score_q16 <= s[j].score_q16
}

/// A consensus leaves out the lowest and the highest quarter of the votes.
pub open spec fn trimmed_votes(all: Seq<Observation>, kept: Seq<Observation>) -> bool {
    exists|sorted: Seq<Observation>| #[trigger]
        sorted_by_score(sorted) && sorted.to_multiset() == all.to_multiset() && kept
            == sorted.subrange(all.len() as int / 4, all.len() - all.len() as int / 4)
}

/// What the vote of an observer weighs: more for a key that is harder to find,
/// from one to sixteen.
pub open spec fn vote_weight(observer: PeerId) -> int {
    let bits = leading_ones(blake2b_64(observer@));
    if bits < 1 {
        1
    } else if bits > REPUTATION_WEIGHT_BITS {
        REPUTATION_WEIGHT_BITS as int
    } else {
        bits as int
    }
}

/// The weights of some votes, summed up.
pub open spec fn weight_sum(s: Seq<Observation>) -> int
    decreases s.len(),
{
    if s.len() == 0 {
        0
    } else {
        weight_sum(s.drop_last()) + vote_weight(s.last().observer)
    }
}

/// The weighted scores of some votes, summed up.
pub open spec fn score_sum(s: Seq<Observation>) -> int
    decreases s.len(),
{
    if s.len() == 0 {
        0
    } else {
        score_sum(s.drop_last()) + vote_weight(s.last().observer) * s.last().score_q16
    }
}

/// `r` is the consensus on `observed`, as a fraction.
pub open spec fn consensus_on(
    s: Seq<Observation>,
    observed: PeerId,
    now: u64,
    r: Option<(u128, u128)>,
) -> bool {
    let all = votes(s, observed, now);
    match r {
        Some(mean) => all.len() >= REPUTATION_MIN_QUORUM && mean.1 > 0 && exists|
            kept: Seq<Observation>,
        | #[trigger]
            trimmed_votes(all, kept) && mean.0 == score_sum(kept) && mean.1 == weight_sum(kept),
        None => all.len() < REPUTATION_MIN_QUORUM,
    }
}

/// Neighbour `via` claims to reach `target`, another known node.
pub open spec fn probe_candidate(s: RouterState, via: PeerId, target: PeerId) -> bool {
    &&& target != s.pub_key
    &&& target != via
    &&& has_peer(s.peers@, target) || exists|i: int|
        0 <= i < s.remote_onion_keys@.len() && (#[trigger] s.remote_onion_keys@[i]).origin
            == target
    &&& has_peer(s.peers@, via)
    &&& claims(s.peers@[index_of(s.peers@, via)], tag_of(target@))
}

/// `s[i]` is the probe `id`.
pub open spec fn probe_at(s: Seq<Probe>, id: u64, i: int) -> bool {
    0 <= i < s.len() && s[i].id == id
}

pub open spec fn has_probe(s: Seq<Probe>, id: u64) -> bool {
    exists|i: int| probe_at(s, id, i)
}

pub open spec fn probe_index(s: Seq<Probe>, id: u64) -> int {
    choose|i: int| probe_at(s, id, i)
}

/// The probe `e` in place of another with the same number, if there is one.
pub open spec fn put_probe(s: Seq<Probe>, e: Probe) -> Seq<Probe> {
    if has_probe(s, e.id) {
        s.update(probe_index(s, e.id), e)
    } else {
        s.push(e)
    }
}

/// The lookup that a probe sends.
pub open spec fn probe_frame(own: PeerId, target: PeerId, id: u64) -> Seq<u8> {
    seq![PATH_LOOKUP] + (PathLookupView {
        target: target@,
        source: own@,
        id,
        path: Seq::empty(),
    }).wire()
}

/// The neighbours that lose trust since a probe through them got no answer.
pub open spec fn failed_probes(s: Seq<Probe>, peers: Seq<PeerData>, now: u64) -> Seq<Event>
    decreases s.len(),
{
    if s.len() == 0 {
        Seq::empty()
    } else {
        let rest = failed_probes(s.drop_last(), peers, now);
        let p = s.last();
        if elapsed(now, p.at) > PROBE_TIMEOUT && has_peer(peers, p.via) {
            rest.push(Event { peer: p.via, kind: EventKind::TrustDown })
        } else {
            rest
        }
    }
}

/// Calls `rand::random`. Nothing is claimed of the number.
#[verifier::external_body]
pub(crate) fn random_id() -> (id: u64) {
    rand::random::<u64>()
}

/// Calls `rand::seq::SliceRandom::choose` with `rand::rngs::OsRng`. Trusted: the
/// result is one of the elements, and there is none only where there are no
/// elements.
#[verifier::external_body]
fn pick(v: &Vec<(PeerId, PeerId)>) -> (r: Option<(PeerId, PeerId)>)
    ensures
        r is None <==> v@.len() == 0,
        r matches Some(x) ==> v@.contains(x),
{
    v.as_slice().choose(&mut OsRng).copied()
}

proof fn lemma_observation_index(
    s: Seq<Observation>,
    observed: PeerId,
    observer: PeerId,
    i: int,
)
    requires
        distinct_observations(s),
        observation_at(s, observed, observer, i),
    ensures
        has_observation(s, observed, observer),
        observation_index(s, observed, observer) == i,
{
    let j = observation_index(s, observed, observer);
    assert(observation_at(s, observed, observer, j));
    if i < j {
        assert(s[i].observed != s[j].observed || s[i].observer != s[j].observer);
    } else if j < i {
        assert(s[j].observed != s[i].observed || s[j].observer != s[i].observer);
    }
}

proof fn lemma_put_observation(s: Seq<Observation>, e: Observation)
    requires
        distinct_observations(s),
    ensures
        distinct_observations(put_observation(s, e)),
{
    let r = put_observation(s, e);
    if has_observation(s, e.observed, e.observer) {
        let k = observation_index(s, e.observed, e.observer);
        assert(observation_at(s, e.observed, e.observer, k));
        assert forall|a: int, b: int|
            #![trigger r[a], r[b]]
            0 <= a < b < r.len() implies r[a].observed != r[b].observed || r[a].observer
            != r[b].observer by {
            assert(s[a].observed != s[b].observed || s[a].observer != s[b].observer);
        }
    } else {
        assert forall|a: int, b: int|
            #![trigger r[a], r[b]]
            0 <= a < b < r.len() implies r[a].observed != r[b].observed || r[a].observer
            != r[b].observer by {
            if b < s.len() {
                assert(s[a].observed != s[b].observed || s[a].observer != s[b].observer);
            } else {
                assert(!observation_at(s, e.observed, e.observer, a));
            }
        }
    }
}

/// Dropping what is known of a node leaves fewer observations, if there were
/// any about it.
proof fn lemma_without_observed(s: Seq<Observation>, gone: PeerId)
    ensures
        without_observed(s, gone).len() <= s.len(),
        (exists|i: int| 0 <= i < s.len() && (#[trigger] s[i]).observed == gone)
            ==> without_observed(s, gone).len() < s.len(),
    decreases s.len(),
{
    reveal(Seq::filter);
    if s.len() > 0 {
        let t = s.drop_last();
        lemma_without_observed(t, gone);
        if exists|i: int| 0 <= i < s.len() && (#[trigger] s[i]).observed == gone {
            let i = choose|i: int| 0 <= i < s.len() && (#[trigger] s[i]).observed == gone;
            if i < t.len() {
                assert(t[i].observed == gone);
            }
        }
    }
}

proof fn lemma_probe_index(s: Seq<Probe>, id: u64, i: int)
    requires
        distinct_probes(s),
        probe_at(s, id, i),
    ensures
        has_probe(s, id),
        probe_index(s, id) == i,
{
    let j = probe_index(s, id);
    assert(probe_at(s, id, j));
    if i < j {
        assert(s[i].id != s[j].id);
    } else if j < i {
        assert(s[j].id != s[i].id);
    }
}

/// What probing one claim of one neighbour makes of `before`. Which claim it is
/// is left to chance; without any claim nothing happens.
pub open spec fn claim_probed(
    before: RouterState,
    now: u64,
    after: RouterState,
) -> bool {
    &&& after == (RouterState {
        outbox: after.outbox,
        pending_probes: after.pending_probes,
        ..before
    })
    &&& (exists|via: PeerId, target: PeerId, id: u64| #[trigger]
        probe_candidate(before, via, target) && after.sent() == before.sent()
            + one(
            before.peers@,
            via,
            #[trigger] probe_frame(before.pub_key, target, id),
        ) && after.pending_probes@ == put_probe(
            before.pending_probes@,
            Probe { id, via, at: now },
        )) || ((forall|via: PeerId, target: PeerId|
        !#[trigger] probe_candidate(before, via, target)) && after == before)
}

/// What giving up on unanswered probes makes of `before`.
pub open spec fn probes_expired(
    before: RouterState,
    now: u64,
    after: RouterState,
) -> bool {
    &&& after == (RouterState {
        pending_probes: after.pending_probes,
        events: after.events,
        ..before
    })
    &&& after.pending_probes@ == before.pending_probes@.filter(
        |p: Probe| elapsed(now, p.at) <= PROBE_TIMEOUT,
    )
    &&& after.events@ == before.events@ + failed_probes(
        before.pending_probes@,
        before.peers@,
        now,
    )
}

/// What forgetting old lookups makes of `before`.
pub open spec fn lookups_expired(
    before: RouterState,
    now: u64,
    after: RouterState,
) -> bool {
    &&& after == (RouterState {
        pending_lookups: after.pending_lookups,
        ..before
    })
    &&& after.pending_lookups@ == before.pending_lookups@.filter(
        |l: SeenLookup| elapsed(now, l.at) < LOOKUP_EXPIRY,
    )
}

/// What a report makes of `before`.
pub open spec fn report_taken(
    before: RouterState,
    from: PeerId,
    r: ReputationReport,
    now: u64,
    now_ms: u64,
    after: RouterState,
) -> bool {
    &&& if !report_acceptable(before, r, now_ms) {
        after == before
    } else {
        &&& after == (RouterState {
            reputation: after.reputation,
            outbox: after.outbox,
            ..before
        })
        &&& after.reputation@ == learned_observation(
            before,
            Observation {
                observed: r.observed,
                observer: r.observer,
                seq: r.seq,
                score_q16: r.score_q16,
                at: now,
            },
        )
        &&& after.sent() == before.sent() + flood(
            before.peers@,
            Some(from),
            seq![TYPE_REPUTATION_REPORT] + r@.wire(),
        )
    }
}

impl RouterState {
    fn find_observation(&self, observed: &PeerId, observer: &PeerId) -> (r: Option<usize>)
        requires
            distinct_observations(self.reputation@),
        ensures
            match r {
                Some(i) => i < self.reputation@.len() && has_observation(
                    self.reputation@,
                    *observed,
                    *observer,
                ) && observation_index(self.reputation@, *observed, *observer) == i,
                None => !has_observation(self.reputation@, *observed, *observer),
            },
    {
        let mut i: usize = 0;
        while i < self.reputation.len()
            invariant
                distinct_observations(self.reputation@),
                i <= self.reputation@.len(),
                forall|j: int|
                    0 <= j < i ==> !observation_at(self.reputation@, *observed, *observer, j),
            decreases self.reputation@.len() - i,
        {
            let o: Observation = self.reputation[i];
            if key_eq(&o.observed, observed) && key_eq(&o.observer, observer) {
                proof {
                    assert(observation_at(self.reputation@, *observed, *observer, i as int));
                    lemma_observation_index(self.reputation@, *observed, *observer, i as int);
                }
                return Some(i);
            }
            i = i + 1;
        }
        None
    }

    fn find_observation_victim(&self, observed: &PeerId) -> (r: Option<PeerId>)
        requires
            self.wf(),
        ensures
            match r {
                Some(k) => (exists|v: int| observation_victim(*self, *observed, v)) && k
                    == self.reputation@[observation_victim_index(*self, *observed)].observed,
                None => !exists|v: int| observation_victim(*self, *observed, v),
            },
    {
        let mut i: usize = 0;
        while i < self.reputation.len()
            invariant
                self.wf(),
                i <= self.reputation@.len(),
                forall|j: int| 0 <= j < i ==> !#[trigger] observation_expendable(*self, *observed, j),
            decreases self.reputation@.len() - i,
        {
            let key: PeerId = self.reputation[i].observed;
            if !key_eq(&key, observed) && self.find_peer(&key).is_none() && !key_eq(
                &key,
                &self.pub_key,
            ) {
                proof {
                    assert(observation_expendable(*self, *observed, i as int));
                    assert(observation_victim(*self, *observed, i as int));
                    let c = observation_victim_index(*self, *observed);
                    assert(observation_victim(*self, *observed, c));
                    if c < i {
                        assert(!observation_expendable(*self, *observed, c));
                    } else if i < c {
                        assert(!observation_expendable(*self, *observed, i as int));
                    }
                }
                return Some(key);
            }
            assert(!observation_expendable(*self, *observed, i as int));
            i = i + 1;
        }
        None
    }

    fn forget_observed(&mut self, gone: &PeerId)
        requires
            old(self).wf(),
        ensures
            final(self).wf(),
            *final(self) == (RouterState { reputation: final(self).reputation, ..*old(self) }),
            final(self).reputation@ == without_observed(old(self).reputation@, *gone),
            (exists|i: int|
                0 <= i < old(self).reputation@.len() && (#[trigger] old(self).reputation@[i]).observed
                    == *gone) ==> final(self).reputation@.len() < old(self).reputation@.len(),
    {
        let ghost s = self.reputation@;
        let ghost keep = |o: Observation| o.observed != *gone;
        let mut kept: Vec<Observation> = Vec::new();
        let mut i: usize = 0;
        proof {
            lemma_filter_ends(s, keep);
        }
        while i < self.reputation.len()
            invariant
                s == self.reputation@,
                i <= s.len(),
                keep == (|o: Observation| o.observed != *gone),
                kept@ == s.take(i as int).filter(keep),
            decreases s.len() - i,
        {
            let o: Observation = self.reputation[i];
            proof {
                lemma_filter_step(s, keep, i as int);
            }
            if !key_eq(&o.observed, gone) {
                kept.push(o);
            }
            i = i + 1;
        }
        proof {
            lemma_filter_ends(s, keep);
            lemma_filter(
                s,
                keep,
                |a: Observation, b: Observation|
                    a.observed != b.observed || a.observer != b.observer,
            );
            lemma_without_observed(s, *gone);
        }
        self.reputation = kept;
    }

    /// Remember what `observer` reported of `observed`.
    pub fn record_reputation(
        &mut self,
        observer: PeerId,
        observed: PeerId,
        seq: u64,
        score_q16: u16,
        now: u64,
    )
        requires
            old(self).wf(),
        ensures
            final(self).wf(),
            *final(self) == (RouterState { reputation: final(self).reputation, ..*old(self) }),
            final(self).reputation@ == learned_observation(
                *old(self),
                Observation { observed, observer, seq, score_q16, at: now },
            ),
    {
        let e = Observation { observed, observer, seq, score_q16, at: now };
        assert(e.observed == observed && e.observer == observer);
        let known: bool = self.find_observation(&observed, &observer).is_some();
        if self.reputation.len() >= MAX_REPUTATION_OBSERVATIONS && !known {
            match self.find_observation_victim(&observed) {
                Some(gone) => {
                    proof {
                        let v = observation_victim_index(*self, observed);
                        assert(observation_victim(*self, observed, v));
                        assert(self.reputation@[v].observed == gone);
                    }
                    self.forget_observed(&gone);
                },
                None => {
                    return ;
                },
            }
        }
        let ghost base = self.reputation@;
        proof {
            lemma_put_observation(base, e);
        }
        match self.find_observation(&observed, &observer) {
            Some(i) => {
                self.reputation.set(i, e);
            },
            None => {
                self.reputation.push(e);
            },
        }
        assert(self.reputation@ == put_observation(base, e));
        assert(self.reputation@ == learned_observation(*old(self), e));
    }

    /// Some node reported how much it trusts another. A report that is
    /// acceptable is remembered and passed on to all neighbours but the one it
    /// came from.
    pub fn handle_reputation_report(
        &mut self,
        from: PeerId,
        r: ReputationReport,
        now: u64,
        now_ms: u64,
    )
        requires
            old(self).wf(),
        ensures
            final(self).wf(),
            report_taken(*old(self), from, r, now, now_ms, *final(self)),
    {
        if key_eq(&r.observer, &r.observed) {
            return ;
        }
        if key_eq(&r.observer, &self.pub_key) {
            return ;
        }
        let signed: Vec<u8> = r.sign_bytes();
        if !ed25519_verify(&r.observer, signed.as_slice(), &r.sig) {
            return ;
        }
        if !is_timely(now_ms, r.valid_from_ms, REPUTATION_VALIDITY_MS) {
            return ;
        }
        if let Some(i) = self.find_observation(&r.observed, &r.observer) {
            if r.seq <= self.reputation[i].seq {
                return ;
            }
        }
        self.record_reputation(r.observer, r.observed, r.seq, r.score_q16, now);
        let frame: Vec<u8> = r.encode();
        self.send_to_all(Some(from), &frame);
    }

    /// Report the trust in neighbour `i` to all neighbours.
    fn report_one(&mut self, i: usize, score: u16, now: u64, now_ms: u64)
        requires
            old(self).wf(),
            i < old(self).peers@.len(),
        ensures
            final(self).wf(),
            reported(*old(self), i as int, score, now, now_ms, *final(self)),
    {
        let seq: u64 = self.own_reputation_seq.wrapping_add(1);
        let observed: PeerId = self.peers[i].pub_key;
        let own: PeerId = self.pub_key;
        let mut r = ReputationReport {
            observer: own,
            observed,
            score_q16: score,
            seq,
            valid_from_ms: now_ms,
            sig: vstd::array::array_fill_for_copy_types::<u8, 64>(0u8),
        };
        assert(r@ =~= unsigned_report(*self, i as int, score, seq, now_ms));
        let signed: Vec<u8> = r.sign_bytes();
        r.sig = ed25519_sign(&self.signing_key, signed.as_slice());
        assert(r@ =~= own_report(*self, i as int, score, seq, now_ms));
        self.own_reputation_seq = seq;
        let ghost mid = *self;
        self.record_reputation(own, observed, seq, score, now);
        proof {
            lemma_learned_same(
                *old(self),
                mid,
                Observation { observed, observer: own, seq, score_q16: score, at: now },
            );
        }
        let frame: Vec<u8> = r.encode();
        self.send_to_all(None, &frame);
    }

    /// Report the trust in each neighbour to all neighbours. `scores` holds the
    /// trust in each, in the order of the neighbours.
    pub fn broadcast_reputation(&mut self, scores: &Vec<u16>, now: u64, now_ms: u64)
        requires
            old(self).wf(),
            scores@.len() == old(self).peers@.len(),
        ensures
            final(self).wf(),
            reported_all(
                *old(self),
                scores@,
                scores@.len() as int,
                now,
                now_ms,
                *final(self),
            ),
    {
        let mut i: usize = 0;
        while i < scores.len()
            invariant
                self.wf(),
                scores@.len() == self.peers@.len(),
                i <= scores@.len(),
                reported_all(*old(self), scores@, i as int, now, now_ms, *self),
            decreases scores@.len() - i,
        {
            let ghost mid = *self;
            self.report_one(i, scores[i], now, now_ms);
            proof {
                let n = i + 1;
                assert(reported_all(*old(self), scores@, n - 1, now, now_ms, mid));
                assert(reported(mid, n - 1, scores@[n - 1], now, now_ms, *self));
                assert(reported_all(*old(self), scores@, n, now, now_ms, *self));
            }
            i = i + 1;
        }
    }

    /// The votes from which the consensus on `observed` is made: those not too
    /// old, in the order of their scores, without the lowest and the highest
    /// quarter. There is no consensus of fewer than three.
    pub fn consensus_votes(&self, observed: &PeerId, now: u64) -> (r: Option<Vec<Observation>>)
        ensures
            ({
                let all = votes(self.reputation@, *observed, now);
                match r {
                    Some(kept) => all.len() >= REPUTATION_MIN_QUORUM && trimmed_votes(all, kept@),
                    None => all.len() < REPUTATION_MIN_QUORUM,
                }
            }),
    {
        let ghost s = self.reputation@;
        let ghost keep = |o: Observation| counts(o, *observed, now);
        let mut fresh: Vec<Observation> = Vec::new();
        let mut i: usize = 0;
        proof {
            lemma_filter_ends(s, keep);
        }
        let oldest: u64 = if now >= 1000 * REPUTATION_VALIDITY_MS {
            now - 1000 * REPUTATION_VALIDITY_MS
        } else {
            0
        };
        while i < self.reputation.len()
            invariant
                s == self.reputation@,
                i <= s.len(),
                oldest == if now >= 1000 * REPUTATION_VALIDITY_MS {
                    now - 1000 * REPUTATION_VALIDITY_MS
                } else {
                    0
                },
                keep == (|o: Observation| counts(o, *observed, now)),
                fresh@ == s.take(i as int).filter(keep),
            decreases s.len() - i,
        {
            let o: Observation = self.reputation[i];
            proof {
                lemma_filter_step(s, keep, i as int);
            }
            if key_eq(&o.observed, observed) && o.at >= oldest {
                fresh.push(o);
            }
            i = i + 1;
        }
        proof {
            lemma_filter_ends(s, keep);
        }
        if fresh.len() < REPUTATION_MIN_QUORUM {
            return None;
        }
        let ghost all = fresh@;
        sort_by_score(&mut fresh);
        proof {
            all.to_multiset_ensures();
            fresh@.to_multiset_ensures();
        }
        let n: usize = fresh.len();
        let trim: usize = n / 4;
        let mut kept: Vec<Observation> = Vec::new();
        let mut k: usize = trim;
        while k < n - trim
            invariant
                n == fresh@.len(),
                trim == n / 4,
                trim <= k <= n - trim,
                kept@ == fresh@.subrange(trim as int, k as int),
            decreases n - k,
        {
            kept.push(fresh[k]);
            assert(kept@ =~= fresh@.subrange(trim as int, k + 1));
            k = k + 1;
        }
        assert(sorted_by_score(fresh@));
        Some(kept)
    }

    /// The consensus on `observed`: the mean of the votes that are kept, each
    /// with its weight. It is given as a fraction, the sum of the weighted
    /// scores over the sum of the weights. There is no consensus of fewer than
    /// three votes.
    pub fn consensus_trust(&self, observed: &PeerId, now: u64) -> (r: Option<(u128, u128)>)
        ensures
            consensus_on(self.reputation@, *observed, now, r),
    {
        let ghost all = votes(self.reputation@, *observed, now);
        match self.consensus_votes(observed, now) {
            None => None,
            Some(kept) => {
                let mut sum: u128 = 0;
                let mut total: u128 = 0;
                let mut i: usize = 0;
                assert(kept@.take(0) =~= Seq::<Observation>::empty());
                while i < kept.len()
                    invariant
                        i <= kept@.len(),
                        sum == score_sum(kept@.take(i as int)),
                        total == weight_sum(kept@.take(i as int)),
                        i <= total <= 16 * i,
                        sum <= 1048560 * i,
                    decreases kept@.len() - i,
                {
                    proof {
                        assert(kept@.take(i + 1).drop_last() =~= kept@.take(i as int));
                        assert(kept@.take(i + 1).last() == kept@[i as int]);
                    }
                    let o: Observation = kept[i];
                    let weight: u32 = weight_of(&o.observer);
                    let score: u32 = o.score_q16 as u32;
                    assert(0 <= weight * score <= 1048560) by (nonlinear_arith)
                        requires
                            weight <= 16,
                            score <= 65535,
                    ;
                    let vote: u32 = weight * score;
                    sum = sum + vote as u128;
                    total = total + weight as u128;
                    i = i + 1;
                }
                assert(kept@.take(i as int) =~= kept@);
                proof {
                    lemma_some_are_kept(all, kept@);
                }
                Some((sum, total))
            },
        }
    }

    /// All pairs of a neighbour and another known node that the neighbour
    /// claims to reach.
    pub fn probe_candidates(&self) -> (r: Vec<(PeerId, PeerId)>)
        requires
            self.wf(),
        ensures
            forall|i: int|
                0 <= i < r@.len() ==> probe_candidate(*self, (#[trigger] r@[i]).0, r@[i].1),
            forall|hop: PeerId, target: PeerId| #[trigger]
                probe_candidate(*self, hop, target) ==> r@.contains((hop, target)),
    {
        let mut known: Vec<PeerId> = Vec::new();
        let mut i: usize = 0;
        while i < self.peers.len()
            invariant
                self.wf(),
                i <= self.peers@.len(),
                forall|j: int| 0 <= j < known@.len() ==> is_known(*self, #[trigger] known@[j]),
                forall|j: int|
                    0 <= j < i && (#[trigger] self.peers@[j]).pub_key != self.pub_key
                        ==> known@.contains(self.peers@[j].pub_key),
            decreases self.peers@.len() - i,
        {
            let key: PeerId = self.peers[i].pub_key;
            let ghost before = known@;
            if !key_eq(&key, &self.pub_key) {
                proof {
                    assert(is_at(self.peers@, key, i as int));
                    assert(is_known(*self, key));
                }
                known.push(key);
                proof {
                    assert(known@[before.len() as int] == key);
                    lemma_push_contains(before, key);
                }
            }
            i = i + 1;
        }
        let mut k: usize = 0;
        while k < self.remote_onion_keys.len()
            invariant
                self.wf(),
                k <= self.remote_onion_keys@.len(),
                forall|j: int| 0 <= j < known@.len() ==> is_known(*self, #[trigger] known@[j]),
                forall|j: int|
                    0 <= j < self.peers@.len() && (#[trigger] self.peers@[j]).pub_key
                        != self.pub_key ==> known@.contains(self.peers@[j].pub_key),
                forall|j: int|
                    0 <= j < k && (#[trigger] self.remote_onion_keys@[j]).origin != self.pub_key
                        ==> known@.contains(self.remote_onion_keys@[j].origin),
            decreases self.remote_onion_keys@.len() - k,
        {
            let key: PeerId = self.remote_onion_keys[k].origin;
            let ghost before = known@;
            if !key_eq(&key, &self.pub_key) {
                proof {
                    assert(self.remote_onion_keys@[k as int].origin == key);
                    assert(is_known(*self, key));
                }
                known.push(key);
                proof {
                    assert(known@[before.len() as int] == key);
                    lemma_push_contains(before, key);
                }
            }
            k = k + 1;
        }
        let mut out: Vec<(PeerId, PeerId)> = Vec::new();
        let mut a: usize = 0;
        while a < self.peers.len()
            invariant
                self.wf(),
                a <= self.peers@.len(),
                forall|j: int| 0 <= j < known@.len() ==> is_known(*self, #[trigger] known@[j]),
                forall|j: int|
                    0 <= j < out@.len() ==> probe_candidate(
                        *self,
                        (#[trigger] out@[j]).0,
                        out@[j].1,
                    ),
                forall|x: int, y: int|
                    #![trigger self.peers@[x], known@[y]]
                    0 <= x < a && 0 <= y < known@.len() && probe_candidate(
                        *self,
                        self.peers@[x].pub_key,
                        known@[y],
                    ) ==> out@.contains((self.peers@[x].pub_key, known@[y])),
            decreases self.peers@.len() - a,
        {
            let hop: PeerId = self.peers[a].pub_key;
            proof {
                assert(is_at(self.peers@, hop, a as int));
                crate::state::lemma_index(self.peers@, hop, a as int);
            }
            let mut b: usize = 0;
            while b < known.len()
                invariant
                    self.wf(),
                    a < self.peers@.len(),
                    b <= known@.len(),
                    hop == self.peers@[a as int].pub_key,
                    has_peer(self.peers@, hop),
                    index_of(self.peers@, hop) == a,
                    forall|j: int|
                        0 <= j < known@.len() ==> is_known(*self, #[trigger] known@[j]),
                    forall|j: int|
                        0 <= j < out@.len() ==> probe_candidate(
                            *self,
                            (#[trigger] out@[j]).0,
                            out@[j].1,
                        ),
                    forall|x: int, y: int|
                        #![trigger self.peers@[x], known@[y]]
                        0 <= x < a && 0 <= y < known@.len() && probe_candidate(
                            *self,
                            self.peers@[x].pub_key,
                            known@[y],
                        ) ==> out@.contains((self.peers@[x].pub_key, known@[y])),
                    forall|y: int|
                        0 <= y < b && probe_candidate(*self, hop, #[trigger] known@[y])
                            ==> out@.contains((hop, known@[y])),
                decreases known@.len() - b,
            {
                let target: PeerId = known[b];
                let ghost before = out@;
                if !key_eq(&target, &hop) {
                    let tag: [u8; 16] = routing_tag(&target);
                    if claims_tag(&self.peers[a], &tag) {
                        proof {
                            assert(is_known(*self, known@[b as int]));
                            assert(probe_candidate(*self, hop, target));
                        }
                        out.push((hop, target));
                        proof {
                            assert(out@[before.len() as int] == (hop, target));
                            lemma_push_contains(before, (hop, target));
                        }
                    }
                }
                b = b + 1;
            }
            a = a + 1;
        }
        proof {
            assert forall|hop: PeerId, target: PeerId| #[trigger]
                probe_candidate(*self, hop, target) implies out@.contains((hop, target)) by {
                let x = index_of(self.peers@, hop);
                assert(is_at(self.peers@, hop, x));
                assert(known@.contains(target)) by {
                    if has_peer(self.peers@, target) {
                        let j = index_of(self.peers@, target);
                        assert(is_at(self.peers@, target, j));
                        assert(known@.contains(self.peers@[j].pub_key));
                    } else {
                        let j = choose|j: int|
                            0 <= j < self.remote_onion_keys@.len() && (
                            #[trigger] self.remote_onion_keys@[j]).origin == target;
                        assert(known@.contains(self.remote_onion_keys@[j].origin));
                    }
                }
                let y = choose|y: int| 0 <= y < known@.len() && known@[y] == target;
                assert(self.peers@[x].pub_key == hop && known@[y] == target);
            }
        }
        out
    }

    /// Send a lookup for `target` through `via` alone, and wait for the answer.
    pub fn send_probe(&mut self, via: PeerId, target: PeerId, id: u64, now: u64)
        requires
            old(self).wf(),
        ensures
            final(self).wf(),
            *final(self) == (RouterState {
                outbox: final(self).outbox,
                pending_probes: final(self).pending_probes,
                ..*old(self)
            }),
            final(self).sent() == old(self).sent() + one(
                old(self).peers@,
                via,
                probe_frame(old(self).pub_key, target, id),
            ),
            final(self).pending_probes@ == put_probe(
                old(self).pending_probes@,
                Probe { id, via, at: now },
            ),
    {
        let lookup = PathLookup { target, source: self.pub_key, id, path: Vec::new() };
        assert(lookup@ =~= PathLookupView {
            target: target@,
            source: self.pub_key@,
            id,
            path: Seq::empty(),
        });
        let frame: Vec<u8> = lookup.encode();
        self.send_to_peer(&via, frame);
        let e = Probe { id, via, at: now };
        assert(e.id == id);
        let ghost before = self.pending_probes@;
        let mut i: usize = 0;
        while i < self.pending_probes.len()
            invariant
                self.wf(),
                *self == (RouterState { outbox: self.outbox, ..*old(self) }),
                self.sent() == old(self).sent() + one(
                    old(self).peers@,
                    via,
                    probe_frame(old(self).pub_key, target, id),
                ),
                before == self.pending_probes@,
                before == old(self).pending_probes@,
                i <= before.len(),
                forall|j: int| 0 <= j < i ==> !probe_at(before, id, j),
                e == (Probe { id, via, at: now }),
                e.id == id,
            decreases before.len() - i,
        {
            if self.pending_probes[i].id == id {
                proof {
                    assert(probe_at(before, id, i as int));
                    lemma_probe_index(before, id, i as int);
                }
                self.pending_probes.set(i, e);
                proof {
                    let r = self.pending_probes@;
                    assert(r == put_probe(before, e));
                    assert forall|a: int, b: int|
                        #![trigger r[a], r[b]]
                        0 <= a < b < r.len() implies r[a].id != r[b].id by {
                        assert(before[a].id != before[b].id);
                    }
                }
                return ;
            }
            i = i + 1;
        }
        self.pending_probes.push(e);
        proof {
            let r = self.pending_probes@;
            assert(!has_probe(before, id));
            assert(r == put_probe(before, e));
            assert forall|a: int, b: int|
                #![trigger r[a], r[b]]
                0 <= a < b < r.len() implies r[a].id != r[b].id by {
                if b < before.len() {
                    assert(before[a].id != before[b].id);
                } else {
                    assert(!probe_at(before, id, a));
                }
            }
        }
    }

    /// Probe one claim of one neighbour, chosen by chance. Without any claim
    /// nothing happens.
    pub fn probe_cuckoo_claim(&mut self, now: u64)
        requires
            old(self).wf(),
        ensures
            final(self).wf(),
            claim_probed(*old(self), now, *final(self)),
    {
        let candidates: Vec<(PeerId, PeerId)> = self.probe_candidates();
        let picked: Option<(PeerId, PeerId)> = pick(&candidates);
        if picked.is_none() {
            proof {
                assert forall|via: PeerId, target: PeerId|
                    !#[trigger] probe_candidate(*self, via, target) by {
                    if probe_candidate(*self, via, target) {
                        assert(candidates@.contains((via, target)));
                    }
                }
            }
            return ;
        }
        let (via, target) = picked.unwrap();
        let id: u64 = random_id();
        proof {
            let k = choose|k: int| 0 <= k < candidates@.len() && candidates@[k] == (via, target);
            assert(probe_candidate(*self, candidates@[k].0, candidates@[k].1));
        }
        self.send_probe(via, target, id, now);
        assert(self.sent() == old(self).sent() + one(
            old(self).peers@,
            via,
            probe_frame(old(self).pub_key, target, id),
        ));
    }

    /// Give up on the probes that got no answer in time; the neighbours that
    /// they went through lose trust.
    pub fn cleanup_stale_probes(&mut self, now: u64)
        requires
            old(self).wf(),
        ensures
            final(self).wf(),
            probes_expired(*old(self), now, *final(self)),
    {
        let ghost s = self.pending_probes@;
        let ghost keep = |p: Probe| elapsed(now, p.at) <= PROBE_TIMEOUT;
        let mut kept: Vec<Probe> = Vec::new();
        let mut i: usize = 0;
        proof {
            lemma_filter_ends(s, keep);
            assert(self.events@ =~= old(self).events@ + failed_probes(s.take(0), self.peers@, now));
        }
        while i < self.pending_probes.len()
            invariant
                self.wf(),
                *self == (RouterState { events: self.events, ..*old(self) }),
                s == self.pending_probes@,
                i <= s.len(),
                keep == (|p: Probe| elapsed(now, p.at) <= PROBE_TIMEOUT),
                kept@ == s.take(i as int).filter(keep),
                self.events@ == old(self).events@ + failed_probes(
                    s.take(i as int),
                    old(self).peers@,
                    now,
                ),
            decreases s.len() - i,
        {
            let p: Probe = self.pending_probes[i];
            let ghost before = self.events@;
            proof {
                lemma_filter_step(s, keep, i as int);
                assert(s.take(i + 1).drop_last() =~= s.take(i as int));
            }
            if time_since(now, p.at) <= PROBE_TIMEOUT {
                kept.push(p);
            } else if self.find_peer(&p.via).is_some() {
                self.push_event(p.via, EventKind::TrustDown);
            }
            assert(self.events@ =~= old(self).events@ + failed_probes(
                s.take(i + 1),
                old(self).peers@,
                now,
            ));
            i = i + 1;
        }
        proof {
            lemma_filter_ends(s, keep);
            lemma_filter(s, keep, |a: Probe, b: Probe| a.id != b.id);
        }
        self.pending_probes = kept;
    }

    /// Forget the lookups that were seen long enough ago.
    pub fn cleanup_stale_lookups(&mut self, now: u64)
        requires
            old(self).wf(),
        ensures
            final(self).wf(),
            lookups_expired(*old(self), now, *final(self)),
    {
        let ghost s = self.pending_lookups@;
        let ghost keep = |l: SeenLookup| elapsed(now, l.at) < LOOKUP_EXPIRY;
        let mut kept: Vec<SeenLookup> = Vec::new();
        let mut i: usize = 0;
        proof {
            lemma_filter_ends(s, keep);
        }
        while i < self.pending_lookups.len()
            invariant
                s == self.pending_lookups@,
                i <= s.len(),
                keep == (|l: SeenLookup| elapsed(now, l.at) < LOOKUP_EXPIRY),
                kept@ == s.take(i as int).filter(keep),
            decreases s.len() - i,
        {
            let l: SeenLookup = self.pending_lookups[i];
            proof {
                lemma_filter_step(s, keep, i as int);
            }
            if time_since(now, l.at) < LOOKUP_EXPIRY {
                kept.push(l);
            }
            i = i + 1;
        }
        proof {
            lemma_filter_ends(s, keep);
            lemma_filter(s, keep, |a: SeenLookup, b: SeenLookup| a.id != b.id);
        }
        self.pending_lookups = kept;
    }
}

spec fn is_known(s: RouterState, key: PeerId) -> bool {
    key != s.pub_key && (has_peer(s.peers@, key) || exists|i: int|
        0 <= i < s.remote_onion_keys@.len() && (#[trigger] s.remote_onion_keys@[i]).origin == key)
}

proof fn lemma_push_contains<A>(s: Seq<A>, x: A)
    ensures
        s.push(x).contains(x),
        forall|y: A| s.contains(y) ==> #[trigger] s.push(x).contains(y),
{
    assert(s.push(x)[s.len() as int] == x);
    assert forall|y: A| s.contains(y) implies #[trigger] s.push(x).contains(y) by {
        let i = choose|i: int| 0 <= i < s.len() && s[i] == y;
        assert(s.push(x)[i] == y);
    }
}

proof fn lemma_learned_same(a: RouterState, b: RouterState, e: Observation)
    requires
        a.peers == b.peers,
        a.pub_key == b.pub_key,
        a.reputation == b.reputation,
    ensures
        learned_observation(a, e) == learned_observation(b, e),
{
    let o = e.observed;
    assert forall|v: int| observation_victim(a, o, v) == observation_victim(b, o, v) by {
        assert forall|j: int| observation_expendable(a, o, j) == observation_expendable(b, o, j) by {}
        if observation_victim(a, o, v) {
            assert forall|j: int| 0 <= j < v implies !#[trigger] observation_expendable(b, o, j) by {
                assert(!observation_expendable(a, o, j));
            }
        }
        if observation_victim(b, o, v) {
            assert forall|j: int| 0 <= j < v implies !#[trigger] observation_expendable(a, o, j) by {
                assert(!observation_expendable(b, o, j));
            }
        }
    }
    if exists|v: int| observation_victim(a, o, v) {
        let x = observation_victim_index(a, o);
        let y = observation_victim_index(b, o);
        assert(observation_victim(a, o, x));
        assert(observation_victim(b, o, x));
        assert(observation_victim(b, o, y));
        if x < y {
            assert(!observation_expendable(b, o, x));
        } else if y < x {
            assert(!observation_expendable(b, o, y) || observation_victim(a, o, y));
            assert(observation_expendable(b, o, y));
            assert(!observation_expendable(a, o, y));
        }
    }
}

/// Sort observations by score, keeping the order of equal ones.
fn sort_by_score(v: &mut Vec<Observation>)
    ensures
        sorted_by_score(final(v)@),
        final(v)@.to_multiset() == old(v)@.to_multiset(),
        final(v)@.len() == old(v)@.len(),
{
    let n: usize = v.len();
    let mut i: usize = 0;
    while i < n
        invariant
            i <= n,
            n == v@.len(),
            v@.to_multiset() == old(v)@.to_multiset(),
            sorted_by_score(v@.take(i as int)),
        decreases n - i,
    {
        let mut j: usize = i;
        proof {
            let t = v@.take(i as int);
            assert forall|a: int, b: int|
                #![trigger v@[a], v@[b]]
                0 <= a <= b <= i && a != j && b != j implies v@[a].score_q16
                <= v@[b].score_q16 by {
                assert(t[a].score_q16 <= t[b].score_q16);
            }
        }
        while j > 0 && v[j - 1].score_q16 > v[j].score_q16
            invariant
                j <= i < n,
                n == v@.len(),
                v@.to_multiset() == old(v)@.to_multiset(),
                forall|a: int, b: int|
                    #![trigger v@[a], v@[b]]
                    0 <= a <= b <= i && a != j && b != j ==> v@[a].score_q16 <= v@[b].score_q16,
                forall|b: int| j < b <= i ==> v@[j as int].score_q16 <= (#[trigger] v@[b]).score_q16,
            decreases j,
        {
            let x: Observation = v[j - 1];
            let y: Observation = v[j];
            let ghost before = v@;
            v.set(j - 1, y);
            v.set(j, x);
            proof {
                assert(v@ =~= before.update(j - 1, y).update(j as int, x));
                lemma_swap_multiset(before, j - 1, j as int);
            }
            j = j - 1;
        }
        proof {
            let t = v@.take(i + 1);
            assert forall|a: int, b: int|
                #![trigger t[a], t[b]]
                0 <= a <= b < t.len() implies t[a].score_q16 <= t[b].score_q16 by {
                if a == j && b > j {
                    assert(v@[j as int].score_q16 <= v@[b].score_q16);
                } else if b == j && a < j {
                    assert(v@[a].score_q16 <= v@[j - 1].score_q16);
                } else if a != j && b != j {
                    assert(v@[a].score_q16 <= v@[b].score_q16);
                }
            }
        }
        i = i + 1;
    }
    assert(v@.take(n as int) =~= v@);
    proof {
        v@.to_multiset_ensures();
        old(v)@.to_multiset_ensures();
    }
}

proof fn lemma_swap_multiset(s: Seq<Observation>, a: int, b: int)
    requires
        0 <= a < b < s.len(),
    ensures
        s.update(a, s[b]).update(b, s[a]).to_multiset() == s.to_multiset(),
{
    broadcast use vstd::seq_lib::group_to_multiset_ensures;

    let t = s.update(a, s[b]);
    let u = t.update(b, s[a]);
    assert(t.to_multiset() =~= s.to_multiset().remove(s[a]).insert(s[b]));
    assert(u.to_multiset() =~= t.to_multiset().remove(s[b]).insert(s[a]));
    assert(s.to_multiset().count(s[a]) > 0);
    assert(u.to_multiset() =~= s.to_multiset());
}

/// The votes of the observers in `group`.
pub open spec fn votes_of(all: Seq<Observation>, group: Set<PeerId>) -> Multiset<Observation> {
    all.to_multiset().filter(|o: Observation| group.contains(o.observer))
}

/// Observers that hold at most a quarter of the votes cannot move the consensus:
/// whatever they report, each vote that is kept lies between two votes of the
/// others.
pub proof fn few_liars_move_nothing(
    all: Seq<Observation>,
    kept: Seq<Observation>,
    liars: Set<PeerId>,
    low: u16,
    high: u16,
)
    requires
        trimmed_votes(all, kept),
        votes_of(all, liars).len() <= all.len() as int / 4,
        forall|i: int|
            0 <= i < all.len() && !liars.contains((#[trigger] all[i]).observer) ==> low
                <= all[i].score_q16 <= high,
    ensures
        forall|k: int| 0 <= k < kept.len() ==> low <= (#[trigger] kept[k]).score_q16 <= high,
{
    broadcast use vstd::seq_lib::group_to_multiset_ensures;

    let sorted = choose|sorted: Seq<Observation>| #[trigger]
        sorted_by_score(sorted) && sorted.to_multiset() == all.to_multiset() && kept
            == sorted.subrange(all.len() as int / 4, all.len() - all.len() as int / 4);
    let n = all.len() as int;
    all.to_multiset_ensures();
    sorted.to_multiset_ensures();
    assert forall|i: int| 0 <= i < n && !liars.contains((#[trigger] sorted[i]).observer) implies low
        <= sorted[i].score_q16 <= high by {
        assert(sorted.to_multiset().count(sorted[i]) > 0);
        assert(all.contains(sorted[i]));
    }
    assert forall|k: int| 0 <= k < kept.len() implies low <= (#[trigger] kept[k]).score_q16
        <= high by {
        let m = n / 4 + k;
        assert(kept[k] == sorted[m]);
        if sorted[m].score_q16 > high {
            let part = sorted.skip(m);
            assert(sorted =~= sorted.take(m) + part);
            assert forall|i: int| 0 <= i < part.len() implies liars.contains(
                (#[trigger] part[i]).observer,
            ) by {
                assert(sorted[m].score_q16 <= sorted[m + i].score_q16);
            }
            lemma_part_of(sorted.take(m), part, liars);
        }
        if sorted[m].score_q16 < low {
            let part = sorted.take(m + 1);
            assert(sorted =~= part + sorted.skip(m + 1));
            assert forall|i: int| 0 <= i < part.len() implies liars.contains(
                (#[trigger] part[i]).observer,
            ) by {
                assert(sorted[i].score_q16 <= sorted[m].score_q16);
            }
            vstd::seq_lib::lemma_seq_union_to_multiset_commutative(part, sorted.skip(m + 1));
            lemma_part_of(sorted.skip(m + 1), part, liars);
        }
    }
}

/// A consensus keeps some of the votes.
proof fn lemma_some_are_kept(all: Seq<Observation>, kept: Seq<Observation>)
    requires
        trimmed_votes(all, kept),
        all.len() > 0,
    ensures
        kept.len() > 0,
{
    let sorted = choose|sorted: Seq<Observation>| #[trigger]
        sorted_by_score(sorted) && sorted.to_multiset() == all.to_multiset() && kept
            == sorted.subrange(all.len() as int / 4, all.len() - all.len() as int / 4);
    all.to_multiset_ensures();
    sorted.to_multiset_ensures();
}

fn weight_of(observer: &PeerId) -> (w: u32)
    ensures
        w == vote_weight(*observer),
        1 <= w <= 16,
{
    let bits: u32 = key_difficulty_bits(observer);
    if bits < 1 {
        1
    } else if bits > REPUTATION_WEIGHT_BITS {
        REPUTATION_WEIGHT_BITS
    } else {
        bits
    }
}

/// The mean of some votes lies in any range that holds all of them.
pub proof fn means_lie_among_the_votes(kept: Seq<Observation>, low: u16, high: u16)
    requires
        forall|k: int| 0 <= k < kept.len() ==> low <= (#[trigger] kept[k]).score_q16 <= high,
    ensures
        low * weight_sum(kept) <= score_sum(kept) <= high * weight_sum(kept),
    decreases kept.len(),
{
    if kept.len() > 0 {
        let rest = kept.drop_last();
        let o = kept.last();
        assert(o == kept[kept.len() - 1]);
        assert forall|k: int| 0 <= k < rest.len() implies low <= (#[trigger] rest[k]).score_q16
            <= high by {
            assert(rest[k] == kept[k]);
        }
        means_lie_among_the_votes(rest, low, high);
        let w = vote_weight(o.observer);
        assert(low * (weight_sum(rest) + w) <= score_sum(rest) + w * o.score_q16 <= high * (
        weight_sum(rest) + w)) by (nonlinear_arith)
            requires
                low * weight_sum(rest) <= score_sum(rest) <= high * weight_sum(rest),
                low <= o.score_q16 <= high,
                w >= 1,
        ;
    }
}

proof fn lemma_part_of(rest: Seq<Observation>, part: Seq<Observation>, group: Set<PeerId>)
    requires
        forall|i: int| 0 <= i < part.len() ==> group.contains((#[trigger] part[i]).observer),
    ensures
        votes_of(rest + part, group).len() >= part.len(),
{
    broadcast use {vstd::seq_lib::group_to_multiset_ensures, vstd::multiset::group_multiset_axioms};

    vstd::seq_lib::lemma_multiset_commutative(rest, part);
    let all = votes_of(rest + part, group);
    let sub = part.to_multiset();
    assert forall|o: Observation| #[trigger] sub.count(o) <= all.count(o) by {
        if sub.count(o) > 0 {
            assert(part.contains(o));
        }
    }
    assert(sub.subset_of(all));
    assert(all.sub(sub).len() == all.len() - sub.len());
}

/// A report is passed on at most once: once it has been accepted and
/// remembered, it is not acceptable any more, nor is any older one of the same
/// observer about the same node.
pub proof fn reports_are_accepted_once(
    s: RouterState,
    r: ReputationReport,
    now: u64,
    now_ms: u64,
    after: RouterState,
    again: ReputationReport,
    later_ms: u64,
)
    requires
        s.wf(),
        report_acceptable(s, r, now_ms),
        after.wf(),
        has_observation(after.reputation@, r.observed, r.observer),
        after.reputation@ == learned_observation(
            s,
            Observation {
                observed: r.observed,
                observer: r.observer,
                seq: r.seq,
                score_q16: r.score_q16,
                at: now,
            },
        ),
        again.observed == r.observed,
        again.observer == r.observer,
        again.seq <= r.seq,
    ensures
        !report_acceptable(after, again, later_ms),
{
    let e = Observation {
        observed: r.observed,
        observer: r.observer,
        seq: r.seq,
        score_q16: r.score_q16,
        at: now,
    };
    let t = after.reputation@;
    let room = s.reputation@.len() < MAX_REPUTATION_OBSERVATIONS || has_observation(
        s.reputation@,
        r.observed,
        r.observer,
    );
    let base = if !room && (exists|v: int| observation_victim(s, r.observed, v)) {
        without_observed(
            s.reputation@,
            s.reputation@[observation_victim_index(s, r.observed)].observed,
        )
    } else {
        s.reputation@
    };
    if t == put_observation(base, e) {
        let k = if has_observation(base, r.observed, r.observer) {
            observation_index(base, r.observed, r.observer)
        } else {
            base.len() as int
        };
        if has_observation(base, r.observed, r.observer) {
            assert(observation_at(base, r.observed, r.observer, k));
        }
        assert(t[k] == e);
        assert(observation_at(t, r.observed, r.observer, k));
        lemma_observation_index(t, r.observed, r.observer, k);
    } else {
        let j = observation_index(t, r.observed, r.observer);
        assert(observation_at(t, r.observed, r.observer, j));
        assert(s.reputation@[j].observed == r.observed);
    }
}

/// A vote weighs as much as the observer's key has bits of difficulty, from one
/// for a key that took no effort to sixteen. Of two observers with keys of less
/// than sixteen bits the one with the harder key weighs more.
pub proof fn votes_weigh_by_difficulty(a: PeerId, b: PeerId)
    ensures
        leading_ones(blake2b_64(a@)) <= 0 ==> vote_weight(a) == 1,
        1 <= leading_ones(blake2b_64(a@)) <= 16 ==> vote_weight(a) == leading_ones(blake2b_64(a@)),
        leading_ones(blake2b_64(a@)) >= 16 ==> vote_weight(a) == 16,
        1 <= leading_ones(blake2b_64(a@)) < leading_ones(blake2b_64(b@)) && leading_ones(
            blake2b_64(a@),
        ) < 16 ==> vote_weight(a) < vote_weight(b),
{
}

/// The sums over two lists of votes are the sums over the two lists together; a
/// single vote counts its score as often as it weighs.
pub proof fn weighted_votes_add_up(a: Seq<Observation>, b: Seq<Observation>, o: Observation)
    ensures
        weight_sum(Seq::empty()) == 0,
        score_sum(Seq::empty()) == 0,
        weight_sum(seq![o]) == vote_weight(o.observer),
        score_sum(seq![o]) == vote_weight(o.observer) * o.score_q16,
        weight_sum(a + b) == weight_sum(a) + weight_sum(b),
        score_sum(a + b) == score_sum(a) + score_sum(b),
    decreases b.len(),
{
    let single = seq![o];
    assert(single.drop_last() =~= Seq::<Observation>::empty());
    assert(single.last() == o);
    reveal_with_fuel(weight_sum, 2);
    reveal_with_fuel(score_sum, 2);
    assert(weight_sum(single) == weight_sum(single.drop_last()) + vote_weight(o.observer));
    assert(score_sum(single) == score_sum(single.drop_last()) + vote_weight(o.observer)
        * o.score_q16);
    if b.len() > 0 {
        assert((a + b).drop_last() =~= a + b.drop_last());
        assert((a + b).last() == b.last());
        weighted_votes_add_up(a, b.drop_last(), o);
    } else {
        assert(a + b =~= a);
    }
}

/// A vote on a node counts for an hour: those that count are exactly the entries
/// of the table on that node that are at most an hour old.
pub proof fn votes_count_for_an_hour(
    s: Seq<Observation>,
    observed: PeerId,
    now: u64,
    o: Observation,
)
    ensures
        votes(s, observed, now).contains(o) <==> s.contains(o) && o.observed == observed && now
            <= o.at + 3_600_000_000,
{
    let keep = |o: Observation| counts(o, observed, now);
    lemma_filter_members(s, keep, o);
}

proof fn lemma_votes_are_distinct(s: Seq<Observation>, observed: PeerId, now: u64)
    requires
        distinct_observations(s),
    ensures
        forall|i: int, j: int|
            #![trigger votes(s, observed, now)[i], votes(s, observed, now)[j]]
            0 <= i < j < votes(s, observed, now).len() ==> votes(s, observed, now)[i].observer
                != votes(s, observed, now)[j].observer,
{
    let keep = |o: Observation| counts(o, observed, now);
    lemma_filter(
        s,
        keep,
        |a: Observation, b: Observation| a.observed != b.observed || a.observer != b.observer,
    );
    let v = votes(s, observed, now);
    assert forall|i: int, j: int|
        #![trigger v[i], v[j]]
        0 <= i < j < v.len() implies v[i].observer != v[j].observer by {
        assert(v.contains(v[i]) && v.contains(v[j]));
        votes_count_for_an_hour(s, observed, now, v[i]);
        votes_count_for_an_hour(s, observed, now, v[j]);
    }
}

/// No observer votes twice on a node.
pub proof fn observers_vote_once(
    s: RouterState,
    observed: PeerId,
    now: u64,
    i: int,
    j: int,
)
    requires
        s.wf(),
        0 <= i < j < votes(s.reputation@, observed, now).len(),
    ensures
        votes(s.reputation@, observed, now)[i].observer != votes(s.reputation@, observed, now)[j].observer,
{
    lemma_votes_are_distinct(s.reputation@, observed, now);
}

/// A consensus keeps all votes but a quarter, rounded down, at either end: that
/// many have no higher score than any vote kept, and that many no lower one.
pub proof fn a_quarter_at_either_end_is_left_out(
    all: Seq<Observation>,
    kept: Seq<Observation>,
) -> (cut: (Seq<Observation>, Seq<Observation>))
    requires
        trimmed_votes(all, kept),
    ensures
        kept.len() == all.len() - 2 * (all.len() / 4),
        cut.0.len() == all.len() / 4,
        cut.1.len() == all.len() / 4,
        (cut.0 + kept + cut.1).to_multiset() == all.to_multiset(),
        forall|i: int, k: int|
            0 <= i < cut.0.len() && 0 <= k < kept.len() ==> (#[trigger] cut.0[i]).score_q16 <= (
            #[trigger] kept[k]).score_q16,
        forall|i: int, k: int|
            0 <= i < cut.1.len() && 0 <= k < kept.len() ==> (#[trigger] cut.1[i]).score_q16 >= (
            #[trigger] kept[k]).score_q16,
{
    let sorted = choose|sorted: Seq<Observation>| #[trigger]
        sorted_by_score(sorted) && sorted.to_multiset() == all.to_multiset() && kept
            == sorted.subrange(all.len() as int / 4, all.len() - all.len() as int / 4);
    all.to_multiset_ensures();
    sorted.to_multiset_ensures();
    let n = all.len() as int;
    let q = n / 4;
    let low = sorted.take(q);
    let high = sorted.skip(n - q);
    assert(low + kept + high =~= sorted);
    (low, high)
}

/// A report is taken where another node signed it about a node other than itself,
/// not more than an hour ago and not more than a minute ahead, and where nothing
/// as new is known from that observer about that node. Any other report changes
/// nothing.
pub proof fn only_fresh_signed_reports_are_taken(
    before: RouterState,
    from: PeerId,
    r: ReputationReport,
    now: u64,
    now_ms: u64,
    after: RouterState,
)
    requires
        before.wf(),
        report_taken(before, from, r, now, now_ms, after),
    ensures
        ({
            let known = exists|i: int|
                0 <= i < before.reputation@.len() && (#[trigger] before.reputation@[i]).observed
                    == r.observed && before.reputation@[i].observer == r.observer
                    && before.reputation@[i].seq >= r.seq;
            let good = r.observer != r.observed && r.observer != before.pub_key && ed25519_valid(
                r.observer@,
                r@.signed(),
                r.sig@,
            ) && now_ms <= r.valid_from_ms + 3_600_000 && r.valid_from_ms <= now_ms + 60_000
                && !known;
            if good {
                &&& after.sent() == before.sent() + flood(
                    before.peers@,
                    Some(from),
                    seq![TYPE_REPUTATION_REPORT] + r@.wire(),
                )
                &&& before.reputation@.len() < 16384 ==> after.reputation@.contains(
                    Observation {
                        observed: r.observed,
                        observer: r.observer,
                        seq: r.seq,
                        score_q16: r.score_q16,
                        at: now,
                    },
                )
            } else {
                after == before
            }
        }),
{
    let s = before.reputation@;
    let e = Observation {
        observed: r.observed,
        observer: r.observer,
        seq: r.seq,
        score_q16: r.score_q16,
        at: now,
    };
    if has_observation(s, r.observed, r.observer) {
        let k = observation_index(s, r.observed, r.observer);
        assert(observation_at(s, r.observed, r.observer, k));
        assert(s.update(k, e)[k] == e);
        assert forall|i: int|
            0 <= i < s.len() && (#[trigger] s[i]).observed == r.observed && s[i].observer
                == r.observer implies i == k by {
            assert(observation_at(s, r.observed, r.observer, i));
            lemma_observation_index(s, r.observed, r.observer, i);
        }
        if r.seq <= s[k].seq {
            assert(s[k].observed == r.observed && s[k].observer == r.observer);
        }
    } else {
        assert(s.push(e)[s.len() as int] == e);
        assert forall|i: int| 0 <= i < s.len() implies !((#[trigger] s[i]).observed == r.observed
            && s[i].observer == r.observer) by {
            assert(!observation_at(s, r.observed, r.observer, i));
        }
    }
}

/// Learning an observation leaves all others of the table as they are while there
/// is room. Where there is none, those of a single node are given up, and that
/// node is neither a neighbour nor this node.
pub proof fn observations_are_kept(s: RouterState, e: Observation, i: int)
    requires
        s.wf(),
        0 <= i < s.reputation@.len(),
        s.reputation@[i].observed != e.observed || s.reputation@[i].observer != e.observer,
    ensures
        s.reputation@.len() < 16384 ==> learned_observation(s, e).contains(s.reputation@[i]),
        has_peer(s.peers@, s.reputation@[i].observed) || s.reputation@[i].observed == s.pub_key
            || s.reputation@[i].observed == e.observed ==> learned_observation(s, e).contains(
            s.reputation@[i],
        ),
        learned_observation(s, e).contains(e) || learned_observation(s, e) == s.reputation@,
        !learned_observation(s, e).contains(e) ==> s.reputation@.len() >= 16384 && (has_peer(
            s.peers@,
            s.reputation@[i].observed,
        ) || s.reputation@[i].observed == s.pub_key || s.reputation@[i].observed == e.observed),
{
    let t = s.reputation@;
    let o = t[i];
    let room = t.len() < MAX_REPUTATION_OBSERVATIONS || has_observation(t, e.observed, e.observer);
    let some = exists|v: int| observation_victim(s, e.observed, v);
    if room {
        lemma_put_keeps(t, e, o);
    } else {
        if !has_peer(s.peers@, o.observed) && o.observed != s.pub_key && o.observed != e.observed {
            assert(observation_expendable(s, e.observed, i));
            lemma_first_observation(s, e.observed, i);
        }
        if some {
            let v = observation_victim_index(s, e.observed);
            assert(observation_victim(s, e.observed, v));
            let gone = t[v].observed;
            let rest = without_observed(t, gone);
            let keep = |x: Observation| x.observed != gone;
            if o.observed != gone {
                lemma_filter_members(t, keep, o);
                assert(rest.contains(o));
            }
            lemma_filter(
                t,
                keep,
                |a: Observation, b: Observation|
                    a.observed != b.observed || a.observer != b.observer,
            );
            lemma_put_keeps(rest, e, o);
        } else {
            assert(t.contains(o));
        }
    }
}

/// Where some observation is expendable, there is a first that is.
proof fn lemma_first_observation(s: RouterState, observed: PeerId, i: int)
    requires
        0 <= i < s.reputation@.len(),
        observation_expendable(s, observed, i),
    ensures
        exists|v: int| observation_victim(s, observed, v),
    decreases i,
{
    if exists|j: int| 0 <= j < i && observation_expendable(s, observed, j) {
        let j = choose|j: int| 0 <= j < i && observation_expendable(s, observed, j);
        lemma_first_observation(s, observed, j);
    } else {
        assert(observation_victim(s, observed, i));
    }
}

proof fn lemma_put_keeps(s: Seq<Observation>, e: Observation, o: Observation)
    requires
        o.observed != e.observed || o.observer != e.observer,
    ensures
        put_observation(s, e).contains(e),
        s.contains(o) ==> put_observation(s, e).contains(o),
{
    let r = put_observation(s, e);
    if has_observation(s, e.observed, e.observer) {
        let k = observation_index(s, e.observed, e.observer);
        assert(observation_at(s, e.observed, e.observer, k));
        assert(r[k] == e);
    } else {
        assert(r[s.len() as int] == e);
    }
    if s.contains(o) {
        let i = choose|i: int| 0 <= i < s.len() && s[i] == o;
        assert(r[i] == o);
    }
}

/// A probe that has waited for more than ten seconds is given up, and the neighbour
/// through which it went loses trust, where it still is one. A probe that has not
/// waited as long stays, and nobody loses trust for it.
pub proof fn unanswered_probes_cost_trust(
    before: RouterState,
    now: u64,
    after: RouterState,
    p: Probe,
)
    requires
        probes_expired(before, now, after),
        before.pending_probes@.contains(p),
    ensures
        after.pending_probes@.contains(p) <==> now <= p.at + 10_000_000,
        now > p.at + 10_000_000 && has_peer(before.peers@, p.via) ==> after.events@.skip(
            before.events@.len() as int,
        ).contains(Event { peer: p.via, kind: EventKind::TrustDown }),
        after.events@.len() >= before.events@.len(),
        after.events@.take(before.events@.len() as int) == before.events@,
        forall|k: int|
            before.events@.len() <= k < after.events@.len() ==> (
            #[trigger] after.events@[k]).kind == EventKind::TrustDown && exists|q: Probe| #[trigger]
                before.pending_probes@.contains(q) && q.via == after.events@[k].peer && now > q.at
                    + 10_000_000,
{
    let s = before.pending_probes@;
    let out = failed_probes(s, before.peers@, now);
    let n = before.events@.len() as int;
    lemma_filter_members(s, |p: Probe| elapsed(now, p.at) <= PROBE_TIMEOUT, p);
    lemma_failed(s, before.peers@, now, p);
    assert(after.events@.skip(n) =~= out);
    assert(after.events@.take(n) =~= before.events@);
    assert forall|k: int| n <= k < after.events@.len() implies (
    #[trigger] after.events@[k]).kind == EventKind::TrustDown && exists|q: Probe| #[trigger]
        s.contains(q) && q.via == after.events@[k].peer && now > q.at + 10_000_000 by {
        assert(after.events@[k] == out[k - n]);
    }
}

proof fn lemma_failed(s: Seq<Probe>, peers: Seq<PeerData>, now: u64, p: Probe)
    ensures
        s.contains(p) && now > p.at + 10_000_000 && has_peer(peers, p.via) ==> failed_probes(
            s,
            peers,
            now,
        ).contains(Event { peer: p.via, kind: EventKind::TrustDown }),
        forall|k: int|
            0 <= k < failed_probes(s, peers, now).len() ==> (#[trigger] failed_probes(
                s,
                peers,
                now,
            )[k]).kind == EventKind::TrustDown && exists|q: Probe| #[trigger]
                s.contains(q) && q.via == failed_probes(s, peers, now)[k].peer && now > q.at
                    + 10_000_000,
    decreases s.len(),
{
    if s.len() > 0 {
        let t = s.drop_last();
        let last = s.last();
        let out = failed_probes(s, peers, now);
        let rest = failed_probes(t, peers, now);
        lemma_failed(t, peers, now, p);
        let e = Event { peer: p.via, kind: EventKind::TrustDown };
        if s.contains(p) && now > p.at + 10_000_000 && has_peer(peers, p.via) {
            let i = choose|i: int| 0 <= i < s.len() && s[i] == p;
            if i < t.len() {
                assert(t[i] == p);
                let k = choose|k: int| 0 <= k < rest.len() && rest[k] == e;
                assert(out[k] == e);
            } else {
                assert(out[rest.len() as int] == e);
            }
        }
        assert forall|k: int| 0 <= k < out.len() implies (#[trigger] out[k]).kind
            == EventKind::TrustDown && exists|q: Probe| #[trigger]
            s.contains(q) && q.via == out[k].peer && now > q.at + 10_000_000 by {
            if k < rest.len() {
                assert(out[k] == rest[k]);
                let q = choose|q: Probe| #[trigger]
                    t.contains(q) && q.via == rest[k].peer && now > q.at + 10_000_000;
                let i = choose|i: int| 0 <= i < t.len() && t[i] == q;
                assert(s[i] == q);
                assert(s.contains(q));
            } else {
                assert(s[s.len() - 1] == last);
                assert(s.contains(last));
            }
        }
    }
}

/// What is probed is a claim: a lookup for a known node, other than this one and the
/// neighbour itself, goes to a neighbour that claims to reach it, and the answer is
/// waited for. Only where there is no such claim, nothing is probed.
pub proof fn only_claims_are_probed(before: RouterState, now: u64, after: RouterState)
    requires
        crate::state::distinct_peers(before.peers@),
        claim_probed(before, now, after),
    ensures
        (exists|i: int, j: int|
            0 <= i < before.peers@.len() && 0 <= j < before.peers@.len() && i != j
                && before.peers@[j].pub_key != before.pub_key && #[trigger] claims(
                before.peers@[i],
                tag_of(#[trigger] before.peers@[j].pub_key@),
            )) ==> exists|p: Probe| #[trigger] after.pending_probes@.contains(p) && p.at == now,
        after == before || exists|i: int, target: PeerId, id: u64|
            {
                &&& 0 <= i < before.peers@.len()
                &&& #[trigger] claims(before.peers@[i], tag_of(target@))
                &&& target != before.pub_key && target != before.peers@[i].pub_key
                &&& after.pending_probes@.contains(
                    #[trigger] probe_through(before.peers@[i].pub_key, id, now),
                )
                &&& before.peers@[i].links@.len() > 0 ==> {
                    &&& after.sent().len() == before.sent().len() + 1
                    &&& after.sent().last().to == before.peers@[i].pub_key
                    &&& after.sent().last().frame[0] == PATH_LOOKUP
                    &&& parse_path_lookup(after.sent().last().frame.skip(1)) == Ok::<
                        PathLookupView,
                        PacketError,
                    >(
                        PathLookupView {
                            target: target@,
                            source: before.pub_key@,
                            id,
                            path: Seq::empty(),
                        },
                    )
                }
            },
{
    let none = forall|via: PeerId, target: PeerId| !#[trigger] probe_candidate(before, via, target);
    if exists|i: int, j: int|
        0 <= i < before.peers@.len() && 0 <= j < before.peers@.len() && i != j
            && before.peers@[j].pub_key != before.pub_key && #[trigger] claims(
            before.peers@[i],
            tag_of(#[trigger] before.peers@[j].pub_key@),
        ) {
        let (i, j) = choose|i: int, j: int|
            0 <= i < before.peers@.len() && 0 <= j < before.peers@.len() && i != j
                && before.peers@[j].pub_key != before.pub_key && #[trigger] claims(
                before.peers@[i],
                tag_of(#[trigger] before.peers@[j].pub_key@),
            );
        let a = before.peers@[i].pub_key;
        let b = before.peers@[j].pub_key;
        assert(is_at(before.peers@, a, i));
        assert(is_at(before.peers@, b, j));
        crate::state::lemma_index(before.peers@, a, i);
        crate::state::lemma_index(before.peers@, b, j);
        assert(probe_candidate(before, a, b));
    }
    if after != before || !none {
        let (via, target, id) = choose|via: PeerId, target: PeerId, id: u64| #[trigger]
            probe_candidate(before, via, target) && after.sent() == before.sent() + one(
                before.peers@,
                via,
                #[trigger] probe_frame(before.pub_key, target, id),
            ) && after.pending_probes@ == put_probe(
                before.pending_probes@,
                Probe { id, via, at: now },
            );
        let i = index_of(before.peers@, via);
        assert(is_at(before.peers@, via, i));
        let e = Probe { id, via, at: now };
        assert(e == probe_through(via, id, now));
        let s = before.pending_probes@;
        let r = after.pending_probes@;
        if has_probe(s, id) {
            let k = probe_index(s, id);
            assert(probe_at(s, id, k));
            assert(r[k] == e);
        } else {
            assert(r[s.len() as int] == e);
        }
        assert(r.contains(e));
        let v = PathLookupView {
            target: target@,
            source: before.pub_key@,
            id,
            path: Seq::empty(),
        };
        let frame = probe_frame(before.pub_key, target, id);
        crate::packet::path_lookup_round_trip(v, Seq::empty());
        assert(frame.skip(1) =~= v.wire() + Seq::<u8>::empty());
        assert(claims(before.peers@[i], tag_of(target@)));
    }
}

/// The probe `id` that went through `via` at the time `at`.
pub open spec fn probe_through(via: PeerId, id: u64, at: u64) -> Probe {
    Probe { id, via, at }
}

/// The trust in each neighbour is reported to every neighbour with a link: the report
/// names this node as the observer, the neighbour, and the trust in it, and is signed
/// by this node.
pub proof fn trust_in_each_neighbour_is_reported(
    before: RouterState,
    scores: Seq<u16>,
    n: int,
    now: u64,
    now_ms: u64,
    after: RouterState,
    i: int,
    j: int,
) -> (k: int)
    requires
        before.wf(),
        reported_all(before, scores, n, now, now_ms, after),
        0 <= i < n <= before.peers@.len(),
        0 <= j < before.peers@.len(),
        before.peers@[j].links@.len() > 0,
    ensures
        before.sent().len() <= k < after.sent().len(),
        after.sent()[k].to == before.peers@[j].pub_key,
        after.sent()[k].frame[0] == TYPE_REPUTATION_REPORT,
        parse_reputation_report(after.sent()[k].frame.skip(1)) matches Ok(v) && {
            &&& v.observer == before.pub_key@
            &&& v.observed == before.peers@[i].pub_key@
            &&& v.score_q16 == scores[i]
            &&& v.valid_from_ms == now_ms
            &&& ed25519_valid(before.pub_key@, v.signed(), v.sig)
        },
        after.peers == before.peers,
        after.pub_key == before.pub_key,
        after.sent().len() >= before.sent().len(),
    decreases n,
{
    let mid = choose|mid: RouterState|
        reported_all(before, scores, n - 1, now, now_ms, mid) && #[trigger] reported(
            mid,
            n - 1,
            scores[n - 1],
            now,
            now_ms,
            after,
        );
    lemma_reported_frame(before, scores, n - 1, now, now_ms, mid);
    let seq = mid.own_reputation_seq.wrapping_add(1);
    let v = own_report(mid, n - 1, scores[n - 1], seq, now_ms);
    let frame = seq![TYPE_REPUTATION_REPORT] + v.wire();
    if i == n - 1 {
        let k = crate::state::lemma_flooded(before.peers@, None, frame, j);
        crate::packet::reputation_report_round_trip(v, Seq::empty());
        assert(frame.skip(1) =~= v.wire() + Seq::<u8>::empty());
        mid.sent().len() as int + k
    } else {
        let k = trust_in_each_neighbour_is_reported(
            before,
            scores,
            n - 1,
            now,
            now_ms,
            mid,
            i,
            j,
        );
        assert(after.sent()[k] == mid.sent()[k]);
        k
    }
}

proof fn lemma_reported_frame(
    before: RouterState,
    scores: Seq<u16>,
    n: int,
    now: u64,
    now_ms: u64,
    after: RouterState,
)
    requires
        reported_all(before, scores, n, now, now_ms, after),
    ensures
        after.peers == before.peers,
        after.pub_key == before.pub_key,
        after.signing_key == before.signing_key,
        after.sent().len() >= before.sent().len(),
    decreases n,
{
    if n > 0 {
        let mid = choose|mid: RouterState|
            reported_all(before, scores, n - 1, now, now_ms, mid) && #[trigger] reported(
                mid,
                n - 1,
                scores[n - 1],
                now,
                now_ms,
                after,
            );
        lemma_reported_frame(before, scores, n - 1, now, now_ms, mid);
    }
}

proof fn lemma_sums_without(s: Seq<Observation>, i: int)
    requires
        0 <= i < s.len(),
    ensures
        weight_sum(s) == weight_sum(s.remove(i)) + vote_weight(s[i].observer),
        score_sum(s) == score_sum(s.remove(i)) + vote_weight(s[i].observer) * s[i].score_q16,
{
    let o = s[i];
    let a = s.take(i);
    let b = s.skip(i + 1);
    assert(s =~= a + (seq![o] + b));
    assert(s.remove(i) =~= a + b);
    weighted_votes_add_up(a, seq![o] + b, o);
    weighted_votes_add_up(seq![o], b, o);
    weighted_votes_add_up(a, b, o);
}

/// The sums over some votes do not depend on their order.
pub proof fn weighted_votes_have_no_order(a: Seq<Observation>, b: Seq<Observation>)
    requires
        a.to_multiset() == b.to_multiset(),
    ensures
        weight_sum(a) == weight_sum(b),
        score_sum(a) == score_sum(b),
    decreases a.len(),
{
    broadcast use vstd::seq_lib::group_to_multiset_ensures;

    a.to_multiset_ensures();
    b.to_multiset_ensures();
    if a.len() > 0 {
        let o = a.last();
        let n = a.len() - 1;
        assert(a[n] == o);
        assert(a.to_multiset().count(o) > 0);
        assert(b.contains(o));
        let i = choose|i: int| 0 <= i < b.len() && b[i] == o;
        assert(a.remove(n) =~= a.drop_last());
        assert(a.drop_last().to_multiset() =~= a.to_multiset().remove(o));
        assert(b.remove(i).to_multiset() =~= b.to_multiset().remove(o));
        weighted_votes_have_no_order(a.drop_last(), b.remove(i));
        lemma_sums_without(b, i);
        lemma_sums_without(a, n);
    } else {
        assert(a =~= b);
    }
}

/// There is a consensus exactly where three observers or more have voted within the last
/// hour. It is the mean of their votes, each counted as often as its observer's key has
/// bits of difficulty, where there are fewer than four; where there are more, that of
/// those left once the lowest and the highest quarter are gone.
pub proof fn the_consensus_is_the_weighted_mean(
    s: Seq<Observation>,
    observed: PeerId,
    now: u64,
    r: Option<(u128, u128)>,
)
    requires
        consensus_on(s, observed, now, r),
    ensures
        r is None <==> votes(s, observed, now).len() < 3,
        r matches Some(mean) ==> {
            let all = votes(s, observed, now);
            &&& mean.1 > 0
            &&& all.len() < 4 ==> mean.0 == score_sum(all) && mean.1 == weight_sum(all)
            &&& exists|low: Seq<Observation>, kept: Seq<Observation>, high: Seq<Observation>|
                #![trigger cut_in_three(all, low, kept, high)]
                cut_in_three(all, low, kept, high) && mean.0 == score_sum(kept) && mean.1
                    == weight_sum(kept)
        },
{
    if let Some(mean) = r {
        let all = votes(s, observed, now);
        let kept = choose|kept: Seq<Observation>| #[trigger]
            trimmed_votes(all, kept) && mean.0 == score_sum(kept) && mean.1 == weight_sum(kept);
        let (low, high) = a_quarter_at_either_end_is_left_out(all, kept);
        assert(cut_in_three(all, low, kept, high));
        if all.len() < 4 {
            assert(low + kept + high =~= kept);
            weighted_votes_have_no_order(kept, all);
        }
    }
}

/// `all` is `low`, `kept` and `high`, in some order. A quarter of the votes, rounded
/// down, are in `low` and as many in `high`; no vote that is kept has a lower score than
/// one in `low`, or a higher score than one in `high`.
pub open spec fn cut_in_three(
    all: Seq<Observation>,
    low: Seq<Observation>,
    kept: Seq<Observation>,
    high: Seq<Observation>,
) -> bool {
    &&& (low + kept + high).to_multiset() == all.to_multiset()
    &&& low.len() == all.len() / 4
    &&& high.len() == all.len() / 4
    &&& kept.len() == all.len() - 2 * (all.len() / 4)
    &&& forall|i: int, k: int|
        0 <= i < low.len() && 0 <= k < kept.len() ==> (#[trigger] low[i]).score_q16 <= (
        #[trigger] kept[k]).score_q16
    &&& forall|i: int, k: int|
        0 <= i < high.len() && 0 <= k < kept.len() ==> (#[trigger] high[i]).score_q16 >= (
        #[trigger] kept[k]).score_q16
}

/// Where at most a quarter of the votes are those of liars, the consensus lies in any
/// range that holds the votes of all others.
pub proof fn few_liars_do_not_move_the_consensus(
    s: Seq<Observation>,
    observed: PeerId,
    now: u64,
    r: Option<(u128, u128)>,
    liars: Set<PeerId>,
    low: u16,
    high: u16,
)
    requires
        consensus_on(s, observed, now, r),
        votes_of(votes(s, observed, now), liars).len() <= votes(s, observed, now).len() as int / 4,
        forall|i: int|
            0 <= i < votes(s, observed, now).len() && !liars.contains(
                (#[trigger] votes(s, observed, now)[i]).observer,
            ) ==> low <= votes(s, observed, now)[i].score_q16 <= high,
    ensures
        r matches Some(mean) ==> low * mean.1 <= mean.0 <= high * mean.1,
{
    if let Some(mean) = r {
        let all = votes(s, observed, now);
        let kept = choose|kept: Seq<Observation>| #[trigger]
            trimmed_votes(all, kept) && mean.0 == score_sum(kept) && mean.1 == weight_sum(kept);
        few_liars_move_nothing(all, kept, liars, low, high);
        means_lie_among_the_votes(kept, low, high);
    }
}

/// The own trust in a neighbour counts as a vote too: it is in the table once it is
/// reported, as long as there is room.
pub proof fn the_own_trust_is_a_vote(
    before: RouterState,
    i: int,
    score: u16,
    now: u64,
    now_ms: u64,
    after: RouterState,
)
    requires
        before.wf(),
        0 <= i < before.peers@.len(),
        reported(before, i, score, now, now_ms, after),
        before.reputation@.len() < 16384,
    ensures
        exists|o: Observation| #[trigger]
            after.reputation@.contains(o) && o.observed == before.peers@[i].pub_key && o.observer
                == before.pub_key && o.score_q16 == score && o.at == now,
        after.own_reputation_seq == before.own_reputation_seq.wrapping_add(1),
{
    let e = Observation {
        observed: before.peers@[i].pub_key,
        observer: before.pub_key,
        seq: before.own_reputation_seq.wrapping_add(1),
        score_q16: score,
        at: now,
    };
    let s = before.reputation@;
    let r = after.reputation@;
    if has_observation(s, e.observed, e.observer) {
        let k = observation_index(s, e.observed, e.observer);
        assert(observation_at(s, e.observed, e.observer, k));
        assert(r[k] == e);
    } else {
        assert(r[s.len() as int] == e);
    }
    assert(r.contains(e));
}

} // verus!
