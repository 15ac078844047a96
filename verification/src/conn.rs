//! The interface of a routing node.
//!
//! Sessions encrypt what nodes send each other. They are kept by the caller,
//! who says with each message what its session made of it.

use crate::address::{key_difficulty_bits, leading_ones};
use crate::hash::blake2b_64;
use crate::lookup::{next_hop, the_next_hop_is_the_best, Distances};
use crate::onion::{build_onion, onion_fits, routes, OnionError, OnionHop, OnionPacket, OnionView};
use crate::onionkeys::hop_key;
use crate::packet::{
    parse_traffic, Traffic, TrafficView, PATH_LOOKUP, PKT_CONTROL, PKT_DATA, TRAFFIC, TYPE_HOLE_PUNCH,
};
use crate::paths::{own_lookup, own_punch, punch_acceptable, routed};
use crate::peers::fresh_state;
use crate::pings::lag_measured;
use crate::router::{elapsed, padded, time_since, PeerId, MTU};
use crate::state::{flood, has_peer, index_of, one, reachable, PeerData, RouterState, Sent};
use crate::text::{decimal, push_decimal, push_text};
use crate::traffic::{delivered, make_packet, make_packets, packet_for, DeliveryView};
use crate::tree::TreeStat;
use rand::rngs::OsRng;
use rand::seq::SliceRandom;
use vstd::prelude::*;

verus! {

broadcast use vstd::array::group_array_axioms;

/// A routing node, and what it asks of its neighbours.
pub struct PacketConn {
    pub state: RouterState,
    /// A neighbour's key must have at least this difficulty.
    pub min_bits: u32,
}

/// What the session with a node made of a message for it.
#[derive(Debug)]
pub enum SessionStep {
    /// There is no session yet. The message that starts one is not empty where
    /// it is to be sent.
    Missing(Vec<u8>),
    /// The padded message, encrypted.
    Sealed(Vec<u8>),
}

/// What the session with a node made of several messages for it.
#[derive(Debug)]
pub enum BatchStep {
    Missing(Vec<u8>),
    Sealed(Vec<Vec<u8>>),
}

/// Why a message was not sent.
#[derive(Clone, Copy, Debug, PartialEq, Eq)]
pub enum WriteError {
    NotEstablished(PeerId),
    NoRoute(PeerId),
    NoRelayRoute(PeerId),
    NoOnionKey(PeerId),
    Onion(OnionError),
}

/// The statistics of a neighbour. Times are in microseconds.
#[derive(Clone, Copy, Debug)]
pub struct PeerStats {
    pub key: PeerId,
    pub lag_us: u64,
    pub jitter_us: u64,
    pub priority: u8,
    pub rx_bytes: u64,
    pub tx_bytes: u64,
    pub uptime_us: u64,
}

/// The first four bytes of a key, as a list of numbers.
pub open spec fn key_front(k: PeerId) -> Seq<char> {
    "["@ + decimal(k@[0] as nat) + ", "@ + decimal(k@[1] as nat) + ", "@ + decimal(k@[2] as nat)
        + ", "@ + decimal(k@[3] as nat) + "]"@
}

fn push_key_front(out: &mut String, k: &PeerId)
    ensures
        final(out)@ == old(out)@ + key_front(*k),
{
    push_text(out, "[");
    push_decimal(out, k[0] as u64);
    push_text(out, ", ");
    push_decimal(out, k[1] as u64);
    push_text(out, ", ");
    push_decimal(out, k[2] as u64);
    push_text(out, ", ");
    push_decimal(out, k[3] as u64);
    push_text(out, "]");
    assert(out@ =~= old(out)@ + key_front(*k));
}

impl WriteError {
    /// The text of the error.
    pub open spec fn message(self) -> Seq<char> {
        match self {
            WriteError::NotEstablished(k) => "session not established with "@ + key_front(k),
            WriteError::NoRoute(k) => "no route to "@ + key_front(k),
            WriteError::NoRelayRoute(k) => "no route to first relay "@ + key_front(k),
            WriteError::NoOnionKey(k) => "no onion ephemeral pub known for dst "@ + key_front(k)
                + "; wait for CoordAnnounce or use write_to"@,
            WriteError::Onion(e) => "failed to build onion: "@ + e.message(),
        }
    }

    pub fn to_string(&self) -> (s: String)
        ensures
            s@ == self.message(),
    {
        let mut out: String = String::new();
        match self {
            WriteError::NotEstablished(k) => {
                push_text(&mut out, "session not established with ");
                push_key_front(&mut out, k);
            },
            WriteError::NoRoute(k) => {
                push_text(&mut out, "no route to ");
                push_key_front(&mut out, k);
            },
            WriteError::NoRelayRoute(k) => {
                push_text(&mut out, "no route to first relay ");
                push_key_front(&mut out, k);
            },
            WriteError::NoOnionKey(k) => {
                push_text(&mut out, "no onion ephemeral pub known for dst ");
                push_key_front(&mut out, k);
                push_text(&mut out, "; wait for CoordAnnounce or use write_to");
            },
            WriteError::Onion(e) => {
                push_text(&mut out, "failed to build onion: ");
                let inner: String = e.to_string();
                push_text(&mut out, inner.as_str());
            },
        }
        assert(out@ =~= self.message());
        out
    }
}

/// What asking `dst` for a session makes of `before`. Where `init` is empty the
/// node has been asked already.
pub open spec fn session_asked(
    before: RouterState,
    dst: PeerId,
    init: Seq<u8>,
    d: Option<Distances>,
    after: RouterState,
) -> bool {
    if init.len() == 0 {
        after == before
    } else {
        &&& after == (RouterState { outbox: after.outbox, ..before })
        &&& exists|t: TrafficView| #[trigger]
            packet_for(before.pub_key@, dst@, PKT_CONTROL, padded(init), t) && after.sent()
                == before.sent() + routed(before, dst, d, seq![TRAFFIC] + t.wire())
    }
}

/// What sending one sealed message to `dst` makes of `before`.
pub open spec fn message_sent(
    before: RouterState,
    dst: PeerId,
    sealed: Seq<u8>,
    d: Option<Distances>,
    after: RouterState,
    r: Result<(), WriteError>,
) -> bool {
    match next_hop(before, dst, d) {
        Some(hop) => {
            &&& r is Ok
            &&& after == (RouterState { outbox: after.outbox, ..before })
            &&& exists|t: TrafficView| #[trigger]
                packet_for(before.pub_key@, dst@, PKT_DATA, sealed, t) && after.sent()
                    == before.sent() + one(before.peers@, hop, seq![TRAFFIC] + t.wire())
        },
        None => r == Err::<(), WriteError>(WriteError::NoRoute(dst)) && after == before,
    }
}

/// The frames of several packets for one neighbour.
pub open spec fn frames_to(
    peers: Seq<PeerData>,
    hop: PeerId,
    packets: Seq<TrafficView>,
) -> Seq<Sent>
    decreases packets.len(),
{
    if packets.len() == 0 {
        Seq::empty()
    } else {
        frames_to(peers, hop, packets.drop_last()) + one(
            peers,
            hop,
            seq![TRAFFIC] + packets.last().wire(),
        )
    }
}

proof fn lemma_frames_to(peers: Seq<PeerData>, hop: PeerId, packets: Seq<TrafficView>)
    ensures
        frames_to(peers, hop, packets).len() == if reachable(peers, hop) {
            packets.len()
        } else {
            0
        },
    decreases packets.len(),
{
    if packets.len() > 0 {
        lemma_frames_to(peers, hop, packets.drop_last());
    }
}

/// How many of the first `n` frames were taken.
pub open spec fn taken_count(taken: Seq<bool>, n: int) -> int
    decreases n,
{
    if n <= 0 {
        0
    } else {
        taken_count(taken, n - 1) + if taken[n - 1] {
            1int
        } else {
            0int
        }
    }
}

/// The result of sending several messages, of which `queued` frames were queued:
/// how many of them the links took. `taken` says so for each frame.
pub fn batch_result(queued: Result<usize, WriteError>, taken: &Vec<bool>) -> (r: Result<
    usize,
    WriteError,
>)
    ensures
        r == match queued {
            Ok(_) => Ok::<usize, WriteError>(taken_count(taken@, taken@.len() as int) as usize),
            Err(e) => Err::<usize, WriteError>(e),
        },
        taken_count(taken@, taken@.len() as int) <= taken@.len(),
{
    let mut n: usize = 0;
    let mut i: usize = 0;
    while i < taken.len()
        invariant
            i <= taken@.len(),
            n <= i,
            n == taken_count(taken@, i as int),
        decreases taken@.len() - i,
    {
        if taken[i] {
            n = n + 1;
        }
        i = i + 1;
    }
    match queued {
        Ok(_) => Ok(n),
        Err(e) => Err(e),
    }
}

/// `packets` are packets for `dst` with the payloads `sealed`, in their order,
/// under one header.
pub open spec fn packets_for(
    own: PeerId,
    dst: PeerId,
    sealed: Seq<Vec<u8>>,
    packets: Seq<TrafficView>,
) -> bool {
    &&& packets.len() == sealed.len()
    &&& forall|i: int|
        0 <= i < packets.len() ==> packet_for(
            own@,
            dst@,
            PKT_DATA,
            sealed[i]@,
            #[trigger] packets[i],
        ) && packets[i].enc_header == packets[0].enc_header
}

/// What sending several sealed messages to `dst` makes of `before`.
pub open spec fn batch_sent(
    before: RouterState,
    dst: PeerId,
    sealed: Seq<Vec<u8>>,
    d: Option<Distances>,
    after: RouterState,
    r: Result<usize, WriteError>,
) -> bool {
    if sealed.len() == 0 {
        r == Ok::<usize, WriteError>(0) && after == before
    } else {
        match next_hop(before, dst, d) {
            Some(hop) => {
                &&& r == Ok::<usize, WriteError>(
                    if reachable(before.peers@, hop) {
                        sealed.len() as usize
                    } else {
                        0
                    },
                )
                &&& r->Ok_0 == after.sent().len() - before.sent().len()
                &&& after == (RouterState { outbox: after.outbox, ..before })
                &&& exists|packets: Seq<TrafficView>| #[trigger]
                    packets_for(before.pub_key, dst, sealed, packets) && after.sent()
                        == before.sent() + frames_to(before.peers@, hop, packets)
            },
            None => r == Err::<usize, WriteError>(WriteError::NoRoute(dst)) && after == before,
        }
    }
}

/// What sending an onion with a sealed message makes of `before`. The onion is
/// addressed to the first relay.
pub open spec fn onion_sent(
    before: RouterState,
    dst: PeerId,
    key: Seq<u8>,
    relays: Seq<OnionHop>,
    sealed: Seq<u8>,
    d: Option<Distances>,
    after: RouterState,
    r: Result<(), WriteError>,
) -> bool {
    exists|t: TrafficView| #[trigger]
        packet_for(before.pub_key@, dst@, PKT_DATA, sealed, t) && if !onion_fits(
            relays.len(),
            (seq![TRAFFIC] + t.wire()).len(),
        ) {
            r == Err::<(), WriteError>(WriteError::Onion(OnionError::EncryptLayer)) && after
                == before
        } else {
            match next_hop(before, relays[0].identity_ed_pub, d) {
                Some(hop) => {
                    &&& r is Ok
                    &&& after == (RouterState { outbox: after.outbox, ..before })
                    &&& exists|p: OnionView, h: OnionHop| #[trigger]
                        routes(p, relays, h, seq![TRAFFIC] + t.wire()) && h.identity_ed_pub == dst
                            && h.ephemeral_x_pub@ == key && after.sent() == before.sent() + one(
                            before.peers@,
                            hop,
                            p.cell(),
                        )
                },
                None => r == Err::<(), WriteError>(
                    WriteError::NoRelayRoute(relays[0].identity_ed_pub),
                ) && after == before,
            }
        }
}

/// The neighbours that can be relays of an onion: those with a known onion key.
pub open spec fn relay_candidates(peers: Seq<PeerData>) -> Seq<OnionHop>
    decreases peers.len(),
{
    if peers.len() == 0 {
        Seq::empty()
    } else {
        let rest = relay_candidates(peers.drop_last());
        match peers.last().onion_eph_pub {
            Some(eph) => rest.push(
                OnionHop { identity_ed_pub: peers.last().pub_key, ephemeral_x_pub: eph },
            ),
            None => rest,
        }
    }
}

/// `r` is `n` of the elements of `s`, or all of them where there are fewer.
pub open spec fn sample_of(s: Seq<OnionHop>, n: int, r: Seq<OnionHop>) -> bool {
    exists|p: Seq<OnionHop>| #[trigger]
        p.to_multiset() == s.to_multiset() && r == p.take(
            if n < p.len() {
                n
            } else {
                p.len() as int
            },
        )
}

/// The statistics of a neighbour at the time `now`.
pub open spec fn stats_of(p: PeerData, now: u64) -> PeerStats {
    PeerStats {
        key: p.pub_key,
        lag_us: p.lag_us,
        jitter_us: p.jitter_us,
        priority: p.priority,
        rx_bytes: p.rx_bytes,
        tx_bytes: p.tx_bytes,
        uptime_us: elapsed(now, p.connected_at) as u64,
    }
}

/// Calls `rand::seq::SliceRandom::shuffle` with `rand::rngs::OsRng`. Trusted:
/// the elements are the same, in whatever order.
#[verifier::external_body]
fn shuffle(v: &mut Vec<OnionHop>)
    ensures
        final(v)@.to_multiset() == old(v)@.to_multiset(),
{
    v.as_mut_slice().shuffle(&mut OsRng);
}

impl PacketConn {
    pub open spec fn wf(&self) -> bool {
        self.state.wf()
    }

    /// A node whose identity is `signing_key` and whose coordinate is `origin`.
    pub fn new(signing_key: [u8; 32], origin: [u8; 16], now_ms: u64) -> (c: PacketConn)
        ensures
            c.wf(),
            c.min_bits == 0,
            fresh_state(c.state, signing_key, origin, now_ms),
    {
        PacketConn { state: RouterState::new(signing_key, origin, now_ms), min_bits: 0 }
    }

    /// The secret of the node's identity.
    pub fn signing_key(&self) -> (k: &[u8; 32])
        ensures
            *k == self.state.signing_key,
    {
        &self.state.signing_key
    }

    /// The difficulty that the key of a neighbour must have.
    pub fn min_peer_difficulty_bits(&self) -> (bits: u32)
        ensures
            bits == self.min_bits,
    {
        self.min_bits
    }

    /// Set the difficulty that the key of a neighbour must have.
    pub fn set_min_peer_difficulty_bits(&mut self, bits: u32)
        ensures
            *final(self) == (PacketConn { min_bits: bits, ..*old(self) }),
    {
        self.min_bits = bits;
    }

    /// Whether a node may become a neighbour.
    pub fn admits(&self, key: &PeerId) -> (r: bool)
        ensures
            r == (leading_ones(blake2b_64(key@)) >= self.min_bits),
    {
        key_difficulty_bits(key) >= self.min_bits
    }

    fn ask_for_session(&mut self, dst: &PeerId, init: &Vec<u8>, d: &Option<Distances>)
        requires
            old(self).wf(),
            init@.len() <= 65535,
        ensures
            final(self).wf(),
            final(self).min_bits == old(self).min_bits,
            session_asked(old(self).state, *dst, init@, *d, final(self).state),
    {
        if init.len() > 0 {
            self.state.send_traffic_to(dst, init.as_slice(), d);
        }
    }

    /// Send a message to `dst`. `step` is what the session with `dst` made of
    /// it; `d` holds the distances to `dst`.
    pub fn write_to(&mut self, dst: &PeerId, step: SessionStep, d: &Option<Distances>) -> (r: Result<
        (),
        WriteError,
    >)
        requires
            old(self).wf(),
            step matches SessionStep::Missing(init) ==> init@.len() <= 65535,
        ensures
            final(self).wf(),
            final(self).min_bits == old(self).min_bits,
            match step {
                SessionStep::Missing(init) => r == Err::<(), WriteError>(
                    WriteError::NotEstablished(*dst),
                ) && session_asked(old(self).state, *dst, init@, *d, final(self).state),
                SessionStep::Sealed(sealed) => message_sent(
                    old(self).state,
                    *dst,
                    sealed@,
                    *d,
                    final(self).state,
                    r,
                ),
            },
    {
        match step {
            SessionStep::Missing(init) => {
                self.ask_for_session(dst, &init, d);
                Err(WriteError::NotEstablished(*dst))
            },
            SessionStep::Sealed(sealed) => {
                let ghost bytes = sealed@;
                match self.state.lookup(dst, d) {
                    Some(hop) => {
                        let t: Traffic = make_packet(&self.state.pub_key, dst, PKT_DATA, sealed);
                        let frame: Vec<u8> = t.encode();
                        self.state.send_to_peer(&hop, frame);
                        assert(packet_for(
                            old(self).state.pub_key@,
                            dst@,
                            PKT_DATA,
                            bytes,
                            t@,
                        ));
                        Ok(())
                    },
                    None => Err(WriteError::NoRoute(*dst)),
                }
            },
        }
    }

    /// Send several messages to `dst`, under one header, in their order. The
    /// result is how many frames are queued: none where the next hop has no
    /// link. [`batch_result`] says how many of them the links took.
    pub fn write_to_batch(
        &mut self,
        dst: &PeerId,
        step: BatchStep,
        d: &Option<Distances>,
    ) -> (r: Result<usize, WriteError>)
        requires
            old(self).wf(),
            step matches BatchStep::Missing(init) ==> init@.len() <= 65535,
        ensures
            final(self).wf(),
            final(self).min_bits == old(self).min_bits,
            match step {
                BatchStep::Missing(init) => r == Err::<usize, WriteError>(
                    WriteError::NotEstablished(*dst),
                ) && session_asked(old(self).state, *dst, init@, *d, final(self).state),
                BatchStep::Sealed(sealed) => batch_sent(
                    old(self).state,
                    *dst,
                    sealed@,
                    *d,
                    final(self).state,
                    r,
                ),
            },
    {
        match step {
            BatchStep::Missing(init) => {
                self.ask_for_session(dst, &init, d);
                Err(WriteError::NotEstablished(*dst))
            },
            BatchStep::Sealed(sealed) => {
                if sealed.len() == 0 {
                    return Ok(0);
                }
                let before: usize = self.state.outbox.len();
                match self.state.lookup(dst, d) {
                    Some(hop) => {
                        let ghost all = sealed@;
                        let packets: Vec<Traffic> = make_packets(&self.state.pub_key, dst, sealed);
                        self.send_packets(&hop, &packets);
                        proof {
                            let views = packets@.map_values(|t: Traffic| t@);
                            assert(packets_for(old(self).state.pub_key, *dst, all, views));
                            lemma_frames_to(old(self).state.peers@, hop, views);
                            assert(self.state.sent().len() == self.state.outbox@.len());
                        }
                        Ok(self.state.outbox.len() - before)
                    },
                    None => Err(WriteError::NoRoute(*dst)),
                }
            },
        }
    }

    fn send_packets(&mut self, hop: &PeerId, packets: &Vec<Traffic>)
        requires
            old(self).wf(),
            forall|i: int| 0 <= i < packets@.len() ==> (#[trigger] packets@[i]).path@.len() == 0,
        ensures
            final(self).wf(),
            final(self).min_bits == old(self).min_bits,
            final(self).state == (RouterState {
                outbox: final(self).state.outbox,
                ..old(self).state
            }),
            final(self).state.sent() == old(self).state.sent() + frames_to(
                old(self).state.peers@,
                *hop,
                packets@.map_values(|t: Traffic| t@),
            ),
    {
        let ghost views = packets@.map_values(|t: Traffic| t@);
        let mut i: usize = 0;
        proof {
            assert(views.take(0) =~= Seq::<TrafficView>::empty());
            assert(self.state.sent() =~= old(self).state.sent() + frames_to(
                self.state.peers@,
                *hop,
                views.take(0),
            ));
        }
        while i < packets.len()
            invariant
                self.wf(),
                self.min_bits == old(self).min_bits,
                self.state == (RouterState { outbox: self.state.outbox, ..old(self).state }),
                views == packets@.map_values(|t: Traffic| t@),
                i <= packets@.len(),
                forall|j: int|
                    0 <= j < packets@.len() ==> (#[trigger] packets@[j]).path@.len() == 0,
                self.state.sent() == old(self).state.sent() + frames_to(
                    old(self).state.peers@,
                    *hop,
                    views.take(i as int),
                ),
            decreases packets@.len() - i,
        {
            proof {
                assert(views.take(i + 1).drop_last() =~= views.take(i as int));
                assert(views.take(i + 1).last() == packets@[i as int]@);
            }
            let frame: Vec<u8> = packets[i].encode();
            self.state.send_to_peer(hop, frame);
            assert(self.state.sent() =~= old(self).state.sent() + frames_to(
                old(self).state.peers@,
                *hop,
                views.take(i + 1),
            ));
            i = i + 1;
        }
        assert(views.take(i as int) =~= views);
    }

    /// Up to `n` neighbours as relays of an onion, chosen by chance. Those
    /// without a known onion key are left out.
    pub fn select_relays(&self, n: usize) -> (r: Vec<OnionHop>)
        ensures
            sample_of(relay_candidates(self.state.peers@), n as int, r@),
    {
        let ghost peers = self.state.peers@;
        let mut hops: Vec<OnionHop> = Vec::new();
        let mut i: usize = 0;
        assert(peers.take(0) =~= Seq::<PeerData>::empty());
        while i < self.state.peers.len()
            invariant
                peers == self.state.peers@,
                i <= peers.len(),
                hops@ == relay_candidates(peers.take(i as int)),
            decreases peers.len() - i,
        {
            proof {
                assert(peers.take(i + 1).drop_last() =~= peers.take(i as int));
                assert(peers.take(i + 1).last() == peers[i as int]);
            }
            if let Some(eph) = self.state.peers[i].onion_eph_pub {
                let key: PeerId = self.state.peers[i].pub_key;
                hops.push(OnionHop { identity_ed_pub: key, ephemeral_x_pub: eph });
            }
            i = i + 1;
        }
        assert(peers.take(i as int) =~= peers);
        shuffle(&mut hops);
        let ghost p = hops@;
        if n < hops.len() {
            hops.truncate(n);
        }
        assert(hops@ =~= p.take(
            if n < p.len() {
                n as int
            } else {
                p.len() as int
            },
        ));
        assert(p.to_multiset() == relay_candidates(self.state.peers@).to_multiset());
        hops
    }

    /// The hop of an onion route at the node `identity`.
    pub fn onion_hop_for(&self, identity: &PeerId) -> (r: Option<OnionHop>)
        requires
            self.wf(),
        ensures
            match hop_key(self.state, *identity) {
                Some(k) => r matches Some(h) && h.identity_ed_pub == *identity
                    && h.ephemeral_x_pub@ == k,
                None => r is None,
            },
    {
        self.state.onion_hop_for(identity)
    }

    /// Send a message to `dst` through `relays`, in their order. Without relays
    /// it is sent directly. `step` is what the session with `dst` made of the
    /// message; `d` holds the distances to `dst`, `first` those to the first
    /// relay.
    pub fn write_to_onion(
        &mut self,
        dst: &PeerId,
        relays: &[OnionHop],
        step: SessionStep,
        d: &Option<Distances>,
        first: &Option<Distances>,
    ) -> (r: Result<(), WriteError>)
        requires
            old(self).wf(),
            step matches SessionStep::Missing(init) ==> init@.len() <= 65535,
        ensures
            final(self).wf(),
            final(self).min_bits == old(self).min_bits,
            if relays@.len() == 0 || (step is Missing && hop_key(old(self).state, *dst) is Some) {
                match step {
                    SessionStep::Missing(init) => r == Err::<(), WriteError>(
                        WriteError::NotEstablished(*dst),
                    ) && session_asked(old(self).state, *dst, init@, *d, final(self).state),
                    SessionStep::Sealed(sealed) => message_sent(
                        old(self).state,
                        *dst,
                        sealed@,
                        *d,
                        final(self).state,
                        r,
                    ),
                }
            } else {
                match hop_key(old(self).state, *dst) {
                    None => {
                        &&& r == Err::<(), WriteError>(WriteError::NoOnionKey(*dst))
                        &&& final(self).state == old(self).state
                    },
                    Some(key) => onion_sent(
                        old(self).state,
                        *dst,
                        key,
                        relays@,
                        step->Sealed_0@,
                        *first,
                        final(self).state,
                        r,
                    ),
                }
            },
    {
        if relays.len() == 0 {
            return self.write_to(dst, step, d);
        }
        let dest: OnionHop = match self.state.onion_hop_for(dst) {
            Some(h) => h,
            None => {
                return Err(WriteError::NoOnionKey(*dst));
            },
        };
        match step {
            SessionStep::Missing(init) => {
                self.ask_for_session(dst, &init, d);
                Err(WriteError::NotEstablished(*dst))
            },
            SessionStep::Sealed(sealed) => self.send_onion(dst, &dest, relays, sealed, first),
        }
    }

    fn send_onion(
        &mut self,
        dst: &PeerId,
        dest: &OnionHop,
        relays: &[OnionHop],
        sealed: Vec<u8>,
        first: &Option<Distances>,
    ) -> (r: Result<(), WriteError>)
        requires
            old(self).wf(),
            relays@.len() > 0,
            dest.identity_ed_pub == *dst,
        ensures
            final(self).wf(),
            final(self).min_bits == old(self).min_bits,
            onion_sent(
                old(self).state,
                *dst,
                dest.ephemeral_x_pub@,
                relays@,
                sealed@,
                *first,
                final(self).state,
                r,
            ),
    {
        let ghost bytes = sealed@;
        let t: Traffic = make_packet(&self.state.pub_key, dst, PKT_DATA, sealed);
        assert(packet_for(old(self).state.pub_key@, dst@, PKT_DATA, bytes, t@));
        let inner: Vec<u8> = t.encode();
        let ghost traffic = inner@;
        let onion: OnionPacket = match build_onion(relays, dest, inner) {
            Ok(p) => p,
            Err(e) => {
                return Err(WriteError::Onion(e));
            },
        };
        let frame: Vec<u8> = onion.encode();
        let relay: PeerId = relays[0].identity_ed_pub;
        match self.state.lookup(&relay, first) {
            Some(hop) => {
                self.state.send_to_peer(&hop, frame);
                assert(routes(onion@, relays@, *dest, traffic));
                Ok(())
            },
            None => Err(WriteError::NoRelayRoute(relay)),
        }
    }

    /// The longest message that can be sent.
    pub fn mtu(&self) -> (n: u64)
        ensures
            n == 65000,
    {
        MTU
    }

    /// Drop all neighbours.
    pub fn close(&mut self)
        requires
            old(self).wf(),
        ensures
            final(self).wf(),
            final(self).state == (RouterState {
                peers: final(self).state.peers,
                ..old(self).state
            }),
            final(self).state.peers@.len() == 0,
            final(self).min_bits == old(self).min_bits,
    {
        self.state.peers = Vec::new();
    }

    /// Take over a lag that the transport measured. The result says whether the
    /// node is a neighbour.
    pub fn record_kernel_link_stats(&mut self, peer: &PeerId, rtt_us: u64) -> (known: bool)
        requires
            old(self).wf(),
        ensures
            final(self).wf(),
            final(self).min_bits == old(self).min_bits,
            lag_measured(old(self).state, *peer, rtt_us, known, final(self).state),
    {
        self.state.record_kernel_link_stats(peer, rtt_us)
    }

    /// The position in each tree.
    pub fn get_tree_state(&self) -> (out: Vec<TreeStat>)
        requires
            self.wf(),
        ensures
            forall|t: int|
                0 <= t < 3 ==> (#[trigger] out@[t]).is_root == (out@[t].root
                    == self.state.pub_key),
            out@.len() == 3,
            forall|t: int|
                0 <= t < 3 ==> (#[trigger] out@[t]) == (TreeStat {
                    tree_id: t as u8,
                    root: self.state.trees@[t].root,
                    parent: self.state.trees@[t].parent,
                    depth: if t == 0 {
                        self.state.own_depth
                    } else {
                        0
                    },
                    parent_cost: self.state.trees@[t].parent_cost,
                    is_root: self.state.trees@[t].parent is None,
                }),
    {
        self.state.get_tree_state()
    }

    /// The statistics of all neighbours.
    pub fn get_peer_stats(&self, now: u64) -> (out: Vec<PeerStats>)
        ensures
            out@ == self.state.peers@.map_values(|p: PeerData| stats_of(p, now)),
    {
        let mut out: Vec<PeerStats> = Vec::new();
        while out.len() < self.state.peers.len()
            invariant
                out@.len() <= self.state.peers@.len(),
                forall|i: int|
                    0 <= i < out@.len() ==> (#[trigger] out@[i]) == stats_of(
                        self.state.peers@[i],
                        now,
                    ),
            decreases self.state.peers@.len() - out@.len(),
        {
            let p: &PeerData = &self.state.peers[out.len()];
            out.push(
                PeerStats {
                    key: p.pub_key,
                    lag_us: p.lag_us,
                    jitter_us: p.jitter_us,
                    priority: p.priority,
                    rx_bytes: p.rx_bytes,
                    tx_bytes: p.tx_bytes,
                    uptime_us: time_since(now, p.connected_at),
                },
            );
        }
        assert(out@ =~= self.state.peers@.map_values(|p: PeerData| stats_of(p, now)));
        out
    }

    /// Ask `target`, by way of the neighbour `rendezvous`, to connect to
    /// `endpoint`.
    pub fn send_hole_punch(
        &mut self,
        rendezvous: &PeerId,
        target: PeerId,
        endpoint: Vec<u8>,
        now_ms: u64,
    )
        requires
            old(self).wf(),
        ensures
            final(self).wf(),
            final(self).min_bits == old(self).min_bits,
            final(self).state == (RouterState {
                outbox: final(self).state.outbox,
                ..old(self).state
            }),
            final(self).state.sent() == old(self).state.sent() + one(
                old(self).state.peers@,
                *rendezvous,
                seq![TYPE_HOLE_PUNCH] + own_punch(
                    old(self).state,
                    target,
                    endpoint@,
                    now_ms,
                ).wire(),
            ),
            punch_acceptable(own_punch(old(self).state, target, endpoint@, now_ms), now_ms),
    {
        self.state.send_hole_punch(rendezvous, target, endpoint, now_ms);
    }

    /// Look for the node whose key starts with `partial`.
    pub fn send_lookup(&mut self, partial: &[u8])
        requires
            old(self).wf(),
        ensures
            final(self).wf(),
            final(self).min_bits == old(self).min_bits,
            final(self).state == (RouterState {
                outbox: final(self).state.outbox,
                ..old(self).state
            }),
            exists|id: u64|
                final(self).state.sent() == old(self).state.sent() + flood(
                    old(self).state.peers@,
                    None,
                    seq![PATH_LOOKUP] + (#[trigger] own_lookup(
                        old(self).state,
                        partial@,
                        id,
                    )).wire(),
                ),
    {
        self.state.send_lookup(partial);
    }
}

/// The frame is a packet in which the node `dst` finds the message `sealed` from the
/// node `own`.
pub open spec fn carries_message(
    frame: Seq<u8>,
    own: Seq<u8>,
    dst: Seq<u8>,
    sealed: Seq<u8>,
) -> bool {
    &&& frame.len() > 0
    &&& frame[0] == TRAFFIC
    &&& parse_traffic(frame.skip(1)) matches Ok(t) && t.watermark == 0 && forall|seed: Seq<u8>|
        seed.len() == 32 && #[trigger] crate::crypto::ed25519_public_key(seed) == dst
            ==> t.routing_tag == crate::packet::tag_of(dst) && delivered(seed, t)
            == DeliveryView::Data(own, sealed)
}

proof fn lemma_carries(own: Seq<u8>, dst: Seq<u8>, sealed: Seq<u8>, t: TrafficView)
    requires
        packet_for(own, dst, PKT_DATA, sealed, t),
    ensures
        carries_message(seq![TRAFFIC] + t.wire(), own, dst, sealed),
{
    let frame = seq![TRAFFIC] + t.wire();
    crate::packet::traffic_round_trip(t, Seq::empty());
    assert(frame.skip(1) =~= t.wire() + Seq::<u8>::empty());
    assert forall|seed: Seq<u8>|
        seed.len() == 32 && #[trigger] crate::crypto::ed25519_public_key(seed)
            == dst implies t.routing_tag == crate::packet::tag_of(dst) && delivered(seed, t)
        == DeliveryView::Data(own, sealed) by {
        crate::traffic::packets_reach_their_destination(own, seed, sealed, t);
    }
}

/// A message for a node goes to the next hop, in a packet in which that node finds it.
/// It fails only where this node has no neighbours; then nothing is sent.
pub proof fn messages_are_sent_to_the_next_hop(
    before: RouterState,
    dst: PeerId,
    sealed: Seq<u8>,
    d: Option<Distances>,
    after: RouterState,
    r: Result<(), WriteError>,
)
    requires
        before.wf(),
        message_sent(before, dst, sealed, d, after, r),
    ensures
        r is Err <==> before.peers@.len() == 0,
        r is Err ==> after == before && r == Err::<(), WriteError>(WriteError::NoRoute(dst)),
        forall|b: int|
            0 <= b < before.peers@.len() && next_hop(before, dst, d) == Some(
                (#[trigger] before.peers@[b]).pub_key,
            ) ==> if before.peers@[b].links@.len() > 0 {
                &&& after.sent().len() == before.sent().len() + 1
                &&& after.sent().last().to == before.peers@[b].pub_key
                &&& carries_message(after.sent().last().frame, before.pub_key@, dst@, sealed)
            } else {
                after.sent() == before.sent()
            },
{
    the_next_hop_is_the_best(before, dst, d);
    if let Some(hop) = next_hop(before, dst, d) {
        let t = choose|t: TrafficView| #[trigger]
            packet_for(before.pub_key@, dst@, PKT_DATA, sealed, t) && after.sent() == before.sent()
                + one(before.peers@, hop, seq![TRAFFIC] + t.wire());
        lemma_carries(before.pub_key@, dst@, sealed, t);
        assert forall|b: int|
            0 <= b < before.peers@.len() && hop == (
            #[trigger] before.peers@[b]).pub_key implies index_of(before.peers@, hop) == b
            && has_peer(before.peers@, hop) by {
            assert(crate::state::is_at(before.peers@, hop, b));
            crate::state::lemma_index(before.peers@, hop, b);
        }
        assert(before.sent() + Seq::<Sent>::empty() =~= before.sent());
    }
}

/// Several messages for a node go to the next hop, each in a packet of its own in
/// which that node finds it, in their order. The result is how many that is.
pub proof fn batches_are_sent_in_order(
    before: RouterState,
    dst: PeerId,
    sealed: Seq<Vec<u8>>,
    d: Option<Distances>,
    after: RouterState,
    r: Result<usize, WriteError>,
    b: int,
    k: int,
)
    requires
        before.wf(),
        batch_sent(before, dst, sealed, d, after, r),
        0 <= b < before.peers@.len(),
        next_hop(before, dst, d) == Some(before.peers@[b].pub_key),
        before.peers@[b].links@.len() > 0,
        0 <= k < sealed.len() <= usize::MAX,
    ensures
        r == Ok::<usize, WriteError>(sealed.len() as usize),
        after.sent().len() == before.sent().len() + sealed.len(),
        after.sent()[before.sent().len() + k].to == before.peers@[b].pub_key,
        carries_message(
            after.sent()[before.sent().len() + k].frame,
            before.pub_key@,
            dst@,
            sealed[k]@,
        ),
{
    let hop = before.peers@[b].pub_key;
    assert(crate::state::is_at(before.peers@, hop, b));
    crate::state::lemma_index(before.peers@, hop, b);
    let packets = choose|packets: Seq<TrafficView>| #[trigger]
        packets_for(before.pub_key, dst, sealed, packets) && after.sent() == before.sent()
            + frames_to(before.peers@, hop, packets);
    lemma_frames_to(before.peers@, hop, packets);
    lemma_frame_at(before.peers@, hop, packets, k);
    lemma_carries(before.pub_key@, dst@, sealed[k]@, packets[k]);
}

proof fn lemma_frame_at(peers: Seq<PeerData>, hop: PeerId, packets: Seq<TrafficView>, k: int)
    requires
        reachable(peers, hop),
        0 <= k < packets.len(),
    ensures
        frames_to(peers, hop, packets)[k] == (Sent {
            to: hop,
            frame: seq![TRAFFIC] + packets[k].wire(),
        }),
    decreases packets.len(),
{
    lemma_frames_to(peers, hop, packets.drop_last());
    if k < packets.len() - 1 {
        lemma_frame_at(peers, hop, packets.drop_last(), k);
        assert(packets.drop_last()[k] == packets[k]);
    }
}

/// The frames taken are counted one by one.
pub proof fn taken_frames_are_counted(taken: Seq<bool>)
    ensures
        taken_count(taken, taken.len() as int) == taken.filter(|b: bool| b).len(),
    decreases taken.len(),
{
    reveal(Seq::filter);
    if taken.len() > 0 {
        let t = taken.drop_last();
        taken_frames_are_counted(t);
        lemma_count_front(taken, t, t.len() as int);
    }
}

proof fn lemma_count_front(a: Seq<bool>, b: Seq<bool>, n: int)
    requires
        n <= a.len(),
        n <= b.len(),
        forall|i: int| 0 <= i < n ==> a[i] == b[i],
    ensures
        taken_count(a, n) == taken_count(b, n),
    decreases n,
{
    if n > 0 {
        lemma_count_front(a, b, n - 1);
    }
}

/// The relays of an onion are neighbours whose onion key is known, each with that
/// key; there are as many as asked for, or as there are such neighbours, and none
/// occurs twice.
pub proof fn relays_are_neighbours_with_known_keys(
    peers: Seq<PeerData>,
    n: int,
    r: Seq<OnionHop>,
    i: int,
    j: int,
)
    requires
        crate::state::distinct_peers(peers),
        n >= 0,
        sample_of(relay_candidates(peers), n, r),
    ensures
        r.len() <= n,
        r.len() < n ==> forall|k: int|
            0 <= k < peers.len() && (#[trigger] peers[k]).onion_eph_pub is Some ==> r.contains(
                OnionHop {
                    identity_ed_pub: peers[k].pub_key,
                    ephemeral_x_pub: peers[k].onion_eph_pub->0,
                },
            ),
        0 <= i < r.len() ==> exists|k: int|
            0 <= k < peers.len() && (#[trigger] peers[k]).pub_key == r[i].identity_ed_pub
                && peers[k].onion_eph_pub == Some(r[i].ephemeral_x_pub),
        0 <= i < j < r.len() ==> r[i].identity_ed_pub != r[j].identity_ed_pub,
{
    broadcast use vstd::seq_lib::group_to_multiset_ensures;

    let s = relay_candidates(peers);
    let p = choose|p: Seq<OnionHop>| #[trigger]
        p.to_multiset() == s.to_multiset() && r == p.take(
            if n < p.len() {
                n
            } else {
                p.len() as int
            },
        );
    lemma_candidates(peers);
    p.to_multiset_ensures();
    s.to_multiset_ensures();
    if 0 <= i < r.len() {
        assert(p.contains(r[i])) by {
            assert(p[i] == r[i]);
        }
        assert(p.to_multiset().count(p[i]) > 0);
        assert(s.contains(r[i]));
        let k = choose|k: int| 0 <= k < s.len() && s[k] == r[i];
        assert(s[k] == r[i]);
    }
    if r.len() < n {
        assert(r =~= p);
        assert forall|k: int| 0 <= k < peers.len() && (#[trigger] peers[k]).onion_eph_pub
            is Some implies r.contains(
            OnionHop {
                identity_ed_pub: peers[k].pub_key,
                ephemeral_x_pub: peers[k].onion_eph_pub->0,
            },
        ) by {
            let h = OnionHop {
                identity_ed_pub: peers[k].pub_key,
                ephemeral_x_pub: peers[k].onion_eph_pub->0,
            };
            assert(s.contains(h));
            assert(s.to_multiset().count(h) > 0);
        }
    }
    if 0 <= i < j < r.len() && r[i].identity_ed_pub == r[j].identity_ed_pub {
        assert(p[i] == r[i] && p[j] == r[j]);
        assert(p.to_multiset().count(p[i]) > 0 && p.to_multiset().count(p[j]) > 0);
        assert(s.contains(p[i]) && s.contains(p[j]));
        let a = choose|a: int| 0 <= a < s.len() && s[a] == p[i];
        let b = choose|b: int| 0 <= b < s.len() && s[b] == p[j];
        assert(a == b) by {
            if a < b {
                assert(s[a].identity_ed_pub != s[b].identity_ed_pub);
            } else if b < a {
                assert(s[b].identity_ed_pub != s[a].identity_ed_pub);
            }
        }
        assert(p[i] == p[j]);
        assert(s.no_duplicates()) by {
            assert forall|x: int, y: int| 0 <= x < s.len() && 0 <= y < s.len() && x
                != y implies s[x] != s[y] by {
                if x < y {
                    assert(s[x].identity_ed_pub != s[y].identity_ed_pub);
                } else {
                    assert(s[y].identity_ed_pub != s[x].identity_ed_pub);
                }
            }
        }
        s.lemma_multiset_has_no_duplicates();
        p.lemma_multiset_has_no_duplicates_conv();
    }
}

proof fn lemma_candidates(peers: Seq<PeerData>)
    requires
        crate::state::distinct_peers(peers),
    ensures
        forall|i: int|
            0 <= i < relay_candidates(peers).len() ==> exists|k: int|
                0 <= k < peers.len() && (#[trigger] peers[k]).pub_key == (
                #[trigger] relay_candidates(peers)[i]).identity_ed_pub && peers[k].onion_eph_pub
                    == Some(relay_candidates(peers)[i].ephemeral_x_pub),
        forall|k: int|
            0 <= k < peers.len() && (#[trigger] peers[k]).onion_eph_pub is Some
                ==> relay_candidates(peers).contains(
                OnionHop {
                    identity_ed_pub: peers[k].pub_key,
                    ephemeral_x_pub: peers[k].onion_eph_pub->0,
                },
            ),
        forall|i: int, j: int|
            #![trigger relay_candidates(peers)[i], relay_candidates(peers)[j]]
            0 <= i < j < relay_candidates(peers).len() ==> relay_candidates(
                peers,
            )[i].identity_ed_pub != relay_candidates(peers)[j].identity_ed_pub,
    decreases peers.len(),
{
    if peers.len() > 0 {
        let t = peers.drop_last();
        let last = peers[peers.len() - 1];
        let r = relay_candidates(peers);
        let w = relay_candidates(t);
        assert forall|a: int, b: int|
            #![trigger t[a], t[b]]
            0 <= a < b < t.len() implies t[a].pub_key != t[b].pub_key by {
            assert(peers[a].pub_key != peers[b].pub_key);
        }
        lemma_candidates(t);
        assert forall|i: int| 0 <= i < r.len() implies exists|k: int|
            0 <= k < peers.len() && (#[trigger] peers[k]).pub_key == (
            #[trigger] r[i]).identity_ed_pub && peers[k].onion_eph_pub == Some(
                r[i].ephemeral_x_pub,
            ) by {
            if i < w.len() {
                assert(r[i] == w[i]);
                let k = choose|k: int|
                    0 <= k < t.len() && (#[trigger] t[k]).pub_key == w[i].identity_ed_pub
                        && t[k].onion_eph_pub == Some(w[i].ephemeral_x_pub);
                assert(peers[k].pub_key == r[i].identity_ed_pub);
            } else {
                assert(last.pub_key == r[i].identity_ed_pub);
            }
        }
        assert forall|k: int| 0 <= k < peers.len() && (#[trigger] peers[k]).onion_eph_pub
            is Some implies r.contains(
            OnionHop {
                identity_ed_pub: peers[k].pub_key,
                ephemeral_x_pub: peers[k].onion_eph_pub->0,
            },
        ) by {
            let h = OnionHop {
                identity_ed_pub: peers[k].pub_key,
                ephemeral_x_pub: peers[k].onion_eph_pub->0,
            };
            if k < t.len() {
                assert(t[k] == peers[k]);
                assert(w.contains(h));
                let i = choose|i: int| 0 <= i < w.len() && w[i] == h;
                assert(r[i] == h);
            } else {
                assert(r[w.len() as int] == h);
            }
        }
        assert forall|i: int, j: int|
            #![trigger r[i], r[j]]
            0 <= i < j < r.len() implies r[i].identity_ed_pub != r[j].identity_ed_pub by {
            if j < w.len() {
                assert(w[i].identity_ed_pub != w[j].identity_ed_pub);
            } else {
                assert(r[i] == w[i]);
                let k = choose|k: int|
                    0 <= k < t.len() && (#[trigger] t[k]).pub_key == w[i].identity_ed_pub
                        && t[k].onion_eph_pub == Some(w[i].ephemeral_x_pub);
                assert(peers[k].pub_key != peers[peers.len() - 1].pub_key);
            }
        }
    }
}

/// A node without a session is asked for one: where there is something to ask with, one
/// packet goes to the next hop, in which the node finds it as a session message. It is not
/// asked again where there is nothing to ask with.
pub proof fn nodes_are_asked_for_a_session(
    before: RouterState,
    dst: PeerId,
    init: Seq<u8>,
    d: Option<Distances>,
    after: RouterState,
    b: int,
    seed: Seq<u8>,
)
    requires
        before.wf(),
        session_asked(before, dst, init, d, after),
        0 < init.len() <= 65535,
        0 <= b < before.peers@.len(),
        next_hop(before, dst, d) == Some(before.peers@[b].pub_key),
        before.peers@[b].links@.len() > 0,
        seed.len() == 32,
        crate::crypto::ed25519_public_key(seed) == dst@,
    ensures
        after.sent().len() == before.sent().len() + 1,
        after.sent().last().to == before.peers@[b].pub_key,
        after.sent().last().frame[0] == TRAFFIC,
        parse_traffic(after.sent().last().frame.skip(1)) matches Ok(t) && t.routing_tag
            == crate::packet::tag_of(dst@) && t.watermark == 0 && delivered(seed, t)
            == DeliveryView::Control(init),
{
    let hop = before.peers@[b].pub_key;
    assert(crate::state::is_at(before.peers@, hop, b));
    crate::state::lemma_index(before.peers@, hop, b);
    let t = choose|t: TrafficView| #[trigger]
        packet_for(before.pub_key@, dst@, PKT_CONTROL, padded(init), t) && after.sent()
            == before.sent() + routed(before, dst, d, seq![TRAFFIC] + t.wire());
    let frame = seq![TRAFFIC] + t.wire();
    crate::packet::traffic_round_trip(t, Seq::empty());
    assert(frame.skip(1) =~= t.wire() + Seq::<u8>::empty());
    crate::traffic::session_messages_reach_their_destination(before.pub_key@, seed, init, t);
}

/// An onion for a node goes to the next hop towards its first relay, in one frame, and takes
/// the message through the relays, in their order, to the node. It fails only where the onion
/// would be too long, or where this node has no neighbours.
pub proof fn onions_are_sent_to_the_first_relay(
    before: RouterState,
    dst: PeerId,
    key: Seq<u8>,
    relays: Seq<OnionHop>,
    sealed: Seq<u8>,
    d: Option<Distances>,
    after: RouterState,
    r: Result<(), WriteError>,
)
    requires
        before.wf(),
        relays.len() > 0,
        onion_sent(before, dst, key, relays, sealed, d, after, r),
    ensures
        r is Err ==> after == before,
        r == Err::<(), WriteError>(WriteError::NoRelayRoute(relays[0].identity_ed_pub))
            ==> before.peers@.len() == 0,
        before.peers@.len() == 0 ==> r is Err,
        r is Ok ==> exists|t: TrafficView, p: OnionView, h: OnionHop, b: int|
            {
                &&& #[trigger] packet_for(before.pub_key@, dst@, PKT_DATA, sealed, t)
                &&& #[trigger] routes(p, relays, h, seq![TRAFFIC] + t.wire())
                &&& h.identity_ed_pub == dst && h.ephemeral_x_pub@ == key
                &&& 0 <= b < before.peers@.len()
                &&& next_hop(before, relays[0].identity_ed_pub, d) == Some(
                    (#[trigger] before.peers@[b]).pub_key,
                )
                &&& after.sent() == if before.peers@[b].links@.len() > 0 {
                    before.sent().push(Sent { to: before.peers@[b].pub_key, frame: p.cell() })
                } else {
                    before.sent()
                }
            },
{
    let first = relays[0].identity_ed_pub;
    the_next_hop_is_the_best(before, first, d);
    let t = choose|t: TrafficView| #[trigger]
        packet_for(before.pub_key@, dst@, PKT_DATA, sealed, t) && if !onion_fits(
            relays.len(),
            (seq![TRAFFIC] + t.wire()).len(),
        ) {
            r == Err::<(), WriteError>(WriteError::Onion(OnionError::EncryptLayer)) && after
                == before
        } else {
            match next_hop(before, first, d) {
                Some(hop) => {
                    &&& r is Ok
                    &&& after == (RouterState { outbox: after.outbox, ..before })
                    &&& exists|p: OnionView, h: OnionHop| #[trigger]
                        routes(p, relays, h, seq![TRAFFIC] + t.wire()) && h.identity_ed_pub == dst
                            && h.ephemeral_x_pub@ == key && after.sent() == before.sent() + one(
                            before.peers@,
                            hop,
                            p.cell(),
                        )
                },
                None => r == Err::<(), WriteError>(WriteError::NoRelayRoute(first)) && after
                    == before,
            }
        };
    if r is Ok {
        let hop = next_hop(before, first, d)->0;
        let (p, h) = choose|p: OnionView, h: OnionHop| #[trigger]
            routes(p, relays, h, seq![TRAFFIC] + t.wire()) && h.identity_ed_pub == dst
                && h.ephemeral_x_pub@ == key && after.sent() == before.sent() + one(
                before.peers@,
                hop,
                p.cell(),
            );
        let b = choose|b: int|
            0 <= b < before.peers@.len() && (#[trigger] before.peers@[b]).pub_key == hop;
        assert(crate::state::is_at(before.peers@, hop, b));
        crate::state::lemma_index(before.peers@, hop, b);
        if before.peers@[b].links@.len() > 0 {
            assert(after.sent() =~= before.sent().push(Sent { to: hop, frame: p.cell() }));
        } else {
            assert(after.sent() =~= before.sent());
        }
        assert(before.peers@[b].pub_key == hop);
    }
}

/// The statistics of a neighbour are its own, and its uptime runs from when it connected.
pub proof fn statistics_are_those_of_the_neighbour(p: PeerData, now: u64)
    ensures
        stats_of(p, now).key == p.pub_key,
        stats_of(p, now).lag_us == p.lag_us,
        stats_of(p, now).jitter_us == p.jitter_us,
        stats_of(p, now).priority == p.priority,
        stats_of(p, now).rx_bytes == p.rx_bytes,
        stats_of(p, now).tx_bytes == p.tx_bytes,
        now >= p.connected_at ==> p.connected_at + stats_of(p, now).uptime_us == now,
{
}

} // verus!
