//! Traffic: what arrives for this node, what is sent on, and what the node
//! sends itself.

use crate::bytes::{append, append_ascii, ascii, key_eq, read_array};
use crate::crypto::ed25519_public_key;
use crate::hash::{blake2b_32, digest_32};
use crate::lookup::{
    chosen_by_tag_is_sound, claims, hop_by_tag, lemma_hop_by_tag_same, negative, negative_notice,
    tag_route, the_hop_for_a_tag_is_the_cheapest, Distances,
};
use crate::onion::{parse_onion, peeled, OnionPacket, OnionView, PeeledOnion, PeeledView};
use crate::packet::{
    parse_path_negative, parse_traffic, path_encodable, routing_tag, tag_of, PacketError,
    PathNegativeView, Traffic, TrafficView, DUMMY, PKT_CONTROL, PKT_DATA, TRAFFIC,
    TYPE_PATH_NEGATIVE,
};
use crate::paths::routed;
use crate::router::{
    decrypt_dest_from_header, decrypt_source_from_header, encrypt_header, header_dest, header_made,
    header_source, pad_payload, padded, routing_tag_eq, unpad_payload, unpadded, PeerId,
    MAX_FORWARD_HOPS, ONION_REPLAY_CACHE_SIZE, PATH_NEG_INITIAL_TTL,
};
use crate::state::{
    frames_go_to_neighbours, has_peer, index_of, is_at, lemma_index, lemma_update_keeps_keys, one,
    touched, PeerData, RouterState, Sent,
};
use vstd::prelude::*;

verus! {

broadcast use vstd::array::group_array_axioms;

/// A message for this node.
#[derive(Clone, Debug)]
pub struct InboundPacket {
    pub from: PeerId,
    pub payload: Vec<u8>,
}

/// What a packet holds for this node.
#[derive(Debug)]
pub enum Delivery {
    Nothing,
    /// A message of the session layer, not encrypted.
    Control(Vec<u8>),
    /// A message from a node, encrypted for the session with it.
    Data(PeerId, Vec<u8>),
}

/// The contents of a [`Delivery`].
pub enum DeliveryView {
    Nothing,
    Control(Seq<u8>),
    Data(Seq<u8>, Seq<u8>),
}

impl View for Delivery {
    type V = DeliveryView;

    open spec fn view(&self) -> DeliveryView {
        match self {
            Delivery::Nothing => DeliveryView::Nothing,
            Delivery::Control(v) => DeliveryView::Control(v@),
            Delivery::Data(k, v) => DeliveryView::Data(k@, v@),
        }
    }
}

/// What the session layer is told.
#[derive(Clone, Copy, Debug, PartialEq, Eq, Structural)]
pub enum ControlKind {
    Init,
    Ack,
    Unknown,
}

/// What the node with the secret `seed` finds in a packet with its tag. The header
/// of a message has to name the node as its destination.
pub open spec fn delivered(seed: Seq<u8>, t: TrafficView) -> DeliveryView {
    if t.pkt_type == PKT_CONTROL {
        match unpadded(t.payload) {
            Ok(raw) => DeliveryView::Control(raw),
            Err(_) => DeliveryView::Nothing,
        }
    } else if t.pkt_type == PKT_DATA {
        match header_source(seed, t.enc_header) {
            Some(source) if header_dest(seed, t.enc_header) == Some(ed25519_public_key(seed)) =>
                DeliveryView::Data(source, t.payload),
            _ => DeliveryView::Nothing,
        }
    } else {
        DeliveryView::Nothing
    }
}

/// The neighbours once `n` bytes of payload came from `from`.
pub open spec fn received(peers: Seq<PeerData>, from: PeerId, n: nat, now: u64) -> Seq<PeerData> {
    if has_peer(peers, from) {
        let i = index_of(peers, from);
        peers.update(
            i,
            PeerData {
                last_rx: now,
                rx_bytes: peers[i].rx_bytes.wrapping_add(n as u64),
                ..peers[i]
            },
        )
    } else {
        peers
    }
}

/// A packet as it is sent on: with one more hop, and this node as its sender.
pub open spec fn sent_on(own: PeerId, t: TrafficView) -> TrafficView {
    TrafficView { watermark: (t.watermark + 1) as u64, from: own@, ..t }
}

/// What a packet for another node leads to: it goes to the next hop for its
/// tag; where there is none, or where it took too many hops, the neighbour
/// that it came from is told.
pub open spec fn forwarded(
    s: RouterState,
    from: PeerId,
    tag: [u8; 16],
    t: TrafficView,
    now: u64,
) -> Seq<Sent> {
    let notice = negative_notice(s.peers@, from, tag, PATH_NEG_INITIAL_TTL as int);
    if t.watermark >= MAX_FORWARD_HOPS {
        notice
    } else {
        match hop_by_tag(s, tag, Some(from), now) {
            Some(h) => one(s.peers@, h, seq![TRAFFIC] + sent_on(s.pub_key, t).wire()),
            None => notice,
        }
    }
}

/// What an onion packet for another node leads to: it goes to the next hop for
/// its tag; where there is none, the neighbour that it came from is told.
pub open spec fn onion_forwarded(
    s: RouterState,
    from: PeerId,
    tag: [u8; 16],
    p: OnionView,
    now: u64,
) -> Seq<Sent> {
    match hop_by_tag(s, tag, Some(from), now) {
        Some(h) => one(s.peers@, h, p.cell()),
        None => negative_notice(s.peers@, from, tag, PATH_NEG_INITIAL_TTL as int),
    }
}

/// What identifies an onion packet that is seen again.
pub open spec fn replay_digest(p: OnionView) -> Seq<u8> {
    let n = if p.aead_payload.len() < 16 {
        p.aead_payload.len() as int
    } else {
        16
    };
    blake2b_32(ascii("norn:onion-replay"@) + p.epk + p.aead_payload.take(n))
}

/// The packet is among those seen last.
pub open spec fn replayed(seen: Seq<[u8; 32]>, p: OnionView) -> bool {
    exists|i: int| 0 <= i < seen.len() && (#[trigger] seen[i])@ == replay_digest(p)
}

/// Where `digest` is.
pub open spec fn digest_index(seen: Seq<[u8; 32]>, digest: [u8; 32]) -> int {
    choose|i: int| 0 <= i < seen.len() && seen[i] == digest
}

/// The packets seen last, once `digest` is the last of them. Where there are too
/// many, the one that has not been seen for the longest time is forgotten.
pub open spec fn remembered(seen: Seq<[u8; 32]>, digest: [u8; 32]) -> Seq<[u8; 32]> {
    if seen.contains(digest) {
        seen.remove(digest_index(seen, digest)).push(digest)
    } else if seen.len() >= ONION_REPLAY_CACHE_SIZE {
        seen.skip(1).push(digest)
    } else {
        seen.push(digest)
    }
}

/// `after` is `seen` once the packet `p` has been seen.
pub open spec fn noted(seen: Seq<[u8; 32]>, p: OnionView, after: Seq<[u8; 32]>) -> bool {
    exists|digest: [u8; 32]|
        digest@ == replay_digest(p) && after == #[trigger] remembered(seen, digest)
}

/// `t` is a packet of this node for `dst`, of the kind `kind`, with the payload
/// `payload`. Where `dst` is no public key the header is empty.
pub open spec fn packet_for(
    own: Seq<u8>,
    dst: Seq<u8>,
    kind: u8,
    payload: Seq<u8>,
    t: TrafficView,
) -> bool {
    &&& t.path == Seq::<u64>::empty()
    &&& t.from == own
    &&& t.pkt_type == kind
    &&& t.watermark == 0
    &&& t.payload == payload
    &&& t.wf()
    &&& header_made(own, dst, t.enc_header, t.routing_tag)
}

/// The node that a session message of the kind `Init` names as its sender.
pub open spec fn sender_of(raw: Seq<u8>) -> Option<Seq<u8>> {
    if raw.len() >= 33 {
        Some(raw.subrange(1, 33))
    } else {
        None
    }
}

/// What a session message says, by its first byte.
pub open spec fn kind_of(raw: Seq<u8>, init: u8, ack: u8) -> ControlKind {
    if raw.len() > 0 && raw[0] == init {
        ControlKind::Init
    } else if raw.len() > 0 && raw[0] == ack {
        ControlKind::Ack
    } else {
        ControlKind::Unknown
    }
}

/// What a session message says, by its first byte.
pub fn control_kind(raw: &[u8], init: u8, ack: u8) -> (r: ControlKind)
    ensures
        r == kind_of(raw@, init, ack),
{
    if raw.len() == 0 {
        return ControlKind::Unknown;
    }
    if raw[0] == init {
        ControlKind::Init
    } else if raw[0] == ack {
        ControlKind::Ack
    } else {
        ControlKind::Unknown
    }
}

/// The node that a session message of the kind `Init` names as its sender.
pub fn init_sender(raw: &[u8]) -> (r: Option<PeerId>)
    ensures
        match sender_of(raw@) {
            Some(k) => r matches Some(x) && x@ == k,
            None => r is None,
        },
{
    if raw.len() < 33 {
        return None;
    }
    let k: [u8; 32] = read_array(raw, 1);
    Some(k)
}

/// The message in `padded_plain`, which the session with `source` decrypted.
pub fn deliver(source: PeerId, padded_plain: &[u8]) -> (r: Option<InboundPacket>)
    ensures
        match unpadded(padded_plain@) {
            Ok(v) => r matches Some(p) && p.from == source && p.payload@ == v,
            Err(_) => r is None,
        },
{
    match unpad_payload(padded_plain) {
        Ok(payload) => Some(InboundPacket { from: source, payload }),
        Err(_) => None,
    }
}

fn envelope(
    own: &PeerId,
    kind: u8,
    enc_header: [u8; 128],
    tag: [u8; 16],
    payload: Vec<u8>,
    Ghost(dst): Ghost<Seq<u8>>,
) -> (t: Traffic)
    requires
        header_made(own@, dst, enc_header@, tag@),
    ensures
        packet_for(own@, dst, kind, payload@, t@),
        t.path@.len() == 0,
        t.enc_header == enc_header,
        t.routing_tag == tag,
{
    let length: usize = payload.len();
    assert(payload@.len() == length);
    let t = Traffic {
        path: Vec::new(),
        from: *own,
        enc_header,
        routing_tag: tag,
        pkt_type: kind,
        watermark: 0,
        payload,
    };
    assert(t@.path =~= Seq::<u64>::empty());
    t
}

/// A packet of the node `own` for `dst`.
pub(crate) fn make_packet(own: &PeerId, dst: &PeerId, kind: u8, payload: Vec<u8>) -> (t: Traffic)
    ensures
        packet_for(own@, dst@, kind, payload@, t@),
        t.path@.len() == 0,
{
    let (enc_header, tag) = encrypt_header(own, dst);
    envelope(own, kind, enc_header, tag, payload, Ghost(dst@))
}

/// Packets of the node `own` for `dst`, under one header.
pub(crate) fn make_packets(own: &PeerId, dst: &PeerId, payloads: Vec<Vec<u8>>) -> (r: Vec<Traffic>)
    ensures
        r@.len() == payloads@.len(),
        forall|i: int|
            0 <= i < r@.len() ==> packet_for(
                own@,
                dst@,
                PKT_DATA,
                payloads@[i]@,
                (#[trigger] r@[i])@,
            ) && r@[i].path@.len() == 0 && r@[i].enc_header == r@[0].enc_header
                && r@[i].routing_tag == r@[0].routing_tag,
{
    let (enc_header, tag) = encrypt_header(own, dst);
    let ghost all = payloads@;
    let mut r: Vec<Traffic> = Vec::new();
    let mut i: usize = 0;
    while i < payloads.len()
        invariant
            all == payloads@,
            i <= all.len(),
            r@.len() == i,
            header_made(own@, dst@, enc_header@, tag@),
            forall|j: int|
                0 <= j < i ==> packet_for(own@, dst@, PKT_DATA, all[j]@, (#[trigger] r@[j])@)
                    && r@[j].path@.len() == 0 && r@[j].enc_header == enc_header
                    && r@[j].routing_tag == tag,
        decreases all.len() - i,
    {
        let copy: Vec<u8> = crate::state::copy_bytes(&payloads[i]);
        let t: Traffic = envelope(own, PKT_DATA, enc_header, tag, copy, Ghost(dst@));
        r.push(t);
        i = i + 1;
    }
    r
}

/// The shortest pause between two rounds of cover traffic, in milliseconds.
pub const COVER_PAUSE_MS: u64 = 8000;

/// How much longer a pause may be; always less than this.
pub const COVER_PAUSE_SPREAD_MS: u64 = 22000;

/// The length of the shortest cover frame.
pub const COVER_LEN: usize = 64;

/// How much longer a cover frame may be; always less than this.
pub const COVER_LEN_SPREAD: usize = 192;

/// The pause before the next round of cover traffic, in milliseconds, from a
/// number drawn at random.
pub fn cover_pause_ms(drawn: u64) -> (ms: u64)
    ensures
        ms == 8000 + drawn % 22000,
        8000 <= ms < 30000,
{
    COVER_PAUSE_MS + drawn % COVER_PAUSE_SPREAD_MS
}

/// The length of a cover frame, from a number drawn at random.
pub fn cover_len(drawn: usize) -> (len: usize)
    ensures
        len == 64 + drawn % 192,
        64 <= len < 256,
{
    COVER_LEN + drawn % COVER_LEN_SPREAD
}

/// Whether a neighbour gets a cover frame in a round, from a number drawn at
/// random: two of five do.
pub fn cover_due(drawn: u64) -> (r: bool)
    ensures
        r == (drawn % 5 < 2),
{
    drawn % 5 < 2
}

impl RouterState {
    /// A traffic packet came from a neighbour. The result is what it holds for
    /// this node; a packet for another node is sent on.
    pub fn handle_traffic(&mut self, from: PeerId, traffic: Traffic, now: u64) -> (r: Delivery)
        requires
            old(self).wf(),
            path_encodable(traffic.path@),
        ensures
            final(self).wf(),
            traffic_handled(
                *old(self),
                from,
                traffic.routing_tag,
                traffic@,
                now,
                *final(self),
                r@,
            ),
    {
        if let Some(i) = self.find_peer(&from) {
            self.peers[i].last_rx = now;
            self.peers[i].rx_bytes = self.peers[i].rx_bytes.wrapping_add(
                traffic.payload.len() as u64,
            );
            proof {
                let q = self.peers@[i as int];
                assert(self.peers@ =~= old(self).peers@.update(i as int, q));
                lemma_update_keeps_keys(old(self).peers@, i as int, q);
            }
        }
        let ghost mid = *self;
        let my_tag: [u8; 16] = routing_tag(&self.pub_key);
        if routing_tag_eq(&traffic.routing_tag, &my_tag) {
            if traffic.pkt_type == PKT_CONTROL {
                return match unpad_payload(traffic.payload.as_slice()) {
                    Ok(raw) => Delivery::Control(raw),
                    Err(_) => Delivery::Nothing,
                };
            }
            if traffic.pkt_type == PKT_DATA {
                let dest = decrypt_dest_from_header(&traffic.enc_header, &self.signing_key);
                let ours: bool = match &dest {
                    Some(d) => key_eq(d, &self.pub_key),
                    None => false,
                };
                if !ours {
                    return Delivery::Nothing;
                }
                return match decrypt_source_from_header(&traffic.enc_header, &self.signing_key) {
                    Some(source) => Delivery::Data(source, traffic.payload),
                    None => Delivery::Nothing,
                };
            }
            return Delivery::Nothing;
        }
        let tag: [u8; 16] = traffic.routing_tag;
        if traffic.watermark >= MAX_FORWARD_HOPS {
            self.send_path_negative(from, tag, PATH_NEG_INITIAL_TTL);
            return Delivery::Nothing;
        }
        match self.lookup_by_tag_excluding(&tag, Some(from), now) {
            Some(hop) => {
                let ghost view = traffic@;
                let mut fwd = traffic;
                fwd.watermark = fwd.watermark + 1;
                fwd.from = self.pub_key;
                assert(fwd@ =~= sent_on(self.pub_key, view));
                let frame: Vec<u8> = fwd.encode();
                self.send_to_peer(&hop, frame);
            },
            None => {
                self.send_path_negative(from, tag, PATH_NEG_INITIAL_TTL);
            },
        }
        proof {
            lemma_hop_by_tag_same(mid, *self, tag, Some(from), now);
        }
        Delivery::Nothing
    }

    /// Whether the packet is among those seen last. In any case it is the last one
    /// from now on.
    pub fn is_onion_replay(&mut self, pkt: &OnionPacket) -> (r: bool)
        requires
            old(self).wf(),
        ensures
            final(self).wf(),
            *final(self) == (RouterState { onion_seen: final(self).onion_seen, ..*old(self) }),
            r == replayed(old(self).onion_seen@, pkt@),
            noted(old(self).onion_seen@, pkt@, final(self).onion_seen@),
    {
        let mut buf: Vec<u8> = Vec::new();
        proof {
            reveal_strlit("norn:onion-replay");
        }
        append_ascii(&mut buf, "norn:onion-replay");
        append(&mut buf, pkt.epk.as_slice());
        let n: usize = if pkt.aead_payload.len() < 16 {
            pkt.aead_payload.len()
        } else {
            16
        };
        append(&mut buf, &pkt.aead_payload.as_slice()[0..n]);
        assert(pkt.aead_payload@.subrange(0, n as int) =~= pkt.aead_payload@.take(n as int));
        assert(buf@ =~= ascii("norn:onion-replay"@) + pkt.epk@ + pkt.aead_payload@.take(n as int));
        let digest: [u8; 32] = digest_32(buf.as_slice());
        let mut i: usize = 0;
        while i < self.onion_seen.len()
            invariant
                self.wf(),
                *self == *old(self),
                i <= self.onion_seen@.len(),
                digest@ == replay_digest(pkt@),
                forall|j: int|
                    0 <= j < i ==> (#[trigger] self.onion_seen@[j])@ != replay_digest(pkt@),
            decreases self.onion_seen@.len() - i,
        {
            let d: &[u8; 32] = &self.onion_seen[i];
            if key_eq(d, &digest) {
                let ghost seen = self.onion_seen@;
                proof {
                    assert(seen[i as int]@ == replay_digest(pkt@));
                    assert(seen[i as int] =~= digest);
                    let c = digest_index(seen, digest);
                    assert(0 <= c < seen.len() && seen[c] == digest);
                    assert(c == i);
                }
                let again: Option<[u8; 32]> = self.onion_seen.remove(i);
                self.onion_seen.push_back(digest);
                proof {
                    assert(self.onion_seen@ =~= remembered(seen, digest));
                    lemma_remembered(seen, digest);
                }
                return true;
            }
            assert(self.onion_seen@[i as int]@ != digest@) by {
                if self.onion_seen@[i as int]@ == digest@ {
                    assert(self.onion_seen@[i as int] =~= digest);
                }
            }
            i = i + 1;
        }
        let ghost before = self.onion_seen@;
        if self.onion_seen.len() >= ONION_REPLAY_CACHE_SIZE {
            let oldest: Option<[u8; 32]> = self.onion_seen.pop_front();
            assert(self.onion_seen@ =~= before.skip(1));
        }
        self.onion_seen.push_back(digest);
        proof {
            assert(!before.contains(digest));
            assert(self.onion_seen@ =~= remembered(before, digest));
            lemma_remembered(before, digest);
        }
        false
    }

    /// Send an onion packet for another node on its way.
    pub fn forward_onion(&mut self, from: PeerId, pkt: OnionPacket, now: u64)
        requires
            old(self).wf(),
        ensures
            final(self).wf(),
            onion_sent_on(*old(self), from, pkt.routing_tag, pkt@, now, *final(self)),
    {
        let tag: [u8; 16] = pkt.routing_tag;
        let frame: Vec<u8> = pkt.encode();
        match self.lookup_by_tag_excluding(&tag, Some(from), now) {
            Some(hop) => {
                self.send_to_peer(&hop, frame);
            },
            None => {
                self.send_path_negative(from, tag, PATH_NEG_INITIAL_TTL);
            },
        }
    }

    /// An onion packet for this node came from a neighbour. One that was seen
    /// before is dropped. Where the layer holds a packet for the next hop, that
    /// is sent on; where it holds a traffic packet, that is handled as if it
    /// came from the neighbour.
    pub fn handle_onion(&mut self, from: PeerId, pkt: OnionPacket, now: u64) -> (r: Delivery)
        requires
            old(self).wf(),
        ensures
            final(self).wf(),
            onion_handled(*old(self), from, pkt@, now, *final(self), r@),
    {
        self.touch(&from, now);
        if self.is_onion_replay(&pkt) {
            return Delivery::Nothing;
        }
        let ghost s2 = *self;
        assert(opened(*old(self), from, pkt@, now, s2));
        match pkt.peel(&self.onion_keys) {
            Ok(PeeledOnion::Forward(bytes)) => {
                if let Ok(inner) = OnionPacket::decode(bytes.as_slice()) {
                    let ghost view = inner@;
                    let ghost tag = inner.routing_tag;
                    self.forward_onion(from, inner, now);
                    proof {
                        assert(tag@ == view.routing_tag);
                        assert(onion_sent_on(s2, from, tag, view, now, *self));
                    }
                }
                Delivery::Nothing
            },
            Ok(PeeledOnion::Deliver(bytes)) => {
                if bytes.len() == 0 {
                    return Delivery::Nothing;
                }
                if bytes[0] != TRAFFIC {
                    return Delivery::Nothing;
                }
                assert(bytes@.subrange(1, bytes@.len() as int) =~= bytes@.skip(1));
                match Traffic::decode(&bytes.as_slice()[1..bytes.len()]) {
                    Ok(traffic) => {
                        let ghost view = traffic@;
                        let ghost tag = traffic.routing_tag;
                        let r = self.handle_traffic(from, traffic, now);
                        proof {
                            assert(traffic_handled(s2, from, tag, view, now, *self, r@));
                        }
                        r
                    },
                    Err(_) => Delivery::Nothing,
                }
            },
            Err(_) => Delivery::Nothing,
        }
    }

    /// Send a session message to `dst`, not encrypted.
    pub fn send_traffic_to(&mut self, dst: &PeerId, payload: &[u8], d: &Option<Distances>)
        requires
            old(self).wf(),
            payload@.len() <= 65535,
        ensures
            final(self).wf(),
            *final(self) == (RouterState { outbox: final(self).outbox, ..*old(self) }),
            exists|t: TrafficView| #[trigger]
                packet_for(old(self).pub_key@, dst@, PKT_CONTROL, padded(payload@), t)
                    && final(self).sent() == old(self).sent() + routed(
                    *old(self),
                    *dst,
                    *d,
                    seq![TRAFFIC] + t.wire(),
                ),
    {
        let body: Vec<u8> = pad_payload(payload);
        let t: Traffic = make_packet(&self.pub_key, dst, PKT_CONTROL, body);
        let frame: Vec<u8> = t.encode();
        assert(self.sent() =~= old(self).sent() + Seq::<Sent>::empty());
        if let Some(hop) = self.lookup(dst, d) {
            self.send_to_peer(&hop, frame);
        }
        assert(packet_for(old(self).pub_key@, dst@, PKT_CONTROL, padded(payload@), t@));
    }

    /// Send `len` bytes that say nothing to a neighbour.
    pub fn send_cover(&mut self, to: &PeerId, len: usize)
        requires
            old(self).wf(),
            len >= 1,
        ensures
            final(self).wf(),
            *final(self) == (RouterState { outbox: final(self).outbox, ..*old(self) }),
            final(self).sent() == old(self).sent() + one(
                old(self).peers@,
                *to,
                seq![DUMMY] + Seq::new((len - 1) as nat, |i: int| 0u8),
            ),
    {
        let mut frame: Vec<u8> = vec![DUMMY];
        frame.resize(len, 0u8);
        proof {
            assert(frame@.subrange(0, 1)[0] == DUMMY);
            assert(frame@ =~= seq![DUMMY] + Seq::new((len - 1) as nat, |i: int| 0u8));
        }
        self.send_to_peer(to, frame);
    }
}

/// What handling a traffic packet makes of `before`.
pub open spec fn traffic_handled(
    before: RouterState,
    from: PeerId,
    tag: [u8; 16],
    t: TrafficView,
    now: u64,
    after: RouterState,
    r: DeliveryView,
) -> bool {
    &&& after == (RouterState { peers: after.peers, outbox: after.outbox, ..before })
    &&& after.peers@ == received(before.peers@, from, t.payload.len(), now)
    &&& tag@ == t.routing_tag
    &&& if t.routing_tag == tag_of(before.pub_key@) {
        r == delivered(before.signing_key@, t) && after.outbox == before.outbox
    } else {
        r == DeliveryView::Nothing && after.sent() == before.sent() + forwarded(
            after,
            from,
            tag,
            t,
            now,
        )
    }
}

/// What sending an onion packet on makes of `before`.
pub open spec fn onion_sent_on(
    before: RouterState,
    from: PeerId,
    tag: [u8; 16],
    p: OnionView,
    now: u64,
    after: RouterState,
) -> bool {
    &&& after == (RouterState { outbox: after.outbox, ..before })
    &&& tag@ == p.routing_tag
    &&& after.sent() == before.sent() + onion_forwarded(before, from, tag, p, now)
}

/// What the opened layer of an onion packet makes of `before`.
pub open spec fn layer_handled(
    before: RouterState,
    from: PeerId,
    layer: PeeledView,
    now: u64,
    after: RouterState,
    r: DeliveryView,
) -> bool {
    match layer {
        PeeledView::Forward(bytes) => r == DeliveryView::Nothing && match parse_onion(bytes) {
            Ok(inner) => exists|tag: [u8; 16]| #[trigger]
                onion_sent_on(before, from, tag, inner, now, after),
            Err(_) => after == before,
        },
        PeeledView::Deliver(bytes) => if bytes.len() == 0 || bytes[0] != TRAFFIC {
            after == before && r == DeliveryView::Nothing
        } else {
            match parse_traffic(bytes.skip(1)) {
                Ok(t) => exists|tag: [u8; 16]| #[trigger]
                    traffic_handled(before, from, tag, t, now, after, r),
                Err(_) => after == before && r == DeliveryView::Nothing,
            }
        },
    }
}

/// What an onion packet for this node makes of `before`.
pub open spec fn onion_handled(
    before: RouterState,
    from: PeerId,
    p: OnionView,
    now: u64,
    after: RouterState,
    r: DeliveryView,
) -> bool {
    if replayed(before.onion_seen@, p) {
        opened(before, from, p, now, after) && r == DeliveryView::Nothing
    } else {
        exists|mid: RouterState| #[trigger]
            opened(before, from, p, now, mid) && match peeled(before.onion_keys@, p) {
                Ok(layer) => layer_handled(mid, from, layer, now, after, r),
                Err(_) => after == mid && r == DeliveryView::Nothing,
            }
    }
}

/// `mid` is `before` once an onion packet for this node came.
pub open spec fn opened(
    before: RouterState,
    from: PeerId,
    p: OnionView,
    now: u64,
    mid: RouterState,
) -> bool {
    &&& mid == (RouterState { peers: mid.peers, onion_seen: mid.onion_seen, ..before })
    &&& mid.peers@ == touched(before.peers@, from, now)
    &&& noted(before.onion_seen@, p, mid.onion_seen@)
}

/// A packet that one node makes for another is for that node, which finds in it
/// the sender and the payload.
pub proof fn packets_reach_their_destination(
    own: Seq<u8>,
    seed: Seq<u8>,
    payload: Seq<u8>,
    t: TrafficView,
)
    requires
        seed.len() == 32,
        packet_for(own, ed25519_public_key(seed), PKT_DATA, payload, t),
    ensures
        t.routing_tag == tag_of(ed25519_public_key(seed)),
        delivered(seed, t) == DeliveryView::Data(own, payload),
{
}

/// A session message that one node sends to another reaches it as it was.
pub proof fn session_messages_reach_their_destination(
    own: Seq<u8>,
    seed: Seq<u8>,
    message: Seq<u8>,
    t: TrafficView,
)
    requires
        seed.len() == 32,
        message.len() <= 65535,
        packet_for(own, ed25519_public_key(seed), PKT_CONTROL, padded(message), t),
    ensures
        t.routing_tag == tag_of(ed25519_public_key(seed)),
        delivered(seed, t) == DeliveryView::Control(message),
{
    crate::router::pad_round_trip(message);
}

/// Relays change nothing of a packet that its destination reads.
pub proof fn relays_keep_the_message(own: PeerId, seed: Seq<u8>, t: TrafficView)
    ensures
        sent_on(own, t).routing_tag == t.routing_tag,
        delivered(seed, sent_on(own, t)) == delivered(seed, t),
{
}

/// A packet is not sent back to the neighbour that it came from, and not sent
/// on once it took the most hops allowed.
pub proof fn forwarding_makes_progress(
    s: RouterState,
    from: PeerId,
    tag: [u8; 16],
    t: TrafficView,
    now: u64,
    f: Sent,
)
    requires
        forwarded(s, from, tag, t, now).contains(f),
        f.frame[0] == TRAFFIC,
    ensures
        f.to != from,
        t.watermark < MAX_FORWARD_HOPS,
        sent_on(s.pub_key, t).watermark == t.watermark + 1,
        f.frame == seq![TRAFFIC] + sent_on(s.pub_key, t).wire(),
{
    let out = forwarded(s, from, tag, t, now);
    let i = choose|i: int| 0 <= i < out.len() && out[i] == f;
    assert(out[i] == f);
    match tag_route(s, tag, Some(from), now, s.peers@.len() as int) {
        Some(k) => {
            chosen_by_tag_is_sound(s, tag, Some(from), now, s.peers@.len() as int);
        },
        None => {},
    }
}

/// No packet is remembered twice.
proof fn lemma_remembered(seen: Seq<[u8; 32]>, digest: [u8; 32])
    requires
        seen.no_duplicates(),
    ensures
        remembered(seen, digest).no_duplicates(),
        remembered(seen, digest).len() <= seen.len() || remembered(seen, digest).len()
            <= ONION_REPLAY_CACHE_SIZE,
{
    let r = remembered(seen, digest);
    let gone = if seen.contains(digest) {
        digest_index(seen, digest)
    } else if seen.len() >= ONION_REPLAY_CACHE_SIZE {
        0
    } else {
        seen.len() as int
    };
    if seen.contains(digest) {
        assert(0 <= gone < seen.len() && seen[gone] == digest);
    }
    let n = r.len() - 1;
    assert forall|a: int| 0 <= a < n implies #[trigger] r[a] == seen[if a < gone {
        a
    } else {
        a + 1
    }] by {}
    assert forall|a: int, b: int| 0 <= a < r.len() && 0 <= b < r.len() && a != b implies r[a]
        != r[b] by {
        let x = if a < gone {
            a
        } else {
            a + 1
        };
        let y = if b < gone {
            b
        } else {
            b + 1
        };
        if a < n && b < n {
            assert(r[a] == seen[x] && r[b] == seen[y]);
        } else if a < n {
            assert(r[a] == seen[x] && seen.contains(seen[x]));
        } else {
            assert(r[b] == seen[y] && seen.contains(seen[y]));
        }
    }
}

/// An onion packet that has been handled is recognised when it comes again.
pub proof fn onion_packets_are_handled_once(
    seen: Seq<[u8; 32]>,
    p: OnionView,
    after: Seq<[u8; 32]>,
)
    requires
        noted(seen, p, after),
    ensures
        replayed(after, p),
{
    let digest = choose|digest: [u8; 32]|
        digest@ == replay_digest(p) && after == #[trigger] remembered(seen, digest);
    assert(after[after.len() - 1]@ == replay_digest(p));
}

/// Neighbour `j` can take a packet with the tag `tag` that came from `from`.
pub open spec fn can_take(s: RouterState, from: PeerId, tag: [u8; 16], now: u64, j: int) -> bool {
    &&& 0 <= j < s.peers@.len()
    &&& s.peers@[j].pub_key != from
    &&& claims(s.peers@[j], tag@)
    &&& !negative(s.path_negative_cache@, s.peers@[j].pub_key, tag, now)
}

/// The frame tells the neighbour `to` that packets with the tag `tag` cannot be
/// routed here, and may be passed on three times.
pub open spec fn is_notice(f: Sent, to: PeerId, tag: [u8; 16]) -> bool {
    &&& f.to == to
    &&& f.frame[0] == TYPE_PATH_NEGATIVE
    &&& parse_path_negative(f.frame.skip(1)) == Ok::<PathNegativeView, PacketError>(
        PathNegativeView { routing_tag: tag@, ttl: 4 },
    )
}

proof fn lemma_notice(peers: Seq<PeerData>, to: PeerId, tag: [u8; 16])
    requires
        crate::state::distinct_peers(peers),
    ensures
        (exists|i: int|
            0 <= i < peers.len() && (#[trigger] peers[i]).pub_key == to && peers[i].links@.len() > 0)
            ==> negative_notice(peers, to, tag, PATH_NEG_INITIAL_TTL as int).len() == 1
            && is_notice(negative_notice(peers, to, tag, PATH_NEG_INITIAL_TTL as int)[0], to, tag),
        (forall|i: int|
            0 <= i < peers.len() && (#[trigger] peers[i]).pub_key == to ==> peers[i].links@.len()
                == 0) ==> negative_notice(peers, to, tag, PATH_NEG_INITIAL_TTL as int).len() == 0,
{
    let v = PathNegativeView { routing_tag: tag@, ttl: 4u8 };
    let frame = seq![TYPE_PATH_NEGATIVE] + v.wire();
    frames_go_to_neighbours(peers, to, frame);
    crate::packet::path_negative_round_trip(v, Seq::empty());
    assert(frame.skip(1) =~= v.wire() + Seq::<u8>::empty());
}

/// A packet with the tag of another node is sent on, whatever its kind. Where it
/// took fewer than 32 hops and some neighbour can take it, it goes to one of those
/// with the lowest trust-adjusted cost, with one more hop and this node as its
/// sender but otherwise unchanged, and nothing else is sent. Only where no
/// neighbour can take it, or where the hops are used up, the neighbour that it
/// came from is told.
pub proof fn packets_for_others_are_sent_on(
    before: RouterState,
    from: PeerId,
    tag: [u8; 16],
    t: TrafficView,
    now: u64,
    after: RouterState,
    r: DeliveryView,
)
    requires
        before.wf(),
        traffic_handled(before, from, tag, t, now, after, r),
        t.routing_tag != tag_of(before.pub_key@),
    ensures
        r == DeliveryView::Nothing,
        after.path_negative_cache == before.path_negative_cache,
        if t.watermark < 32 && exists|j: int| can_take(before, from, tag, now, j) {
            exists|b: int| #[trigger]
                can_take(before, from, tag, now, b) && (forall|j: int| #[trigger]
                    can_take(before, from, tag, now, j) ==> before.peers@[b].tag_cost
                        <= before.peers@[j].tag_cost) && after.sent() == if before.peers@[b].links@.len()
                    > 0 {
                    before.sent().push(
                        Sent {
                            to: before.peers@[b].pub_key,
                            frame: seq![TRAFFIC] + (TrafficView {
                                watermark: (t.watermark + 1) as u64,
                                from: before.pub_key@,
                                ..t
                            }).wire(),
                        },
                    )
                } else {
                    before.sent()
                }
        } else if exists|i: int|
            0 <= i < before.peers@.len() && (#[trigger] before.peers@[i]).pub_key == from
                && before.peers@[i].links@.len() > 0 {
            &&& after.sent().len() == before.sent().len() + 1
            &&& after.sent().take(before.sent().len() as int) == before.sent()
            &&& is_notice(after.sent().last(), from, tag)
        } else {
            after.sent() == before.sent()
        },
{
    let mid = after.peers@;
    lemma_received(before.peers@, from, t.payload.len(), now);
    assert forall|j: int| 0 <= j < mid.len() implies (claims(#[trigger] mid[j], tag@) <==> claims(
        before.peers@[j],
        tag@,
    )) by {
        crate::lookup::a_claim_in_any_tree_counts(mid[j], tag@);
        crate::lookup::a_claim_in_any_tree_counts(before.peers@[j], tag@);
    }
    assert forall|j: int| 0 <= j < mid.len() implies (#[trigger] can_take(after, from, tag, now, j)
        <==> can_take(before, from, tag, now, j)) by {
        assert(mid[j].pub_key == before.peers@[j].pub_key);
    }
    the_hop_for_a_tag_is_the_cheapest(after, tag, Some(from), now);
    lemma_notice(mid, from, tag);
    let room = exists|i: int|
        0 <= i < before.peers@.len() && (#[trigger] before.peers@[i]).pub_key == from
            && before.peers@[i].links@.len() > 0;
    if room {
        let i = choose|i: int|
            0 <= i < before.peers@.len() && (#[trigger] before.peers@[i]).pub_key == from
                && before.peers@[i].links@.len() > 0;
        assert(mid[i].pub_key == from && mid[i].links@.len() > 0);
    } else {
        assert forall|i: int| 0 <= i < mid.len() && (#[trigger] mid[i]).pub_key == from implies mid[i].links@.len()
            == 0 by {
            assert(before.peers@[i].pub_key == from);
        }
    }
    let notice = negative_notice(mid, from, tag, PATH_NEG_INITIAL_TTL as int);
    if t.watermark < 32 {
        match hop_by_tag(after, tag, Some(from), now) {
            Some(h) => {
                let b = choose|b: int| #[trigger]
                    crate::lookup::takes_tag(after, tag, Some(from), now, b)
                        && after.peers@[b].pub_key == h && (forall|j: int|
                        0 <= j < mid.len() && claims(#[trigger] mid[j], tag@) && Some(from) != Some(
                            mid[j].pub_key,
                        ) && !negative(after.path_negative_cache@, mid[j].pub_key, tag, now)
                            ==> mid[b].tag_cost <= mid[j].tag_cost);
                assert(can_take(after, from, tag, now, b));
                assert(can_take(before, from, tag, now, b));
                assert forall|j: int| #[trigger]
                    can_take(before, from, tag, now, j) implies before.peers@[b].tag_cost
                    <= before.peers@[j].tag_cost by {
                    assert(can_take(after, from, tag, now, j));
                    assert(mid[b].tag_cost <= mid[j].tag_cost);
                }
                assert(is_at(mid, h, b));
                lemma_index(mid, h, b);
                let frame = seq![TRAFFIC] + sent_on(before.pub_key, t).wire();
                if before.peers@[b].links@.len() > 0 {
                    assert(one(mid, h, frame) =~= seq![Sent { to: h, frame }]);
                    assert(after.sent() =~= before.sent().push(Sent { to: h, frame }));
                } else {
                    assert(after.sent() =~= before.sent());
                }
            },
            None => {
                assert forall|j: int| !can_take(before, from, tag, now, j) by {
                    if can_take(before, from, tag, now, j) {
                        assert(can_take(after, from, tag, now, j));
                    }
                }
            },
        }
    }
    if !(t.watermark < 32 && exists|j: int| can_take(before, from, tag, now, j)) {
        assert(after.sent() =~= before.sent() + notice);
        if room {
            assert(after.sent().take(before.sent().len() as int) =~= before.sent());
        } else {
            assert(after.sent() =~= before.sent());
        }
    }
}

proof fn lemma_received(peers: Seq<PeerData>, from: PeerId, n: nat, now: u64)
    requires
        crate::state::distinct_peers(peers),
    ensures
        received(peers, from, n, now).len() == peers.len(),
        crate::state::distinct_peers(received(peers, from, n, now)),
        forall|i: int|
            0 <= i < peers.len() ==> (#[trigger] received(peers, from, n, now)[i]) == (if peers[i].pub_key
                == from {
                PeerData {
                    last_rx: now,
                    rx_bytes: peers[i].rx_bytes.wrapping_add(n as u64),
                    ..peers[i]
                }
            } else {
                peers[i]
            }),
{
    if has_peer(peers, from) {
        let i = index_of(peers, from);
        assert(is_at(peers, from, i));
        lemma_update_keeps_keys(peers, i, received(peers, from, n, now)[i]);
        assert forall|j: int| 0 <= j < peers.len() && j != i implies (#[trigger] peers[j]).pub_key
            != from by {
            if peers[j].pub_key == from {
                assert(is_at(peers, from, j));
                lemma_index(peers, from, j);
            }
        }
    } else {
        assert forall|j: int| 0 <= j < peers.len() implies (#[trigger] peers[j]).pub_key != from by {
            if peers[j].pub_key == from {
                assert(is_at(peers, from, j));
            }
        }
    }
}

/// The payload of each packet, whether it is for this node or not, counts for the
/// neighbour that it came from, and for no other.
pub proof fn received_bytes_are_counted(
    before: RouterState,
    from: PeerId,
    tag: [u8; 16],
    t: TrafficView,
    now: u64,
    after: RouterState,
    r: DeliveryView,
    i: int,
)
    requires
        before.wf(),
        traffic_handled(before, from, tag, t, now, after, r),
        0 <= i < before.peers@.len(),
    ensures
        after.peers@.len() == before.peers@.len(),
        after.peers@[i] == (if before.peers@[i].pub_key == from {
            PeerData {
                last_rx: now,
                rx_bytes: before.peers@[i].rx_bytes.wrapping_add(t.payload.len() as u64),
                ..before.peers@[i]
            }
        } else {
            before.peers@[i]
        }),
{
    lemma_received(before.peers@, from, t.payload.len(), now);
}

/// A packet that one node makes for another is delivered there, whatever relays it
/// went through: the destination is told the sender and the payload, or the
/// session message, and sends nothing.
pub proof fn packets_for_this_node_are_delivered(
    source: Seq<u8>,
    payload: Seq<u8>,
    sent: TrafficView,
    before: RouterState,
    from: PeerId,
    tag: [u8; 16],
    t: TrafficView,
    now: u64,
    after: RouterState,
    r: DeliveryView,
)
    requires
        before.wf(),
        payload.len() <= 65535,
        packet_for(source, before.pub_key@, PKT_DATA, payload, sent) || packet_for(
            source,
            before.pub_key@,
            PKT_CONTROL,
            padded(payload),
            sent,
        ),
        t == (TrafficView { watermark: t.watermark, from: t.from, ..sent }),
        traffic_handled(before, from, tag, t, now, after, r),
    ensures
        sent.pkt_type == PKT_DATA ==> r == DeliveryView::Data(source, payload),
        sent.pkt_type == PKT_CONTROL ==> r == DeliveryView::Control(payload),
        after.outbox == before.outbox,
{
    crate::router::pad_round_trip(payload);
    assert(before.signing_key@.len() == 32);
    assert(ed25519_public_key(before.signing_key@) == before.pub_key@);
}

/// Only what is for this node is delivered: the packet has the tag of this node,
/// and where it names a sender, its header names this node as the destination.
pub proof fn only_packets_for_this_node_are_delivered(
    before: RouterState,
    from: PeerId,
    tag: [u8; 16],
    t: TrafficView,
    now: u64,
    after: RouterState,
    r: DeliveryView,
)
    requires
        before.wf(),
        traffic_handled(before, from, tag, t, now, after, r),
    ensures
        !(r is Nothing) ==> t.routing_tag == tag_of(before.pub_key@),
        r matches DeliveryView::Data(source, payload) ==> {
            &&& t.pkt_type == PKT_DATA
            &&& payload == t.payload
            &&& header_dest(before.signing_key@, t.enc_header) == Some(before.pub_key@)
            &&& header_source(before.signing_key@, t.enc_header) == Some(source)
        },
        r matches DeliveryView::Control(raw) ==> t.pkt_type == PKT_CONTROL && unpadded(t.payload)
            == Ok::<Seq<u8>, crate::router::UnpadError>(raw),
{
}

/// An onion packet with the tag of another node goes unchanged, in a cell, to one of
/// the neighbours that can take it with the lowest trust-adjusted cost. Only where
/// no neighbour can take it, the neighbour that it came from is told.
pub proof fn onions_for_others_are_sent_on(
    before: RouterState,
    from: PeerId,
    tag: [u8; 16],
    p: OnionView,
    now: u64,
    after: RouterState,
)
    requires
        before.wf(),
        onion_sent_on(before, from, tag, p, now, after),
    ensures
        if exists|j: int| can_take(before, from, tag, now, j) {
            exists|b: int| #[trigger]
                can_take(before, from, tag, now, b) && (forall|j: int| #[trigger]
                    can_take(before, from, tag, now, j) ==> before.peers@[b].tag_cost
                        <= before.peers@[j].tag_cost) && after.sent() == if before.peers@[b].links@.len()
                    > 0 {
                    before.sent().push(Sent { to: before.peers@[b].pub_key, frame: p.cell() })
                } else {
                    before.sent()
                }
        } else if exists|i: int|
            0 <= i < before.peers@.len() && (#[trigger] before.peers@[i]).pub_key == from
                && before.peers@[i].links@.len() > 0 {
            &&& after.sent().len() == before.sent().len() + 1
            &&& after.sent().take(before.sent().len() as int) == before.sent()
            &&& is_notice(after.sent().last(), from, tag)
        } else {
            after.sent() == before.sent()
        },
{
    let peers = before.peers@;
    the_hop_for_a_tag_is_the_cheapest(before, tag, Some(from), now);
    lemma_notice(peers, from, tag);
    let room = exists|i: int|
        0 <= i < peers.len() && (#[trigger] peers[i]).pub_key == from && peers[i].links@.len() > 0;
    if !room {
        assert forall|i: int| 0 <= i < peers.len() && (#[trigger] peers[i]).pub_key
            == from implies peers[i].links@.len() == 0 by {}
    }
    match hop_by_tag(before, tag, Some(from), now) {
        Some(h) => {
            let b = choose|b: int| #[trigger]
                crate::lookup::takes_tag(before, tag, Some(from), now, b) && peers[b].pub_key == h
                    && (forall|j: int|
                    0 <= j < peers.len() && claims(#[trigger] peers[j], tag@) && Some(from) != Some(
                        peers[j].pub_key,
                    ) && !negative(before.path_negative_cache@, peers[j].pub_key, tag, now)
                        ==> peers[b].tag_cost <= peers[j].tag_cost);
            assert(can_take(before, from, tag, now, b));
            assert forall|j: int| #[trigger]
                can_take(before, from, tag, now, j) implies peers[b].tag_cost
                <= peers[j].tag_cost by {
                assert(claims(peers[j], tag@));
            }
            assert(is_at(peers, h, b));
            lemma_index(peers, h, b);
            if peers[b].links@.len() > 0 {
                assert(after.sent() =~= before.sent().push(Sent { to: h, frame: p.cell() }));
            } else {
                assert(after.sent() =~= before.sent());
            }
        },
        None => {
            assert forall|j: int| !can_take(before, from, tag, now, j) by {
                if can_take(before, from, tag, now, j) {
                    assert(claims(peers[j], tag@));
                }
            }
            if room {
                assert(after.sent().take(before.sent().len() as int) =~= before.sent());
            } else {
                assert(after.sent() =~= before.sent());
            }
        },
    }
}

/// A relay sends on what it finds in its layer. An onion packet that is new and
/// was made for a route that starts with this node leads to the packet for the rest
/// of the route, which goes on towards the next hop, and to nothing else.
pub proof fn relays_send_the_rest_of_the_route_on(
    before: RouterState,
    from: PeerId,
    p: OnionView,
    now: u64,
    after: RouterState,
    r: DeliveryView,
    relays: Seq<crate::onion::OnionHop>,
    dest: crate::onion::OnionHop,
    traffic: Seq<u8>,
) -> (x: (RouterState, [u8; 16], OnionView))
    requires
        onion_handled(before, from, p, now, after, r),
        !replayed(before.onion_seen@, p),
        relays.len() > 0,
        crate::onion::routes(p, relays, dest, traffic),
        before.onion_keys@.current.len() == 32,
        crate::crypto::x25519_public_key(before.onion_keys@.current) == relays[0].ephemeral_x_pub@,
        crate::onion::nested_len(relays.len(), traffic.len()) <= crate::onion::ONION_CELL_SIZE,
    ensures
        r is Nothing,
        opened(before, from, p, now, x.0),
        crate::onion::routes(x.2, relays.skip(1), dest, traffic),
        onion_sent_on(x.0, from, x.1, x.2, now, after),
{
    crate::onion::relay_gets_the_rest_of_the_route(p, relays, dest, traffic, before.onion_keys@);
    let inner = choose|inner: OnionView| #[trigger]
        crate::onion::routes(inner, relays.skip(1), dest, traffic) && (inner.wire().len()
            <= u64::MAX ==> peeled(before.onion_keys@, p) == Ok::<
            PeeledView,
            crate::onion::OnionError,
        >(PeeledView::Forward(inner.wire()))) && (inner.aead_payload.len()
            <= crate::onion::ONION_CELL_SIZE ==> parse_onion(inner.wire()) == Ok::<
            OnionView,
            crate::onion::OnionError,
        >(inner));
    crate::onion::onions_have_one_size(inner, relays.skip(1), dest, traffic);
    let mid = choose|mid: RouterState| #[trigger]
        opened(before, from, p, now, mid) && match peeled(before.onion_keys@, p) {
            Ok(layer) => layer_handled(mid, from, layer, now, after, r),
            Err(_) => after == mid && r == DeliveryView::Nothing,
        };
    let tag = choose|tag: [u8; 16]| #[trigger] onion_sent_on(mid, from, tag, inner, now, after);
    (mid, tag, inner)
}

/// At the end of its route an onion packet that is new leads to what the traffic
/// packet in it leads to.
pub proof fn destinations_handle_the_traffic(
    before: RouterState,
    from: PeerId,
    p: OnionView,
    now: u64,
    after: RouterState,
    r: DeliveryView,
    dest: crate::onion::OnionHop,
    t: TrafficView,
) -> (x: (RouterState, [u8; 16]))
    requires
        onion_handled(before, from, p, now, after, r),
        !replayed(before.onion_seen@, p),
        t.wf(),
        crate::onion::routes(p, Seq::empty(), dest, seq![TRAFFIC] + t.wire()),
        t.wire().len() < u64::MAX,
        before.onion_keys@.current.len() == 32,
        crate::crypto::x25519_public_key(before.onion_keys@.current) == dest.ephemeral_x_pub@,
    ensures
        opened(before, from, p, now, x.0),
        traffic_handled(x.0, from, x.1, t, now, after, r),
{
    let bytes = seq![TRAFFIC] + t.wire();
    crate::onion::destination_gets_the_traffic(p, dest, bytes, before.onion_keys@);
    let mid = choose|mid: RouterState| #[trigger]
        opened(before, from, p, now, mid) && match peeled(before.onion_keys@, p) {
            Ok(layer) => layer_handled(mid, from, layer, now, after, r),
            Err(_) => after == mid && r == DeliveryView::Nothing,
        };
    assert(bytes.skip(1) =~= t.wire() + Seq::<u8>::empty());
    crate::packet::traffic_round_trip(t, Seq::empty());
    let tag = choose|tag: [u8; 16]| #[trigger]
        traffic_handled(mid, from, tag, t, now, after, r);
    (mid, tag)
}

/// An onion packet that was seen before leads to nothing, and one that is new is
/// remembered. Nothing but the time that the neighbour was last heard changes
/// besides.
pub proof fn replayed_onions_are_dropped(
    before: RouterState,
    from: PeerId,
    p: OnionView,
    now: u64,
    after: RouterState,
    r: DeliveryView,
    again: u64,
    last: RouterState,
    q: DeliveryView,
)
    requires
        onion_handled(before, from, p, now, after, r),
        onion_handled(after, from, p, again, last, q),
    ensures
        q is Nothing,
        last.outbox == after.outbox,
        last.path_negative_cache == after.path_negative_cache,
{
    if replayed(before.onion_seen@, p) {
        onion_packets_are_handled_once(before.onion_seen@, p, after.onion_seen@);
    } else {
        let mid = choose|mid: RouterState| #[trigger]
            opened(before, from, p, now, mid) && match peeled(before.onion_keys@, p) {
                Ok(layer) => layer_handled(mid, from, layer, now, after, r),
                Err(_) => after == mid && r == DeliveryView::Nothing,
            };
        onion_packets_are_handled_once(before.onion_seen@, p, mid.onion_seen@);
        assert(after.onion_seen == mid.onion_seen);
    }
}

/// A packet seen is remembered as the last one; of the others at most one is
/// forgotten, and that only where 4096 others are remembered and it is the one not
/// seen for the longest time.
pub proof fn seen_packets_are_remembered(seen: Seq<[u8; 32]>, digest: [u8; 32], i: int)
    requires
        seen.no_duplicates(),
        0 <= i < seen.len(),
        seen[i] != digest,
    ensures
        remembered(seen, digest).last() == digest,
        remembered(seen, digest).contains(seen[i]) <==> (seen.len() < 4096 || i > 0
            || seen.contains(digest)),
        forall|k: int|
            0 <= k < remembered(seen, digest).len() ==> #[trigger] remembered(seen, digest)[k]
                == digest || seen.contains(remembered(seen, digest)[k]),
{
    let r = remembered(seen, digest);
    if seen.contains(digest) {
        let c = digest_index(seen, digest);
        assert(0 <= c < seen.len() && seen[c] == digest);
        let k = if i < c {
            i
        } else {
            i - 1
        };
        assert(r[k] == seen[i]);
    } else if seen.len() >= ONION_REPLAY_CACHE_SIZE {
        if i > 0 {
            assert(r[i - 1] == seen[i]);
        } else if r.contains(seen[0]) {
            let k = choose|k: int| 0 <= k < r.len() && r[k] == seen[0];
            assert(k < r.len() - 1);
            assert(r[k] == seen[k + 1]);
        }
    } else {
        assert(r[i] == seen[i]);
    }
}

/// What identifies an onion packet is the digest of a fixed text, its ephemeral key, and the
/// first sixteen bytes of its layer.
pub proof fn packets_are_told_apart_by_key_and_layer(p: OnionView, data: Seq<u8>)
    requires
        p.epk.len() == 32,
        p.aead_payload.len() >= 16,
        data.len() == 65,
        data.take(17) == ascii("norn:onion-replay"@),
        data.subrange(17, 49) == p.epk,
        data.subrange(49, 65) == p.aead_payload.take(16),
    ensures
        replay_digest(p) == blake2b_32(data),
{
    reveal_strlit("norn:onion-replay");
    assert(data =~= ascii("norn:onion-replay"@) + p.epk + p.aead_payload.take(16));
}

} // verus!
