//! Layered encryption of traffic through relays.
//!
//! A sender wraps a traffic packet in one layer per relay. Each relay opens
//! its layer with a key that only it holds, finds the packet for the next hop,
//! and sends that on; the last hop finds the traffic packet. A relay learns
//! its predecessor and its successor and nothing else of the route. On the
//! wire every packet has the same size.
//!
//! Wire form: `TYPE_ONION`, routing tag (16), ephemeral key (32), length of the
//! sealed layer, sealed layer, zero padding. An opened layer is a type byte,
//! the length of its content, and the content.

use crate::bytes::{append, read_array};
use crate::crypto::{
    aead_open, aead_opened, aead_seal, ed25519_priv_to_x25519, ed25519_public_as_x25519,
    ed25519_public_key, ed25519_secret_as_x25519, random_key, wipe, x25519_agree, x25519_public,
    x25519_public_key, x25519_shared, AEAD_MAX_LEN, AEAD_TAG_LEN,
};
use crate::packet::{
    decode_uvarint, encode_uvarint, parse_uvarint, routing_tag, tag_of, uvarint, uvarint_round_trip,
    PacketError,
};
use crate::text::{decimal, push_decimal, push_text};
use vstd::prelude::*;

verus! {

broadcast use vstd::array::group_array_axioms;

pub const TYPE_ONION: u8 = 11;

/// A layer whose content is the packet for the next hop.
pub const ONION_FORWARD: u8 = 0x01;

/// A layer whose content is a traffic packet for the node that opened it.
pub const ONION_DELIVER: u8 = 0x00;

/// Size on the wire of every onion packet, type byte included.
pub const ONION_CELL_SIZE: usize = 1280;

/// How long an onion key is used before it is replaced, in milliseconds.
pub const ONION_KEY_ROTATION_INTERVAL: u64 = 3600000;

/// Why an onion packet cannot be read, opened or built.
#[derive(Clone, Copy, Debug, PartialEq, Eq, Structural)]
pub enum OnionError {
    TooShort(u64),
    Length(PacketError),
    ExceedsCell(u64),
    PayloadTruncated,
    AuthenticationFailed,
    EmptyPayload,
    ForwardTruncated,
    DeliverTruncated,
    UnknownType(u8),
    EncryptLayer,
}

impl OnionError {
    /// The message that describes the error.
    pub open spec fn message(self) -> Seq<char> {
        match self {
            OnionError::TooShort(n) => "OnionPacket too short: "@ + decimal(n as nat),
            OnionError::Length(e) => e.message(),
            OnionError::ExceedsCell(n) => "OnionPacket aead_len "@ + decimal(n as nat)
                + " exceeds cell size 1280"@,
            OnionError::PayloadTruncated => "OnionPacket aead_payload truncated"@,
            OnionError::AuthenticationFailed =>
                "onion peel: AEAD authentication failed against all available keys"@,
            OnionError::EmptyPayload => "empty onion payload after decrypt"@,
            OnionError::ForwardTruncated => "onion forward payload truncated"@,
            OnionError::DeliverTruncated => "onion deliver payload truncated"@,
            OnionError::UnknownType(t) => "unknown onion type byte: "@ + decimal(t as nat),
            OnionError::EncryptLayer => "onion encrypt layer: Error"@,
        }
    }

    /// The message that describes the error.
    pub fn to_string(&self) -> (s: String)
        ensures
            s@ == self.message(),
    {
        let mut out: String = String::new();
        match *self {
            OnionError::TooShort(n) => {
                push_text(&mut out, "OnionPacket too short: ");
                push_decimal(&mut out, n);
            },
            OnionError::Length(e) => {
                return e.to_string();
            },
            OnionError::ExceedsCell(n) => {
                push_text(&mut out, "OnionPacket aead_len ");
                push_decimal(&mut out, n);
                push_text(&mut out, " exceeds cell size 1280");
            },
            OnionError::PayloadTruncated => push_text(
                &mut out,
                "OnionPacket aead_payload truncated",
            ),
            OnionError::AuthenticationFailed => push_text(
                &mut out,
                "onion peel: AEAD authentication failed against all available keys",
            ),
            OnionError::EmptyPayload => push_text(&mut out, "empty onion payload after decrypt"),
            OnionError::ForwardTruncated => push_text(&mut out, "onion forward payload truncated"),
            OnionError::DeliverTruncated => push_text(&mut out, "onion deliver payload truncated"),
            OnionError::UnknownType(t) => {
                push_text(&mut out, "unknown onion type byte: ");
                push_decimal(&mut out, t as u64);
            },
            OnionError::EncryptLayer => push_text(&mut out, "onion encrypt layer: Error"),
        }
        assert(out@ =~= self.message());
        out
    }
}

/// The nonce of every layer: each layer has a key of its own.
pub open spec fn zero_nonce() -> Seq<u8> {
    Seq::new(12, |i: int| 0u8)
}

fn make_zero_nonce() -> (n: [u8; 12])
    ensures
        n@ == zero_nonce(),
{
    let n: [u8; 12] = [0u8, 0, 0, 0, 0, 0, 0, 0, 0, 0, 0, 0];
    assert(n@ =~= zero_nonce());
    n
}

/// What the holder of `secret` finds in a layer. No layer is longer than the
/// cipher allows.
pub open spec fn opened_with(secret: Seq<u8>, epk: Seq<u8>, sealed: Seq<u8>) -> Option<Seq<u8>> {
    if sealed.len() <= AEAD_MAX_LEN + AEAD_TAG_LEN {
        aead_opened(x25519_shared(secret, epk), zero_nonce(), epk, sealed)
    } else {
        None
    }
}

/// The keys with which a node opens layers.
///
/// The current key is announced to others. The one before it is kept for one
/// more interval, so that packets under way at a rotation can still be opened.
/// The identity key serves senders that do not know the current key yet.
pub struct OnionKeyChain {
    current_priv: [u8; 32],
    current_pub: [u8; 32],
    previous_priv: Option<[u8; 32]>,
    rotated_at: u64,
    identity_x_priv: Option<[u8; 32]>,
}

/// The secrets of an [`OnionKeyChain`] and the time of the last rotation.
#[verifier::ext_equal]
pub struct KeyChainView {
    pub current: Seq<u8>,
    pub previous: Option<Seq<u8>>,
    pub identity: Option<Seq<u8>>,
    pub rotated_at: u64,
}

pub open spec fn opt_bytes(k: Option<[u8; 32]>) -> Option<Seq<u8>> {
    match k {
        Some(a) => Some(a@),
        None => None,
    }
}

impl View for OnionKeyChain {
    type V = KeyChainView;

    closed spec fn view(&self) -> KeyChainView {
        KeyChainView {
            current: self.current_priv@,
            previous: opt_bytes(self.previous_priv),
            identity: opt_bytes(self.identity_x_priv),
            rotated_at: self.rotated_at,
        }
    }
}

impl KeyChainView {
    /// What opening a layer gives: the current key is tried first, then the
    /// one before it, then the identity key.
    pub open spec fn opens(self, epk: Seq<u8>, sealed: Seq<u8>) -> Option<Seq<u8>> {
        if opened_with(self.current, epk, sealed) is Some {
            opened_with(self.current, epk, sealed)
        } else if self.previous is Some && opened_with(self.previous->0, epk, sealed) is Some {
            opened_with(self.previous->0, epk, sealed)
        } else if self.identity is Some {
            opened_with(self.identity->0, epk, sealed)
        } else {
            None
        }
    }
}

fn open_layer(secret: &[u8; 32], epk: &[u8; 32], sealed: &[u8]) -> (r: Option<Vec<u8>>)
    ensures
        match r {
            Some(v) => opened_with(secret@, epk@, sealed@) == Some(v@),
            None => opened_with(secret@, epk@, sealed@) is None,
        },
{
    if sealed.len() as u64 > AEAD_MAX_LEN + AEAD_TAG_LEN {
        return None;
    }
    let shared: [u8; 32] = x25519_agree(secret, epk);
    let nonce: [u8; 12] = make_zero_nonce();
    aead_open(&shared, &nonce, epk.as_slice(), sealed)
}

impl OnionKeyChain {
    pub closed spec fn wf(&self) -> bool {
        self.current_pub@ == x25519_public_key(self.current_priv@)
    }

    /// A chain whose current secret is `secret`.
    pub fn from_secret(secret: [u8; 32], now: u64) -> (k: OnionKeyChain)
        ensures
            k.wf(),
            k@ == (KeyChainView {
                current: secret@,
                previous: None,
                identity: None,
                rotated_at: now,
            }),
    {
        let current_pub: [u8; 32] = x25519_public(&secret);
        OnionKeyChain {
            current_priv: secret,
            current_pub,
            previous_priv: None,
            rotated_at: now,
            identity_x_priv: None,
        }
    }

    /// A chain with a fresh random key, at time `now` in milliseconds.
    pub fn new(now: u64) -> (k: OnionKeyChain)
        ensures
            k.wf(),
            k@.current.len() == 32,
            k@ == (KeyChainView {
                current: k@.current,
                previous: None,
                identity: None,
                rotated_at: now,
            }),
    {
        let secret: [u8; 32] = random_key();
        OnionKeyChain::from_secret(secret, now)
    }

    /// A chain with a fresh random key that also opens layers built for the
    /// X25519 form of the node's identity.
    pub fn with_identity_fallback(signing_key: &[u8; 32], now: u64) -> (k: OnionKeyChain)
        ensures
            k.wf(),
            k@.current.len() == 32,
            k@ == (KeyChainView {
                current: k@.current,
                previous: None,
                identity: Some(ed25519_secret_as_x25519(signing_key@)),
                rotated_at: now,
            }),
            ed25519_public_as_x25519(ed25519_public_key(signing_key@)) == Some(
                x25519_public_key(k@.identity->0),
            ),
    {
        let mut k: OnionKeyChain = OnionKeyChain::new(now);
        k.identity_x_priv = Some(ed25519_priv_to_x25519(signing_key));
        k
    }

    /// The public key to announce.
    pub fn pub_key(&self) -> (p: [u8; 32])
        requires
            self.wf(),
        ensures
            p@ == x25519_public_key(self@.current),
    {
        self.current_pub
    }

    /// Replace the current key by `secret`. The old current key becomes the
    /// previous one; the key that was the previous one is wiped.
    pub fn rotate_to(&mut self, secret: [u8; 32], now: u64)
        ensures
            final(self).wf(),
            final(self)@ == (KeyChainView {
                current: secret@,
                previous: Some(old(self)@.current),
                identity: old(self)@.identity,
                rotated_at: now,
            }),
    {
        let retired: [u8; 32] = self.current_priv;
        if let Some(gone) = &mut self.previous_priv {
            wipe(gone);
        }
        self.current_pub = x25519_public(&secret);
        self.current_priv = secret;
        self.previous_priv = Some(retired);
        self.rotated_at = now;
    }

    /// Replace the current key by a fresh random one.
    pub fn rotate(&mut self, now: u64)
        ensures
            final(self).wf(),
            final(self)@.current.len() == 32,
            final(self)@ == (KeyChainView {
                current: final(self)@.current,
                previous: Some(old(self)@.current),
                identity: old(self)@.identity,
                rotated_at: now,
            }),
    {
        let secret: [u8; 32] = random_key();
        self.rotate_to(secret, now);
    }

    /// Whether the current key is old enough to be replaced.
    pub fn due_for_rotation(&self, now: u64) -> (r: bool)
        ensures
            r == (now - self@.rotated_at >= ONION_KEY_ROTATION_INTERVAL),
            r == (now >= self@.rotated_at + 3_600_000),
    {
        now >= self.rotated_at && now - self.rotated_at >= ONION_KEY_ROTATION_INTERVAL
    }

    /// Open a layer with the first of the chain's keys that fits.
    pub fn try_decrypt(&self, epk: &[u8; 32], aead_payload: &[u8]) -> (r: Result<
        Vec<u8>,
        OnionError,
    >)
        ensures
            match self@.opens(epk@, aead_payload@) {
                Some(plain) => r matches Ok(v) && v@ == plain,
                None => r matches Err(e) && e == OnionError::AuthenticationFailed,
            },
    {
        if let Some(plain) = open_layer(&self.current_priv, epk, aead_payload) {
            return Ok(plain);
        }
        if let Some(prev) = &self.previous_priv {
            if let Some(plain) = open_layer(prev, epk, aead_payload) {
                return Ok(plain);
            }
        }
        if let Some(id_priv) = &self.identity_x_priv {
            if let Some(plain) = open_layer(id_priv, epk, aead_payload) {
                return Ok(plain);
            }
        }
        Err(OnionError::AuthenticationFailed)
    }
}

/// One layer of an onion, as a relay receives it.
#[derive(Clone, Debug)]
pub struct OnionPacket {
    /// Tag of the node that is to open the layer.
    pub routing_tag: [u8; 16],
    /// The sender's ephemeral X25519 key for this layer.
    pub epk: [u8; 32],
    /// The sealed layer.
    pub aead_payload: Vec<u8>,
}

/// The contents of an [`OnionPacket`].
#[verifier::ext_equal]
pub struct OnionView {
    pub routing_tag: Seq<u8>,
    pub epk: Seq<u8>,
    pub aead_payload: Seq<u8>,
}

impl View for OnionPacket {
    type V = OnionView;

    open spec fn view(&self) -> OnionView {
        OnionView {
            routing_tag: self.routing_tag@,
            epk: self.epk@,
            aead_payload: self.aead_payload@,
        }
    }
}

impl OnionView {
    /// The packet without type byte and padding.
    pub open spec fn wire(self) -> Seq<u8> {
        self.routing_tag + self.epk + uvarint(self.aead_payload.len()) + self.aead_payload
    }

    /// The packet as sent: with its type byte, and zeros up to the cell size.
    pub open spec fn cell(self) -> Seq<u8> {
        let bare = seq![TYPE_ONION] + self.wire();
        if bare.len() < ONION_CELL_SIZE {
            bare + Seq::new((ONION_CELL_SIZE - bare.len()) as nat, |i: int| 0u8)
        } else {
            bare
        }
    }

    pub open spec fn wf(self) -> bool {
        self.routing_tag.len() == 16 && self.epk.len() == 32
    }
}

/// What `s`, a packet without its type byte, says as an [`OnionPacket`].
pub open spec fn parse_onion(s: Seq<u8>) -> Result<OnionView, OnionError> {
    if s.len() < 48 {
        Err(OnionError::TooShort(s.len() as u64))
    } else {
        match parse_uvarint(s.skip(48)) {
            Err(e) => Err(OnionError::Length(e)),
            Ok((length, n)) => if length > ONION_CELL_SIZE {
                Err(OnionError::ExceedsCell(length))
            } else if s.len() < 48 + n + length {
                Err(OnionError::PayloadTruncated)
            } else {
                Ok(
                    OnionView {
                        routing_tag: s.subrange(0, 16),
                        epk: s.subrange(16, 48),
                        aead_payload: s.subrange(48 + n, 48 + n + length),
                    },
                )
            },
        }
    }
}

/// What a node finds when it opens a layer.
#[derive(Debug)]
pub enum PeeledOnion {
    /// The packet for the next hop, without its type byte.
    Forward(Vec<u8>),
    /// A traffic packet for this node, with its type byte.
    Deliver(Vec<u8>),
}

/// The contents of a [`PeeledOnion`].
pub enum PeeledView {
    Forward(Seq<u8>),
    Deliver(Seq<u8>),
}

impl View for PeeledOnion {
    type V = PeeledView;

    open spec fn view(&self) -> PeeledView {
        match self {
            PeeledOnion::Forward(v) => PeeledView::Forward(v@),
            PeeledOnion::Deliver(v) => PeeledView::Deliver(v@),
        }
    }
}

/// The plain form of a layer.
pub open spec fn layer_plain(kind: u8, content: Seq<u8>) -> Seq<u8> {
    seq![kind] + uvarint(content.len()) + content
}

/// What the plain form of a layer says.
pub open spec fn parse_layer(s: Seq<u8>) -> Result<PeeledView, OnionError> {
    if s.len() == 0 {
        Err(OnionError::EmptyPayload)
    } else if s[0] != ONION_FORWARD && s[0] != ONION_DELIVER {
        Err(OnionError::UnknownType(s[0]))
    } else {
        match parse_uvarint(s.skip(1)) {
            Err(e) => Err(OnionError::Length(e)),
            Ok((length, n)) => if s.len() < 1 + n + length {
                if s[0] == ONION_FORWARD {
                    Err(OnionError::ForwardTruncated)
                } else {
                    Err(OnionError::DeliverTruncated)
                }
            } else {
                let content = s.subrange(1 + n, 1 + n + length);
                if s[0] == ONION_FORWARD {
                    Ok(PeeledView::Forward(content))
                } else {
                    Ok(PeeledView::Deliver(content))
                }
            },
        }
    }
}

/// What a node with the keys `keys` makes of the packet `p`.
pub open spec fn peeled(keys: KeyChainView, p: OnionView) -> Result<PeeledView, OnionError> {
    match keys.opens(p.epk, p.aead_payload) {
        None => Err(OnionError::AuthenticationFailed),
        Some(plain) => parse_layer(plain),
    }
}

fn read_layer(buf: &[u8]) -> (r: Result<PeeledOnion, OnionError>)
    ensures
        match parse_layer(buf@) {
            Ok(v) => r matches Ok(p) && p@ == v,
            Err(e) => r matches Err(f) && f == e,
        },
{
    if buf.len() == 0 {
        return Err(OnionError::EmptyPayload);
    }
    let kind: u8 = buf[0];
    if kind != ONION_FORWARD && kind != ONION_DELIVER {
        return Err(OnionError::UnknownType(kind));
    }
    assert(buf@.subrange(1, buf@.len() as int) =~= buf@.skip(1));
    let (length, n) = match decode_uvarint(&buf[1..buf.len()]) {
        Ok(x) => x,
        Err(e) => {
            return Err(OnionError::Length(e));
        },
    };
    let start: usize = 1 + n;
    if length > (buf.len() - start) as u64 {
        if kind == ONION_FORWARD {
            return Err(OnionError::ForwardTruncated);
        }
        return Err(OnionError::DeliverTruncated);
    }
    let end: usize = start + length as usize;
    let mut content: Vec<u8> = Vec::new();
    append(&mut content, &buf[start..end]);
    assert(content@ =~= buf@.subrange(start as int, end as int));
    if kind == ONION_FORWARD {
        Ok(PeeledOnion::Forward(content))
    } else {
        Ok(PeeledOnion::Deliver(content))
    }
}

impl OnionPacket {
    /// The packet as sent: with its type byte, and zeros up to the cell size.
    pub fn encode(&self) -> (buf: Vec<u8>)
        ensures
            buf@ == self@.cell(),
    {
        let mut buf: Vec<u8> = self.encode_unpadded(true);
        let ghost bare = buf@;
        if buf.len() < ONION_CELL_SIZE {
            buf.resize(ONION_CELL_SIZE, 0u8);
            proof {
                assert(buf@.subrange(0, bare.len() as int) == bare);
                assert forall|i: int| 0 <= i < bare.len() implies buf@[i] == bare[i] by {
                    assert(buf@.subrange(0, bare.len() as int)[i] == bare[i]);
                }
            }
        }
        assert(buf@ =~= self@.cell());
        buf
    }

    /// The packet without padding, with or without its type byte.
    pub fn encode_unpadded(&self, with_type_byte: bool) -> (buf: Vec<u8>)
        ensures
            buf@ == if with_type_byte {
                seq![TYPE_ONION] + self@.wire()
            } else {
                self@.wire()
            },
    {
        let mut buf: Vec<u8> = Vec::with_capacity(ONION_CELL_SIZE);
        if with_type_byte {
            buf.push(TYPE_ONION);
        }
        append(&mut buf, self.routing_tag.as_slice());
        append(&mut buf, self.epk.as_slice());
        encode_uvarint(self.aead_payload.len() as u64, &mut buf);
        append(&mut buf, self.aead_payload.as_slice());
        assert(buf@ =~= if with_type_byte {
            seq![TYPE_ONION] + self@.wire()
        } else {
            self@.wire()
        });
        buf
    }

    /// The packet without type byte and padding, as another layer holds it.
    pub fn encode_inner(&self) -> (buf: Vec<u8>)
        ensures
            buf@ == self@.wire(),
    {
        self.encode_unpadded(false)
    }

    /// Read a packet without its type byte. Bytes after the sealed layer are
    /// padding.
    pub fn decode(data: &[u8]) -> (r: Result<OnionPacket, OnionError>)
        ensures
            match parse_onion(data@) {
                Ok(v) => r matches Ok(p) && p@ == v,
                Err(e) => r matches Err(f) && f == e,
            },
    {
        if data.len() < 48 {
            return Err(OnionError::TooShort(data.len() as u64));
        }
        let routing_tag: [u8; 16] = read_array(data, 0);
        let epk: [u8; 32] = read_array(data, 16);
        assert(data@.subrange(48, data@.len() as int) =~= data@.skip(48));
        let (length, n) = match decode_uvarint(&data[48..data.len()]) {
            Ok(x) => x,
            Err(e) => {
                return Err(OnionError::Length(e));
            },
        };
        let pos: usize = 48 + n;
        if length > ONION_CELL_SIZE as u64 {
            return Err(OnionError::ExceedsCell(length));
        }
        if length as usize > data.len() - pos {
            return Err(OnionError::PayloadTruncated);
        }
        let end: usize = pos + length as usize;
        let mut aead_payload: Vec<u8> = Vec::new();
        append(&mut aead_payload, &data[pos..end]);
        assert(aead_payload@ =~= data@.subrange(pos as int, end as int));
        Ok(OnionPacket { routing_tag, epk, aead_payload })
    }

    /// Open the layer with the keys of this node.
    pub fn peel(&self, keys: &OnionKeyChain) -> (r: Result<PeeledOnion, OnionError>)
        ensures
            match peeled(keys@, self@) {
                Ok(v) => r matches Ok(p) && p@ == v,
                Err(e) => r matches Err(f) && f == e,
            },
    {
        match keys.try_decrypt(&self.epk, self.aead_payload.as_slice()) {
            Ok(plain) => read_layer(plain.as_slice()),
            Err(e) => Err(e),
        }
    }
}

/// One node of an onion route: its identity, which gives the routing tag, and
/// its announced X25519 key, for which its layer is sealed.
#[derive(Clone, Debug)]
pub struct OnionHop {
    pub identity_ed_pub: [u8; 32],
    pub ephemeral_x_pub: [u8; 32],
}

/// Whoever holds the secret of `hop` finds `plain` in the layer of `p`.
pub open spec fn sealed_for(p: OnionView, hop: OnionHop, plain: Seq<u8>) -> bool {
    forall|secret: Seq<u8>|
        #![trigger x25519_public_key(secret)]
        secret.len() == 32 && x25519_public_key(secret) == hop.ephemeral_x_pub@ ==> opened_with(
            secret,
            p.epk,
            p.aead_payload,
        ) == Some(plain)
}

/// The layer of `p` is for `hop`, which finds `plain` in it.
pub open spec fn hop_layer(p: OnionView, hop: OnionHop, plain: Seq<u8>) -> bool {
    &&& p.wf()
    &&& p.routing_tag == tag_of(hop.identity_ed_pub@)
    &&& p.aead_payload.len() == plain.len() + 16
    &&& sealed_for(p, hop, plain)
}

/// In the packet for hop `i` of a route the relay finds that of the next hop.
pub open spec fn relay_layer(chain: Seq<OnionView>, relays: Seq<OnionHop>, i: int) -> bool {
    hop_layer(chain[i], relays[i], layer_plain(ONION_FORWARD, chain[i + 1].wire()))
}

/// `chain` holds the packet for each hop of a route: each relay finds in its
/// packet that of the next hop, and the destination finds `traffic`.
pub open spec fn route_chain(
    chain: Seq<OnionView>,
    relays: Seq<OnionHop>,
    dest: OnionHop,
    traffic: Seq<u8>,
) -> bool {
    &&& chain.len() == relays.len() + 1
    &&& forall|i: int| 0 <= i < relays.len() ==> #[trigger] relay_layer(chain, relays, i)
    &&& hop_layer(chain.last(), dest, layer_plain(ONION_DELIVER, traffic))
}

/// `p` takes `traffic` through `relays`, in their order, to `dest`: each hop
/// is addressed by its tag and finds in its layer what the next hop needs.
pub open spec fn routes(
    p: OnionView,
    relays: Seq<OnionHop>,
    dest: OnionHop,
    traffic: Seq<u8>,
) -> bool {
    exists|chain: Seq<OnionView>| #[trigger]
        route_chain(chain, relays, dest, traffic) && chain[0] == p
}

/// Whether a layer with `length` bytes of content can be sealed.
pub open spec fn layer_fits(length: nat) -> bool {
    1 + uvarint(length).len() + length <= AEAD_MAX_LEN
}

/// The length of a sealed layer with `length` bytes of content.
pub open spec fn sealed_len(length: nat) -> nat {
    17 + uvarint(length).len() + length
}

/// The length of a packet, without type byte and padding, whose layer has
/// `length` bytes of content.
pub open spec fn packet_len(length: nat) -> nat {
    48 + uvarint(sealed_len(length)).len() + sealed_len(length)
}

/// The length of the innermost `n` relay layers around `length` bytes.
pub open spec fn nested_len(n: nat, length: nat) -> nat
    decreases n,
{
    if n == 0 {
        length
    } else {
        packet_len(nested_len((n - 1) as nat, length))
    }
}

/// Whether a route of `n` relays can take `length` bytes.
pub open spec fn onion_fits(n: nat, length: nat) -> bool {
    forall|i: nat| i <= n ==> #[trigger] layer_fits(nested_len(i, length))
}

/// Seal one layer for `target` with the ephemeral secret `epk_priv`.
fn build_layer_with(target: &OnionHop, kind: u8, content: &[u8], epk_priv: &[u8; 32]) -> (r: Result<
    OnionPacket,
    OnionError,
>)
    ensures
        r is Ok <==> layer_fits(content@.len()),
        r matches Ok(p) ==> {
            &&& hop_layer(p@, *target, layer_plain(kind, content@))
            &&& p@.epk == x25519_public_key(epk_priv@)
            &&& p@.wire().len() == packet_len(content@.len())
        },
        r matches Err(e) ==> e == OnionError::EncryptLayer,
{
    let tag: [u8; 16] = routing_tag(&target.identity_ed_pub);
    let epk: [u8; 32] = x25519_public(epk_priv);
    let shared: [u8; 32] = x25519_agree(epk_priv, &target.ephemeral_x_pub);
    let nonce: [u8; 12] = make_zero_nonce();
    let mut plain: Vec<u8> = vec![kind];
    encode_uvarint(content.len() as u64, &mut plain);
    append(&mut plain, content);
    assert(plain@ =~= layer_plain(kind, content@));
    if plain.len() as u64 > AEAD_MAX_LEN {
        return Err(OnionError::EncryptLayer);
    }
    match aead_seal(&shared, &nonce, epk.as_slice(), plain.as_slice()) {
        Some(aead_payload) => Ok(OnionPacket { routing_tag: tag, epk, aead_payload }),
        None => Err(OnionError::EncryptLayer),
    }
}

/// Seal one layer for `target` with a fresh ephemeral key.
fn build_layer(target: &OnionHop, kind: u8, content: &[u8]) -> (r: Result<OnionPacket, OnionError>)
    ensures
        r is Ok <==> layer_fits(content@.len()),
        r matches Ok(p) ==> {
            &&& hop_layer(p@, *target, layer_plain(kind, content@))
            &&& p@.wire().len() == packet_len(content@.len())
        },
        r matches Err(e) ==> e == OnionError::EncryptLayer,
{
    let epk_priv: [u8; 32] = random_key();
    build_layer_with(target, kind, content, &epk_priv)
}

/// Wrap `traffic_bytes`, an encoded traffic packet with its type byte, for a
/// route through `relays`, in their order, to `dest`. The result is addressed
/// to the first hop. Its size depends on the length of the traffic and on the
/// number of relays alone.
pub fn build_onion(relays: &[OnionHop], dest: &OnionHop, traffic_bytes: Vec<u8>) -> (r: Result<
    OnionPacket,
    OnionError,
>)
    ensures
        r is Ok <==> onion_fits(relays@.len(), traffic_bytes@.len()),
        r matches Ok(p) ==> {
            &&& routes(p@, relays@, *dest, traffic_bytes@)
            &&& p@.routing_tag == tag_of(
                if relays@.len() == 0 {
                    dest.identity_ed_pub@
                } else {
                    relays@[0].identity_ed_pub@
                },
            )
            &&& p@.aead_payload.len() == sealed_len(
                nested_len(relays@.len(), traffic_bytes@.len()),
            )
            &&& p@.wire().len() == nested_len((relays@.len() + 1) as nat, traffic_bytes@.len())
        },
        r matches Err(e) ==> e == OnionError::EncryptLayer,
{
    let ghost traffic = traffic_bytes@;
    let ghost n = traffic_bytes@.len();
    let mut current: OnionPacket = match build_layer(dest, ONION_DELIVER, traffic_bytes.as_slice()) {
        Ok(p) => p,
        Err(e) => {
            assert(!layer_fits(nested_len(0, n)));
            return Err(e);
        },
    };
    let mut i: usize = relays.len();
    let ghost mut chain = seq![current@];
    proof {
        assert(relays@.skip(i as int) =~= Seq::<OnionHop>::empty());
        lemma_nested(0, n);
    }
    while i > 0
        invariant
            i <= relays@.len(),
            traffic == traffic_bytes@,
            n == traffic.len(),
            route_chain(chain, relays@.skip(i as int), *dest, traffic),
            chain[0] == current@,
            current@.wire().len() == nested_len((relays@.len() - i + 1) as nat, n),
            onion_fits((relays@.len() - i) as nat, n),
        decreases i,
    {
        i = i - 1;
        let inner_bytes: Vec<u8> = current.encode_inner();
        let ghost k = (relays@.len() - i) as nat;
        proof {
            lemma_nested(k, n);
        }
        match build_layer(&relays[i], ONION_FORWARD, inner_bytes.as_slice()) {
            Ok(p) => {
                proof {
                    assert(relays@.skip(i as int).skip(1) =~= relays@.skip(i + 1));
                    lemma_route_cons(chain, relays@.skip(i as int), *dest, traffic, p@);
                    chain = seq![p@] + chain;
                }
                current = p;
            },
            Err(e) => {
                assert(!layer_fits(nested_len(k, n)));
                assert(!onion_fits(relays@.len(), n));
                return Err(e);
            },
        }
    }
    proof {
        assert(relays@.skip(0) =~= relays@);
        onions_have_one_size(current@, relays@, *dest, traffic);
        if relays@.len() > 0 {
            assert(relay_layer(chain, relays@, 0));
        }
    }
    Ok(current)
}

proof fn lemma_nested(k: nat, n: nat)
    ensures
        nested_len(k + 1, n) == packet_len(nested_len(k, n)),
{
}

proof fn lemma_route_cons(
    chain: Seq<OnionView>,
    relays: Seq<OnionHop>,
    dest: OnionHop,
    traffic: Seq<u8>,
    p: OnionView,
)
    requires
        relays.len() > 0,
        route_chain(chain, relays.skip(1), dest, traffic),
        hop_layer(p, relays[0], layer_plain(ONION_FORWARD, chain[0].wire())),
    ensures
        route_chain(seq![p] + chain, relays, dest, traffic),
{
    let more = seq![p] + chain;
    assert(more.last() == chain.last());
    assert forall|i: int| 0 <= i < relays.len() implies #[trigger] relay_layer(more, relays, i) by {
        if i > 0 {
            assert(relay_layer(chain, relays.skip(1), i - 1));
            assert(relays.skip(1)[i - 1] == relays[i]);
            assert(more[i] == chain[i - 1]);
            assert(more[i + 1] == chain[i]);
        }
    }
}

proof fn lemma_route_rest(
    chain: Seq<OnionView>,
    relays: Seq<OnionHop>,
    dest: OnionHop,
    traffic: Seq<u8>,
)
    requires
        relays.len() > 0,
        route_chain(chain, relays, dest, traffic),
    ensures
        route_chain(chain.skip(1), relays.skip(1), dest, traffic),
{
    let rest = chain.skip(1);
    assert(rest.last() == chain.last());
    assert forall|i: int| 0 <= i < relays.skip(1).len() implies #[trigger] relay_layer(
        rest,
        relays.skip(1),
        i,
    ) by {
        assert(relay_layer(chain, relays, i + 1));
        assert(rest[i] == chain[i + 1]);
        assert(rest[i + 1] == chain[i + 2]);
        assert(relays.skip(1)[i] == relays[i + 1]);
    }
}

/// The size of a packet depends on the length of the traffic and on the number of
/// relays alone.
pub proof fn onions_have_one_size(
    p: OnionView,
    relays: Seq<OnionHop>,
    dest: OnionHop,
    traffic: Seq<u8>,
)
    requires
        routes(p, relays, dest, traffic),
    ensures
        p.aead_payload.len() == sealed_len(nested_len(relays.len(), traffic.len())),
        p.wire().len() == nested_len(relays.len() + 1, traffic.len()),
    decreases relays.len(),
{
    let chain = choose|chain: Seq<OnionView>| #[trigger]
        route_chain(chain, relays, dest, traffic) && chain[0] == p;
    if relays.len() > 0 {
        let rest = chain.skip(1);
        lemma_route_rest(chain, relays, dest, traffic);
        assert(routes(rest[0], relays.skip(1), dest, traffic));
        onions_have_one_size(rest[0], relays.skip(1), dest, traffic);
        assert(relay_layer(chain, relays, 0));
    }
    lemma_nested(relays.len(), traffic.len());
}

/// An onion packet reads back as itself, padding or not, where its layer fits
/// in a cell.
pub proof fn onion_round_trip(v: OnionView, rest: Seq<u8>)
    requires
        v.wf(),
        v.aead_payload.len() <= ONION_CELL_SIZE,
    ensures
        parse_onion(v.wire() + rest) == Ok::<OnionView, OnionError>(v),
        parse_onion(v.cell().skip(1)) == Ok::<OnionView, OnionError>(v),
{
    lemma_parse_onion(v, rest);
    let bare = seq![TYPE_ONION] + v.wire();
    let pad = v.cell().skip(bare.len() as int);
    assert(v.cell().skip(1) =~= v.wire() + pad);
    lemma_parse_onion(v, pad);
}

proof fn lemma_parse_onion(v: OnionView, rest: Seq<u8>)
    requires
        v.wf(),
        v.aead_payload.len() <= ONION_CELL_SIZE,
    ensures
        parse_onion(v.wire() + rest) == Ok::<OnionView, OnionError>(v),
{
    let s = v.wire() + rest;
    let a = uvarint(v.aead_payload.len());
    let i: int = 48 + a.len() as int;
    assert(s.skip(48) =~= a + (v.aead_payload + rest));
    uvarint_round_trip(v.aead_payload.len() as u64, v.aead_payload + rest);
    assert(s.subrange(i, i + v.aead_payload.len()) =~= v.aead_payload);
    assert(s.subrange(0, 16) =~= v.routing_tag);
    assert(s.subrange(16, 48) =~= v.epk);
}

/// Packets that fit in a cell all have the size of a cell on the wire, however
/// many layers they hold.
pub proof fn cells_have_one_size(v: OnionView)
    requires
        v.wire().len() < ONION_CELL_SIZE,
    ensures
        v.cell().len() == ONION_CELL_SIZE,
        v.cell()[0] == TYPE_ONION,
{
}

/// Reading the plain form of a layer gives its content.
pub proof fn layer_round_trip(content: Seq<u8>)
    requires
        content.len() <= u64::MAX,
    ensures
        parse_layer(layer_plain(ONION_FORWARD, content)) == Ok::<PeeledView, OnionError>(
            PeeledView::Forward(content),
        ),
        parse_layer(layer_plain(ONION_DELIVER, content)) == Ok::<PeeledView, OnionError>(
            PeeledView::Deliver(content),
        ),
{
    let a = uvarint(content.len());
    let i: int = 1 + a.len() as int;
    uvarint_round_trip(content.len() as u64, content);
    let f = layer_plain(ONION_FORWARD, content);
    assert(f.skip(1) =~= a + content);
    assert(f.subrange(i, i + content.len()) =~= content);
    let d = layer_plain(ONION_DELIVER, content);
    assert(d.skip(1) =~= a + content);
    assert(d.subrange(i, i + content.len()) =~= content);
}

/// The destination of a route without relays gets the traffic that the sender
/// wrapped.
pub proof fn destination_gets_the_traffic(
    p: OnionView,
    dest: OnionHop,
    traffic: Seq<u8>,
    keys: KeyChainView,
)
    requires
        routes(p, Seq::empty(), dest, traffic),
        traffic.len() <= u64::MAX,
        keys.current.len() == 32,
        x25519_public_key(keys.current) == dest.ephemeral_x_pub@,
    ensures
        peeled(keys, p) == Ok::<PeeledView, OnionError>(PeeledView::Deliver(traffic)),
{
    let chain = choose|chain: Seq<OnionView>| #[trigger]
        route_chain(chain, Seq::empty(), dest, traffic) && chain[0] == p;
    assert(hop_layer(chain.last(), dest, layer_plain(ONION_DELIVER, traffic)));
    layer_round_trip(traffic);
}

/// A node also opens what was sealed for the X25519 form of its identity, unless
/// a key that comes first opens it.
pub proof fn destination_is_reached_by_its_identity(
    p: OnionView,
    dest: OnionHop,
    traffic: Seq<u8>,
    keys: KeyChainView,
)
    requires
        routes(p, Seq::empty(), dest, traffic),
        traffic.len() <= u64::MAX,
        keys.identity matches Some(secret) && secret.len() == 32 && x25519_public_key(secret)
            == dest.ephemeral_x_pub@,
        opened_with(keys.current, p.epk, p.aead_payload) is None,
        keys.previous matches Some(k) ==> opened_with(k, p.epk, p.aead_payload) is None,
    ensures
        peeled(keys, p) == Ok::<PeeledView, OnionError>(PeeledView::Deliver(traffic)),
{
    let chain = choose|chain: Seq<OnionView>| #[trigger]
        route_chain(chain, Seq::empty(), dest, traffic) && chain[0] == p;
    assert(hop_layer(chain.last(), dest, layer_plain(ONION_DELIVER, traffic)));
    layer_round_trip(traffic);
}

/// The first relay of a route finds the packet for the rest of the route, and
/// the next hop can read that packet where it fits in a cell.
pub proof fn relay_gets_the_rest_of_the_route(
    p: OnionView,
    relays: Seq<OnionHop>,
    dest: OnionHop,
    traffic: Seq<u8>,
    keys: KeyChainView,
)
    requires
        relays.len() > 0,
        routes(p, relays, dest, traffic),
        keys.current.len() == 32,
        x25519_public_key(keys.current) == relays[0].ephemeral_x_pub@,
    ensures
        exists|inner: OnionView| #[trigger]
            routes(inner, relays.skip(1), dest, traffic) && (inner.wire().len() <= u64::MAX
                ==> peeled(keys, p) == Ok::<PeeledView, OnionError>(
                PeeledView::Forward(inner.wire()),
            )) && (inner.aead_payload.len() <= ONION_CELL_SIZE ==> parse_onion(inner.wire()) == Ok::<
                OnionView,
                OnionError,
            >(inner)),
{
    let chain = choose|chain: Seq<OnionView>| #[trigger]
        route_chain(chain, relays, dest, traffic) && chain[0] == p;
    assert(relay_layer(chain, relays, 0));
    let rest = chain.skip(1);
    let inner = rest[0];
    lemma_route_rest(chain, relays, dest, traffic);
    assert(inner.wf()) by {
        if relays.len() > 1 {
            assert(relay_layer(chain, relays, 1));
        }
    }
    assert(routes(inner, relays.skip(1), dest, traffic));
    if inner.wire().len() <= u64::MAX {
        layer_round_trip(inner.wire());
    }
    if inner.aead_payload.len() <= ONION_CELL_SIZE {
        lemma_parse_onion(inner, Seq::empty());
        assert(inner.wire() + Seq::<u8>::empty() =~= inner.wire());
    }
}

/// A rotation keeps the key before it in use: what the old current key opened
/// is still opened, unless the new key opens it too. A second rotation drops
/// that key from the chain.
pub proof fn rotation_keeps_the_last_key_once(
    before: KeyChainView,
    once: KeyChainView,
    twice: KeyChainView,
    epk: Seq<u8>,
    sealed: Seq<u8>,
)
    requires
        once.previous == Some(before.current),
        twice.previous == Some(once.current),
        twice.identity == before.identity,
    ensures
        opened_with(before.current, epk, sealed) is Some && opened_with(once.current, epk, sealed)
            is None ==> once.opens(epk, sealed) == opened_with(before.current, epk, sealed),
        opened_with(twice.current, epk, sealed) is None && opened_with(once.current, epk, sealed)
            is None && before.identity is None ==> twice.opens(epk, sealed) is None,
{
}

/// A chain opens exactly what one of its keys opens, and gives what the first of them
/// finds.
pub proof fn layers_open_with_any_key_of_the_chain(
    keys: KeyChainView,
    epk: Seq<u8>,
    sealed: Seq<u8>,
)
    ensures
        keys.opens(epk, sealed) is Some <==> {
            ||| opened_with(keys.current, epk, sealed) is Some
            ||| keys.previous is Some && opened_with(keys.previous->0, epk, sealed) is Some
            ||| keys.identity is Some && opened_with(keys.identity->0, epk, sealed) is Some
        },
        opened_with(keys.current, epk, sealed) is Some ==> keys.opens(epk, sealed) == opened_with(
            keys.current,
            epk,
            sealed,
        ),
        opened_with(keys.current, epk, sealed) is None && keys.previous is Some && opened_with(
            keys.previous->0,
            epk,
            sealed,
        ) is Some ==> keys.opens(epk, sealed) == opened_with(keys.previous->0, epk, sealed),
{
}

/// Every cell that holds a packet short enough is 1280 bytes long, and starts with the type,
/// the routing tag and the ephemeral key.
pub proof fn cells_start_with_the_tag(v: OnionView)
    requires
        v.wf(),
    ensures
        v.wire().len() < 1280 ==> v.cell().len() == 1280,
        v.cell()[0] == TYPE_ONION,
        v.cell().subrange(1, 17) == v.routing_tag,
        v.cell().subrange(17, 49) == v.epk,
{
    assert(v.cell().subrange(1, 17) =~= v.routing_tag);
    assert(v.cell().subrange(17, 49) =~= v.epk);
}

} // verus!
