//! Payload padding, private headers, tree metrics, and the constants of the
//! routing state machine.

use crate::bytes::{append, append_ascii, append_le, ascii, le_bytes, le_value, read_array, read_le};
use crate::crypto::{
    aead_open, aead_opened, aead_seal, ed25519_priv_to_x25519, ed25519_pub_to_x25519,
    ed25519_public_as_x25519, ed25519_public_key, ed25519_secret_as_x25519, random_key, tag_ct_eq,
    x25519_agree, x25519_public, x25519_public_key, x25519_shared,
};
use crate::hash::{blake2b_32, digest_32};
use crate::packet::{routing_tag, tag_of};
use crate::text::{
    decimal, parse_number, parsed_number, push_decimal, push_text, text_eq, trim, trimmed,
};
use vstd::prelude::*;

verus! {

broadcast use vstd::array::group_array_axioms;

/// Number of spanning trees.
pub const K: usize = 3;

/// How long an announcement counts, in microseconds.
pub const ANNOUNCE_EXPIRY: u64 = 30000000;

/// A ping goes out every so many ticks.
pub const KEEPALIVE_TICKS: u32 = 5;

/// A peer that is silent for longer is dropped, in microseconds.
pub const PEER_TIMEOUT: u64 = 60000000;

/// A session key is replaced every so many messages.
pub const KEY_ROTATION_INTERVAL: u64 = 100;

/// The generation of the own filters rises every so many ticks.
pub const CUCKOO_GEN_TICKS: u32 = 300;

/// How many lookups are remembered.
pub const MAX_PENDING_LOOKUPS: usize = 10000;

/// How long a lookup is remembered, in microseconds.
pub const LOOKUP_EXPIRY: u64 = 10000000;

/// A session that is idle for longer is dropped, in microseconds.
pub const SESSION_IDLE_EXPIRY: u64 = 300000000;

/// How many hops a packet may take.
pub const MAX_FORWARD_HOPS: u64 = 32;

/// How many coordinates are remembered.
pub const MAX_COORD_TABLE_SIZE: usize = 16384;

/// How many packets for other nodes are held back at a time.
pub const MAX_INFLIGHT_FORWARDS: usize = 4096;

/// How many onion digests are remembered.
pub const ONION_REPLAY_CACHE_SIZE: usize = 4096;

/// The onion key is replaced every so many ticks.
pub const ONION_KEY_ROTATION_TICKS: u32 = 3600;

/// Reputation reports go out every so many ticks.
pub const REPUTATION_REPORT_TICKS: u32 = 60;

/// Age above which a reputation report is ignored, in milliseconds.
pub const REPUTATION_VALIDITY_MS: u64 = 3600000;

/// How many observations are remembered.
pub const MAX_REPUTATION_OBSERVATIONS: usize = 16384;

/// The own onion key is announced every so many ticks.
pub const ONION_KEY_ANNOUNCE_TICKS: u32 = 300;

/// Age above which an onion key announcement is ignored, in milliseconds.
pub const ONION_KEY_VALIDITY_MS: u64 = 86400000;

/// How far ahead of the own clock a signed time may be, in milliseconds.
pub const CLOCK_SKEW_MS: u64 = 60000;

/// How many onion keys of other nodes are remembered.
pub const MAX_REMOTE_ONION_KEYS: usize = 16384;

/// A probe goes out every so many ticks.
pub const PROBE_INTERVAL_TICKS: u32 = 15;

/// How long a negative route is remembered, in microseconds.
pub const PATH_NEG_TTL: u64 = 60000000;

/// How many negative routes are remembered.
pub const MAX_PATH_NEG_CACHE: usize = 16384;

/// How many hops a negative-route notice may take.
pub const PATH_NEG_INITIAL_TTL: u8 = 4;

/// How many observers it takes for a consensus.
pub const REPUTATION_MIN_QUORUM: usize = 3;

/// The difficulty of an observer's key from which on its vote weighs most.
pub const REPUTATION_WEIGHT_BITS: u32 = 16;

/// How long the answer to a probe may take, in microseconds.
pub const PROBE_TIMEOUT: u64 = 10000000;

/// How many links there may be to one peer.
pub const MAX_PARALLEL_LINKS_PER_PEER: usize = 8;

/// Payloads are padded to a multiple of this.
pub const PAD_BLOCK: usize = 256;

/// Length of a tree epoch in seconds.
pub const TREE_EPOCH_SECS: u64 = 86400;

/// Largest payload that a connection takes.
pub const MTU: u64 = 65000;

/// A node, by its Ed25519 public key.
pub type PeerId = [u8; 32];

/// A padded payload that does not hold what it says.
#[derive(Clone, Copy, Debug, PartialEq, Eq, Structural)]
pub enum UnpadError {
    TooShort,
    Length(u64, u64),
}

impl UnpadError {
    /// The message that describes the error.
    pub open spec fn message(self) -> Seq<char> {
        match self {
            UnpadError::TooShort => "unpad: too short"@,
            UnpadError::Length(n, got) => "unpad: length field "@ + decimal(n as nat)
                + " > available "@ + decimal(got as nat),
        }
    }

    /// The message that describes the error.
    pub fn to_string(&self) -> (s: String)
        ensures
            s@ == self.message(),
    {
        let mut out: String = String::new();
        match *self {
            UnpadError::TooShort => push_text(&mut out, "unpad: too short"),
            UnpadError::Length(n, got) => {
                push_text(&mut out, "unpad: length field ");
                push_decimal(&mut out, n);
                push_text(&mut out, " > available ");
                push_decimal(&mut out, got);
            },
        }
        assert(out@ =~= self.message());
        out
    }
}

/// The length of a payload of `n` bytes once it is padded.
pub open spec fn padded_len(n: nat) -> nat {
    ((n + 2 + 255) / 256) * 256
}

/// A padded payload: its length in two bytes, the payload, and zeros up to a
/// multiple of the block size.
pub open spec fn padded(data: Seq<u8>) -> Seq<u8> {
    le_bytes(data.len(), 2) + data + Seq::new(
        (padded_len(data.len()) - 2 - data.len()) as nat,
        |i: int| 0u8,
    )
}

/// What a padded payload holds.
pub open spec fn unpadded(s: Seq<u8>) -> Result<Seq<u8>, UnpadError> {
    if s.len() < 2 {
        Err(UnpadError::TooShort)
    } else {
        let n = le_value(s.take(2));
        if s.len() < 2 + n {
            Err(UnpadError::Length(n as u64, (s.len() - 2) as u64))
        } else {
            Ok(s.subrange(2, 2 + n as int))
        }
    }
}

/// Pad a payload. Its length has to fit in two bytes.
pub fn pad_payload(data: &[u8]) -> (out: Vec<u8>)
    requires
        data@.len() <= 65535,
    ensures
        out@ == padded(data@),
{
    let mut out: Vec<u8> = Vec::with_capacity(PAD_BLOCK);
    append_le(&mut out, data.len() as u64, 2);
    append(&mut out, data);
    proof {
        crate::bytes::le_value_of_le_bytes(data@.len(), 2);
    }
    let ghost body = out@;
    let target: usize = ((data.len() + 2 + 255) / 256) * 256;
    assert(target == padded_len(data@.len()));
    out.resize(target, 0u8);
    proof {
        assert(out@.subrange(0, body.len() as int) == body);
        assert forall|i: int| 0 <= i < body.len() implies out@[i] == body[i] by {
            assert(out@.subrange(0, body.len() as int)[i] == body[i]);
        }
    }
    assert(out@ =~= padded(data@));
    out
}

/// Take the padding off.
pub fn unpad_payload(data: &[u8]) -> (r: Result<Vec<u8>, UnpadError>)
    ensures
        match unpadded(data@) {
            Ok(v) => r matches Ok(w) && w@ == v,
            Err(e) => r matches Err(f) && f == e,
        },
{
    if data.len() < 2 {
        return Err(UnpadError::TooShort);
    }
    assert(data@.subrange(0, 2) =~= data@.take(2));
    let length: u64 = read_le(&data[0..2]);
    if length > (data.len() - 2) as u64 {
        return Err(UnpadError::Length(length, (data.len() - 2) as u64));
    }
    let end: usize = 2 + length as usize;
    let mut out: Vec<u8> = Vec::new();
    append(&mut out, &data[2..end]);
    assert(out@ =~= data@.subrange(2, end as int));
    Ok(out)
}

/// Taking the padding off a padded payload gives the payload, and its padded
/// length says no more of its length than the number of blocks.
pub proof fn pad_round_trip(data: Seq<u8>)
    requires
        data.len() <= 65535,
    ensures
        unpadded(padded(data)) == Ok::<Seq<u8>, UnpadError>(data),
        padded(data).len() % 256 == 0,
        padded(data).len() >= 256,
        data.len() + 2 <= padded(data).len() < data.len() + 2 + 256,
{
    let s = padded(data);
    crate::bytes::le_value_of_le_bytes(data.len(), 2);
    reveal_with_fuel(crate::bytes::pow256, 3);
    assert(s.take(2) =~= le_bytes(data.len(), 2));
    assert(s.subrange(2, 2 + data.len() as int) =~= data);
}

/// The nonce under which the destination is sealed in a header.
pub open spec fn dest_nonce() -> Seq<u8> {
    Seq::new(
        12,
        |i: int|
            if i == 0 {
                1u8
            } else {
                0u8
            },
    )
}

/// The nonce under which the source is sealed in a header.
pub open spec fn source_nonce() -> Seq<u8> {
    Seq::new(12, |i: int| 0u8)
}

/// What the node with the secret `seed` finds in the part `lo..hi` of a header.
pub open spec fn header_part(
    seed: Seq<u8>,
    header: Seq<u8>,
    nonce: Seq<u8>,
    lo: int,
    hi: int,
) -> Option<Seq<u8>> {
    let epk = header.subrange(0, 32);
    aead_opened(
        x25519_shared(ed25519_secret_as_x25519(seed), epk),
        nonce,
        epk,
        header.subrange(lo, hi),
    )
}

/// The source that the node with the secret `seed` finds in a header.
pub open spec fn header_source(seed: Seq<u8>, header: Seq<u8>) -> Option<Seq<u8>> {
    header_part(seed, header, source_nonce(), 32, 80)
}

/// The destination that the node with the secret `seed` finds in a header.
pub open spec fn header_dest(seed: Seq<u8>, header: Seq<u8>) -> Option<Seq<u8>> {
    header_part(seed, header, dest_nonce(), 80, 128)
}

/// Whoever holds the secret of `dest` finds `source` and `dest` in the header.
pub open spec fn header_for(header: Seq<u8>, source: Seq<u8>, dest: Seq<u8>) -> bool {
    forall|seed: Seq<u8>|
        #![trigger ed25519_public_key(seed)]
        seed.len() == 32 && ed25519_public_key(seed) == dest ==> header_source(seed, header)
            == Some(source) && header_dest(seed, header) == Some(dest)
}

/// The header and the tag of a packet from `source` to `dest`. Where `dest` is no
/// public key they are zeros; the public key of a secret is one.
pub open spec fn header_made(
    source: Seq<u8>,
    dest: Seq<u8>,
    header: Seq<u8>,
    tag: Seq<u8>,
) -> bool {
    &&& header.len() == 128
    &&& match ed25519_public_as_x25519(dest) {
        Some(x) => tag == tag_of(dest) && header_for(header, source, dest),
        None => header == Seq::new(128, |i: int| 0u8) && tag == Seq::new(16, |i: int| 0u8),
    }
    &&& forall|seed: Seq<u8>|
        seed.len() == 32 && #[trigger] ed25519_public_key(seed) == dest
            ==> ed25519_public_as_x25519(dest) is Some
}

fn nonces() -> (r: ([u8; 12], [u8; 12]))
    ensures
        r.0@ == source_nonce(),
        r.1@ == dest_nonce(),
{
    let a: [u8; 12] = [0u8, 0, 0, 0, 0, 0, 0, 0, 0, 0, 0, 0];
    let b: [u8; 12] = [1u8, 0, 0, 0, 0, 0, 0, 0, 0, 0, 0, 0];
    assert(a@ =~= source_nonce());
    assert(b@ =~= dest_nonce());
    (a, b)
}

/// Seal source and destination into a header with the ephemeral secret
/// `epk_priv`.
pub fn encrypt_header_with(
    source_ed_pub: &[u8; 32],
    dest_ed_pub: &[u8; 32],
    epk_priv: &[u8; 32],
) -> (r: ([u8; 128], [u8; 16]))
    ensures
        header_made(source_ed_pub@, dest_ed_pub@, r.0@, r.1@),
        ed25519_public_as_x25519(dest_ed_pub@) is Some ==> r.0@.subrange(0, 32)
            == x25519_public_key(epk_priv@),
{
    let empty: ([u8; 128], [u8; 16]) = (
        vstd::array::array_fill_for_copy_types::<u8, 128>(0u8),
        vstd::array::array_fill_for_copy_types::<u8, 16>(0u8),
    );
    assert(empty.0@ =~= Seq::new(128, |i: int| 0u8));
    assert(empty.1@ =~= Seq::new(16, |i: int| 0u8));
    let epk: [u8; 32] = x25519_public(epk_priv);
    let dest_x: [u8; 32] = match ed25519_pub_to_x25519(dest_ed_pub) {
        Some(x) => x,
        None => {
            return empty;
        },
    };
    let shared: [u8; 32] = x25519_agree(epk_priv, &dest_x);
    let (n0, n1) = nonces();
    let src: Vec<u8> = match aead_seal(&shared, &n0, epk.as_slice(), source_ed_pub.as_slice()) {
        Some(v) => v,
        None => {
            return empty;
        },
    };
    let dst: Vec<u8> = match aead_seal(&shared, &n1, epk.as_slice(), dest_ed_pub.as_slice()) {
        Some(v) => v,
        None => {
            return empty;
        },
    };
    let mut buf: Vec<u8> = Vec::new();
    append(&mut buf, epk.as_slice());
    append(&mut buf, src.as_slice());
    append(&mut buf, dst.as_slice());
    let header: [u8; 128] = read_array(buf.as_slice(), 0);
    proof {
        assert(buf@.subrange(0, 128) =~= buf@);
        assert(header@.subrange(0, 32) =~= epk@);
        assert(header@.subrange(32, 80) =~= src@);
        assert(header@.subrange(80, 128) =~= dst@);
        assert forall|seed: Seq<u8>|
            #![trigger ed25519_public_key(seed)]
            seed.len() == 32 && ed25519_public_key(seed)
                == dest_ed_pub@ implies header_source(seed, header@) == Some(source_ed_pub@)
            && header_dest(seed, header@) == Some(dest_ed_pub@) by {
            let x = ed25519_secret_as_x25519(seed);
            assert(dest_x@ == x25519_public_key(x));
            assert(x.len() == 32 ==> shared@ == x25519_shared(x, epk@));
        }
    }
    (header, routing_tag(dest_ed_pub))
}

/// Seal source and destination into a header that only the destination can
/// open, and give the routing tag of the destination with it. Where
/// `dest_ed_pub` is no public key, header and tag are zeros.
pub fn encrypt_header(source_ed_pub: &[u8; 32], dest_ed_pub: &[u8; 32]) -> (r: (
    [u8; 128],
    [u8; 16],
))
    ensures
        header_made(source_ed_pub@, dest_ed_pub@, r.0@, r.1@),
{
    let epk_priv: [u8; 32] = random_key();
    encrypt_header_with(source_ed_pub, dest_ed_pub, &epk_priv)
}

fn open_part(enc_header: &[u8; 128], my_sk: &[u8; 32], nonce: &[u8; 12], lo: usize) -> (r: Option<
    [u8; 32],
>)
    requires
        lo + 48 <= 128,
    ensures
        match r {
            Some(k) => header_part(my_sk@, enc_header@, nonce@, lo as int, lo + 48) == Some(k@),
            None => header_part(my_sk@, enc_header@, nonce@, lo as int, lo + 48) is None,
        },
{
    let epk: [u8; 32] = read_array(enc_header.as_slice(), 0);
    let my_x: [u8; 32] = ed25519_priv_to_x25519(my_sk);
    let shared: [u8; 32] = x25519_agree(&my_x, &epk);
    match aead_open(&shared, nonce, epk.as_slice(), &enc_header.as_slice()[lo..lo + 48]) {
        Some(v) => {
            let k: [u8; 32] = read_array(v.as_slice(), 0);
            assert(k@ =~= v@);
            Some(k)
        },
        None => None,
    }
}

/// The source in a header that is for the node with the secret `my_sk`.
pub fn decrypt_source_from_header(enc_header: &[u8; 128], my_sk: &[u8; 32]) -> (r: Option<[u8; 32]>)
    ensures
        match r {
            Some(k) => header_source(my_sk@, enc_header@) == Some(k@),
            None => header_source(my_sk@, enc_header@) is None,
        },
{
    let (n0, n1) = nonces();
    open_part(enc_header, my_sk, &n0, 32)
}

/// The destination in a header that is for the node with the secret `my_sk`.
pub fn decrypt_dest_from_header(enc_header: &[u8; 128], my_sk: &[u8; 32]) -> (r: Option<[u8; 32]>)
    ensures
        match r {
            Some(k) => header_dest(my_sk@, enc_header@) == Some(k@),
            None => header_dest(my_sk@, enc_header@) is None,
        },
{
    let (n0, n1) = nonces();
    open_part(enc_header, my_sk, &n1, 80)
}

/// Whether two routing tags are the same, in constant time.
pub fn routing_tag_eq(a: &[u8; 16], b: &[u8; 16]) -> (r: bool)
    ensures
        r == (a@ == b@),
{
    tag_ct_eq(a, b)
}

/// The seed of tree `t`.
pub open spec fn tree_seed(t: int) -> Seq<u8> {
    if t == 0 {
        Seq::new(8, |i: int| 0u8)
    } else if t == 1 {
        ascii("Verdandi"@)
    } else {
        ascii("Skuld___"@)
    }
}

/// The seed of tree `t`. The trees rank root candidates differently.
pub fn tree_seed_of(t: usize) -> (r: [u8; 8])
    requires
        t < K,
    ensures
        r@ == tree_seed(t as int),
{
    let r: [u8; 8] = if t == 0 {
        [0u8, 0, 0, 0, 0, 0, 0, 0]
    } else if t == 1 {
        [86u8, 101, 114, 100, 97, 110, 100, 105]
    } else {
        [83u8, 107, 117, 108, 100, 95, 95, 95]
    };
    proof {
        reveal_strlit("Verdandi");
        reveal_strlit("Skuld___");
        assert(r@ =~= tree_seed(t as int));
    }
    r
}

/// The salt of a tree in an epoch.
pub open spec fn tree_salt(seed: Seq<u8>, epoch: u64) -> Seq<u8> {
    blake2b_32(ascii("norn:tree-epoch"@) + seed + le_bytes(epoch as nat, 8))
}

pub open spec fn xor_bytes(a: Seq<u8>, b: Seq<u8>) -> Seq<u8> {
    Seq::new(a.len(), |i: int| a[i] ^ b[i])
}

/// The rank of a key as root of a tree in an epoch; the lowest is best.
pub open spec fn root_metric(key: Seq<u8>, seed: Seq<u8>, epoch: u64) -> Seq<u8> {
    xor_bytes(key, tree_salt(seed, epoch))
}

/// Byte-wise exclusive or of two keys.
pub fn xor_keys(a: &[u8; 32], b: &[u8; 32]) -> (r: [u8; 32])
    ensures
        r@ == xor_bytes(a@, b@),
{
    let mut out: [u8; 32] = *a;
    let mut i: usize = 0;
    while i < 32
        invariant
            i <= 32,
            forall|j: int| 0 <= j < i ==> out@[j] == a@[j] ^ b@[j],
            forall|j: int| i <= j < 32 ==> out@[j] == a@[j],
        decreases 32 - i,
    {
        out[i] = out[i] ^ b[i];
        i = i + 1;
    }
    assert(out@ =~= xor_bytes(a@, b@));
    out
}

/// The rank of a key as root of a tree in an epoch. Within an epoch all nodes
/// rank alike; from one epoch to the next the ranking changes, so that no node
/// is root for long.
pub fn tree_metric_at(pub_key: &[u8; 32], seed: &[u8; 8], epoch: u64) -> (m: [u8; 32])
    ensures
        m@ == root_metric(pub_key@, seed@, epoch),
{
    let mut buf: Vec<u8> = Vec::new();
    proof {
        reveal_strlit("norn:tree-epoch");
    }
    append_ascii(&mut buf, "norn:tree-epoch");
    append(&mut buf, seed.as_slice());
    append_le(&mut buf, epoch, 8);
    assert(buf@ =~= ascii("norn:tree-epoch"@) + seed@ + le_bytes(epoch as nat, 8));
    let salt: [u8; 32] = digest_32(buf.as_slice());
    xor_keys(pub_key, &salt)
}

/// The rank of a key as root of a tree in epoch 0.
pub fn tree_metric(pub_key: &[u8; 32], seed: &[u8; 8]) -> (m: [u8; 32])
    ensures
        m@ == root_metric(pub_key@, seed@, 0),
{
    tree_metric_at(pub_key, seed, 0)
}

/// The tree epoch at a time given in seconds since the Unix epoch.
pub fn current_tree_epoch(unix_secs: u64) -> (e: u64)
    ensures
        e == unix_secs / 86400,
{
    unix_secs / TREE_EPOCH_SECS
}

/// Whether `a` comes before `b` in lexicographic order.
pub open spec fn lex_less(a: Seq<u8>, b: Seq<u8>) -> bool
    decreases a.len(),
{
    if b.len() == 0 {
        false
    } else if a.len() == 0 {
        true
    } else if a[0] != b[0] {
        a[0] < b[0]
    } else {
        lex_less(a.skip(1), b.skip(1))
    }
}

/// Whether `a` is a better root metric than `b`.
pub fn metric_less(a: &[u8; 32], b: &[u8; 32]) -> (r: bool)
    ensures
        r == lex_less(a@, b@),
{
    let mut i: usize = 0;
    assert(a@.skip(0) =~= a@);
    assert(b@.skip(0) =~= b@);
    while i < 32
        invariant
            i <= 32,
            lex_less(a@.skip(i as int), b@.skip(i as int)) == lex_less(a@, b@),
        decreases 32 - i,
    {
        if a[i] != b[i] {
            return a[i] < b[i];
        }
        assert(a@.skip(i as int).skip(1) =~= a@.skip(i + 1));
        assert(b@.skip(i as int).skip(1) =~= b@.skip(i + 1));
        i = i + 1;
    }
    false
}

/// The order on metrics is strict and total: of two metrics of the same length
/// exactly one of three holds, and the order is transitive.
pub proof fn metric_order_is_total(a: Seq<u8>, b: Seq<u8>, c: Seq<u8>)
    requires
        a.len() == b.len() == c.len(),
    ensures
        !lex_less(a, a),
        lex_less(a, b) ==> !lex_less(b, a),
        lex_less(a, b) || lex_less(b, a) || a == b,
        lex_less(a, b) && lex_less(b, c) ==> lex_less(a, c),
    decreases a.len(),
{
    if a.len() > 0 {
        metric_order_is_total(a.skip(1), b.skip(1), c.skip(1));
        if a[0] == b[0] && a.skip(1) == b.skip(1) {
            assert(a =~= seq![a[0]] + a.skip(1));
            assert(b =~= seq![b[0]] + b.skip(1));
        }
    } else {
        assert(a =~= b);
    }
}

/// Within a tree and an epoch different keys have different ranks.
pub proof fn metric_is_injective(a: Seq<u8>, b: Seq<u8>, seed: Seq<u8>, epoch: u64)
    requires
        a.len() == b.len(),
        root_metric(a, seed, epoch) == root_metric(b, seed, epoch),
    ensures
        a == b,
{
    let salt = tree_salt(seed, epoch);
    assert forall|i: int| 0 <= i < a.len() implies a[i] == b[i] by {
        assert(root_metric(a, seed, epoch)[i] == a[i] ^ salt[i]);
        assert(root_metric(b, seed, epoch)[i] == b[i] ^ salt[i]);
        let x = a[i];
        let y = b[i];
        let s = salt[i];
        assert(x ^ s == y ^ s ==> x == y) by (bit_vector);
    }
    assert(a =~= b);
}

/// How many random tags a node set to misbehave, for tests of its neighbours,
/// adds to each filter it sends: none unless `mode` says so.
pub fn malicious_cuckoo_poison_tags(mode: Option<&str>, tags: Option<&str>) -> (n: usize)
    ensures
        n == match mode {
            Some(m) => if m@ == "cuckoo_poison"@ {
                match tags {
                    Some(t) => match parsed_number(t@, usize::MAX as nat) {
                        Some(v) => v as int,
                        None => 64,
                    },
                    None => 64,
                }
            } else {
                0
            },
            None => 0,
        },
{
    match mode {
        Some(m) => {
            if !text_eq(m, "cuckoo_poison") {
                return 0;
            }
            match tags {
                Some(t) => match parse_number(t, usize::MAX as u64) {
                    Some(v) => v as usize,
                    None => 64,
                },
                None => 64,
            }
        },
        None => 0,
    }
}

/// The interval, in seconds, that a test sets for all key rotations.
pub fn accelerate_rotations_secs(raw: Option<&str>) -> (r: Option<u64>)
    ensures
        match r {
            Some(n) => n > 0 && raw is Some && parsed_number(trimmed(raw->0@), u64::MAX as nat)
                == Some(n as nat),
            None => raw is None || parsed_number(trimmed(raw->0@), u64::MAX as nat) is None
                || parsed_number(trimmed(raw->0@), u64::MAX as nat) == Some(0nat),
        },
{
    match raw {
        Some(text) => match parse_number(trim(text), u64::MAX) {
            Some(n) => if n == 0 {
                None
            } else {
                Some(n)
            },
            None => None,
        },
        None => None,
    }
}

/// The number of ticks between two rotations: the accelerated interval, cut to
/// 32 bits, where there is one.
pub open spec fn rotation_ticks(accelerated: Option<u64>, default: u32) -> u32 {
    match accelerated {
        Some(s) => (if s == 0 {
            1u64
        } else {
            s
        } % 0x1_0000_0000) as u32,
        None => default,
    }
}

/// The number of ticks between two rotations.
pub fn rotation_interval(accelerated: Option<u64>, default: u32) -> (n: u32)
    ensures
        n == rotation_ticks(accelerated, default),
{
    match accelerated {
        Some(s) => {
            let t: u64 = if s == 0 {
                1
            } else {
                s
            };
            (t % 0x1_0000_0000) as u32
        },
        None => default,
    }
}

/// Whether something that happens every `interval` ticks happens at `tick`.
pub open spec fn due(tick: u32, interval: u32) -> bool {
    tick > 0 && interval > 0 && tick % interval == 0
}

/// Whether something that happens every `interval` ticks happens at `tick`.
pub fn is_due(tick: u32, interval: u32) -> (r: bool)
    ensures
        r == due(tick, interval),
{
    tick > 0 && interval > 0 && tick % interval == 0
}

/// The time from `earlier` to `now`, or zero.
pub open spec fn elapsed(now: u64, earlier: u64) -> int {
    if now >= earlier {
        now - earlier
    } else {
        0
    }
}

/// The time from `earlier` to `now`, or zero.
pub fn time_since(now: u64, earlier: u64) -> (r: u64)
    ensures
        r == elapsed(now, earlier),
{
    if now >= earlier {
        now - earlier
    } else {
        0
    }
}

/// The warning that a node adds `n` random tags to each filter it sends.
pub open spec fn malicious_warning(n: nat) -> Seq<char> {
    "NORN_MALICIOUS_MODE=cuckoo_poison — this node will inject "@ + decimal(n)
        + " random routing_tags into every outgoing CuckooMsg. NEIGHBOURS WILL ROUTE TRAFFIC TOWARD US THAT WE CANNOT DELIVER. This MUST NOT be used in production."@
}

/// The warning to log at the start of a node that adds `n` random tags to each
/// filter it sends.
pub fn warn_if_malicious(n: usize) -> (r: Option<String>)
    ensures
        if n > 0 {
            r matches Some(s) && s@ == malicious_warning(n as nat)
        } else {
            r is None
        },
{
    if n == 0 {
        return None;
    }
    let mut out: String = String::new();
    push_text(&mut out, "NORN_MALICIOUS_MODE=cuckoo_poison — this node will inject ");
    push_decimal(&mut out, n as u64);
    push_text(
        &mut out,
        " random routing_tags into every outgoing CuckooMsg. NEIGHBOURS WILL ROUTE TRAFFIC TOWARD US THAT WE CANNOT DELIVER. This MUST NOT be used in production.",
    );
    assert(out@ =~= malicious_warning(n as nat));
    Some(out)
}

/// The warning that keys rotate every `secs` seconds.
pub open spec fn rotation_warning(secs: u64) -> Seq<char> {
    "NORN_ACCELERATE_ROTATIONS_SECS="@ + decimal(secs as nat)
        + " — ALL key rotation intervals compressed to "@ + decimal(secs as nat)
        + " seconds. This MUST NOT be used in production. Unset the variable to restore normal cadence."@
}

/// The warning to log at the start of a node whose keys rotate faster than they
/// should.
pub fn warn_if_rotation_accelerated(accelerated: Option<u64>) -> (r: Option<String>)
    ensures
        match accelerated {
            Some(secs) => r matches Some(s) && s@ == rotation_warning(secs),
            None => r is None,
        },
{
    match accelerated {
        Some(secs) => {
            let mut out: String = String::new();
            push_text(&mut out, "NORN_ACCELERATE_ROTATIONS_SECS=");
            push_decimal(&mut out, secs);
            push_text(&mut out, " — ALL key rotation intervals compressed to ");
            push_decimal(&mut out, secs);
            push_text(
                &mut out,
                " seconds. This MUST NOT be used in production. Unset the variable to restore normal cadence.",
            );
            assert(out@ =~= rotation_warning(secs));
            Some(out)
        },
        None => None,
    }
}

/// Of two metrics the one that has the lower byte where they first differ comes
/// first.
pub proof fn lower_bytes_come_first(a: Seq<u8>, b: Seq<u8>, k: int)
    requires
        a.len() == b.len(),
        0 <= k < a.len(),
        forall|j: int| 0 <= j < k ==> a[j] == b[j],
        a[k] < b[k],
    ensures
        lex_less(a, b),
        !lex_less(b, a),
    decreases k,
{
    if k > 0 {
        assert(a[0] == b[0]);
        lower_bytes_come_first(a.skip(1), b.skip(1), k - 1);
    }
}

/// The ranks of two keys are as far apart as the keys: a tree and an epoch turn the
/// order of the keys, but leave their distances as they are.
pub proof fn ranks_keep_the_distance(a: Seq<u8>, b: Seq<u8>, seed: Seq<u8>, epoch: u64, i: int)
    requires
        a.len() == b.len(),
        0 <= i < a.len(),
    ensures
        root_metric(a, seed, epoch).len() == a.len(),
        root_metric(a, seed, epoch)[i] ^ root_metric(b, seed, epoch)[i] == a[i] ^ b[i],
        xor_bytes(a, b)[i] == a[i] ^ b[i],
        xor_bytes(a, b)[i] == 0 <==> a[i] == b[i],
{
    let x = a[i];
    let y = b[i];
    let s = tree_salt(seed, epoch)[i];
    assert((x ^ s) ^ (y ^ s) == x ^ y) by (bit_vector);
    assert(x ^ y == 0 <==> x == y) by (bit_vector);
}

/// No two trees rank by the same seed.
pub proof fn trees_have_different_seeds(t: int, u: int)
    requires
        0 <= t < 3,
        0 <= u < 3,
        t != u,
    ensures
        tree_seed(t).len() == 8,
        tree_seed(t) != tree_seed(u),
{
    reveal_strlit("Verdandi");
    reveal_strlit("Skuld___");
    assert(tree_seed(0)[0] == 0);
    assert(tree_seed(1)[0] == 86);
    assert(tree_seed(2)[0] == 83);
}

/// What happens every `interval` ticks happens again that many ticks later, and at no
/// tick between; at the very first tick count it does not happen.
pub proof fn intervals_are_kept(tick: u32, interval: u32, more: u32)
    requires
        interval > 0,
        due(tick, interval),
        more <= interval,
        tick + more <= u32::MAX,
    ensures
        due((tick + more) as u32, interval) <==> more == 0 || more == interval,
        due(interval, interval),
        !due(0, interval),
{
    let n = interval as int;
    let a = tick as int;
    vstd::arithmetic::div_mod::lemma_add_mod_noop(a, more as int, n);
    vstd::arithmetic::div_mod::lemma_mod_self_0(n);
    vstd::arithmetic::div_mod::lemma_mod_twice(more as int, n);
    if more < interval {
        vstd::arithmetic::div_mod::lemma_small_mod(more as nat, n as nat);
    }
    assert(a % n == 0);
    assert((a + more) % n == more as int % n);
    let later = (tick + more) as u32;
    assert(later as int == a + more);
    assert((later % interval) as int == (a + more) % n);
}

/// Rotations come at the interval that a test sets, where it sets one, and at the
/// usual one otherwise.
pub proof fn tests_set_the_interval(secs: u64, default: u32)
    requires
        secs > 0,
        secs <= u32::MAX,
    ensures
        rotation_ticks(Some(secs), default) == secs,
        rotation_ticks(None, default) == default,
{
}

/// The time since a moment is the difference, and none for a moment still to come.
pub proof fn time_runs_forward(now: u64, earlier: u64, limit: u64)
    ensures
        earlier <= now ==> earlier + elapsed(now, earlier) == now,
        earlier >= now ==> elapsed(now, earlier) == 0,
        elapsed(now, earlier) <= limit <==> now <= earlier + limit,
{
}

/// Source and destination are sealed under different nonces of twelve bytes.
pub proof fn nonces_differ()
    ensures
        source_nonce().len() == 12,
        dest_nonce().len() == 12,
        source_nonce() != dest_nonce(),
{
    assert(source_nonce()[0] == 0 && dest_nonce()[0] == 1);
}

/// The salt of a tree is the digest of a fixed text, the seed of the tree and the epoch.
pub proof fn salts_depend_on_tree_and_epoch(seed: Seq<u8>, epoch: u64, data: Seq<u8>)
    requires
        seed.len() == 8,
        data.len() == 31,
        data.take(15) == ascii("norn:tree-epoch"@),
        data.subrange(15, 23) == seed,
        le_value(data.skip(23)) == epoch,
    ensures
        tree_salt(seed, epoch) == blake2b_32(data),
{
    reveal_strlit("norn:tree-epoch");
    crate::bytes::le_bytes_of_le_value(data.skip(23));
    assert(data =~= ascii("norn:tree-epoch"@) + seed + le_bytes(epoch as nat, 8));
}

} // verus!
