//! Optional obfuscation of byte streams under a pre-shared key.
//!
//! Each direction of a connection is masked with a keystream, so that an
//! observer sees no recognisable handshake and no frame lengths. Each side
//! picks a random nonce and sends it in the clear; the key of a direction is a
//! digest of the pre-shared key and the nonce, and the keystream is the digests
//! of that key with a block counter. Sizes and timing are not hidden.

use crate::bytes::{append, append_ascii, append_le, ascii, le_bytes, read_array};
use crate::hash::{blake2b_64, digest_64};
use vstd::prelude::*;
use vstd::utf8::encode_utf8;

verus! {

broadcast use vstd::array::group_array_axioms;

/// Length of the nonce that each side sends in the clear.
pub const OBFS_NONCE_LEN: usize = 16;

/// The number of keystream bytes before the block counter wraps: 2^70.
pub open spec fn stream_period() -> int {
    0x40_0000_0000_0000_0000
}

/// The key that a pre-shared key stands for.
pub open spec fn psk_key_of(psk: Seq<char>) -> Seq<u8> {
    blake2b_64(ascii("norn-obfs-v1-psk"@) + encode_utf8(psk)).take(32)
}

/// The key of the direction whose sender chose `nonce`.
pub open spec fn direction_key(psk_key: Seq<u8>, nonce: Seq<u8>) -> Seq<u8> {
    blake2b_64(psk_key + nonce).take(32)
}

/// Block `n` of the keystream of `key`.
pub open spec fn stream_block(key: Seq<u8>, n: nat) -> Seq<u8> {
    blake2b_64(key + le_bytes(n, 8))
}

/// Byte `i` of the keystream of `key`.
pub open spec fn stream_byte(key: Seq<u8>, i: int) -> u8 {
    stream_block(key, ((i % stream_period()) / 64) as nat)[i % 64]
}

/// `data` masked with the keystream of `key` from position `at` on.
pub open spec fn masked(key: Seq<u8>, at: int, data: Seq<u8>) -> Seq<u8> {
    Seq::new(data.len(), |i: int| data[i] ^ stream_byte(key, at + i))
}

/// Stretch a pre-shared key into 32 bytes. An empty one means that streams are
/// not obfuscated.
pub fn derive_psk_key(psk: &str) -> (r: Option<[u8; 32]>)
    ensures
        match r {
            Some(key) => psk@.len() > 0 && key@ == psk_key_of(psk@),
            None => psk@.len() == 0,
        },
{
    if psk.is_empty() {
        return None;
    }
    let mut buf: Vec<u8> = Vec::new();
    proof {
        reveal_strlit("norn-obfs-v1-psk");
    }
    append_ascii(&mut buf, "norn-obfs-v1-psk");
    append(&mut buf, psk.as_bytes());
    assert(buf@ =~= ascii("norn-obfs-v1-psk"@) + encode_utf8(psk@));
    Some(first_half(&digest_64(buf.as_slice())))
}

fn first_half(digest: &[u8; 64]) -> (r: [u8; 32])
    ensures
        r@ == digest@.take(32),
{
    let r: [u8; 32] = read_array(digest.as_slice(), 0);
    assert(digest@.subrange(0, 32) =~= digest@.take(32));
    r
}

/// The key of the direction whose sender chose `nonce`.
pub fn conn_key(psk_key: &[u8; 32], nonce: &[u8; OBFS_NONCE_LEN]) -> (r: [u8; 32])
    ensures
        r@ == direction_key(psk_key@, nonce@),
{
    let mut buf: Vec<u8> = Vec::new();
    append(&mut buf, psk_key.as_slice());
    append(&mut buf, nonce.as_slice());
    assert(buf@ =~= psk_key@ + nonce@);
    first_half(&digest_64(buf.as_slice()))
}

/// A keystream and the position reached in it.
pub struct KeyStream {
    key: [u8; 32],
    counter: u64,
    block: [u8; 64],
    pos: usize,
}

impl KeyStream {
    /// The key of the stream.
    pub closed spec fn key(&self) -> Seq<u8> {
        self.key@
    }

    /// The position of the next byte.
    pub closed spec fn at(&self) -> int {
        if self.pos >= 64 {
            64 * self.counter
        } else if self.counter > 0 {
            64 * (self.counter - 1) + self.pos
        } else {
            stream_period() - 64 + self.pos
        }
    }

    pub closed spec fn wf(&self) -> bool {
        &&& self.pos <= 64
        &&& self.pos < 64 ==> self.block@ == stream_block(self.key@, (self.at() / 64) as nat)
    }

    /// The keystream of `conn_key`, from its beginning.
    pub fn new(conn_key: [u8; 32]) -> (ks: KeyStream)
        ensures
            ks.wf(),
            ks.key() == conn_key@,
            ks.at() == 0,
    {
        KeyStream {
            key: conn_key,
            counter: 0,
            block: vstd::array::array_fill_for_copy_types::<u8, 64>(0u8),
            pos: 64,
        }
    }

    /// Compute the next block.
    fn refill(&mut self)
        requires
            old(self).pos == 64,
        ensures
            final(self).wf(),
            final(self).pos == 0,
            final(self).key() == old(self).key(),
            final(self).at() == old(self).at(),
    {
        let mut buf: Vec<u8> = Vec::new();
        append(&mut buf, self.key.as_slice());
        append_le(&mut buf, self.counter, 8);
        assert(buf@ =~= self.key@ + le_bytes(self.counter as nat, 8));
        self.block = digest_64(buf.as_slice());
        self.counter = self.counter.wrapping_add(1);
        self.pos = 0;
    }

    /// Mask `data` in place, advancing the stream by as many bytes.
    pub fn apply(&mut self, data: &mut [u8])
        requires
            old(self).wf(),
        ensures
            final(self).wf(),
            final(self).key() == old(self).key(),
            final(self).at() == (old(self).at() + old(data)@.len()) % stream_period(),
            final(data)@ == masked(old(self).key(), old(self).at(), old(data)@),
    {
        let ghost start = self.at();
        let ghost key = self.key();
        let ghost plain = data@;
        let mut i: usize = 0;
        proof {
            self.lemma_at_range();
            vstd::arithmetic::div_mod::lemma_small_mod(start as nat, stream_period() as nat);
        }
        while i < data.len()
            invariant
                self.wf(),
                self.key() == key,
                i <= data@.len(),
                data@.len() == plain.len(),
                0 <= start,
                self.at() == (start + i) % stream_period(),
                forall|j: int| 0 <= j < i ==> data@[j] == plain[j] ^ stream_byte(key, start + j),
                forall|j: int| i <= j < data@.len() ==> data@[j] == plain[j],
            decreases data@.len() - i,
        {
            if self.pos >= 64 {
                self.refill();
            }
            let ghost at = self.at();
            proof {
                self.lemma_at_range();
                lemma_position(start, i as int, at);
                assert(self.pos == at % 64);
                assert(self.block@ == stream_block(key, (at / 64) as nat));
                assert(stream_byte(key, start + i) == self.block@[self.pos as int]);
            }
            let mask: u8 = self.block[self.pos];
            let byte: u8 = data[i];
            data[i] = byte ^ mask;
            self.pos = self.pos + 1;
            proof {
                lemma_step(start, i as int, at, self.at());
            }
            i = i + 1;
        }
        assert(data@ =~= masked(key, start, plain));
    }

    proof fn lemma_at_range(&self)
        requires
            self.wf(),
        ensures
            0 <= self.at() < stream_period(),
            self.pos < 64 ==> self.at() % 64 == self.pos,
    {
    }
}

proof fn lemma_position(start: int, i: int, at: int)
    requires
        0 <= start,
        0 <= i,
        at == (start + i) % stream_period(),
    ensures
        at % 64 == (start + i) % 64,
{
    let p = stream_period();
    let q = (start + i) / p;
    assert(start + i == p * q + at) by {
        vstd::arithmetic::div_mod::lemma_fundamental_div_mod(start + i, p);
    }
    assert(p == 64 * 0x1_0000_0000_0000_0000);
    assert((start + i) % 64 == at % 64) by {
        assert(start + i == 64 * (0x1_0000_0000_0000_0000 * q) + at) by (nonlinear_arith)
            requires
                start + i == p * q + at,
                p == 64 * 0x1_0000_0000_0000_0000,
        ;
    }
}

proof fn lemma_step(start: int, i: int, at: int, next: int)
    requires
        0 <= start,
        0 <= i,
        at == (start + i) % stream_period(),
        next == (if at + 1 == stream_period() {
            0
        } else {
            at + 1
        }),
    ensures
        next == (start + i + 1) % stream_period(),
{
    let p = stream_period();
    let q = (start + i) / p;
    vstd::arithmetic::div_mod::lemma_fundamental_div_mod(start + i, p);
    if at + 1 == p {
        assert(start + i + 1 == p * (q + 1) + 0) by (nonlinear_arith)
            requires
                start + i == p * q + at,
                at + 1 == p,
        ;
        vstd::arithmetic::div_mod::lemma_fundamental_div_mod_converse(start + i + 1, p, q + 1, 0);
    } else {
        vstd::arithmetic::div_mod::lemma_mod_bound(start + i, p);
        assert(start + i + 1 == p * q + (at + 1));
        vstd::arithmetic::div_mod::lemma_fundamental_div_mod_converse(start + i + 1, p, q, at + 1);
    }
}

/// The keystreams of the two directions of a connection.
pub struct ObfsHandshake {
    pub tx: KeyStream,
    pub rx: KeyStream,
}

impl ObfsHandshake {
    /// The keystreams of a connection on which this side sent `tx_nonce` and
    /// the other side sent `rx_nonce`.
    pub fn from_nonces(
        psk_key: &[u8; 32],
        tx_nonce: &[u8; OBFS_NONCE_LEN],
        rx_nonce: &[u8; OBFS_NONCE_LEN],
    ) -> (h: ObfsHandshake)
        ensures
            h.tx.wf() && h.rx.wf(),
            h.tx.key() == direction_key(psk_key@, tx_nonce@),
            h.rx.key() == direction_key(psk_key@, rx_nonce@),
            h.tx.at() == 0 && h.rx.at() == 0,
    {
        ObfsHandshake {
            tx: KeyStream::new(conn_key(psk_key, tx_nonce)),
            rx: KeyStream::new(conn_key(psk_key, rx_nonce)),
        }
    }

    /// The two halves of the connection.
    pub fn wrap(self) -> (r: (CipherReader, CipherWriter))
        requires
            self.tx.wf(),
            self.rx.wf(),
        ensures
            r.0.wf() && r.1.wf(),
            r.0.ks == self.rx,
            r.1.ks() == self.tx,
            r.1.unsent() == Seq::<u8>::empty(),
    {
        let w = CipherWriter { ks: self.tx, pending: Vec::new(), sent: 0 };
        assert(w.unsent() =~= Seq::<u8>::empty());
        (CipherReader { ks: self.rx }, w)
    }
}

/// The receiving half of an obfuscated connection.
pub struct CipherReader {
    pub ks: KeyStream,
}

impl CipherReader {
    pub open spec fn wf(&self) -> bool {
        self.ks.wf()
    }

    /// Unmask bytes that have just arrived.
    pub fn received(&mut self, data: &mut [u8])
        requires
            old(self).wf(),
        ensures
            final(self).wf(),
            final(self).ks.key() == old(self).ks.key(),
            final(self).ks.at() == (old(self).ks.at() + old(data)@.len()) % stream_period(),
            final(data)@ == masked(old(self).ks.key(), old(self).ks.at(), old(data)@),
    {
        self.ks.apply(data);
    }
}

/// The sending half of an obfuscated connection: masked bytes wait here until
/// the transport takes them.
pub struct CipherWriter {
    ks: KeyStream,
    pending: Vec<u8>,
    sent: usize,
}

/// The transport took no byte of what it was offered.
#[derive(Clone, Copy, Debug, PartialEq, Eq, Structural)]
pub struct WriteZero;

impl WriteZero {
    /// The message that describes the error.
    pub fn to_string(&self) -> (s: String)
        ensures
            s@ == "obfs: inner writer accepted zero bytes"@,
    {
        "obfs: inner writer accepted zero bytes".to_owned()
    }
}

impl CipherWriter {
    pub closed spec fn ks(&self) -> KeyStream {
        self.ks
    }

    /// The masked bytes that the transport has not taken yet.
    pub closed spec fn unsent(&self) -> Seq<u8> {
        self.pending@.skip(self.sent as int)
    }

    pub closed spec fn wf(&self) -> bool {
        self.ks.wf() && self.sent <= self.pending@.len()
    }

    /// Whether everything has been taken. If not, `to_send` is to be offered
    /// to the transport next.
    pub fn drained(&mut self) -> (r: bool)
        requires
            old(self).wf(),
        ensures
            final(self).wf(),
            final(self).ks() == old(self).ks(),
            final(self).unsent() == old(self).unsent(),
            r == (old(self).unsent().len() == 0),
    {
        if self.sent < self.pending.len() {
            return false;
        }
        self.pending.clear();
        self.sent = 0;
        assert(self.unsent() =~= old(self).unsent());
        true
    }

    /// The bytes to offer to the transport.
    pub fn to_send(&self) -> (r: &[u8])
        requires
            self.wf(),
        ensures
            r@ == self.unsent(),
    {
        assert(self.pending@.subrange(self.sent as int, self.pending@.len() as int)
            =~= self.unsent());
        &self.pending.as_slice()[self.sent..self.pending.len()]
    }

    /// The transport took `n` of the bytes offered to it.
    pub fn taken(&mut self, n: usize) -> (r: Result<(), WriteZero>)
        requires
            old(self).wf(),
            n <= old(self).unsent().len(),
        ensures
            final(self).wf(),
            final(self).ks() == old(self).ks(),
            r is Err <==> n == 0,
            final(self).unsent() == old(self).unsent().skip(n as int),
    {
        if n == 0 {
            assert(self.unsent() =~= old(self).unsent().skip(0));
            return Err(WriteZero);
        }
        assert(self.pending@.len() == self.pending.len());
        self.sent = self.sent + n;
        assert(self.unsent() =~= old(self).unsent().skip(n as int));
        Ok(())
    }

    /// Mask `buf` and queue it. Everything queued before must have been taken.
    pub fn accept(&mut self, buf: &[u8])
        requires
            old(self).wf(),
            old(self).unsent().len() == 0,
        ensures
            final(self).wf(),
            final(self).ks().key() == old(self).ks().key(),
            final(self).ks().at() == (old(self).ks().at() + buf@.len()) % stream_period(),
            final(self).unsent() == masked(old(self).ks().key(), old(self).ks().at(), buf@),
    {
        let mut fresh: Vec<u8> = Vec::new();
        append(&mut fresh, buf);
        assert(fresh@ =~= buf@);
        self.ks.apply(fresh.as_mut_slice());
        self.pending = fresh;
        self.sent = 0;
        assert(self.unsent() =~= masked(old(self).ks().key(), old(self).ks().at(), buf@));
    }
}

/// Masking twice from the same position restores the data: what one side
/// masks, the other side unmasks.
pub proof fn masking_twice_restores(key: Seq<u8>, at: int, data: Seq<u8>)
    ensures
        masked(key, at, masked(key, at, data)) == data,
        masked(key, at, data).len() == data.len(),
{
    let m = masked(key, at, data);
    assert forall|i: int| 0 <= i < data.len() implies masked(key, at, m)[i] == data[i] by {
        let x = data[i];
        let k = stream_byte(key, at + i);
        assert((x ^ k) ^ k == x) by (bit_vector);
    }
    assert(masked(key, at, m) =~= data);
}

/// How a stream is cut into pieces does not matter: masking the pieces one
/// after the other is masking the whole.
pub proof fn masking_in_pieces(key: Seq<u8>, at: int, a: Seq<u8>, b: Seq<u8>)
    requires
        0 <= at,
    ensures
        masked(key, at, a + b) == masked(key, at, a) + masked(
            key,
            (at + a.len()) % stream_period(),
            b,
        ),
{
    let p = stream_period();
    let c = (at + a.len()) % p;
    let left = masked(key, at, a + b);
    let right = masked(key, at, a) + masked(key, c, b);
    assert forall|i: int| 0 <= i < left.len() implies left[i] == right[i] by {
        if i >= a.len() {
            let x = at + a.len();
            let j = i - a.len();
            vstd::arithmetic::div_mod::lemma_add_mod_noop(x, j, p);
            vstd::arithmetic::div_mod::lemma_add_mod_noop(c, j, p);
            vstd::arithmetic::div_mod::lemma_mod_twice(x, p);
            vstd::arithmetic::div_mod::lemma_mod_bound(x, p);
            lemma_position(x + j, 0, (x + j) % p);
            lemma_position(c + j, 0, (c + j) % p);
            assert(at + i == x + j);
            assert(stream_byte(key, x + j) == stream_byte(key, c + j));
        }
    }
    assert(left =~= right);
}

/// The keystream is the digests of the key with a counter, one after the other: masking
/// 64 zeros at the start of a block shows the digest of that block.
pub proof fn blocks_are_digests_with_a_counter(key: Seq<u8>, n: nat, zeros: Seq<u8>)
    requires
        n < 0x1_0000_0000_0000_0000,
        zeros.len() == 64,
        forall|i: int| 0 <= i < 64 ==> #[trigger] zeros[i] == 0,
    ensures
        forall|i: int|
            0 <= i < 64 ==> #[trigger] masked(key, 64 * n as int, zeros)[i] == blake2b_64(
                key + le_bytes(n, 8),
            )[i],
{
    let at = 64 * n as int;
    let p = stream_period();
    let block = blake2b_64(key + le_bytes(n, 8));
    assert forall|i: int| 0 <= i < 64 implies #[trigger] masked(key, at, zeros)[i] == block[i] by {
        vstd::arithmetic::div_mod::lemma_small_mod((at + i) as nat, p as nat);
        vstd::arithmetic::div_mod::lemma_fundamental_div_mod_converse(at + i, 64, n as int, i);
        let k = block[i];
        assert(0u8 ^ k == k) by (bit_vector);
        assert(stream_byte(key, at + i) == k);
    }
}

/// The key of a direction is the front of the digest of the pre-shared key and the nonce of
/// that direction: both ends derive the same one.
pub proof fn directions_have_keys_of_their_own(psk_key: Seq<u8>, nonce: Seq<u8>, data: Seq<u8>)
    requires
        data.len() == psk_key.len() + nonce.len(),
        data.take(psk_key.len() as int) == psk_key,
        data.skip(psk_key.len() as int) == nonce,
    ensures
        direction_key(psk_key, nonce) == blake2b_64(data).take(32),
{
    assert(data =~= psk_key + nonce);
}

} // verus!
