//! IPv6 addresses and subnets derived from public keys.
//!
//! The digest of a key starts with a run of one-bits and a zero-bit. An address
//! holds a prefix byte, the length of that run, and the bits that follow the
//! zero-bit, so that a key whose digest has a longer run makes more bits of the
//! digest visible.

use crate::hash::{blake2b_64, digest_64};
use vstd::prelude::*;

verus! {

broadcast use vstd::array::group_array_axioms;

/// First byte of every address.
pub const ADDRESS_PREFIX: u8 = 0x02;

/// First byte of every subnet.
pub const SUBNET_PREFIX: u8 = 0x03;

/// Bit `i` of `s`, counted from the high bit of the first byte.
pub open spec fn bit_at(s: Seq<u8>, i: int) -> bool {
    (s[i / 8] >> ((7 - i % 8) as u8)) & 1 == 1
}

/// The position of the first zero-bit of `s` at or after `i`, or the number of
/// bits if there is none.
pub open spec fn ones_end(s: Seq<u8>, i: int) -> int
    decreases 8 * s.len() - i,
{
    if i < 8 * s.len() && bit_at(s, i) {
        ones_end(s, i + 1)
    } else {
        i
    }
}

/// How many one-bits `s` starts with.
pub open spec fn leading_ones(s: Seq<u8>) -> int {
    ones_end(s, 0)
}

/// `out` is `prefix`, the number of leading one-bits of `hash` (its low eight
/// bits), and then, up to its end, the bits of `hash` that follow the first
/// zero-bit.
pub open spec fn derived(prefix: u8, hash: Seq<u8>, out: Seq<u8>) -> bool {
    &&& out[0] == prefix
    &&& out[1] == leading_ones(hash) % 256
    &&& forall|i: int|
        16 <= i < 8 * out.len() ==> #[trigger] bit_at(out, i) == bit_at(
            hash,
            leading_ones(hash) + 1 + (i - 16),
        )
}

proof fn lemma_ones_end(s: Seq<u8>, i: int)
    requires
        0 <= i <= 8 * s.len(),
    ensures
        i <= ones_end(s, i) <= 8 * s.len(),
    decreases 8 * s.len() - i,
{
    if i < 8 * s.len() && bit_at(s, i) {
        lemma_ones_end(s, i + 1);
    }
}

proof fn lemma_set_bit(b: u8, v: u8, k: u8, m: u8)
    requires
        k < 8,
        m < 8,
        v <= 1,
    ensures
        m != k ==> ((b | (v << k)) >> m) & 1 == (b >> m) & 1,
        (b >> k) & 1 == 0 ==> ((b | (v << k)) >> k) & 1 == v,
{
    assert(m != k ==> ((b | (v << k)) >> m) & 1 == (b >> m) & 1) by (bit_vector)
        requires
            k < 8,
            m < 8,
            v <= 1,
    ;
    assert((b >> k) & 1 == 0 ==> ((b | (v << k)) >> k) & 1 == v) by (bit_vector)
        requires
            k < 8,
            v <= 1,
    ;
}

/// Count the leading one-bits of `hash`.
fn count_ones(hash: &[u8; 64]) -> (ones: usize)
    ensures
        ones == leading_ones(hash@),
        ones <= 512,
{
    let mut i: usize = 0;
    proof {
        lemma_ones_end(hash@, 0);
    }
    while i < 512
        invariant
            i <= 512,
            ones_end(hash@, i as int) == leading_ones(hash@),
        decreases 512 - i,
    {
        let k: u8 = (7 - i % 8) as u8;
        let byte: u8 = hash[i / 8];
        let bit: u8 = (byte >> k) & 1;
        assert((byte >> k) & 1 <= 1) by (bit_vector);
        if bit == 0 {
            return i;
        }
        i = i + 1;
    }
    i
}

/// Fill `out` after its second byte with the bits of `hash` from `start` on.
fn copy_bits<const N: usize>(hash: &[u8; 64], start: usize, prefix: u8, ones: usize) -> (out: [u8;
    N])
    requires
        2 <= N <= 64,
        ones <= 512,
        start + 8 * (N - 2) <= 512,
    ensures
        out@[0] == prefix,
        out@[1] == ones % 256,
        forall|i: int|
            16 <= i < 8 * N ==> #[trigger] bit_at(out@, i) == bit_at(hash@, start + (i - 16)),
{
    let mut out: [u8; N] = vstd::array::array_fill_for_copy_types::<u8, N>(0u8);
    out[0] = prefix;
    out[1] = (ones % 256) as u8;
    let mut i: usize = 0;
    let bits: usize = 8 * (N - 2);
    proof {
        assert forall|j: int| 16 <= j < 8 * N implies !#[trigger] bit_at(out@, j) by {
            let m = (7 - j % 8) as u8;
            assert((0u8 >> m) & 1 == 0) by (bit_vector);
        }
    }
    while i < bits
        invariant
            2 <= N <= 64,
            bits == 8 * (N - 2),
            i <= bits,
            start + bits <= 512,
            out@[0] == prefix,
            out@[1] == ones % 256,
            forall|j: int|
                16 <= j < 16 + i ==> #[trigger] bit_at(out@, j) == bit_at(hash@, start + (j - 16)),
            forall|j: int| 16 + i <= j < 8 * N ==> !#[trigger] bit_at(out@, j),
        decreases bits - i,
    {
        let src: usize = start + i;
        let sk: u8 = (7 - src % 8) as u8;
        let byte: u8 = hash[src / 8];
        let bit: u8 = (byte >> sk) & 1;
        let dst: usize = 2 + i / 8;
        let dk: u8 = (7 - i % 8) as u8;
        let old_byte: u8 = out[dst];
        let ghost before = out@;
        assert((byte >> sk) & 1 <= 1) by (bit_vector);
        out[dst] = old_byte | (bit << dk);
        proof {
            let at = 16 + i as int;
            assert(at / 8 == dst && 7 - at % 8 == dk);
            assert(!bit_at(before, at));
            assert((old_byte >> dk) & 1 <= 1) by (bit_vector);
            lemma_set_bit(old_byte, bit, dk, dk);
            assert forall|j: int| 16 <= j < 8 * N && j != at implies #[trigger] bit_at(out@, j)
                == bit_at(before, j) by {
                let m = (7 - j % 8) as u8;
                if j / 8 == dst {
                    lemma_set_bit(old_byte, bit, dk, m);
                }
            }
            assert(bit_at(out@, at) == bit_at(hash@, start + (at - 16)));
        }
        i = i + 1;
    }
    out
}

/// The digest that addresses are made from.
pub fn key_hash(pub_key: &[u8; 32]) -> (h: [u8; 64])
    ensures
        h@ == blake2b_64(pub_key@),
{
    digest_64(pub_key.as_slice())
}

/// How hard a key was to find: the number of one-bits that its digest starts
/// with.
pub fn key_difficulty_bits(pub_key: &[u8; 32]) -> (bits: u32)
    ensures
        bits == leading_ones(blake2b_64(pub_key@)),
{
    let hash: [u8; 64] = key_hash(pub_key);
    count_ones(&hash) as u32
}

/// The address as eight 16-bit groups, each with its high byte first.
pub fn address_groups(addr: &[u8; 16]) -> (groups: [u16; 8])
    ensures
        forall|i: int|
            0 <= i < 8 ==> #[trigger] groups@[i] == 256 * addr@[2 * i] + addr@[2 * i + 1],
{
    let mut groups: [u16; 8] = [0u16, 0, 0, 0, 0, 0, 0, 0];
    let mut i: usize = 0;
    while i < 8
        invariant
            i <= 8,
            forall|j: int|
                0 <= j < i ==> #[trigger] groups@[j] == 256 * addr@[2 * j] + addr@[2 * j + 1],
        decreases 8 - i,
    {
        groups[i] = 256 * (addr[2 * i] as u16) + addr[2 * i + 1] as u16;
        i = i + 1;
    }
    groups
}

/// The address that belongs to a digest. A digest with 400 leading one-bits or
/// more has too few bits left.
pub fn addr_from_hash(hash: &[u8; 64]) -> (addr: [u8; 16])
    requires
        leading_ones(hash@) <= 399,
    ensures
        derived(ADDRESS_PREFIX, hash@, addr@),
{
    let ones: usize = count_ones(hash);
    copy_bits(hash, ones + 1, ADDRESS_PREFIX, ones)
}

/// The subnet that belongs to a digest. A digest with 464 leading one-bits or
/// more has too few bits left.
pub fn subnet_from_hash(hash: &[u8; 64]) -> (subnet: [u8; 8])
    requires
        leading_ones(hash@) <= 463,
    ensures
        derived(SUBNET_PREFIX, hash@, subnet@),
{
    let ones: usize = count_ones(hash);
    copy_bits(hash, ones + 1, SUBNET_PREFIX, ones)
}

/// The address of the node with the given public key.
pub fn address_from_key(pub_key: &[u8; 32]) -> (addr: [u8; 16])
    requires
        leading_ones(blake2b_64(pub_key@)) <= 399,
    ensures
        derived(ADDRESS_PREFIX, blake2b_64(pub_key@), addr@),
{
    let hash: [u8; 64] = key_hash(pub_key);
    addr_from_hash(&hash)
}

/// The subnet of the node with the given public key.
pub fn subnet_from_key(pub_key: &[u8; 32]) -> (subnet: [u8; 8])
    requires
        leading_ones(blake2b_64(pub_key@)) <= 463,
    ensures
        derived(SUBNET_PREFIX, blake2b_64(pub_key@), subnet@),
{
    let hash: [u8; 64] = key_hash(pub_key);
    subnet_from_hash(&hash)
}

/// The address of the node with the given public key, if its digest has bits
/// enough for one.
pub fn try_address_from_key(pub_key: &[u8; 32]) -> (r: Option<[u8; 16]>)
    ensures
        match r {
            Some(addr) => leading_ones(blake2b_64(pub_key@)) <= 399 && derived(
                ADDRESS_PREFIX,
                blake2b_64(pub_key@),
                addr@,
            ),
            None => leading_ones(blake2b_64(pub_key@)) > 399,
        },
{
    let hash: [u8; 64] = key_hash(pub_key);
    if count_ones(&hash) <= 399 {
        Some(address_from_key(pub_key))
    } else {
        None
    }
}

/// The subnet of the node with the given public key, if its digest has bits
/// enough for one.
pub fn try_subnet_from_key(pub_key: &[u8; 32]) -> (r: Option<[u8; 8]>)
    ensures
        match r {
            Some(subnet) => leading_ones(blake2b_64(pub_key@)) <= 463 && derived(
                SUBNET_PREFIX,
                blake2b_64(pub_key@),
                subnet@,
            ),
            None => leading_ones(blake2b_64(pub_key@)) > 463,
        },
{
    let hash: [u8; 64] = key_hash(pub_key);
    if count_ones(&hash) <= 463 {
        Some(subnet_from_key(pub_key))
    } else {
        None
    }
}

/// A byte is determined by its bits.
proof fn lemma_byte_bits(a: u8, b: u8)
    requires
        forall|m: u8| m < 8 ==> #[trigger] ((a >> m) & 1) == (b >> m) & 1,
    ensures
        a == b,
{
    assert(((a >> 0u8) & 1) == (b >> 0u8) & 1);
    assert(((a >> 1u8) & 1) == (b >> 1u8) & 1);
    assert(((a >> 2u8) & 1) == (b >> 2u8) & 1);
    assert(((a >> 3u8) & 1) == (b >> 3u8) & 1);
    assert(((a >> 4u8) & 1) == (b >> 4u8) & 1);
    assert(((a >> 5u8) & 1) == (b >> 5u8) & 1);
    assert(((a >> 6u8) & 1) == (b >> 6u8) & 1);
    assert(((a >> 7u8) & 1) == (b >> 7u8) & 1);
    assert(a == b) by (bit_vector)
        requires
            ((a >> 0u8) & 1) == (b >> 0u8) & 1,
            ((a >> 1u8) & 1) == (b >> 1u8) & 1,
            ((a >> 2u8) & 1) == (b >> 2u8) & 1,
            ((a >> 3u8) & 1) == (b >> 3u8) & 1,
            ((a >> 4u8) & 1) == (b >> 4u8) & 1,
            ((a >> 5u8) & 1) == (b >> 5u8) & 1,
            ((a >> 6u8) & 1) == (b >> 6u8) & 1,
            ((a >> 7u8) & 1) == (b >> 7u8) & 1,
    ;
}

/// The address and the subnet of a digest differ in their first byte and agree
/// in the seven bytes after it.
pub proof fn subnet_is_a_prefix_of_the_address(hash: Seq<u8>, addr: Seq<u8>, subnet: Seq<u8>)
    requires
        addr.len() == 16,
        subnet.len() == 8,
        derived(ADDRESS_PREFIX, hash, addr),
        derived(SUBNET_PREFIX, hash, subnet),
    ensures
        addr[0] != subnet[0],
        addr.subrange(1, 8) == subnet.subrange(1, 8),
{
    assert forall|k: int| 1 <= k < 8 implies addr[k] == subnet[k] by {
        if k >= 2 {
            assert forall|m: u8| m < 8 implies #[trigger] ((addr[k] >> m) & 1) == (subnet[k] >> m)
                & 1 by {
                let i = 8 * k + (7 - m as int);
                assert(i / 8 == k && 7 - i % 8 == m);
                assert(bit_at(addr, i) == bit_at(subnet, i));
                let x = addr[k];
                let y = subnet[k];
                assert((x >> m) & 1 <= 1 && (y >> m) & 1 <= 1) by (bit_vector);
            }
            lemma_byte_bits(addr[k], subnet[k]);
        }
    }
    assert(addr.subrange(1, 8) =~= subnet.subrange(1, 8));
}

/// A digest has one address: the bits it prescribes leave nothing open.
pub proof fn derived_is_unique(prefix: u8, hash: Seq<u8>, a: Seq<u8>, b: Seq<u8>)
    requires
        a.len() == b.len(),
        a.len() >= 2,
        derived(prefix, hash, a),
        derived(prefix, hash, b),
    ensures
        a == b,
{
    assert forall|k: int| 0 <= k < a.len() implies a[k] == b[k] by {
        if k >= 2 {
            assert forall|m: u8| m < 8 implies #[trigger] ((a[k] >> m) & 1) == (b[k] >> m) & 1 by {
                let i = 8 * k + (7 - m as int);
                assert(i / 8 == k && 7 - i % 8 == m);
                assert(bit_at(a, i) == bit_at(b, i));
                let x = a[k];
                let y = b[k];
                assert((x >> m) & 1 <= 1 && (y >> m) & 1 <= 1) by (bit_vector);
            }
            lemma_byte_bits(a[k], b[k]);
        }
    }
    assert(a =~= b);
}

/// The difficulty of a digest is the number of one-bits before its first zero-bit.
pub proof fn difficulty_counts_the_leading_ones(s: Seq<u8>)
    ensures
        0 <= leading_ones(s) <= 8 * s.len(),
        forall|i: int| 0 <= i < leading_ones(s) ==> #[trigger] bit_at(s, i),
        leading_ones(s) < 8 * s.len() ==> !bit_at(s, leading_ones(s)),
{
    lemma_ones_end(s, 0);
    lemma_ones(s, 0);
}

proof fn lemma_ones(s: Seq<u8>, from: int)
    requires
        0 <= from <= 8 * s.len(),
    ensures
        forall|i: int| from <= i < ones_end(s, from) ==> #[trigger] bit_at(s, i),
        ones_end(s, from) < 8 * s.len() ==> !bit_at(s, ones_end(s, from)),
    decreases 8 * s.len() - from,
{
    lemma_ones_end(s, from);
    if from < 8 * s.len() && bit_at(s, from) {
        lemma_ones(s, from + 1);
    }
}

/// The bits of a byte are counted from the high one: the first tells whether the
/// byte is 128 or more, the last whether it is odd.
pub proof fn bits_start_at_the_high_one(s: Seq<u8>, k: int)
    requires
        0 <= k < s.len(),
    ensures
        bit_at(s, 8 * k) <==> s[k] >= 128,
        bit_at(s, 8 * k + 1) <==> s[k] % 128 >= 64,
        bit_at(s, 8 * k + 7) <==> s[k] % 2 == 1,
{
    let x = s[k];
    assert((x >> 7u8) & 1 == 1 <==> x >= 128) by (bit_vector);
    assert((x >> 6u8) & 1 == 1 <==> x % 128 >= 64) by (bit_vector);
    assert((x >> 0u8) & 1 == 1 <==> x % 2 == 1) by (bit_vector);
    assert((8 * k) / 8 == k && (8 * k) % 8 == 0);
    assert((8 * k + 1) / 8 == k && (8 * k + 1) % 8 == 1);
    assert((8 * k + 7) / 8 == k && (8 * k + 7) % 8 == 7);
}

/// An address or subnet tells of its digest how many one-bits it starts with, and
/// all bits after its first zero-bit for which there is room: two digests with the
/// same one agree in all of these bits.
pub proof fn addresses_tell_the_digest(
    prefix: u8,
    h: Seq<u8>,
    g: Seq<u8>,
    out: Seq<u8>,
    i: int,
)
    requires
        h.len() == 64,
        g.len() == 64,
        2 <= out.len() <= 16,
        derived(prefix, h, out),
        derived(prefix, g, out),
        leading_ones(h) < 256,
        leading_ones(g) < 256,
        0 <= i < leading_ones(h) + 1 + 8 * (out.len() - 2),
    ensures
        out[0] == prefix,
        out[1] == leading_ones(h),
        leading_ones(h) == leading_ones(g),
        bit_at(h, i) == bit_at(g, i),
{
    difficulty_counts_the_leading_ones(h);
    difficulty_counts_the_leading_ones(g);
    let n = leading_ones(h);
    if i > n {
        let j = 16 + (i - n - 1);
        assert(bit_at(out, j) == bit_at(h, n + 1 + (j - 16)));
        assert(bit_at(out, j) == bit_at(g, n + 1 + (j - 16)));
    }
}

} // verus!
