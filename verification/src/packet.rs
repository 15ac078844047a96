//! Wire formats: base-128 integers, length-prefixed frames, and the packets
//! that neighbouring nodes exchange.

use crate::bytes::{
    append, append_ascii, append_le, ascii, le_bytes, le_bytes_of_le_value, le_value,
    le_value_of_le_bytes, pow256, read_array, read_le,
};
use crate::cuckoo::FILTER_BYTES;
use crate::hash::{blake2b_16, digest_16};
use crate::text::{decimal, push_decimal, push_text};
use vstd::prelude::*;

verus! {

broadcast use vstd::array::group_array_axioms;

/// Packet type bytes.
pub const DUMMY: u8 = 0;

pub const KEEP_ALIVE: u8 = 1;

pub const SIG_REQ: u8 = 2;

pub const SIG_RES: u8 = 3;

pub const ANNOUNCE: u8 = 4;

pub const CUCKOO_FILTER: u8 = 5;

pub const PATH_LOOKUP: u8 = 6;

pub const PATH_NOTIFY: u8 = 7;

pub const PATH_BROKEN: u8 = 8;

pub const TRAFFIC: u8 = 9;

pub const TYPE_COORD_ANNOUNCE: u8 = 10;

pub const TYPE_ONION: u8 = 11;

pub const TYPE_ONION_KEY_ANNOUNCE: u8 = 12;

pub const TYPE_REPUTATION_REPORT: u8 = 13;

pub const TYPE_HOLE_PUNCH: u8 = 14;

pub const TYPE_PATH_NEGATIVE: u8 = 15;

/// Session control packet.
pub const PKT_CONTROL: u8 = 0x00;

/// Session data packet.
pub const PKT_DATA: u8 = 0x01;

/// The longest frame that a reader accepts.
pub const MAX_FRAME: u64 = 1048576;

/// Why a byte string is not a valid frame or packet.
#[derive(Clone, Copy, Debug, PartialEq, Eq, Structural)]
pub enum PacketError {
    UvarintOverflow,
    UvarintTruncated,
    LengthPrefixTooLong,
    FrameTooLarge(u64),
    UnexpectedEof,
    PathNotTerminated,
    SigReqTooShort,
    SigReqMissingPubKey,
    SigResTooShort,
    SigResMissingSigKey,
    AnnounceTooShort,
    AnnounceMissingSenderSig,
    CuckooMsgTooShort,
    CuckooMsgDataTooShort(u64),
    PathLookupTooShort,
    PathNotifyTooShort,
    PathBrokenTooShort,
    TrafficTooShort(u64),
    TrafficPayloadTruncated(u64, u64),
    CoordAnnounceTooShort(u64),
    OnionKeyAnnounceTooShort,
    ReputationReportTooShort,
    HolePunchTooShort,
    PathNegativeTooShort,
}

impl PacketError {
    /// The message that describes the error.
    pub open spec fn message(self) -> Seq<char> {
        match self {
            PacketError::UvarintOverflow => "uvarint overflow"@,
            PacketError::UvarintTruncated => "uvarint truncated"@,
            PacketError::LengthPrefixTooLong => "uvarint length prefix too long"@,
            PacketError::FrameTooLarge(n) => "frame too large: "@ + decimal(n as nat),
            PacketError::UnexpectedEof => "early eof"@,
            PacketError::PathNotTerminated => "path not terminated"@,
            PacketError::SigReqTooShort => "SigReq too short"@,
            PacketError::SigReqMissingPubKey => "SigReq missing pub_key"@,
            PacketError::SigResTooShort => "SigRes too short"@,
            PacketError::SigResMissingSigKey => "SigRes missing sig/key"@,
            PacketError::AnnounceTooShort => "Announce too short"@,
            PacketError::AnnounceMissingSenderSig => "Announce missing sender/sig"@,
            PacketError::CuckooMsgTooShort => "CuckooMsg too short"@,
            PacketError::CuckooMsgDataTooShort(got) => "CuckooMsg data too short: need 4096, got "@
                + decimal(got as nat),
            PacketError::PathLookupTooShort => "PathLookup too short"@,
            PacketError::PathNotifyTooShort => "PathNotify too short"@,
            PacketError::PathBrokenTooShort => "PathBroken too short"@,
            PacketError::TrafficTooShort(got) => "Traffic too short: need 177 bytes after path, got "@
                + decimal(got as nat),
            PacketError::TrafficPayloadTruncated(need, got) => "Traffic payload truncated: need "@
                + decimal(need as nat) + ", got "@ + decimal(got as nat),
            PacketError::CoordAnnounceTooShort(got) => "CoordAnnounce too short: got "@ + decimal(
                got as nat,
            ),
            PacketError::OnionKeyAnnounceTooShort => "OnionKeyAnnounce too short"@,
            PacketError::ReputationReportTooShort => "ReputationReport too short"@,
            PacketError::HolePunchTooShort => "HolePunch too short"@,
            PacketError::PathNegativeTooShort => "PathNegative too short"@,
        }
    }

    /// The message that describes the error.
    pub fn to_string(&self) -> (s: String)
        ensures
            s@ == self.message(),
    {
        let mut out: String = String::new();
        match *self {
            PacketError::UvarintOverflow => push_text(&mut out, "uvarint overflow"),
            PacketError::UvarintTruncated => push_text(&mut out, "uvarint truncated"),
            PacketError::LengthPrefixTooLong => push_text(
                &mut out,
                "uvarint length prefix too long",
            ),
            PacketError::FrameTooLarge(n) => {
                push_text(&mut out, "frame too large: ");
                push_decimal(&mut out, n);
            },
            PacketError::UnexpectedEof => push_text(&mut out, "early eof"),
            PacketError::PathNotTerminated => push_text(&mut out, "path not terminated"),
            PacketError::SigReqTooShort => push_text(&mut out, "SigReq too short"),
            PacketError::SigReqMissingPubKey => push_text(&mut out, "SigReq missing pub_key"),
            PacketError::SigResTooShort => push_text(&mut out, "SigRes too short"),
            PacketError::SigResMissingSigKey => push_text(&mut out, "SigRes missing sig/key"),
            PacketError::AnnounceTooShort => push_text(&mut out, "Announce too short"),
            PacketError::AnnounceMissingSenderSig => push_text(
                &mut out,
                "Announce missing sender/sig",
            ),
            PacketError::CuckooMsgTooShort => push_text(&mut out, "CuckooMsg too short"),
            PacketError::CuckooMsgDataTooShort(got) => {
                push_text(&mut out, "CuckooMsg data too short: need 4096, got ");
                push_decimal(&mut out, got);
            },
            PacketError::PathLookupTooShort => push_text(&mut out, "PathLookup too short"),
            PacketError::PathNotifyTooShort => push_text(&mut out, "PathNotify too short"),
            PacketError::PathBrokenTooShort => push_text(&mut out, "PathBroken too short"),
            PacketError::TrafficTooShort(got) => {
                push_text(&mut out, "Traffic too short: need 177 bytes after path, got ");
                push_decimal(&mut out, got);
            },
            PacketError::TrafficPayloadTruncated(need, got) => {
                push_text(&mut out, "Traffic payload truncated: need ");
                push_decimal(&mut out, need);
                push_text(&mut out, ", got ");
                push_decimal(&mut out, got);
            },
            PacketError::CoordAnnounceTooShort(got) => {
                push_text(&mut out, "CoordAnnounce too short: got ");
                push_decimal(&mut out, got);
            },
            PacketError::OnionKeyAnnounceTooShort => push_text(
                &mut out,
                "OnionKeyAnnounce too short",
            ),
            PacketError::ReputationReportTooShort => push_text(
                &mut out,
                "ReputationReport too short",
            ),
            PacketError::HolePunchTooShort => push_text(&mut out, "HolePunch too short"),
            PacketError::PathNegativeTooShort => push_text(&mut out, "PathNegative too short"),
        }
        assert(out@ =~= self.message());
        out
    }
}

/// 2^64, the number of values a `u64` takes.
pub open spec fn two64() -> nat {
    0x1_0000_0000_0000_0000
}

/// The base-128 encoding of `v`: seven bits per byte, least significant first,
/// the high bit set on every byte but the last.
pub open spec fn uvarint(v: nat) -> Seq<u8>
    decreases v,
{
    if v < 128 {
        seq![v as u8]
    } else {
        seq![(v % 128 + 128) as u8] + uvarint(v / 128)
    }
}

/// How many leading bytes of `s` announce a further byte.
pub open spec fn continuation_run(s: Seq<u8>) -> nat
    decreases s.len(),
{
    if s.len() > 0 && s[0] >= 128 {
        1 + continuation_run(s.skip(1))
    } else {
        0
    }
}

/// The number whose base-128 digits, least significant first, are the low
/// seven bits of each byte of `s`.
pub open spec fn le128(s: Seq<u8>) -> nat
    decreases s.len(),
{
    if s.len() == 0 {
        0
    } else {
        (s[0] % 128) as nat + 128 * le128(s.skip(1))
    }
}

/// What reading a base-128 integer at the front of `s` gives: its value modulo
/// 2^64 and the number of bytes read. At most ten bytes are looked at.
pub open spec fn parse_uvarint(s: Seq<u8>) -> Result<(u64, int), PacketError> {
    let k = continuation_run(s);
    if k < s.len() && k < 10 {
        Ok(((le128(s.take(k as int + 1)) % two64()) as u64, k as int + 1))
    } else if s.len() > 10 {
        Err(PacketError::UvarintOverflow)
    } else {
        Err(PacketError::UvarintTruncated)
    }
}

/// Append the base-128 encoding of `v` to `buf`.
pub fn encode_uvarint(v: u64, buf: &mut Vec<u8>)
    ensures
        final(buf)@ == old(buf)@ + uvarint(v as nat),
{
    let mut rest: u64 = v;
    let ghost start = buf@;
    loop
        invariant_except_break
            buf@ + uvarint(rest as nat) == start + uvarint(v as nat),
        ensures
            buf@ == start + uvarint(v as nat),
        decreases rest,
    {
        let byte: u8 = (rest & 0x7f) as u8;
        let next: u64 = rest >> 7;
        assert(rest & 0x7f == rest % 128 && rest >> 7 == rest / 128) by (bit_vector);
        if next == 0 {
            buf.push(byte);
            assert(uvarint(rest as nat) =~= seq![byte]);
            break;
        } else {
            assert(byte < 128 ==> byte | 0x80 == byte + 128) by (bit_vector);
            let ghost before = buf@;
            buf.push(byte | 0x80);
            proof {
                assert(uvarint(rest as nat) =~= seq![(byte + 128) as u8] + uvarint(next as nat));
                assert(buf@ + uvarint(next as nat) =~= before + uvarint(rest as nat));
            }
            rest = next;
        }
    }
}


/// 128^n.
pub open spec fn pow128(n: nat) -> nat
    decreases n,
{
    if n == 0 {
        1
    } else {
        128 * pow128((n - 1) as nat)
    }
}

proof fn lemma_le128_push(s: Seq<u8>, b: u8)
    ensures
        le128(s.push(b)) == le128(s) + pow128(s.len()) * (b % 128),
    decreases s.len(),
{
    if s.len() == 0 {
        assert(s.push(b).skip(1) =~= Seq::<u8>::empty());
        reveal_with_fuel(le128, 2);
        assert(pow128(0) * (b % 128) == b % 128) by (nonlinear_arith)
            requires
                pow128(0) == 1,
        ;
    } else {
        lemma_le128_push(s.skip(1), b);
        assert(s.push(b).skip(1) =~= s.skip(1).push(b));
        let p = pow128((s.len() - 1) as nat);
        assert(128 * (le128(s.skip(1)) + p * (b % 128)) == 128 * le128(s.skip(1)) + (128 * p) * (
        b % 128)) by (nonlinear_arith);
    }
}

proof fn lemma_run_step(s: Seq<u8>, i: int)
    requires
        0 <= i < s.len(),
        forall|j: int| 0 <= j < i ==> s[j] >= 128,
    ensures
        s[i] < 128 ==> continuation_run(s) == i,
        s[i] >= 128 ==> continuation_run(s) > i,
    decreases i,
{
    if i > 0 {
        assert forall|j: int| 0 <= j < i - 1 implies s.skip(1)[j] >= 128 by {
            assert(s.skip(1)[j] == s[j + 1]);
        }
        lemma_run_step(s.skip(1), i - 1);
    }
}

proof fn lemma_run_all(s: Seq<u8>)
    ensures
        continuation_run(s) <= s.len(),
        (forall|j: int| 0 <= j < s.len() ==> s[j] >= 128) ==> continuation_run(s) == s.len(),
    decreases s.len(),
{
    if s.len() > 0 {
        lemma_run_all(s.skip(1));
        if forall|j: int| 0 <= j < s.len() ==> s[j] >= 128 {
            assert forall|j: int| 0 <= j < s.len() - 1 implies s.skip(1)[j] >= 128 by {
                assert(s.skip(1)[j] == s[j + 1]);
            }
        }
    }
}

/// Adding one seven-bit digit above `shift` bits that are all below it.
proof fn lemma_digit(val: u64, x: u64, shift: u64)
    requires
        shift <= 63,
        x < 128,
        val < 1u64 << shift,
    ensures
        shift <= 56 ==> (val | (x << shift)) == val + x * (1u64 << shift),
        shift <= 56 ==> (val | (x << shift)) < (1u64 << ((shift + 7) as u64)),
        shift <= 56 ==> (1u64 << ((shift + 7) as u64)) == 128 * (1u64 << shift),
        shift == 63 ==> (val | (x << shift)) == (val + x * 0x8000_0000_0000_0000) % (
        two64() as int),
{
    assert(val < 1u64 << shift ==> (val | (x << shift)) == val + (x << shift)) by (bit_vector)
        requires
            shift <= 63,
            x < 128,
    ;
    if shift <= 56 {
        assert((x << shift) == x * (1u64 << shift)) by {
            vstd::bits::lemma_u64_pow2_no_overflow(shift as nat);
            vstd::bits::lemma_u64_shl_is_mul(1, shift);
            assert(x * vstd::arithmetic::power2::pow2(shift as nat) <= u64::MAX) by {
                assert(x * (1u64 << shift) <= u64::MAX) by (bit_vector)
                    requires
                        x < 128,
                        shift <= 56,
                ;
            }
            vstd::bits::lemma_u64_shl_is_mul(x, shift);
        }
        assert((val | (x << shift)) < (1u64 << ((shift + 7) as u64)) && (1u64 << ((shift + 7) as u64))
            == 128 * (1u64 << shift)) by (bit_vector)
            requires
                shift <= 56,
                x < 128,
                val < 1u64 << shift,
        ;
    } else if shift == 63 {
        assert((x << 63) == if x % 2 == 1 {
            0x8000_0000_0000_0000u64
        } else {
            0u64
        }) by (bit_vector)
            requires
                x < 128,
        ;
        assert(val < 0x8000_0000_0000_0000) by {
            assert((1u64 << 63) == 0x8000_0000_0000_0000u64) by (bit_vector);
        }
        assert(x == 2 * (x / 2) + x % 2);
        let q = (x / 2) as int;
        let r = (x % 2) as int;
        assert((val + x * 0x8000_0000_0000_0000) == q * two64() + (val + r
            * 0x8000_0000_0000_0000));
        assert((q * two64() + (val + r * 0x8000_0000_0000_0000)) % (two64() as int) == val + r
            * 0x8000_0000_0000_0000) by (nonlinear_arith)
            requires
                0 <= val + r * 0x8000_0000_0000_0000 < two64(),
                two64() == 0x1_0000_0000_0000_0000,
        ;
    }
}

/// Read a base-128 integer at the front of `data`: its value and the number of
/// bytes it takes.
pub fn decode_uvarint(data: &[u8]) -> (r: Result<(u64, usize), PacketError>)
    ensures
        match parse_uvarint(data@) {
            Ok((v, n)) => r == Ok::<(u64, usize), PacketError>((v, n as usize)) && n
                <= data@.len(),
            Err(e) => r == Err::<(u64, usize), PacketError>(e),
        },
{
    let mut val: u64 = 0;
    let mut shift: u32 = 0;
    let mut i: usize = 0;
    assert((1u64 << 0u64) == 1u64) by (bit_vector);
    while i < data.len()
        invariant
            i <= data@.len(),
            i <= 10,
            shift == 7 * i,
            forall|j: int| 0 <= j < i ==> data@[j] >= 128,
            i <= 9 ==> val == le128(data@.take(i as int)),
            i <= 9 ==> val < (1u64 << (shift as u64)),
            i <= 9 ==> (1u64 << (shift as u64)) == pow128(i as nat),
        decreases data@.len() - i,
    {
        if shift >= 64 {
            proof {
                lemma_run_step(data@, i as int);
            }
            return Err(PacketError::UvarintOverflow);
        }
        let byte: u8 = data[i];
        let ghost prev = val;
        let ghost x = (byte % 128) as u64;
        assert((byte & 0x7f) == byte % 128) by (bit_vector);
        assert((byte & 0x80 == 0) == (byte < 128)) by (bit_vector);
        proof {
            lemma_le128_push(data@.take(i as int), byte);
            assert(data@.take(i as int).push(byte) =~= data@.take(i + 1));
            lemma_digit(val, x, shift as u64);
            lemma_run_step(data@, i as int);
            assert(shift == 63 ==> (1u64 << 63u64) == 0x8000_0000_0000_0000u64) by (bit_vector);
        }
        val = val | (((byte & 0x7f) as u64) << shift);
        shift = shift + 7;
        assert(pow128(i as nat) * (byte % 128) == x * pow128(i as nat)) by (nonlinear_arith)
            requires
                x == byte % 128,
        ;
        proof {
            let total = le128(data@.take(i + 1));
            assert(total == prev + x * pow128(i as nat));
            assert(two64() == 0x1_0000_0000_0000_0000);
            if i < 9 {
                assert(val == total);
                vstd::arithmetic::div_mod::lemma_small_mod(total, two64());
            } else {
                assert(val == total % two64());
            }
        }
        if byte & 0x80 == 0 {
            assert(continuation_run(data@) == i);
            assert(parse_uvarint(data@) == Ok::<(u64, int), PacketError>((val, i + 1)));
            return Ok((val, i + 1));
        }
        i = i + 1;
    }
    proof {
        lemma_run_all(data@);
    }
    Err(PacketError::UvarintTruncated)
}


proof fn lemma_uvarint_shape(v: nat, rest: Seq<u8>)
    ensures
        uvarint(v).len() >= 1,
        le128(uvarint(v)) == v,
        continuation_run(uvarint(v) + rest) == uvarint(v).len() - 1,
    decreases v,
{
    let s = uvarint(v);
    if v < 128 {
        assert(s.skip(1) =~= Seq::<u8>::empty());
        reveal_with_fuel(le128, 2);
    } else {
        lemma_uvarint_shape(v / 128, rest);
        assert(s.skip(1) =~= uvarint(v / 128));
        assert((s + rest).skip(1) =~= uvarint(v / 128) + rest);
    }
}

proof fn lemma_uvarint_len(v: nat, n: nat)
    requires
        n >= 1,
        v < pow128(n),
    ensures
        uvarint(v).len() <= n,
    decreases n,
{
    if v >= 128 {
        reveal_with_fuel(pow128, 2);
        assert(v / 128 < pow128((n - 1) as nat));
        lemma_uvarint_len(v / 128, (n - 1) as nat);
    }
}

/// A base-128 integer reads back as itself, whatever follows it: reading stops
/// at its last byte.
pub proof fn uvarint_round_trip(v: u64, rest: Seq<u8>)
    ensures
        parse_uvarint(uvarint(v as nat) + rest) == Ok::<(u64, int), PacketError>(
            (v, uvarint(v as nat).len() as int),
        ),
        1 <= uvarint(v as nat).len() <= 10,
{
    let s = uvarint(v as nat);
    lemma_uvarint_shape(v as nat, rest);
    assert(pow128(10) > u64::MAX) by {
        reveal_with_fuel(pow128, 11);
    }
    lemma_uvarint_len(v as nat, 10);
    assert((s + rest).take(s.len() as int) =~= s);
    vstd::arithmetic::div_mod::lemma_small_mod(v as nat, two64());
}

/// Whether the prefix bytes read so far make a complete length, and the error
/// when the prefix has no end within ten bytes.
pub fn push_prefix_byte(prefix: &mut Vec<u8>, byte: u8) -> (r: Result<bool, PacketError>)
    ensures
        final(prefix)@ == old(prefix)@.push(byte),
        r == if byte < 128 {
            Ok::<bool, PacketError>(true)
        } else if old(prefix)@.len() >= 9 {
            Err::<bool, PacketError>(PacketError::LengthPrefixTooLong)
        } else {
            Ok::<bool, PacketError>(false)
        },
{
    prefix.push(byte);
    assert((byte & 0x80 == 0) == (byte < 128)) by (bit_vector);
    if byte & 0x80 == 0 {
        return Ok(true);
    }
    if prefix.len() > 9 {
        return Err(PacketError::LengthPrefixTooLong);
    }
    Ok(false)
}

/// The length that a complete prefix announces.
pub fn frame_length(prefix: &[u8]) -> (r: Result<u64, PacketError>)
    ensures
        match parse_uvarint(prefix@) {
            Ok((v, _)) => if v > MAX_FRAME {
                r == Err::<u64, PacketError>(PacketError::FrameTooLarge(v))
            } else {
                r == Ok::<u64, PacketError>(v)
            },
            Err(e) => r == Err::<u64, PacketError>(e),
        },
{
    match decode_uvarint(prefix) {
        Ok((length, _)) => if length > MAX_FRAME {
            Err(PacketError::FrameTooLarge(length))
        } else {
            Ok(length)
        },
        Err(e) => Err(e),
    }
}

/// The frame that carries `data`: its length as a base-128 integer, then the
/// bytes.
pub open spec fn frame(data: Seq<u8>) -> Seq<u8> {
    uvarint(data.len()) + data
}

/// What reading a frame from a stream that holds `s` gives: the bytes of the
/// frame and how much of the stream it takes.
pub open spec fn parse_frame(s: Seq<u8>) -> Result<(Seq<u8>, int), PacketError> {
    let k = continuation_run(s);
    if k >= 10 {
        Err(PacketError::LengthPrefixTooLong)
    } else if k >= s.len() {
        Err(PacketError::UnexpectedEof)
    } else {
        let length = (le128(s.take(k as int + 1)) % two64()) as nat;
        if length > MAX_FRAME {
            Err(PacketError::FrameTooLarge(length as u64))
        } else if s.len() < k + 1 + length {
            Err(PacketError::UnexpectedEof)
        } else {
            Ok((s.subrange(k as int + 1, k as int + 1 + length), k as int + 1 + length))
        }
    }
}

/// Append the frame that carries `data`.
pub fn write_frame(writer: &mut Vec<u8>, data: &[u8])
    ensures
        final(writer)@ == old(writer)@ + frame(data@),
{
    encode_uvarint(data.len() as u64, writer);
    append(writer, data);
    assert(writer@ =~= old(writer)@ + frame(data@));
}

proof fn lemma_run_prefix(s: Seq<u8>, n: int)
    requires
        0 <= n <= s.len(),
    ensures
        continuation_run(s) < n ==> continuation_run(s.take(n)) == continuation_run(s),
    decreases s.len(),
{
    if n > 0 && s[0] >= 128 {
        lemma_run_prefix(s.skip(1), n - 1);
        assert(s.take(n).skip(1) =~= s.skip(1).take(n - 1));
    }
}

/// Read the frame at the front of `data`: its bytes and how many bytes of
/// `data` it takes.
pub fn read_frame(data: &[u8]) -> (r: Result<(Vec<u8>, usize), PacketError>)
    ensures
        match parse_frame(data@) {
            Ok((bytes, n)) => r matches Ok((v, m)) && v@ == bytes && m == n && n <= data@.len(),
            Err(e) => r matches Err(f) && f == e,
        },
{
    let mut prefix: Vec<u8> = Vec::new();
    let mut pos: usize = 0;
    let mut done: bool = false;
    while !done
        invariant
            pos <= data@.len(),
            prefix@ == data@.take(pos as int),
            !done ==> pos < 10,
            done ==> 1 <= pos <= 10 && continuation_run(data@) == pos - 1,
            !done ==> forall|j: int| 0 <= j < pos ==> data@[j] >= 128,
        decreases data@.len() - pos, !done as int,
    {
        if pos == data.len() {
            proof {
                lemma_run_all(data@);
            }
            return Err(PacketError::UnexpectedEof);
        }
        proof {
            lemma_run_step(data@, pos as int);
        }
        match push_prefix_byte(&mut prefix, data[pos]) {
            Ok(complete) => {
                done = complete;
            },
            Err(e) => {
                return Err(e);
            },
        }
        pos = pos + 1;
        assert(prefix@ =~= data@.take(pos as int));
    }
    proof {
        lemma_run_prefix(data@, pos as int);
        assert(prefix@.take(pos as int) =~= data@.take(pos as int));
    }
    match frame_length(prefix.as_slice()) {
        Ok(length) => {
            if length > (data.len() - pos) as u64 {
                return Err(PacketError::UnexpectedEof);
            }
            let end: usize = pos + length as usize;
            let mut bytes: Vec<u8> = Vec::new();
            append(&mut bytes, &data[pos..end]);
            assert(bytes@ =~= data@.subrange(pos as int, end as int));
            Ok((bytes, end))
        },
        Err(e) => Err(e),
    }
}

/// A reader gives back the bytes that a writer framed, and takes no byte more
/// than the frame.
pub proof fn frame_round_trip(data: Seq<u8>, rest: Seq<u8>)
    requires
        data.len() <= MAX_FRAME,
    ensures
        parse_frame(frame(data) + rest) == Ok::<(Seq<u8>, int), PacketError>(
            (data, frame(data).len() as int),
        ),
{
    let v = data.len() as u64;
    let s = frame(data) + rest;
    assert(s =~= uvarint(v as nat) + (data + rest));
    uvarint_round_trip(v, data + rest);
    lemma_uvarint_shape(v as nat, data + rest);
    let k = continuation_run(s);
    assert(s.subrange(k as int + 1, k as int + 1 + data.len()) =~= data);
    assert(frame(data).len() == k + 1 + data.len());
}

/// The wire form of a path: each hop plus one as a base-128 integer, then a
/// zero.
pub open spec fn path_wire(path: Seq<u64>) -> Seq<u8>
    decreases path.len(),
{
    if path.len() == 0 {
        seq![0u8]
    } else {
        uvarint((path[0] + 1) as nat) + path_wire(path.skip(1))
    }
}

/// Whether every hop of a path has a wire form.
pub open spec fn path_encodable(path: Seq<u64>) -> bool {
    forall|i: int| 0 <= i < path.len() ==> #[trigger] path[i] < u64::MAX
}

/// What reading a path at the front of `s` gives: the hops and the number of
/// bytes read.
pub open spec fn parse_path(s: Seq<u8>) -> Result<(Seq<u64>, int), PacketError>
    decreases s.len(),
{
    if s.len() == 0 {
        Err(PacketError::PathNotTerminated)
    } else {
        match parse_uvarint(s) {
            Err(e) => Err(e),
            Ok((v, n)) => if v == 0 {
                Ok((Seq::empty(), n))
            } else {
                match parse_path(s.skip(n)) {
                    Err(e) => Err(e),
                    Ok((hops, m)) => Ok((seq![(v - 1) as u64] + hops, n + m)),
                }
            },
        }
    }
}

spec fn after_hops(
    hops: Seq<u64>,
    n: int,
    rest: Result<(Seq<u64>, int), PacketError>,
) -> Result<(Seq<u64>, int), PacketError> {
    match rest {
        Err(e) => Err(e),
        Ok((more, m)) => Ok((hops + more, n + m)),
    }
}

/// The wire form of `path`.
pub fn encode_path(path: &[u64]) -> (buf: Vec<u8>)
    requires
        path_encodable(path@),
    ensures
        buf@ == path_wire(path@),
{
    let mut buf: Vec<u8> = Vec::new();
    let mut i: usize = 0;
    assert(path@.skip(0) =~= path@);
    assert(buf@ + path_wire(path@.skip(0)) =~= path_wire(path@));
    while i < path.len()
        invariant
            i <= path@.len(),
            path_encodable(path@),
            buf@ + path_wire(path@.skip(i as int)) == path_wire(path@),
        decreases path@.len() - i,
    {
        let ghost before = buf@;
        encode_uvarint(path[i] + 1, &mut buf);
        proof {
            let here = path@.skip(i as int);
            assert(here.skip(1) =~= path@.skip(i + 1));
            assert(buf@ + path_wire(path@.skip(i + 1)) =~= before + path_wire(here));
        }
        i = i + 1;
    }
    buf.push(0);
    assert(path@.skip(i as int) =~= Seq::<u64>::empty());
    assert(buf@ =~= path_wire(path@));
    buf
}

/// Read a path at the front of `data`: the hops and the number of bytes they
/// take.
pub fn decode_path(data: &[u8]) -> (r: Result<(Vec<u64>, usize), PacketError>)
    ensures
        match parse_path(data@) {
            Ok((hops, n)) => r matches Ok((v, m)) && v@ == hops && m == n && n <= data@.len()
                && path_encodable(hops),
            Err(e) => r matches Err(f) && f == e,
        },
{
    let mut path: Vec<u64> = Vec::new();
    let mut pos: usize = 0;
    proof {
        assert(data@.skip(0) =~= data@);
        let all = parse_path(data@);
        if let Ok((hops, n)) = all {
            assert(path@ + hops =~= hops);
        }
    }
    loop
        invariant
            pos <= data@.len(),
            parse_path(data@) == after_hops(path@, pos as int, parse_path(data@.skip(pos as int))),
            path_encodable(path@),
        decreases data@.len() - pos,
    {
        if pos >= data.len() {
            return Err(PacketError::PathNotTerminated);
        }
        let ghost here = data@.skip(pos as int);
        assert(data@.subrange(pos as int, data@.len() as int) =~= here);
        match decode_uvarint(&data[pos..data.len()]) {
            Err(e) => {
                return Err(e);
            },
            Ok((val, consumed)) => {
                proof {
                    assert(here.skip(consumed as int) =~= data@.skip(pos + consumed));
                    if val != 0 {
                        let rest = parse_path(data@.skip(pos + consumed));
                        if let Ok((more, m)) = rest {
                            assert(path@ + (seq![(val - 1) as u64] + more) =~= path@.push(
                                (val - 1) as u64,
                            ) + more);
                        }
                    } else {
                        assert(path@ + Seq::<u64>::empty() =~= path@);
                    }
                }
                pos = pos + consumed;
                if val == 0 {
                    return Ok((path, pos));
                }
                path.push(val - 1);
            },
        }
    }
}

/// A path reads back as itself, whatever follows it.
pub proof fn path_round_trip(path: Seq<u64>, rest: Seq<u8>)
    requires
        path_encodable(path),
    ensures
        parse_path(path_wire(path) + rest) == Ok::<(Seq<u64>, int), PacketError>(
            (path, path_wire(path).len() as int),
        ),
    decreases path.len(),
{
    let s = path_wire(path) + rest;
    if path.len() == 0 {
        assert(uvarint(0) =~= seq![0u8]);
        uvarint_round_trip(0, rest);
        assert(path =~= Seq::<u64>::empty());
    } else {
        let v = (path[0] + 1) as u64;
        let tail = path.skip(1);
        uvarint_round_trip(v, path_wire(tail) + rest);
        assert(s =~= uvarint(v as nat) + (path_wire(tail) + rest));
        assert(s.skip(uvarint(v as nat).len() as int) =~= path_wire(tail) + rest);
        path_round_trip(tail, rest);
        assert(seq![path[0]] + tail =~= path);
    }
}

/// Read a base-128 integer that starts at `pos`.
fn uvarint_at(data: &[u8], pos: usize) -> (r: Result<(u64, usize), PacketError>)
    requires
        pos <= data@.len(),
    ensures
        match parse_uvarint(data@.skip(pos as int)) {
            Ok((v, n)) => r == Ok::<(u64, usize), PacketError>((v, n as usize)) && pos + n
                <= data@.len() == data.len(),
            Err(e) => r == Err::<(u64, usize), PacketError>(e),
        },
{
    assert(data@.subrange(pos as int, data@.len() as int) =~= data@.skip(pos as int));
    decode_uvarint(&data[pos..data.len()])
}

/// A request for a signature that also measures the round trip.
#[derive(Clone, Debug)]
pub struct SigReq {
    pub tree_id: u8,
    pub seq: u64,
    pub timestamp_ms: u64,
    pub pub_key: [u8; 32],
}

/// The contents of a [`SigReq`].
#[verifier::ext_equal]
pub struct SigReqView {
    pub tree_id: u8,
    pub seq: u64,
    pub timestamp_ms: u64,
    pub pub_key: Seq<u8>,
}

impl View for SigReq {
    type V = SigReqView;

    open spec fn view(&self) -> SigReqView {
        SigReqView {
            tree_id: self.tree_id,
            seq: self.seq,
            timestamp_ms: self.timestamp_ms,
            pub_key: self.pub_key@,
        }
    }
}

impl SigReqView {
    /// The wire form, without the type byte.
    pub open spec fn wire(self) -> Seq<u8> {
        seq![self.tree_id] + uvarint(self.seq as nat) + uvarint(self.timestamp_ms as nat)
            + self.pub_key
    }

    pub open spec fn wf(self) -> bool {
        self.pub_key.len() == 32
    }
}

/// What `s`, a packet without its type byte, says as a [`SigReq`].
pub open spec fn parse_sig_req(s: Seq<u8>) -> Result<SigReqView, PacketError> {
    if s.len() < 2 {
        Err(PacketError::SigReqTooShort)
    } else {
        match parse_uvarint(s.skip(1)) {
            Err(e) => Err(e),
            Ok((seq, n)) => match parse_uvarint(s.skip(1 + n)) {
                Err(e) => Err(e),
                Ok((timestamp_ms, m)) => if s.len() < 1 + n + m + 32 {
                    Err(PacketError::SigReqMissingPubKey)
                } else {
                    Ok(
                        SigReqView {
                            tree_id: s[0],
                            seq,
                            timestamp_ms,
                            pub_key: s.subrange(1 + n + m, 1 + n + m + 32),
                        },
                    )
                },
            },
        }
    }
}

impl SigReq {
    pub fn encode(&self) -> (buf: Vec<u8>)
        ensures
            buf@ == seq![SIG_REQ] + self@.wire(),
    {
        let mut buf: Vec<u8> = vec![SIG_REQ, self.tree_id];
        encode_uvarint(self.seq, &mut buf);
        encode_uvarint(self.timestamp_ms, &mut buf);
        append(&mut buf, self.pub_key.as_slice());
        assert(buf@ =~= seq![SIG_REQ] + self@.wire());
        buf
    }

    pub fn decode(data: &[u8]) -> (r: Result<SigReq, PacketError>)
        ensures
            match parse_sig_req(data@) {
                Ok(v) => r matches Ok(m) && m@ == v,
                Err(e) => r matches Err(f) && f == e,
            },
    {
        if data.len() < 2 {
            return Err(PacketError::SigReqTooShort);
        }
        let tree_id: u8 = data[0];
        let mut pos: usize = 1;
        let (seq, n) = match uvarint_at(data, pos) {
            Ok(x) => x,
            Err(e) => {
                return Err(e);
            },
        };
        pos = pos + n;
        let (timestamp_ms, m) = match uvarint_at(data, pos) {
            Ok(x) => x,
            Err(e) => {
                return Err(e);
            },
        };
        pos = pos + m;
        if data.len() - pos < 32 {
            return Err(PacketError::SigReqMissingPubKey);
        }
        let pub_key: [u8; 32] = read_array(data, pos);
        Ok(SigReq { tree_id, seq, timestamp_ms, pub_key })
    }
}

/// A signature request reads back as itself.
pub proof fn sig_req_round_trip(v: SigReqView, rest: Seq<u8>)
    requires
        v.wf(),
    ensures
        parse_sig_req(v.wire() + rest) == Ok::<SigReqView, PacketError>(v),
{
    let s = v.wire() + rest;
    let a = uvarint(v.seq as nat);
    let b = uvarint(v.timestamp_ms as nat);
    let i: int = 1 + a.len() as int;
    let j: int = i + b.len() as int;
    assert(s.skip(1) =~= a + (b + v.pub_key + rest));
    uvarint_round_trip(v.seq, b + v.pub_key + rest);
    assert(s.skip(i) =~= b + (v.pub_key + rest));
    uvarint_round_trip(v.timestamp_ms, v.pub_key + rest);
    assert(s.subrange(j, j + 32) =~= v.pub_key);
    assert(s[0] == v.tree_id);
}

/// The answer to a [`SigReq`].
#[derive(Clone, Debug)]
pub struct SigRes {
    pub tree_id: u8,
    pub seq: u64,
    pub timestamp_ms: u64,
    pub signature: [u8; 64],
    pub pub_key: [u8; 32],
}

/// The contents of a [`SigRes`].
#[verifier::ext_equal]
pub struct SigResView {
    pub tree_id: u8,
    pub seq: u64,
    pub timestamp_ms: u64,
    pub signature: Seq<u8>,
    pub pub_key: Seq<u8>,
}

impl View for SigRes {
    type V = SigResView;

    open spec fn view(&self) -> SigResView {
        SigResView {
            tree_id: self.tree_id,
            seq: self.seq,
            timestamp_ms: self.timestamp_ms,
            signature: self.signature@,
            pub_key: self.pub_key@,
        }
    }
}

impl SigResView {
    /// The wire form, without the type byte.
    pub open spec fn wire(self) -> Seq<u8> {
        seq![self.tree_id] + uvarint(self.seq as nat) + uvarint(self.timestamp_ms as nat)
            + self.signature + self.pub_key
    }

    pub open spec fn wf(self) -> bool {
        self.signature.len() == 64 && self.pub_key.len() == 32
    }
}

/// What `s`, a packet without its type byte, says as a [`SigRes`].
pub open spec fn parse_sig_res(s: Seq<u8>) -> Result<SigResView, PacketError> {
    if s.len() < 2 {
        Err(PacketError::SigResTooShort)
    } else {
        match parse_uvarint(s.skip(1)) {
            Err(e) => Err(e),
            Ok((seq, n)) => match parse_uvarint(s.skip(1 + n)) {
                Err(e) => Err(e),
                Ok((timestamp_ms, m)) => {
                    let pos = 1 + n + m;
                    if s.len() < pos + 96 {
                        Err(PacketError::SigResMissingSigKey)
                    } else {
                        Ok(
                            SigResView {
                                tree_id: s[0],
                                seq,
                                timestamp_ms,
                                signature: s.subrange(pos, pos + 64),
                                pub_key: s.subrange(pos + 64, pos + 96),
                            },
                        )
                    }
                },
            },
        }
    }
}

impl SigRes {
    pub fn encode(&self) -> (buf: Vec<u8>)
        ensures
            buf@ == seq![SIG_RES] + self@.wire(),
    {
        let mut buf: Vec<u8> = vec![SIG_RES, self.tree_id];
        encode_uvarint(self.seq, &mut buf);
        encode_uvarint(self.timestamp_ms, &mut buf);
        append(&mut buf, self.signature.as_slice());
        append(&mut buf, self.pub_key.as_slice());
        assert(buf@ =~= seq![SIG_RES] + self@.wire());
        buf
    }

    pub fn decode(data: &[u8]) -> (r: Result<SigRes, PacketError>)
        ensures
            match parse_sig_res(data@) {
                Ok(v) => r matches Ok(m) && m@ == v,
                Err(e) => r matches Err(f) && f == e,
            },
    {
        if data.len() < 2 {
            return Err(PacketError::SigResTooShort);
        }
        let tree_id: u8 = data[0];
        let mut pos: usize = 1;
        let (seq, n) = match uvarint_at(data, pos) {
            Ok(x) => x,
            Err(e) => {
                return Err(e);
            },
        };
        pos = pos + n;
        let (timestamp_ms, m) = match uvarint_at(data, pos) {
            Ok(x) => x,
            Err(e) => {
                return Err(e);
            },
        };
        pos = pos + m;
        if data.len() - pos < 96 {
            return Err(PacketError::SigResMissingSigKey);
        }
        let signature: [u8; 64] = read_array(data, pos);
        let pub_key: [u8; 32] = read_array(data, pos + 64);
        Ok(SigRes { tree_id, seq, timestamp_ms, signature, pub_key })
    }
}

/// A signature answer reads back as itself.
pub proof fn sig_res_round_trip(v: SigResView, rest: Seq<u8>)
    requires
        v.wf(),
    ensures
        parse_sig_res(v.wire() + rest) == Ok::<SigResView, PacketError>(v),
{
    let s = v.wire() + rest;
    let a = uvarint(v.seq as nat);
    let b = uvarint(v.timestamp_ms as nat);
    let tail = v.signature + v.pub_key + rest;
    let i: int = 1 + a.len() as int;
    let j: int = i + b.len() as int;
    assert(s.skip(1) =~= a + (b + tail));
    uvarint_round_trip(v.seq, b + tail);
    assert(s.skip(i) =~= b + tail);
    uvarint_round_trip(v.timestamp_ms, tail);
    assert(s.subrange(j, j + 64) =~= v.signature);
    assert(s.subrange(j + 64, j + 96) =~= v.pub_key);
    assert(s[0] == v.tree_id);
}

/// A node's position in one spanning tree, signed by the node.
#[derive(Clone, Debug)]
pub struct Announce {
    pub tree_id: u8,
    pub root: [u8; 32],
    pub root_seq: u64,
    pub path_cost: u64,
    pub sender: [u8; 32],
    pub signature: [u8; 64],
    pub depth: u32,
}

/// The contents of an [`Announce`].
#[verifier::ext_equal]
pub struct AnnounceView {
    pub tree_id: u8,
    pub root: Seq<u8>,
    pub root_seq: u64,
    pub path_cost: u64,
    pub sender: Seq<u8>,
    pub signature: Seq<u8>,
    pub depth: u32,
}

impl View for Announce {
    type V = AnnounceView;

    open spec fn view(&self) -> AnnounceView {
        AnnounceView {
            tree_id: self.tree_id,
            root: self.root@,
            root_seq: self.root_seq,
            path_cost: self.path_cost,
            sender: self.sender@,
            signature: self.signature@,
            depth: self.depth,
        }
    }
}

impl AnnounceView {
    /// The bytes that the sender signs.
    pub open spec fn signed(self) -> Seq<u8> {
        seq![self.tree_id] + self.root + uvarint(self.root_seq as nat) + uvarint(
            self.path_cost as nat,
        ) + self.sender + uvarint(self.depth as nat)
    }

    /// The wire form, without the type byte.
    pub open spec fn wire(self) -> Seq<u8> {
        seq![self.tree_id] + self.root + uvarint(self.root_seq as nat) + uvarint(
            self.path_cost as nat,
        ) + self.sender + self.signature + uvarint(self.depth as nat)
    }

    pub open spec fn wf(self) -> bool {
        self.root.len() == 32 && self.sender.len() == 32 && self.signature.len() == 64
    }
}

/// What `s`, a packet without its type byte, says as an [`Announce`]. A packet
/// that ends after the signature has depth 0.
pub open spec fn parse_announce(s: Seq<u8>) -> Result<AnnounceView, PacketError> {
    if s.len() < 33 {
        Err(PacketError::AnnounceTooShort)
    } else {
        match parse_uvarint(s.skip(33)) {
            Err(e) => Err(e),
            Ok((root_seq, n)) => match parse_uvarint(s.skip(33 + n)) {
                Err(e) => Err(e),
                Ok((path_cost, m)) => {
                    let pos = 33 + n + m;
                    if s.len() < pos + 96 {
                        Err(PacketError::AnnounceMissingSenderSig)
                    } else {
                        let depth = if s.len() == pos + 96 {
                            Ok::<u64, PacketError>(0u64)
                        } else {
                            match parse_uvarint(s.skip(pos + 96)) {
                                Err(e) => Err(e),
                                Ok((d, _)) => Ok(d),
                            }
                        };
                        match depth {
                            Err(e) => Err(e),
                            Ok(d) => Ok(
                                AnnounceView {
                                    tree_id: s[0],
                                    root: s.subrange(1, 33),
                                    root_seq,
                                    path_cost,
                                    sender: s.subrange(pos, pos + 32),
                                    signature: s.subrange(pos + 32, pos + 96),
                                    depth: (d % 0x1_0000_0000) as u32,
                                },
                            ),
                        }
                    }
                },
            },
        }
    }
}

impl Announce {
    /// The bytes that the sender signs.
    pub fn sign_bytes(&self) -> (buf: Vec<u8>)
        ensures
            buf@ == self@.signed(),
    {
        let mut buf: Vec<u8> = vec![self.tree_id];
        append(&mut buf, self.root.as_slice());
        encode_uvarint(self.root_seq, &mut buf);
        encode_uvarint(self.path_cost, &mut buf);
        append(&mut buf, self.sender.as_slice());
        encode_uvarint(self.depth as u64, &mut buf);
        assert(buf@ =~= self@.signed());
        buf
    }

    pub fn encode(&self) -> (buf: Vec<u8>)
        ensures
            buf@ == seq![ANNOUNCE] + self@.wire(),
    {
        let mut buf: Vec<u8> = vec![ANNOUNCE, self.tree_id];
        append(&mut buf, self.root.as_slice());
        encode_uvarint(self.root_seq, &mut buf);
        encode_uvarint(self.path_cost, &mut buf);
        append(&mut buf, self.sender.as_slice());
        append(&mut buf, self.signature.as_slice());
        encode_uvarint(self.depth as u64, &mut buf);
        assert(buf@ =~= seq![ANNOUNCE] + self@.wire());
        buf
    }

    pub fn decode(data: &[u8]) -> (r: Result<Announce, PacketError>)
        ensures
            match parse_announce(data@) {
                Ok(v) => r matches Ok(m) && m@ == v,
                Err(e) => r matches Err(f) && f == e,
            },
    {
        if data.len() < 33 {
            return Err(PacketError::AnnounceTooShort);
        }
        let tree_id: u8 = data[0];
        let root: [u8; 32] = read_array(data, 1);
        let mut pos: usize = 33;
        let (root_seq, n) = match uvarint_at(data, pos) {
            Ok(x) => x,
            Err(e) => {
                return Err(e);
            },
        };
        pos = pos + n;
        let (path_cost, m) = match uvarint_at(data, pos) {
            Ok(x) => x,
            Err(e) => {
                return Err(e);
            },
        };
        pos = pos + m;
        if data.len() - pos < 96 {
            return Err(PacketError::AnnounceMissingSenderSig);
        }
        let sender: [u8; 32] = read_array(data, pos);
        let signature: [u8; 64] = read_array(data, pos + 32);
        pos = pos + 96;
        let depth: u32 = if pos < data.len() {
            match uvarint_at(data, pos) {
                Ok((d, _)) => {
                    assert(d as u32 == d % 0x1_0000_0000) by (bit_vector);
                    d as u32
                },
                Err(e) => {
                    return Err(e);
                },
            }
        } else {
            0
        };
        Ok(Announce { tree_id, root, root_seq, path_cost, sender, signature, depth })
    }
}

/// An announcement reads back as itself.
pub proof fn announce_round_trip(v: AnnounceView, rest: Seq<u8>)
    requires
        v.wf(),
    ensures
        parse_announce(v.wire() + rest) == Ok::<AnnounceView, PacketError>(v),
{
    let s = v.wire() + rest;
    let a = uvarint(v.root_seq as nat);
    let b = uvarint(v.path_cost as nat);
    let c = uvarint(v.depth as nat);
    let tail = v.sender + v.signature + c + rest;
    let i: int = 33 + a.len() as int;
    let j: int = i + b.len() as int;
    assert(s.skip(33) =~= a + (b + tail));
    uvarint_round_trip(v.root_seq, b + tail);
    assert(s.skip(i) =~= b + tail);
    uvarint_round_trip(v.path_cost, tail);
    assert(s.subrange(j, j + 32) =~= v.sender);
    assert(s.subrange(j + 32, j + 96) =~= v.signature);
    assert(s.skip(j + 96) =~= c + rest);
    uvarint_round_trip(v.depth as u64, rest);
    assert(s.subrange(1, 33) =~= v.root);
    assert(s[0] == v.tree_id);
}

/// A number in front of some bytes, and the bytes behind it, can be told apart.
proof fn lemma_uvarint_front(a: u64, b: u64, x: Seq<u8>, y: Seq<u8>)
    requires
        uvarint(a as nat) + x == uvarint(b as nat) + y,
    ensures
        a == b,
        x == y,
{
    uvarint_round_trip(a, x);
    uvarint_round_trip(b, y);
    let n = uvarint(a as nat).len() as int;
    assert((uvarint(a as nat) + x).skip(n) =~= x);
    assert((uvarint(b as nat) + y).skip(n) =~= y);
}

/// Every signed field shows in the signed bytes: two announcements with the
/// same signed bytes differ in nothing but the signature.
pub proof fn announce_signed_bytes_determine_fields(v: AnnounceView, w: AnnounceView)
    requires
        v.wf(),
        w.wf(),
        v.signed() == w.signed(),
    ensures
        v == (AnnounceView { signature: v.signature, ..w }),
{
    let s = v.signed();
    let none = Seq::<u8>::empty();
    let vc = v.sender + uvarint(v.depth as nat);
    let wc = w.sender + uvarint(w.depth as nat);
    let vb = uvarint(v.path_cost as nat) + vc;
    let wb = uvarint(w.path_cost as nat) + wc;
    assert(s[0] == v.tree_id && w.signed()[0] == w.tree_id);
    assert(s.subrange(1, 33) =~= v.root);
    assert(w.signed().subrange(1, 33) =~= w.root);
    assert(s.skip(33) =~= uvarint(v.root_seq as nat) + vb);
    assert(w.signed().skip(33) =~= uvarint(w.root_seq as nat) + wb);
    lemma_uvarint_front(v.root_seq, w.root_seq, vb, wb);
    lemma_uvarint_front(v.path_cost, w.path_cost, vc, wc);
    assert(vc.take(32) =~= v.sender);
    assert(wc.take(32) =~= w.sender);
    assert(vc.skip(32) =~= uvarint(v.depth as nat) + none);
    assert(wc.skip(32) =~= uvarint(w.depth as nat) + none);
    lemma_uvarint_front(v.depth as u64, w.depth as u64, none, none);
}

/// The routing filter of one tree, as gossiped between neighbours.
///
/// `generation` rises every few minutes; a receiver that sees a newer one
/// drops the copy it holds, so that entries of departed nodes go away.
#[derive(Clone, Debug)]
pub struct CuckooMsg {
    pub tree_id: u8,
    pub generation: u64,
    pub data: [u8; FILTER_BYTES],
}

/// The contents of a [`CuckooMsg`].
#[verifier::ext_equal]
pub struct CuckooMsgView {
    pub tree_id: u8,
    pub generation: u64,
    pub data: Seq<u8>,
}

impl View for CuckooMsg {
    type V = CuckooMsgView;

    open spec fn view(&self) -> CuckooMsgView {
        CuckooMsgView { tree_id: self.tree_id, generation: self.generation, data: self.data@ }
    }
}

impl CuckooMsgView {
    /// The wire form, without the type byte.
    pub open spec fn wire(self) -> Seq<u8> {
        seq![self.tree_id] + uvarint(self.generation as nat) + self.data
    }

    pub open spec fn wf(self) -> bool {
        self.data.len() == FILTER_BYTES
    }
}

/// What `s`, a packet without its type byte, says as a [`CuckooMsg`].
pub open spec fn parse_cuckoo_msg(s: Seq<u8>) -> Result<CuckooMsgView, PacketError> {
    if s.len() == 0 {
        Err(PacketError::CuckooMsgTooShort)
    } else {
        match parse_uvarint(s.skip(1)) {
            Err(e) => Err(e),
            Ok((generation, n)) => if s.len() < 1 + n + FILTER_BYTES {
                Err(PacketError::CuckooMsgDataTooShort((s.len() - 1 - n) as u64))
            } else {
                Ok(
                    CuckooMsgView {
                        tree_id: s[0],
                        generation,
                        data: s.subrange(1 + n, 1 + n + FILTER_BYTES),
                    },
                )
            },
        }
    }
}

impl CuckooMsg {
    pub fn encode(&self) -> (buf: Vec<u8>)
        ensures
            buf@ == seq![CUCKOO_FILTER] + self@.wire(),
    {
        let mut buf: Vec<u8> = vec![CUCKOO_FILTER, self.tree_id];
        encode_uvarint(self.generation, &mut buf);
        append(&mut buf, self.data.as_slice());
        assert(buf@ =~= seq![CUCKOO_FILTER] + self@.wire());
        buf
    }

    pub fn decode(data: &[u8]) -> (r: Result<CuckooMsg, PacketError>)
        ensures
            match parse_cuckoo_msg(data@) {
                Ok(v) => r matches Ok(m) && m@ == v,
                Err(e) => r matches Err(f) && f == e,
            },
    {
        if data.len() == 0 {
            return Err(PacketError::CuckooMsgTooShort);
        }
        let tree_id: u8 = data[0];
        let mut pos: usize = 1;
        let (generation, n) = match uvarint_at(data, pos) {
            Ok(x) => x,
            Err(e) => {
                return Err(e);
            },
        };
        pos = pos + n;
        if data.len() - pos < FILTER_BYTES {
            return Err(PacketError::CuckooMsgDataTooShort((data.len() - pos) as u64));
        }
        let cdata: [u8; FILTER_BYTES] = read_array(data, pos);
        Ok(CuckooMsg { tree_id, generation, data: cdata })
    }
}

/// A filter message reads back as itself.
pub proof fn cuckoo_msg_round_trip(v: CuckooMsgView, rest: Seq<u8>)
    requires
        v.wf(),
    ensures
        parse_cuckoo_msg(v.wire() + rest) == Ok::<CuckooMsgView, PacketError>(v),
{
    let s = v.wire() + rest;
    let a = uvarint(v.generation as nat);
    let i: int = 1 + a.len() as int;
    assert(s.skip(1) =~= a + (v.data + rest));
    uvarint_round_trip(v.generation, v.data + rest);
    assert(s.subrange(i, i + FILTER_BYTES) =~= v.data);
    assert(s[0] == v.tree_id);
}

/// A search for the node whose key, or key prefix, is `target`.
#[derive(Clone, Debug)]
pub struct PathLookup {
    pub target: [u8; 32],
    pub source: [u8; 32],
    pub id: u64,
    pub path: Vec<u64>,
}

/// The contents of a [`PathLookup`].
#[verifier::ext_equal]
pub struct PathLookupView {
    pub target: Seq<u8>,
    pub source: Seq<u8>,
    pub id: u64,
    pub path: Seq<u64>,
}

impl View for PathLookup {
    type V = PathLookupView;

    open spec fn view(&self) -> PathLookupView {
        PathLookupView {
            target: self.target@,
            source: self.source@,
            id: self.id,
            path: self.path@,
        }
    }
}

impl PathLookupView {
    /// The wire form, without the type byte.
    pub open spec fn wire(self) -> Seq<u8> {
        self.target + self.source + uvarint(self.id as nat) + path_wire(self.path)
    }

    pub open spec fn wf(self) -> bool {
        self.target.len() == 32 && self.source.len() == 32 && path_encodable(self.path)
    }
}

/// What `s`, a packet without its type byte, says as a [`PathLookup`].
pub open spec fn parse_path_lookup(s: Seq<u8>) -> Result<PathLookupView, PacketError> {
    if s.len() < 64 {
        Err(PacketError::PathLookupTooShort)
    } else {
        match parse_uvarint(s.skip(64)) {
            Err(e) => Err(e),
            Ok((id, n)) => match parse_path(s.skip(64 + n)) {
                Err(e) => Err(e),
                Ok((path, _)) => Ok(
                    PathLookupView {
                        target: s.subrange(0, 32),
                        source: s.subrange(32, 64),
                        id,
                        path,
                    },
                ),
            },
        }
    }
}

impl PathLookup {
    pub fn encode(&self) -> (buf: Vec<u8>)
        requires
            path_encodable(self.path@),
        ensures
            buf@ == seq![PATH_LOOKUP] + self@.wire(),
    {
        let mut buf: Vec<u8> = vec![PATH_LOOKUP];
        append(&mut buf, self.target.as_slice());
        append(&mut buf, self.source.as_slice());
        encode_uvarint(self.id, &mut buf);
        let path: Vec<u8> = encode_path(self.path.as_slice());
        append(&mut buf, path.as_slice());
        assert(buf@ =~= seq![PATH_LOOKUP] + self@.wire());
        buf
    }

    pub fn decode(data: &[u8]) -> (r: Result<PathLookup, PacketError>)
        ensures
            match parse_path_lookup(data@) {
                Ok(v) => r matches Ok(m) && m@ == v && v.wf(),
                Err(e) => r matches Err(f) && f == e,
            },
    {
        if data.len() < 64 {
            return Err(PacketError::PathLookupTooShort);
        }
        let target: [u8; 32] = read_array(data, 0);
        let source: [u8; 32] = read_array(data, 32);
        let mut pos: usize = 64;
        let (id, n) = match uvarint_at(data, pos) {
            Ok(x) => x,
            Err(e) => {
                return Err(e);
            },
        };
        pos = pos + n;
        assert(data@.subrange(pos as int, data@.len() as int) =~= data@.skip(pos as int));
        match decode_path(&data[pos..data.len()]) {
            Ok((path, _)) => Ok(PathLookup { target, source, id, path }),
            Err(e) => Err(e),
        }
    }
}

/// The message reads back as itself.
pub proof fn path_lookup_round_trip(v: PathLookupView, rest: Seq<u8>)
    requires
        v.wf(),
    ensures
        parse_path_lookup(v.wire() + rest) == Ok::<PathLookupView, PacketError>(v),
{
    let s = v.wire() + rest;
    let a = uvarint(v.id as nat);
    let i: int = 64 + a.len() as int;
    assert(s.skip(64) =~= a + (path_wire(v.path) + rest));
    uvarint_round_trip(v.id, path_wire(v.path) + rest);
    assert(s.skip(i) =~= path_wire(v.path) + rest);
    path_round_trip(v.path, rest);
    assert(s.subrange(0, 32) =~= v.target);
    assert(s.subrange(32, 64) =~= v.source);
}

/// The answer to a [`PathLookup`], sent back towards its source.
#[derive(Clone, Debug)]
pub struct PathNotify {
    pub target: [u8; 32],
    pub source: [u8; 32],
    pub id: u64,
    pub path: Vec<u64>,
}

/// The contents of a [`PathNotify`].
#[verifier::ext_equal]
pub struct PathNotifyView {
    pub target: Seq<u8>,
    pub source: Seq<u8>,
    pub id: u64,
    pub path: Seq<u64>,
}

impl View for PathNotify {
    type V = PathNotifyView;

    open spec fn view(&self) -> PathNotifyView {
        PathNotifyView {
            target: self.target@,
            source: self.source@,
            id: self.id,
            path: self.path@,
        }
    }
}

impl PathNotifyView {
    /// The wire form, without the type byte.
    pub open spec fn wire(self) -> Seq<u8> {
        self.target + self.source + uvarint(self.id as nat) + path_wire(self.path)
    }

    pub open spec fn wf(self) -> bool {
        self.target.len() == 32 && self.source.len() == 32 && path_encodable(self.path)
    }
}

/// What `s`, a packet without its type byte, says as a [`PathNotify`].
pub open spec fn parse_path_notify(s: Seq<u8>) -> Result<PathNotifyView, PacketError> {
    if s.len() < 64 {
        Err(PacketError::PathNotifyTooShort)
    } else {
        match parse_uvarint(s.skip(64)) {
            Err(e) => Err(e),
            Ok((id, n)) => match parse_path(s.skip(64 + n)) {
                Err(e) => Err(e),
                Ok((path, _)) => Ok(
                    PathNotifyView {
                        target: s.subrange(0, 32),
                        source: s.subrange(32, 64),
                        id,
                        path,
                    },
                ),
            },
        }
    }
}

impl PathNotify {
    pub fn encode(&self) -> (buf: Vec<u8>)
        requires
            path_encodable(self.path@),
        ensures
            buf@ == seq![PATH_NOTIFY] + self@.wire(),
    {
        let mut buf: Vec<u8> = vec![PATH_NOTIFY];
        append(&mut buf, self.target.as_slice());
        append(&mut buf, self.source.as_slice());
        encode_uvarint(self.id, &mut buf);
        let path: Vec<u8> = encode_path(self.path.as_slice());
        append(&mut buf, path.as_slice());
        assert(buf@ =~= seq![PATH_NOTIFY] + self@.wire());
        buf
    }

    pub fn decode(data: &[u8]) -> (r: Result<PathNotify, PacketError>)
        ensures
            match parse_path_notify(data@) {
                Ok(v) => r matches Ok(m) && m@ == v && v.wf(),
                Err(e) => r matches Err(f) && f == e,
            },
    {
        if data.len() < 64 {
            return Err(PacketError::PathNotifyTooShort);
        }
        let target: [u8; 32] = read_array(data, 0);
        let source: [u8; 32] = read_array(data, 32);
        let mut pos: usize = 64;
        let (id, n) = match uvarint_at(data, pos) {
            Ok(x) => x,
            Err(e) => {
                return Err(e);
            },
        };
        pos = pos + n;
        assert(data@.subrange(pos as int, data@.len() as int) =~= data@.skip(pos as int));
        match decode_path(&data[pos..data.len()]) {
            Ok((path, _)) => Ok(PathNotify { target, source, id, path }),
            Err(e) => Err(e),
        }
    }
}

/// The message reads back as itself.
pub proof fn path_notify_round_trip(v: PathNotifyView, rest: Seq<u8>)
    requires
        v.wf(),
    ensures
        parse_path_notify(v.wire() + rest) == Ok::<PathNotifyView, PacketError>(v),
{
    let s = v.wire() + rest;
    let a = uvarint(v.id as nat);
    let i: int = 64 + a.len() as int;
    assert(s.skip(64) =~= a + (path_wire(v.path) + rest));
    uvarint_round_trip(v.id, path_wire(v.path) + rest);
    assert(s.skip(i) =~= path_wire(v.path) + rest);
    path_round_trip(v.path, rest);
    assert(s.subrange(0, 32) =~= v.target);
    assert(s.subrange(32, 64) =~= v.source);
}

/// Notice that a path to `target` no longer works.
#[derive(Clone, Debug)]
pub struct PathBroken {
    pub target: [u8; 32],
    pub source: [u8; 32],
    pub id: u64,
}

/// The contents of a [`PathBroken`].
#[verifier::ext_equal]
pub struct PathBrokenView {
    pub target: Seq<u8>,
    pub source: Seq<u8>,
    pub id: u64,
}

impl View for PathBroken {
    type V = PathBrokenView;

    open spec fn view(&self) -> PathBrokenView {
        PathBrokenView { target: self.target@, source: self.source@, id: self.id }
    }
}

impl PathBrokenView {
    /// The wire form, without the type byte.
    pub open spec fn wire(self) -> Seq<u8> {
        self.target + self.source + uvarint(self.id as nat)
    }

    pub open spec fn wf(self) -> bool {
        self.target.len() == 32 && self.source.len() == 32
    }
}

/// What `s`, a packet without its type byte, says as a [`PathBroken`].
pub open spec fn parse_path_broken(s: Seq<u8>) -> Result<PathBrokenView, PacketError> {
    if s.len() < 64 {
        Err(PacketError::PathBrokenTooShort)
    } else {
        match parse_uvarint(s.skip(64)) {
            Err(e) => Err(e),
            Ok((id, _)) => Ok(
                PathBrokenView { target: s.subrange(0, 32), source: s.subrange(32, 64), id },
            ),
        }
    }
}

impl PathBroken {
    pub fn encode(&self) -> (buf: Vec<u8>)
        ensures
            buf@ == seq![PATH_BROKEN] + self@.wire(),
    {
        let mut buf: Vec<u8> = vec![PATH_BROKEN];
        append(&mut buf, self.target.as_slice());
        append(&mut buf, self.source.as_slice());
        encode_uvarint(self.id, &mut buf);
        assert(buf@ =~= seq![PATH_BROKEN] + self@.wire());
        buf
    }

    pub fn decode(data: &[u8]) -> (r: Result<PathBroken, PacketError>)
        ensures
            match parse_path_broken(data@) {
                Ok(v) => r matches Ok(m) && m@ == v,
                Err(e) => r matches Err(f) && f == e,
            },
    {
        if data.len() < 64 {
            return Err(PacketError::PathBrokenTooShort);
        }
        let target: [u8; 32] = read_array(data, 0);
        let source: [u8; 32] = read_array(data, 32);
        match uvarint_at(data, 64) {
            Ok((id, _)) => Ok(PathBroken { target, source, id }),
            Err(e) => Err(e),
        }
    }
}

/// The message reads back as itself.
pub proof fn path_broken_round_trip(v: PathBrokenView, rest: Seq<u8>)
    requires
        v.wf(),
    ensures
        parse_path_broken(v.wire() + rest) == Ok::<PathBrokenView, PacketError>(v),
{
    let s = v.wire() + rest;
    let a = uvarint(v.id as nat);
    assert(s.skip(64) =~= a + rest);
    uvarint_round_trip(v.id, rest);
    assert(s.subrange(0, 32) =~= v.target);
    assert(s.subrange(32, 64) =~= v.source);
}

/// A session packet on its way to the node behind `routing_tag`.
///
/// Relays see the routing tag and never the key of either end. `enc_header` is
/// an ephemeral X25519 key (32 bytes), the sender's key under AEAD (48 bytes)
/// and the destination's key under AEAD (48 bytes); only the destination can
/// open it. The payload is padded before it is encrypted, so its length says
/// little about the message.
#[derive(Clone, Debug)]
pub struct Traffic {
    /// Source routing path (hop indices).
    pub path: Vec<u64>,
    /// Key of the neighbour that sent the packet on.
    pub from: [u8; 32],
    pub enc_header: [u8; 128],
    pub routing_tag: [u8; 16],
    /// `PKT_CONTROL` or `PKT_DATA`; relays see it.
    pub pkt_type: u8,
    /// Hops taken so far.
    pub watermark: u64,
    pub payload: Vec<u8>,
}

/// The contents of a [`Traffic`].
#[verifier::ext_equal]
pub struct TrafficView {
    pub path: Seq<u64>,
    pub from: Seq<u8>,
    pub enc_header: Seq<u8>,
    pub routing_tag: Seq<u8>,
    pub pkt_type: u8,
    pub watermark: u64,
    pub payload: Seq<u8>,
}

impl View for Traffic {
    type V = TrafficView;

    open spec fn view(&self) -> TrafficView {
        TrafficView {
            path: self.path@,
            from: self.from@,
            enc_header: self.enc_header@,
            routing_tag: self.routing_tag@,
            pkt_type: self.pkt_type,
            watermark: self.watermark,
            payload: self.payload@,
        }
    }
}

impl TrafficView {
    /// The wire form, without the type byte.
    pub open spec fn wire(self) -> Seq<u8> {
        path_wire(self.path) + self.from + self.enc_header + self.routing_tag + seq![self.pkt_type]
            + uvarint(self.watermark as nat) + uvarint(self.payload.len()) + self.payload
    }

    pub open spec fn wf(self) -> bool {
        &&& path_encodable(self.path)
        &&& self.from.len() == 32
        &&& self.enc_header.len() == 128
        &&& self.routing_tag.len() == 16
        &&& self.payload.len() <= u64::MAX
    }
}

/// What `s`, a packet without its type byte, says as a [`Traffic`].
pub open spec fn parse_traffic(s: Seq<u8>) -> Result<TrafficView, PacketError> {
    match parse_path(s) {
        Err(e) => Err(e),
        Ok((path, p)) => if s.len() < p + 177 {
            Err(PacketError::TrafficTooShort((s.len() - p) as u64))
        } else {
            match parse_uvarint(s.skip(p + 177)) {
                Err(e) => Err(e),
                Ok((watermark, n)) => match parse_uvarint(s.skip(p + 177 + n)) {
                    Err(e) => Err(e),
                    Ok((length, m)) => {
                        let pos = p + 177 + n + m;
                        if s.len() < pos + length {
                            Err(
                                PacketError::TrafficPayloadTruncated(
                                    length,
                                    (s.len() - pos) as u64,
                                ),
                            )
                        } else {
                            Ok(
                                TrafficView {
                                    path,
                                    from: s.subrange(p, p + 32),
                                    enc_header: s.subrange(p + 32, p + 160),
                                    routing_tag: s.subrange(p + 160, p + 176),
                                    pkt_type: s[p + 176],
                                    watermark,
                                    payload: s.subrange(pos, pos + length),
                                },
                            )
                        }
                    },
                },
            }
        },
    }
}

impl Traffic {
    pub fn encode(&self) -> (buf: Vec<u8>)
        requires
            path_encodable(self.path@),
        ensures
            buf@ == seq![TRAFFIC] + self@.wire(),
    {
        let mut buf: Vec<u8> = vec![TRAFFIC];
        let path: Vec<u8> = encode_path(self.path.as_slice());
        append(&mut buf, path.as_slice());
        append(&mut buf, self.from.as_slice());
        append(&mut buf, self.enc_header.as_slice());
        append(&mut buf, self.routing_tag.as_slice());
        buf.push(self.pkt_type);
        encode_uvarint(self.watermark, &mut buf);
        encode_uvarint(self.payload.len() as u64, &mut buf);
        append(&mut buf, self.payload.as_slice());
        assert(buf@ =~= seq![TRAFFIC] + self@.wire());
        buf
    }

    pub fn decode(data: &[u8]) -> (r: Result<Traffic, PacketError>)
        ensures
            match parse_traffic(data@) {
                Ok(v) => r matches Ok(m) && m@ == v && v.wf(),
                Err(e) => r matches Err(f) && f == e,
            },
    {
        let (path, path_len) = match decode_path(data) {
            Ok(x) => x,
            Err(e) => {
                return Err(e);
            },
        };
        let mut pos: usize = path_len;
        if data.len() - pos < 177 {
            return Err(PacketError::TrafficTooShort((data.len() - pos) as u64));
        }
        let from: [u8; 32] = read_array(data, pos);
        let enc_header: [u8; 128] = read_array(data, pos + 32);
        let routing_tag: [u8; 16] = read_array(data, pos + 160);
        let pkt_type: u8 = data[pos + 176];
        pos = pos + 177;
        let (watermark, n) = match uvarint_at(data, pos) {
            Ok(x) => x,
            Err(e) => {
                return Err(e);
            },
        };
        pos = pos + n;
        let (payload_len, m) = match uvarint_at(data, pos) {
            Ok(x) => x,
            Err(e) => {
                return Err(e);
            },
        };
        pos = pos + m;
        if payload_len > (data.len() - pos) as u64 {
            return Err(
                PacketError::TrafficPayloadTruncated(payload_len, (data.len() - pos) as u64),
            );
        }
        let end: usize = pos + payload_len as usize;
        let mut payload: Vec<u8> = Vec::new();
        append(&mut payload, &data[pos..end]);
        assert(payload@ =~= data@.subrange(pos as int, end as int));
        Ok(Traffic { path, from, enc_header, routing_tag, pkt_type, watermark, payload })
    }
}

/// A traffic packet reads back as itself.
pub proof fn traffic_round_trip(v: TrafficView, rest: Seq<u8>)
    requires
        v.wf(),
    ensures
        parse_traffic(v.wire() + rest) == Ok::<TrafficView, PacketError>(v),
{
    let s = v.wire() + rest;
    let pw = path_wire(v.path);
    let a = uvarint(v.watermark as nat);
    let b = uvarint(v.payload.len());
    let fixed = v.from + v.enc_header + v.routing_tag + seq![v.pkt_type];
    let p = pw.len() as int;
    assert(s =~= pw + (fixed + a + b + v.payload + rest));
    path_round_trip(v.path, fixed + a + b + v.payload + rest);
    let i: int = p + 177;
    assert(s.skip(i) =~= a + (b + v.payload + rest));
    uvarint_round_trip(v.watermark, b + v.payload + rest);
    let j: int = i + a.len() as int;
    assert(s.skip(j) =~= b + (v.payload + rest));
    uvarint_round_trip(v.payload.len() as u64, v.payload + rest);
    let k: int = j + b.len() as int;
    assert(s.subrange(k, k + v.payload.len()) =~= v.payload);
    assert(s.subrange(p, p + 32) =~= v.from);
    assert(s.subrange(p + 32, p + 160) =~= v.enc_header);
    assert(s.subrange(p + 160, p + 176) =~= v.routing_tag);
    assert(s[p + 176] == v.pkt_type);
}

/// A node's position in hyperbolic space, signed by the node.
#[derive(Clone, Debug)]
pub struct CoordAnnounce {
    pub coord: [u8; 16],
    pub tree_depth: u32,
    pub sig: [u8; 64],
}

/// The contents of a [`CoordAnnounce`].
#[verifier::ext_equal]
pub struct CoordAnnounceView {
    pub coord: Seq<u8>,
    pub tree_depth: u32,
    pub sig: Seq<u8>,
}

impl View for CoordAnnounce {
    type V = CoordAnnounceView;

    open spec fn view(&self) -> CoordAnnounceView {
        CoordAnnounceView { coord: self.coord@, tree_depth: self.tree_depth, sig: self.sig@ }
    }
}

impl CoordAnnounceView {
    /// The wire form, without the type byte.
    pub open spec fn wire(self) -> Seq<u8> {
        self.coord + le_bytes(self.tree_depth as nat, 4) + self.sig
    }

    /// The bytes that the sender signs.
    pub open spec fn signed(self) -> Seq<u8> {
        self.coord + le_bytes(self.tree_depth as nat, 4)
    }

    pub open spec fn wf(self) -> bool {
        self.coord.len() == 16 && self.sig.len() == 64
    }
}

/// What `s`, a packet without its type byte, says as a [`CoordAnnounce`].
pub open spec fn parse_coord_announce(s: Seq<u8>) -> Result<CoordAnnounceView, PacketError> {
    if s.len() < 84 {
        Err(PacketError::CoordAnnounceTooShort(s.len() as u64))
    } else {
        Ok(
            CoordAnnounceView {
                coord: s.subrange(0, 16),
                tree_depth: le_value(s.subrange(16, 20)) as u32,
                sig: s.subrange(20, 84),
            },
        )
    }
}

impl CoordAnnounce {
    /// The bytes that the sender signs.
    pub fn sign_bytes(&self) -> (buf: Vec<u8>)
        ensures
            buf@ == self@.signed(),
    {
        let mut buf: Vec<u8> = Vec::new();
        append(&mut buf, self.coord.as_slice());
        append_le(&mut buf, self.tree_depth as u64, 4);
        assert(buf@ =~= self@.signed());
        buf
    }

    pub fn encode_into(&self, buf: &mut Vec<u8>)
        ensures
            final(buf)@ == old(buf)@ + self@.wire(),
    {
        append(buf, self.coord.as_slice());
        append_le(buf, self.tree_depth as u64, 4);
        append(buf, self.sig.as_slice());
        assert(buf@ =~= old(buf)@ + self@.wire());
    }

    pub fn decode(data: &[u8]) -> (r: Result<CoordAnnounce, PacketError>)
        ensures
            match parse_coord_announce(data@) {
                Ok(v) => r matches Ok(m) && m@ == v,
                Err(e) => r matches Err(f) && f == e,
            },
    {
        if data.len() < 84 {
            return Err(PacketError::CoordAnnounceTooShort(data.len() as u64));
        }
        let coord: [u8; 16] = read_array(data, 0);
        let wide: u64 = read_le(&data[16..20]);
        proof {
            le_bytes_of_le_value(data@.subrange(16, 20));
            reveal_with_fuel(pow256, 5);
        }
        let tree_depth: u32 = wide as u32;
        let sig: [u8; 64] = read_array(data, 20);
        Ok(CoordAnnounce { coord, tree_depth, sig })
    }
}

/// A coordinate announcement reads back as itself.
pub proof fn coord_announce_round_trip(v: CoordAnnounceView, rest: Seq<u8>)
    requires
        v.wf(),
    ensures
        parse_coord_announce(v.wire() + rest) == Ok::<CoordAnnounceView, PacketError>(v),
{
    let s = v.wire() + rest;
    le_value_of_le_bytes(v.tree_depth as nat, 4);
    reveal_with_fuel(pow256, 5);
    assert(s.subrange(0, 16) =~= v.coord);
    assert(s.subrange(16, 20) =~= le_bytes(v.tree_depth as nat, 4));
    assert(s.subrange(20, 84) =~= v.sig);
}

/// Every signed field shows in the signed bytes: two announcements with the same
/// signed bytes differ in nothing but the signature.
pub proof fn coord_announce_signed_bytes_determine_fields(
    v: CoordAnnounceView,
    w: CoordAnnounceView,
)
    requires
        v.wf(),
        w.wf(),
        v.signed() == w.signed(),
    ensures
        v == (CoordAnnounceView { sig: v.sig, ..w }),
{
    let u = CoordAnnounceView { sig: w.sig, ..v };
    assert(u.wire() == w.wire());
    coord_announce_round_trip(u, Seq::empty());
    coord_announce_round_trip(w, Seq::empty());
}

/// The 16-byte tag by which packets for the holder of `key` are routed.
pub open spec fn tag_of(key: Seq<u8>) -> Seq<u8> {
    blake2b_16(ascii("norn:route"@) + key)
}

/// The routing tag of a public key.
///
/// Filters and packet headers hold tags in place of keys: a relay that does
/// not know a key cannot learn it from its tag.
pub fn routing_tag(pub_key: &[u8; 32]) -> (tag: [u8; 16])
    ensures
        tag@ == tag_of(pub_key@),
{
    let mut buf: Vec<u8> = Vec::new();
    proof {
        reveal_strlit("norn:route");
    }
    append_ascii(&mut buf, "norn:route");
    append(&mut buf, pub_key.as_slice());
    assert(buf@ =~= ascii("norn:route"@) + pub_key@);
    digest_16(buf.as_slice())
}

/// The onion key that a node uses from now on, signed by the node.
#[derive(Clone, Debug)]
pub struct OnionKeyAnnounce {
    pub origin: [u8; 32],
    pub seq: u64,
    pub valid_from_ms: u64,
    pub onion_eph_pub: [u8; 32],
    pub sig: [u8; 64],
}

/// The contents of an [`OnionKeyAnnounce`].
#[verifier::ext_equal]
pub struct OnionKeyAnnounceView {
    pub origin: Seq<u8>,
    pub seq: u64,
    pub valid_from_ms: u64,
    pub onion_eph_pub: Seq<u8>,
    pub sig: Seq<u8>,
}

impl View for OnionKeyAnnounce {
    type V = OnionKeyAnnounceView;

    open spec fn view(&self) -> OnionKeyAnnounceView {
        OnionKeyAnnounceView {
            origin: self.origin@,
            seq: self.seq,
            valid_from_ms: self.valid_from_ms,
            onion_eph_pub: self.onion_eph_pub@,
            sig: self.sig@,
        }
    }
}

impl OnionKeyAnnounceView {
    /// The bytes that the origin signs.
    pub open spec fn signed(self) -> Seq<u8> {
        self.origin + self.onion_eph_pub + uvarint(self.seq as nat) + uvarint(
            self.valid_from_ms as nat,
        )
    }

    /// The wire form, without the type byte.
    pub open spec fn wire(self) -> Seq<u8> {
        self.signed() + self.sig
    }

    pub open spec fn wf(self) -> bool {
        self.origin.len() == 32 && self.onion_eph_pub.len() == 32 && self.sig.len() == 64
    }
}

/// What `s`, a packet without its type byte, says as an [`OnionKeyAnnounce`].
pub open spec fn parse_onion_key_announce(s: Seq<u8>) -> Result<OnionKeyAnnounceView, PacketError> {
    if s.len() < 64 {
        Err(PacketError::OnionKeyAnnounceTooShort)
    } else {
        match parse_uvarint(s.skip(64)) {
            Err(e) => Err(e),
            Ok((seq, n)) => match parse_uvarint(s.skip(64 + n)) {
                Err(e) => Err(e),
                Ok((valid_from_ms, m)) => {
                    let pos = 64 + n + m;
                    if s.len() < pos + 64 {
                        Err(PacketError::OnionKeyAnnounceTooShort)
                    } else {
                        Ok(
                            OnionKeyAnnounceView {
                                origin: s.subrange(0, 32),
                                seq,
                                valid_from_ms,
                                onion_eph_pub: s.subrange(32, 64),
                                sig: s.subrange(pos, pos + 64),
                            },
                        )
                    }
                },
            },
        }
    }
}

impl OnionKeyAnnounce {
    /// The bytes that the origin signs.
    pub fn sign_bytes(&self) -> (buf: Vec<u8>)
        ensures
            buf@ == self@.signed(),
    {
        let mut buf: Vec<u8> = Vec::new();
        append(&mut buf, self.origin.as_slice());
        append(&mut buf, self.onion_eph_pub.as_slice());
        encode_uvarint(self.seq, &mut buf);
        encode_uvarint(self.valid_from_ms, &mut buf);
        assert(buf@ =~= self@.signed());
        buf
    }

    pub fn encode(&self) -> (buf: Vec<u8>)
        ensures
            buf@ == seq![TYPE_ONION_KEY_ANNOUNCE] + self@.wire(),
    {
        let mut buf: Vec<u8> = vec![TYPE_ONION_KEY_ANNOUNCE];
        let signed: Vec<u8> = self.sign_bytes();
        append(&mut buf, signed.as_slice());
        append(&mut buf, self.sig.as_slice());
        assert(buf@ =~= seq![TYPE_ONION_KEY_ANNOUNCE] + self@.wire());
        buf
    }

    pub fn decode(data: &[u8]) -> (r: Result<OnionKeyAnnounce, PacketError>)
        ensures
            match parse_onion_key_announce(data@) {
                Ok(v) => r matches Ok(m) && m@ == v,
                Err(e) => r matches Err(f) && f == e,
            },
    {
        if data.len() < 64 {
            return Err(PacketError::OnionKeyAnnounceTooShort);
        }
        let origin: [u8; 32] = read_array(data, 0);
        let onion_eph_pub: [u8; 32] = read_array(data, 32);
        let mut pos: usize = 64;
        let (seq, n) = match uvarint_at(data, pos) {
            Ok(x) => x,
            Err(e) => {
                return Err(e);
            },
        };
        pos = pos + n;
        let (valid_from_ms, m) = match uvarint_at(data, pos) {
            Ok(x) => x,
            Err(e) => {
                return Err(e);
            },
        };
        pos = pos + m;
        if data.len() - pos < 64 {
            return Err(PacketError::OnionKeyAnnounceTooShort);
        }
        let sig: [u8; 64] = read_array(data, pos);
        Ok(OnionKeyAnnounce { origin, seq, valid_from_ms, onion_eph_pub, sig })
    }
}

/// An onion key announcement reads back as itself.
pub proof fn onion_key_announce_round_trip(v: OnionKeyAnnounceView, rest: Seq<u8>)
    requires
        v.wf(),
    ensures
        parse_onion_key_announce(v.wire() + rest) == Ok::<OnionKeyAnnounceView, PacketError>(v),
{
    let s = v.wire() + rest;
    let a = uvarint(v.seq as nat);
    let b = uvarint(v.valid_from_ms as nat);
    let i: int = 64 + a.len() as int;
    let j: int = i + b.len() as int;
    assert(s.skip(64) =~= a + (b + v.sig + rest));
    uvarint_round_trip(v.seq, b + v.sig + rest);
    assert(s.skip(i) =~= b + (v.sig + rest));
    uvarint_round_trip(v.valid_from_ms, v.sig + rest);
    assert(s.subrange(j, j + 64) =~= v.sig);
    assert(s.subrange(0, 32) =~= v.origin);
    assert(s.subrange(32, 64) =~= v.onion_eph_pub);
}

/// Every signed field shows in the signed bytes: two announcements with the same
/// signed bytes differ in nothing but the signature.
pub proof fn onion_key_signed_bytes_determine_fields(
    v: OnionKeyAnnounceView,
    w: OnionKeyAnnounceView,
)
    requires
        v.wf(),
        w.wf(),
        v.signed() == w.signed(),
    ensures
        v == (OnionKeyAnnounceView { sig: v.sig, ..w }),
{
    let u = OnionKeyAnnounceView { sig: w.sig, ..v };
    assert(u.wire() == w.wire());
    onion_key_announce_round_trip(u, Seq::empty());
    onion_key_announce_round_trip(w, Seq::empty());
}

/// How much `observer` trusts `observed`, signed by the observer.
#[derive(Clone, Debug)]
pub struct ReputationReport {
    pub observer: [u8; 32],
    pub observed: [u8; 32],
    /// The trust, scaled to the range of a `u16`.
    pub score_q16: u16,
    pub seq: u64,
    pub valid_from_ms: u64,
    pub sig: [u8; 64],
}

/// The contents of a [`ReputationReport`].
#[verifier::ext_equal]
pub struct ReputationReportView {
    pub observer: Seq<u8>,
    pub observed: Seq<u8>,
    pub score_q16: u16,
    pub seq: u64,
    pub valid_from_ms: u64,
    pub sig: Seq<u8>,
}

impl View for ReputationReport {
    type V = ReputationReportView;

    open spec fn view(&self) -> ReputationReportView {
        ReputationReportView {
            observer: self.observer@,
            observed: self.observed@,
            score_q16: self.score_q16,
            seq: self.seq,
            valid_from_ms: self.valid_from_ms,
            sig: self.sig@,
        }
    }
}

impl ReputationReportView {
    /// The bytes that the observer signs.
    pub open spec fn signed(self) -> Seq<u8> {
        self.observer + self.observed + le_bytes(self.score_q16 as nat, 2) + uvarint(
            self.seq as nat,
        ) + uvarint(self.valid_from_ms as nat)
    }

    /// The wire form, without the type byte.
    pub open spec fn wire(self) -> Seq<u8> {
        self.signed() + self.sig
    }

    pub open spec fn wf(self) -> bool {
        self.observer.len() == 32 && self.observed.len() == 32 && self.sig.len() == 64
    }
}

/// What `s`, a packet without its type byte, says as a [`ReputationReport`].
pub open spec fn parse_reputation_report(s: Seq<u8>) -> Result<ReputationReportView, PacketError> {
    if s.len() < 66 {
        Err(PacketError::ReputationReportTooShort)
    } else {
        match parse_uvarint(s.skip(66)) {
            Err(e) => Err(e),
            Ok((seq, n)) => match parse_uvarint(s.skip(66 + n)) {
                Err(e) => Err(e),
                Ok((valid_from_ms, m)) => {
                    let pos = 66 + n + m;
                    if s.len() < pos + 64 {
                        Err(PacketError::ReputationReportTooShort)
                    } else {
                        Ok(
                            ReputationReportView {
                                observer: s.subrange(0, 32),
                                observed: s.subrange(32, 64),
                                score_q16: le_value(s.subrange(64, 66)) as u16,
                                seq,
                                valid_from_ms,
                                sig: s.subrange(pos, pos + 64),
                            },
                        )
                    }
                },
            },
        }
    }
}

impl ReputationReport {
    /// The bytes that the observer signs.
    pub fn sign_bytes(&self) -> (buf: Vec<u8>)
        ensures
            buf@ == self@.signed(),
    {
        let mut buf: Vec<u8> = Vec::new();
        append(&mut buf, self.observer.as_slice());
        append(&mut buf, self.observed.as_slice());
        append_le(&mut buf, self.score_q16 as u64, 2);
        encode_uvarint(self.seq, &mut buf);
        encode_uvarint(self.valid_from_ms, &mut buf);
        assert(buf@ =~= self@.signed());
        buf
    }

    pub fn encode(&self) -> (buf: Vec<u8>)
        ensures
            buf@ == seq![TYPE_REPUTATION_REPORT] + self@.wire(),
    {
        let mut buf: Vec<u8> = vec![TYPE_REPUTATION_REPORT];
        let signed: Vec<u8> = self.sign_bytes();
        append(&mut buf, signed.as_slice());
        append(&mut buf, self.sig.as_slice());
        assert(buf@ =~= seq![TYPE_REPUTATION_REPORT] + self@.wire());
        buf
    }

    pub fn decode(data: &[u8]) -> (r: Result<ReputationReport, PacketError>)
        ensures
            match parse_reputation_report(data@) {
                Ok(v) => r matches Ok(m) && m@ == v,
                Err(e) => r matches Err(f) && f == e,
            },
    {
        if data.len() < 66 {
            return Err(PacketError::ReputationReportTooShort);
        }
        let observer: [u8; 32] = read_array(data, 0);
        let observed: [u8; 32] = read_array(data, 32);
        let wide: u64 = read_le(&data[64..66]);
        proof {
            le_bytes_of_le_value(data@.subrange(64, 66));
            reveal_with_fuel(pow256, 3);
        }
        let score_q16: u16 = wide as u16;
        let mut pos: usize = 66;
        let (seq, n) = match uvarint_at(data, pos) {
            Ok(x) => x,
            Err(e) => {
                return Err(e);
            },
        };
        pos = pos + n;
        let (valid_from_ms, m) = match uvarint_at(data, pos) {
            Ok(x) => x,
            Err(e) => {
                return Err(e);
            },
        };
        pos = pos + m;
        if data.len() - pos < 64 {
            return Err(PacketError::ReputationReportTooShort);
        }
        let sig: [u8; 64] = read_array(data, pos);
        Ok(ReputationReport { observer, observed, score_q16, seq, valid_from_ms, sig })
    }
}

/// A reputation report reads back as itself.
pub proof fn reputation_report_round_trip(v: ReputationReportView, rest: Seq<u8>)
    requires
        v.wf(),
    ensures
        parse_reputation_report(v.wire() + rest) == Ok::<ReputationReportView, PacketError>(v),
{
    let s = v.wire() + rest;
    let a = uvarint(v.seq as nat);
    let b = uvarint(v.valid_from_ms as nat);
    let i: int = 66 + a.len() as int;
    let j: int = i + b.len() as int;
    le_value_of_le_bytes(v.score_q16 as nat, 2);
    reveal_with_fuel(pow256, 3);
    assert(s.skip(66) =~= a + (b + v.sig + rest));
    uvarint_round_trip(v.seq, b + v.sig + rest);
    assert(s.skip(i) =~= b + (v.sig + rest));
    uvarint_round_trip(v.valid_from_ms, v.sig + rest);
    assert(s.subrange(j, j + 64) =~= v.sig);
    assert(s.subrange(0, 32) =~= v.observer);
    assert(s.subrange(32, 64) =~= v.observed);
    assert(s.subrange(64, 66) =~= le_bytes(v.score_q16 as nat, 2));
}

/// Every signed field shows in the signed bytes: two reports with the same
/// signed bytes differ in nothing but the signature.
pub proof fn report_signed_bytes_determine_fields(v: ReputationReportView, w: ReputationReportView)
    requires
        v.wf(),
        w.wf(),
        v.signed() == w.signed(),
    ensures
        v == (ReputationReportView { sig: v.sig, ..w }),
{
    let u = ReputationReportView { sig: w.sig, ..v };
    assert(u.wire() == w.wire());
    reputation_report_round_trip(u, Seq::empty());
    reputation_report_round_trip(w, Seq::empty());
}

/// A request to open a path through a firewall: `initiator` asks `target` to
/// connect to `endpoint` at once. Signed by the initiator.
#[derive(Clone, Debug)]
pub struct HolePunch {
    pub initiator: [u8; 32],
    pub target: [u8; 32],
    /// A socket address, as text.
    pub endpoint: Vec<u8>,
    pub valid_from_ms: u64,
    pub sig: [u8; 64],
}

/// The contents of a [`HolePunch`].
#[verifier::ext_equal]
pub struct HolePunchView {
    pub initiator: Seq<u8>,
    pub target: Seq<u8>,
    pub endpoint: Seq<u8>,
    pub valid_from_ms: u64,
    pub sig: Seq<u8>,
}

impl View for HolePunch {
    type V = HolePunchView;

    open spec fn view(&self) -> HolePunchView {
        HolePunchView {
            initiator: self.initiator@,
            target: self.target@,
            endpoint: self.endpoint@,
            valid_from_ms: self.valid_from_ms,
            sig: self.sig@,
        }
    }
}

impl HolePunchView {
    /// The bytes that the initiator signs.
    pub open spec fn signed(self) -> Seq<u8> {
        self.initiator + self.target + uvarint(self.valid_from_ms as nat) + uvarint(
            self.endpoint.len(),
        ) + self.endpoint
    }

    /// The wire form, without the type byte.
    pub open spec fn wire(self) -> Seq<u8> {
        self.signed() + self.sig
    }

    pub open spec fn wf(self) -> bool {
        &&& self.initiator.len() == 32
        &&& self.target.len() == 32
        &&& self.sig.len() == 64
        &&& self.endpoint.len() <= u64::MAX
    }
}

/// What `s`, a packet without its type byte, says as a [`HolePunch`].
pub open spec fn parse_hole_punch(s: Seq<u8>) -> Result<HolePunchView, PacketError> {
    if s.len() < 64 {
        Err(PacketError::HolePunchTooShort)
    } else {
        match parse_uvarint(s.skip(64)) {
            Err(e) => Err(e),
            Ok((valid_from_ms, n)) => match parse_uvarint(s.skip(64 + n)) {
                Err(e) => Err(e),
                Ok((length, m)) => {
                    let pos = 64 + n + m;
                    if s.len() < pos + length + 64 {
                        Err(PacketError::HolePunchTooShort)
                    } else {
                        Ok(
                            HolePunchView {
                                initiator: s.subrange(0, 32),
                                target: s.subrange(32, 64),
                                endpoint: s.subrange(pos, pos + length),
                                valid_from_ms,
                                sig: s.subrange(pos + length, pos + length + 64),
                            },
                        )
                    }
                },
            },
        }
    }
}

impl HolePunch {
    /// The bytes that the initiator signs.
    pub fn sign_bytes(&self) -> (buf: Vec<u8>)
        ensures
            buf@ == self@.signed(),
    {
        let mut buf: Vec<u8> = Vec::new();
        append(&mut buf, self.initiator.as_slice());
        append(&mut buf, self.target.as_slice());
        encode_uvarint(self.valid_from_ms, &mut buf);
        encode_uvarint(self.endpoint.len() as u64, &mut buf);
        append(&mut buf, self.endpoint.as_slice());
        assert(buf@ =~= self@.signed());
        buf
    }

    pub fn encode(&self) -> (buf: Vec<u8>)
        ensures
            buf@ == seq![TYPE_HOLE_PUNCH] + self@.wire(),
    {
        let mut buf: Vec<u8> = vec![TYPE_HOLE_PUNCH];
        let signed: Vec<u8> = self.sign_bytes();
        append(&mut buf, signed.as_slice());
        append(&mut buf, self.sig.as_slice());
        assert(buf@ =~= seq![TYPE_HOLE_PUNCH] + self@.wire());
        buf
    }

    pub fn decode(data: &[u8]) -> (r: Result<HolePunch, PacketError>)
        ensures
            match parse_hole_punch(data@) {
                Ok(v) => r matches Ok(m) && m@ == v,
                Err(e) => r matches Err(f) && f == e,
            },
    {
        if data.len() < 64 {
            return Err(PacketError::HolePunchTooShort);
        }
        let initiator: [u8; 32] = read_array(data, 0);
        let target: [u8; 32] = read_array(data, 32);
        let mut pos: usize = 64;
        let (valid_from_ms, n) = match uvarint_at(data, pos) {
            Ok(x) => x,
            Err(e) => {
                return Err(e);
            },
        };
        pos = pos + n;
        let (length, m) = match uvarint_at(data, pos) {
            Ok(x) => x,
            Err(e) => {
                return Err(e);
            },
        };
        pos = pos + m;
        let left: usize = data.len() - pos;
        if left < 64 || length > (left - 64) as u64 {
            return Err(PacketError::HolePunchTooShort);
        }
        let end: usize = pos + length as usize;
        let mut endpoint: Vec<u8> = Vec::new();
        append(&mut endpoint, &data[pos..end]);
        assert(endpoint@ =~= data@.subrange(pos as int, end as int));
        let sig: [u8; 64] = read_array(data, end);
        Ok(HolePunch { initiator, target, endpoint, valid_from_ms, sig })
    }
}

/// A hole-punch request reads back as itself.
pub proof fn hole_punch_round_trip(v: HolePunchView, rest: Seq<u8>)
    requires
        v.wf(),
    ensures
        parse_hole_punch(v.wire() + rest) == Ok::<HolePunchView, PacketError>(v),
{
    let s = v.wire() + rest;
    let a = uvarint(v.valid_from_ms as nat);
    let b = uvarint(v.endpoint.len());
    let i: int = 64 + a.len() as int;
    let j: int = i + b.len() as int;
    let k: int = j + v.endpoint.len() as int;
    assert(s.skip(64) =~= a + (b + v.endpoint + v.sig + rest));
    uvarint_round_trip(v.valid_from_ms, b + v.endpoint + v.sig + rest);
    assert(s.skip(i) =~= b + (v.endpoint + v.sig + rest));
    uvarint_round_trip(v.endpoint.len() as u64, v.endpoint + v.sig + rest);
    assert(s.subrange(j, k) =~= v.endpoint);
    assert(s.subrange(k, k + 64) =~= v.sig);
    assert(s.subrange(0, 32) =~= v.initiator);
    assert(s.subrange(32, 64) =~= v.target);
}

/// Every signed field shows in the signed bytes: two requests with the same
/// signed bytes differ in nothing but the signature.
pub proof fn punch_signed_bytes_determine_fields(v: HolePunchView, w: HolePunchView)
    requires
        v.wf(),
        w.wf(),
        v.signed() == w.signed(),
    ensures
        v == (HolePunchView { sig: v.sig, ..w }),
{
    let u = HolePunchView { sig: w.sig, ..v };
    assert(u.wire() == w.wire());
    hole_punch_round_trip(u, Seq::empty());
    hole_punch_round_trip(w, Seq::empty());
}

/// Notice that the sender cannot route packets with this tag.
#[derive(Clone, Debug)]
pub struct PathNegative {
    pub routing_tag: [u8; 16],
    pub ttl: u8,
}

/// The contents of a [`PathNegative`].
#[verifier::ext_equal]
pub struct PathNegativeView {
    pub routing_tag: Seq<u8>,
    pub ttl: u8,
}

impl View for PathNegative {
    type V = PathNegativeView;

    open spec fn view(&self) -> PathNegativeView {
        PathNegativeView { routing_tag: self.routing_tag@, ttl: self.ttl }
    }
}

impl PathNegativeView {
    /// The wire form, without the type byte.
    pub open spec fn wire(self) -> Seq<u8> {
        self.routing_tag + seq![self.ttl]
    }

    pub open spec fn wf(self) -> bool {
        self.routing_tag.len() == 16
    }
}

/// What `s`, a packet without its type byte, says as a [`PathNegative`].
pub open spec fn parse_path_negative(s: Seq<u8>) -> Result<PathNegativeView, PacketError> {
    if s.len() < 17 {
        Err(PacketError::PathNegativeTooShort)
    } else {
        Ok(PathNegativeView { routing_tag: s.subrange(0, 16), ttl: s[16] })
    }
}

impl PathNegative {
    pub fn encode(&self) -> (buf: Vec<u8>)
        ensures
            buf@ == seq![TYPE_PATH_NEGATIVE] + self@.wire(),
    {
        let mut buf: Vec<u8> = vec![TYPE_PATH_NEGATIVE];
        append(&mut buf, self.routing_tag.as_slice());
        buf.push(self.ttl);
        assert(buf@ =~= seq![TYPE_PATH_NEGATIVE] + self@.wire());
        buf
    }

    pub fn decode(data: &[u8]) -> (r: Result<PathNegative, PacketError>)
        ensures
            match parse_path_negative(data@) {
                Ok(v) => r matches Ok(m) && m@ == v,
                Err(e) => r matches Err(f) && f == e,
            },
    {
        if data.len() < 17 {
            return Err(PacketError::PathNegativeTooShort);
        }
        let routing_tag: [u8; 16] = read_array(data, 0);
        Ok(PathNegative { routing_tag, ttl: data[16] })
    }
}

/// A negative-route notice reads back as itself.
pub proof fn path_negative_round_trip(v: PathNegativeView, rest: Seq<u8>)
    requires
        v.wf(),
    ensures
        parse_path_negative(v.wire() + rest) == Ok::<PathNegativeView, PacketError>(v),
{
    let s = v.wire() + rest;
    assert(s.subrange(0, 16) =~= v.routing_tag);
}

/// Numbers are written seven bits at a time, the low ones first; the high bit of a byte tells
/// that another follows.
pub proof fn low_bits_come_first(v: nat)
    ensures
        uvarint(v).len() >= 1,
        uvarint(v)[0] % 128 == v % 128,
        uvarint(v)[0] >= 128 <==> v >= 128,
        v < 128 ==> uvarint(v).len() == 1,
        v >= 128 ==> uvarint(v).skip(1) == uvarint(v / 128),
{
    if v >= 128 {
        assert(uvarint(v).skip(1) =~= uvarint(v / 128));
    }
}

/// Pings start with the tree and end with the key of the node that asks; answers end with the
/// signature and the key of the node that answers.
pub proof fn pings_name_the_node_at_the_end(q: SigReqView, r: SigResView)
    requires
        q.wf(),
        r.wf(),
    ensures
        q.wire()[0] == q.tree_id,
        q.wire().skip(q.wire().len() - 32) == q.pub_key,
        r.wire()[0] == r.tree_id,
        r.wire().skip(r.wire().len() - 32) == r.pub_key,
        r.wire().subrange(r.wire().len() - 96, r.wire().len() - 32) == r.signature,
{
    assert(q.wire().skip(q.wire().len() - 32) =~= q.pub_key);
    assert(r.wire().skip(r.wire().len() - 32) =~= r.pub_key);
    assert(r.wire().subrange(r.wire().len() - 96, r.wire().len() - 32) =~= r.signature);
}

/// Announcements start with the tree and the root; filters start with the tree and end with the
/// 4096 bytes of the filter.
pub proof fn announcements_start_with_tree_and_root(a: AnnounceView, c: CuckooMsgView)
    requires
        a.wf(),
        c.wf(),
    ensures
        a.wire()[0] == a.tree_id,
        a.wire().subrange(1, 33) == a.root,
        a.signed()[0] == a.tree_id,
        a.signed().subrange(1, 33) == a.root,
        c.wire()[0] == c.tree_id,
        c.wire().skip(c.wire().len() - 4096) == c.data,
{
    assert(a.wire().subrange(1, 33) =~= a.root);
    assert(a.signed().subrange(1, 33) =~= a.root);
    assert(c.wire().skip(c.wire().len() - 4096) =~= c.data);
}

/// Lookups, their answers and notices of broken paths start with the target and the source.
pub proof fn lookups_start_with_target_and_source(
    l: PathLookupView,
    n: PathNotifyView,
    b: PathBrokenView,
)
    requires
        l.wf(),
        n.wf(),
        b.wf(),
    ensures
        l.wire().subrange(0, 32) == l.target,
        l.wire().subrange(32, 64) == l.source,
        n.wire().subrange(0, 32) == n.target,
        n.wire().subrange(32, 64) == n.source,
        b.wire().subrange(0, 32) == b.target,
        b.wire().subrange(32, 64) == b.source,
{
    assert(l.wire().subrange(0, 32) =~= l.target);
    assert(l.wire().subrange(32, 64) =~= l.source);
    assert(n.wire().subrange(0, 32) =~= n.target);
    assert(n.wire().subrange(32, 64) =~= n.source);
    assert(b.wire().subrange(0, 32) =~= b.target);
    assert(b.wire().subrange(32, 64) =~= b.source);
}

/// A traffic packet has, behind its path, the sender, the header, the routing tag and the kind,
/// and ends with the payload.
pub proof fn traffic_ends_with_the_payload(t: TrafficView)
    requires
        t.wf(),
    ensures
        ({
            let w = t.wire();
            let p = path_wire(t.path).len() as int;
            &&& w.subrange(p, p + 32) == t.from
            &&& w.subrange(p + 32, p + 160) == t.enc_header
            &&& w.subrange(p + 160, p + 176) == t.routing_tag
            &&& w[p + 176] == t.pkt_type
            &&& w.skip(w.len() - t.payload.len()) == t.payload
        }),
{
    let w = t.wire();
    let p = path_wire(t.path).len() as int;
    assert(w.subrange(p, p + 32) =~= t.from);
    assert(w.subrange(p + 32, p + 160) =~= t.enc_header);
    assert(w.subrange(p + 160, p + 176) =~= t.routing_tag);
    assert(w.skip(w.len() - t.payload.len()) =~= t.payload);
}

/// A coordinate is announced in 84 bytes: the coordinate, the depth in four bytes, and the
/// signature. A negative route is 17 bytes: the tag, and the hops that are left.
pub proof fn coordinates_come_before_depth_and_signature(c: CoordAnnounceView, n: PathNegativeView)
    requires
        c.wf(),
        n.wf(),
    ensures
        c.wire().len() == 84,
        c.wire().subrange(0, 16) == c.coord,
        c.wire().subrange(16, 20) == le_bytes(c.tree_depth as nat, 4),
        c.wire().subrange(20, 84) == c.sig,
        n.wire().len() == 17,
        n.wire().subrange(0, 16) == n.routing_tag,
        n.wire()[16] == n.ttl,
{
    le_value_of_le_bytes(c.tree_depth as nat, 4);
    assert(c.wire().subrange(0, 16) =~= c.coord);
    assert(c.wire().subrange(16, 20) =~= le_bytes(c.tree_depth as nat, 4));
    assert(c.wire().subrange(20, 84) =~= c.sig);
    assert(n.wire().subrange(0, 16) =~= n.routing_tag);
}

/// Announced onion keys, reports and requests for a connection start with the node that signs
/// them and the key or node that they are about, and end with the signature of all before it.
pub proof fn signatures_come_last(
    k: OnionKeyAnnounceView,
    r: ReputationReportView,
    h: HolePunchView,
)
    requires
        k.wf(),
        r.wf(),
        h.wf(),
    ensures
        k.wire() == k.signed() + k.sig,
        k.wire().subrange(0, 32) == k.origin,
        k.wire().subrange(32, 64) == k.onion_eph_pub,
        r.wire() == r.signed() + r.sig,
        r.wire().subrange(0, 32) == r.observer,
        r.wire().subrange(32, 64) == r.observed,
        r.wire().subrange(64, 66) == le_bytes(r.score_q16 as nat, 2),
        h.wire() == h.signed() + h.sig,
        h.wire().subrange(0, 32) == h.initiator,
        h.wire().subrange(32, 64) == h.target,
        h.signed().skip(h.signed().len() - h.endpoint.len()) == h.endpoint,
{
    le_value_of_le_bytes(r.score_q16 as nat, 2);
    assert(k.wire().subrange(0, 32) =~= k.origin);
    assert(k.wire().subrange(32, 64) =~= k.onion_eph_pub);
    assert(r.wire().subrange(0, 32) =~= r.observer);
    assert(r.wire().subrange(32, 64) =~= r.observed);
    assert(r.wire().subrange(64, 66) =~= le_bytes(r.score_q16 as nat, 2));
    assert(h.wire().subrange(0, 32) =~= h.initiator);
    assert(h.wire().subrange(32, 64) =~= h.target);
    assert(h.signed().skip(h.signed().len() - h.endpoint.len()) =~= h.endpoint);
}

/// The routing tag of a key is the digest of a fixed text and the key.
pub proof fn tags_are_digests_of_the_key(key: Seq<u8>, data: Seq<u8>)
    requires
        data.len() >= 10,
        data.take(10) == ascii("norn:route"@),
        data.skip(10) == key,
    ensures
        tag_of(key) == blake2b_16(data),
{
    reveal_strlit("norn:route");
    assert(data =~= ascii("norn:route"@) + key);
}

} // verus!
