//! Coordinates in the hyperbolic plane, as they are sent.
//!
//! A coordinate is a distance from the origin and an angle, both IEEE 754
//! numbers of 64 bits. Here they are bit patterns: arithmetic with them is left
//! to the caller.

use crate::bytes::{append_le, le_bytes, le_value, pow256, read_array, read_le};
use crate::hash::{blake2b_64, digest_64};
use vstd::prelude::*;

verus! {

broadcast use vstd::array::group_array_axioms;

/// The bit pattern of the largest distance from the origin, 350.
pub const RHO_MAX_BITS: u64 = 0x4075_e000_0000_0000;

/// The bit pattern of positive infinity; that of a number with no sign that is
/// not finite is at least this.
pub const INFINITY_BITS: u64 = 0x7ff0_0000_0000_0000;

/// The sign bit.
pub const SIGN_BIT: u64 = 0x8000_0000_0000_0000;

/// The bit patterns of a coordinate.
#[derive(Clone, Copy, Debug, PartialEq, Eq, Structural)]
pub struct CoordBits {
    pub rho: u64,
    pub theta: u64,
}

/// The number with these bits is finite.
pub open spec fn finite(bits: u64) -> bool {
    bits % SIGN_BIT < INFINITY_BITS
}

/// The distance nearest to the number with these bits that a coordinate can
/// have. A number that is not finite counts as zero.
pub open spec fn clamped(bits: u64) -> u64 {
    if !finite(bits) {
        0
    } else if bits > SIGN_BIT {
        0
    } else if RHO_MAX_BITS < bits < SIGN_BIT {
        RHO_MAX_BITS
    } else {
        bits
    }
}

/// Whether the number with these bits is finite.
pub fn is_finite(bits: u64) -> (r: bool)
    ensures
        r == finite(bits),
{
    bits % SIGN_BIT < INFINITY_BITS
}

/// The distance nearest to the number with these bits that a coordinate can
/// have.
pub fn clamp_rho(bits: u64) -> (r: u64)
    ensures
        r == clamped(bits),
{
    if !is_finite(bits) {
        0
    } else if bits > SIGN_BIT {
        0
    } else if bits > RHO_MAX_BITS && bits < SIGN_BIT {
        RHO_MAX_BITS
    } else {
        bits
    }
}

/// The wire form of a coordinate.
pub open spec fn coord_wire(c: CoordBits) -> Seq<u8> {
    le_bytes(c.rho as nat, 8) + le_bytes(c.theta as nat, 8)
}

impl CoordBits {
    pub fn encode(&self) -> (out: [u8; 16])
        ensures
            out@ == coord_wire(*self),
    {
        let mut buf: Vec<u8> = Vec::new();
        append_le(&mut buf, self.rho, 8);
        append_le(&mut buf, self.theta, 8);
        proof {
            crate::bytes::le_value_of_le_bytes(self.rho as nat, 8);
            crate::bytes::le_value_of_le_bytes(self.theta as nat, 8);
        }
        let out: [u8; 16] = read_array(buf.as_slice(), 0);
        assert(out@ =~= coord_wire(*self));
        out
    }

    pub fn decode(data: &[u8; 16]) -> (c: CoordBits)
        ensures
            c.rho == le_value(data@.subrange(0, 8)),
            c.theta == le_value(data@.subrange(8, 16)),
    {
        CoordBits {
            rho: read_le(&data.as_slice()[0..8]),
            theta: read_le(&data.as_slice()[8..16]),
        }
    }
}

/// The number from which the angle of a node follows: the front of the digest
/// of its key.
pub fn key_number(pub_key: &[u8; 32]) -> (n: u64)
    ensures
        n == le_value(blake2b_64(pub_key@).take(8)),
{
    let hash: [u8; 64] = digest_64(pub_key.as_slice());
    assert(hash@.subrange(0, 8) =~= hash@.take(8));
    read_le(&hash.as_slice()[0..8])
}

/// A coordinate reads back as itself.
pub proof fn coord_round_trip(c: CoordBits)
    ensures
        coord_wire(c).len() == 16,
        le_value(coord_wire(c).subrange(0, 8)) == c.rho,
        le_value(coord_wire(c).subrange(8, 16)) == c.theta,
{
    reveal_with_fuel(pow256, 9);
    crate::bytes::le_value_of_le_bytes(c.rho as nat, 8);
    crate::bytes::le_value_of_le_bytes(c.theta as nat, 8);
    assert(coord_wire(c).subrange(0, 8) =~= le_bytes(c.rho as nat, 8));
    assert(coord_wire(c).subrange(8, 16) =~= le_bytes(c.theta as nat, 8));
}

/// Clamping leaves a distance that a coordinate can have as it is, and gives
/// nothing else.
pub proof fn clamping_is_done_once(bits: u64)
    ensures
        clamped(clamped(bits)) == clamped(bits),
        finite(clamped(bits)),
        clamped(bits) <= RHO_MAX_BITS || clamped(bits) == SIGN_BIT,
{
}

/// A distance from 0 to 350 stays as it is, a greater one becomes 350, and a negative one or
/// what is no finite number becomes 0. Finite numbers without a sign are in the order of
/// their bits; 350 is 0x4075e00000000000.
pub proof fn distances_are_cut_to_their_range(bits: u64)
    ensures
        bits <= 0x4075_e000_0000_0000 ==> clamped(bits) == bits,
        0x4075_e000_0000_0000 < bits < 0x7ff0_0000_0000_0000 ==> clamped(bits)
            == 0x4075_e000_0000_0000,
        0x7ff0_0000_0000_0000 <= bits < 0x8000_0000_0000_0000 ==> clamped(bits) == 0,
        bits > 0x8000_0000_0000_0000 ==> clamped(bits) == 0,
        finite(bits) <==> bits < 0x7ff0_0000_0000_0000 || 0x8000_0000_0000_0000 <= bits
            < 0xfff0_0000_0000_0000,
{
}

/// The wire form of a coordinate is the distance and then the angle, eight bytes each.
pub proof fn distances_come_before_angles(c: CoordBits)
    ensures
        coord_wire(c).len() == 16,
        le_value(coord_wire(c).subrange(0, 8)) == c.rho,
        le_value(coord_wire(c).subrange(8, 16)) == c.theta,
{
    coord_round_trip(c);
    crate::bytes::le_value_of_le_bytes(c.rho as nat, 8);
    crate::bytes::le_value_of_le_bytes(c.theta as nat, 8);
    assert(pow256(8) == 0x1_0000_0000_0000_0000) by {
        reveal_with_fuel(pow256, 9);
    }
    assert(coord_wire(c).subrange(0, 8) =~= le_bytes(c.rho as nat, 8));
    assert(coord_wire(c).subrange(8, 16) =~= le_bytes(c.theta as nat, 8));
}

} // verus!
