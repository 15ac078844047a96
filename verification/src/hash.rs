//! BLAKE2b digests.

use blake2::digest::consts::{U16, U32, U64, U8};
use blake2::{Blake2b, Digest};
use vstd::prelude::*;

verus! {

/// The 8-byte BLAKE2b digest of `data`.
pub uninterp spec fn blake2b_8(data: Seq<u8>) -> Seq<u8>;

/// The 16-byte BLAKE2b digest of `data`.
pub uninterp spec fn blake2b_16(data: Seq<u8>) -> Seq<u8>;

/// The 32-byte BLAKE2b digest of `data`.
pub uninterp spec fn blake2b_32(data: Seq<u8>) -> Seq<u8>;

/// The 64-byte BLAKE2b digest of `data`.
pub uninterp spec fn blake2b_64(data: Seq<u8>) -> Seq<u8>;

/// Calls `blake2::Blake2b::<U8>::digest`. Trusted: the digest depends on the
/// bytes of `data` alone.
#[verifier::external_body]
pub(crate) fn digest_8(data: &[u8]) -> (r: [u8; 8])
    ensures
        r@ == blake2b_8(data@),
{
    Blake2b::<U8>::digest(data).into()
}

/// Calls `blake2::Blake2b::<U16>::digest`. Trusted: the digest depends on the
/// bytes of `data` alone.
#[verifier::external_body]
pub(crate) fn digest_16(data: &[u8]) -> (r: [u8; 16])
    ensures
        r@ == blake2b_16(data@),
{
    Blake2b::<U16>::digest(data).into()
}

/// Calls `blake2::Blake2b::<U32>::digest`. Trusted: the digest depends on the
/// bytes of `data` alone.
#[verifier::external_body]
pub(crate) fn digest_32(data: &[u8]) -> (r: [u8; 32])
    ensures
        r@ == blake2b_32(data@),
{
    Blake2b::<U32>::digest(data).into()
}

/// Calls `blake2::Blake2b::<U64>::digest`. Trusted: the digest depends on the
/// bytes of `data` alone.
#[verifier::external_body]
pub(crate) fn digest_64(data: &[u8]) -> (r: [u8; 64])
    ensures
        r@ == blake2b_64(data@),
{
    Blake2b::<U64>::digest(data).into()
}

} // verus!
