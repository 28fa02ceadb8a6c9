//! Byte buffers of the `bytes` crate and the checksum of the `crc` crate.
//!
//! Nothing in this file is proved: each function makes one call into an outside
//! crate and states what that call does to the bytes a buffer holds.

use bytes::Buf;
use bytes::BufMut;
use bytes::Bytes;
use bytes::BytesMut;
use vstd::prelude::*;

use crate::util::{be16, be32, u16_at, u32_at, u32_le_at};

verus! {

/// `bytes::Bytes`, a shared view of a run of bytes.
#[verifier::external_type_specification]
#[verifier::external_body]
pub struct ExBytes(Bytes);

/// `bytes::BytesMut`, a growing run of bytes.
#[verifier::external_type_specification]
#[verifier::external_body]
pub struct ExBytesMut(BytesMut);

/// The bytes that a `Bytes` holds.
pub uninterp spec fn bytes_view(b: Bytes) -> Seq<u8>;

/// The bytes that a `BytesMut` holds.
pub uninterp spec fn buf_view(b: BytesMut) -> Seq<u8>;

/// `crc::Crc::<u32>::checksum` with the parameters `CRC_32_ISCSI` (CRC-32C).
pub uninterp spec fn crc32c(data: Seq<u8>) -> u32;

/// `Bytes::new` holds no bytes.
#[verifier::external_body]
pub(crate) fn bytes_new() -> (b: Bytes)
    ensures
        bytes_view(b) == Seq::<u8>::empty(),
{
    Bytes::new()
}

/// `Bytes::from` a vector holds the vector's bytes.
#[verifier::external_body]
pub(crate) fn bytes_from_vec(v: Vec<u8>) -> (b: Bytes)
    ensures
        bytes_view(b) == v@,
{
    Bytes::from(v)
}

/// `Bytes::clone` holds the same bytes.
#[verifier::external_body]
pub(crate) fn bytes_clone(b: &Bytes) -> (r: Bytes)
    ensures
        bytes_view(r) == bytes_view(*b),
{
    b.clone()
}

/// `Bytes::len` counts the bytes.
#[verifier::external_body]
pub(crate) fn bytes_len(b: &Bytes) -> (n: usize)
    ensures
        n == bytes_view(*b).len(),
{
    b.len()
}

/// `Bytes::deref` gives the bytes as a slice.
#[verifier::external_body]
pub(crate) fn bytes_as_slice(b: &Bytes) -> (s: &[u8])
    ensures
        s@ == bytes_view(*b),
{
    b.as_ref()
}

/// `Bytes::slice` holds the bytes of the range.
#[verifier::external_body]
pub(crate) fn bytes_slice(b: &Bytes, start: usize, end: usize) -> (r: Bytes)
    requires
        start <= end <= bytes_view(*b).len(),
    ensures
        bytes_view(r) == bytes_view(*b).subrange(start as int, end as int),
{
    b.slice(start..end)
}

/// `Bytes::clear` leaves no bytes.
#[verifier::external_body]
pub(crate) fn bytes_clear(b: &mut Bytes)
    ensures
        bytes_view(*final(b)) == Seq::<u8>::empty(),
{
    b.clear()
}

/// `Bytes::eq` compares the bytes.
#[verifier::external_body]
pub(crate) fn bytes_eq(a: &Bytes, b: &Bytes) -> (r: bool)
    ensures
        r == (bytes_view(*a) == bytes_view(*b)),
{
    a == b
}

/// `Buf::get_u8` takes the first byte off the front.
#[verifier::external_body]
pub(crate) fn get_u8(b: &mut Bytes) -> (r: u8)
    requires
        bytes_view(*old(b)).len() >= 1,
    ensures
        r == bytes_view(*old(b))[0],
        bytes_view(*final(b)) == bytes_view(*old(b)).skip(1),
{
    b.get_u8()
}

/// `Buf::get_u16` takes a big-endian number off the front.
#[verifier::external_body]
pub(crate) fn get_u16(b: &mut Bytes) -> (r: u16)
    requires
        bytes_view(*old(b)).len() >= 2,
    ensures
        r == u16_at(bytes_view(*old(b)), 0),
        bytes_view(*final(b)) == bytes_view(*old(b)).skip(2),
{
    b.get_u16()
}

/// `Buf::get_u32` takes a big-endian number off the front.
#[verifier::external_body]
pub(crate) fn get_u32(b: &mut Bytes) -> (r: u32)
    requires
        bytes_view(*old(b)).len() >= 4,
    ensures
        r == u32_at(bytes_view(*old(b)), 0),
        bytes_view(*final(b)) == bytes_view(*old(b)).skip(4),
{
    b.get_u32()
}

/// `Buf::get_u32_le` takes a little-endian number off the front.
#[verifier::external_body]
pub(crate) fn get_u32_le(b: &mut Bytes) -> (r: u32)
    requires
        bytes_view(*old(b)).len() >= 4,
    ensures
        r == u32_le_at(bytes_view(*old(b)), 0),
        bytes_view(*final(b)) == bytes_view(*old(b)).skip(4),
{
    b.get_u32_le()
}

/// `Buf::advance` drops bytes off the front.
#[verifier::external_body]
pub(crate) fn advance(b: &mut Bytes, n: usize)
    requires
        n <= bytes_view(*old(b)).len(),
    ensures
        bytes_view(*final(b)) == bytes_view(*old(b)).skip(n as int),
{
    b.advance(n)
}

/// `BytesMut::with_capacity` holds no bytes.
#[verifier::external_body]
pub(crate) fn buf_with_capacity(n: usize) -> (b: BytesMut)
    requires
        n <= isize::MAX,
    ensures
        buf_view(b) == Seq::<u8>::empty(),
{
    BytesMut::with_capacity(n)
}

/// `BytesMut::len` counts the bytes.
#[verifier::external_body]
pub(crate) fn buf_len(b: &BytesMut) -> (n: usize)
    ensures
        n == buf_view(*b).len(),
{
    b.len()
}

/// `BytesMut::deref` gives the bytes as a slice.
#[verifier::external_body]
pub(crate) fn buf_as_slice(b: &BytesMut) -> (s: &[u8])
    ensures
        s@ == buf_view(*b),
{
    b.as_ref()
}

/// `BufMut::put_u16` appends a big-endian number; a buffer holds at most
/// `isize::MAX` bytes.
#[verifier::external_body]
pub(crate) fn put_u16(b: &mut BytesMut, x: u16)
    requires
        buf_view(*old(b)).len() + 2 <= isize::MAX,
    ensures
        buf_view(*final(b)) == buf_view(*old(b)) + be16(x),
{
    b.put_u16(x)
}

/// `BufMut::put_u32` appends a big-endian number; a buffer holds at most
/// `isize::MAX` bytes.
#[verifier::external_body]
pub(crate) fn put_u32(b: &mut BytesMut, x: u32)
    requires
        buf_view(*old(b)).len() + 4 <= isize::MAX,
    ensures
        buf_view(*final(b)) == buf_view(*old(b)) + be32(x),
{
    b.put_u32(x)
}

/// `BytesMut::extend_from_slice` appends the slice; a buffer holds at most
/// `isize::MAX` bytes.
#[verifier::external_body]
pub(crate) fn buf_extend(b: &mut BytesMut, s: &[u8])
    requires
        buf_view(*old(b)).len() + s@.len() <= isize::MAX,
    ensures
        buf_view(*final(b)) == buf_view(*old(b)) + s@,
{
    b.extend_from_slice(s)
}

/// `copy_from_slice` into the bytes of a `BytesMut` from `start` to before `end` overwrites them.
#[verifier::external_body]
pub(crate) fn buf_overwrite(b: &mut BytesMut, start: usize, end: usize, s: &[u8])
    requires
        start <= end <= buf_view(*old(b)).len(),
        s@.len() == end - start,
    ensures
        buf_view(*final(b)) == buf_view(*old(b)).take(start as int) + s@ + buf_view(
            *old(b),
        ).skip(end as int),
{
    b[start..end].copy_from_slice(s)
}

/// `BytesMut::freeze` keeps the bytes.
#[verifier::external_body]
pub(crate) fn buf_freeze(b: BytesMut) -> (r: Bytes)
    ensures
        bytes_view(r) == buf_view(b),
{
    b.freeze()
}

/// `crc::Crc::<u32>::checksum` over `CRC_32_ISCSI`; its result is given a name,
/// not computed in a contract.
#[verifier::external_body]
pub(crate) fn checksum(data: &[u8]) -> (r: u32)
    ensures
        r == crc32c(data@),
{
    crc::Crc::<u32>::new(&crc::CRC_32_ISCSI).checksum(data)
}

} // verus!
