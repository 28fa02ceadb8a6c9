//! The header that every chunk starts with.

use bytes::Bytes;
use vstd::prelude::*;

use crate::buffer::{bytes_as_slice, bytes_clone, bytes_len, bytes_view, get_u16, get_u8};
use crate::error::Error;
use crate::util::u16_at;

verus! {

/// The number of bytes of a chunk header.
pub const CHUNK_HEADER_SIZE: usize = 4;

/// Type, flags and the length of the value.
#[derive(Debug, Clone, Copy, PartialEq, Eq, Structural)]
pub struct ChunkHeader {
    pub typ: u8,
    pub flags: u8,
    pub value_length: u16,
}

/// Bytes that are all zero.
pub open spec fn all_zero(s: Seq<u8>) -> bool {
    forall|i: int| 0 <= i < s.len() ==> #[trigger] s[i] == 0
}

/// The header at the front of `s`. The value that it announces has to be there; if
/// fewer than four bytes follow the value they are padding and have to be zero.
pub open spec fn header_decode(s: Seq<u8>) -> Result<ChunkHeader, Error> {
    if s.len() < 4 {
        Err(Error::ErrChunkHeaderTooSmall)
    } else {
        let len = u16_at(s, 2);
        if len < 4 {
            Err(Error::ErrChunkHeaderInvalidLength)
        } else if len > s.len() {
            Err(Error::ErrChunkHeaderNotEnoughSpace)
        } else if s.len() - len < 4 && !all_zero(s.skip(len as int)) {
            Err(Error::ErrChunkHeaderPaddingNonZero)
        } else {
            Ok(ChunkHeader { typ: s[0], flags: s[1], value_length: (len - 4) as u16 })
        }
    }
}

impl ChunkHeader {
    /// Reads the header at the front of `raw`.
    pub fn unmarshal(raw: &Bytes) -> (r: Result<ChunkHeader, Error>)
        ensures
            r == header_decode(bytes_view(*raw)),
    {
        let ghost s = bytes_view(*raw);
        let n = bytes_len(raw);
        if n < CHUNK_HEADER_SIZE {
            return Err(Error::ErrChunkHeaderTooSmall);
        }
        let mut reader = bytes_clone(raw);
        let typ = get_u8(&mut reader);
        let flags = get_u8(&mut reader);
        let length = get_u16(&mut reader);
        assert(length == u16_at(s, 2));
        if length < 4 {
            return Err(Error::ErrChunkHeaderInvalidLength);
        }
        let len = length as usize;
        if len > n {
            return Err(Error::ErrChunkHeaderNotEnoughSpace);
        }
        if n - len < 4 {
            let bytes = bytes_as_slice(raw);
            let mut i: usize = len;
            while i < n
                invariant
                    len <= i <= n,
                    n == s.len(),
                    bytes@ == s,
                    s == bytes_view(*raw),
                    forall|j: int| len <= j < i ==> #[trigger] s[j] == 0,
                    4 <= len == u16_at(s, 2),
                    n - len < 4,
                decreases n - i,
            {
                if bytes[i] != 0 {
                    assert(s.skip(len as int)[i - len] == s[i as int]);
                    return Err(Error::ErrChunkHeaderPaddingNonZero);
                }
                i += 1;
            }
            assert(all_zero(s.skip(len as int)));
        }
        Ok(ChunkHeader { typ, flags, value_length: length - 4 })
    }

    /// The length of the value.
    pub fn value_length(&self) -> (r: usize)
        ensures
            r == self.value_length,
    {
        self.value_length as usize
    }
}

} // verus!
