//! Random numbers.

use bytes::Bytes;
use vstd::prelude::*;

use crate::buffer::{bytes_from_vec, bytes_view};
use crate::chunk::tlv::push_u32;

verus! {

/// How many random numbers make up a cookie.
pub const COOKIE_WORDS: usize = 8;

/// `random` of the `rand` crate, for 32-bit numbers. Nothing is claimed of the number: it is
/// another one with each call.
#[verifier::external_body]
pub(crate) fn random_u32() -> (r: u32) {
    rand::random::<u32>()
}

/// A cookie that nobody can guess: 32 random bytes.
pub(crate) fn random_cookie() -> (r: Bytes)
    ensures
        bytes_view(r).len() == 32,
{
    let mut v: Vec<u8> = Vec::new();
    let mut k: usize = 0;
    while k < COOKIE_WORDS
        invariant
            k <= COOKIE_WORDS,
            v@.len() == 4 * k,
        decreases COOKIE_WORDS - k,
    {
        push_u32(&mut v, random_u32());
        k += 1;
    }
    bytes_from_vec(v)
}

} // verus!
