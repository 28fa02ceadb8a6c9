//! What holds of serial numbers and of the bytes of numbers.

use vstd::prelude::*;

use crate::util::{
    after32, be16, be32, before16, before32, le32, low32, padding, u16_at, u32_at, u32_le_at,
    upto32, zeros,
};

verus! {

/// A number lies before those that fewer than half the circle of steps lead to, and before no
/// other.
pub proof fn law_serial_order(a: u32, n: u32)
    ensures
        before32(a, a.wrapping_add(n)) <==> 0 < n < 0x8000_0000,
        upto32(a, a.wrapping_add(n)) <==> n < 0x8000_0000,
        after32(a.wrapping_add(n), a) <==> 0 < n <= 0x8000_0000,
{
}

/// The same holds of numbers of 16 bits.
pub proof fn law_short_serial_order(a: u16, n: u16)
    ensures
        before16(a, a.wrapping_add(n)) <==> 0 < n < 0x8000,
{
}

/// No two numbers lie before one another, and none before itself.
pub proof fn law_serial_order_has_a_direction(a: u32, b: u32)
    ensures
        !(before32(a, b) && before32(b, a)),
        !before32(a, a),
        upto32(a, b) <==> a == b || before32(a, b),
        before32(a, b) ==> after32(b, a),
{
}

/// Padding fills up to a multiple of four with as few bytes as that takes.
pub proof fn law_padding_fills_up(len: int)
    requires
        len >= 0,
    ensures
        (len + padding(len)) % 4 == 0,
        0 <= padding(len) < 4,
        zeros(padding(len)).len() == padding(len),
{
}

/// The low 32 bits differ from a number by a multiple of 2^32.
pub proof fn law_low_bits(n: int)
    requires
        n >= 0,
    ensures
        (n - low32(n)) % 0x1_0000_0000 == 0,
        n <= u32::MAX ==> low32(n) == n,
{
}

/// The bytes of a number, most or least significant first, add up to it, and it is read from
/// them.
pub proof fn law_bytes_of_numbers(x: u16, y: u32)
    ensures
        be16(x).len() == 2 && be16(x)[0] * 0x100 + be16(x)[1] == x,
        be32(y).len() == 4 && be32(y)[0] * 0x100_0000 + be32(y)[1] * 0x1_0000 + be32(y)[2] * 0x100
            + be32(y)[3] == y,
        le32(y).len() == 4 && le32(y)[3] * 0x100_0000 + le32(y)[2] * 0x1_0000 + le32(y)[1] * 0x100
            + le32(y)[0] == y,
        u16_at(be16(x), 0) == x,
        u32_at(be32(y), 0) == y,
        u32_le_at(le32(y), 0) == y,
{
}

} // verus!
