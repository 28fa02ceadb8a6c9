//! Serial number arithmetic, padding and network byte order.

use vstd::prelude::*;

verus! {

/// Chunks are padded to a multiple of this many bytes.
pub const PADDING_MULTIPLE: usize = 4;

/// Half of the 32-bit serial number space.
pub const HALF_32: u32 = 0x8000_0000;

/// Half of the 16-bit serial number space.
pub const HALF_16: u16 = 0x8000;

/// How many steps forward lead from `a` to `b` in the 32-bit serial number circle.
pub open spec fn fwd32(a: u32, b: u32) -> int {
    if b >= a {
        b - a
    } else {
        b - a + 0x1_0000_0000
    }
}

/// How many steps forward lead from `a` to `b` in the 16-bit serial number circle.
pub open spec fn fwd16(a: u16, b: u16) -> int {
    if b >= a {
        b - a
    } else {
        b - a + 0x1_0000
    }
}

/// `a` lies before `b`: fewer than half the circle of steps lead from `a` to `b`.
pub open spec fn before32(a: u32, b: u32) -> bool {
    0 < fwd32(a, b) < HALF_32
}

/// `a` lies before `b` or is `b`.
pub open spec fn upto32(a: u32, b: u32) -> bool {
    fwd32(a, b) < HALF_32
}

/// `a` lies after `b`; two numbers half the circle apart lie after one another.
pub open spec fn after32(a: u32, b: u32) -> bool {
    0 < fwd32(b, a) <= HALF_32
}

/// `a` lies before `b`: fewer than half the circle of steps lead from `a` to `b`.
pub open spec fn before16(a: u16, b: u16) -> bool {
    0 < fwd16(a, b) < HALF_16
}

/// Serial number comparison, less than.
pub fn sna32lt(i1: u32, i2: u32) -> (r: bool)
    ensures
        r == before32(i1, i2),
{
    (i1 < i2 && i2 - i1 < HALF_32) || (i1 > i2 && i1 - i2 > HALF_32)
}

/// Serial number comparison, less than or equal.
pub fn sna32lte(i1: u32, i2: u32) -> (r: bool)
    ensures
        r == upto32(i1, i2),
{
    i1 == i2 || sna32lt(i1, i2)
}

/// Serial number comparison, greater than.
pub fn sna32gt(i1: u32, i2: u32) -> (r: bool)
    ensures
        r == after32(i1, i2),
{
    (i1 < i2 && (i2 - i1) >= HALF_32) || (i1 > i2 && (i1 - i2) <= HALF_32)
}

/// Serial number comparison, greater than or equal.
pub fn sna32gte(i1: u32, i2: u32) -> (r: bool)
    ensures
        r == (i1 == i2 || after32(i1, i2)),
{
    i1 == i2 || sna32gt(i1, i2)
}

/// Serial number comparison of 16-bit numbers, less than.
pub fn sna16lt(i1: u16, i2: u16) -> (r: bool)
    ensures
        r == before16(i1, i2),
{
    (i1 < i2 && (i2 - i1) < HALF_16) || (i1 > i2 && (i1 - i2) > HALF_16)
}

/// Serial number comparison of 16-bit numbers, less than or equal.
pub fn sna16lte(i1: u16, i2: u16) -> (r: bool)
    ensures
        r == (i1 == i2 || before16(i1, i2)),
{
    i1 == i2 || sna16lt(i1, i2)
}

/// The low 32 bits of a number.
pub open spec fn low32(n: int) -> u32 {
    (n % 0x1_0000_0000) as u32
}

/// The low 32 bits of a length.
pub fn trunc32(n: usize) -> (r: u32)
    ensures
        r == low32(n as int),
{
    ((n as u64) % 0x1_0000_0000) as u32
}

/// The number of zero bytes that fill `len` bytes up to a multiple of four.
pub open spec fn padding(len: int) -> int {
    (4 - len % 4) % 4
}

/// The number of padding bytes for `len` bytes.
pub fn get_padding_size(len: usize) -> (r: usize)
    ensures
        r == padding(len as int),
        r < 4,
{
    (PADDING_MULTIPLE - (len % PADDING_MULTIPLE)) % PADDING_MULTIPLE
}

/// `n` zero bytes.
pub open spec fn zeros(n: int) -> Seq<u8> {
    Seq::new(n as nat, |i: int| 0u8)
}

/// The two bytes of `x`, most significant first.
pub open spec fn be16(x: u16) -> Seq<u8> {
    seq![(x / 256) as u8, (x % 256) as u8]
}

/// The four bytes of `x`, most significant first.
pub open spec fn be32(x: u32) -> Seq<u8> {
    seq![
        (x / 0x100_0000) as u8,
        (x / 0x1_0000 % 256) as u8,
        (x / 0x100 % 256) as u8,
        (x % 256) as u8,
    ]
}

/// The four bytes of `x`, least significant first.
pub open spec fn le32(x: u32) -> Seq<u8> {
    seq![
        (x % 256) as u8,
        (x / 0x100 % 256) as u8,
        (x / 0x1_0000 % 256) as u8,
        (x / 0x100_0000) as u8,
    ]
}

/// The number whose bytes stand at `i` in `s`, most significant first.
pub open spec fn u16_at(s: Seq<u8>, i: int) -> u16 {
    (s[i] * 256 + s[i + 1]) as u16
}

/// The number whose bytes stand at `i` in `s`, most significant first.
pub open spec fn u32_at(s: Seq<u8>, i: int) -> u32 {
    (s[i] * 0x100_0000 + s[i + 1] * 0x1_0000 + s[i + 2] * 0x100 + s[i + 3]) as u32
}

/// The number whose bytes stand at `i` in `s`, least significant first.
pub open spec fn u32_le_at(s: Seq<u8>, i: int) -> u32 {
    (s[i] + s[i + 1] * 0x100 + s[i + 2] * 0x1_0000 + s[i + 3] * 0x100_0000) as u32
}

/// A number is the sum of its bytes.
proof fn lemma_split32(x: u32)
    ensures
        x == (x / 0x100_0000) * 0x100_0000 + (x / 0x1_0000 % 256) * 0x1_0000 + (x / 0x100 % 256)
            * 0x100 + x % 256,
{
    assert(x == (x / 0x100_0000) * 0x100_0000 + (x / 0x1_0000 % 256) * 0x1_0000 + (x / 0x100
        % 256) * 0x100 + x % 256) by (bit_vector);
}

/// The bytes of a sum of bytes are these bytes.
proof fn lemma_join32(a: u8, b: u8, c: u8, d: u8)
    ensures
        ({
            let x = (a * 0x100_0000 + b * 0x1_0000 + c * 0x100 + d) as u32;
            &&& x / 0x100_0000 == a
            &&& x / 0x1_0000 % 256 == b
            &&& x / 0x100 % 256 == c
            &&& x % 256 == d
        }),
{
    let x = (a * 0x100_0000 + b * 0x1_0000 + c * 0x100 + d) as u32;
    assert(x / 0x100_0000 == a);
    assert(x / 0x1_0000 == a * 256 + b);
    assert(x / 0x100 == (a * 256 + b) * 256 + c);
}

/// A number is read back from where its bytes stand.
pub proof fn lemma_be16(x: u16, s: Seq<u8>, i: int)
    requires
        0 <= i,
        i + 2 <= s.len(),
        s.subrange(i, i + 2) == be16(x),
    ensures
        u16_at(s, i) == x,
{
    assert(s.subrange(i, i + 2)[0] == s[i]);
    assert(s.subrange(i, i + 2)[1] == s[i + 1]);
}

/// A number is read back from where its bytes stand.
pub proof fn lemma_be32(x: u32, s: Seq<u8>, i: int)
    requires
        0 <= i,
        i + 4 <= s.len(),
        s.subrange(i, i + 4) == be32(x),
    ensures
        u32_at(s, i) == x,
{
    let t = s.subrange(i, i + 4);
    assert(t[0] == s[i] && t[1] == s[i + 1] && t[2] == s[i + 2] && t[3] == s[i + 3]);
    lemma_split32(x);
}

/// A number is read back from where its bytes stand, least significant first.
pub proof fn lemma_le32(x: u32, s: Seq<u8>, i: int)
    requires
        0 <= i,
        i + 4 <= s.len(),
        s.subrange(i, i + 4) == le32(x),
    ensures
        u32_le_at(s, i) == x,
{
    let t = s.subrange(i, i + 4);
    assert(t[0] == s[i] && t[1] == s[i + 1] && t[2] == s[i + 2] && t[3] == s[i + 3]);
    lemma_split32(x);
}

/// Bytes that were read as a number are the bytes of that number.
pub proof fn lemma_u32_bytes(s: Seq<u8>, i: int)
    requires
        0 <= i,
        i + 4 <= s.len(),
    ensures
        be32(u32_at(s, i)) == s.subrange(i, i + 4),
{
    lemma_join32(s[i], s[i + 1], s[i + 2], s[i + 3]);
    assert(be32(u32_at(s, i)) =~= s.subrange(i, i + 4));
}

/// Bytes that were read as a number are the bytes of that number.
pub proof fn lemma_u32_le_bytes(s: Seq<u8>, i: int)
    requires
        0 <= i,
        i + 4 <= s.len(),
    ensures
        le32(u32_le_at(s, i)) == s.subrange(i, i + 4),
{
    lemma_join32(s[i + 3], s[i + 2], s[i + 1], s[i]);
    assert(le32(u32_le_at(s, i)) =~= s.subrange(i, i + 4));
}

/// A multiple of four bytes in front does not change the padding.
pub proof fn lemma_padding_behind(a: int, b: int)
    requires
        a % 4 == 0,
    ensures
        padding(a + b) == padding(b),
        (b + padding(b)) % 4 == 0,
        0 <= padding(b) < 4,
{
}

/// Within one half of the circle that starts behind `base`, serial order is the
/// order of the distances from `base`.
pub proof fn lemma_serial_order_in_window(base: u32, a: u32, b: u32)
    requires
        1 <= fwd32(base, a) <= HALF_32,
        1 <= fwd32(base, b) <= HALF_32,
    ensures
        before32(a, b) <==> fwd32(base, a) < fwd32(base, b),
        upto32(a, b) <==> fwd32(base, a) <= fwd32(base, b),
        a == b <==> fwd32(base, a) == fwd32(base, b),
{
}

} // verus!
