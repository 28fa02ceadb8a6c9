//! Type-length-value lists: the parameters of a chunk and its error causes.

use bytes::Bytes;
use vstd::prelude::*;

use crate::buffer::{bytes_as_slice, bytes_clone, bytes_len, bytes_slice, bytes_view, get_u16};
use crate::error::Error;
use crate::util::{be16, be32, get_padding_size, padding, u16_at, zeros};

verus! {

/// The number of bytes of the type and the length of a list entry.
pub const TLV_HEADER_SIZE: usize = 4;

/// One entry of a type-length-value list.
#[derive(Debug)]
pub struct Tlv {
    pub typ: u16,
    pub value: Bytes,
}

/// The content of a [`Tlv`].
#[verifier::ext_equal]
pub struct TlvView {
    pub typ: u16,
    pub value: Seq<u8>,
}

impl View for Tlv {
    type V = TlvView;

    open spec fn view(&self) -> TlvView {
        TlvView { typ: self.typ, value: bytes_view(self.value) }
    }
}

impl Clone for Tlv {
    fn clone(&self) -> (r: Self)
        ensures
            r@ == self@,
    {
        Tlv { typ: self.typ, value: bytes_clone(&self.value) }
    }
}

/// The contents of a vector of entries.
pub open spec fn tlv_views(ts: Seq<Tlv>) -> Seq<TlvView> {
    ts.map_values(|t: Tlv| t@)
}

/// Appends the two bytes of `x`.
pub fn push_u16(out: &mut Vec<u8>, x: u16)
    ensures
        final(out)@ == old(out)@ + be16(x),
{
    out.push((x / 256) as u8);
    out.push((x % 256) as u8);
    assert(out@ =~= old(out)@ + be16(x));
}

/// Appends the four bytes of `x`.
pub fn push_u32(out: &mut Vec<u8>, x: u32)
    ensures
        final(out)@ == old(out)@ + be32(x),
{
    out.push((x / 0x100_0000) as u8);
    out.push((x / 0x1_0000 % 256) as u8);
    out.push((x / 0x100 % 256) as u8);
    out.push((x % 256) as u8);
    assert(out@ =~= old(out)@ + be32(x));
}

/// Appends the bytes of `s`.
pub fn push_slice(out: &mut Vec<u8>, s: &[u8])
    ensures
        final(out)@ == old(out)@ + s@,
{
    let mut i: usize = 0;
    while i < s.len()
        invariant
            i <= s@.len(),
            out@ == old(out)@ + s@.take(i as int),
        decreases s.len() - i,
    {
        out.push(s[i]);
        assert(s@.take(i + 1) =~= s@.take(i as int).push(s@[i as int]));
        i += 1;
    }
    assert(s@.take(s@.len() as int) =~= s@);
}

/// Appends `n` zero bytes.
pub fn push_zeros(out: &mut Vec<u8>, n: usize)
    ensures
        final(out)@ == old(out)@ + zeros(n as int),
{
    let mut i: usize = 0;
    while i < n
        invariant
            i <= n,
            out@ == old(out)@ + zeros(i as int),
        decreases n - i,
    {
        out.push(0);
        assert(out@ =~= old(out)@ + zeros(i + 1));
        i += 1;
    }
}

/// The bytes of one entry: type, length of header and value, value.
pub open spec fn tlv_encode(t: TlvView) -> Seq<u8> {
    be16(t.typ) + be16(((t.value.len() + 4) % 0x1_0000) as u16) + t.value
}

/// The bytes of a list: each entry but the last is padded to a multiple of four.
pub open spec fn tlvs_encode(ts: Seq<TlvView>) -> Seq<u8>
    decreases ts.len(),
{
    if ts.len() == 0 {
        seq![]
    } else if ts.len() == 1 {
        tlv_encode(ts[0])
    } else {
        tlv_encode(ts[0]) + zeros(padding(ts[0].value.len() as int)) + tlvs_encode(ts.drop_first())
    }
}

/// `ts` in front of what was decoded behind it.
pub open spec fn tlvs_prepend(
    ts: Seq<TlvView>,
    rest: Result<Seq<TlvView>, Error>,
) -> Result<Seq<TlvView>, Error> {
    match rest {
        Ok(more) => Ok(ts + more),
        Err(e) => Err(e),
    }
}

/// What follows an entry of `len` bytes, its padding skipped as far as it is there.
pub open spec fn after_entry(s: Seq<u8>, len: int) -> Seq<u8> {
    let next = len + padding(len);
    if next <= s.len() {
        s.skip(next)
    } else {
        seq![]
    }
}

/// The entries of a list; fewer than four bytes at the end are no entry.
pub open spec fn tlvs_decode(s: Seq<u8>) -> Result<Seq<TlvView>, Error>
    decreases s.len(),
{
    if s.len() < 4 {
        Ok(seq![])
    } else {
        let len = u16_at(s, 2) as int;
        if len < 4 {
            Err(Error::ErrParamHeaderSelfReportedLengthShorter)
        } else if len > s.len() {
            Err(Error::ErrParamHeaderSelfReportedLengthLonger)
        } else {
            let t = TlvView { typ: u16_at(s, 0), value: s.subrange(4, len) };
            tlvs_prepend(seq![t], tlvs_decode(after_entry(s, len)))
        }
    }
}

/// The padding behind entry `i` of a list.
spec fn separator(ts: Seq<TlvView>, i: int) -> Seq<u8> {
    if i + 1 < ts.len() {
        zeros(padding(ts[i].value.len() as int))
    } else {
        seq![]
    }
}

/// A list from entry `i` on is the entry, its padding and the list behind it.
proof fn lemma_tlvs_encode_step(ts: Seq<TlvView>, i: int, front: Seq<u8>)
    requires
        0 <= i < ts.len(),
    ensures
        front + tlvs_encode(ts.skip(i)) == (front + tlv_encode(ts[i]) + separator(ts, i))
            + tlvs_encode(ts.skip(i + 1)),
{
    let rest = ts.skip(i);
    assert(rest.drop_first() =~= ts.skip(i + 1));
    if i + 1 < ts.len() {
        assert(front + (tlv_encode(rest[0]) + zeros(padding(rest[0].value.len() as int))
            + tlvs_encode(ts.skip(i + 1))) =~= (front + tlv_encode(ts[i]) + separator(ts, i))
            + tlvs_encode(ts.skip(i + 1)));
    } else {
        assert(ts.skip(i + 1) =~= seq![]);
        assert(tlvs_encode(ts.skip(i + 1)) =~= seq![]);
        assert(front + tlv_encode(ts[i]) =~= (front + tlv_encode(ts[i]) + separator(ts, i))
            + tlvs_encode(ts.skip(i + 1)));
    }
}

/// The length field of an entry with a value of `n` bytes.
fn length_field(n: usize) -> (r: u16)
    ensures
        r == (n + 4) % 0x1_0000,
{
    let m = n % 0x1_0000;
    if m < 0xfffc {
        (m + 4) as u16
    } else {
        (m - 0xfffc) as u16
    }
}

/// Writes one entry.
fn push_tlv(out: &mut Vec<u8>, t: &Tlv)
    ensures
        final(out)@ == old(out)@ + tlv_encode(t@),
{
    let n = bytes_len(&t.value);
    push_u16(out, t.typ);
    push_u16(out, length_field(n));
    push_slice(out, bytes_as_slice(&t.value));
    assert(out@ =~= old(out)@ + tlv_encode(t@));
}

/// Writes a list.
pub fn encode_tlvs(ts: &Vec<Tlv>) -> (out: Vec<u8>)
    ensures
        out@ == tlvs_encode(tlv_views(ts@)),
{
    let ghost all = tlv_views(ts@);
    let mut out: Vec<u8> = Vec::new();
    let mut i: usize = 0;
    assert(all.skip(0) =~= all);
    assert(out@ + tlvs_encode(all) =~= tlvs_encode(all));
    while i < ts.len()
        invariant
            i <= ts.len(),
            all == tlv_views(ts@),
            out@ + tlvs_encode(all.skip(i as int)) == tlvs_encode(all),
        decreases ts.len() - i,
    {
        proof {
            lemma_tlvs_encode_step(all, i as int, out@);
        }
        let ghost before = out@;
        push_tlv(&mut out, &ts[i]);
        if i + 1 < ts.len() {
            let pad = get_padding_size(bytes_len(&ts[i].value));
            push_zeros(&mut out, pad);
        } else {
            assert(out@ =~= out@ + separator(all, i as int));
        }
        assert(out@ == before + tlv_encode(all[i as int]) + separator(all, i as int));
        i += 1;
    }
    assert(all.skip(i as int) =~= seq![]);
    assert(out@ + tlvs_encode(all.skip(i as int)) =~= out@);
    out
}

/// Reads a list.
pub fn decode_tlvs(raw: &Bytes) -> (r: Result<Vec<Tlv>, Error>)
    ensures
        match r {
            Ok(ts) => tlvs_decode(bytes_view(*raw)) == Ok::<Seq<TlvView>, Error>(tlv_views(ts@)),
            Err(e) => tlvs_decode(bytes_view(*raw)) == Err::<Seq<TlvView>, Error>(e),
        },
{
    let ghost all = bytes_view(*raw);
    let n = bytes_len(raw);
    let mut ts: Vec<Tlv> = Vec::new();
    let mut offset: usize = 0;
    assert(all.skip(0) =~= all);
    assert(tlvs_prepend(tlv_views(ts@), tlvs_decode(all)) == tlvs_decode(all)) by {
        match tlvs_decode(all) {
            Ok(more) => {
                assert(tlv_views(ts@) + more =~= more);
            },
            Err(_) => {},
        }
    }
    while n - offset >= TLV_HEADER_SIZE
        invariant
            n == all.len(),
            all == bytes_view(*raw),
            offset <= n,
            tlvs_prepend(tlv_views(ts@), tlvs_decode(all.skip(offset as int))) == tlvs_decode(all),
        decreases n - offset,
    {
        let ghost s = all.skip(offset as int);
        let mut header = bytes_slice(raw, offset, offset + TLV_HEADER_SIZE);
        let typ = get_u16(&mut header);
        let length = get_u16(&mut header);
        assert(typ == u16_at(s, 0));
        assert(length == u16_at(s, 2));
        let len = length as usize;
        if len < TLV_HEADER_SIZE {
            return Err(Error::ErrParamHeaderSelfReportedLengthShorter);
        }
        if len > n - offset {
            return Err(Error::ErrParamHeaderSelfReportedLengthLonger);
        }
        let value = bytes_slice(raw, offset + TLV_HEADER_SIZE, offset + len);
        assert(bytes_view(value) =~= s.subrange(4, len as int));
        let next = len + get_padding_size(len);
        let ghost before = tlv_views(ts@);
        let t = Tlv { typ, value };
        let ghost tv = t@;
        ts.push(t);
        assert(tlv_views(ts@) =~= before.push(tv));
        let ghost rest = after_entry(s, len as int);
        if next <= n - offset {
            offset = offset + next;
        } else {
            offset = n;
        }
        assert(all.skip(offset as int) =~= rest);
        proof {
            assert(tlvs_decode(s) == tlvs_prepend(seq![tv], tlvs_decode(rest)));
            match tlvs_decode(rest) {
                Ok(more) => {
                    assert(before + (seq![tv] + more) =~= before.push(tv) + more);
                },
                Err(_) => {},
            }
        }
    }
    assert(tlv_views(ts@) + seq![] =~= tlv_views(ts@));
    Ok(ts)
}

/// Each entry's length fits its 16-bit length field.
pub open spec fn tlvs_fit(ts: Seq<TlvView>) -> bool {
    forall|i: int| 0 <= i < ts.len() ==> (#[trigger] ts[i]).value.len() + 4 <= u16::MAX
}

/// The first entry of a list and what is read behind it.
proof fn lemma_tlvs_decode_first(t: TlvView, tail: Seq<u8>, rest: Seq<u8>)
    requires
        t.value.len() + 4 <= u16::MAX,
        tail == zeros(padding(t.value.len() as int)) + rest || (tail.len() == 0 && rest.len() == 0),
    ensures
        tlvs_decode(tlv_encode(t) + tail) == tlvs_prepend(seq![t], tlvs_decode(rest)),
{
    let s = tlv_encode(t) + tail;
    let n = t.value.len() as int;
    let len = n + 4;
    assert(s.subrange(0, 2) =~= be16(t.typ));
    assert(s.subrange(2, 4) =~= be16(len as u16));
    crate::util::lemma_be16(t.typ, s, 0);
    crate::util::lemma_be16(len as u16, s, 2);
    assert(s.subrange(4, len) =~= t.value);
    assert(padding(n) == padding(len));
    assert(after_entry(s, len) =~= rest);
}

/// A list is read back as it was written.
pub proof fn lemma_tlvs_roundtrip(ts: Seq<TlvView>)
    requires
        tlvs_fit(ts),
    ensures
        tlvs_decode(tlvs_encode(ts)) == Ok::<Seq<TlvView>, Error>(ts),
    decreases ts.len(),
{
    if ts.len() == 0 {
        assert(ts =~= seq![]);
    } else {
        let t = ts[0];
        let rest = ts.drop_first();
        assert(tlvs_fit(rest)) by {
            assert forall|i: int| 0 <= i < rest.len() implies (#[trigger] rest[i]).value.len() + 4
                <= u16::MAX by {
                assert(rest[i] == ts[i + 1]);
            }
        }
        lemma_tlvs_roundtrip(rest);
        let more = tlvs_encode(rest);
        let pad = zeros(padding(t.value.len() as int));
        if ts.len() == 1 {
            assert(rest =~= seq![]);
            let none = Seq::<u8>::empty();
            assert(more =~= none);
            lemma_tlvs_decode_first(t, none, none);
            assert(tlv_encode(t) + none =~= tlv_encode(t));
        } else {
            lemma_tlvs_decode_first(t, pad + more, more);
            assert(tlv_encode(t) + (pad + more) =~= tlvs_encode(ts));
        }
        assert(seq![t] + rest =~= ts);
    }
}

/// An entry that is too long for its length field makes the list too long for a chunk.
pub proof fn lemma_tlvs_encode_len(ts: Seq<TlvView>)
    requires
        tlvs_encode(ts).len() <= u16::MAX,
    ensures
        tlvs_fit(ts),
    decreases ts.len(),
{
    if ts.len() > 0 {
        let rest = ts.drop_first();
        if ts.len() > 1 {
            lemma_tlvs_encode_len(rest);
            assert forall|i: int| 0 <= i < ts.len() implies (#[trigger] ts[i]).value.len() + 4
                <= u16::MAX by {
                if i > 0 {
                    assert(ts[i] == rest[i - 1]);
                }
            }
        }
    }
}

} // verus!
