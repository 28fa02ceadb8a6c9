//! Writing a packet and reading one undo each other.

use vstd::prelude::*;

use crate::buffer::crc32c;
use crate::chunk::codec::{chunk_decode, chunk_encode, chunk_value};
use crate::chunk::header::{all_zero, header_decode};
use crate::chunk::kinds::ChunkView;
use crate::chunk::laws::{chunk_readable, chunk_wire, law_chunk_roundtrip};
use crate::chunk::layout::{n16, n32};
use crate::error::Error;
use crate::packet::{
    append_chunks, chunk_size, chunks_decode, chunks_prepend, header_at, header_encode,
    packet_decode, packet_encode, pad4, partial_decode, with_checksum, PacketView,
};
use crate::util::{
    be16, be32, le32, lemma_be16, lemma_be32, lemma_le32, lemma_padding_behind, lemma_u32_bytes,
    lemma_u32_le_bytes, padding, u16_at, zeros,
};

verus! {

/// Chunks that a receiver understands.
pub open spec fn chunks_readable(cs: Seq<ChunkView>) -> bool {
    forall|i: int| 0 <= i < cs.len() ==> chunk_readable(#[trigger] cs[i])
}

/// What of chunks travels to the peer.
pub open spec fn chunks_wire(cs: Seq<ChunkView>) -> Seq<ChunkView> {
    cs.map_values(|c: ChunkView| chunk_wire(c))
}

/// The bytes of chunks that can all be written, each with its padding.
spec fn body(cs: Seq<ChunkView>) -> Seq<u8>
    decreases cs.len(),
{
    if cs.len() == 0 {
        seq![]
    } else {
        pad4(chunk_encode(cs[0])->Ok_0) + body(cs.drop_first())
    }
}

/// Chunks that all can be written.
spec fn writable(cs: Seq<ChunkView>) -> bool {
    forall|i: int| 0 <= i < cs.len() ==> chunk_encode(#[trigger] cs[i]) is Ok
}

/// Behind a multiple of four bytes, chunks are appended as they stand.
proof fn lemma_append_chunks_body(w: Seq<u8>, cs: Seq<ChunkView>)
    requires
        w.len() % 4 == 0,
        append_chunks(w, cs).1 is None,
    ensures
        writable(cs),
        append_chunks(w, cs).0 == w + body(cs),
    decreases cs.len(),
{
    if cs.len() == 0 {
        assert(w + body(cs) =~= w);
    } else {
        let bytes = chunk_encode(cs[0])->Ok_0;
        let rest = cs.drop_first();
        let next = pad4(w + bytes);
        lemma_padding_behind(w.len() as int, bytes.len() as int);
        assert(next =~= w + pad4(bytes));
        lemma_append_chunks_body(next, rest);
        assert(next + body(rest) =~= w + body(cs));
        assert forall|i: int| 0 <= i < cs.len() implies chunk_encode(#[trigger] cs[i]) is Ok by {
            if i > 0 {
                assert(cs[i] == rest[i - 1]);
            }
        }
    }
}

/// The first chunk is read back and the others behind it.
proof fn lemma_decode_first(c: ChunkView, rest: Seq<u8>)
    requires
        chunk_encode(c) is Ok,
        chunk_readable(c),
        rest.len() == 0 || rest.len() >= 4,
    ensures
        chunks_decode(pad4(chunk_encode(c)->Ok_0) + rest) == chunks_prepend(
            seq![chunk_wire(c)],
            chunks_decode(rest),
        ),
{
    let bytes = chunk_encode(c)->Ok_0;
    let n = chunk_value(c).len() as int;
    let tail = zeros(padding(bytes.len() as int)) + rest;
    let s = pad4(bytes) + rest;
    lemma_padding_behind(4, n);
    assert(s =~= bytes + tail);
    assert(tail.len() >= 4 || all_zero(tail));
    law_chunk_roundtrip(c, tail);
    assert(chunk_value(chunk_wire(c)) == chunk_value(c)) by {
        reveal(chunk_value);
    }
    assert(s.skip(chunk_size(chunk_wire(c))) =~= rest);
}

/// Chunks are read back from their bytes.
proof fn lemma_body_roundtrip(cs: Seq<ChunkView>)
    requires
        writable(cs),
        chunks_readable(cs),
    ensures
        chunks_decode(body(cs)) == Ok::<Seq<ChunkView>, Error>(chunks_wire(cs)),
        cs.len() > 0 ==> body(cs).len() >= 4,
    decreases cs.len(),
{
    if cs.len() == 0 {
        assert(chunks_wire(cs) =~= seq![]);
    } else {
        let rest = cs.drop_first();
        assert forall|i: int| 0 <= i < rest.len() implies chunk_encode(#[trigger] rest[i]) is Ok
            && chunk_readable(rest[i]) by {
            assert(rest[i] == cs[i + 1]);
        }
        lemma_body_roundtrip(rest);
        lemma_decode_first(cs[0], body(rest));
        assert(seq![chunk_wire(cs[0])] + chunks_wire(rest) =~= chunks_wire(cs));
    }
}

/// A packet that was written is read back, up to what the sender of a DATA chunk keeps
/// about it.
pub proof fn law_packet_roundtrip(p: PacketView)
    requires
        packet_encode(p) is Ok,
        chunks_readable(p.chunks),
    ensures
        packet_decode(packet_encode(p)->Ok_0) == Ok::<PacketView, Error>(
            PacketView { common_header: p.common_header, chunks: chunks_wire(p.chunks) },
        ),
{
    let none = Seq::<u8>::empty();
    let h = p.common_header;
    let head = none + header_encode(h);
    assert(head =~= header_encode(h));
    let full = append_chunks(head, p.chunks).0;
    lemma_append_chunks_body(head, p.chunks);
    lemma_body_roundtrip(p.chunks);
    let s = with_checksum(full, 8);
    let sum = crc32c(full);
    assert(packet_encode(p)->Ok_0 == s);
    assert(full.take(12) =~= head);
    assert(s.subrange(0, 2) =~= be16(h.source_port));
    assert(s.subrange(2, 4) =~= be16(h.destination_port));
    assert(s.subrange(4, 8) =~= be32(h.verification_tag));
    assert(s.subrange(8, 12) =~= le32(sum));
    lemma_be16(h.source_port, s, 0);
    lemma_be16(h.destination_port, s, 2);
    lemma_be32(h.verification_tag, s, 4);
    lemma_le32(sum, s, 8);
    assert(s.take(8) + zeros(4) + s.skip(12) =~= full);
    assert(s.skip(12) =~= body(p.chunks));
}

/// The bytes of a packet: the ports, the tag, the checksum of the packet with this field zeroed,
/// and the chunks, each filled up to a multiple of four bytes.
pub proof fn law_packet_layout(p: PacketView)
    requires
        packet_encode(p) is Ok,
    ensures
        ({
            let b = packet_encode(p)->Ok_0;
            let h = p.common_header;
            let sum = crc32c(b.take(8) + seq![0u8, 0u8, 0u8, 0u8] + b.skip(12));
            &&& b.len() >= 12 && b.len() % 4 == 0
            &&& n16(b, 0) == h.source_port
            &&& n16(b, 2) == h.destination_port
            &&& n32(b, 4) == h.verification_tag
            &&& b[8] + b[9] * 0x100 + b[10] * 0x1_0000 + b[11] * 0x100_0000 == sum
            &&& p.chunks.len() == 0 ==> b.len() == 12
            &&& p.chunks.len() > 0 ==> {
                let c = chunk_encode(p.chunks[0])->Ok_0;
                &&& chunk_encode(p.chunks[0]) is Ok
                &&& 12 + c.len() <= b.len()
                &&& b.subrange(12, 12 + c.len() as int) == c
            }
        }),
{
    let none = Seq::<u8>::empty();
    let h = p.common_header;
    let head = none + header_encode(h);
    assert(head =~= header_encode(h));
    let full = append_chunks(head, p.chunks).0;
    lemma_append_chunks_body(head, p.chunks);
    lemma_multiple_of_four(head, p.chunks);
    let s = with_checksum(full, 8);
    let sum = crc32c(full);
    assert(packet_encode(p)->Ok_0 == s);
    assert(full.take(12) =~= head);
    assert(s.subrange(0, 2) =~= be16(h.source_port));
    assert(s.subrange(2, 4) =~= be16(h.destination_port));
    assert(s.subrange(4, 8) =~= be32(h.verification_tag));
    assert(s.subrange(8, 12) =~= le32(sum));
    lemma_be16(h.source_port, s, 0);
    lemma_be16(h.destination_port, s, 2);
    lemma_be32(h.verification_tag, s, 4);
    lemma_le32(sum, s, 8);
    assert(s.take(8) + seq![0u8, 0u8, 0u8, 0u8] + s.skip(12) =~= full);
    if p.chunks.len() > 0 {
        let c = chunk_encode(p.chunks[0])->Ok_0;
        assert(s.subrange(12, 12 + c.len() as int) =~= c);
    }
}

proof fn lemma_multiple_of_four(w: Seq<u8>, cs: Seq<ChunkView>)
    requires
        w.len() % 4 == 0,
    ensures
        append_chunks(w, cs).1 is None ==> append_chunks(w, cs).0.len() % 4 == 0,
    decreases cs.len(),
{
    if cs.len() > 0 && chunk_encode(cs[0]) is Ok {
        lemma_multiple_of_four(pad4(w + chunk_encode(cs[0])->Ok_0), cs.drop_first());
    }
}

/// Bytes are no packet if they are too few for the header, or if the checksum is not that of the
/// bytes with its field zeroed.
pub proof fn law_damaged_packet_is_refused(s: Seq<u8>)
    ensures
        s.len() < 12 ==> packet_decode(s) is Err && partial_decode(s) is Err,
        s.len() >= 12 && s[8] + s[9] * 0x100 + s[10] * 0x1_0000 + s[11] * 0x100_0000 != crc32c(
            s.take(8) + seq![0u8, 0u8, 0u8, 0u8] + s.skip(12),
        ) ==> packet_decode(s) is Err && partial_decode(s) is Err,
{
    assert(seq![0u8, 0u8, 0u8, 0u8] =~= zeros(4));
}

/// What is read to find the association of a packet: the ports and the tag, the type of the first
/// chunk, the tag that an INIT or INIT ACK starts with, and the cookie of a COOKIE ECHO.
pub proof fn law_first_look_at_a_packet(s: Seq<u8>)
    requires
        partial_decode(s) is Ok,
        s.len() >= 20,
    ensures
        ({
            let d = partial_decode(s)->Ok_0;
            &&& d.common_header.source_port == n16(s, 0)
            &&& d.common_header.destination_port == n16(s, 2)
            &&& d.common_header.verification_tag == n32(s, 4)
            &&& d.first_chunk_type == s[12]
            &&& d.remaining == s.skip(12)
            &&& s[12] == 1 || s[12] == 2 ==> (d.initiate_tag matches Some(t) && t == n32(s, 16))
            &&& !(s[12] == 1 || s[12] == 2) ==> d.initiate_tag is None
            &&& s[12] == 10 ==> (d.cookie matches Some(c) && c == s.subrange(16, 12 + n16(s, 14)))
            &&& s[12] != 10 ==> d.cookie is None
        }),
{
    let h = header_decode(s.skip(12));
    assert(s.skip(12)[0] == s[12]);
    assert(s.skip(12)[2] == s[14] && s.skip(12)[3] == s[15]);
}

/// A packet without chunks that was read is written back byte for byte.
pub proof fn law_header_only_packet_is_rewritten(s: Seq<u8>)
    requires
        packet_decode(s) matches Ok(p) && p.chunks.len() == 0,
    ensures
        packet_encode(packet_decode(s)->Ok_0) == Ok::<Seq<u8>, Error>(s),
{
    let h = header_at(s);
    lemma_no_chunks(s.skip(12));
    let head = header_encode(h);
    let none = Seq::<u8>::empty();
    assert(none + head =~= head);
    assert(be16(u16_at(s, 0)) =~= s.subrange(0, 2));
    assert(be16(u16_at(s, 2)) =~= s.subrange(2, 4));
    lemma_u32_bytes(s, 4);
    assert(head.take(8) =~= s.subrange(0, 2) + s.subrange(2, 4) + s.subrange(4, 8));
    assert(head.take(8) =~= s.take(8));
    assert(s.take(8) + zeros(4) + s.skip(12) =~= head);
    lemma_u32_le_bytes(s, 8);
    assert(with_checksum(head, 8) =~= s.take(8) + s.subrange(8, 12));
    assert(with_checksum(head, 8) =~= s);
    assert(append_chunks(head, packet_decode(s)->Ok_0.chunks) == (head, None::<Error>));
}

/// Where no chunks are read there are no bytes.
proof fn lemma_no_chunks(s: Seq<u8>)
    requires
        chunks_decode(s) matches Ok(cs) && cs.len() == 0,
    ensures
        s.len() == 0,
{
    if s.len() >= 4 {
        let c = chunk_decode(s)->Ok_0;
        let more = chunks_decode(s.skip(chunk_size(c)));
        assert(chunks_prepend(seq![c], more) is Ok ==> chunks_prepend(seq![c], more)->Ok_0.len()
            > 0);
    }
}

/// To read a packet in two steps, first up to its association and then its chunks, is to
/// read it at once.
pub proof fn law_partial_decode_then_finish(s: Seq<u8>)
    requires
        partial_decode(s) is Ok,
    ensures
        ({
            let d = partial_decode(s)->Ok_0;
            packet_decode(s) == (match chunks_decode(d.remaining) {
                Ok(chunks) => Ok::<PacketView, Error>(
                    PacketView { common_header: d.common_header, chunks },
                ),
                Err(e) => Err::<PacketView, Error>(e),
            })
        }),
{
}

} // verus!
