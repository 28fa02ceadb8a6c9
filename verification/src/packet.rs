//! SCTP packets: a common header and chunks.
//!
//! ```text
//!  0                   1                   2                   3
//!  0 1 2 3 4 5 6 7 8 9 0 1 2 3 4 5 6 7 8 9 0 1 2 3 4 5 6 7 8 9 0 1
//! +-+-+-+-+-+-+-+-+-+-+-+-+-+-+-+-+-+-+-+-+-+-+-+-+-+-+-+-+-+-+-+-+
//! |     Source Value Number       |     Destination Value Number  |
//! +-+-+-+-+-+-+-+-+-+-+-+-+-+-+-+-+-+-+-+-+-+-+-+-+-+-+-+-+-+-+-+-+
//! |                      Verification Tag                         |
//! +-+-+-+-+-+-+-+-+-+-+-+-+-+-+-+-+-+-+-+-+-+-+-+-+-+-+-+-+-+-+-+-+
//! |                           Checksum                            |
//! +-+-+-+-+-+-+-+-+-+-+-+-+-+-+-+-+-+-+-+-+-+-+-+-+-+-+-+-+-+-+-+-+
//! ```

use bytes::Bytes;
use bytes::BytesMut;
use vstd::prelude::*;

use crate::buffer::{
    advance, buf_as_slice, buf_extend, buf_freeze, buf_len, buf_overwrite, buf_view,
    buf_with_capacity, bytes_as_slice, bytes_clone, bytes_len, bytes_slice, bytes_view, checksum,
    crc32c, get_u16, get_u32, get_u32_le, put_u16, put_u32,
};
use crate::chunk::codec::{chunk_decode, chunk_encode, chunk_type, chunk_value};
use crate::chunk::header::{header_decode, ChunkHeader, CHUNK_HEADER_SIZE};
use crate::chunk::kinds::{
    chunk_views, Chunk, ChunkView, CT_ABORT, CT_COOKIE_ACK, CT_COOKIE_ECHO, CT_ERROR,
    CT_FORWARD_TSN, CT_HEARTBEAT, CT_HEARTBEAT_ACK, CT_INIT, CT_INIT_ACK, CT_PAYLOAD_DATA,
    CT_RECONFIG, CT_SACK, CT_SHUTDOWN, CT_SHUTDOWN_ACK, CT_SHUTDOWN_COMPLETE,
};
use crate::chunk::tlv::{push_slice, push_zeros};
use crate::error::Error;
use crate::text::{append_decimal, decimal};
use crate::util::{be16, be32, get_padding_size, le32, padding, u16_at, u32_at, u32_le_at, zeros};

verus! {

/// The number of bytes of the common header.
pub const PACKET_HEADER_SIZE: usize = 12;

/// Ports and verification tag.
#[derive(Debug, Clone, Copy, PartialEq, Eq, Structural)]
pub struct CommonHeader {
    pub source_port: u16,
    pub destination_port: u16,
    pub verification_tag: u32,
}

/// A packet.
#[derive(Debug)]
pub struct Packet {
    pub common_header: CommonHeader,
    pub chunks: Vec<Chunk>,
}

/// The content of a [`Packet`].
#[verifier::ext_equal]
pub struct PacketView {
    pub common_header: CommonHeader,
    pub chunks: Seq<ChunkView>,
}

impl View for Packet {
    type V = PacketView;

    open spec fn view(&self) -> PacketView {
        PacketView { common_header: self.common_header, chunks: chunk_views(self.chunks@) }
    }
}

/// The contents of a sequence of packets.
pub open spec fn packet_views(ps: Seq<Packet>) -> Seq<PacketView> {
    ps.map_values(|p: Packet| p@)
}

/// A packet of which only as much is read as finds the association it belongs to.
#[derive(Debug)]
pub struct PartialDecode {
    pub common_header: CommonHeader,
    /// Everything behind the common header.
    pub remaining: Bytes,
    pub first_chunk_type: u8,
    /// The initiate tag, if the first chunk is an INIT or INIT ACK.
    pub initiate_tag: Option<u32>,
    /// The cookie, if the first chunk is a COOKIE ECHO.
    pub cookie: Option<Bytes>,
}

/// The content of a [`PartialDecode`].
#[verifier::ext_equal]
pub struct PartialDecodeView {
    pub common_header: CommonHeader,
    pub remaining: Seq<u8>,
    pub first_chunk_type: u8,
    pub initiate_tag: Option<u32>,
    pub cookie: Option<Seq<u8>>,
}

impl View for PartialDecode {
    type V = PartialDecodeView;

    open spec fn view(&self) -> PartialDecodeView {
        PartialDecodeView {
            common_header: self.common_header,
            remaining: bytes_view(self.remaining),
            first_chunk_type: self.first_chunk_type,
            initiate_tag: self.initiate_tag,
            cookie: match self.cookie {
                Some(c) => Some(bytes_view(c)),
                None => None,
            },
        }
    }
}

/// The checksum of a packet: that of its bytes with the checksum field zeroed.
pub open spec fn packet_checksum(s: Seq<u8>) -> u32 {
    crc32c(s.take(8) + zeros(4) + s.skip(12))
}

/// The common header at the front of `s`.
pub open spec fn header_at(s: Seq<u8>) -> CommonHeader {
    CommonHeader {
        source_port: u16_at(s, 0),
        destination_port: u16_at(s, 2),
        verification_tag: u32_at(s, 4),
    }
}

/// The common header, if `s` is long enough for one and its checksum is right.
pub open spec fn common_decode(s: Seq<u8>) -> Result<CommonHeader, Error> {
    if s.len() < 12 {
        Err(Error::ErrPacketRawTooSmall)
    } else if u32_le_at(s, 8) != packet_checksum(s) {
        Err(Error::ErrChecksumMismatch)
    } else {
        Ok(header_at(s))
    }
}

/// `c` in front of the chunks that were read behind it.
pub open spec fn chunks_prepend(
    cs: Seq<ChunkView>,
    rest: Result<Seq<ChunkView>, Error>,
) -> Result<Seq<ChunkView>, Error> {
    match rest {
        Ok(more) => Ok(cs + more),
        Err(e) => Err(e),
    }
}

/// The number of bytes that a chunk takes with its header and padding.
pub open spec fn chunk_size(c: ChunkView) -> int {
    let n = chunk_value(c).len() as int;
    4 + n + padding(n)
}

/// The chunks that fill `s` exactly, each with its padding.
pub open spec fn chunks_decode(s: Seq<u8>) -> Result<Seq<ChunkView>, Error>
    decreases s.len(),
{
    if s.len() == 0 {
        Ok(seq![])
    } else if s.len() < 4 {
        Err(Error::ErrParseSctpChunkNotEnoughData)
    } else {
        match chunk_decode(s) {
            Err(e) => Err(e),
            Ok(c) => if chunk_size(c) > s.len() {
                Err(Error::ErrParseSctpChunkNotEnoughData)
            } else {
                chunks_prepend(seq![c], chunks_decode(s.skip(chunk_size(c))))
            },
        }
    }
}

/// The packet that `s` holds.
pub open spec fn packet_decode(s: Seq<u8>) -> Result<PacketView, Error> {
    match common_decode(s) {
        Err(e) => Err(e),
        Ok(common_header) => match chunks_decode(s.skip(12)) {
            Err(e) => Err(e),
            Ok(chunks) => Ok(PacketView { common_header, chunks }),
        },
    }
}

/// Whether a first chunk of type `typ` carries an initiate tag.
pub open spec fn carries_tag(typ: u8) -> bool {
    typ == CT_INIT || typ == CT_INIT_ACK
}

/// What is read of the packet that `s` holds to find its association.
pub open spec fn partial_decode(s: Seq<u8>) -> Result<PartialDecodeView, Error> {
    match common_decode(s) {
        Err(e) => Err(e),
        Ok(common_header) => if s.len() < 16 {
            Err(Error::ErrParseSctpChunkNotEnoughData)
        } else {
            match header_decode(s.skip(12)) {
                Err(e) => Err(e),
                Ok(h) => Ok(
                    PartialDecodeView {
                        common_header,
                        remaining: s.skip(12),
                        first_chunk_type: h.typ,
                        initiate_tag: if carries_tag(h.typ) {
                            Some(u32_at(s, 16))
                        } else {
                            None
                        },
                        cookie: if h.typ == CT_COOKIE_ECHO {
                            Some(s.subrange(16, 16 + h.value_length))
                        } else {
                            None
                        },
                    },
                ),
            }
        },
    }
}

/// A packet that is fine up to the initiate tag of its first chunk, which is cut off.
pub open spec fn tag_missing(s: Seq<u8>) -> bool {
    &&& common_decode(s) is Ok
    &&& 16 <= s.len() < 20
    &&& header_decode(s.skip(12)) matches Ok(h) && carries_tag(h.typ)
}

/// Reads the common header and checks the checksum.
fn unmarshal_common(raw: &Bytes) -> (r: Result<CommonHeader, Error>)
    ensures
        r == common_decode(bytes_view(*raw)),
{
    let ghost s = bytes_view(*raw);
    if bytes_len(raw) < PACKET_HEADER_SIZE {
        return Err(Error::ErrPacketRawTooSmall);
    }
    let mut reader = bytes_clone(raw);
    let source_port = get_u16(&mut reader);
    let destination_port = get_u16(&mut reader);
    let verification_tag = get_u32(&mut reader);
    let their_checksum = get_u32_le(&mut reader);
    assert(destination_port == u16_at(s, 2));
    assert(verification_tag == u32_at(s, 4));
    assert(their_checksum == u32_le_at(s, 8));
    let our_checksum = generate_packet_checksum(raw);
    if their_checksum != our_checksum {
        return Err(Error::ErrChecksumMismatch);
    }
    Ok(CommonHeader { source_port, destination_port, verification_tag })
}

/// The checksum of a packet.
pub fn generate_packet_checksum(raw: &Bytes) -> (r: u32)
    requires
        bytes_view(*raw).len() >= 12,
    ensures
        r == packet_checksum(bytes_view(*raw)),
{
    let ghost s = bytes_view(*raw);
    let n = bytes_len(raw);
    let mut data: Vec<u8> = Vec::new();
    let head = bytes_slice(raw, 0, 8);
    let tail = bytes_slice(raw, PACKET_HEADER_SIZE, n);
    push_slice(&mut data, bytes_as_slice(&head));
    push_zeros(&mut data, 4);
    push_slice(&mut data, bytes_as_slice(&tail));
    assert(data@ =~= s.take(8) + zeros(4) + s.skip(12));
    checksum(data.as_slice())
}

/// Reads the chunks from `start` to the end of `raw`.
fn unmarshal_chunks(raw: &Bytes, start: usize) -> (r: Result<Vec<Chunk>, Error>)
    requires
        start <= bytes_view(*raw).len(),
    ensures
        match r {
            Ok(cs) => chunks_decode(bytes_view(*raw).skip(start as int)) == Ok::<
                Seq<ChunkView>,
                Error,
            >(chunk_views(cs@)),
            Err(e) => chunks_decode(bytes_view(*raw).skip(start as int)) == Err::<
                Seq<ChunkView>,
                Error,
            >(e),
        },
{
    let ghost all = bytes_view(*raw);
    let ghost want = chunks_decode(all.skip(start as int));
    let n = bytes_len(raw);
    let mut chunks: Vec<Chunk> = Vec::new();
    let mut offset: usize = start;
    proof {
        match want {
            Ok(more) => {
                assert(chunk_views(chunks@) + more =~= more);
            },
            Err(_) => {},
        }
    }
    while offset != n
        invariant
            n == all.len(),
            all == bytes_view(*raw),
            offset <= n,
            start <= n,
            want == chunks_decode(all.skip(start as int)),
            want == chunks_prepend(chunk_views(chunks@), chunks_decode(all.skip(offset as int))),
        decreases n - offset,
    {
        let ghost s = all.skip(offset as int);
        if n - offset < CHUNK_HEADER_SIZE {
            return Err(Error::ErrParseSctpChunkNotEnoughData);
        }
        let rest = bytes_slice(raw, offset, n);
        assert(bytes_view(rest) =~= s);
        let c = match Chunk::unmarshal(&rest) {
            Ok(c) => c,
            Err(e) => return Err(e),
        };
        let value_length = c.value_length();
        let chunk_value_padding = get_padding_size(value_length);
        let room = n - offset - CHUNK_HEADER_SIZE;
        if value_length > room || chunk_value_padding > room - value_length {
            return Err(Error::ErrParseSctpChunkNotEnoughData);
        }
        let ghost before = chunk_views(chunks@);
        let ghost cv = c@;
        offset = offset + CHUNK_HEADER_SIZE + value_length + chunk_value_padding;
        chunks.push(c);
        assert(chunk_views(chunks@) =~= before.push(cv));
        assert(s.skip(chunk_size(cv)) =~= all.skip(offset as int));
        proof {
            match chunks_decode(all.skip(offset as int)) {
                Ok(more) => {
                    assert(before + (seq![cv] + more) =~= before.push(cv) + more);
                },
                Err(_) => {},
            }
        }
    }
    assert(all.skip(offset as int) =~= seq![]);
    assert(chunk_views(chunks@) + seq![] =~= chunk_views(chunks@));
    Ok(chunks)
}

impl PartialDecode {
    /// Reads as much of a packet as finds its association.
    pub fn unmarshal(raw: &Bytes) -> (r: Result<PartialDecode, Error>)
        requires
            !tag_missing(bytes_view(*raw)),
        ensures
            match r {
                Ok(d) => partial_decode(bytes_view(*raw)) == Ok::<PartialDecodeView, Error>(d@),
                Err(e) => partial_decode(bytes_view(*raw)) == Err::<PartialDecodeView, Error>(e),
            },
    {
        let ghost s = bytes_view(*raw);
        let common_header = match unmarshal_common(raw) {
            Ok(h) => h,
            Err(e) => return Err(e),
        };
        let n = bytes_len(raw);
        let mut reader = bytes_slice(raw, PACKET_HEADER_SIZE, n);
        assert(bytes_view(reader) =~= s.skip(12));
        if bytes_len(&reader) < CHUNK_HEADER_SIZE {
            return Err(Error::ErrParseSctpChunkNotEnoughData);
        }
        let header = match ChunkHeader::unmarshal(&reader) {
            Ok(h) => h,
            Err(e) => return Err(e),
        };
        advance(&mut reader, CHUNK_HEADER_SIZE);
        assert(bytes_view(reader) =~= s.skip(16));
        let mut initiate_tag: Option<u32> = None;
        let mut cookie: Option<Bytes> = None;
        if header.typ == CT_INIT || header.typ == CT_INIT_ACK {
            let tag = get_u32(&mut reader);
            assert(tag == u32_at(s, 16));
            initiate_tag = Some(tag);
        } else if header.typ == CT_COOKIE_ECHO {
            let start = PACKET_HEADER_SIZE + CHUNK_HEADER_SIZE;
            cookie = Some(bytes_slice(raw, start, start + header.value_length()));
        }
        let remaining = bytes_slice(raw, PACKET_HEADER_SIZE, n);
        assert(bytes_view(remaining) =~= s.skip(12));
        let d = PartialDecode {
            common_header,
            remaining,
            first_chunk_type: header.typ,
            initiate_tag,
            cookie,
        };
        assert(partial_decode(s) == Ok::<PartialDecodeView, Error>(d@));
        Ok(d)
    }

    /// Reads as much of a packet as finds its association; `None` if the initiate tag of
    /// its first chunk is cut off.
    pub fn try_unmarshal(raw: &Bytes) -> (r: Option<Result<PartialDecode, Error>>)
        ensures
            r is None <==> tag_missing(bytes_view(*raw)),
            match r {
                Some(Ok(d)) => partial_decode(bytes_view(*raw)) == Ok::<PartialDecodeView, Error>(
                    d@,
                ),
                Some(Err(e)) => partial_decode(bytes_view(*raw)) == Err::<
                    PartialDecodeView,
                    Error,
                >(e),
                None => true,
            },
    {
        let ghost s = bytes_view(*raw);
        let n = bytes_len(raw);
        if PACKET_HEADER_SIZE + CHUNK_HEADER_SIZE <= n && n < 20 && unmarshal_common(raw).is_ok() {
            let rest = bytes_slice(raw, PACKET_HEADER_SIZE, n);
            assert(bytes_view(rest) =~= s.skip(12));
            if let Ok(h) = ChunkHeader::unmarshal(&rest) {
                if h.typ == CT_INIT || h.typ == CT_INIT_ACK {
                    return None;
                }
            }
        }
        Some(PartialDecode::unmarshal(raw))
    }

    /// Reads the chunks of the packet.
    pub fn finish(self) -> (r: Result<Packet, Error>)
        ensures
            match r {
                Ok(p) => chunks_decode(self@.remaining) == Ok::<Seq<ChunkView>, Error>(p@.chunks)
                    && p@.common_header == self@.common_header,
                Err(e) => chunks_decode(self@.remaining) == Err::<Seq<ChunkView>, Error>(e),
            },
    {
        assert(bytes_view(self.remaining).skip(0) =~= bytes_view(self.remaining));
        match unmarshal_chunks(&self.remaining, 0) {
            Ok(chunks) => Ok(Packet { common_header: self.common_header, chunks }),
            Err(e) => Err(e),
        }
    }
}

/// The common header with its checksum field zeroed.
pub open spec fn header_encode(h: CommonHeader) -> Seq<u8> {
    be16(h.source_port) + be16(h.destination_port) + be32(h.verification_tag) + zeros(4)
}

/// What `w` becomes when chunks are appended to it, each with zeros behind it up to a
/// multiple of four bytes, and the error that stops this.
pub open spec fn append_chunks(w: Seq<u8>, cs: Seq<ChunkView>) -> (Seq<u8>, Option<Error>)
    decreases cs.len(),
{
    if cs.len() == 0 {
        (w, None)
    } else if w.len() + 65538 > isize::MAX {
        (w, Some(Error::ErrPacketTooLong))
    } else {
        match chunk_encode(cs[0]) {
            Err(e) => (w, Some(e)),
            Ok(bytes) => append_chunks(pad4(w + bytes), cs.drop_first()),
        }
    }
}

/// `w` with zeros behind it up to a multiple of four bytes.
pub open spec fn pad4(w: Seq<u8>) -> Seq<u8> {
    w + zeros(padding(w.len() as int))
}

/// `w` with the checksum of all its bytes written at `pos`.
pub open spec fn with_checksum(w: Seq<u8>, pos: int) -> Seq<u8> {
    w.take(pos) + le32(crc32c(w)) + w.skip(pos + 4)
}

/// What `w` becomes when a packet is appended to it, and the error that stops this.
pub open spec fn append_packet(w: Seq<u8>, p: PacketView) -> (Seq<u8>, Option<Error>) {
    if w.len() + 12 > isize::MAX {
        (w, Some(Error::ErrPacketTooLong))
    } else {
        let (bytes, error) = append_chunks(w + header_encode(p.common_header), p.chunks);
        match error {
            Some(e) => (bytes, Some(e)),
            None => (with_checksum(bytes, w.len() as int + 8), None),
        }
    }
}

/// The bytes of a packet, or why it has none.
pub open spec fn packet_encode(p: PacketView) -> Result<Seq<u8>, Error> {
    let (bytes, error) = append_packet(seq![], p);
    match error {
        Some(e) => Err(e),
        None => Ok(bytes),
    }
}

/// What a packet has to meet: both ports named, an INIT or INIT ACK alone, and an INIT without a
/// tag.
pub open spec fn packet_check(p: PacketView) -> Result<(), Error> {
    if p.common_header.source_port == 0 {
        Err(Error::ErrSctpPacketSourcePortZero)
    } else if p.common_header.destination_port == 0 {
        Err(Error::ErrSctpPacketDestinationPortZero)
    } else if p.chunks.len() != 1 && exists|i: int|
        0 <= i < p.chunks.len() && (#[trigger] p.chunks[i]) is Init {
        Err(Error::ErrInitChunkBundled)
    } else if p.chunks.len() == 1 && is_init(p.chunks[0]) && p.common_header.verification_tag
        != 0 {
        Err(Error::ErrInitChunkVerifyTagNotZero)
    } else {
        Ok(())
    }
}

/// An INIT that is no INIT ACK.
pub open spec fn is_init(c: ChunkView) -> bool {
    c matches ChunkView::Init(i) && !i.is_ack
}

/// What a chunk type is called.
pub open spec fn chunk_type_text(typ: u8) -> Seq<char> {
    if typ == CT_PAYLOAD_DATA {
        "DATA"@
    } else if typ == CT_INIT {
        "INIT"@
    } else if typ == CT_INIT_ACK {
        "INIT-ACK"@
    } else if typ == CT_SACK {
        "SACK"@
    } else if typ == CT_HEARTBEAT {
        "HEARTBEAT"@
    } else if typ == CT_HEARTBEAT_ACK {
        "HEARTBEAT-ACK"@
    } else if typ == CT_ABORT {
        "ABORT"@
    } else if typ == CT_SHUTDOWN {
        "SHUTDOWN"@
    } else if typ == CT_SHUTDOWN_ACK {
        "SHUTDOWN-ACK"@
    } else if typ == CT_ERROR {
        "ERROR"@
    } else if typ == CT_COOKIE_ECHO {
        "COOKIE-ECHO"@
    } else if typ == CT_COOKIE_ACK {
        "COOKIE-ACK"@
    } else if typ == CT_SHUTDOWN_COMPLETE {
        "SHUTDOWN-COMPLETE"@
    } else if typ == CT_RECONFIG {
        "RECONFIG"@
    } else if typ == CT_FORWARD_TSN {
        "FORWARD-TSN"@
    } else {
        "Unknown ChunkType"@
    }
}

/// The name of a chunk type.
fn name_of_type(typ: u8) -> (r: &'static str)
    ensures
        r@ == chunk_type_text(typ),
{
    if typ == CT_PAYLOAD_DATA {
        "DATA"
    } else if typ == CT_INIT {
        "INIT"
    } else if typ == CT_INIT_ACK {
        "INIT-ACK"
    } else if typ == CT_SACK {
        "SACK"
    } else if typ == CT_HEARTBEAT {
        "HEARTBEAT"
    } else if typ == CT_HEARTBEAT_ACK {
        "HEARTBEAT-ACK"
    } else if typ == CT_ABORT {
        "ABORT"
    } else if typ == CT_SHUTDOWN {
        "SHUTDOWN"
    } else if typ == CT_SHUTDOWN_ACK {
        "SHUTDOWN-ACK"
    } else if typ == CT_ERROR {
        "ERROR"
    } else if typ == CT_COOKIE_ECHO {
        "COOKIE-ECHO"
    } else if typ == CT_COOKIE_ACK {
        "COOKIE-ACK"
    } else if typ == CT_SHUTDOWN_COMPLETE {
        "SHUTDOWN-COMPLETE"
    } else if typ == CT_RECONFIG {
        "RECONFIG"
    } else if typ == CT_FORWARD_TSN {
        "FORWARD-TSN"
    } else {
        "Unknown ChunkType"
    }
}

/// Chunks as text.
pub open spec fn chunks_text(cs: Seq<ChunkView>) -> Seq<char>
    decreases cs.len(),
{
    if cs.len() == 0 {
        seq![]
    } else {
        chunks_text(cs.drop_last()) + "Chunk: "@ + chunk_type_text(chunk_type(cs.last()))
    }
}

/// A packet as text.
pub open spec fn packet_text(p: PacketView) -> Seq<char> {
    "Packet:\n        source_port: "@ + decimal(p.common_header.source_port as nat)
        + "\n        destination_port: "@ + decimal(p.common_header.destination_port as nat)
        + "\n        verification_tag: "@ + decimal(p.common_header.verification_tag as nat)
        + "\n        "@ + chunks_text(p.chunks)
}

impl Packet {
    /// Reads a packet.
    pub fn unmarshal(raw: &Bytes) -> (r: Result<Packet, Error>)
        ensures
            match r {
                Ok(p) => packet_decode(bytes_view(*raw)) == Ok::<PacketView, Error>(p@),
                Err(e) => packet_decode(bytes_view(*raw)) == Err::<PacketView, Error>(e),
            },
    {
        let common_header = match unmarshal_common(raw) {
            Ok(h) => h,
            Err(e) => return Err(e),
        };
        match unmarshal_chunks(raw, PACKET_HEADER_SIZE) {
            Ok(chunks) => Ok(Packet { common_header, chunks }),
            Err(e) => Err(e),
        }
    }

    /// Appends the chunks to `writer`, each padded.
    fn marshal_chunks(&self, writer: &mut BytesMut) -> (r: Result<(), Error>)
        ensures
            ({
                let (bytes, error) = append_chunks(buf_view(*old(writer)), self@.chunks);
                &&& buf_view(*final(writer)) == bytes
                &&& r == (match error {
                    Some(e) => Err::<(), Error>(e),
                    None => Ok::<(), Error>(()),
                })
            }),
    {
        let ghost all = self@.chunks;
        let ghost want = append_chunks(buf_view(*writer), all);
        let mut i: usize = 0;
        assert(all.skip(0) =~= all);
        while i < self.chunks.len()
            invariant
                i <= self.chunks.len(),
                all == self@.chunks,
                want == append_chunks(buf_view(*old(writer)), all),
                want == append_chunks(buf_view(*writer), all.skip(i as int)),
            decreases self.chunks.len() - i,
        {
            let ghost rest = all.skip(i as int);
            let ghost w = buf_view(*writer);
            assert(rest[0] == self.chunks@[i as int]@);
            assert(rest.drop_first() =~= all.skip(i + 1));
            if buf_len(writer) > isize::MAX as usize - 65538 {
                return Err(Error::ErrPacketTooLong);
            }
            if let Err(e) = self.chunks[i].marshal_to(writer) {
                return Err(e);
            }
            let padding_needed = get_padding_size(buf_len(writer));
            let mut fill: Vec<u8> = Vec::new();
            push_zeros(&mut fill, padding_needed);
            buf_extend(writer, fill.as_slice());
            assert(buf_view(*writer) =~= pad4(w + chunk_encode(rest[0])->Ok_0));
            i += 1;
        }
        assert(all.skip(i as int) =~= seq![]);
        Ok(())
    }

    /// Appends the packet to `writer` and its checksum, which covers all that `writer`
    /// then holds.
    pub fn marshal_to(&self, writer: &mut BytesMut) -> (r: Result<usize, Error>)
        ensures
            ({
                let (bytes, error) = append_packet(buf_view(*old(writer)), self@);
                &&& buf_view(*final(writer)) == bytes
                &&& r == (match error {
                    Some(e) => Err::<usize, Error>(e),
                    None => Ok::<usize, Error>(bytes.len() as usize),
                })
            }),
    {
        let ghost w = buf_view(*writer);
        if buf_len(writer) > isize::MAX as usize - PACKET_HEADER_SIZE {
            return Err(Error::ErrPacketTooLong);
        }
        // the checksum goes behind the verification tag once the packet is complete
        put_u16(writer, self.common_header.source_port);
        put_u16(writer, self.common_header.destination_port);
        put_u32(writer, self.common_header.verification_tag);
        let checksum_pos = buf_len(writer);
        let none: [u8; 4] = [0, 0, 0, 0];
        buf_extend(writer, &none);
        assert(buf_view(*writer) =~= w + header_encode(self@.common_header));
        let ghost start = buf_view(*writer);
        proof {
            lemma_append_chunks_prefix(start, self@.chunks);
        }
        if let Err(e) = self.marshal_chunks(writer) {
            return Err(e);
        }
        let ghost full = buf_view(*writer);
        let sum = checksum(buf_as_slice(writer));
        let place: [u8; 4] = [
            (sum % 256) as u8,
            (sum / 0x100 % 256) as u8,
            (sum / 0x1_0000 % 256) as u8,
            (sum / 0x100_0000) as u8,
        ];
        assert(place@ =~= le32(sum));
        buf_overwrite(writer, checksum_pos, checksum_pos + 4, &place);
        assert(buf_view(*writer) =~= with_checksum(full, w.len() as int + 8));
        Ok(buf_len(writer))
    }

    /// The bytes of the packet.
    pub fn marshal(&self) -> (r: Result<Bytes, Error>)
        ensures
            match r {
                Ok(b) => packet_encode(self@) == Ok::<Seq<u8>, Error>(bytes_view(b)),
                Err(e) => packet_encode(self@) == Err::<Seq<u8>, Error>(e),
            },
    {
        let mut buf = buf_with_capacity(PACKET_HEADER_SIZE);
        match self.marshal_to(&mut buf) {
            Ok(_) => Ok(buf_freeze(buf)),
            Err(e) => Err(e),
        }
    }

    /// Checks the rules that all packets must adhere to.
    pub fn check_packet(&self) -> (r: Result<(), Error>)
        ensures
            r == packet_check(self@),
    {
        // The port number 0 MUST NOT be used.
        if self.common_header.source_port == 0 {
            return Err(Error::ErrSctpPacketSourcePortZero);
        }
        if self.common_header.destination_port == 0 {
            return Err(Error::ErrSctpPacketDestinationPortZero);
        }
        let mut i: usize = 0;
        while i < self.chunks.len()
            invariant
                i <= self.chunks.len(),
                self.common_header.source_port != 0,
                self.common_header.destination_port != 0,
                forall|j: int|
                    0 <= j < i && (#[trigger] self@.chunks[j]) is Init ==> self@.chunks.len() == 1
                        && (is_init(self@.chunks[j]) ==> self.common_header.verification_tag == 0),
            decreases self.chunks.len() - i,
        {
            assert(self@.chunks[i as int] == self.chunks@[i as int]@);
            if let Chunk::Init(ci) = &self.chunks[i] {
                assert(self@.chunks[i as int] is Init);
                // An INIT or INIT ACK chunk MUST NOT be bundled with any other chunk. They MUST
                // be the only chunks present in the SCTP packets that carry them.
                if self.chunks.len() != 1 {
                    return Err(Error::ErrInitChunkBundled);
                }
                // A packet containing an INIT chunk MUST have a zero Verification Tag.
                if !ci.is_ack && self.common_header.verification_tag != 0 {
                    return Err(Error::ErrInitChunkVerifyTagNotZero);
                }
            }
            i += 1;
        }
        Ok(())
    }

    /// The packet as text.
    pub fn to_text(&self) -> (r: String)
        ensures
            r@ == packet_text(self@),
    {
        let ghost all = self@.chunks;
        let mut text = String::new();
        text.append("Packet:\n        source_port: ");
        append_decimal(&mut text, self.common_header.source_port as u64);
        text.append("\n        destination_port: ");
        append_decimal(&mut text, self.common_header.destination_port as u64);
        text.append("\n        verification_tag: ");
        append_decimal(&mut text, self.common_header.verification_tag as u64);
        text.append("\n        ");
        let ghost head = text@;
        let mut i: usize = 0;
        assert(all.take(0) =~= seq![]);
        assert(text@ =~= head + chunks_text(all.take(0)));
        while i < self.chunks.len()
            invariant
                i <= self.chunks.len(),
                all == self@.chunks,
                text@ == head + chunks_text(all.take(i as int)),
            decreases self.chunks.len() - i,
        {
            text.append("Chunk: ");
            text.append(name_of_type(self.chunks[i].typ()));
            assert(all.take(i + 1).drop_last() =~= all.take(i as int));
            assert(all.take(i + 1).last() == self.chunks@[i as int]@);
            assert(text@ =~= head + chunks_text(all.take(i + 1)));
            i += 1;
        }
        assert(all.take(i as int) =~= all);
        assert(text@ =~= packet_text(self@));
        text
    }
}

/// Appending chunks keeps what is there.
pub proof fn lemma_append_chunks_prefix(w: Seq<u8>, cs: Seq<ChunkView>)
    ensures
        append_chunks(w, cs).0.len() >= w.len(),
        append_chunks(w, cs).0.take(w.len() as int) == w,
    decreases cs.len(),
{
    if cs.len() == 0 || w.len() + 65538 > isize::MAX {
        assert(w.take(w.len() as int) =~= w);
    } else {
        match chunk_encode(cs[0]) {
            Err(_) => {
                assert(w.take(w.len() as int) =~= w);
            },
            Ok(bytes) => {
                let next = pad4(w + bytes);
                lemma_append_chunks_prefix(next, cs.drop_first());
                let end = append_chunks(next, cs.drop_first()).0;
                assert(end.take(w.len() as int) =~= end.take(next.len() as int).take(
                    w.len() as int,
                ));
                assert(next.take(w.len() as int) =~= w);
            },
        }
    }
}

} // verus!
