//! The wire format of chunks.

use bytes::Bytes;
use bytes::BytesMut;
use vstd::prelude::*;

use crate::buffer::{
    buf_extend, buf_len, buf_view, bytes_as_slice, bytes_clone, bytes_len, bytes_slice, bytes_view,
    get_u16, get_u32,
};
use crate::chunk::header::{header_decode, ChunkHeader, CHUNK_HEADER_SIZE};
use crate::chunk::kinds::{
    Chunk, ChunkAbort, ChunkCookieEcho, ChunkError, ChunkForwardTsn, ChunkForwardTsnStream,
    ChunkHeartbeat, ChunkInit, ChunkReconfig, ChunkSelectiveAck, ChunkShutdown, ChunkView,
    ForwardTsnView, GapAckBlock, InitView, ReconfigView, SackView, CT_ABORT, CT_COOKIE_ACK,
    CT_COOKIE_ECHO, CT_ERROR, CT_FORWARD_TSN, CT_HEARTBEAT, CT_HEARTBEAT_ACK, CT_INIT, CT_INIT_ACK,
    CT_PAYLOAD_DATA, CT_RECONFIG, CT_SACK, CT_SHUTDOWN, CT_SHUTDOWN_ACK, CT_SHUTDOWN_COMPLETE,
};
use crate::chunk::param::{
    decode_params, encode_params, param_views, params_decode, params_encode, Param, ParamView,
};
use crate::chunk::payload::{ChunkPayloadData, DataView, PayloadProtocolIdentifier};
use crate::chunk::tlv::{
    decode_tlvs, encode_tlvs, push_slice, push_u16, push_u32, tlvs_decode, tlvs_encode,
};
use crate::error::Error;
use crate::util::{be16, be32, u16_at, u32_at};

verus! {

/// The longest chunk value that the 16-bit length field admits.
pub const MAX_CHUNK_VALUE: usize = 65531;

/// Pairs of 16-bit numbers one behind the other.
pub open spec fn pairs_encode(v: Seq<(u16, u16)>) -> Seq<u8> {
    Seq::new(
        4 * v.len(),
        |i: int|
            be16(
                if i % 4 < 2 {
                    v[i / 4].0
                } else {
                    v[i / 4].1
                },
            )[i % 2],
    )
}

/// 32-bit numbers one behind the other.
pub open spec fn u32s_encode(v: Seq<u32>) -> Seq<u8> {
    Seq::new(4 * v.len(), |i: int| be32(v[i / 4])[i % 4])
}

/// Gap blocks as pairs.
pub open spec fn gap_pairs(v: Seq<GapAckBlock>) -> Seq<(u16, u16)> {
    v.map_values(|b: GapAckBlock| (b.start, b.end))
}

/// Forwarded streams as pairs.
pub open spec fn stream_pairs(v: Seq<ChunkForwardTsnStream>) -> Seq<(u16, u16)> {
    v.map_values(|s: ChunkForwardTsnStream| (s.identifier, s.sequence))
}

/// The `n` gap blocks that stand at `at`.
pub open spec fn gaps_at(s: Seq<u8>, at: int, n: nat) -> Seq<GapAckBlock> {
    Seq::new(
        n,
        |i: int| GapAckBlock { start: u16_at(s, at + 4 * i), end: u16_at(s, at + 4 * i + 2) },
    )
}

/// The `n` numbers that stand at `at`.
pub open spec fn u32s_at(s: Seq<u8>, at: int, n: nat) -> Seq<u32> {
    Seq::new(n, |i: int| u32_at(s, at + 4 * i))
}

/// The `n` forwarded streams that stand at `at`.
pub open spec fn streams_at(s: Seq<u8>, at: int, n: nat) -> Seq<ChunkForwardTsnStream> {
    Seq::new(
        n,
        |i: int|
            ChunkForwardTsnStream {
                identifier: u16_at(s, at + 4 * i),
                sequence: u16_at(s, at + 4 * i + 2),
            },
    )
}

/// One if the flag is set.
pub open spec fn bit(b: bool) -> int {
    if b {
        1
    } else {
        0
    }
}

/// The flags of a DATA chunk: ending, beginning, unordered, immediate.
pub open spec fn data_flags(d: DataView) -> u8 {
    (bit(d.ending_fragment) + 2 * bit(d.beginning_fragment) + 4 * bit(d.unordered) + 8 * bit(
        d.immediate_sack,
    )) as u8
}

/// The parameters of a RECONFIG chunk that are there.
pub open spec fn reconfig_params(r: ReconfigView) -> Seq<ParamView> {
    let a = match r.param_a {
        Some(p) => seq![p],
        None => seq![],
    };
    match r.param_b {
        Some(p) => a.push(p),
        None => a,
    }
}

/// The type of a chunk.
pub open spec fn chunk_type(c: ChunkView) -> u8 {
    match c {
        ChunkView::Init(i) => if i.is_ack {
            CT_INIT_ACK
        } else {
            CT_INIT
        },
        ChunkView::Abort(_) => CT_ABORT,
        ChunkView::Error(_) => CT_ERROR,
        ChunkView::Heartbeat(_) => CT_HEARTBEAT,
        ChunkView::HeartbeatAck(_) => CT_HEARTBEAT_ACK,
        ChunkView::CookieEcho(_) => CT_COOKIE_ECHO,
        ChunkView::CookieAck => CT_COOKIE_ACK,
        ChunkView::PayloadData(_) => CT_PAYLOAD_DATA,
        ChunkView::SelectiveAck(_) => CT_SACK,
        ChunkView::Reconfig(_) => CT_RECONFIG,
        ChunkView::ForwardTsn(_) => CT_FORWARD_TSN,
        ChunkView::Shutdown(_) => CT_SHUTDOWN,
        ChunkView::ShutdownAck => CT_SHUTDOWN_ACK,
        ChunkView::ShutdownComplete => CT_SHUTDOWN_COMPLETE,
    }
}

/// The flags of a chunk.
pub open spec fn chunk_flags(c: ChunkView) -> u8 {
    match c {
        ChunkView::PayloadData(d) => data_flags(d),
        _ => 0,
    }
}

/// The value of a chunk.
#[verifier::opaque]
pub open spec fn chunk_value(c: ChunkView) -> Seq<u8> {
    match c {
        ChunkView::Init(i) => be32(i.initiate_tag) + be32(i.advertised_receiver_window_credit)
            + be16(i.num_outbound_streams) + be16(i.num_inbound_streams) + be32(i.initial_tsn)
            + params_encode(i.params),
        ChunkView::Abort(causes) => tlvs_encode(causes),
        ChunkView::Error(causes) => tlvs_encode(causes),
        ChunkView::Heartbeat(params) => params_encode(params),
        ChunkView::HeartbeatAck(params) => params_encode(params),
        ChunkView::CookieEcho(cookie) => cookie,
        ChunkView::CookieAck => seq![],
        ChunkView::PayloadData(d) => be32(d.tsn) + be16(d.stream_identifier) + be16(
            d.stream_sequence_number,
        ) + be32(d.payload_type.code()) + d.user_data,
        ChunkView::SelectiveAck(a) => be32(a.cumulative_tsn_ack) + be32(
            a.advertised_receiver_window_credit,
        ) + be16((a.gap_ack_blocks.len() % 0x1_0000) as u16) + be16(
            (a.duplicate_tsn.len() % 0x1_0000) as u16,
        ) + pairs_encode(gap_pairs(a.gap_ack_blocks)) + u32s_encode(a.duplicate_tsn),
        ChunkView::Reconfig(r) => params_encode(reconfig_params(r)),
        ChunkView::ForwardTsn(f) => be32(f.new_cumulative_tsn) + pairs_encode(
            stream_pairs(f.streams),
        ),
        ChunkView::Shutdown(tsn) => be32(tsn),
        ChunkView::ShutdownAck => seq![],
        ChunkView::ShutdownComplete => seq![],
    }
}

/// The bytes of a chunk without padding, or why it has none: a RECONFIG chunk needs its
/// first parameter, and the value has to fit the length field.
pub open spec fn chunk_encode(c: ChunkView) -> Result<Seq<u8>, Error> {
    let value = chunk_value(c);
    if c matches ChunkView::Reconfig(r) && r.param_a is None {
        Err(Error::ErrChunkReconfigInvalidParamA)
    } else if value.len() > MAX_CHUNK_VALUE {
        Err(Error::ErrChunkValueTooLong)
    } else {
        Ok(seq![chunk_type(c), chunk_flags(c)] + be16((value.len() + 4) as u16) + value)
    }
}

/// Whether packets may hold chunks of this type when they are read.
pub open spec fn type_known(typ: u8) -> bool {
    typ == CT_PAYLOAD_DATA || typ == CT_INIT || typ == CT_INIT_ACK || typ == CT_SACK || typ
        == CT_HEARTBEAT || typ == CT_ABORT || typ == CT_SHUTDOWN || typ == CT_SHUTDOWN_ACK || typ
        == CT_ERROR || typ == CT_COOKIE_ECHO || typ == CT_COOKIE_ACK || typ == CT_SHUTDOWN_COMPLETE
        || typ == CT_RECONFIG || typ == CT_FORWARD_TSN
}

/// The INIT or INIT ACK chunk with these flags and this value.
pub open spec fn init_decode(is_ack: bool, flags: u8, v: Seq<u8>) -> Result<InitView, Error> {
    if v.len() < 16 {
        Err(Error::ErrChunkValueNotLongEnough)
    } else if flags != 0 {
        Err(Error::ErrChunkTypeInitFlagZero)
    } else {
        match params_decode(v.skip(16)) {
            Err(e) => Err(e),
            Ok(params) => Ok(
                InitView {
                    is_ack,
                    initiate_tag: u32_at(v, 0),
                    advertised_receiver_window_credit: u32_at(v, 4),
                    num_outbound_streams: u16_at(v, 8),
                    num_inbound_streams: u16_at(v, 10),
                    initial_tsn: u32_at(v, 12),
                    params,
                },
            ),
        }
    }
}

/// The DATA chunk with these flags and this value.
pub open spec fn data_decode(flags: u8, v: Seq<u8>) -> Result<DataView, Error> {
    if v.len() < 12 {
        Err(Error::ErrChunkPayloadSmall)
    } else {
        Ok(
            DataView {
                ending_fragment: flags % 2 == 1,
                beginning_fragment: flags / 2 % 2 == 1,
                unordered: flags / 4 % 2 == 1,
                immediate_sack: flags / 8 % 2 == 1,
                tsn: u32_at(v, 0),
                stream_identifier: u16_at(v, 4),
                stream_sequence_number: u16_at(v, 6),
                payload_type: PayloadProtocolIdentifier::of_code(u32_at(v, 8)),
                user_data: v.skip(12),
                ..DataView::blank()
            },
        )
    }
}

/// The SACK chunk with this value.
pub open spec fn sack_decode(v: Seq<u8>) -> Result<SackView, Error> {
    if v.len() < 12 {
        Err(Error::ErrSackSizeNotLargeEnoughInfo)
    } else {
        let gaps = u16_at(v, 8) as nat;
        let dups = u16_at(v, 10) as nat;
        if v.len() != 12 + 4 * gaps + 4 * dups {
            Err(Error::ErrSackSizeNotMatchPredicted)
        } else {
            Ok(
                SackView {
                    cumulative_tsn_ack: u32_at(v, 0),
                    advertised_receiver_window_credit: u32_at(v, 4),
                    gap_ack_blocks: gaps_at(v, 12, gaps),
                    duplicate_tsn: u32s_at(v, (12 + 4 * gaps) as int, dups),
                },
            )
        }
    }
}

/// The RECONFIG chunk with this value.
pub open spec fn reconfig_decode(v: Seq<u8>) -> Result<ReconfigView, Error> {
    match params_decode(v) {
        Err(e) => Err(e),
        Ok(ps) => if ps.len() == 0 {
            Err(Error::ErrParamHeaderTooShort)
        } else {
            Ok(
                ReconfigView {
                    param_a: Some(ps[0]),
                    param_b: if ps.len() > 1 {
                        Some(ps[1])
                    } else {
                        None
                    },
                },
            )
        },
    }
}

/// The FORWARD TSN chunk with this value.
pub open spec fn forward_tsn_decode(v: Seq<u8>) -> Result<ForwardTsnView, Error> {
    if v.len() < 4 || v.len() % 4 != 0 {
        Err(Error::ErrChunkTooShort)
    } else {
        Ok(
            ForwardTsnView {
                new_cumulative_tsn: u32_at(v, 0),
                streams: streams_at(v, 4, ((v.len() - 4) / 4) as nat),
            },
        )
    }
}

/// The chunk with this type, these flags and this value.
#[verifier::opaque]
pub open spec fn value_decode(typ: u8, flags: u8, v: Seq<u8>) -> Result<ChunkView, Error> {
    if typ == CT_INIT || typ == CT_INIT_ACK {
        match init_decode(typ == CT_INIT_ACK, flags, v) {
            Ok(i) => Ok(ChunkView::Init(i)),
            Err(e) => Err(e),
        }
    } else if typ == CT_ABORT || typ == CT_ERROR {
        match tlvs_decode(v) {
            Ok(causes) => Ok(
                if typ == CT_ABORT {
                    ChunkView::Abort(causes)
                } else {
                    ChunkView::Error(causes)
                },
            ),
            Err(e) => Err(e),
        }
    } else if typ == CT_COOKIE_ECHO {
        Ok(ChunkView::CookieEcho(v))
    } else if typ == CT_COOKIE_ACK {
        Ok(ChunkView::CookieAck)
    } else if typ == CT_HEARTBEAT {
        match params_decode(v) {
            Ok(params) => Ok(ChunkView::Heartbeat(params)),
            Err(e) => Err(e),
        }
    } else if typ == CT_PAYLOAD_DATA {
        match data_decode(flags, v) {
            Ok(d) => Ok(ChunkView::PayloadData(d)),
            Err(e) => Err(e),
        }
    } else if typ == CT_SACK {
        match sack_decode(v) {
            Ok(a) => Ok(ChunkView::SelectiveAck(a)),
            Err(e) => Err(e),
        }
    } else if typ == CT_RECONFIG {
        match reconfig_decode(v) {
            Ok(r) => Ok(ChunkView::Reconfig(r)),
            Err(e) => Err(e),
        }
    } else if typ == CT_FORWARD_TSN {
        match forward_tsn_decode(v) {
            Ok(f) => Ok(ChunkView::ForwardTsn(f)),
            Err(e) => Err(e),
        }
    } else if typ == CT_SHUTDOWN {
        if v.len() == 4 {
            Ok(ChunkView::Shutdown(u32_at(v, 0)))
        } else {
            Err(Error::ErrInvalidChunkSize)
        }
    } else if typ == CT_SHUTDOWN_ACK {
        Ok(ChunkView::ShutdownAck)
    } else if typ == CT_SHUTDOWN_COMPLETE {
        Ok(ChunkView::ShutdownComplete)
    } else {
        Err(Error::ErrUnmarshalUnknownChunkType)
    }
}

/// The chunk at the front of `s`, which holds at least a chunk header.
pub open spec fn chunk_decode(s: Seq<u8>) -> Result<ChunkView, Error> {
    if !type_known(s[0]) {
        Err(Error::ErrUnmarshalUnknownChunkType)
    } else {
        match header_decode(s) {
            Err(e) => Err(e),
            Ok(h) => value_decode(h.typ, h.flags, s.subrange(4, 4 + h.value_length)),
        }
    }
}

/// Appends pairs of numbers, read from gap blocks.
fn push_gaps(out: &mut Vec<u8>, v: &Vec<GapAckBlock>)
    ensures
        final(out)@ == old(out)@ + pairs_encode(gap_pairs(v@)),
{
    let ghost head = out@;
    let mut i: usize = 0;
    assert(out@ =~= head + pairs_encode(gap_pairs(v@.take(0))));
    while i < v.len()
        invariant
            i <= v.len(),
            out@ == head + pairs_encode(gap_pairs(v@.take(i as int))),
        decreases v.len() - i,
    {
        push_u16(out, v[i].start);
        push_u16(out, v[i].end);
        assert(pairs_encode(gap_pairs(v@.take(i + 1))) =~= pairs_encode(
            gap_pairs(v@.take(i as int)),
        ) + be16(v@[i as int].start) + be16(v@[i as int].end));
        i += 1;
    }
    assert(v@.take(i as int) =~= v@);
}

/// Appends pairs of numbers, read from forwarded streams.
fn push_streams(out: &mut Vec<u8>, v: &Vec<ChunkForwardTsnStream>)
    ensures
        final(out)@ == old(out)@ + pairs_encode(stream_pairs(v@)),
{
    let ghost head = out@;
    let mut i: usize = 0;
    assert(out@ =~= head + pairs_encode(stream_pairs(v@.take(0))));
    while i < v.len()
        invariant
            i <= v.len(),
            out@ == head + pairs_encode(stream_pairs(v@.take(i as int))),
        decreases v.len() - i,
    {
        push_u16(out, v[i].identifier);
        push_u16(out, v[i].sequence);
        assert(pairs_encode(stream_pairs(v@.take(i + 1))) =~= pairs_encode(
            stream_pairs(v@.take(i as int)),
        ) + be16(v@[i as int].identifier) + be16(v@[i as int].sequence));
        i += 1;
    }
    assert(v@.take(i as int) =~= v@);
}

/// Appends numbers.
fn push_u32s(out: &mut Vec<u8>, v: &Vec<u32>)
    ensures
        final(out)@ == old(out)@ + u32s_encode(v@),
{
    let ghost head = out@;
    let mut i: usize = 0;
    assert(out@ =~= head + u32s_encode(v@.take(0)));
    while i < v.len()
        invariant
            i <= v.len(),
            out@ == head + u32s_encode(v@.take(i as int)),
        decreases v.len() - i,
    {
        push_u32(out, v[i]);
        assert(u32s_encode(v@.take(i + 1)) =~= u32s_encode(v@.take(i as int)) + be32(v@[i as int]));
        i += 1;
    }
    assert(v@.take(i as int) =~= v@);
}

/// Writes the value of an INIT chunk.
fn encode_init(c: &ChunkInit) -> (out: Vec<u8>)
    ensures
        out@ == chunk_value(ChunkView::Init(c@)),
{
    let mut out: Vec<u8> = Vec::new();
    push_u32(&mut out, c.initiate_tag);
    push_u32(&mut out, c.advertised_receiver_window_credit);
    push_u16(&mut out, c.num_outbound_streams);
    push_u16(&mut out, c.num_inbound_streams);
    push_u32(&mut out, c.initial_tsn);
    let params = encode_params(&c.params);
    push_slice(&mut out, params.as_slice());
    reveal(chunk_value);
    assert(out@ =~= chunk_value(ChunkView::Init(c@)));
    out
}

/// Writes the value of a DATA chunk.
fn encode_data(c: &ChunkPayloadData) -> (out: Vec<u8>)
    ensures
        out@ == chunk_value(ChunkView::PayloadData(c@)),
{
    let mut out: Vec<u8> = Vec::new();
    push_u32(&mut out, c.tsn);
    push_u16(&mut out, c.stream_identifier);
    push_u16(&mut out, c.stream_sequence_number);
    push_u32(&mut out, c.payload_type.to_u32());
    push_slice(&mut out, bytes_as_slice(&c.user_data));
    reveal(chunk_value);
    assert(out@ =~= chunk_value(ChunkView::PayloadData(c@)));
    out
}

/// Writes the value of a SACK chunk.
fn encode_sack(c: &ChunkSelectiveAck) -> (out: Vec<u8>)
    ensures
        out@ == chunk_value(ChunkView::SelectiveAck(c@)),
{
    let mut out: Vec<u8> = Vec::new();
    push_u32(&mut out, c.cumulative_tsn_ack);
    push_u32(&mut out, c.advertised_receiver_window_credit);
    push_u16(&mut out, (c.gap_ack_blocks.len() % 0x1_0000) as u16);
    push_u16(&mut out, (c.duplicate_tsn.len() % 0x1_0000) as u16);
    push_gaps(&mut out, &c.gap_ack_blocks);
    push_u32s(&mut out, &c.duplicate_tsn);
    reveal(chunk_value);
    assert(out@ =~= chunk_value(ChunkView::SelectiveAck(c@)));
    out
}

/// Writes the value of a RECONFIG chunk.
fn encode_reconfig(c: &ChunkReconfig) -> (out: Vec<u8>)
    ensures
        out@ == chunk_value(ChunkView::Reconfig(c@)),
{
    let mut params: Vec<Param> = Vec::new();
    if let Some(p) = &c.param_a {
        params.push(p.clone());
    }
    if let Some(p) = &c.param_b {
        params.push(p.clone());
    }
    reveal(chunk_value);
    assert(param_views(params@) =~= reconfig_params(c@));
    encode_params(&params)
}

/// Writes the value of a FORWARD TSN chunk.
fn encode_forward_tsn(c: &ChunkForwardTsn) -> (out: Vec<u8>)
    ensures
        out@ == chunk_value(ChunkView::ForwardTsn(c@)),
{
    let mut out: Vec<u8> = Vec::new();
    push_u32(&mut out, c.new_cumulative_tsn);
    push_streams(&mut out, &c.streams);
    reveal(chunk_value);
    assert(out@ =~= chunk_value(ChunkView::ForwardTsn(c@)));
    out
}

/// Reads an INIT or INIT ACK chunk.
fn decode_init(is_ack: bool, flags: u8, value: &Bytes) -> (r: Result<ChunkInit, Error>)
    ensures
        match r {
            Ok(c) => init_decode(is_ack, flags, bytes_view(*value)) == Ok::<InitView, Error>(c@),
            Err(e) => init_decode(is_ack, flags, bytes_view(*value)) == Err::<InitView, Error>(e),
        },
{
    let ghost v = bytes_view(*value);
    if bytes_len(value) < 16 {
        return Err(Error::ErrChunkValueNotLongEnough);
    }
    if flags != 0 {
        return Err(Error::ErrChunkTypeInitFlagZero);
    }
    let mut reader = bytes_clone(value);
    let initiate_tag = get_u32(&mut reader);
    let advertised_receiver_window_credit = get_u32(&mut reader);
    let num_outbound_streams = get_u16(&mut reader);
    let num_inbound_streams = get_u16(&mut reader);
    let initial_tsn = get_u32(&mut reader);
    assert(bytes_view(reader) =~= v.skip(16));
    match decode_params(&reader) {
        Ok(params) => Ok(
            ChunkInit {
                is_ack,
                initiate_tag,
                advertised_receiver_window_credit,
                num_outbound_streams,
                num_inbound_streams,
                initial_tsn,
                params,
            },
        ),
        Err(e) => Err(e),
    }
}

/// Reads a DATA chunk.
fn decode_data(flags: u8, value: &Bytes) -> (r: Result<ChunkPayloadData, Error>)
    ensures
        match r {
            Ok(c) => data_decode(flags, bytes_view(*value)) == Ok::<DataView, Error>(c@),
            Err(e) => data_decode(flags, bytes_view(*value)) == Err::<DataView, Error>(e),
        },
{
    let ghost v = bytes_view(*value);
    if bytes_len(value) < 12 {
        return Err(Error::ErrChunkPayloadSmall);
    }
    let mut reader = bytes_clone(value);
    let tsn = get_u32(&mut reader);
    let stream_identifier = get_u16(&mut reader);
    let stream_sequence_number = get_u16(&mut reader);
    let payload_type = PayloadProtocolIdentifier::from_u32(get_u32(&mut reader));
    assert(bytes_view(reader) =~= v.skip(12));
    Ok(
        ChunkPayloadData {
            unordered: flags / 4 % 2 == 1,
            beginning_fragment: flags / 2 % 2 == 1,
            ending_fragment: flags % 2 == 1,
            immediate_sack: flags / 8 % 2 == 1,
            tsn,
            stream_identifier,
            stream_sequence_number,
            payload_type,
            user_data: reader,
            acked: false,
            miss_indicator: 0,
            since: None,
            nsent: 0,
            abandoned: false,
            all_inflight: false,
            retransmit: false,
        },
    )
}

/// Reads a SACK chunk.
fn decode_sack(value: &Bytes) -> (r: Result<ChunkSelectiveAck, Error>)
    ensures
        match r {
            Ok(c) => sack_decode(bytes_view(*value)) == Ok::<SackView, Error>(c@),
            Err(e) => sack_decode(bytes_view(*value)) == Err::<SackView, Error>(e),
        },
{
    let ghost v = bytes_view(*value);
    let n = bytes_len(value);
    if n < 12 {
        return Err(Error::ErrSackSizeNotLargeEnoughInfo);
    }
    let mut reader = bytes_clone(value);
    let cumulative_tsn_ack = get_u32(&mut reader);
    let advertised_receiver_window_credit = get_u32(&mut reader);
    let gaps = get_u16(&mut reader) as usize;
    let dups = get_u16(&mut reader) as usize;
    assert(bytes_view(reader) =~= v.skip(12));
    if n != 12 + 4 * gaps + 4 * dups {
        return Err(Error::ErrSackSizeNotMatchPredicted);
    }
    let mut gap_ack_blocks: Vec<GapAckBlock> = Vec::new();
    let mut i: usize = 0;
    while i < gaps
        invariant
            i <= gaps,
            v.len() == 12 + 4 * gaps + 4 * dups,
            bytes_view(reader) == v.skip(12 + 4 * i),
            gap_ack_blocks@ == gaps_at(v, 12, gaps as nat).take(i as int),
        decreases gaps - i,
    {
        let start = get_u16(&mut reader);
        let end = get_u16(&mut reader);
        assert(bytes_view(reader) =~= v.skip(12 + 4 * (i + 1)));
        gap_ack_blocks.push(GapAckBlock { start, end });
        assert(gap_ack_blocks@ =~= gaps_at(v, 12, gaps as nat).take(i + 1));
        i += 1;
    }
    assert(gap_ack_blocks@ =~= gaps_at(v, 12, gaps as nat));
    let mut duplicate_tsn: Vec<u32> = Vec::new();
    let mut j: usize = 0;
    while j < dups
        invariant
            j <= dups,
            v.len() == 12 + 4 * gaps + 4 * dups,
            bytes_view(reader) == v.skip(12 + 4 * gaps + 4 * j),
            duplicate_tsn@ == u32s_at(v, 12 + 4 * gaps, dups as nat).take(j as int),
        decreases dups - j,
    {
        let tsn = get_u32(&mut reader);
        assert(bytes_view(reader) =~= v.skip(12 + 4 * gaps + 4 * (j + 1)));
        duplicate_tsn.push(tsn);
        assert(duplicate_tsn@ =~= u32s_at(v, 12 + 4 * gaps, dups as nat).take(j + 1));
        j += 1;
    }
    assert(duplicate_tsn@ =~= u32s_at(v, 12 + 4 * gaps, dups as nat));
    Ok(
        ChunkSelectiveAck {
            cumulative_tsn_ack,
            advertised_receiver_window_credit,
            gap_ack_blocks,
            duplicate_tsn,
        },
    )
}

/// Reads a RECONFIG chunk.
fn decode_reconfig(value: &Bytes) -> (r: Result<ChunkReconfig, Error>)
    ensures
        match r {
            Ok(c) => reconfig_decode(bytes_view(*value)) == Ok::<ReconfigView, Error>(c@),
            Err(e) => reconfig_decode(bytes_view(*value)) == Err::<ReconfigView, Error>(e),
        },
{
    let params = match decode_params(value) {
        Ok(ps) => ps,
        Err(e) => return Err(e),
    };
    if params.len() == 0 {
        return Err(Error::ErrParamHeaderTooShort);
    }
    let ghost views = param_views(params@);
    let param_a = Some(params[0].clone());
    let param_b = if params.len() > 1 {
        Some(params[1].clone())
    } else {
        None
    };
    assert(views[0] == params@[0]@);
    Ok(ChunkReconfig { param_a, param_b })
}

/// Reads a FORWARD TSN chunk.
fn decode_forward_tsn(value: &Bytes) -> (r: Result<ChunkForwardTsn, Error>)
    ensures
        match r {
            Ok(c) => forward_tsn_decode(bytes_view(*value)) == Ok::<ForwardTsnView, Error>(c@),
            Err(e) => forward_tsn_decode(bytes_view(*value)) == Err::<ForwardTsnView, Error>(e),
        },
{
    let ghost v = bytes_view(*value);
    let n = bytes_len(value);
    if n < 4 || n % 4 != 0 {
        return Err(Error::ErrChunkTooShort);
    }
    let mut reader = bytes_clone(value);
    let new_cumulative_tsn = get_u32(&mut reader);
    let count = (n - 4) / 4;
    let mut streams: Vec<ChunkForwardTsnStream> = Vec::new();
    let mut i: usize = 0;
    while i < count
        invariant
            i <= count,
            v.len() == 4 + 4 * count,
            bytes_view(reader) == v.skip(4 + 4 * i),
            streams@ == streams_at(v, 4, count as nat).take(i as int),
        decreases count - i,
    {
        let identifier = get_u16(&mut reader);
        let sequence = get_u16(&mut reader);
        assert(bytes_view(reader) =~= v.skip(4 + 4 * (i + 1)));
        streams.push(ChunkForwardTsnStream { identifier, sequence });
        assert(streams@ =~= streams_at(v, 4, count as nat).take(i + 1));
        i += 1;
    }
    assert(streams@ =~= streams_at(v, 4, count as nat));
    Ok(ChunkForwardTsn { new_cumulative_tsn, streams })
}

impl Chunk {
    /// The type of the chunk.
    pub fn typ(&self) -> (r: u8)
        ensures
            r == chunk_type(self@),
    {
        match self {
            Chunk::Init(i) => if i.is_ack {
                CT_INIT_ACK
            } else {
                CT_INIT
            },
            Chunk::Abort(_) => CT_ABORT,
            Chunk::Error(_) => CT_ERROR,
            Chunk::Heartbeat(_) => CT_HEARTBEAT,
            Chunk::HeartbeatAck(_) => CT_HEARTBEAT_ACK,
            Chunk::CookieEcho(_) => CT_COOKIE_ECHO,
            Chunk::CookieAck => CT_COOKIE_ACK,
            Chunk::PayloadData(_) => CT_PAYLOAD_DATA,
            Chunk::SelectiveAck(_) => CT_SACK,
            Chunk::Reconfig(_) => CT_RECONFIG,
            Chunk::ForwardTsn(_) => CT_FORWARD_TSN,
            Chunk::Shutdown(_) => CT_SHUTDOWN,
            Chunk::ShutdownAck => CT_SHUTDOWN_ACK,
            Chunk::ShutdownComplete => CT_SHUTDOWN_COMPLETE,
        }
    }

    /// The flags of the chunk.
    pub fn flags(&self) -> (r: u8)
        ensures
            r == chunk_flags(self@),
    {
        match self {
            Chunk::PayloadData(d) => {
                let mut flags: u8 = 0;
                if d.ending_fragment {
                    flags = flags + 1;
                }
                if d.beginning_fragment {
                    flags = flags + 2;
                }
                if d.unordered {
                    flags = flags + 4;
                }
                if d.immediate_sack {
                    flags = flags + 8;
                }
                flags
            },
            _ => 0,
        }
    }

    /// The value of the chunk.
    pub fn value(&self) -> (out: Vec<u8>)
        ensures
            out@ == chunk_value(self@),
    {
        reveal(chunk_value);
        match self {
            Chunk::Init(c) => encode_init(c),
            Chunk::Abort(c) => encode_tlvs(&c.error_causes),
            Chunk::Error(c) => encode_tlvs(&c.error_causes),
            Chunk::Heartbeat(c) => encode_params(&c.params),
            Chunk::HeartbeatAck(c) => encode_params(&c.params),
            Chunk::CookieEcho(c) => {
                let mut out: Vec<u8> = Vec::new();
                push_slice(&mut out, bytes_as_slice(&c.cookie));
                assert(out@ =~= bytes_view(c.cookie));
                out
            },
            Chunk::PayloadData(c) => encode_data(c),
            Chunk::SelectiveAck(c) => encode_sack(c),
            Chunk::Reconfig(c) => encode_reconfig(c),
            Chunk::ForwardTsn(c) => encode_forward_tsn(c),
            Chunk::Shutdown(c) => {
                let mut out: Vec<u8> = Vec::new();
                push_u32(&mut out, c.cumulative_tsn_ack);
                assert(out@ =~= be32(c.cumulative_tsn_ack));
                out
            },
            Chunk::CookieAck => Vec::new(),
            Chunk::ShutdownAck => Vec::new(),
            Chunk::ShutdownComplete => Vec::new(),
        }
    }

    /// The length of the value.
    pub fn value_length(&self) -> (n: usize)
        ensures
            n == chunk_value(self@).len(),
    {
        self.value().len()
    }

    /// Appends the chunk to `writer`, without padding; if it cannot be written `writer`
    /// stays as it is.
    pub fn marshal_to(&self, writer: &mut BytesMut) -> (r: Result<usize, Error>)
        requires
            buf_view(*old(writer)).len() + 65535 <= isize::MAX,
        ensures
            match chunk_encode(self@) {
                Ok(bytes) => {
                    &&& buf_view(*final(writer)) == buf_view(*old(writer)) + bytes
                    &&& r == Ok::<usize, Error>(buf_view(*final(writer)).len() as usize)
                },
                Err(e) => {
                    &&& buf_view(*final(writer)) == buf_view(*old(writer))
                    &&& r == Err::<usize, Error>(e)
                },
            },
    {
        if let Chunk::Reconfig(c) = self {
            if c.param_a.is_none() {
                return Err(Error::ErrChunkReconfigInvalidParamA);
            }
        }
        let value = self.value();
        if value.len() > MAX_CHUNK_VALUE {
            return Err(Error::ErrChunkValueTooLong);
        }
        let mut out: Vec<u8> = vec![self.typ(), self.flags()];
        push_u16(&mut out, (value.len() + 4) as u16);
        push_slice(&mut out, value.as_slice());
        assert(out@ =~= chunk_encode(self@)->Ok_0);
        buf_extend(writer, out.as_slice());
        Ok(buf_len(writer))
    }

    /// Reads the chunk at the front of `raw`.
    pub fn unmarshal(raw: &Bytes) -> (r: Result<Chunk, Error>)
        requires
            bytes_view(*raw).len() >= 4,
        ensures
            match r {
                Ok(c) => chunk_decode(bytes_view(*raw)) == Ok::<ChunkView, Error>(c@),
                Err(e) => chunk_decode(bytes_view(*raw)) == Err::<ChunkView, Error>(e),
            },
    {
        let typ = bytes_as_slice(raw)[0];
        if !Chunk::known(typ) {
            return Err(Error::ErrUnmarshalUnknownChunkType);
        }
        let header = match ChunkHeader::unmarshal(raw) {
            Ok(h) => h,
            Err(e) => return Err(e),
        };
        let value = bytes_slice(
            raw,
            CHUNK_HEADER_SIZE,
            CHUNK_HEADER_SIZE + header.value_length(),
        );
        Chunk::from_value(header.typ, header.flags, &value)
    }

    /// Whether packets may hold chunks of this type when they are read.
    fn known(typ: u8) -> (r: bool)
        ensures
            r == type_known(typ),
    {
        typ == CT_PAYLOAD_DATA || typ == CT_INIT || typ == CT_INIT_ACK || typ == CT_SACK || typ
            == CT_HEARTBEAT || typ == CT_ABORT || typ == CT_SHUTDOWN || typ == CT_SHUTDOWN_ACK
            || typ == CT_ERROR || typ == CT_COOKIE_ECHO || typ == CT_COOKIE_ACK || typ
            == CT_SHUTDOWN_COMPLETE || typ == CT_RECONFIG || typ == CT_FORWARD_TSN
    }

    /// The chunk with this type, these flags and this value.
    pub fn from_value(typ: u8, flags: u8, value: &Bytes) -> (r: Result<Chunk, Error>)
        ensures
            match r {
                Ok(c) => value_decode(typ, flags, bytes_view(*value)) == Ok::<ChunkView, Error>(
                    c@,
                ),
                Err(e) => value_decode(typ, flags, bytes_view(*value)) == Err::<ChunkView, Error>(
                    e,
                ),
            },
    {
        reveal(value_decode);
        if typ == CT_INIT || typ == CT_INIT_ACK {
            match decode_init(typ == CT_INIT_ACK, flags, value) {
                Ok(c) => Ok(Chunk::Init(c)),
                Err(e) => Err(e),
            }
        } else if typ == CT_ABORT || typ == CT_ERROR {
            match decode_tlvs(value) {
                Ok(error_causes) => Ok(
                    if typ == CT_ABORT {
                        Chunk::Abort(ChunkAbort { error_causes })
                    } else {
                        Chunk::Error(ChunkError { error_causes })
                    },
                ),
                Err(e) => Err(e),
            }
        } else if typ == CT_COOKIE_ECHO {
            Ok(Chunk::CookieEcho(ChunkCookieEcho { cookie: bytes_clone(value) }))
        } else if typ == CT_COOKIE_ACK {
            Ok(Chunk::CookieAck)
        } else if typ == CT_HEARTBEAT {
            match decode_params(value) {
                Ok(params) => Ok(Chunk::Heartbeat(ChunkHeartbeat { params })),
                Err(e) => Err(e),
            }
        } else if typ == CT_PAYLOAD_DATA {
            match decode_data(flags, value) {
                Ok(c) => Ok(Chunk::PayloadData(c)),
                Err(e) => Err(e),
            }
        } else if typ == CT_SACK {
            match decode_sack(value) {
                Ok(c) => Ok(Chunk::SelectiveAck(c)),
                Err(e) => Err(e),
            }
        } else if typ == CT_RECONFIG {
            match decode_reconfig(value) {
                Ok(c) => Ok(Chunk::Reconfig(c)),
                Err(e) => Err(e),
            }
        } else if typ == CT_FORWARD_TSN {
            match decode_forward_tsn(value) {
                Ok(c) => Ok(Chunk::ForwardTsn(c)),
                Err(e) => Err(e),
            }
        } else if typ == CT_SHUTDOWN {
            if bytes_len(value) == 4 {
                let mut reader = bytes_clone(value);
                Ok(Chunk::Shutdown(ChunkShutdown { cumulative_tsn_ack: get_u32(&mut reader) }))
            } else {
                Err(Error::ErrInvalidChunkSize)
            }
        } else if typ == CT_SHUTDOWN_ACK {
            Ok(Chunk::ShutdownAck)
        } else if typ == CT_SHUTDOWN_COMPLETE {
            Ok(Chunk::ShutdownComplete)
        } else {
            Err(Error::ErrUnmarshalUnknownChunkType)
        }
    }
}

} // verus!
