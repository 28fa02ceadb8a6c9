//! What is written as a chunk is read back as that chunk.

use vstd::prelude::*;

use crate::chunk::codec::{
    chunk_decode, chunk_encode, chunk_flags, chunk_type, chunk_value, data_decode, data_flags,
    forward_tsn_decode, gap_pairs, gaps_at, init_decode, pairs_encode, reconfig_decode,
    reconfig_params, sack_decode, stream_pairs, streams_at, u32s_at, u32s_encode, value_decode,
    MAX_CHUNK_VALUE,
};
use crate::chunk::header::{all_zero, header_decode, ChunkHeader};
use crate::chunk::kinds::{ChunkView, ForwardTsnView, InitView, ReconfigView, SackView};
use crate::chunk::param::{lemma_params_roundtrip, params_canonical, params_encode};
use crate::chunk::payload::DataView;
use crate::chunk::tlv::{lemma_tlvs_encode_len, lemma_tlvs_roundtrip};
use crate::error::Error;
use crate::util::{be16, be32, lemma_be16, lemma_be32, u16_at, u32_at};

verus! {

/// A chunk that a receiver understands: not a HEARTBEAT ACK, which is only ever sent,
/// and with its parameters under their own types.
pub open spec fn chunk_readable(c: ChunkView) -> bool {
    match c {
        ChunkView::Init(i) => params_canonical(i.params),
        ChunkView::Heartbeat(params) => params_canonical(params),
        ChunkView::HeartbeatAck(_) => false,
        ChunkView::Reconfig(r) => params_canonical(reconfig_params(r)),
        _ => true,
    }
}

/// What of a chunk travels to the peer.
pub open spec fn chunk_wire(c: ChunkView) -> ChunkView {
    match c {
        ChunkView::PayloadData(d) => ChunkView::PayloadData(d.wire()),
        c => c,
    }
}

/// Pairs are read back from where they stand.
pub proof fn lemma_pairs(v: Seq<(u16, u16)>, s: Seq<u8>, at: int, i: int)
    requires
        0 <= at,
        0 <= i < v.len(),
        at + 4 * v.len() <= s.len(),
        s.subrange(at, at + 4 * v.len()) == pairs_encode(v),
    ensures
        u16_at(s, at + 4 * i) == v[i].0,
        u16_at(s, at + 4 * i + 2) == v[i].1,
{
    let p = pairs_encode(v);
    let t = s.subrange(at, at + 4 * v.len());
    assert(t[4 * i] == s[at + 4 * i] && p[4 * i] == be16(v[i].0)[0]);
    assert(t[4 * i + 1] == s[at + 4 * i + 1] && p[4 * i + 1] == be16(v[i].0)[1]);
    assert(t[4 * i + 2] == s[at + 4 * i + 2] && p[4 * i + 2] == be16(v[i].1)[0]);
    assert(t[4 * i + 3] == s[at + 4 * i + 3] && p[4 * i + 3] == be16(v[i].1)[1]);
}

/// Numbers are read back from where they stand.
pub proof fn lemma_u32s(v: Seq<u32>, s: Seq<u8>, at: int, i: int)
    requires
        0 <= at,
        0 <= i < v.len(),
        at + 4 * v.len() <= s.len(),
        s.subrange(at, at + 4 * v.len()) == u32s_encode(v),
    ensures
        u32_at(s, at + 4 * i) == v[i],
{
    let p = u32s_encode(v);
    let t = s.subrange(at, at + 4 * v.len());
    assert(t[4 * i] == s[at + 4 * i] && p[4 * i] == be32(v[i])[0]);
    assert(t[4 * i + 1] == s[at + 4 * i + 1] && p[4 * i + 1] == be32(v[i])[1]);
    assert(t[4 * i + 2] == s[at + 4 * i + 2] && p[4 * i + 2] == be32(v[i])[2]);
    assert(t[4 * i + 3] == s[at + 4 * i + 3] && p[4 * i + 3] == be32(v[i])[3]);
}

/// INIT
proof fn lemma_init_roundtrip(i: InitView)
    requires
        params_canonical(i.params),
        chunk_value(ChunkView::Init(i)).len() <= MAX_CHUNK_VALUE,
    ensures
        init_decode(i.is_ack, 0, chunk_value(ChunkView::Init(i))) == Ok::<InitView, Error>(i),
{
    reveal(chunk_value);
    let v = chunk_value(ChunkView::Init(i));
    assert(v.subrange(0, 4) =~= be32(i.initiate_tag));
    assert(v.subrange(4, 8) =~= be32(i.advertised_receiver_window_credit));
    assert(v.subrange(8, 10) =~= be16(i.num_outbound_streams));
    assert(v.subrange(10, 12) =~= be16(i.num_inbound_streams));
    assert(v.subrange(12, 16) =~= be32(i.initial_tsn));
    assert(v.skip(16) =~= params_encode(i.params));
    lemma_be32(i.initiate_tag, v, 0);
    lemma_be32(i.advertised_receiver_window_credit, v, 4);
    lemma_be16(i.num_outbound_streams, v, 8);
    lemma_be16(i.num_inbound_streams, v, 10);
    lemma_be32(i.initial_tsn, v, 12);
    lemma_params_roundtrip(i.params);
}

/// DATA
proof fn lemma_data_roundtrip(d: DataView)
    ensures
        data_decode(data_flags(d), chunk_value(ChunkView::PayloadData(d))) == Ok::<
            DataView,
            Error,
        >(d.wire()),
{
    reveal(chunk_value);
    let v = chunk_value(ChunkView::PayloadData(d));
    assert(v.subrange(0, 4) =~= be32(d.tsn));
    assert(v.subrange(4, 6) =~= be16(d.stream_identifier));
    assert(v.subrange(6, 8) =~= be16(d.stream_sequence_number));
    assert(v.subrange(8, 12) =~= be32(d.payload_type.code()));
    assert(v.skip(12) =~= d.user_data);
    lemma_be32(d.tsn, v, 0);
    lemma_be16(d.stream_identifier, v, 4);
    lemma_be16(d.stream_sequence_number, v, 6);
    lemma_be32(d.payload_type.code(), v, 8);
}

/// The numbers at the front of a SACK chunk.
proof fn lemma_sack_head(cum: u32, credit: u32, gaps: u16, dups: u16, tail: Seq<u8>)
    ensures
        ({
            let v = be32(cum) + be32(credit) + be16(gaps) + be16(dups) + tail;
            &&& u32_at(v, 0) == cum
            &&& u32_at(v, 4) == credit
            &&& u16_at(v, 8) == gaps
            &&& u16_at(v, 10) == dups
        }),
{
    let v = be32(cum) + be32(credit) + be16(gaps) + be16(dups) + tail;
    assert(v.subrange(0, 4) =~= be32(cum));
    assert(v.subrange(4, 8) =~= be32(credit));
    assert(v.subrange(8, 10) =~= be16(gaps));
    assert(v.subrange(10, 12) =~= be16(dups));
    lemma_be32(cum, v, 0);
    lemma_be32(credit, v, 4);
    lemma_be16(gaps, v, 8);
    lemma_be16(dups, v, 10);
}

/// SACK
proof fn lemma_sack_roundtrip(a: SackView)
    requires
        chunk_value(ChunkView::SelectiveAck(a)).len() <= MAX_CHUNK_VALUE,
    ensures
        sack_decode(chunk_value(ChunkView::SelectiveAck(a))) == Ok::<SackView, Error>(a),
{
    reveal(chunk_value);
    let v = chunk_value(ChunkView::SelectiveAck(a));
    let gaps = a.gap_ack_blocks.len();
    let dups = a.duplicate_tsn.len();
    let g = pairs_encode(gap_pairs(a.gap_ack_blocks));
    let d = u32s_encode(a.duplicate_tsn);
    let head = be32(a.cumulative_tsn_ack) + be32(a.advertised_receiver_window_credit) + be16(
        gaps as u16,
    ) + be16(dups as u16);
    assert(head.len() == 12 && g.len() == 4 * gaps && d.len() == 4 * dups);
    assert(gaps % 0x1_0000 == gaps && dups % 0x1_0000 == dups);
    assert(v =~= head + (g + d));
    lemma_sack_head(
        a.cumulative_tsn_ack,
        a.advertised_receiver_window_credit,
        gaps as u16,
        dups as u16,
        g + d,
    );
    let at = (12 + 4 * gaps) as int;
    assert(v.subrange(12, at) =~= g);
    assert(v.subrange(at, at + 4 * dups) =~= d);
    assert forall|i: int| 0 <= i < gaps implies gaps_at(v, 12, gaps)[i]
        == #[trigger] a.gap_ack_blocks[i] by {
        lemma_pairs(gap_pairs(a.gap_ack_blocks), v, 12, i);
    }
    assert forall|i: int| 0 <= i < dups implies u32s_at(v, at, dups)[i]
        == #[trigger] a.duplicate_tsn[i] by {
        lemma_u32s(a.duplicate_tsn, v, at, i);
    }
    assert(gaps_at(v, 12, gaps) =~= a.gap_ack_blocks);
    assert(u32s_at(v, at, dups) =~= a.duplicate_tsn);
}

/// RECONFIG
proof fn lemma_reconfig_roundtrip(r: ReconfigView)
    requires
        r.param_a is Some,
        params_canonical(reconfig_params(r)),
        chunk_value(ChunkView::Reconfig(r)).len() <= MAX_CHUNK_VALUE,
    ensures
        reconfig_decode(chunk_value(ChunkView::Reconfig(r))) == Ok::<ReconfigView, Error>(r),
{
    reveal(chunk_value);
    lemma_params_roundtrip(reconfig_params(r));
}

/// FORWARD TSN
proof fn lemma_forward_tsn_roundtrip(f: ForwardTsnView)
    ensures
        forward_tsn_decode(chunk_value(ChunkView::ForwardTsn(f))) == Ok::<ForwardTsnView, Error>(f),
{
    reveal(chunk_value);
    let v = chunk_value(ChunkView::ForwardTsn(f));
    let n = f.streams.len();
    assert(v.subrange(0, 4) =~= be32(f.new_cumulative_tsn));
    lemma_be32(f.new_cumulative_tsn, v, 0);
    assert(v.subrange(4, (4 + 4 * n) as int) =~= pairs_encode(stream_pairs(f.streams)));
    assert(streams_at(v, 4, n) =~= f.streams) by {
        assert forall|i: int| 0 <= i < n implies streams_at(v, 4, n)[i] == f.streams[i] by {
            lemma_pairs(stream_pairs(f.streams), v, 4, i);
        }
    }
}

/// The value of a chunk gives the chunk back.
proof fn lemma_value_roundtrip(c: ChunkView)
    requires
        chunk_encode(c) is Ok,
        chunk_readable(c),
    ensures
        value_decode(chunk_type(c), chunk_flags(c), chunk_value(c)) == Ok::<ChunkView, Error>(
            chunk_wire(c),
        ),
{
    reveal(chunk_value);
    reveal(value_decode);
    match c {
        ChunkView::Init(i) => lemma_init_roundtrip(i),
        ChunkView::Abort(causes) => {
            lemma_tlvs_encode_len(causes);
            lemma_tlvs_roundtrip(causes);
        },
        ChunkView::Error(causes) => {
            lemma_tlvs_encode_len(causes);
            lemma_tlvs_roundtrip(causes);
        },
        ChunkView::Heartbeat(params) => lemma_params_roundtrip(params),
        ChunkView::PayloadData(d) => lemma_data_roundtrip(d),
        ChunkView::SelectiveAck(a) => lemma_sack_roundtrip(a),
        ChunkView::Reconfig(r) => lemma_reconfig_roundtrip(r),
        ChunkView::ForwardTsn(f) => lemma_forward_tsn_roundtrip(f),
        ChunkView::Shutdown(tsn) => {
            let v = chunk_value(c);
            assert(v.subrange(0, 4) =~= be32(tsn));
            lemma_be32(tsn, v, 0);
        },
        _ => {},
    }
}

/// A chunk that was written is read back, up to what its sender keeps about it, in front
/// of another chunk as well as in front of its padding.
pub proof fn law_chunk_roundtrip(c: ChunkView, tail: Seq<u8>)
    requires
        chunk_encode(c) is Ok,
        chunk_readable(c),
        tail.len() >= 4 || all_zero(tail),
    ensures
        chunk_decode(chunk_encode(c)->Ok_0 + tail) == Ok::<ChunkView, Error>(chunk_wire(c)),
{
    let bytes = chunk_encode(c)->Ok_0;
    let value = chunk_value(c);
    let s = bytes + tail;
    let len = (value.len() + 4) as u16;
    assert(bytes.len() == len);
    assert(s[0] == chunk_type(c) && s[1] == chunk_flags(c));
    assert(s.subrange(2, 4) =~= be16(len));
    lemma_be16(len, s, 2);
    assert(s.skip(len as int) =~= tail);
    assert(s.subrange(4, len as int) =~= value);
    assert(header_decode(s) == Ok::<ChunkHeader, Error>(
        ChunkHeader {
            typ: chunk_type(c),
            flags: chunk_flags(c),
            value_length: value.len() as u16,
        },
    ));
    lemma_value_roundtrip(c);
}

} // verus!
