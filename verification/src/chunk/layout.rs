//! Where the bytes of chunks and packets stand.

use vstd::prelude::*;

use crate::chunk::codec::{
    chunk_encode, chunk_flags, chunk_type, chunk_value, gap_pairs, pairs_encode, stream_pairs,
    u32s_encode,
};
use crate::chunk::kinds::ChunkView;
use crate::chunk::laws::{lemma_pairs, lemma_u32s};
use crate::chunk::param::{param_tlv, u16s_encode, ParamView, ReconfigResult};
use crate::chunk::payload::PayloadProtocolIdentifier;
use crate::chunk::tlv::{tlv_encode, TlvView};
use crate::util::{be16, be32};

verus! {

/// The number that two bytes stand for, the most significant one first.
pub open spec fn n16(s: Seq<u8>, i: int) -> int {
    s[i] * 256 + s[i + 1]
}

/// The number that four bytes stand for, the most significant one first.
pub open spec fn n32(s: Seq<u8>, i: int) -> int {
    s[i] * 0x100_0000 + s[i + 1] * 0x1_0000 + s[i + 2] * 0x100 + s[i + 3]
}

proof fn lemma_n16(x: u16, s: Seq<u8>, i: int)
    requires
        0 <= i,
        i + 2 <= s.len(),
        s[i] == be16(x)[0],
        s[i + 1] == be16(x)[1],
    ensures
        n16(s, i) == x,
{
}

proof fn lemma_n32(x: u32, s: Seq<u8>, i: int)
    requires
        0 <= i,
        i + 4 <= s.len(),
        forall|k: int| 0 <= k < 4 ==> s[i + k] == #[trigger] be32(x)[k],
    ensures
        n32(s, i) == x,
{
    assert(s[i] == be32(x)[0]) by {
        assert(s[i + 0] == be32(x)[0]);
    }
    assert(s[i + 1] == be32(x)[1]);
    assert(s[i + 2] == be32(x)[2]);
    assert(s[i + 3] == be32(x)[3]);
}

/// The number of each kind of chunk.
pub open spec fn type_number(c: ChunkView) -> u8 {
    match c {
        ChunkView::PayloadData(_) => 0,
        ChunkView::Init(i) => if i.is_ack {
            2
        } else {
            1
        },
        ChunkView::SelectiveAck(_) => 3,
        ChunkView::Heartbeat(_) => 4,
        ChunkView::HeartbeatAck(_) => 5,
        ChunkView::Abort(_) => 6,
        ChunkView::Shutdown(_) => 7,
        ChunkView::ShutdownAck => 8,
        ChunkView::Error(_) => 9,
        ChunkView::CookieEcho(_) => 10,
        ChunkView::CookieAck => 11,
        ChunkView::ShutdownComplete => 14,
        ChunkView::Reconfig(_) => 130,
        ChunkView::ForwardTsn(_) => 192,
    }
}

/// A chunk starts with its type, its flags and its length, which counts these four bytes. Only
/// DATA chunks have flags: whether the chunk ends a message, begins one, is unordered, and asks
/// for an acknowledgement at once, from the lowest bit on.
pub proof fn law_chunk_header(c: ChunkView)
    requires
        chunk_encode(c) is Ok,
    ensures
        ({
            let b = chunk_encode(c)->Ok_0;
            &&& b.len() >= 4 && b.len() <= 0xffff
            &&& b[0] == type_number(c)
            &&& n16(b, 2) == b.len()
            &&& !(c is PayloadData) ==> b[1] == 0
            &&& c matches ChunkView::PayloadData(d) ==> {
                &&& b[1] < 16
                &&& d.ending_fragment <==> b[1] % 2 == 1
                &&& d.beginning_fragment <==> b[1] / 2 % 2 == 1
                &&& d.unordered <==> b[1] / 4 % 2 == 1
                &&& d.immediate_sack <==> b[1] / 8 % 2 == 1
            }
        }),
{
    let b = chunk_encode(c)->Ok_0;
    let len = (chunk_value(c).len() + 4) as u16;
    assert(b[2] == be16(len)[0] && b[3] == be16(len)[1]);
    lemma_n16(len, b, 2);
    assert(b[1] == chunk_flags(c));
    assert(b[0] == chunk_type(c));
}

/// The bytes of a DATA chunk.
pub proof fn law_data_layout(c: ChunkView)
    requires
        chunk_encode(c) is Ok,
        c is PayloadData,
    ensures
        ({
            let b = chunk_encode(c)->Ok_0;
            let d = c->PayloadData_0;
            &&& b.len() == 16 + d.user_data.len()
            &&& n32(b, 4) == d.tsn
            &&& n16(b, 8) == d.stream_identifier
            &&& n16(b, 10) == d.stream_sequence_number
            &&& n32(b, 12) == match d.payload_type {
                PayloadProtocolIdentifier::Dcep => 50int,
                PayloadProtocolIdentifier::String => 51,
                PayloadProtocolIdentifier::Binary => 53,
                PayloadProtocolIdentifier::StringEmpty => 56,
                PayloadProtocolIdentifier::BinaryEmpty => 57,
                PayloadProtocolIdentifier::Unknown => 58,
            }
            &&& b.skip(16) == d.user_data
        }),
{
    reveal(chunk_value);
    let b = chunk_encode(c)->Ok_0;
    let d = c->PayloadData_0;
    let v = chunk_value(c);
    assert(b.skip(4) =~= v);
    assert forall|k: int| 0 <= k < v.len() implies b[4 + k] == #[trigger] v[k] by {}
    assert forall|k: int| 0 <= k < 4 implies b[4 + k] == #[trigger] be32(d.tsn)[k] by {
        assert(v[k] == be32(d.tsn)[k]);
    }
    lemma_n32(d.tsn, b, 4);
    assert(v[4] == be16(d.stream_identifier)[0] && v[5] == be16(d.stream_identifier)[1]);
    assert(b[8] == v[4] && b[9] == v[5]);
    lemma_n16(d.stream_identifier, b, 8);
    let ssn = d.stream_sequence_number;
    assert(v[6] == be16(ssn)[0] && v[7] == be16(ssn)[1]);
    assert(b[10] == v[6] && b[11] == v[7]);
    lemma_n16(ssn, b, 10);
    let code = d.payload_type.code();
    assert forall|k: int| 0 <= k < 4 implies b[12 + k] == #[trigger] be32(code)[k] by {
        assert(v[8 + k] == be32(code)[k]);
        assert(b[4 + (8 + k)] == v[8 + k]);
    }
    lemma_n32(code, b, 12);
    assert(b.skip(16) =~= d.user_data);
}

/// The fixed bytes of an INIT or INIT ACK chunk.
pub proof fn law_init_layout(c: ChunkView)
    requires
        chunk_encode(c) is Ok,
        c is Init,
    ensures
        ({
            let b = chunk_encode(c)->Ok_0;
            let i = c->Init_0;
            &&& b.len() >= 20
            &&& n32(b, 4) == i.initiate_tag
            &&& n32(b, 8) == i.advertised_receiver_window_credit
            &&& n16(b, 12) == i.num_outbound_streams
            &&& n16(b, 14) == i.num_inbound_streams
            &&& n32(b, 16) == i.initial_tsn
        }),
{
    reveal(chunk_value);
    let b = chunk_encode(c)->Ok_0;
    let i = c->Init_0;
    let v = chunk_value(c);
    assert forall|k: int| 0 <= k < v.len() implies b[4 + k] == #[trigger] v[k] by {}
    assert forall|k: int| 0 <= k < 4 implies b[4 + k] == #[trigger] be32(i.initiate_tag)[k] by {
        assert(v[k] == be32(i.initiate_tag)[k]);
    }
    lemma_n32(i.initiate_tag, b, 4);
    let w = i.advertised_receiver_window_credit;
    assert forall|k: int| 0 <= k < 4 implies b[8 + k] == #[trigger] be32(w)[k] by {
        assert(v[4 + k] == be32(w)[k]);
        assert(b[4 + (4 + k)] == v[4 + k]);
    }
    lemma_n32(w, b, 8);
    assert(v[8] == be16(i.num_outbound_streams)[0] && v[9] == be16(i.num_outbound_streams)[1]);
    assert(b[12] == v[8] && b[13] == v[9]);
    lemma_n16(i.num_outbound_streams, b, 12);
    assert(v[10] == be16(i.num_inbound_streams)[0] && v[11] == be16(i.num_inbound_streams)[1]);
    assert(b[14] == v[10] && b[15] == v[11]);
    lemma_n16(i.num_inbound_streams, b, 14);
    assert forall|k: int| 0 <= k < 4 implies b[16 + k] == #[trigger] be32(i.initial_tsn)[k] by {
        assert(v[12 + k] == be32(i.initial_tsn)[k]);
        assert(b[4 + (12 + k)] == v[12 + k]);
    }
    lemma_n32(i.initial_tsn, b, 16);
}

/// The bytes of a SACK chunk: the blocks stand behind the counts, and the duplicates behind the
/// blocks.
pub proof fn law_sack_layout(c: ChunkView, j: int)
    requires
        chunk_encode(c) is Ok,
        c is SelectiveAck,
    ensures
        ({
            let b = chunk_encode(c)->Ok_0;
            let a = c->SelectiveAck_0;
            let n = a.gap_ack_blocks.len();
            &&& b.len() == 16 + 4 * n + 4 * a.duplicate_tsn.len()
            &&& n32(b, 4) == a.cumulative_tsn_ack
            &&& n32(b, 8) == a.advertised_receiver_window_credit
            &&& n16(b, 12) == n
            &&& n16(b, 14) == a.duplicate_tsn.len()
            &&& 0 <= j < n ==> n16(b, 16 + 4 * j) == a.gap_ack_blocks[j].start && n16(
                b,
                18 + 4 * j,
            ) == a.gap_ack_blocks[j].end
            &&& 0 <= j < a.duplicate_tsn.len() ==> n32(b, 16 + 4 * n + 4 * j) == a.duplicate_tsn[j]
        }),
{
    reveal(chunk_value);
    let b = chunk_encode(c)->Ok_0;
    let a = c->SelectiveAck_0;
    let v = chunk_value(c);
    assert forall|k: int| 0 <= k < v.len() implies b[4 + k] == #[trigger] v[k] by {}
    let cum = a.cumulative_tsn_ack;
    assert forall|k: int| 0 <= k < 4 implies b[4 + k] == #[trigger] be32(cum)[k] by {
        assert(v[k] == be32(cum)[k]);
    }
    lemma_n32(cum, b, 4);
    let w = a.advertised_receiver_window_credit;
    assert forall|k: int| 0 <= k < 4 implies b[8 + k] == #[trigger] be32(w)[k] by {
        assert(v[4 + k] == be32(w)[k]);
        assert(b[4 + (4 + k)] == v[4 + k]);
    }
    lemma_n32(w, b, 8);
    let (ng, nd) = (
        (a.gap_ack_blocks.len() % 0x1_0000) as u16,
        (a.duplicate_tsn.len() % 0x1_0000) as u16,
    );
    assert(v[8] == be16(ng)[0] && v[9] == be16(ng)[1]);
    assert(b[12] == v[8] && b[13] == v[9]);
    lemma_n16(ng, b, 12);
    assert(v[10] == be16(nd)[0] && v[11] == be16(nd)[1]);
    assert(b[14] == v[10] && b[15] == v[11]);
    lemma_n16(nd, b, 14);
    lemma_sack_lists(c, j);
}

proof fn lemma_sack_lists(c: ChunkView, j: int)
    requires
        chunk_encode(c) is Ok,
        c is SelectiveAck,
    ensures
        ({
            let b = chunk_encode(c)->Ok_0;
            let a = c->SelectiveAck_0;
            let n = a.gap_ack_blocks.len();
            &&& b.len() == 16 + 4 * n + 4 * a.duplicate_tsn.len()
            &&& 0 <= j < n ==> n16(b, 16 + 4 * j) == a.gap_ack_blocks[j].start && n16(
                b,
                18 + 4 * j,
            ) == a.gap_ack_blocks[j].end
            &&& 0 <= j < a.duplicate_tsn.len() ==> n32(b, 16 + 4 * n + 4 * j) == a.duplicate_tsn[j]
        }),
{
    reveal(chunk_value);
    let b = chunk_encode(c)->Ok_0;
    let a = c->SelectiveAck_0;
    let gaps = gap_pairs(a.gap_ack_blocks);
    let n = a.gap_ack_blocks.len() as int;
    let m = a.duplicate_tsn.len() as int;
    if 0 <= j < n {
        assert(b.subrange(16, 16 + 4 * n) =~= pairs_encode(gaps));
        lemma_pairs(gaps, b, 16, j);
    }
    if 0 <= j < m {
        let at = 16 + 4 * n;
        assert(b.subrange(at, at + 4 * m) =~= u32s_encode(a.duplicate_tsn));
        lemma_u32s(a.duplicate_tsn, b, at, j);
    }
}

/// The bytes of the other chunks with numbers in them: SHUTDOWN tells a TSN, and FORWARD TSN a
/// TSN and the streams with their sequence numbers. A COOKIE ECHO holds the cookie, and some
/// chunks hold nothing.
pub proof fn law_other_layouts(c: ChunkView, j: int)
    requires
        chunk_encode(c) is Ok,
    ensures
        ({
            let b = chunk_encode(c)->Ok_0;
            &&& c matches ChunkView::Shutdown(t) ==> b.len() == 8 && n32(b, 4) == t
            &&& c matches ChunkView::CookieEcho(x) ==> b.skip(4) == x
            &&& c is CookieAck || c is ShutdownAck || c is ShutdownComplete ==> b.len() == 4
            &&& c matches ChunkView::ForwardTsn(f) ==> {
                &&& b.len() == 8 + 4 * f.streams.len()
                &&& n32(b, 4) == f.new_cumulative_tsn
                &&& 0 <= j < f.streams.len() ==> n16(b, 8 + 4 * j) == f.streams[j].identifier
                    && n16(b, 10 + 4 * j) == f.streams[j].sequence
            }
        }),
{
    reveal(chunk_value);
    let b = chunk_encode(c)->Ok_0;
    let v = chunk_value(c);
    assert forall|k: int| 0 <= k < v.len() implies b[4 + k] == #[trigger] v[k] by {}
    assert(b.skip(4) =~= v);
    match c {
        ChunkView::Shutdown(t) => {
            assert forall|k: int| 0 <= k < 4 implies b[4 + k] == #[trigger] be32(t)[k] by {
                assert(v[k] == be32(t)[k]);
            }
            lemma_n32(t, b, 4);
        },
        ChunkView::ForwardTsn(f) => {
            let t = f.new_cumulative_tsn;
            assert forall|k: int| 0 <= k < 4 implies b[4 + k] == #[trigger] be32(t)[k] by {
                assert(v[k] == be32(t)[k]);
            }
            lemma_n32(t, b, 4);
            let pairs = stream_pairs(f.streams);
            if 0 <= j < f.streams.len() {
                assert(b.subrange(8, 8 + 4 * (pairs.len() as int)) =~= pairs_encode(pairs));
                lemma_pairs(pairs, b, 8, j);
            }
        },
        _ => {},
    }
}

/// The bytes of a list entry: its type, its length with these four bytes, and its value.
pub proof fn law_entry_layout(t: TlvView)
    requires
        t.value.len() + 4 <= 0xffff,
    ensures
        ({
            let b = tlv_encode(t);
            &&& b.len() == 4 + t.value.len()
            &&& n16(b, 0) == t.typ
            &&& n16(b, 2) == b.len()
            &&& b.skip(4) == t.value
        }),
{
    let b = tlv_encode(t);
    let len = ((t.value.len() + 4) % 0x1_0000) as u16;
    lemma_n16(t.typ, b, 0);
    assert(b[2] == be16(len)[0] && b[3] == be16(len)[1]);
    lemma_n16(len, b, 2);
    assert(b.skip(4) =~= t.value);
}

/// The number of a result.
pub open spec fn result_number(r: ReconfigResult) -> int {
    match r {
        ReconfigResult::SuccessNop => 0,
        ReconfigResult::SuccessPerformed => 1,
        ReconfigResult::Denied => 2,
        ReconfigResult::ErrorWrongSsn => 3,
        ReconfigResult::ErrorRequestAlreadyInProgress => 4,
        ReconfigResult::ErrorBadSequenceNumber => 5,
        ReconfigResult::InProgress => 6,
        ReconfigResult::Unknown => 7,
    }
}

/// The types and the bytes of parameters. A request to reset streams tells its own number, the
/// number of the request that it answers, the last TSN and the streams; an answer tells the
/// number of the request and the result.
pub proof fn law_param_layout(p: ParamView, j: int)
    ensures
        ({
            let t = param_tlv(p);
            let v = t.value;
            &&& p matches ParamView::HeartbeatInfo(x) ==> t.typ == 1 && v == x
            &&& p matches ParamView::StateCookie(x) ==> t.typ == 7 && v == x
            &&& p matches ParamView::SupportedExtensions(x) ==> t.typ == 32776 && v == x
            &&& p matches ParamView::Unknown(y, x) ==> t.typ == y && v == x
            &&& p matches ParamView::OutgoingResetRequest(r) ==> {
                &&& t.typ == 13
                &&& v.len() == 12 + 2 * r.stream_identifiers.len()
                &&& n32(v, 0) == r.reconfig_request_sequence_number
                &&& n32(v, 4) == r.reconfig_response_sequence_number
                &&& n32(v, 8) == r.sender_last_tsn
                &&& 0 <= j < r.stream_identifiers.len() ==> n16(v, 12 + 2 * j)
                    == r.stream_identifiers[j]
            }
            &&& p matches ParamView::ReconfigResponse(r) ==> {
                &&& t.typ == 16
                &&& v.len() == 8
                &&& n32(v, 0) == r.reconfig_response_sequence_number
                &&& n32(v, 4) == result_number(r.result)
            }
        }),
{
    let v = param_tlv(p).value;
    match p {
        ParamView::OutgoingResetRequest(r) => {
            let x = r.reconfig_request_sequence_number;
            assert forall|k: int| 0 <= k < 4 implies v[0 + k] == #[trigger] be32(x)[k] by {}
            lemma_n32(x, v, 0);
            let y = r.reconfig_response_sequence_number;
            assert forall|k: int| 0 <= k < 4 implies v[4 + k] == #[trigger] be32(y)[k] by {}
            lemma_n32(y, v, 4);
            let z = r.sender_last_tsn;
            assert forall|k: int| 0 <= k < 4 implies v[8 + k] == #[trigger] be32(z)[k] by {}
            lemma_n32(z, v, 8);
            if 0 <= j < r.stream_identifiers.len() {
                let ids = u16s_encode(r.stream_identifiers);
                assert(v.skip(12) =~= ids);
                assert(v[12 + 2 * j] == ids[2 * j] && v[13 + 2 * j] == ids[2 * j + 1]);
                lemma_n16(r.stream_identifiers[j], v, 12 + 2 * j);
            }
        },
        ParamView::ReconfigResponse(r) => {
            let x = r.reconfig_response_sequence_number;
            assert forall|k: int| 0 <= k < 4 implies v[0 + k] == #[trigger] be32(x)[k] by {}
            lemma_n32(x, v, 0);
            let y = r.result.code();
            assert forall|k: int| 0 <= k < 4 implies v[4 + k] == #[trigger] be32(y)[k] by {}
            lemma_n32(y, v, 4);
        },
        _ => {},
    }
}

} // verus!
