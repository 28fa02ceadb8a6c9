//! Parameters that chunks carry.

use bytes::Bytes;
use vstd::prelude::*;

use crate::buffer::{
    bytes_as_slice, bytes_clone, bytes_from_vec, bytes_len, bytes_view, get_u16, get_u32,
};
use crate::chunk::tlv::{
    decode_tlvs, encode_tlvs, push_slice, push_u16, push_u32, tlv_views, tlvs_decode, tlvs_encode,
    Tlv, TlvView,
};
use crate::error::Error;
use crate::util::{be16, be32, u16_at, u32_at};

verus! {

/// Heartbeat information.
pub const PARAM_HEARTBEAT_INFO: u16 = 1;

/// State cookie.
pub const PARAM_STATE_COOKIE: u16 = 7;

/// Outgoing SSN reset request.
pub const PARAM_OUTGOING_RESET_REQUEST: u16 = 13;

/// Re-configuration response.
pub const PARAM_RECONFIG_RESPONSE: u16 = 16;

/// Supported extensions.
pub const PARAM_SUPPORTED_EXTENSIONS: u16 = 0x8008;

/// Opaque information that the receiver of a HEARTBEAT sends back.
#[derive(Debug)]
pub struct ParamHeartbeatInfo {
    pub heartbeat_information: Bytes,
}

/// The cookie of the handshake.
#[derive(Debug)]
pub struct ParamStateCookie {
    pub cookie: Bytes,
}

/// A request to reset outgoing streams.
#[derive(Debug)]
pub struct ParamOutgoingResetRequest {
    /// The sender's number of this request, which the answer repeats.
    pub reconfig_request_sequence_number: u32,
    /// The number of the request that this one answers.
    pub reconfig_response_sequence_number: u32,
    /// The last TSN that the sender assigned before it sends this request.
    pub sender_last_tsn: u32,
    /// The streams to reset.
    pub stream_identifiers: Vec<u16>,
}

/// The result of a re-configuration request.
#[derive(Debug, Clone, Copy, PartialEq, Eq, Structural)]
pub enum ReconfigResult {
    SuccessNop,
    SuccessPerformed,
    Denied,
    ErrorWrongSsn,
    ErrorRequestAlreadyInProgress,
    ErrorBadSequenceNumber,
    InProgress,
    Unknown,
}

/// The answer to a re-configuration request.
#[derive(Debug, Clone, Copy)]
pub struct ParamReconfigResponse {
    pub reconfig_response_sequence_number: u32,
    pub result: ReconfigResult,
}

/// The chunk types of the extensions that an endpoint supports.
#[derive(Debug)]
pub struct ParamSupportedExtensions {
    pub chunk_types: Vec<u8>,
}

/// A parameter that the protocol logic does not look into.
#[derive(Debug)]
pub struct ParamUnknown {
    pub typ: u16,
    pub value: Bytes,
}

/// A parameter of a chunk.
#[derive(Debug)]
pub enum Param {
    HeartbeatInfo(ParamHeartbeatInfo),
    StateCookie(ParamStateCookie),
    OutgoingResetRequest(ParamOutgoingResetRequest),
    ReconfigResponse(ParamReconfigResponse),
    SupportedExtensions(ParamSupportedExtensions),
    Unknown(ParamUnknown),
}

/// The content of a [`ParamOutgoingResetRequest`].
#[verifier::ext_equal]
pub struct ResetRequestView {
    pub reconfig_request_sequence_number: u32,
    pub reconfig_response_sequence_number: u32,
    pub sender_last_tsn: u32,
    pub stream_identifiers: Seq<u16>,
}

/// The content of a [`Param`].
#[verifier::ext_equal]
pub enum ParamView {
    HeartbeatInfo(Seq<u8>),
    StateCookie(Seq<u8>),
    OutgoingResetRequest(ResetRequestView),
    ReconfigResponse(ParamReconfigResponse),
    SupportedExtensions(Seq<u8>),
    Unknown(u16, Seq<u8>),
}

impl View for ParamOutgoingResetRequest {
    type V = ResetRequestView;

    open spec fn view(&self) -> ResetRequestView {
        ResetRequestView {
            reconfig_request_sequence_number: self.reconfig_request_sequence_number,
            reconfig_response_sequence_number: self.reconfig_response_sequence_number,
            sender_last_tsn: self.sender_last_tsn,
            stream_identifiers: self.stream_identifiers@,
        }
    }
}

impl View for Param {
    type V = ParamView;

    open spec fn view(&self) -> ParamView {
        match *self {
            Param::HeartbeatInfo(p) => ParamView::HeartbeatInfo(
                bytes_view(p.heartbeat_information),
            ),
            Param::StateCookie(p) => ParamView::StateCookie(bytes_view(p.cookie)),
            Param::OutgoingResetRequest(p) => ParamView::OutgoingResetRequest(p@),
            Param::ReconfigResponse(p) => ParamView::ReconfigResponse(p),
            Param::SupportedExtensions(p) => ParamView::SupportedExtensions(p.chunk_types@),
            Param::Unknown(p) => ParamView::Unknown(p.typ, bytes_view(p.value)),
        }
    }
}

/// Copies a vector of stream identifiers.
pub fn clone_u16s(v: &Vec<u16>) -> (r: Vec<u16>)
    ensures
        r@ == v@,
{
    let mut r: Vec<u16> = Vec::new();
    let mut i: usize = 0;
    while i < v.len()
        invariant
            i <= v.len(),
            r@ == v@.take(i as int),
        decreases v.len() - i,
    {
        r.push(v[i]);
        assert(v@.take(i + 1) =~= v@.take(i as int).push(v@[i as int]));
        i += 1;
    }
    assert(v@.take(i as int) =~= v@);
    r
}

/// Copies a vector of bytes.
pub fn clone_u8s(v: &Vec<u8>) -> (r: Vec<u8>)
    ensures
        r@ == v@,
{
    let mut r: Vec<u8> = Vec::new();
    push_slice(&mut r, v.as_slice());
    assert(r@ =~= v@);
    r
}

impl Clone for ParamOutgoingResetRequest {
    fn clone(&self) -> (r: Self)
        ensures
            r@ == self@,
    {
        ParamOutgoingResetRequest {
            reconfig_request_sequence_number: self.reconfig_request_sequence_number,
            reconfig_response_sequence_number: self.reconfig_response_sequence_number,
            sender_last_tsn: self.sender_last_tsn,
            stream_identifiers: clone_u16s(&self.stream_identifiers),
        }
    }
}

impl Clone for ParamStateCookie {
    fn clone(&self) -> (r: Self)
        ensures
            bytes_view(r.cookie) == bytes_view(self.cookie),
    {
        ParamStateCookie { cookie: bytes_clone(&self.cookie) }
    }
}

impl Clone for Param {
    fn clone(&self) -> (r: Self)
        ensures
            r@ == self@,
    {
        match self {
            Param::HeartbeatInfo(p) => Param::HeartbeatInfo(
                ParamHeartbeatInfo { heartbeat_information: bytes_clone(&p.heartbeat_information) },
            ),
            Param::StateCookie(p) => Param::StateCookie(p.clone()),
            Param::OutgoingResetRequest(p) => Param::OutgoingResetRequest(p.clone()),
            Param::ReconfigResponse(p) => Param::ReconfigResponse(*p),
            Param::SupportedExtensions(p) => Param::SupportedExtensions(
                ParamSupportedExtensions { chunk_types: clone_u8s(&p.chunk_types) },
            ),
            Param::Unknown(p) => Param::Unknown(
                ParamUnknown { typ: p.typ, value: bytes_clone(&p.value) },
            ),
        }
    }
}

/// The contents of a vector of parameters.
pub open spec fn param_views(ps: Seq<Param>) -> Seq<ParamView> {
    ps.map_values(|p: Param| p@)
}

/// Clones each parameter.
pub fn clone_params(ps: &Vec<Param>) -> (r: Vec<Param>)
    ensures
        param_views(r@) == param_views(ps@),
{
    let mut r: Vec<Param> = Vec::new();
    let mut i: usize = 0;
    while i < ps.len()
        invariant
            i <= ps.len(),
            r@.len() == i,
            forall|j: int| 0 <= j < i ==> (#[trigger] r@[j])@ == ps@[j]@,
        decreases ps.len() - i,
    {
        r.push(ps[i].clone());
        i += 1;
    }
    assert(param_views(r@) =~= param_views(ps@));
    r
}

impl ReconfigResult {
    /// The number that stands for the result on the wire.
    pub open spec fn code(self) -> u32 {
        match self {
            ReconfigResult::SuccessNop => 0,
            ReconfigResult::SuccessPerformed => 1,
            ReconfigResult::Denied => 2,
            ReconfigResult::ErrorWrongSsn => 3,
            ReconfigResult::ErrorRequestAlreadyInProgress => 4,
            ReconfigResult::ErrorBadSequenceNumber => 5,
            ReconfigResult::InProgress => 6,
            ReconfigResult::Unknown => 7,
        }
    }

    /// The result that a number on the wire stands for.
    pub open spec fn of_code(x: u32) -> ReconfigResult {
        if x == 0 {
            ReconfigResult::SuccessNop
        } else if x == 1 {
            ReconfigResult::SuccessPerformed
        } else if x == 2 {
            ReconfigResult::Denied
        } else if x == 3 {
            ReconfigResult::ErrorWrongSsn
        } else if x == 4 {
            ReconfigResult::ErrorRequestAlreadyInProgress
        } else if x == 5 {
            ReconfigResult::ErrorBadSequenceNumber
        } else if x == 6 {
            ReconfigResult::InProgress
        } else {
            ReconfigResult::Unknown
        }
    }

    /// The number on the wire.
    pub fn to_u32(self) -> (r: u32)
        ensures
            r == self.code(),
    {
        match self {
            ReconfigResult::SuccessNop => 0,
            ReconfigResult::SuccessPerformed => 1,
            ReconfigResult::Denied => 2,
            ReconfigResult::ErrorWrongSsn => 3,
            ReconfigResult::ErrorRequestAlreadyInProgress => 4,
            ReconfigResult::ErrorBadSequenceNumber => 5,
            ReconfigResult::InProgress => 6,
            ReconfigResult::Unknown => 7,
        }
    }

    /// The result of a number on the wire.
    pub fn from_u32(x: u32) -> (r: ReconfigResult)
        ensures
            r == ReconfigResult::of_code(x),
    {
        if x == 0 {
            ReconfigResult::SuccessNop
        } else if x == 1 {
            ReconfigResult::SuccessPerformed
        } else if x == 2 {
            ReconfigResult::Denied
        } else if x == 3 {
            ReconfigResult::ErrorWrongSsn
        } else if x == 4 {
            ReconfigResult::ErrorRequestAlreadyInProgress
        } else if x == 5 {
            ReconfigResult::ErrorBadSequenceNumber
        } else if x == 6 {
            ReconfigResult::InProgress
        } else {
            ReconfigResult::Unknown
        }
    }
}

/// 16-bit numbers one behind the other.
pub open spec fn u16s_encode(v: Seq<u16>) -> Seq<u8> {
    Seq::new(
        2 * v.len(),
        |i: int|
            if i % 2 == 0 {
                (v[i / 2] / 256) as u8
            } else {
                (v[i / 2] % 256) as u8
            },
    )
}

/// The 16-bit numbers that stand from `at` to the end of `s`; an odd last byte is none.
pub open spec fn u16s_decode(s: Seq<u8>, at: int) -> Seq<u16> {
    Seq::new(((s.len() - at) / 2) as nat, |i: int| u16_at(s, at + 2 * i))
}

/// A parameter as a list entry.
pub open spec fn param_tlv(p: ParamView) -> TlvView {
    match p {
        ParamView::HeartbeatInfo(info) => TlvView { typ: PARAM_HEARTBEAT_INFO, value: info },
        ParamView::StateCookie(cookie) => TlvView { typ: PARAM_STATE_COOKIE, value: cookie },
        ParamView::OutgoingResetRequest(r) => TlvView {
            typ: PARAM_OUTGOING_RESET_REQUEST,
            value: be32(r.reconfig_request_sequence_number) + be32(
                r.reconfig_response_sequence_number,
            ) + be32(r.sender_last_tsn) + u16s_encode(r.stream_identifiers),
        },
        ParamView::ReconfigResponse(r) => TlvView {
            typ: PARAM_RECONFIG_RESPONSE,
            value: be32(r.reconfig_response_sequence_number) + be32(r.result.code()),
        },
        ParamView::SupportedExtensions(types) => TlvView {
            typ: PARAM_SUPPORTED_EXTENSIONS,
            value: types,
        },
        ParamView::Unknown(typ, value) => TlvView { typ, value },
    }
}

/// The parameter that a list entry holds.
pub open spec fn tlv_param(t: TlvView) -> Result<ParamView, Error> {
    let v = t.value;
    if t.typ == PARAM_HEARTBEAT_INFO {
        Ok(ParamView::HeartbeatInfo(v))
    } else if t.typ == PARAM_STATE_COOKIE {
        Ok(ParamView::StateCookie(v))
    } else if t.typ == PARAM_OUTGOING_RESET_REQUEST {
        if v.len() < 12 {
            Err(Error::ErrSsnResetRequestParamTooShort)
        } else {
            Ok(
                ParamView::OutgoingResetRequest(
                    ResetRequestView {
                        reconfig_request_sequence_number: u32_at(v, 0),
                        reconfig_response_sequence_number: u32_at(v, 4),
                        sender_last_tsn: u32_at(v, 8),
                        stream_identifiers: u16s_decode(v, 12),
                    },
                ),
            )
        }
    } else if t.typ == PARAM_RECONFIG_RESPONSE {
        if v.len() < 8 {
            Err(Error::ErrReconfigRespParamTooShort)
        } else {
            Ok(
                ParamView::ReconfigResponse(
                    ParamReconfigResponse {
                        reconfig_response_sequence_number: u32_at(v, 0),
                        result: ReconfigResult::of_code(u32_at(v, 4)),
                    },
                ),
            )
        }
    } else if t.typ == PARAM_SUPPORTED_EXTENSIONS {
        Ok(ParamView::SupportedExtensions(v))
    } else {
        Ok(ParamView::Unknown(t.typ, v))
    }
}

/// Parameters as list entries.
pub open spec fn param_tlvs(ps: Seq<ParamView>) -> Seq<TlvView> {
    ps.map_values(|p: ParamView| param_tlv(p))
}

/// The parameters of list entries, or the first error.
pub open spec fn tlv_params(ts: Seq<TlvView>) -> Result<Seq<ParamView>, Error>
    decreases ts.len(),
{
    if ts.len() == 0 {
        Ok(seq![])
    } else {
        match tlv_params(ts.drop_last()) {
            Err(e) => Err(e),
            Ok(ps) => match tlv_param(ts.last()) {
                Err(e) => Err(e),
                Ok(p) => Ok(ps.push(p)),
            },
        }
    }
}

/// The bytes of a parameter list.
pub open spec fn params_encode(ps: Seq<ParamView>) -> Seq<u8> {
    tlvs_encode(param_tlvs(ps))
}

/// The parameters of a parameter list.
pub open spec fn params_decode(s: Seq<u8>) -> Result<Seq<ParamView>, Error> {
    match tlvs_decode(s) {
        Err(e) => Err(e),
        Ok(ts) => tlv_params(ts),
    }
}

/// Writes a parameter as a list entry.
pub fn encode_param(p: &Param) -> (t: Tlv)
    ensures
        t@ == param_tlv(p@),
{
    match p {
        Param::HeartbeatInfo(p) => Tlv {
            typ: PARAM_HEARTBEAT_INFO,
            value: bytes_clone(&p.heartbeat_information),
        },
        Param::StateCookie(p) => Tlv { typ: PARAM_STATE_COOKIE, value: bytes_clone(&p.cookie) },
        Param::OutgoingResetRequest(r) => {
            let mut v: Vec<u8> = Vec::new();
            push_u32(&mut v, r.reconfig_request_sequence_number);
            push_u32(&mut v, r.reconfig_response_sequence_number);
            push_u32(&mut v, r.sender_last_tsn);
            let ghost head = v@;
            let ids = &r.stream_identifiers;
            let mut i: usize = 0;
            assert(v@ =~= head + u16s_encode(ids@.take(0)));
            while i < ids.len()
                invariant
                    i <= ids.len(),
                    v@ == head + u16s_encode(ids@.take(i as int)),
                decreases ids.len() - i,
            {
                push_u16(&mut v, ids[i]);
                assert(u16s_encode(ids@.take(i + 1)) =~= u16s_encode(ids@.take(i as int)) + be16(
                    ids@[i as int],
                ));
                i += 1;
            }
            assert(ids@.take(i as int) =~= ids@);
            let t = Tlv { typ: PARAM_OUTGOING_RESET_REQUEST, value: bytes_from_vec(v) };
            assert(t@ =~= param_tlv(p@));
            t
        },
        Param::ReconfigResponse(r) => {
            let mut v: Vec<u8> = Vec::new();
            push_u32(&mut v, r.reconfig_response_sequence_number);
            push_u32(&mut v, r.result.to_u32());
            let t = Tlv { typ: PARAM_RECONFIG_RESPONSE, value: bytes_from_vec(v) };
            assert(t@ =~= param_tlv(p@));
            t
        },
        Param::SupportedExtensions(p) => Tlv {
            typ: PARAM_SUPPORTED_EXTENSIONS,
            value: bytes_from_vec(clone_u8s(&p.chunk_types)),
        },
        Param::Unknown(p) => Tlv { typ: p.typ, value: bytes_clone(&p.value) },
    }
}

/// Reads a parameter from a list entry.
pub fn decode_param(t: &Tlv) -> (r: Result<Param, Error>)
    ensures
        match r {
            Ok(p) => tlv_param(t@) == Ok::<ParamView, Error>(p@),
            Err(e) => tlv_param(t@) == Err::<ParamView, Error>(e),
        },
{
    let n = bytes_len(&t.value);
    let ghost v = bytes_view(t.value);
    if t.typ == PARAM_HEARTBEAT_INFO {
        Ok(
            Param::HeartbeatInfo(
                ParamHeartbeatInfo { heartbeat_information: bytes_clone(&t.value) },
            ),
        )
    } else if t.typ == PARAM_STATE_COOKIE {
        Ok(Param::StateCookie(ParamStateCookie { cookie: bytes_clone(&t.value) }))
    } else if t.typ == PARAM_OUTGOING_RESET_REQUEST {
        if n < 12 {
            return Err(Error::ErrSsnResetRequestParamTooShort);
        }
        let mut reader = bytes_clone(&t.value);
        let reconfig_request_sequence_number = get_u32(&mut reader);
        let reconfig_response_sequence_number = get_u32(&mut reader);
        let sender_last_tsn = get_u32(&mut reader);
        assert(bytes_view(reader) =~= v.skip(12));
        let count = (n - 12) / 2;
        let mut stream_identifiers: Vec<u16> = Vec::new();
        let mut i: usize = 0;
        while i < count
            invariant
                i <= count,
                count == (v.len() - 12) / 2,
                v.len() >= 12,
                bytes_view(reader) == v.skip(12 + 2 * i),
                stream_identifiers@ == u16s_decode(v, 12).take(i as int),
            decreases count - i,
        {
            let id = get_u16(&mut reader);
            assert(bytes_view(reader) =~= v.skip(12 + 2 * (i + 1)));
            assert(id == u16s_decode(v, 12)[i as int]);
            stream_identifiers.push(id);
            assert(stream_identifiers@ =~= u16s_decode(v, 12).take(i + 1));
            i += 1;
        }
        assert(stream_identifiers@ =~= u16s_decode(v, 12));
        Ok(
            Param::OutgoingResetRequest(
                ParamOutgoingResetRequest {
                    reconfig_request_sequence_number,
                    reconfig_response_sequence_number,
                    sender_last_tsn,
                    stream_identifiers,
                },
            ),
        )
    } else if t.typ == PARAM_RECONFIG_RESPONSE {
        if n < 8 {
            return Err(Error::ErrReconfigRespParamTooShort);
        }
        let mut reader = bytes_clone(&t.value);
        let reconfig_response_sequence_number = get_u32(&mut reader);
        let result = ReconfigResult::from_u32(get_u32(&mut reader));
        Ok(
            Param::ReconfigResponse(
                ParamReconfigResponse { reconfig_response_sequence_number, result },
            ),
        )
    } else if t.typ == PARAM_SUPPORTED_EXTENSIONS {
        let mut chunk_types: Vec<u8> = Vec::new();
        push_slice(&mut chunk_types, bytes_as_slice(&t.value));
        assert(chunk_types@ =~= v);
        Ok(Param::SupportedExtensions(ParamSupportedExtensions { chunk_types }))
    } else {
        Ok(Param::Unknown(ParamUnknown { typ: t.typ, value: bytes_clone(&t.value) }))
    }
}

/// Writes a parameter list.
pub fn encode_params(ps: &Vec<Param>) -> (out: Vec<u8>)
    ensures
        out@ == params_encode(param_views(ps@)),
{
    let mut ts: Vec<Tlv> = Vec::new();
    let mut i: usize = 0;
    while i < ps.len()
        invariant
            i <= ps.len(),
            ts@.len() == i,
            forall|j: int| 0 <= j < i ==> (#[trigger] ts@[j])@ == param_tlv(ps@[j]@),
        decreases ps.len() - i,
    {
        ts.push(encode_param(&ps[i]));
        i += 1;
    }
    assert(tlv_views(ts@) =~= param_tlvs(param_views(ps@)));
    encode_tlvs(&ts)
}

/// Reads a parameter list.
pub fn decode_params(raw: &Bytes) -> (r: Result<Vec<Param>, Error>)
    ensures
        match r {
            Ok(ps) => params_decode(bytes_view(*raw)) == Ok::<Seq<ParamView>, Error>(
                param_views(ps@),
            ),
            Err(e) => params_decode(bytes_view(*raw)) == Err::<Seq<ParamView>, Error>(e),
        },
{
    let ts = match decode_tlvs(raw) {
        Ok(ts) => ts,
        Err(e) => return Err(e),
    };
    let ghost all = tlv_views(ts@);
    let mut ps: Vec<Param> = Vec::new();
    let mut i: usize = 0;
    assert(param_views(ps@) =~= seq![]);
    assert(all.take(0) =~= seq![]);
    while i < ts.len()
        invariant
            i <= ts.len(),
            all == tlv_views(ts@),
            tlvs_decode(bytes_view(*raw)) == Ok::<Seq<TlvView>, Error>(all),
            tlv_params(all.take(i as int)) == Ok::<Seq<ParamView>, Error>(param_views(ps@)),
        decreases ts.len() - i,
    {
        assert(all.take(i + 1).drop_last() =~= all.take(i as int));
        assert(all.take(i + 1).last() == ts@[i as int]@);
        let ghost before = ps@;
        match decode_param(&ts[i]) {
            Ok(p) => {
                ps.push(p);
                assert(param_views(ps@) =~= param_views(before).push(p@));
            },
            Err(e) => {
                proof {
                    lemma_tlv_params_prefix_err(all, i + 1, e);
                }
                return Err(e);
            },
        }
        i += 1;
    }
    assert(all.take(i as int) =~= all);
    Ok(ps)
}

/// An error in a prefix is the error of the list.
proof fn lemma_tlv_params_prefix_err(ts: Seq<TlvView>, n: int, e: Error)
    requires
        0 <= n <= ts.len(),
        tlv_params(ts.take(n)) == Err::<Seq<ParamView>, Error>(e),
    ensures
        tlv_params(ts) == Err::<Seq<ParamView>, Error>(e),
    decreases ts.len(),
{
    if n == ts.len() {
        assert(ts.take(n) =~= ts);
    } else {
        assert(ts.drop_last().take(n) =~= ts.take(n));
        lemma_tlv_params_prefix_err(ts.drop_last(), n, e);
    }
}

/// A parameter that is written under its own type: one that the protocol logic does
/// not look into has none of the types that it does look into.
pub open spec fn param_canonical(p: ParamView) -> bool {
    match p {
        ParamView::Unknown(typ, _) => typ != PARAM_HEARTBEAT_INFO && typ != PARAM_STATE_COOKIE
            && typ != PARAM_OUTGOING_RESET_REQUEST && typ != PARAM_RECONFIG_RESPONSE && typ
            != PARAM_SUPPORTED_EXTENSIONS,
        _ => true,
    }
}

/// A list of parameters each written under its own type.
pub open spec fn params_canonical(ps: Seq<ParamView>) -> bool {
    forall|i: int| 0 <= i < ps.len() ==> param_canonical(#[trigger] ps[i])
}

/// A parameter is read back as it was written.
pub proof fn lemma_param_roundtrip(p: ParamView)
    requires
        param_canonical(p),
    ensures
        tlv_param(param_tlv(p)) == Ok::<ParamView, Error>(p),
{
    let v = param_tlv(p).value;
    match p {
        ParamView::OutgoingResetRequest(r) => {
            assert(v.subrange(0, 4) =~= be32(r.reconfig_request_sequence_number));
            assert(v.subrange(4, 8) =~= be32(r.reconfig_response_sequence_number));
            assert(v.subrange(8, 12) =~= be32(r.sender_last_tsn));
            crate::util::lemma_be32(r.reconfig_request_sequence_number, v, 0);
            crate::util::lemma_be32(r.reconfig_response_sequence_number, v, 4);
            crate::util::lemma_be32(r.sender_last_tsn, v, 8);
            assert(u16s_decode(v, 12) =~= r.stream_identifiers) by {
                assert forall|i: int| 0 <= i < r.stream_identifiers.len() implies u16s_decode(
                    v,
                    12,
                )[i] == r.stream_identifiers[i] by {
                    assert(v[12 + 2 * i] == u16s_encode(r.stream_identifiers)[2 * i]);
                    assert(v[12 + 2 * i + 1] == u16s_encode(r.stream_identifiers)[2 * i + 1]);
                }
            }
        },
        ParamView::ReconfigResponse(r) => {
            assert(v.subrange(0, 4) =~= be32(r.reconfig_response_sequence_number));
            assert(v.subrange(4, 8) =~= be32(r.result.code()));
            crate::util::lemma_be32(r.reconfig_response_sequence_number, v, 0);
            crate::util::lemma_be32(r.result.code(), v, 4);
        },
        _ => {},
    }
}

/// Entries made of parameters give the parameters back.
proof fn lemma_tlv_params_roundtrip(ps: Seq<ParamView>)
    requires
        params_canonical(ps),
    ensures
        tlv_params(param_tlvs(ps)) == Ok::<Seq<ParamView>, Error>(ps),
    decreases ps.len(),
{
    if ps.len() > 0 {
        assert(param_tlvs(ps).drop_last() =~= param_tlvs(ps.drop_last()));
        lemma_tlv_params_roundtrip(ps.drop_last());
        lemma_param_roundtrip(ps.last());
        assert(ps.drop_last().push(ps.last()) =~= ps);
    } else {
        assert(ps =~= seq![]);
    }
}

/// A parameter list that fits a chunk is read back as it was written.
pub proof fn lemma_params_roundtrip(ps: Seq<ParamView>)
    requires
        params_canonical(ps),
        params_encode(ps).len() <= u16::MAX,
    ensures
        params_decode(params_encode(ps)) == Ok::<Seq<ParamView>, Error>(ps),
{
    crate::chunk::tlv::lemma_tlvs_encode_len(param_tlvs(ps));
    crate::chunk::tlv::lemma_tlvs_roundtrip(param_tlvs(ps));
    lemma_tlv_params_roundtrip(ps);
}

} // verus!
