//! The kinds of chunks and what each of them holds.

use bytes::Bytes;
use vstd::prelude::*;

use crate::buffer::{bytes_clone, bytes_view};
use crate::chunk::param::{clone_params, param_views, Param, ParamSupportedExtensions, ParamView};
use crate::chunk::payload::{ChunkPayloadData, DataView};
use crate::chunk::tlv::{tlv_views, Tlv, TlvView};
use crate::error::Error;
use crate::text::{append_decimal, decimal};

verus! {

pub const CT_PAYLOAD_DATA: u8 = 0;

pub const CT_INIT: u8 = 1;

pub const CT_INIT_ACK: u8 = 2;

pub const CT_SACK: u8 = 3;

pub const CT_HEARTBEAT: u8 = 4;

pub const CT_HEARTBEAT_ACK: u8 = 5;

pub const CT_ABORT: u8 = 6;

pub const CT_SHUTDOWN: u8 = 7;

pub const CT_SHUTDOWN_ACK: u8 = 8;

pub const CT_ERROR: u8 = 9;

pub const CT_COOKIE_ECHO: u8 = 10;

pub const CT_COOKIE_ACK: u8 = 11;

pub const CT_SHUTDOWN_COMPLETE: u8 = 14;

pub const CT_RECONFIG: u8 = 130;

pub const CT_FORWARD_TSN: u8 = 192;

/// The error cause of an ABORT that the peer's user asked for.
pub const USER_INITIATED_ABORT: u16 = 12;

/// The error cause of a chunk type that the receiver does not know.
pub const UNRECOGNIZED_CHUNK_TYPE: u16 = 6;

/// INIT and INIT ACK.
#[derive(Debug)]
pub struct ChunkInit {
    pub is_ack: bool,
    pub initiate_tag: u32,
    pub advertised_receiver_window_credit: u32,
    pub num_outbound_streams: u16,
    pub num_inbound_streams: u16,
    pub initial_tsn: u32,
    pub params: Vec<Param>,
}

/// ABORT
#[derive(Debug)]
pub struct ChunkAbort {
    pub error_causes: Vec<Tlv>,
}

/// ERROR
#[derive(Debug)]
pub struct ChunkError {
    pub error_causes: Vec<Tlv>,
}

/// HEARTBEAT
#[derive(Debug)]
pub struct ChunkHeartbeat {
    pub params: Vec<Param>,
}

/// HEARTBEAT ACK
#[derive(Debug)]
pub struct ChunkHeartbeatAck {
    pub params: Vec<Param>,
}

/// COOKIE ECHO
#[derive(Debug)]
pub struct ChunkCookieEcho {
    pub cookie: Bytes,
}

/// A run of TSNs that were received, as offsets from the cumulative TSN.
#[derive(Debug, Clone, Copy, PartialEq, Eq, Structural)]
pub struct GapAckBlock {
    pub start: u16,
    pub end: u16,
}

/// SACK
#[derive(Debug)]
pub struct ChunkSelectiveAck {
    pub cumulative_tsn_ack: u32,
    pub advertised_receiver_window_credit: u32,
    pub gap_ack_blocks: Vec<GapAckBlock>,
    pub duplicate_tsn: Vec<u32>,
}

/// RECONFIG
#[derive(Debug)]
pub struct ChunkReconfig {
    pub param_a: Option<Param>,
    pub param_b: Option<Param>,
}

/// A stream and its last skipped sequence number.
#[derive(Debug, Clone, Copy, PartialEq, Eq, Structural)]
pub struct ChunkForwardTsnStream {
    pub identifier: u16,
    pub sequence: u16,
}

/// FORWARD TSN
#[derive(Debug)]
pub struct ChunkForwardTsn {
    pub new_cumulative_tsn: u32,
    pub streams: Vec<ChunkForwardTsnStream>,
}

/// SHUTDOWN
#[derive(Debug, Clone, Copy)]
pub struct ChunkShutdown {
    pub cumulative_tsn_ack: u32,
}

/// A chunk of a packet.
#[derive(Debug)]
pub enum Chunk {
    Init(ChunkInit),
    Abort(ChunkAbort),
    Error(ChunkError),
    Heartbeat(ChunkHeartbeat),
    HeartbeatAck(ChunkHeartbeatAck),
    CookieEcho(ChunkCookieEcho),
    CookieAck,
    PayloadData(ChunkPayloadData),
    SelectiveAck(ChunkSelectiveAck),
    Reconfig(ChunkReconfig),
    ForwardTsn(ChunkForwardTsn),
    Shutdown(ChunkShutdown),
    ShutdownAck,
    ShutdownComplete,
}

/// The content of a [`ChunkInit`].
#[verifier::ext_equal]
pub struct InitView {
    pub is_ack: bool,
    pub initiate_tag: u32,
    pub advertised_receiver_window_credit: u32,
    pub num_outbound_streams: u16,
    pub num_inbound_streams: u16,
    pub initial_tsn: u32,
    pub params: Seq<ParamView>,
}

/// The content of a [`ChunkSelectiveAck`].
#[verifier::ext_equal]
pub struct SackView {
    pub cumulative_tsn_ack: u32,
    pub advertised_receiver_window_credit: u32,
    pub gap_ack_blocks: Seq<GapAckBlock>,
    pub duplicate_tsn: Seq<u32>,
}

/// The content of a [`ChunkReconfig`].
#[verifier::ext_equal]
pub struct ReconfigView {
    pub param_a: Option<ParamView>,
    pub param_b: Option<ParamView>,
}

/// The content of a [`ChunkForwardTsn`].
#[verifier::ext_equal]
pub struct ForwardTsnView {
    pub new_cumulative_tsn: u32,
    pub streams: Seq<ChunkForwardTsnStream>,
}

/// The content of a [`Chunk`].
#[verifier::ext_equal]
pub enum ChunkView {
    Init(InitView),
    Abort(Seq<TlvView>),
    Error(Seq<TlvView>),
    Heartbeat(Seq<ParamView>),
    HeartbeatAck(Seq<ParamView>),
    CookieEcho(Seq<u8>),
    CookieAck,
    PayloadData(DataView),
    SelectiveAck(SackView),
    Reconfig(ReconfigView),
    ForwardTsn(ForwardTsnView),
    Shutdown(u32),
    ShutdownAck,
    ShutdownComplete,
}

impl View for ChunkInit {
    type V = InitView;

    open spec fn view(&self) -> InitView {
        InitView {
            is_ack: self.is_ack,
            initiate_tag: self.initiate_tag,
            advertised_receiver_window_credit: self.advertised_receiver_window_credit,
            num_outbound_streams: self.num_outbound_streams,
            num_inbound_streams: self.num_inbound_streams,
            initial_tsn: self.initial_tsn,
            params: param_views(self.params@),
        }
    }
}

impl View for ChunkSelectiveAck {
    type V = SackView;

    open spec fn view(&self) -> SackView {
        SackView {
            cumulative_tsn_ack: self.cumulative_tsn_ack,
            advertised_receiver_window_credit: self.advertised_receiver_window_credit,
            gap_ack_blocks: self.gap_ack_blocks@,
            duplicate_tsn: self.duplicate_tsn@,
        }
    }
}

/// The content of an optional parameter.
pub open spec fn opt_param_view(p: Option<Param>) -> Option<ParamView> {
    match p {
        Some(p) => Some(p@),
        None => None,
    }
}

impl View for ChunkReconfig {
    type V = ReconfigView;

    open spec fn view(&self) -> ReconfigView {
        ReconfigView {
            param_a: opt_param_view(self.param_a),
            param_b: opt_param_view(self.param_b),
        }
    }
}

impl View for ChunkForwardTsn {
    type V = ForwardTsnView;

    open spec fn view(&self) -> ForwardTsnView {
        ForwardTsnView { new_cumulative_tsn: self.new_cumulative_tsn, streams: self.streams@ }
    }
}

impl View for Chunk {
    type V = ChunkView;

    open spec fn view(&self) -> ChunkView {
        match *self {
            Chunk::Init(c) => ChunkView::Init(c@),
            Chunk::Abort(c) => ChunkView::Abort(tlv_views(c.error_causes@)),
            Chunk::Error(c) => ChunkView::Error(tlv_views(c.error_causes@)),
            Chunk::Heartbeat(c) => ChunkView::Heartbeat(param_views(c.params@)),
            Chunk::HeartbeatAck(c) => ChunkView::HeartbeatAck(param_views(c.params@)),
            Chunk::CookieEcho(c) => ChunkView::CookieEcho(bytes_view(c.cookie)),
            Chunk::CookieAck => ChunkView::CookieAck,
            Chunk::PayloadData(c) => ChunkView::PayloadData(c@),
            Chunk::SelectiveAck(c) => ChunkView::SelectiveAck(c@),
            Chunk::Reconfig(c) => ChunkView::Reconfig(c@),
            Chunk::ForwardTsn(c) => ChunkView::ForwardTsn(c@),
            Chunk::Shutdown(c) => ChunkView::Shutdown(c.cumulative_tsn_ack),
            Chunk::ShutdownAck => ChunkView::ShutdownAck,
            Chunk::ShutdownComplete => ChunkView::ShutdownComplete,
        }
    }
}

/// The contents of a vector of chunks.
pub open spec fn chunk_views(cs: Seq<Chunk>) -> Seq<ChunkView> {
    cs.map_values(|c: Chunk| c@)
}

impl Clone for ChunkInit {
    fn clone(&self) -> (r: Self)
        ensures
            r@ == self@,
    {
        ChunkInit {
            is_ack: self.is_ack,
            initiate_tag: self.initiate_tag,
            advertised_receiver_window_credit: self.advertised_receiver_window_credit,
            num_outbound_streams: self.num_outbound_streams,
            num_inbound_streams: self.num_inbound_streams,
            initial_tsn: self.initial_tsn,
            params: clone_params(&self.params),
        }
    }
}

impl Clone for ChunkCookieEcho {
    fn clone(&self) -> (r: Self)
        ensures
            bytes_view(r.cookie) == bytes_view(self.cookie),
    {
        ChunkCookieEcho { cookie: bytes_clone(&self.cookie) }
    }
}

/// Clones an optional parameter.
fn clone_opt_param(p: &Option<Param>) -> (r: Option<Param>)
    ensures
        opt_param_view(r) == opt_param_view(*p),
{
    match p {
        Some(p) => Some(p.clone()),
        None => None,
    }
}

impl Clone for ChunkReconfig {
    fn clone(&self) -> (r: Self)
        ensures
            r@ == self@,
    {
        ChunkReconfig {
            param_a: clone_opt_param(&self.param_a),
            param_b: clone_opt_param(&self.param_b),
        }
    }
}

/// The parameter that announces RECONFIG and FORWARD TSN.
pub open spec fn supported_extensions() -> ParamView {
    ParamView::SupportedExtensions(seq![CT_RECONFIG, CT_FORWARD_TSN])
}

/// Whether a parameter list announces FORWARD TSN.
pub open spec fn announces_forward_tsn(ps: Seq<ParamView>) -> bool {
    exists|i: int|
        0 <= i < ps.len() && (#[trigger] ps[i] matches ParamView::SupportedExtensions(types)
            && types.contains(CT_FORWARD_TSN))
}

impl ChunkInit {
    /// Announces the extensions that this implementation supports.
    pub fn set_supported_extensions(&mut self)
        ensures
            final(self)@ == (InitView {
                params: old(self)@.params.push(supported_extensions()),
                ..old(self)@
            }),
    {
        let chunk_types: Vec<u8> = vec![CT_RECONFIG, CT_FORWARD_TSN];
        assert(chunk_types@ =~= seq![CT_RECONFIG, CT_FORWARD_TSN]);
        self.params.push(Param::SupportedExtensions(ParamSupportedExtensions { chunk_types }));
        assert(self@.params =~= old(self)@.params.push(supported_extensions()));
    }

    /// Whether the peer announces FORWARD TSN.
    pub fn supports_forward_tsn(&self) -> (r: bool)
        ensures
            r == announces_forward_tsn(self@.params),
    {
        let mut i: usize = 0;
        while i < self.params.len()
            invariant
                i <= self.params.len(),
                forall|j: int|
                    0 <= j < i ==> !(#[trigger] self@.params[j] matches
                        ParamView::SupportedExtensions(types) && types.contains(CT_FORWARD_TSN)),
            decreases self.params.len() - i,
        {
            if let Param::SupportedExtensions(v) = &self.params[i] {
                let mut k: usize = 0;
                while k < v.chunk_types.len()
                    invariant
                        k <= v.chunk_types.len(),
                        i < self.params.len(),
                        self.params@[i as int]@ == ParamView::SupportedExtensions(v.chunk_types@),
                        forall|m: int| 0 <= m < k ==> v.chunk_types@[m] != CT_FORWARD_TSN,
                    decreases v.chunk_types.len() - k,
                {
                    if v.chunk_types[k] == CT_FORWARD_TSN {
                        assert(self@.params[i as int] == self.params@[i as int]@);
                        assert(v.chunk_types@.contains(CT_FORWARD_TSN));
                        return true;
                    }
                    k += 1;
                }
            }
            assert(self@.params[i as int] == self.params@[i as int]@);
            i += 1;
        }
        false
    }
}

/// What a chunk of its own has to meet: an INIT names a tag and streams, and its sender
/// takes at least 1500 bytes.
pub open spec fn chunk_check(c: ChunkView) -> Result<(), Error> {
    match c {
        ChunkView::Init(i) => if i.initiate_tag == 0 {
            Err(Error::ErrChunkTypeInitInitateTagZero)
        } else if i.num_inbound_streams == 0 {
            Err(Error::ErrInitInboundStreamRequestZero)
        } else if i.num_outbound_streams == 0 {
            Err(Error::ErrInitOutboundStreamRequestZero)
        } else if i.advertised_receiver_window_credit < 1500 {
            Err(Error::ErrInitAdvertisedReceiver1500)
        } else {
            Ok(())
        },
        _ => Ok(()),
    }
}

impl Chunk {
    /// Checks what a chunk of its own has to meet.
    pub fn check(&self) -> (r: Result<(), Error>)
        ensures
            r == chunk_check(self@),
    {
        match self {
            Chunk::Init(i) => if i.initiate_tag == 0 {
                Err(Error::ErrChunkTypeInitInitateTagZero)
            } else if i.num_inbound_streams == 0 {
                Err(Error::ErrInitInboundStreamRequestZero)
            } else if i.num_outbound_streams == 0 {
                Err(Error::ErrInitOutboundStreamRequestZero)
            } else if i.advertised_receiver_window_credit < 1500 {
                Err(Error::ErrInitAdvertisedReceiver1500)
            } else {
                Ok(())
            },
            _ => Ok(()),
        }
    }
}

/// What an error cause is called.
pub open spec fn cause_name(code: u16) -> Seq<char> {
    if code == 1 {
        "Invalid Stream Identifier"@
    } else if code == 2 {
        "Missing Mandatory Parameter"@
    } else if code == 3 {
        "Stale Cookie Error"@
    } else if code == 4 {
        "Out Of Resource"@
    } else if code == 5 {
        "Unresolvable IP"@
    } else if code == 6 {
        "Unrecognized Chunk Type"@
    } else if code == 7 {
        "Invalid Mandatory Parameter"@
    } else if code == 8 {
        "Unrecognized Parameters"@
    } else if code == 9 {
        "No User Data"@
    } else if code == 10 {
        "Cookie Received While Shutting Down"@
    } else if code == 11 {
        "Restart Of An Association With New Addresses"@
    } else if code == 12 {
        "User Initiated Abort"@
    } else if code == 13 {
        "Protocol Violation"@
    } else {
        "Unknown CauseCode: "@ + decimal(code as nat)
    }
}

/// Appends the name of an error cause.
fn append_cause(text: &mut String, code: u16)
    ensures
        final(text)@ == old(text)@ + cause_name(code),
{
    if code == 1 {
        text.append("Invalid Stream Identifier");
    } else if code == 2 {
        text.append("Missing Mandatory Parameter");
    } else if code == 3 {
        text.append("Stale Cookie Error");
    } else if code == 4 {
        text.append("Out Of Resource");
    } else if code == 5 {
        text.append("Unresolvable IP");
    } else if code == 6 {
        text.append("Unrecognized Chunk Type");
    } else if code == 7 {
        text.append("Invalid Mandatory Parameter");
    } else if code == 8 {
        text.append("Unrecognized Parameters");
    } else if code == 9 {
        text.append("No User Data");
    } else if code == 10 {
        text.append("Cookie Received While Shutting Down");
    } else if code == 11 {
        text.append("Restart Of An Association With New Addresses");
    } else if code == 12 {
        text.append("User Initiated Abort");
    } else if code == 13 {
        text.append("Protocol Violation");
    } else {
        text.append("Unknown CauseCode: ");
        append_decimal(text, code as u64);
        assert(text@ =~= old(text)@ + cause_name(code));
    }
}

/// The names of error causes, each in brackets.
pub open spec fn causes_text(causes: Seq<TlvView>) -> Seq<char>
    decreases causes.len(),
{
    if causes.len() == 0 {
        seq![]
    } else {
        causes_text(causes.drop_last()) + "("@ + cause_name(causes.last().typ) + ")"@
    }
}

/// The names of error causes, each in brackets.
pub fn describe_causes(causes: &Vec<Tlv>) -> (r: String)
    ensures
        r@ == causes_text(tlv_views(causes@)),
{
    let ghost all = tlv_views(causes@);
    let mut text = String::new();
    let mut i: usize = 0;
    assert(all.take(0) =~= seq![]);
    while i < causes.len()
        invariant
            i <= causes.len(),
            all == tlv_views(causes@),
            text@ == causes_text(all.take(i as int)),
        decreases causes.len() - i,
    {
        text.append("(");
        append_cause(&mut text, causes[i].typ);
        text.append(")");
        assert(all.take(i + 1).drop_last() =~= all.take(i as int));
        assert(all.take(i + 1).last() == causes@[i as int]@);
        i += 1;
    }
    assert(all.take(i as int) =~= all);
    text
}

/// Whether an error cause says that the peer's user asked for the ABORT.
pub open spec fn user_aborted(causes: Seq<TlvView>) -> bool {
    exists|i: int| 0 <= i < causes.len() && (#[trigger] causes[i]).typ == USER_INITIATED_ABORT
}

/// Whether an error cause says that the peer's user asked for the ABORT.
pub fn is_user_abort(causes: &Vec<Tlv>) -> (r: bool)
    ensures
        r == user_aborted(tlv_views(causes@)),
{
    let mut i: usize = 0;
    while i < causes.len()
        invariant
            i <= causes.len(),
            forall|j: int|
                0 <= j < i ==> (#[trigger] tlv_views(causes@)[j]).typ != USER_INITIATED_ABORT,
        decreases causes.len() - i,
    {
        if causes[i].typ == USER_INITIATED_ABORT {
            assert(tlv_views(causes@)[i as int].typ == USER_INITIATED_ABORT);
            return true;
        }
        i += 1;
    }
    false
}

} // verus!
