//! What an association is: its control block, its queues and its streams.

use fxhash::FxHashMap;
use std::collections::VecDeque;
use vstd::prelude::*;

use crate::association::state::{AckMode, AckState, AssociationState};
use crate::association::stats::AssociationStats;
use crate::association::stream::{StreamEvent, StreamId, StreamState, StreamView};
use crate::association::timer::{RtoManager, TimerTable};
use crate::buffer::bytes_view;
use crate::chunk::kinds::{
    ChunkCookieEcho, ChunkInit, ChunkReconfig, ChunkView, InitView, ReconfigView,
};
use crate::chunk::param::{ParamOutgoingResetRequest, ParamStateCookie, ResetRequestView};
use crate::error::{Error, ErrorView};
use crate::packet::{packet_views, CommonHeader, Packet, PacketView};
use crate::queue::payload_queue::{PayloadQueue, PayloadQueueView};
use crate::queue::pending_queue::{PendingQueue, PendingQueueView};
use crate::shared::{EndpointEventInner, IpAddr, Side, SocketAddr};

verus! {

/// Reasons why an association might be lost
#[derive(Debug, Clone, PartialEq, Eq)]
pub enum AssociationError {
    /// Handshake failed
    HandshakeFailed(Error),
    /// The peer violated the protocol as understood by this implementation
    TransportError,
    /// The peer's stack aborted the association automatically
    AssociationClosed,
    /// The peer closed the association
    ApplicationClosed,
    /// The peer is unable to continue processing this association, usually due to having restarted
    Reset,
    /// Communication with the peer has lapsed for longer than the negotiated idle timeout
    ///
    /// If neither side is sending keep-alives, an association will time out after a long enough
    /// idle period even if the peer is still reachable
    TimedOut,
    /// The local application closed the association
    LocallyClosed,
}

/// Events of interest to the application
#[derive(Debug)]
pub enum Event {
    /// The association was successfully established
    Connected,
    /// The association was lost
    ///
    /// Emitted if the peer closes the association or an error is encountered.
    AssociationLost {
        /// Reason that the association was closed
        reason: AssociationError,
    },
    /// Stream events
    Stream(StreamEvent),
    /// One or more application datagrams have been received
    DatagramReceived,
}

/// What is settled when an association is made, and how many bytes went either way.
#[derive(Debug, Clone, Copy)]
pub struct Settings {
    pub side: Side,
    pub my_verification_tag: u32,
    pub max_message_size: u32,
    pub max_receive_buffer_size: u32,
    pub mtu: u32,
    /// The most user data that a DATA chunk may hold.
    pub max_payload_size: u32,
    pub remote_addr: SocketAddr,
    pub local_ip: Option<IpAddr>,
    pub bytes_received: usize,
    pub bytes_sent: usize,
    pub ack_mode: AckMode,
}

/// What the handshake settles with the peer.
#[derive(Debug, Clone, Copy)]
pub struct Agreement {
    pub peer_verification_tag: u32,
    pub source_port: u16,
    pub destination_port: u16,
    pub my_max_num_inbound_streams: u16,
    pub my_max_num_outbound_streams: u16,
    pub use_forward_tsn: bool,
}

/// Where the receiver of data stands.
#[derive(Debug, Clone, Copy)]
pub struct Receiver {
    /// The last TSN that was received without a gap.
    pub peer_last_tsn: u32,
    /// What the packet that is being received calls for.
    pub delayed_ack_triggered: bool,
    pub immediate_ack_triggered: bool,
    pub ack_state: AckState,
}

/// Where the sender of data stands.
#[derive(Debug, Clone, Copy)]
pub struct Sender {
    pub my_next_tsn: u32,
    pub my_next_rsn: u32,
    /// The first TSN that a round trip may be measured with.
    pub min_tsn2measure_rtt: u32,
    /// The last TSN that the peer acknowledged without a gap.
    pub cumulative_tsn_ack_point: u32,
    /// The same, over data that is given up.
    pub advanced_peer_tsn_ack_point: u32,
}

/// Congestion control.
#[derive(Debug, Clone, Copy)]
pub struct Congestion {
    /// The congestion window.
    pub cwnd: u32,
    /// The peer's receiver window, as far as it is known.
    pub rwnd: u32,
    /// The slow start threshold.
    pub ssthresh: u32,
    pub partial_bytes_acked: u32,
    pub in_fast_recovery: bool,
    pub fast_recover_exit_point: u32,
}

/// What goes out with the next packets.
#[derive(Debug, Clone, Copy)]
pub struct Owed {
    pub will_send_forward_tsn: bool,
    pub will_retransmit_fast: bool,
    pub will_retransmit_reconfig: bool,
    pub will_send_shutdown: bool,
    pub will_send_shutdown_ack: bool,
    pub will_send_shutdown_complete: bool,
}

/// The control block of an association.
#[derive(Debug, Clone, Copy)]
pub struct Tcb {
    pub conf: Settings,
    pub state: AssociationState,
    pub handshake_completed: bool,
    /// Whether the association was closed.
    pub is_over: bool,
    pub peer: Agreement,
    pub rx: Receiver,
    pub tx: Sender,
    pub cc: Congestion,
    pub owed: Owed,
    pub rto_mgr: RtoManager,
    pub timers: TimerTable,
    pub stats: AssociationStats,
}

/// An SCTP association.
#[derive(Debug)]
pub struct Association {
    pub tcb: Tcb,
    /// Requests of this end to reset streams, by their sequence numbers.
    pub reconfigs: FxHashMap<u32, ChunkReconfig>,
    /// Requests of the peer to reset streams, by their sequence numbers.
    pub reconfig_requests: FxHashMap<u32, ParamOutgoingResetRequest>,
    pub my_cookie: Option<ParamStateCookie>,
    /// Chunks that were received behind a gap.
    pub payload_queue: PayloadQueue,
    /// Chunks that were sent and are not acknowledged.
    pub inflight_queue: PayloadQueue,
    /// Chunks that were not sent yet.
    pub pending_queue: PendingQueue,
    pub control_queue: VecDeque<Packet>,
    /// Streams that the peer opened and the user did not accept yet.
    pub stream_queue: VecDeque<StreamId>,
    pub stored_init: Option<ChunkInit>,
    pub stored_cookie_echo: Option<ChunkCookieEcho>,
    pub streams: FxHashMap<StreamId, StreamState>,
    pub events: VecDeque<Event>,
    pub endpoint_events: VecDeque<EndpointEventInner>,
    pub error: Option<AssociationError>,
}

/// The content of an [`Association`].
pub struct AssociationView {
    pub tcb: Tcb,
    pub reconfigs: Map<u32, ReconfigView>,
    pub reconfig_requests: Map<u32, ResetRequestView>,
    pub my_cookie: Option<Seq<u8>>,
    pub payload_queue: PayloadQueueView,
    pub inflight_queue: PayloadQueueView,
    pub pending_queue: PendingQueueView,
    pub control_queue: Seq<PacketView>,
    pub stream_queue: Seq<StreamId>,
    pub stored_init: Option<InitView>,
    pub stored_cookie_echo: Option<Seq<u8>>,
    pub streams: Map<StreamId, StreamView>,
    pub events: Seq<Event>,
    pub endpoint_events: Seq<EndpointEventInner>,
    pub error: Option<AssociationError>,
}

/// What a chunk is answered with: packets to be sent, or an error.
pub type ReplyView = Result<Seq<PacketView>, ErrorView>;

/// The contents of RECONFIG chunks.
pub open spec fn reconfig_views(m: Map<u32, ChunkReconfig>) -> Map<u32, ReconfigView> {
    m.map_values(|c: ChunkReconfig| c@)
}

/// The contents of requests to reset streams.
pub open spec fn request_views(m: Map<u32, ParamOutgoingResetRequest>) -> Map<
    u32,
    ResetRequestView,
> {
    m.map_values(|c: ParamOutgoingResetRequest| c@)
}

/// The contents of streams.
pub open spec fn stream_views(m: Map<u16, StreamState>) -> Map<u16, StreamView> {
    m.map_values(|s: StreamState| s@)
}

/// The content of a stored INIT.
pub open spec fn init_view(c: Option<ChunkInit>) -> Option<InitView> {
    match c {
        Some(c) => Some(c@),
        None => None,
    }
}

/// The cookie of a stored COOKIE ECHO.
pub open spec fn echo_view(c: Option<ChunkCookieEcho>) -> Option<Seq<u8>> {
    match c {
        Some(c) => Some(bytes_view(c.cookie)),
        None => None,
    }
}

/// The cookie of a parameter.
pub open spec fn cookie_view(c: Option<ParamStateCookie>) -> Option<Seq<u8>> {
    match c {
        Some(c) => Some(bytes_view(c.cookie)),
        None => None,
    }
}

/// The content of an answer.
pub open spec fn reply_view(r: Result<Vec<Packet>, Error>) -> ReplyView {
    match r {
        Ok(ps) => Ok(packet_views(ps@)),
        Err(e) => Err(e@),
    }
}

/// An answer without packets.
pub open spec fn no_packets() -> ReplyView {
    Ok(seq![])
}

/// An error as an answer.
pub open spec fn refused(e: Error) -> ReplyView {
    Err(ErrorView::Plain(e))
}

impl View for Association {
    type V = AssociationView;

    open spec fn view(&self) -> AssociationView {
        AssociationView {
            tcb: self.tcb,
            reconfigs: reconfig_views(self.reconfigs@),
            reconfig_requests: request_views(self.reconfig_requests@),
            my_cookie: cookie_view(self.my_cookie),
            payload_queue: self.payload_queue@,
            inflight_queue: self.inflight_queue@,
            pending_queue: self.pending_queue@,
            control_queue: packet_views(self.control_queue@),
            stream_queue: self.stream_queue@,
            stored_init: init_view(self.stored_init),
            stored_cookie_echo: echo_view(self.stored_cookie_echo),
            streams: stream_views(self.streams@),
            events: self.events@,
            endpoint_events: self.endpoint_events@,
            error: self.error,
        }
    }
}

impl AssociationView {
    /// The queues are well-formed, and the bytes that wait to be acknowledged or sent can be
    /// counted.
    pub open spec fn wf(self) -> bool {
        &&& self.payload_queue.wf()
        &&& self.inflight_queue.wf()
        &&& self.pending_queue.wf()
        &&& self.pending_queue.n_bytes + self.inflight_queue.n_bytes <= usize::MAX
    }

    /// The association with another control block.
    pub open spec fn with(self, tcb: Tcb) -> AssociationView {
        AssociationView { tcb, ..self }
    }

    /// The header of packets to the peer.
    pub open spec fn header(self) -> CommonHeader {
        CommonHeader {
            verification_tag: self.tcb.peer.peer_verification_tag,
            source_port: self.tcb.peer.source_port,
            destination_port: self.tcb.peer.destination_port,
        }
    }

    /// A packet to the peer.
    pub open spec fn packet(self, chunks: Seq<ChunkView>) -> PacketView {
        PacketView { common_header: self.header(), chunks }
    }

    /// The association with its state changed.
    pub open spec fn in_state(self, state: AssociationState) -> AssociationView {
        self.with(Tcb { state, ..self.tcb })
    }

    /// The association with the receiver of data moved.
    pub open spec fn with_rx(self, rx: Receiver) -> AssociationView {
        self.with(Tcb { rx, ..self.tcb })
    }

    /// The association with the sender of data moved.
    pub open spec fn with_tx(self, tx: Sender) -> AssociationView {
        self.with(Tcb { tx, ..self.tcb })
    }

    /// The association with something else owed.
    pub open spec fn with_owed(self, owed: Owed) -> AssociationView {
        self.with(Tcb { owed, ..self.tcb })
    }

    /// The association with other windows.
    pub open spec fn with_cc(self, cc: Congestion) -> AssociationView {
        self.with(Tcb { cc, ..self.tcb })
    }

    /// The association with its timers changed.
    pub open spec fn with_timers(self, timers: TimerTable) -> AssociationView {
        self.with(Tcb { timers, ..self.tcb })
    }

    /// The association with a packet put behind the ones that wait to be sent.
    pub open spec fn enqueue(self, p: PacketView) -> AssociationView {
        AssociationView { control_queue: self.control_queue.push(p), ..self }
    }

    /// The association with an event reported.
    pub open spec fn notify(self, e: Event) -> AssociationView {
        AssociationView { events: self.events.push(e), ..self }
    }
}

} // verus!
