//! What a packet does.

use bytes::Bytes;
use vstd::prelude::*;

use crate::association::handshake::no_reply;
use crate::association::received::{lemma_decoded_data, lemma_dispatch_received};
use crate::association::lifecycle::{shutdown_acked, shutdown_received};
use crate::association::state::AckState;
use crate::association::timer::{Timer, ACK_INTERVAL};
use crate::association::user::count_bytes;
use crate::association::view::{
    no_packets, refused, reply_view, Association, AssociationError, AssociationView, Receiver,
    ReplyView, Tcb,
};
use crate::buffer::{bytes_len, bytes_new, bytes_view};
use crate::chunk::kinds::{
    causes_text, chunk_check, describe_causes, is_user_abort, user_aborted, Chunk, ChunkView,
};
use crate::chunk::payload::Instant;
use crate::chunk::tlv::{tlv_views, Tlv, TlvView};
use crate::config::COMMON_HEADER_SIZE;
use crate::error::{Error, ErrorView};
use crate::packet::{
    chunks_decode, is_init, packet_check, packet_views, CommonHeader, Packet, PacketView,
};
use crate::random::random_cookie;
use crate::shared::{AssociationEvent, AssociationEventInner, Payload};

verus! {

/// The outcome of a chunk or a packet.
pub type OutcomeView = Result<(), ErrorView>;

/// The content of an outcome.
pub open spec fn outcome_view(r: Result<(), Error>) -> OutcomeView {
    match r {
        Ok(_) => Ok(()),
        Err(e) => Err(e@),
    }
}

/// The bytes of user data of a chunk.
pub open spec fn chunk_data(c: ChunkView) -> nat {
    match c {
        ChunkView::PayloadData(d) => d.user_data.len(),
        _ => 0,
    }
}

/// The bytes of user data of the chunks from `k` on.
pub open spec fn data_from(cs: Seq<ChunkView>, k: int) -> nat
    decreases cs.len() - k,
{
    if k >= cs.len() {
        0
    } else {
        chunk_data(cs[k]) + data_from(cs, k + 1)
    }
}

/// The acknowledgement that a packet called for: at once, or when the timer expires.
#[verifier::opaque]
pub open spec fn ack_scheduled(t: Tcb, now: Instant) -> Tcb {
    if t.rx.immediate_ack_triggered {
        Tcb {
            rx: Receiver { ack_state: AckState::Immediate, ..t.rx },
            timers: t.timers.stopped(Timer::Ack),
            ..t
        }
    } else if t.rx.delayed_ack_triggered {
        Tcb {
            rx: Receiver { ack_state: AckState::Delay, ..t.rx },
            timers: t.timers.started(Timer::Ack, now, ACK_INTERVAL),
            ..t
        }
    } else {
        t
    }
}

/// Nothing is called for yet.
pub open spec fn nothing_called_for(t: Tcb) -> Tcb {
    Tcb {
        rx: Receiver { delayed_ack_triggered: false, immediate_ack_triggered: false, ..t.rx },
        ..t
    }
}

/// The error of an ABORT or ERROR chunk.
pub open spec fn aborted(causes: Seq<TlvView>) -> ReplyView {
    Err(ErrorView::AbortChunk(causes_text(causes)))
}

/// Why an association is lost that closes on an error: the peer reported one, or it violated the
/// protocol.
pub open spec fn lost_for(e: ErrorView) -> AssociationError {
    match e {
        ErrorView::AbortChunk(_) => AssociationError::AssociationClosed,
        ErrorView::Plain(_) => AssociationError::TransportError,
    }
}

/// Why an association is lost that closes on an error.
fn reason_for(e: &Error) -> (r: AssociationError)
    ensures
        r == lost_for(e@),
{
    match e {
        Error::ErrAbortChunk(_) => AssociationError::AssociationClosed,
        _ => AssociationError::TransportError,
    }
}

impl AssociationView {
    /// The association with packets put behind the ones that wait.
    pub open spec fn enqueue_all(self, ps: Seq<PacketView>) -> AssociationView {
        AssociationView { control_queue: self.control_queue + ps, ..self }
    }

    /// What a chunk does, by its kind. `fresh` is the cookie of an association that has none yet.
    #[verifier::opaque]
    pub open spec fn dispatch(
        self,
        h: CommonHeader,
        c: ChunkView,
        now: Instant,
        fresh: Seq<u8>,
    ) -> (AssociationView, ReplyView) {
        match c {
            ChunkView::Init(i) => if i.is_ack {
                self.handle_init_ack(h, i, now)
            } else {
                self.handle_init(h, i, fresh)
            },
            ChunkView::Abort(causes) => if user_aborted(causes) {
                (self.close_for(AssociationError::ApplicationClosed), no_packets())
            } else {
                (self, aborted(causes))
            },
            ChunkView::Error(causes) => (self, aborted(causes)),
            ChunkView::Heartbeat(ps) => (self, self.heartbeat_reply(ps)),
            ChunkView::HeartbeatAck(_) => (self, refused(Error::ErrChunkTypeUnhandled)),
            ChunkView::CookieEcho(cookie) => self.handle_cookie_echo(cookie),
            ChunkView::CookieAck => (self.handle_cookie_ack(), no_packets()),
            ChunkView::PayloadData(d) => self.handle_data(d),
            ChunkView::SelectiveAck(d) => self.handle_sack(d, now),
            ChunkView::Reconfig(c) => self.handle_reconfig(c),
            ChunkView::ForwardTsn(c) => self.handle_forward_tsn(c),
            ChunkView::Shutdown(_) => (
                self.with(shutdown_received(self.tcb, self.idle())),
                no_packets(),
            ),
            ChunkView::ShutdownAck => (self.with(shutdown_acked(self.tcb)), no_packets()),
            ChunkView::ShutdownComplete => (self.handle_shutdown_complete(), no_packets()),
        }
    }

    /// What a chunk does: one that fails its check does nothing, and the packets that answer
    /// any other wait to be sent.
    #[verifier::opaque]
    pub open spec fn handle_chunk(
        self,
        h: CommonHeader,
        c: ChunkView,
        now: Instant,
        fresh: Seq<u8>,
    ) -> (AssociationView, OutcomeView) {
        match chunk_check(c) {
            Err(e) => (self, Err(ErrorView::Plain(e))),
            Ok(_) => {
                let (s, r) = self.dispatch(h, c, now, fresh);
                match r {
                    Err(e) => (s, Err(e)),
                    Ok(ps) => (s.enqueue_all(ps), Ok(())),
                }
            },
        }
    }

    /// What the chunks from `k` on do, up to the first error.
    pub open spec fn handle_chunks(
        self,
        p: PacketView,
        k: int,
        now: Instant,
        fresh: Seq<u8>,
    ) -> (AssociationView, OutcomeView)
        decreases p.chunks.len() - k,
    {
        if k >= p.chunks.len() {
            (self, Ok(()))
        } else {
            let (s, r) = self.handle_chunk(p.common_header, p.chunks[k], now, fresh);
            match r {
                Err(e) => (s, Err(e)),
                Ok(_) => s.handle_chunks(p, k + 1, now, fresh),
            }
        }
    }

    /// What a packet does: one that fails its check does nothing.
    #[verifier::opaque]
    pub open spec fn handle_packet(
        self,
        p: PacketView,
        now: Instant,
        fresh: Seq<u8>,
    ) -> (AssociationView, OutcomeView) {
        if packet_check(p) is Err {
            (self, Ok(()))
        } else {
            let (s, r) = self.with(nothing_called_for(self.tcb)).handle_chunks(p, 0, now, fresh);
            match r {
                Err(e) => (s, Err(e)),
                Ok(_) => (s.with(ack_scheduled(s.tcb, now)), Ok(())),
            }
        }
    }

    /// What a packet does to an association that closes on an error.
    #[verifier::opaque]
    pub open spec fn receive(
        self,
        p: PacketView,
        now: Instant,
        fresh: Seq<u8>,
    ) -> AssociationView {
        let (s, r) = self.handle_packet(p, now, fresh);
        match r {
            Ok(_) => s,
            Err(e) => s.close_for(lost_for(e)),
        }
    }
}

/// Schedules the acknowledgement that a packet called for.
fn schedule_ack(t: &mut Tcb, now: Instant)
    ensures
        *final(t) == ack_scheduled(*old(t), now),
{
    reveal(ack_scheduled);
    if t.rx.immediate_ack_triggered {
        t.rx.ack_state = AckState::Immediate;
        t.timers.stop(Timer::Ack);
    } else if t.rx.delayed_ack_triggered {
        // Will send delayed ack in the next ack timeout
        t.rx.ack_state = AckState::Delay;
        t.timers.start(Timer::Ack, now, ACK_INTERVAL);
    }
}

/// The error of an ABORT or ERROR chunk.
fn abort_error(causes: &Vec<Tlv>) -> (r: Result<Vec<Packet>, Error>)
    ensures
        reply_view(r) == aborted(tlv_views(causes@)),
{
    Err(Error::ErrAbortChunk(describe_causes(causes)))
}

impl Association {
    /// Handles an ABORT chunk.
    fn handle_abort(&mut self, causes: &Vec<Tlv>) -> (r: Result<Vec<Packet>, Error>)
        requires
            old(self)@.wf(),
        ensures
            (final(self)@, reply_view(r)) == (if user_aborted(tlv_views(causes@)) {
                (old(self)@.close_for(AssociationError::ApplicationClosed), no_packets())
            } else {
                (old(self)@, aborted(tlv_views(causes@)))
            }),
            final(self)@.wf(),
    {
        if is_user_abort(causes) {
            self.close_for(AssociationError::ApplicationClosed);
            return no_reply();
        }
        abort_error(causes)
    }

    /// Handles a chunk by its kind.
    fn dispatch(&mut self, p: &Packet, chunk: &Chunk, now: Instant, fresh: &Bytes) -> (r: Result<
        Vec<Packet>,
        Error,
    >)
        requires
            old(self)@.wf(),
            old(self)@.payload_queue.n_bytes + chunk_data(chunk@) <= usize::MAX,
        ensures
            (final(self)@, reply_view(r)) == old(self)@.dispatch(
                p@.common_header,
                chunk@,
                now,
                bytes_view(*fresh),
            ),
            final(self)@.wf(),
    {
        reveal(AssociationView::dispatch);
        match chunk {
            Chunk::Init(c) => if c.is_ack {
                self.handle_init_ack(p, c, now)
            } else {
                self.handle_init(p, c, fresh)
            },
            Chunk::Abort(c) => self.handle_abort(&c.error_causes),
            Chunk::Error(c) => abort_error(&c.error_causes),
            Chunk::Heartbeat(c) => self.handle_heartbeat(c),
            Chunk::HeartbeatAck(_) => Err(Error::ErrChunkTypeUnhandled),
            Chunk::CookieEcho(c) => self.handle_cookie_echo(c),
            Chunk::CookieAck => self.handle_cookie_ack(),
            Chunk::PayloadData(c) => self.handle_data(c),
            Chunk::SelectiveAck(c) => self.handle_sack(c, now),
            Chunk::Reconfig(c) => self.handle_reconfig(c),
            Chunk::ForwardTsn(c) => self.handle_forward_tsn(c),
            Chunk::Shutdown(_) => self.handle_shutdown(),
            Chunk::ShutdownAck => self.handle_shutdown_ack(),
            Chunk::ShutdownComplete => self.handle_shutdown_complete(),
        }
    }

    /// Puts packets behind the ones that wait.
    fn enqueue_all(&mut self, packets: Vec<Packet>)
        requires
            old(self)@.wf(),
        ensures
            final(self)@ == old(self)@.enqueue_all(packet_views(packets@)),
            final(self)@.wf(),
    {
        let ghost all = packets@;
        let ghost q = self@.control_queue;
        let mut rest = packets;
        let n = rest.len();
        let mut k: usize = 0;
        assert(all.skip(0) =~= all);
        assert(q + packet_views(all.take(0)) =~= q);
        while k < n
            invariant
                k <= n,
                n == all.len(),
                rest@ == all.skip(k as int),
                self@.wf(),
                self@ == (AssociationView {
                    control_queue: q + packet_views(all.take(k as int)),
                    ..old(self)@
                }),
            decreases n - k,
        {
            let p = rest.remove(0);
            assert(p == all[k as int]);
            assert(rest@ =~= all.skip(k + 1));
            self.enqueue(p);
            assert(self@.control_queue =~= q + packet_views(all.take(k + 1)));
            k += 1;
        }
        assert(all.take(k as int) =~= all);
    }

    /// Handles a chunk. `fresh` is the cookie of an association that has none yet.
    pub fn handle_chunk(&mut self, p: &Packet, chunk: &Chunk, now: Instant, fresh: &Bytes) -> (r:
        Result<(), Error>)
        requires
            old(self)@.wf(),
            old(self)@.payload_queue.n_bytes + chunk_data(chunk@) <= usize::MAX,
        ensures
            (final(self)@, outcome_view(r)) == old(self)@.handle_chunk(
                p@.common_header,
                chunk@,
                now,
                bytes_view(*fresh),
            ),
            final(self)@.payload_queue.n_bytes <= old(self)@.payload_queue.n_bytes + chunk_data(
                chunk@,
            ),
            final(self)@.wf(),
    {
        reveal(AssociationView::handle_chunk);
        if let Err(e) = chunk.check() {
            return Err(e);
        }
        proof {
            lemma_dispatch_received(
                self@,
                p@.common_header,
                chunk@,
                now,
                bytes_view(*fresh),
            );
        }
        match self.dispatch(p, chunk, now, fresh) {
            Ok(packets) => {
                self.enqueue_all(packets);
                Ok(())
            },
            Err(e) => Err(e),
        }
    }

    /// Handles the chunks of a packet.
    fn handle_all_chunks(&mut self, p: &Packet, now: Instant, fresh: &Bytes) -> (r: Result<
        (),
        Error,
    >)
        requires
            old(self)@.wf(),
            old(self)@.payload_queue.n_bytes + data_from(p@.chunks, 0) <= usize::MAX,
        ensures
            (final(self)@, outcome_view(r)) == old(self)@.handle_chunks(
                p@,
                0,
                now,
                bytes_view(*fresh),
            ),
            final(self)@.wf(),
    {
        let ghost want = self@.handle_chunks(p@, 0, now, bytes_view(*fresh));
        let mut k: usize = 0;
        while k < p.chunks.len()
            invariant
                k <= p.chunks.len(),
                self@.wf(),
                self@.payload_queue.n_bytes + data_from(p@.chunks, k as int) <= usize::MAX,
                want == self@.handle_chunks(p@, k as int, now, bytes_view(*fresh)),
                want == old(self)@.handle_chunks(p@, 0, now, bytes_view(*fresh)),
            decreases p.chunks.len() - k,
        {
            assert(p@.chunks[k as int] == p.chunks@[k as int]@);
            if let Err(e) = self.handle_chunk(p, &p.chunks[k], now, fresh) {
                return Err(e);
            }
            k += 1;
        }
        Ok(())
    }

    /// Handles a packet. `fresh` is the cookie of an association that has none yet.
    pub fn handle_inbound_with(&mut self, p: &Packet, now: Instant, fresh: &Bytes) -> (r: Result<
        (),
        Error,
    >)
        requires
            old(self)@.wf(),
            old(self)@.payload_queue.n_bytes + data_from(p@.chunks, 0) <= usize::MAX,
        ensures
            (final(self)@, outcome_view(r)) == old(self)@.handle_packet(
                p@,
                now,
                bytes_view(*fresh),
            ),
            final(self)@.wf(),
    {
        reveal(AssociationView::handle_packet);
        if p.check_packet().is_err() {
            return Ok(());
        }
        self.tcb.rx.delayed_ack_triggered = false;
        self.tcb.rx.immediate_ack_triggered = false;
        if let Err(e) = self.handle_all_chunks(p, now, fresh) {
            return Err(e);
        }
        schedule_ack(&mut self.tcb, now);
        Ok(())
    }

    /// The cookie for a packet: a fresh one if the packet asks for the first one.
    fn cookie_for(&self, p: &Packet) -> (r: Bytes)
        ensures
            self@.needs_cookie(p@) ==> bytes_view(r).len() == 32,
    {
        if self.my_cookie.is_none() && p.chunks.len() > 0 {
            assert(p@.chunks[0] == p.chunks@[0]@);
            if let Chunk::Init(i) = &p.chunks[0] {
                if !i.is_ack {
                    return random_cookie();
                }
            }
        }
        bytes_new()
    }

    /// Handles a packet. A packet that asks for the first cookie gets a random one.
    pub fn handle_inbound(&mut self, p: &Packet, now: Instant) -> (r: Result<(), Error>)
        requires
            old(self)@.wf(),
            old(self)@.payload_queue.n_bytes + data_from(p@.chunks, 0) <= usize::MAX,
        ensures
            exists|fresh: Seq<u8>|
                old(self)@.fresh_for(p@, fresh) && (final(self)@, outcome_view(r))
                    == #[trigger] old(self)@.handle_packet(p@, now, fresh),
            final(self)@.wf(),
    {
        let fresh = self.cookie_for(p);
        assert(self@.fresh_for(p@, bytes_view(fresh)));
        self.handle_inbound_with(p, now, &fresh)
    }

    /// Handles a packet, and closes the association on an error.
    fn receive(&mut self, p: &Packet, now: Instant)
        requires
            old(self)@.wf(),
            old(self)@.payload_queue.n_bytes + data_from(p@.chunks, 0) <= usize::MAX,
        ensures
            old(self)@.may_become(p@, now, final(self)@),
            final(self)@.wf(),
    {
        reveal(AssociationView::receive);
        let r = self.handle_inbound(p, now);
        let ghost s = self@;
        let ghost fresh = choose|fresh: Seq<u8>|
            old(self)@.fresh_for(p@, fresh) && (s, outcome_view(r)) == #[trigger] old(
                self,
            )@.handle_packet(p@, now, fresh);
        if let Err(e) = &r {
            let reason = reason_for(e);
            self.close_for(reason);
        }
        assert(self@ == old(self)@.receive(p@, now, fresh));
    }

    /// Process `AssociationEvent`s generated by the associated `Endpoint`
    ///
    /// Will execute protocol logic upon receipt of an association event, in turn preparing signals
    /// (including application `Event`s, `EndpointEvent`s and outgoing datagrams) that should be
    /// extracted through the relevant methods.
    pub fn handle_event(&mut self, event: AssociationEvent)
        requires
            old(self)@.wf(),
            event_fits(event, old(self)@.payload_queue.n_bytes),
        ensures
            ({
                let s = old(self)@.with_received(event_bytes(event));
                match event_packet(event) {
                    Some((p, now)) => s.may_become(p, now, final(self)@),
                    None => final(self)@ == s,
                }
            }),
            final(self)@.wf(),
    {
        match event.0 {
            AssociationEventInner::Datagram(transmit) => {
                let now = transmit.now;
                match transmit.payload {
                    Payload::PartialDecode(partial_decode) => {
                        proof {
                            lemma_decoded_data(bytes_view(partial_decode.remaining));
                        }
                        let count = count_bytes(
                            self.tcb.conf.bytes_received,
                            COMMON_HEADER_SIZE as usize,
                        );
                        self.tcb.conf.bytes_received = count_bytes(
                            count,
                            bytes_len(&partial_decode.remaining),
                        );
                        match partial_decode.finish() {
                            Ok(p) => {
                                assert(event_packet(event) == Some((p@, now)));
                                self.receive(&p, now);
                            },
                            Err(_) => {
                                assert(event_packet(event) is None);
                            },
                        }
                    },
                    Payload::RawEncode(_) => {
                        assert(event_packet(event) is None);
                    },
                }
            },
        }
    }
}

/// The packet that an event carries, if it carries one that can be read, and when it came.
pub open spec fn event_packet(event: AssociationEvent) -> Option<(PacketView, Instant)> {
    match event.0 {
        AssociationEventInner::Datagram(t) => match t.payload {
            Payload::PartialDecode(d) => match chunks_decode(bytes_view(d.remaining)) {
                Ok(chunks) => Some(
                    (PacketView { common_header: d.common_header, chunks }, t.now),
                ),
                Err(_) => None,
            },
            Payload::RawEncode(_) => None,
        },
    }
}

/// The size of the datagram that an event carries.
pub open spec fn event_bytes(event: AssociationEvent) -> nat {
    match event.0 {
        AssociationEventInner::Datagram(t) => match t.payload {
            Payload::PartialDecode(d) => 12 + bytes_view(d.remaining).len(),
            Payload::RawEncode(_) => 0,
        },
    }
}

/// Whether the bytes that an event carries can be counted beside `n` others.
pub open spec fn event_fits(event: AssociationEvent, n: nat) -> bool {
    match event.0 {
        AssociationEventInner::Datagram(t) => match t.payload {
            Payload::PartialDecode(d) => n + bytes_view(d.remaining).len() <= usize::MAX,
            Payload::RawEncode(_) => true,
        },
    }
}

impl AssociationView {
    /// Whether a packet asks for the first cookie.
    pub open spec fn needs_cookie(self, p: PacketView) -> bool {
        self.my_cookie is None && p.chunks.len() > 0 && is_init(p.chunks[0])
    }

    /// Whether a packet can lead to `s`: with some cookie, where it asks for one.
    pub open spec fn may_become(self, p: PacketView, now: Instant, s: AssociationView) -> bool {
        exists|fresh: Seq<u8>|
            self.fresh_for(p, fresh) && s == #[trigger] self.receive(p, now, fresh)
    }

    /// Whether `fresh` can be the cookie for a packet: 32 bytes, where one is asked for.
    pub open spec fn fresh_for(self, p: PacketView, fresh: Seq<u8>) -> bool {
        self.needs_cookie(p) ==> fresh.len() == 32
    }
}

} // verus!
