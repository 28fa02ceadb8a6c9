//! What holds of the end of streams and associations.

use vstd::prelude::*;

use crate::association::inbound::lost_for;
use crate::association::laws_sack::takes_sacks;
use crate::association::lifecycle::{shutdown_acked, shutdown_begun, shutdown_received};
use crate::association::receive::{reset_response, Replied};
use crate::association::state::AssociationState;
use crate::association::view::{AssociationError, AssociationView, Event};
use crate::chunk::codec::{chunk_encode, chunk_value};
use crate::chunk::kinds::{user_aborted, ChunkView};
use crate::chunk::param::{ReconfigResult, ResetRequestView};
use crate::chunk::payload::{Instant, PayloadProtocolIdentifier};
use crate::chunk::tlv::TlvView;
use crate::packet::{append_chunks, packet_encode, CommonHeader, PacketView};
use crate::util::upto32;

verus! {

/// Closing an association stops its timers and closes its streams. Closing it again changes
/// nothing.
pub proof fn law_close_ends_all(s: AssociationView)
    ensures
        s.close().close() == s.close(),
        s.close().tcb.state == AssociationState::Closed,
        s.tcb.state != AssociationState::Closed ==> s.close().streams.dom().is_empty()
            && s.close().tcb.timers.first_deadline() is None,
{
    reveal(AssociationView::close_for);
}

/// The application hears of every association that becomes closed: behind the events that wait
/// comes an `AssociationLost` with the reason, or with the one that waited before. The
/// association is no longer in its handshake then.
pub proof fn law_closing_is_reported(s: AssociationView, reason: AssociationError)
    requires
        s.tcb.state != AssociationState::Closed,
    ensures
        s.close_for(reason).tcb.is_over,
        s.close_for(reason).events == s.events,
        s.error is None ==> s.close_for(reason).error == Some(reason),
        s.error is Some ==> s.close_for(reason).error == s.error,
        s.events.len() == 0 && s.error is None ==> {
            &&& s.close_for(reason).next_event() == Some(Event::AssociationLost { reason })
            &&& s.close_for(reason).polled().next_event() is None
        },
{
    reveal(AssociationView::close_for);
}

/// The peer closes an association by an ABORT of its user, or by a SHUTDOWN COMPLETE at the end of
/// a shutdown, and the application hears it.
pub proof fn law_close_by_peer_is_reported(
    s: AssociationView,
    h: CommonHeader,
    causes: Seq<TlvView>,
    now: Instant,
    fresh: Seq<u8>,
)
    requires
        s.tcb.state != AssociationState::Closed,
        s.error is None,
    ensures
        user_aborted(causes) ==> {
            let t = s.dispatch(h, ChunkView::Abort(causes), now, fresh).0;
            &&& t.tcb.state == AssociationState::Closed
            &&& t.error == Some(AssociationError::ApplicationClosed)
        },
        s.tcb.state == AssociationState::ShutdownAckSent ==> {
            let t = s.dispatch(h, ChunkView::ShutdownComplete, now, fresh).0;
            &&& t.tcb.state == AssociationState::Closed
            &&& t.error == Some(AssociationError::ApplicationClosed)
        },
{
    reveal(AssociationView::dispatch);
    reveal(AssociationView::handle_shutdown_complete);
    reveal(AssociationView::close_for);
}

/// A packet that ends in an error closes the association, and the application hears whether the
/// peer reported the error or made it.
pub proof fn law_error_closes(s: AssociationView, p: PacketView, now: Instant, fresh: Seq<u8>)
    ensures
        s.handle_packet(p, now, fresh).1 matches Err(e) ==> {
            let before = s.handle_packet(p, now, fresh).0;
            let after = s.receive(p, now, fresh);
            &&& after.tcb.state == AssociationState::Closed
            &&& before.tcb.state != AssociationState::Closed && before.error is None ==> after.error
                == Some(lost_for(e))
        },
{
    reveal(AssociationView::receive);
    reveal(AssociationView::close_for);
}

/// A closed association sends the packets that still wait, and nothing after them.
pub proof fn law_closed_sends_what_waits(s: AssociationView, now: Instant)
    requires
        s.tcb.state == AssociationState::Closed,
    ensures
        s.gather_outbound(now).0 == s.gather_control(),
        s.gather_outbound(now).0.s.gather_outbound(now).0.raws.len() == 0,
{
    reveal(AssociationView::gather_outbound);
}

proof fn lemma_bare_packet(s: AssociationView, c: ChunkView)
    requires
        c is ShutdownAck || c is ShutdownComplete,
    ensures
        packet_encode(s.packet(seq![c])) is Ok,
{
    reveal(chunk_value);
    let p = s.packet(seq![c]);
    assert(p.chunks.drop_first() =~= seq![]);
    assert(chunk_encode(c) is Ok);
    reveal_with_fuel(append_chunks, 2);
}

/// Two established associations without data in flight go through a shutdown: the first sends a
/// SHUTDOWN, the second answers with a SHUTDOWN ACK, the first completes it and is to be closed,
/// and the second is then closed.
pub proof fn law_shutdown_ends_both(
    a: AssociationView,
    b: AssociationView,
    h: CommonHeader,
    now: Instant,
    fresh: Seq<u8>,
)
    requires
        a.tcb.state == AssociationState::Established,
        a.idle(),
        !a.tcb.owed.will_send_shutdown_ack,
        b.tcb.state == AssociationState::Established,
        b.idle(),
        !b.tcb.owed.will_send_shutdown,
    ensures
        ({
            let a1 = a.shutdown();
            let a2 = a1.gather_shutdown(seq![], now).0.s;
            let b1 = b.dispatch(h, a1.shutdown_chunk()->0, now, fresh).0;
            let b2 = b1.gather_shutdown(seq![], now).0.s;
            let a3 = a2.dispatch(h, b1.shutdown_chunk()->0, now, fresh).0;
            let b3 = b2.dispatch(h, a3.shutdown_chunk()->0, now, fresh).0;
            &&& a1.shutdown_chunk() == Some(
                ChunkView::Shutdown(a.tcb.tx.cumulative_tsn_ack_point),
            )
            &&& b1.shutdown_chunk() == Some(ChunkView::ShutdownAck)
            &&& a3.shutdown_chunk() == Some(ChunkView::ShutdownComplete)
            &&& !a3.gather_shutdown(seq![], now).1
            &&& b3.tcb.state == AssociationState::Closed
        }),
{
    reveal(AssociationView::shutdown);
    reveal(shutdown_begun);
    reveal(shutdown_received);
    reveal(shutdown_acked);
    reveal(AssociationView::dispatch);
    reveal(AssociationView::gather_shutdown);
    reveal(AssociationView::handle_shutdown_complete);
    reveal(AssociationView::close_for);
    let a1 = a.shutdown();
    let a2 = a1.gather_shutdown(seq![], now).0.s;
    let b1 = b.dispatch(h, a1.shutdown_chunk()->0, now, fresh).0;
    assert(a1.shutdown_chunk() == Some(ChunkView::Shutdown(a.tcb.tx.cumulative_tsn_ack_point)));
    assert(b1.shutdown_chunk() == Some(ChunkView::ShutdownAck));
    let a3 = a2.dispatch(h, b1.shutdown_chunk()->0, now, fresh).0;
    assert(a3.shutdown_chunk() == Some(ChunkView::ShutdownComplete));
    lemma_bare_packet(a3.with_owed(a3.shutdown_owed()), ChunkView::ShutdownComplete);
}

/// A shutdown waits while data is in flight: no SHUTDOWN is owed, and SACKs are still taken.
pub proof fn law_shutdown_waits_for_data(s: AssociationView)
    requires
        !s.idle(),
    ensures
        s.shutdown().tcb.state == AssociationState::ShutdownPending,
        s.shutdown().tcb.owed == s.tcb.owed,
        takes_sacks(s.shutdown().tcb.state),
        s.shutdown().inflight_queue == s.inflight_queue,
{
    reveal(AssociationView::shutdown);
    reveal(shutdown_begun);
}

/// A stream that is opened is there, and no other stream changes. The peer's streams wait to be
/// accepted.
pub proof fn law_opened_stream_exists(
    s: AssociationView,
    si: u16,
    accept: bool,
    default_payload_type: PayloadProtocolIdentifier,
)
    ensures
        ({
            let r = s.create_stream(si, accept, default_payload_type);
            &&& r.streams.contains_key(si)
            &&& forall|x: u16|
                x != si && #[trigger] s.streams.contains_key(x) ==> r.streams.contains_key(x)
                    && r.streams[x] == s.streams[x]
            &&& r.stream_queue == if accept {
                s.stream_queue.push(si)
            } else {
                s.stream_queue
            }
        }),
{
    reveal(AssociationView::create_stream);
}

/// A request to reset streams is performed once all data that was sent before it was received:
/// then exactly the streams that it names are closed. Before that nothing changes, and the peer
/// is told so.
pub proof fn law_reset_waits_for_data(
    s: AssociationView,
    p: ResetRequestView,
    respond: bool,
    reply: Seq<PacketView>,
)
    ensures
        ({
            let r = s.reset_streams(p, respond, reply);
            let done = upto32(p.sender_last_tsn, s.tcb.rx.peer_last_tsn);
            &&& done ==> forall|x: u16| #[trigger]
                r.s.streams.contains_key(x) <==> s.streams.contains_key(x)
                    && !p.stream_identifiers.contains(x)
            &&& !done ==> r.s == s
            &&& r.reply.last() == r.s.reconfig_packet(
                reset_response(
                    p.reconfig_request_sequence_number,
                    if done {
                        ReconfigResult::SuccessPerformed
                    } else {
                        ReconfigResult::InProgress
                    },
                ),
            )
        }),
{
    reveal(AssociationView::reset_streams);
    reveal(AssociationView::streams_reset);
    reveal(AssociationView::reset_along);
    reveal(Replied::answered);
    let r = s.reset_streams(p, respond, reply);
    if upto32(p.sender_last_tsn, s.tcb.rx.peer_last_tsn) {
        assert(r.s.streams == s.streams.remove_keys(p.stream_identifiers.to_set()));
        assert forall|x: u16| #[trigger]
            r.s.streams.contains_key(x) <==> s.streams.contains_key(x)
                && !p.stream_identifiers.contains(x) by {
            assert(p.stream_identifiers.to_set().contains(x) == p.stream_identifiers.contains(x));
        }
    }
}

} // verus!
