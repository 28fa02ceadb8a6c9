//! What holds of received data.

use vstd::prelude::*;

use crate::association::handshake::{acknowledged, established};
use crate::association::inbound::{ack_scheduled, nothing_called_for};
use crate::association::lifecycle::{shutdown_acked, shutdown_received};
use crate::association::receive::{
    ack_called_for, lemma_retry_keeps_received, lemma_take_next, skip_upto, skipped_last,
    unrecognized_chunk_type,
};
use crate::association::received::{law_sack_keeps_received, lemma_handle_reconfig};
use crate::association::state::{AckMode, AckState};
use crate::association::timer::{Timer, ACK_INTERVAL};
use crate::association::view::{no_packets, AssociationView, Event, Tcb};
use crate::chunk::kinds::{ChunkView, ForwardTsnView};
use crate::chunk::payload::{DataView, Instant};
use crate::packet::{packet_check, CommonHeader, PacketView};
use crate::queue::payload_laws::{consistent, law_pop_moves_behind, law_push_keeps_consistent};
use crate::queue::payload_queue::PayloadQueueView;
use crate::util::{before32, fwd32, upto32};

verus! {

/// What was received behind a gap is in order behind the last TSN without one.
pub open spec fn in_sequence(s: AssociationView) -> bool {
    consistent(s.payload_queue, s.tcb.rx.peer_last_tsn)
}

/// The TSN behind the last one without a gap is missing.
pub open spec fn awaits_next(s: AssociationView) -> bool {
    !s.payload_queue.chunks.contains_key(s.tcb.rx.peer_last_tsn.wrapping_add(1))
}

proof fn lemma_no_next(s: AssociationView)
    requires
        in_sequence(s),
        !s.has_next(),
    ensures
        s.take_next() == s,
        awaits_next(s),
{
    reveal(AssociationView::take_next);
    reveal(PayloadQueueView::pop);
    reveal(PayloadQueueView::popped);
    reveal(PayloadQueueView::wf);
    let q = s.payload_queue;
    let base = s.tcb.rx.peer_last_tsn;
    let next = base.wrapping_add(1);
    if q.is_oldest(next) {
        assert(q.sorted.contains(next));
        assert(q.chunks.contains_key(next));
    }
    if q.chunks.contains_key(next) {
        let i = choose|i: int| 0 <= i < q.sorted.len() && q.sorted[i] == next;
        assert(q.sorted[i] == next);
        assert(fwd32(base, next) == 1);
        assert(fwd32(base, q.sorted[0]) <= fwd32(base, q.sorted[i])) by {
            if i > 0 {
                assert(fwd32(base, q.sorted[0]) <= fwd32(base, q.sorted[i]));
            }
        }
        assert(crate::queue::payload_laws::in_window(base, q.sorted[0]));
        assert(q.sorted[0] == next);
    }
}

proof fn lemma_advance(s: AssociationView, reply: Seq<PacketView>)
    requires
        in_sequence(s),
    ensures
        in_sequence(s.advance_peer_tsn(reply).s),
        awaits_next(s.advance_peer_tsn(reply).s),
    decreases s.payload_queue.sorted.len(),
{
    if s.has_next() {
        reveal(AssociationView::take_next);
        law_pop_moves_behind(s.payload_queue, s.tcb.rx.peer_last_tsn);
        let t = s.take_next();
        lemma_take_next(s);
        lemma_retry_keeps_received(t, reply);
        let r = t.retry_all_resets(reply);
        lemma_advance(r.s, r.reply);
    } else {
        lemma_no_next(s);
    }
}

proof fn lemma_after(s: AssociationView, sack_immediately: bool)
    requires
        in_sequence(s),
    ensures
        in_sequence(s.after_data(sack_immediately).0),
        awaits_next(s.after_data(sack_immediately).0),
{
    reveal(AssociationView::after_data);
    reveal(ack_called_for);
    lemma_advance(s, seq![]);
}

/// Data is taken in sequence: after a DATA chunk, what lies behind a gap is in order, and the
/// last TSN without a gap is the last one: the TSN behind it is missing.
pub proof fn law_data_stays_in_sequence(s: AssociationView, d: DataView)
    requires
        in_sequence(s),
    ensures
        in_sequence(s.handle_data(d).0),
        awaits_next(s.handle_data(d).0),
{
    reveal(AssociationView::handle_data);
    reveal(AssociationView::count_data);
    reveal(AssociationView::accept_data);
    reveal(AssociationView::get_or_create_stream);
    reveal(AssociationView::create_stream);
    reveal(AssociationView::store);
    reveal(AssociationView::deliver);
    law_push_keeps_consistent(s.payload_queue, d, s.tcb.rx.peer_last_tsn);
    let t = s.count_data().accept_data(d);
    assert(in_sequence(t));
    lemma_after(t, d.immediate_sack);
}

/// Skipping data moves the queue behind it.
pub proof fn lemma_skip(q: PayloadQueueView, last: u32, cum: u32)
    requires
        consistent(q, last),
    ensures
        consistent(skip_upto(q, last, cum), skipped_last(last, cum)),
    decreases fwd32(last, cum),
{
    if before32(last, cum) {
        let next = last.wrapping_add(1);
        law_pop_moves_behind(q, last);
        lemma_skip(q.pop(next), next, cum);
    }
}

/// Skipped data leaves what was received in sequence. After a FORWARD TSN that skips some, the
/// last TSN without a gap is the last one: the TSN behind it is missing.
pub proof fn law_forward_tsn_stays_in_sequence(s: AssociationView, c: ForwardTsnView)
    requires
        in_sequence(s),
    ensures
        in_sequence(s.handle_forward_tsn(c).0),
        s.tcb.peer.use_forward_tsn && !upto32(c.new_cumulative_tsn, s.tcb.rx.peer_last_tsn)
            ==> awaits_next(s.handle_forward_tsn(c).0),
{
    reveal(AssociationView::handle_forward_tsn);
    reveal(AssociationView::ack_now);
    reveal(AssociationView::skip_data);
    if s.tcb.peer.use_forward_tsn && !upto32(c.new_cumulative_tsn, s.tcb.rx.peer_last_tsn) {
        lemma_skip(s.payload_queue, s.tcb.rx.peer_last_tsn, c.new_cumulative_tsn);
        lemma_after(s.skip_data(c), false);
    }
}

/// No chunk of an association whose first TSN is settled puts what was received out of
/// sequence.
pub proof fn law_chunks_stay_in_sequence(
    s: AssociationView,
    h: CommonHeader,
    c: ChunkView,
    now: Instant,
    fresh: Seq<u8>,
)
    requires
        in_sequence(s),
        !(c is Init),
    ensures
        in_sequence(s.dispatch(h, c, now, fresh).0),
{
    reveal(AssociationView::dispatch);
    reveal(AssociationView::close_for);
    match c {
        ChunkView::CookieEcho(cookie) => {
            reveal(AssociationView::handle_cookie_echo);
            reveal(AssociationView::connect);
            reveal(established);
        },
        ChunkView::CookieAck => {
            reveal(AssociationView::handle_cookie_ack);
            reveal(acknowledged);
        },
        ChunkView::PayloadData(d) => {
            law_data_stays_in_sequence(s, d);
        },
        ChunkView::SelectiveAck(d) => {
            law_sack_keeps_received(s, d, now);
        },
        ChunkView::Reconfig(c) => {
            lemma_handle_reconfig(s, c);
        },
        ChunkView::ForwardTsn(c) => {
            law_forward_tsn_stays_in_sequence(s, c);
        },
        ChunkView::Shutdown(_) => {
            reveal(shutdown_received);
        },
        ChunkView::ShutdownAck => {
            reveal(shutdown_acked);
        },
        ChunkView::ShutdownComplete => {
            reveal(AssociationView::handle_shutdown_complete);
        },
        _ => {},
    }
}

/// Data that was received before is counted and acknowledged, and that is all: no stream, no
/// event and nothing that was received changes.
pub proof fn law_duplicate_data_is_only_acknowledged(s: AssociationView, d: DataView)
    requires
        in_sequence(s),
        awaits_next(s),
        s.payload_queue.chunks.contains_key(d.tsn) || upto32(d.tsn, s.tcb.rx.peer_last_tsn),
    ensures
        s.handle_data(d) == (
            s.count_data().with(
                ack_called_for(
                    s.count_data().tcb,
                    d.immediate_sack,
                    !s.payload_queue.chunks.dom().is_empty(),
                ),
            ),
            no_packets(),
        ),
{
    reveal(AssociationView::handle_data);
    reveal(AssociationView::count_data);
    reveal(AssociationView::accept_data);
    reveal(AssociationView::after_data);
    let t = s.count_data();
    reveal(PayloadQueueView::popped);
    assert(!t.has_next());
    lemma_no_next(t);
}

/// Data that is new and has room reaches its stream as it is, and the application hears of it.
pub proof fn law_new_data_is_delivered(s: AssociationView, d: DataView)
    requires
        s.payload_queue.accepts(d.tsn, s.tcb.rx.peer_last_tsn),
        s.get_or_create_stream(d.stream_identifier).has_room(d),
    ensures
        ({
            let before = s.get_or_create_stream(d.stream_identifier);
            let r = s.accept_data(d);
            let stream = before.streams[d.stream_identifier].handle_data(d);
            &&& r.streams == before.streams.insert(d.stream_identifier, stream)
            &&& r.payload_queue.chunks == s.payload_queue.chunks.insert(d.tsn, d)
            &&& r.events.len() > before.events.len()
            &&& r.events[before.events.len() as int] == Event::DatagramReceived
        }),
{
    reveal(AssociationView::accept_data);
    reveal(AssociationView::get_or_create_stream);
    reveal(AssociationView::create_stream);
    reveal(AssociationView::store);
    reveal(AssociationView::deliver);
    reveal(PayloadQueueView::push);
    reveal(PayloadQueueView::push_no_check);
}

/// An acknowledgement is delayed once at most: in the usual mode the first packet without a
/// gap starts the timer, the next one is acknowledged at once, and so is one behind a gap or
/// one that asks for it.
pub proof fn law_acks_are_delayed_once(
    t: Tcb,
    sack_immediately: bool,
    has_packet_loss: bool,
    now: Instant,
)
    requires
        t.conf.ack_mode == AckMode::Normal,
        t == nothing_called_for(t),
    ensures
        ({
            let r = ack_scheduled(ack_called_for(t, sack_immediately, has_packet_loss), now);
            let delays = t.rx.ack_state == AckState::Idle && !sack_immediately && !has_packet_loss;
            &&& delays ==> r.rx.ack_state == AckState::Delay && r.timers == t.timers.started(
                Timer::Ack,
                now,
                ACK_INTERVAL,
            )
            &&& !delays ==> r.rx.ack_state == AckState::Immediate && r.timers == t.timers.stopped(
                Timer::Ack,
            )
        }),
{
    reveal(ack_called_for);
    reveal(ack_scheduled);
}

/// Without delays every packet is acknowledged at once.
pub proof fn law_no_delay_acks_at_once(
    t: Tcb,
    sack_immediately: bool,
    has_packet_loss: bool,
    now: Instant,
)
    requires
        t.conf.ack_mode == AckMode::NoDelay,
    ensures
        ack_scheduled(
            ack_called_for(t, sack_immediately, has_packet_loss),
            now,
        ).rx.ack_state == AckState::Immediate,
{
    reveal(ack_called_for);
    reveal(ack_scheduled);
}

/// A packet that fails its check does nothing.
pub proof fn law_bad_packet_is_dropped(
    s: AssociationView,
    p: PacketView,
    now: Instant,
    fresh: Seq<u8>,
)
    requires
        packet_check(p) is Err,
    ensures
        s.receive(p, now, fresh) == s,
{
    reveal(AssociationView::receive);
    reveal(AssociationView::handle_packet);
}

/// A FORWARD TSN is answered with an error where it is not supported, and changes nothing. An
/// old one is acknowledged at once and skips nothing.
pub proof fn law_forward_tsn_that_skips_nothing(s: AssociationView, c: ForwardTsnView)
    ensures
        !s.tcb.peer.use_forward_tsn ==> s.handle_forward_tsn(c) == (
            s,
            Ok::<_, crate::error::ErrorView>(
                seq![s.packet(seq![ChunkView::Error(seq![unrecognized_chunk_type()])])],
            ),
        ),
        s.tcb.peer.use_forward_tsn && upto32(c.new_cumulative_tsn, s.tcb.rx.peer_last_tsn) ==> ({
            let r = s.handle_forward_tsn(c);
            &&& r.1 == no_packets()
            &&& r.0.tcb.rx.ack_state == AckState::Immediate
            &&& r.0.payload_queue == s.payload_queue
            &&& r.0.streams == s.streams
            &&& r.0.tcb.rx.peer_last_tsn == s.tcb.rx.peer_last_tsn
        }),
{
    reveal(AssociationView::handle_forward_tsn);
    reveal(AssociationView::ack_now);
}

} // verus!
