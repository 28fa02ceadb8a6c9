//! What holds of the window that is left for the peer's data, and of what is kept of it.

use vstd::prelude::*;

use crate::association::gather::with_packet;
use crate::association::laws_receive::{in_sequence, lemma_skip};
use crate::association::laws_release::lemma_sorted_dom;
use crate::association::laws_reset::is_addressed;
use crate::association::receive::{
    ack_called_for, forward_streams, forward_unordered, lemma_retry_keeps_received, lemma_take_next,
    skip_upto,
};
use crate::association::state::{AckMode, AckState};
use crate::association::stream::{StreamEvent, StreamView};
use crate::association::streams::queued_bytes;
use crate::association::view::{AssociationView, Event, Receiver};
use crate::chunk::kinds::{ChunkForwardTsnStream, ChunkView, ForwardTsnView};
use crate::chunk::payload::{DataView, PayloadProtocolIdentifier};
use crate::keys::{lemma_ascending_distinct, sorted_keys};
use crate::packet::PacketView;
use crate::queue::payload_laws::{consistent, in_window, law_pop_moves_behind};
use crate::queue::payload_queue::PayloadQueueView;
use crate::queue::pending_queue::data_bytes;
use crate::queue::reassembly_counts::{
    held_bytes, is_taken, is_tallied, law_read_bytes_are_given_back, law_taken_bytes_are_counted,
};
use crate::queue::reassembly_queue::ReassemblyView;
use crate::util::fwd32;

verus! {

/// The bytes that wait to be read on all streams together.
pub open spec fn unread(m: Map<u16, StreamView>) -> nat
    decreases m.dom().len(),
    when m.dom().finite()
{
    if m.dom().len() == 0 {
        0
    } else {
        let k = m.dom().choose();
        held_bytes(m[k].reassembly_queue) + unread(m.remove(k))
    }
}

/// Each stream counts the bytes that it holds.
pub open spec fn all_tallied(m: Map<u16, StreamView>) -> bool {
    forall|k: u16| #[trigger] m.contains_key(k) ==> is_tallied(m[k].reassembly_queue)
}

proof fn lemma_unread_remove(m: Map<u16, StreamView>, t: u16)
    requires
        m.dom().finite(),
        m.contains_key(t),
    ensures
        unread(m) == held_bytes(m[t].reassembly_queue) + unread(m.remove(t)),
    decreases m.dom().len(),
{
    let k = m.dom().choose();
    if k != t {
        let a = m.remove(k);
        let b = m.remove(t);
        lemma_unread_remove(a, t);
        lemma_unread_remove(b, k);
        assert(a.remove(t) =~= b.remove(k));
    }
}

proof fn lemma_unread_insert(m: Map<u16, StreamView>, t: u16, s: StreamView)
    requires
        m.dom().finite(),
    ensures
        unread(m.insert(t, s)) == unread(m.remove(t)) + held_bytes(s.reassembly_queue),
        m.contains_key(t) ==> unread(m) == unread(m.remove(t)) + held_bytes(m[t].reassembly_queue),
        !m.contains_key(t) ==> unread(m) == unread(m.remove(t)),
{
    let r = m.insert(t, s);
    lemma_unread_remove(r, t);
    assert(r.remove(t) =~= m.remove(t));
    if m.contains_key(t) {
        lemma_unread_remove(m, t);
    } else {
        assert(m.remove(t) =~= m);
    }
}

/// The first `n` streams.
spec fn first_streams(m: Map<u16, StreamView>, ids: Seq<u16>, n: int) -> Map<u16, StreamView> {
    m.restrict(ids.take(n).to_set())
}

proof fn lemma_part(a: Map<u16, StreamView>, m: Map<u16, StreamView>)
    requires
        m.dom().finite(),
        a.submap_of(m),
    ensures
        a.dom().finite(),
        unread(a) <= unread(m),
    decreases m.dom().len(),
{
    assert(a.dom().subset_of(m.dom()));
    vstd::set_lib::lemma_len_subset(a.dom(), m.dom());
    if m.dom().len() > 0 {
        let k = m.dom().choose();
        if a.contains_key(k) {
            lemma_unread_remove(a, k);
            assert(a.remove(k).submap_of(m.remove(k)));
            lemma_part(a.remove(k), m.remove(k));
        } else {
            assert(a.submap_of(m.remove(k)));
            lemma_part(a, m.remove(k));
        }
    }
}

proof fn lemma_queued(m: Map<u16, StreamView>, ids: Seq<u16>, n: int)
    requires
        m.dom().finite(),
        all_tallied(m),
        ids.no_duplicates(),
        ids.to_set() == m.dom(),
        0 <= n <= ids.len(),
        unread(m) <= u32::MAX,
    ensures
        first_streams(m, ids, n).dom().finite(),
        unread(first_streams(m, ids, n)) <= unread(m),
        queued_bytes(m, ids, n) == unread(first_streams(m, ids, n)),
    decreases n,
{
    let f = first_streams(m, ids, n);
    lemma_part(f, m);
    if n == 0 {
        assert(f.dom() =~= Set::empty());
    } else {
        let id = ids[n - 1];
        let e = first_streams(m, ids, n - 1);
        lemma_queued(m, ids, n - 1);
        assert(ids.to_set().contains(id)) by {
            assert(ids.contains(ids[n - 1]));
        }
        assert(ids.take(n)[n - 1] == id);
        assert(ids.take(n).to_set().contains(id));
        assert(f.remove(id) =~= e) by {
            assert forall|x: u16| f.remove(id).contains_key(x) <==> e.contains_key(x) by {
                let front = ids.take(n - 1);
                if ids.take(n).contains(x) && x != id {
                    let j = choose|j: int| 0 <= j < n && ids.take(n)[j] == x;
                    assert(front[j] == x);
                }
                if front.contains(x) {
                    let j = choose|j: int| 0 <= j < front.len() && front[j] == x;
                    assert(ids.take(n)[j] == x);
                    assert(ids[j] == x && ids[n - 1] == id);
                }
            }
        }
        lemma_unread_remove(f, id);
    }
}

/// The window that an acknowledgement offers is what the unread bytes of all open streams
/// together leave of the receive buffer, or nothing if they are more.
pub proof fn law_window_is_what_unread_data_leaves(s: AssociationView)
    requires
        s.streams.dom().finite(),
        all_tallied(s.streams),
        unread(s.streams) <= u32::MAX,
    ensures
        ({
            let offered = s.selective_ack_chunk().advertised_receiver_window_credit;
            let size = s.tcb.conf.max_receive_buffer_size;
            &&& s.receiver_window_credit() == offered
            &&& unread(s.streams) <= size ==> offered + unread(s.streams) == size
            &&& unread(s.streams) > size ==> offered == 0
        }),
{
    reveal(AssociationView::receiver_window_credit);
    let ids = sorted_keys(s.streams.dom());
    lemma_sorted_dom(s.streams.dom());
    lemma_ascending_distinct(ids);
    lemma_queued(s.streams, ids, ids.len() as int);
    assert(ids.take(ids.len() as int) =~= ids);
    assert(first_streams(s.streams, ids, ids.len() as int) =~= s.streams);
}

/// Bytes that one stream holds more are bytes that the window loses, whichever stream it is.
pub proof fn law_window_falls_with_each_stream(
    s: AssociationView,
    si: u16,
    stream: StreamView,
    n: nat,
)
    requires
        s.streams.dom().finite(),
        all_tallied(s.streams),
        s.streams.contains_key(si),
        is_tallied(stream.reassembly_queue),
        held_bytes(stream.reassembly_queue) == held_bytes(s.streams[si].reassembly_queue) + n,
        unread(s.streams) + n <= s.tcb.conf.max_receive_buffer_size,
    ensures
        ({
            let r = AssociationView { streams: s.streams.insert(si, stream), ..s };
            &&& unread(r.streams) == unread(s.streams) + n
            &&& r.receiver_window_credit() + n == s.receiver_window_credit()
        }),
{
    let r = AssociationView { streams: s.streams.insert(si, stream), ..s };
    lemma_unread_insert(s.streams, si, stream);
    law_window_is_what_unread_data_leaves(s);
    law_window_is_what_unread_data_leaves(r);
}

/// A message that is read gives its bytes back to the window.
pub proof fn law_reading_raises_the_window(s: AssociationView, si: u16)
    requires
        s.streams.dom().finite(),
        all_tallied(s.streams),
        s.streams.contains_key(si),
        s.streams[si].reassembly_queue.next_message() is Some,
        unread(s.streams) <= s.tcb.conf.max_receive_buffer_size,
    ensures
        ({
            let q = s.streams[si].reassembly_queue;
            let stream = StreamView { reassembly_queue: q.read(), ..s.streams[si] };
            let r = AssociationView { streams: s.streams.insert(si, stream), ..s };
            r.receiver_window_credit() == s.receiver_window_credit() + data_bytes(
                q.next_message()->0,
            )
        }),
{
    let q = s.streams[si].reassembly_queue;
    let stream = StreamView { reassembly_queue: q.read(), ..s.streams[si] };
    let r = AssociationView { streams: s.streams.insert(si, stream), ..s };
    law_read_bytes_are_given_back(q);
    lemma_unread_insert(s.streams, si, stream);
    law_window_is_what_unread_data_leaves(s);
    law_window_is_what_unread_data_leaves(r);
}

/// A TSN was received: it lies before the last one without a gap or behind a gap.
pub open spec fn received(s: AssociationView, t: u32) -> bool {
    s.payload_queue.chunks.contains_key(t) || fwd32(t, s.tcb.rx.peer_last_tsn) < 0x8000_0000
}

/// Whether some TSN behind `t` was received.
pub open spec fn received_behind(s: AssociationView, t: u32) -> bool {
    exists|x: u32| #[trigger]
        s.payload_queue.chunks.contains_key(x) && fwd32(s.tcb.rx.peer_last_tsn, t) < fwd32(
            s.tcb.rx.peer_last_tsn,
            x,
        )
}

/// A DATA chunk is kept: it is new, and either the receive buffer is not full or the chunk
/// closes a gap.
pub open spec fn is_kept(s: AssociationView, d: DataView) -> bool {
    !received(s, d.tsn) && (unread(s.streams) < s.tcb.conf.max_receive_buffer_size
        || received_behind(s, d.tsn))
}

proof fn lemma_behind(s: AssociationView, t: u32)
    requires
        in_sequence(s),
        !received(s, t),
    ensures
        received_behind(s, t) <==> s.payload_queue.sorted.len() > 0 && crate::util::before32(
            t,
            s.payload_queue.sorted.last(),
        ),
{
    reveal(PayloadQueueView::wf);
    let q = s.payload_queue;
    let base = s.tcb.rx.peer_last_tsn;
    if q.sorted.len() > 0 {
        let l = q.sorted.last();
        assert(q.sorted[q.sorted.len() - 1] == l);
        assert(in_window(base, l));
        assert(q.sorted.contains(l));
        assert(q.chunks.contains_key(l));
        if received_behind(s, t) {
            let x = choose|x: u32| #[trigger]
                q.chunks.contains_key(x) && fwd32(base, t) < fwd32(base, x);
            assert(q.sorted.contains(x));
            let i = choose|i: int| 0 <= i < q.sorted.len() && q.sorted[i] == x;
            if i < q.sorted.len() - 1 {
                assert(fwd32(base, q.sorted[i]) <= fwd32(base, q.sorted[q.sorted.len() - 1]));
            }
        }
    } else if received_behind(s, t) {
        let x = choose|x: u32| #[trigger]
            q.chunks.contains_key(x) && fwd32(base, t) < fwd32(base, x);
        assert(q.sorted.contains(x));
    }
}

proof fn lemma_created(s: AssociationView, si: u16)
    requires
        s.streams.dom().finite(),
    ensures
        ({
            let r = s.get_or_create_stream(si);
            &&& unread(r.streams) == unread(s.streams)
            &&& all_tallied(s.streams) ==> all_tallied(r.streams)
            &&& r.streams.dom() == s.streams.dom().insert(si)
            &&& r.streams[si] == (if s.streams.contains_key(si) {
                s.streams[si]
            } else {
                r.streams[si]
            })
            &&& !s.streams.contains_key(si) ==> r.streams[si].reassembly_queue
                == ReassemblyView::empty(si)
            &&& forall|x: u16| x != si ==> r.streams[x] == s.streams[x]
            &&& r.payload_queue == s.payload_queue
            &&& r.tcb == s.tcb
            &&& r.reconfig_requests == s.reconfig_requests
            &&& r.events == if s.streams.contains_key(si) {
                s.events
            } else {
                s.events.push(Event::Stream(StreamEvent::Opened))
            }
        }),
{
    reveal(AssociationView::get_or_create_stream);
    reveal(AssociationView::create_stream);
    let r = s.get_or_create_stream(si);
    if s.streams.contains_key(si) {
        assert(s.streams.dom().insert(si) =~= s.streams.dom());
    } else {
        lemma_unread_insert(s.streams, si, r.streams[si]);
        assert(held_bytes(r.streams[si].reassembly_queue) == 0) by {
            assert(crate::queue::reassembly_counts::set_bytes(seq![]) == 0);
            assert(data_bytes(seq![]) == 0);
        }
    }
}

proof fn lemma_accepted(s: AssociationView, d: DataView)
    requires
        in_sequence(s),
        s.streams.dom().finite(),
        all_tallied(s.streams),
        unread(s.streams) <= u32::MAX,
    ensures
        ({
            let r = s.accept_data(d);
            let g = s.get_or_create_stream(d.stream_identifier);
            let si = d.stream_identifier;
            &&& is_kept(s, d) ==> {
                &&& r.payload_queue == s.payload_queue.push(d, s.tcb.rx.peer_last_tsn)
                &&& r.payload_queue.chunks == s.payload_queue.chunks.insert(d.tsn, d)
                &&& r.streams == g.streams.insert(si, g.streams[si].handle_data(d))
            }
            &&& !is_kept(s, d) ==> {
                &&& r.payload_queue == s.payload_queue
                &&& r.streams == if received(s, d.tsn) {
                    s.streams
                } else {
                    g.streams
                }
            }
            &&& r.tcb == s.tcb
            &&& r.reconfig_requests == s.reconfig_requests
        }),
{
    reveal(AssociationView::accept_data);
    reveal(AssociationView::store);
    reveal(AssociationView::deliver);
    reveal(PayloadQueueView::push);
    reveal(PayloadQueueView::push_no_check);
    let si = d.stream_identifier;
    let g = s.get_or_create_stream(si);
    lemma_created(s, si);
    law_window_is_what_unread_data_leaves(g);
    if !received(s, d.tsn) {
        lemma_behind(s, d.tsn);
    }
}

/// A stream that is opened is ordered and reliable, holds nothing, and nothing of it waits. The
/// other streams stay as they are. One that the peer opens waits to be accepted, and the
/// application hears of it.
pub proof fn law_new_stream_is_blank(
    s: AssociationView,
    si: u16,
    accept: bool,
    payload_type: PayloadProtocolIdentifier,
)
    ensures
        ({
            let r = s.create_stream(si, accept, payload_type);
            let n = r.streams[si];
            &&& r.streams.contains_key(si)
            &&& n.stream_identifier == si
            &&& n.max_payload_size == s.tcb.conf.max_payload_size
            &&& n.default_payload_type == payload_type
            &&& n.side == s.tcb.conf.side
            &&& !n.unordered && n.reliability_type is Reliable && n.reliability_value == 0
            &&& n.sequence_number == 0
            &&& n.buffered_amount == 0 && n.buffered_amount_low == 0
            &&& held_bytes(n.reassembly_queue) == 0 && n.reassembly_queue.n_bytes == 0
            &&& n.reassembly_queue.next_message() is None
            &&& n.reassembly_queue.next_ssn == 0 && n.reassembly_queue.si == si
            &&& n.state is ReadWritable
            &&& forall|x: u16|
                x != si ==> (#[trigger] r.streams.contains_key(x) <==> s.streams.contains_key(x))
                    && r.streams[x] == s.streams[x]
            &&& accept ==> r.stream_queue == s.stream_queue.push(si) && r.events == s.events.push(
                Event::Stream(StreamEvent::Opened),
            )
            &&& !accept ==> r.stream_queue == s.stream_queue && r.events == s.events
        }),
{
    reveal(AssociationView::create_stream);
    assert(crate::queue::reassembly_counts::set_bytes(seq![]) == 0);
    assert(data_bytes(seq![]) == 0);
}

/// A kept chunk is told of: that data came, and that its stream can be read if there is a
/// message to read. A stream that the peer opens with it is told of first.
pub proof fn law_kept_data_is_told(s: AssociationView, d: DataView)
    requires
        in_sequence(s),
        s.streams.dom().finite(),
        all_tallied(s.streams),
        unread(s.streams) <= u32::MAX,
        is_kept(s, d),
    ensures
        ({
            let r = s.accept_data(d);
            let si = d.stream_identifier;
            let q = if s.streams.contains_key(si) {
                s.streams[si].reassembly_queue
            } else {
                ReassemblyView::empty(si)
            };
            let opened = if s.streams.contains_key(si) {
                s.events
            } else {
                s.events.push(Event::Stream(StreamEvent::Opened))
            };
            let told = opened.push(Event::DatagramReceived);
            &&& r.streams.contains_key(si) && r.streams[si].reassembly_queue == q.push(d)
            &&& forall|x: u16| x != si ==> r.streams[x] == s.streams[x]
            &&& r.events == if q.push(d).next_message() is Some {
                told.push(Event::Stream(StreamEvent::Readable { id: si }))
            } else {
                told
            }
        }),
{
    lemma_created(s, d.stream_identifier);
    lemma_accepted(s, d);
    reveal(AssociationView::accept_data);
    reveal(AssociationView::store);
    reveal(AssociationView::deliver);
    let g = s.get_or_create_stream(d.stream_identifier);
    law_window_is_what_unread_data_leaves(g);
    lemma_behind(s, d.tsn);
}

/// Received bytes are taken off the window, on whichever stream they come: a kept chunk that its
/// stream takes lowers the window by its length. A chunk that is not kept leaves it alone.
pub proof fn law_received_data_lowers_the_window(s: AssociationView, d: DataView)
    requires
        in_sequence(s),
        s.streams.dom().finite(),
        all_tallied(s.streams),
        unread(s.streams) + d.user_data.len() <= s.tcb.conf.max_receive_buffer_size,
    ensures
        ({
            let r = s.accept_data(d);
            let si = d.stream_identifier;
            let q = if s.streams.contains_key(si) {
                s.streams[si].reassembly_queue
            } else {
                ReassemblyView::empty(si)
            };
            &&& is_kept(s, d) && is_taken(q, d) ==> {
                &&& all_tallied(r.streams)
                &&& r.receiver_window_credit() + d.user_data.len() == s.receiver_window_credit()
            }
            &&& !is_kept(s, d) ==> r.receiver_window_credit() == s.receiver_window_credit()
        }),
{
    lemma_created(s, d.stream_identifier);
    lemma_accepted(s, d);
    let r = s.accept_data(d);
    let si = d.stream_identifier;
    let g = s.get_or_create_stream(si);
    let q = g.streams[si].reassembly_queue;
    law_window_is_what_unread_data_leaves(s);
    law_window_is_what_unread_data_leaves(g);
    law_taken_bytes_are_counted(q, d);
    assert(g.streams.contains_key(si));
    if is_kept(s, d) && is_taken(q, d) {
        lemma_unread_insert(g.streams, si, g.streams[si].handle_data(d));
        law_window_is_what_unread_data_leaves(r);
    }
    if !is_kept(s, d) {
        law_window_is_what_unread_data_leaves(r);
    }
}

proof fn lemma_advance_keeps(b: u32, s: AssociationView, reply: Seq<PacketView>, t: u32)
    requires
        in_sequence(s),
        fwd32(b, s.tcb.rx.peer_last_tsn) <= 0x8000_0000,
        forall|x: u32| #[trigger]
            s.payload_queue.chunks.contains_key(x) ==> fwd32(b, x) <= 0x8000_0000,
        1 <= fwd32(b, t) <= 0x8000_0000,
    ensures
        ({
            let r = s.advance_peer_tsn(reply).s;
            &&& received(r, t) <==> received(s, t)
            &&& fwd32(b, r.tcb.rx.peer_last_tsn) <= 0x8000_0000
            &&& fwd32(b, r.tcb.rx.peer_last_tsn) >= fwd32(b, s.tcb.rx.peer_last_tsn)
            &&& r.tcb.rx == (Receiver {
                peer_last_tsn: r.tcb.rx.peer_last_tsn,
                ..s.tcb.rx
            })
            &&& r.tcb.conf == s.tcb.conf
            &&& r.payload_queue.dup_tsn == s.payload_queue.dup_tsn
        }),
    decreases s.payload_queue.sorted.len(),
{
    reveal(AssociationView::take_next);
    reveal(PayloadQueueView::pop);
    reveal(PayloadQueueView::popped);
    if s.has_next() {
        law_pop_moves_behind(s.payload_queue, s.tcb.rx.peer_last_tsn);
        let u = s.take_next();
        lemma_take_next(s);
        lemma_retry_keeps_received(u, reply);
        lemma_retry_keeps_conf(u, reply);
        let r = u.retry_all_resets(reply);
        lemma_advance_keeps(b, r.s, r.reply, t);
    }
}

proof fn lemma_retry_keeps_conf(s: AssociationView, reply: Seq<PacketView>)
    ensures
        s.retry_all_resets(reply).s.tcb.conf == s.tcb.conf,
{
    reveal(AssociationView::retry_all_resets);
    let rsns = sorted_keys(s.reconfig_requests.dom());
    lemma_retries_keep_conf(s, rsns, rsns.len() as int, reply);
}

proof fn lemma_retries_keep_conf(
    s: AssociationView,
    rsns: Seq<u32>,
    n: int,
    reply: Seq<PacketView>,
)
    ensures
        s.retry_resets(s.reconfig_requests, rsns, n, reply).s.tcb.conf == s.tcb.conf,
    decreases n,
{
    if n > 0 {
        reveal(AssociationView::reset_streams);
        reveal(AssociationView::reset_along);
        reveal(AssociationView::streams_reset);
        reveal(crate::association::receive::Replied::answered);
        lemma_retries_keep_conf(s, rsns, n - 1, reply);
    }
}

/// What was received is what was received before and the chunk that came, if it is kept.
/// The last TSN without a gap never moves back.
pub proof fn law_received_data_is_recorded(s: AssociationView, d: DataView, t: u32)
    requires
        in_sequence(s),
        s.streams.dom().finite(),
        all_tallied(s.streams),
        unread(s.streams) <= u32::MAX,
        1 <= fwd32(s.tcb.rx.peer_last_tsn, t) <= 0x8000_0000,
    ensures
        ({
            let r = s.handle_data(d).0;
            &&& received(r, t) <==> received(s, t) || (t == d.tsn && is_kept(s, d))
            &&& fwd32(s.tcb.rx.peer_last_tsn, r.tcb.rx.peer_last_tsn) <= 0x8000_0000
        }),
{
    reveal(AssociationView::handle_data);
    reveal(AssociationView::count_data);
    reveal(AssociationView::after_data);
    reveal(ack_called_for);
    let c = s.count_data();
    let u = c.accept_data(d);
    lemma_accepted(c, d);
    lemma_kept_in_sequence(c, d);
    let b = s.tcb.rx.peer_last_tsn;
    lemma_window_of(u);
    lemma_advance_keeps(b, u, seq![], t);
}

proof fn lemma_kept_in_sequence(s: AssociationView, d: DataView)
    requires
        in_sequence(s),
        s.streams.dom().finite(),
        all_tallied(s.streams),
        unread(s.streams) <= u32::MAX,
    ensures
        in_sequence(s.accept_data(d)),
{
    lemma_accepted(s, d);
    crate::queue::payload_laws::law_push_keeps_consistent(
        s.payload_queue,
        d,
        s.tcb.rx.peer_last_tsn,
    );
}

proof fn lemma_window_of(s: AssociationView)
    requires
        in_sequence(s),
    ensures
        forall|x: u32| #[trigger]
            s.payload_queue.chunks.contains_key(x) ==> 1 <= fwd32(s.tcb.rx.peer_last_tsn, x)
                <= 0x8000_0000,
{
    reveal(PayloadQueueView::wf);
    assert forall|x: u32| #[trigger] s.payload_queue.chunks.contains_key(x) implies 1 <= fwd32(
        s.tcb.rx.peer_last_tsn,
        x,
    ) <= 0x8000_0000 by {
        let q = s.payload_queue;
        assert(q.sorted.contains(x));
        let i = choose|i: int| 0 <= i < q.sorted.len() && q.sorted[i] == x;
        assert(in_window(s.tcb.rx.peer_last_tsn, q.sorted[i]));
    }
}

/// What acknowledgement a DATA chunk calls for. In the usual mode one is delayed unless one
/// is delayed or owed already, the chunk asks for it at once, or a gap is left behind the last
/// TSN. In the mode that always delays only one that is delayed or owed already is not; in the
/// mode without delays, none is delayed.
pub proof fn law_data_calls_for_an_ack(s: AssociationView, d: DataView)
    requires
        in_sequence(s),
        s.streams.dom().finite(),
        all_tallied(s.streams),
        unread(s.streams) <= u32::MAX,
    ensures
        ({
            let r = s.handle_data(d).0;
            let idle = s.tcb.rx.ack_state == AckState::Idle;
            let gap = exists|t: u32| r.payload_queue.chunks.contains_key(t);
            let waits = match s.tcb.conf.ack_mode {
                AckMode::Normal => idle && !d.immediate_sack && !gap,
                AckMode::AlwaysDelay => idle,
                AckMode::NoDelay => false,
            };
            &&& r.tcb.rx.ack_state == s.tcb.rx.ack_state
            &&& waits ==> r.tcb.rx.delayed_ack_triggered && r.tcb.rx.immediate_ack_triggered
                == s.tcb.rx.immediate_ack_triggered
            &&& !waits ==> r.tcb.rx.immediate_ack_triggered && r.tcb.rx.delayed_ack_triggered
                == s.tcb.rx.delayed_ack_triggered
            &&& r.tcb.stats.n_datas == s.tcb.stats.n_datas.wrapping_add(1)
        }),
{
    reveal(AssociationView::handle_data);
    reveal(AssociationView::count_data);
    reveal(AssociationView::after_data);
    reveal(ack_called_for);
    let c = s.count_data();
    let u = c.accept_data(d);
    lemma_accepted(c, d);
    lemma_kept_in_sequence(c, d);
    lemma_window_of(u);
    let b = s.tcb.rx.peer_last_tsn;
    lemma_advance_keeps(b, u, seq![], b.wrapping_add(1));
    lemma_advance_keeps_stats(u, seq![]);
    let r = s.handle_data(d).0;
    if exists|t: u32| r.payload_queue.chunks.contains_key(t) {
        let t = choose|t: u32| r.payload_queue.chunks.contains_key(t);
        assert(r.payload_queue.chunks.dom().contains(t));
    }
    if !r.payload_queue.chunks.dom().is_empty() {
        let t = r.payload_queue.chunks.dom().choose();
        assert(r.payload_queue.chunks.dom() != Set::<u32>::empty());
        assert(r.payload_queue.chunks.contains_key(t));
    }
}

proof fn lemma_advance_keeps_stats(s: AssociationView, reply: Seq<PacketView>)
    ensures
        s.advance_peer_tsn(reply).s.tcb.stats == s.tcb.stats,
    decreases s.payload_queue.sorted.len(),
{
    reveal(AssociationView::take_next);
    if s.has_next() {
        let u = s.take_next();
        lemma_take_next(s);
        lemma_retry_keeps_received(u, reply);
        lemma_retry_keeps_stats(u, reply);
        let r = u.retry_all_resets(reply);
        lemma_advance_keeps_stats(r.s, r.reply);
    }
}

proof fn lemma_retry_keeps_stats(s: AssociationView, reply: Seq<PacketView>)
    ensures
        s.retry_all_resets(reply).s.tcb.stats == s.tcb.stats,
{
    reveal(AssociationView::retry_all_resets);
    let rsns = sorted_keys(s.reconfig_requests.dom());
    lemma_retries_keep_stats(s, rsns, rsns.len() as int, reply);
}

proof fn lemma_retries_keep_stats(
    s: AssociationView,
    rsns: Seq<u32>,
    n: int,
    reply: Seq<PacketView>,
)
    ensures
        s.retry_resets(s.reconfig_requests, rsns, n, reply).s.tcb.stats == s.tcb.stats,
    decreases n,
{
    if n > 0 {
        reveal(AssociationView::reset_streams);
        reveal(AssociationView::reset_along);
        reveal(AssociationView::streams_reset);
        reveal(crate::association::receive::Replied::answered);
        lemma_retries_keep_stats(s, rsns, n - 1, reply);
    }
}

proof fn lemma_skipped(b: u32, q: PayloadQueueView, last: u32, cum: u32, t: u32)
    requires
        consistent(q, last),
        fwd32(b, last) <= fwd32(b, cum) < 0x8000_0000,
        1 <= fwd32(b, t) <= 0x8000_0000,
    ensures
        skip_upto(q, last, cum).chunks.contains_key(t) <==> q.chunks.contains_key(t) && !(fwd32(
            b,
            last,
        ) < fwd32(b, t) <= fwd32(b, cum)),
        skip_upto(q, last, cum).dup_tsn == q.dup_tsn,
    decreases fwd32(last, cum),
{
    if crate::util::before32(last, cum) {
        reveal(PayloadQueueView::pop);
        reveal(PayloadQueueView::popped);
        let next = last.wrapping_add(1);
        law_pop_moves_behind(q, last);
        lemma_skipped(b, q.pop(next), next, cum, t);
    }
}

/// A FORWARD TSN makes up for all data up to its TSN and for no other: behind the last TSN
/// without a gap, what was received is then what was received before and all up to that TSN.
pub proof fn law_forward_tsn_skips_upto_its_tsn(s: AssociationView, c: ForwardTsnView, t: u32)
    requires
        in_sequence(s),
        s.tcb.peer.use_forward_tsn,
        0 < fwd32(s.tcb.rx.peer_last_tsn, c.new_cumulative_tsn) < 0x8000_0000,
        1 <= fwd32(s.tcb.rx.peer_last_tsn, t) <= 0x8000_0000,
    ensures
        ({
            let r = s.handle_forward_tsn(c).0;
            received(r, t) <==> received(s, t) || fwd32(s.tcb.rx.peer_last_tsn, t) <= fwd32(
                s.tcb.rx.peer_last_tsn,
                c.new_cumulative_tsn,
            )
        }),
{
    reveal(AssociationView::handle_forward_tsn);
    reveal(AssociationView::skip_data);
    reveal(AssociationView::after_data);
    reveal(ack_called_for);
    let b = s.tcb.rx.peer_last_tsn;
    let cum = c.new_cumulative_tsn;
    let u = s.skip_data(c);
    lemma_skip(s.payload_queue, b, cum);
    lemma_skipped(b, s.payload_queue, b, cum, t);
    lemma_window_of(s);
    assert forall|x: u32| #[trigger] u.payload_queue.chunks.contains_key(x) implies fwd32(b, x)
        <= 0x8000_0000 by {
        lemma_window_of(u);
        if fwd32(b, x) == 0 {
        } else if fwd32(b, x) <= 0x8000_0000 {
        } else {
            lemma_skip_adds_none(s.payload_queue, b, cum, x);
        }
    }
    lemma_advance_keeps(b, u, seq![], t);
}

proof fn lemma_skip_adds_none(q: PayloadQueueView, last: u32, cum: u32, x: u32)
    ensures
        skip_upto(q, last, cum).chunks.contains_key(x) ==> q.chunks.contains_key(x),
    decreases fwd32(last, cum),
{
    if crate::util::before32(last, cum) {
        reveal(PayloadQueueView::pop);
        let next = last.wrapping_add(1);
        lemma_skip_adds_none(q.pop(next), next, cum, x);
    }
}

/// Whether a FORWARD TSN names a stream.
pub open spec fn names(c: ForwardTsnView, x: u16) -> bool {
    exists|i: int| 0 <= i < c.streams.len() && (#[trigger] c.streams[i]).identifier == x
}

proof fn lemma_forwarded(m: Map<u16, StreamView>, list: Seq<ChunkForwardTsnStream>, n: int, x: u16)
    requires
        0 <= n <= list.len(),
    ensures
        forward_streams(m, list, n).dom() == m.dom(),
        (forall|i: int| 0 <= i < n ==> (#[trigger] list[i]).identifier != x) ==> forward_streams(
            m,
            list,
            n,
        )[x] == m[x],
        forall|k: int|
            0 <= k < n && (#[trigger] list[k]).identifier == x && m.contains_key(x) && (forall|
                i: int,
            |
                0 <= i < n && i != k ==> (#[trigger] list[i]).identifier != x) ==> forward_streams(
                m,
                list,
                n,
            )[x] == m[x].forward_ordered(list[k].sequence),
    decreases n,
{
    if n > 0 {
        lemma_forwarded(m, list, n - 1, x);
        assert(forward_streams(m, list, n).dom() =~= m.dom());
    }
}

/// A FORWARD TSN opens and closes no stream. On a stream with ordered messages those up to the
/// sequence number that it names for the stream are skipped, and none if it does not name it. On
/// a stream with unordered messages the fragments up to its TSN are skipped.
pub proof fn law_forward_tsn_skips_on_its_streams(s: AssociationView, c: ForwardTsnView, x: u16)
    requires
        s.streams.contains_key(x),
    ensures
        ({
            let r = s.skip_data(c);
            let old_q = s.streams[x].reassembly_queue;
            let new_q = r.streams[x].reassembly_queue;
            &&& r.streams.dom() == s.streams.dom()
            &&& s.streams[x].unordered && !names(c, x) ==> new_q == old_q.forward_unordered(
                c.new_cumulative_tsn,
            )
            &&& !s.streams[x].unordered && !names(c, x) ==> new_q == old_q
            &&& forall|k: int|
                0 <= k < c.streams.len() && (#[trigger] c.streams[k]).identifier == x && (forall|
                    i: int,
                |
                    0 <= i < c.streams.len() && i != k ==> (#[trigger] c.streams[i]).identifier
                        != x) ==> new_q == if s.streams[x].unordered {
                    old_q.forward_unordered(c.new_cumulative_tsn)
                } else {
                    old_q.forward_ordered(c.streams[k].sequence)
                }
        }),
{
    reveal(AssociationView::skip_data);
    lemma_forwarded(s.streams, c.streams, c.streams.len() as int, x);
    let r = s.skip_data(c);
    assert(r.streams.dom() =~= s.streams.dom());
}

/// An acknowledgement that is owed at once goes out with the next packets, and only such a one:
/// it tells the last TSN without a gap and the TSNs that came more than once. Then none is owed,
/// and no TSN is told twice.
pub proof fn law_owed_ack_goes_out(s: AssociationView, raws: Seq<Seq<u8>>)
    ensures
        ({
            let g = s.gather_sack(raws);
            &&& s.tcb.rx.ack_state != AckState::Immediate ==> g.s == s && g.raws == raws
            &&& s.tcb.rx.ack_state == AckState::Immediate ==> {
                &&& exists|p: PacketView|
                    {
                        &&& is_addressed(s, p)
                        &&& p.chunks.len() == 1
                        &&& p.chunks[0] matches ChunkView::SelectiveAck(a) && {
                            &&& a.cumulative_tsn_ack == s.tcb.rx.peer_last_tsn
                            &&& a.duplicate_tsn == s.payload_queue.dup_tsn
                            &&& a == s.selective_ack_chunk()
                        }
                        &&& g.raws == #[trigger] with_packet(raws, p)
                    }
                &&& g.s.tcb.rx.ack_state == AckState::Idle
                &&& g.s.payload_queue.dup_tsn == Seq::<u32>::empty()
                &&& g.s.payload_queue.chunks == s.payload_queue.chunks
                &&& g.s.payload_queue.sorted == s.payload_queue.sorted
                &&& g.s.streams == s.streams
                &&& g.s.tcb.rx.peer_last_tsn == s.tcb.rx.peer_last_tsn
                &&& g.s.tcb.timers == s.tcb.timers
            }
        }),
{
    reveal(AssociationView::gather_sack);
    reveal(AssociationView::receiver_window_credit);
    if s.tcb.rx.ack_state == AckState::Immediate {
        let u = s.with_rx(Receiver { ack_state: AckState::Idle, ..s.tcb.rx });
        let p = u.packet(seq![ChunkView::SelectiveAck(u.selective_ack_chunk())]);
        assert(s.gather_sack(raws).raws == with_packet(raws, p));
        assert(is_addressed(s, p));
        assert(u.selective_ack_chunk() == s.selective_ack_chunk());
    }
}

} // verus!
