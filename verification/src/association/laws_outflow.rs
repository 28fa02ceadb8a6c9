//! What holds of data that is sent for the first time, and of the packets that carry it.

use vstd::prelude::*;

use crate::association::gather::{with_packet, with_packets};
use crate::association::laws_resend::{chunk_size, packet_size};
use crate::association::laws_reset::is_addressed;
use crate::association::laws_send::{joined, law_bundles_fit};
use crate::association::send::{
    bundle, data_chunks, data_size, judged, launched, lemma_end_of_stream_leaves, new_data,
    send_pending, with_chunk,
};
use crate::association::user::end_of_stream;
use crate::association::view::AssociationView;
use crate::chunk::kinds::ChunkView;
use crate::chunk::payload::{DataView, Instant};
use crate::packet::{packet_encode, PacketView};
use crate::queue::payload_queue::PayloadQueueView;
use crate::queue::pending_queue::{law_peeked_chunk_comes_next, lemma_pop_wf, PendingQueueView};

verus! {

/// A chunk that waited, sent for the first time: stamped with the time and counted, and the same
/// apart from that. All fragments of a message are in flight with its last one.
pub open spec fn sent_first(w: DataView, c: DataView, now: Instant) -> bool {
    &&& c.since == Some(now)
    &&& c.nsent == 1
    &&& c.all_inflight == (w.all_inflight || w.ending_fragment)
    &&& c == (DataView {
        tsn: c.tsn,
        since: c.since,
        nsent: c.nsent,
        all_inflight: c.all_inflight,
        abandoned: c.abandoned,
        ..w
    })
}

/// The first `k` chunks that waited, without those that stand for the end of a stream, were sent
/// in their order.
pub open spec fn went(waited: Seq<DataView>, k: int, sent: Seq<DataView>, now: Instant) -> bool
    decreases k,
{
    if k <= 0 {
        sent.len() == 0
    } else if waited[0].user_data.len() == 0 {
        went(waited.drop_first(), k - 1, sent, now)
    } else {
        sent.len() > 0 && sent_first(waited[0], sent[0], now) && went(
            waited.drop_first(),
            k - 1,
            sent.drop_first(),
            now,
        )
    }
}

/// How many of the first `k` chunks that waited stand for the end of the stream `x`.
pub open spec fn ends(waited: Seq<DataView>, k: int, x: u16) -> nat
    decreases k,
{
    if k <= 0 {
        0
    } else {
        ends(waited.drop_first(), k - 1, x) + if waited[0].user_data.len() == 0
            && waited[0].stream_identifier == x {
            1nat
        } else {
            0
        }
    }
}

/// How often a number occurs.
pub open spec fn times(ids: Seq<u16>, x: u16) -> nat
    decreases ids.len(),
{
    if ids.len() == 0 {
        0
    } else {
        times(ids.drop_last(), x) + if ids.last() == x {
            1nat
        } else {
            0
        }
    }
}

/// The chunks that are unordered, or those that are not.
pub open spec fn kind(cs: Seq<DataView>, unordered: bool) -> Seq<DataView>
    decreases cs.len(),
{
    if cs.len() == 0 {
        seq![]
    } else if cs[0].unordered == unordered {
        seq![cs[0]] + kind(cs.drop_first(), unordered)
    } else {
        kind(cs.drop_first(), unordered)
    }
}

/// The queue that the next chunk leaves.
proof fn lemma_pop_takes_first(q: PendingQueueView)
    requires
        q.wf(),
    ensures
        q.peek() matches Some(c) ==> {
            let p = q.pop(c.beginning_fragment, c.unordered);
            &&& q.popped(c.beginning_fragment, c.unordered) == Some(c) || p == q
            &&& q.popped(c.beginning_fragment, c.unordered) is None ==> p == q
            &&& q.popped(c.beginning_fragment, c.unordered) is Some ==> if c.unordered {
                &&& q.unordered.len() > 0 && q.unordered[0] == c
                &&& p.unordered == q.unordered.drop_first()
                &&& p.ordered == q.ordered
            } else {
                &&& q.ordered.len() > 0 && q.ordered[0] == c
                &&& p.ordered == q.ordered.drop_first()
                &&& p.unordered == q.unordered
            }
        },
{
    reveal(PendingQueueView::wf);
    reveal(PendingQueueView::peek);
    reveal(PendingQueueView::popped);
    reveal(PendingQueueView::pop);
}

/// What became of what waited: how many chunks left each queue, and what was sent.
#[verifier::opaque]
pub open spec fn left_in_order(
    s: AssociationView,
    r: AssociationView,
    sent: Seq<DataView>,
    now: Instant,
) -> bool {
    let k = s.pending_queue.unordered.len() - r.pending_queue.unordered.len();
    let m = s.pending_queue.ordered.len() - r.pending_queue.ordered.len();
    &&& k >= 0 && r.pending_queue.unordered == s.pending_queue.unordered.skip(k)
    &&& m >= 0 && r.pending_queue.ordered == s.pending_queue.ordered.skip(m)
    &&& went(s.pending_queue.unordered, k, kind(sent, true), now)
    &&& went(s.pending_queue.ordered, m, kind(sent, false), now)
}

/// All that was sent is in flight, and so is what was.
#[verifier::opaque]
pub open spec fn put_in_flight(
    s: AssociationView,
    r: AssociationView,
    sent: Seq<DataView>,
) -> bool {
    forall|t: u32|
        #![trigger r.inflight_queue.chunks.contains_key(t)]
        #![trigger r.inflight_queue.chunks[t]]
        {
            let is_new = exists|j: int| 0 <= j < sent.len() && (#[trigger] sent[j]).tsn == t;
            &&& r.inflight_queue.chunks.contains_key(t) <==> s.inflight_queue.chunks.contains_key(t)
                || is_new
            &&& !is_new ==> r.inflight_queue.chunks[t] == s.inflight_queue.chunks[t]
            &&& is_new ==> exists|j: int|
                0 <= j < sent.len() && (#[trigger] sent[j]).tsn == t
                    && r.inflight_queue.chunks[t] == sent[j]
        }
}

proof fn lemma_in_flight_step(
    s: AssociationView,
    t: AssociationView,
    r: AssociationView,
    d: DataView,
    rest: Seq<DataView>,
)
    requires
        t.inflight_queue.chunks == s.inflight_queue.chunks.insert(d.tsn, d),
        put_in_flight(t, r, rest),
    ensures
        put_in_flight(s, r, seq![d] + rest),
{
    reveal(put_in_flight);
    let sent = seq![d] + rest;
    assert forall|x: u32|
        #![trigger r.inflight_queue.chunks.contains_key(x)]
        #![trigger r.inflight_queue.chunks[x]]
        {
            let is_new = exists|j: int| 0 <= j < sent.len() && (#[trigger] sent[j]).tsn == x;
            &&& r.inflight_queue.chunks.contains_key(x) <==> s.inflight_queue.chunks.contains_key(x)
                || is_new
            &&& !is_new ==> r.inflight_queue.chunks[x] == s.inflight_queue.chunks[x]
            &&& is_new ==> exists|j: int|
                0 <= j < sent.len() && (#[trigger] sent[j]).tsn == x
                    && r.inflight_queue.chunks[x] == sent[j]
        } by {
        let was_new = exists|j: int| 0 <= j < rest.len() && (#[trigger] rest[j]).tsn == x;
        let is_new = exists|j: int| 0 <= j < sent.len() && (#[trigger] sent[j]).tsn == x;
        assert(r.inflight_queue.chunks.contains_key(x) <==> t.inflight_queue.chunks.contains_key(x)
            || was_new);
        assert(sent[0] == d);
        if was_new {
            let j = choose|j: int|
                0 <= j < rest.len() && (#[trigger] rest[j]).tsn == x
                    && r.inflight_queue.chunks[x] == rest[j];
            assert(sent[j + 1] == rest[j]);
        }
        if is_new && !was_new {
            let j = choose|j: int| 0 <= j < sent.len() && (#[trigger] sent[j]).tsn == x;
            if j > 0 {
                assert(rest[j - 1] == sent[j]);
            }
        }
    }
}

proof fn lemma_none_left(s: AssociationView, now: Instant)
    ensures
        left_in_order(s, s, Seq::<DataView>::empty(), now),
        put_in_flight(s, s, Seq::<DataView>::empty()),
{
    reveal(left_in_order);
    reveal(put_in_flight);
    let q = s.pending_queue;
    assert(q.unordered.skip(0) =~= q.unordered);
    assert(q.ordered.skip(0) =~= q.ordered);
}

proof fn lemma_same_flight(
    s: AssociationView,
    t: AssociationView,
    r: AssociationView,
    sent: Seq<DataView>,
)
    requires
        t.inflight_queue == s.inflight_queue,
        put_in_flight(t, r, sent),
    ensures
        put_in_flight(s, r, sent),
{
    reveal(put_in_flight);
}

proof fn lemma_same_queues(
    s: AssociationView,
    t: AssociationView,
    r: AssociationView,
    sent: Seq<DataView>,
    now: Instant,
)
    requires
        t.pending_queue == s.pending_queue,
        left_in_order(t, r, sent, now),
    ensures
        left_in_order(s, r, sent, now),
{
    reveal(left_in_order);
}

/// A chunk goes into flight.
proof fn lemma_moved(s: AssociationView, c: DataView, now: Instant)
    requires
        s.wf(),
        s.pending_queue.peek() == Some(c),
        s.moved_chunk(c.beginning_fragment, c.unordered, now) is Some,
    ensures
        ({
            let d = s.moved_chunk(c.beginning_fragment, c.unordered, now)->0;
            let t = s.move_pending(c.beginning_fragment, c.unordered, now);
            &&& sent_first(c, d, now)
            &&& t.inflight_queue.chunks == s.inflight_queue.chunks.insert(d.tsn, d)
            &&& t.wf()
        }),
{
    reveal(launched);
    reveal(judged);
    reveal(PayloadQueueView::push_no_check);
    lemma_pop_takes_first(s.pending_queue);
    lemma_pop_wf(s.pending_queue, c.beginning_fragment, c.unordered);
    let d = s.moved_chunk(c.beginning_fragment, c.unordered, now)->0;
    crate::queue::payload_queue::lemma_push_wf(s.inflight_queue, d);
}

proof fn lemma_sent(
    s: AssociationView,
    now: Instant,
    chunks: Seq<DataView>,
    resets: Seq<u16>,
) -> (sent: Seq<DataView>)
    requires
        s.wf(),
    ensures
        ({
            let r = send_pending(s, now, chunks, resets);
            &&& r.chunks == chunks + sent
            &&& left_in_order(s, r.s, sent, now)
            &&& put_in_flight(s, r.s, sent)
        }),
    decreases s.pending_queue.len(), s.tcb.cc.rwnd,
{
    let q = s.pending_queue;
    let none = Seq::<DataView>::empty();
    match q.peek() {
        None => {
            assert(chunks + none =~= chunks);
            lemma_none_left(s, now);
            none
        },
        Some(c) => {
            let n = c.user_data.len();
            let (b, u) = (c.beginning_fragment, c.unordered);
            lemma_pop_wf(q, b, u);
            lemma_end_of_stream_leaves(q);
            lemma_pop_takes_first(q);
            if n == 0 {
                let t = AssociationView { pending_queue: q.pop(b, u), ..s };
                let sent = lemma_sent(t, now, chunks, resets.push(c.stream_identifier));
                let r = send_pending(s, now, chunks, resets);
                lemma_left(s, t, r.s, c, sent, now);
                lemma_same_flight(s, t, r.s, sent);
                sent
            } else if s.may_send(n) {
                let s1 = s.use_window(n);
                let t = s1.move_pending(b, u, now);
                match s1.moved_chunk(b, u, now) {
                    None => {
                        let sent = lemma_sent(t, now, chunks, resets);
                        let r = send_pending(s, now, chunks, resets);
                        lemma_same_flight(s, t, r.s, sent);
                        lemma_same_queues(s, t, r.s, sent, now);
                        sent
                    },
                    Some(d) => {
                        lemma_moved(s1, c, now);
                        let rest = lemma_sent(t, now, chunks.push(d), resets);
                        let r = send_pending(s, now, chunks, resets);
                        let sent = seq![d] + rest;
                        assert(chunks.push(d) + rest =~= chunks + sent);
                        assert(sent.drop_first() =~= rest);
                        lemma_in_flight_step(s, t, r.s, d, rest);
                        lemma_left_sent(s, t, r.s, c, d, rest, now);
                        sent
                    },
                }
            } else {
                assert(chunks + none =~= chunks);
                lemma_none_left(s, now);
                none
            }
        },
    }
}

proof fn lemma_left(
    s: AssociationView,
    t: AssociationView,
    r: AssociationView,
    c: DataView,
    sent: Seq<DataView>,
    now: Instant,
)
    requires
        left_in_order(t, r, sent, now),
        c.user_data.len() == 0,
        c.unordered ==> s.pending_queue.unordered.len() > 0 && s.pending_queue.unordered[0] == c
            && t.pending_queue.unordered == s.pending_queue.unordered.drop_first()
            && t.pending_queue.ordered == s.pending_queue.ordered,
        !c.unordered ==> s.pending_queue.ordered.len() > 0 && s.pending_queue.ordered[0] == c
            && t.pending_queue.ordered == s.pending_queue.ordered.drop_first()
            && t.pending_queue.unordered == s.pending_queue.unordered,
    ensures
        left_in_order(s, r, sent, now),
{
    reveal(left_in_order);
    let (a, b) = (s.pending_queue, r.pending_queue);
    if c.unordered {
        let k = a.unordered.len() - b.unordered.len();
        assert(a.unordered.drop_first().skip(k - 1) =~= a.unordered.skip(k));
    } else {
        let m = a.ordered.len() - b.ordered.len();
        assert(a.ordered.drop_first().skip(m - 1) =~= a.ordered.skip(m));
    }
}

proof fn lemma_left_sent(
    s: AssociationView,
    t: AssociationView,
    r: AssociationView,
    c: DataView,
    d: DataView,
    rest: Seq<DataView>,
    now: Instant,
)
    requires
        left_in_order(t, r, rest, now),
        c.user_data.len() > 0,
        sent_first(c, d, now),
        c.unordered ==> s.pending_queue.unordered.len() > 0 && s.pending_queue.unordered[0] == c
            && t.pending_queue.unordered == s.pending_queue.unordered.drop_first()
            && t.pending_queue.ordered == s.pending_queue.ordered,
        !c.unordered ==> s.pending_queue.ordered.len() > 0 && s.pending_queue.ordered[0] == c
            && t.pending_queue.ordered == s.pending_queue.ordered.drop_first()
            && t.pending_queue.unordered == s.pending_queue.unordered,
    ensures
        left_in_order(s, r, seq![d] + rest, now),
{
    reveal(left_in_order);
    let (a, b) = (s.pending_queue, r.pending_queue);
    let sent = seq![d] + rest;
    assert(sent.drop_first() =~= rest);
    assert(sent[0] == d);
    let all = kind(sent, c.unordered);
    assert(all =~= seq![d] + kind(rest, c.unordered));
    assert(all.drop_first() =~= kind(rest, c.unordered));
    assert(all[0] == d);
    assert(kind(sent, !c.unordered) == kind(rest, !c.unordered));
    if c.unordered {
        let k = a.unordered.len() - b.unordered.len();
        assert(a.unordered.drop_first().skip(k - 1) =~= a.unordered.skip(k));
    } else {
        let m = a.ordered.len() - b.ordered.len();
        assert(a.ordered.drop_first().skip(m - 1) =~= a.ordered.skip(m));
    }
}

/// New data leaves each of the two queues in the order in which it was put in, unchanged but for
/// its TSN and its stamps, and is in flight then. Nothing that is in flight is touched.
pub proof fn law_data_is_sent_in_order(s: AssociationView, now: Instant)
    requires
        s.wf(),
    ensures
        ({
            let r = send_pending(s, now, seq![], seq![]);
            left_in_order(s, r.s, r.chunks, now) && put_in_flight(s, r.s, r.chunks)
        }),
{
    let sent = lemma_sent(s, now, seq![], seq![]);
    assert(seq![] + sent =~= sent);
}

proof fn lemma_resets(
    s: AssociationView,
    now: Instant,
    chunks: Seq<DataView>,
    resets: Seq<u16>,
    x: u16,
)
    requires
        s.wf(),
    ensures
        ({
            let r = send_pending(s, now, chunks, resets);
            let k = s.pending_queue.unordered.len() - r.s.pending_queue.unordered.len();
            let m = s.pending_queue.ordered.len() - r.s.pending_queue.ordered.len();
            &&& k >= 0 && m >= 0
            &&& times(r.resets, x) == times(resets, x) + ends(s.pending_queue.unordered, k, x)
                + ends(s.pending_queue.ordered, m, x)
        }),
    decreases s.pending_queue.len(), s.tcb.cc.rwnd,
{
    let q = s.pending_queue;
    match q.peek() {
        None => {},
        Some(c) => {
            let n = c.user_data.len();
            let (b, u) = (c.beginning_fragment, c.unordered);
            lemma_pop_wf(q, b, u);
            lemma_end_of_stream_leaves(q);
            lemma_pop_takes_first(q);
            if n == 0 {
                let t = AssociationView { pending_queue: q.pop(b, u), ..s };
                let more = resets.push(c.stream_identifier);
                assert(more.drop_last() =~= resets);
                lemma_resets(t, now, chunks, more, x);
            } else if s.may_send(n) {
                let s1 = s.use_window(n);
                let t = s1.move_pending(b, u, now);
                let m = s1.moved_chunk(b, u, now);
                if let Some(d) = m {
                    reveal(launched);
                    reveal(judged);
                    crate::queue::payload_queue::lemma_push_wf(s1.inflight_queue, d);
                }
                lemma_resets(t, now, with_chunk(chunks, m), resets, x);
            }
        },
    }
}

/// A stream is to be reset for each chunk without data that leaves, and for no other reason.
pub proof fn law_ended_streams_are_reset(s: AssociationView, now: Instant, x: u16)
    requires
        s.wf(),
    ensures
        ({
            let r = send_pending(s, now, seq![], seq![]);
            let k = s.pending_queue.unordered.len() - r.s.pending_queue.unordered.len();
            let m = s.pending_queue.ordered.len() - r.s.pending_queue.ordered.len();
            times(r.resets, x) == ends(s.pending_queue.unordered, k, x) + ends(
                s.pending_queue.ordered,
                m,
                x,
            )
        }),
{
    lemma_resets(s, now, seq![], seq![], x);
}

proof fn lemma_stops(s: AssociationView, now: Instant, chunks: Seq<DataView>, resets: Seq<u16>)
    requires
        s.wf(),
    ensures
        ({
            let r = send_pending(s, now, chunks, resets).s;
            &&& r.pending_queue.peek() matches Some(c) ==> {
                &&& c.user_data.len() > 0
                &&& r.inflight_queue.n_bytes + c.user_data.len() > s.tcb.cc.cwnd
                    || c.user_data.len() > r.tcb.cc.rwnd
            }
            &&& r.tcb.cc.cwnd == s.tcb.cc.cwnd
            &&& r.tcb.timers == s.tcb.timers
            &&& r.streams == s.streams
            &&& r.tcb.rx == s.tcb.rx
        }),
    decreases s.pending_queue.len(), s.tcb.cc.rwnd,
{
    let q = s.pending_queue;
    if let Some(c) = q.peek() {
        let n = c.user_data.len();
        let (b, u) = (c.beginning_fragment, c.unordered);
        lemma_pop_wf(q, b, u);
        lemma_end_of_stream_leaves(q);
        if n == 0 {
            let t = AssociationView { pending_queue: q.pop(b, u), ..s };
            lemma_stops(t, now, chunks, resets.push(c.stream_identifier));
        } else if s.may_send(n) {
            let s1 = s.use_window(n);
            let m = s1.moved_chunk(b, u, now);
            if let Some(d) = m {
                reveal(launched);
                reveal(judged);
                crate::queue::payload_queue::lemma_push_wf(s1.inflight_queue, d);
            }
            lemma_stops(s1.move_pending(b, u, now), now, with_chunk(chunks, m), resets);
        }
    }
}

/// The windows are used: new data is held back only if the next chunk would put more in flight
/// than the congestion window allows, or is more than the peer's window has left.
pub proof fn law_windows_are_used_to_send(s: AssociationView, now: Instant)
    requires
        s.wf(),
    ensures
        ({
            let r = send_pending(s, now, seq![], seq![]).s;
            r.pending_queue.peek() matches Some(c) ==> {
                &&& c.user_data.len() > 0
                &&& r.inflight_queue.n_bytes + c.user_data.len() > s.tcb.cc.cwnd
                    || c.user_data.len() > r.tcb.cc.rwnd
            }
        }),
{
    lemma_stops(s, now, seq![], seq![]);
}

/// The windows are passed over for one chunk only, and only if nothing is in flight then.
pub proof fn law_windows_are_passed_over_once(s: AssociationView, now: Instant)
    requires
        s.wf(),
    ensures
        ({
            let w = send_pending(s, now, seq![], seq![]);
            let r = new_data(s, now);
            &&& r.resets == w.resets
            &&& r != w ==> {
                &&& w.chunks.len() == 0
                &&& w.s.inflight_queue.chunks.dom().is_empty()
                &&& r.chunks.len() <= 1
            }
            &&& w.chunks.len() == 0 && w.s.inflight_queue.chunks.dom().is_empty() && (
            w.s.pending_queue.peek() matches Some(c) && c.beginning_fragment) ==> {
                &&& r.chunks.len() == 1
                &&& sent_first(w.s.pending_queue.peek()->0, r.chunks[0], now)
                &&& r.chunks[0].tsn == w.s.tcb.tx.my_next_tsn
            }
        }),
{
    let w = send_pending(s, now, seq![], seq![]);
    reveal(launched);
    reveal(judged);
    lemma_wf_after(s, now, seq![], seq![]);
    law_peeked_chunk_comes_next(w.s.pending_queue);
    lemma_pop_takes_first(w.s.pending_queue);
}

proof fn lemma_wf_after(s: AssociationView, now: Instant, chunks: Seq<DataView>, resets: Seq<u16>)
    requires
        s.wf(),
    ensures
        send_pending(s, now, chunks, resets).s.wf(),
    decreases s.pending_queue.len(), s.tcb.cc.rwnd,
{
    let q = s.pending_queue;
    if let Some(c) = q.peek() {
        let n = c.user_data.len();
        let (b, u) = (c.beginning_fragment, c.unordered);
        lemma_pop_wf(q, b, u);
        lemma_end_of_stream_leaves(q);
        if n == 0 {
            let t = AssociationView { pending_queue: q.pop(b, u), ..s };
            lemma_wf_after(t, now, chunks, resets.push(c.stream_identifier));
        } else if s.may_send(n) {
            let s1 = s.use_window(n);
            let m = s1.moved_chunk(b, u, now);
            if let Some(d) = m {
                reveal(launched);
                reveal(judged);
                crate::queue::payload_queue::lemma_push_wf(s1.inflight_queue, d);
            }
            lemma_wf_after(s1.move_pending(b, u, now), now, with_chunk(chunks, m), resets);
        }
    }
}

/// The end of a stream waits as a chunk without data that is a message of its own, in order behind
/// what was written to the stream before.
pub proof fn law_end_of_stream_is_a_message(q: PendingQueueView, si: u16)
    requires
        q.wf(),
    ensures
        ({
            let c = end_of_stream(si);
            &&& c.user_data.len() == 0 && c.stream_identifier == si
            &&& c.beginning_fragment && c.ending_fragment && !c.unordered
            &&& q.can_take(c)
            &&& q.push(c).ordered == q.ordered.push(c)
            &&& q.push(c).unordered == q.unordered
            &&& q.push(c).n_bytes == q.n_bytes
        }),
{
}

/// The packet behind the `k`th.
spec fn packet_behind(full: Seq<Seq<DataView>>, open: Seq<DataView>, k: int) -> Seq<DataView> {
    if k + 1 < full.len() {
        full[k + 1]
    } else {
        open
    }
}

proof fn lemma_filled(cs: Seq<DataView>, mtu: u32)
    ensures
        ({
            let b = bundle(cs, mtu);
            &&& b.size == packet_size(b.open)
            &&& cs.len() > 0 ==> b.open.len() > 0
            &&& cs.len() == 0 ==> b.full.len() == 0
            &&& forall|k: int|
                0 <= k < b.full.len() ==> (#[trigger] packet_behind(b.full, b.open, k)).len() > 0
                    && (b.full[k].len() > 0 ==> packet_size(b.full[k]) + chunk_size(
                    packet_behind(b.full, b.open, k)[0],
                ) > mtu)
        }),
    decreases cs.len(),
{
    let b = bundle(cs, mtu);
    if cs.len() > 0 {
        let d = cs.drop_last();
        let c = cs.last();
        lemma_filled(d, mtu);
        let a = bundle(d, mtu);
        assert(chunk_size(c) == data_size(c));
        if a.overflows(c, mtu) {
            assert(b.open.drop_last() =~= Seq::<DataView>::empty());
            assert(packet_size(Seq::<DataView>::empty()) == 12);
        } else {
            assert(b.open.drop_last() =~= a.open);
        }
        assert forall|k: int| 0 <= k < b.full.len() implies (#[trigger] packet_behind(
            b.full,
            b.open,
            k,
        )).len() > 0 && (b.full[k].len() > 0 ==> packet_size(b.full[k]) + chunk_size(
            packet_behind(b.full, b.open, k)[0],
        ) > mtu) by {
            if k < a.full.len() {
                assert(packet_behind(a.full, a.open, k).len() > 0);
                assert(b.full[k] == a.full[k]);
                if a.overflows(c, mtu) {
                    assert(packet_behind(b.full, b.open, k) == packet_behind(a.full, a.open, k));
                } else if k + 1 == a.full.len() {
                    assert(b.open[0] == a.open[0]);
                }
            }
        }
    }
}

/// The DATA chunks that packets carry, in a row.
pub open spec fn carried(ps: Seq<PacketView>) -> Seq<ChunkView>
    decreases ps.len(),
{
    if ps.len() == 0 {
        seq![]
    } else {
        carried(ps.drop_last()) + ps.last().chunks
    }
}

proof fn lemma_carried(s: AssociationView, groups: Seq<Seq<DataView>>)
    ensures
        carried(s.data_packets(groups)) == data_chunks(joined(groups)),
    decreases groups.len(),
{
    let ps = s.data_packets(groups);
    if groups.len() > 0 {
        lemma_carried(s, groups.drop_last());
        assert(ps.drop_last() =~= s.data_packets(groups.drop_last()));
        let (a, b) = (joined(groups.drop_last()), groups.last());
        assert(data_chunks(a + b) =~= data_chunks(a) + data_chunks(b));
    } else {
        assert(data_chunks(joined(groups)) =~= seq![]);
    }
}

/// Data goes to the peer in packets that carry all of it in order and are filled: a packet is
/// left only when the next chunk is too much for it.
pub proof fn law_packets_are_filled(s: AssociationView, cs: Seq<DataView>)
    ensures
        ({
            let ps = s.bundled(cs);
            let mtu = s.tcb.conf.mtu;
            &&& carried(ps) == cs.map_values(|c: DataView| ChunkView::PayloadData(c))
            &&& forall|k: int| 0 <= k < ps.len() ==> is_addressed(s, #[trigger] ps[k])
            &&& exists|groups: Seq<Seq<DataView>>|
                {
                    &&& groups.len() == ps.len()
                    &&& forall|k: int|
                        0 <= k < groups.len() ==> (#[trigger] ps[k]).chunks == groups[k].map_values(
                            |c: DataView| ChunkView::PayloadData(c),
                        )
                    &&& forall|k: int, n: int|
                        n == k + 1 && 0 <= k && n < groups.len() && groups[k].len() > 0
                            ==> groups[n].len() > 0 && packet_size(#[trigger] groups[k])
                            + chunk_size((#[trigger] groups[n])[0]) > mtu
                }
        }),
{
    let mtu = s.tcb.conf.mtu;
    let b = bundle(cs, mtu);
    let groups = b.finish();
    let ps = s.bundled(cs);
    lemma_filled(cs, mtu);
    law_bundles_fit(cs, mtu);
    lemma_carried(s, groups);
    assert(groups.len() == ps.len());
    assert forall|k: int, n: int|
        n == k + 1 && 0 <= k && n < groups.len() && groups[k].len() > 0 implies groups[n].len() > 0
        && packet_size(#[trigger] groups[k]) + chunk_size((#[trigger] groups[n])[0]) > mtu by {
        assert(groups[n] == packet_behind(b.full, b.open, k));
    }
}

/// Packets that can be encoded go out in their order, each as its bytes, behind those that went
/// before; one that cannot be encoded does not.
pub proof fn law_packets_go_out_in_order(raws: Seq<Seq<u8>>, ps: Seq<PacketView>)
    ensures
        ({
            let r = with_packets(raws, ps, ps.len() as int);
            &&& (forall|j: int| 0 <= j < ps.len() ==> packet_encode(#[trigger] ps[j]) is Ok) ==> {
                &&& r.len() == raws.len() + ps.len()
                &&& forall|j: int|
                    0 <= j < ps.len() ==> r[raws.len() + j] == packet_encode(#[trigger] ps[j])->Ok_0
            }
            &&& r.len() >= raws.len() && r.take(raws.len() as int) == raws
        }),
        forall|p: PacketView|
            packet_encode(p) is Err ==> #[trigger] with_packet(raws, p) == raws,
{
    lemma_in_order(raws, ps, ps.len() as int);
    reveal(with_packet);
}

proof fn lemma_in_order(raws: Seq<Seq<u8>>, ps: Seq<PacketView>, n: int)
    requires
        0 <= n <= ps.len(),
    ensures
        ({
            let r = with_packets(raws, ps, n);
            &&& (forall|j: int| 0 <= j < ps.len() ==> packet_encode(#[trigger] ps[j]) is Ok) ==> {
                &&& r.len() == raws.len() + n
                &&& forall|j: int|
                    0 <= j < n ==> r[raws.len() + j] == packet_encode(#[trigger] ps[j])->Ok_0
            }
            &&& r.len() >= raws.len() && r.take(raws.len() as int) == raws
        }),
    decreases n,
{
    reveal(with_packet);
    if n > 0 {
        lemma_in_order(raws, ps, n - 1);
        let a = with_packets(raws, ps, n - 1);
        let r = with_packets(raws, ps, n);
        assert(r.take(raws.len() as int) =~= a.take(raws.len() as int));
    } else {
        assert(raws.take(raws.len() as int) =~= raws);
    }
}

} // verus!
