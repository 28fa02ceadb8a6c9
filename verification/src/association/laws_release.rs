//! What a SACK gives back: the send buffers of the streams, the peer's window, and the congestion
//! window.

use vstd::prelude::*;

use crate::association::laws_sack::takes_sacks;
use crate::association::sack::{
    add_bytes, advanced, after_sack, block_acked, block_len, blocks_acked, count_before, count_upto,
    cumulatively_acked, fast_retransmission, gap_acked, pop_acked, pop_one, release_buffers,
    report_all_missing, report_missing, selective_ack, skipped_to, Acked,
};
use crate::association::stats::AssociationStats;
use crate::association::stream::{StreamEvent, StreamView};
use crate::association::view::{AssociationView, Event, Tcb};
use crate::chunk::kinds::{GapAckBlock, SackView};
use crate::chunk::payload::{DataView, Instant};
use crate::keys::{ascending, lemma_ascending_distinct, sorted_keys};
use crate::queue::payload_queue::{
    lemma_mark_as_acked_wf, lemma_pop_wf, lemma_total_bytes_remove, total_bytes, PayloadQueueView,
};
use crate::util::{after32, before32, low32, upto32};

verus! {

/// The chunks of a stream that wait for their acknowledgement.
pub open spec fn outstanding_chunks(q: PayloadQueueView, si: u16) -> Map<u32, DataView> {
    q.chunks.restrict(
        Set::new(
            |t: u32|
                q.chunks.contains_key(t) && !q.chunks[t].acked && q.chunks[t].stream_identifier
                    == si,
        ),
    )
}

/// The bytes of a stream that wait for their acknowledgement.
pub open spec fn outstanding(q: PayloadQueueView, si: u16) -> nat {
    total_bytes(outstanding_chunks(q, si))
}

/// The bytes of `c` if it is one of the stream that waits for its acknowledgement.
pub open spec fn share(c: DataView, si: u16) -> nat {
    if !c.acked && c.stream_identifier == si {
        c.user_data.len()
    } else {
        0
    }
}

proof fn lemma_outstanding_finite(q: PayloadQueueView, si: u16)
    requires
        q.chunks.dom().finite(),
    ensures
        outstanding_chunks(q, si).dom().finite(),
{
    assert(outstanding_chunks(q, si).dom().subset_of(q.chunks.dom()));
    vstd::set_lib::lemma_len_subset(outstanding_chunks(q, si).dom(), q.chunks.dom());
}

/// What one chunk has of what waits for its acknowledgement.
proof fn lemma_share(q: PayloadQueueView, t: u32, si: u16)
    requires
        q.chunks.dom().finite(),
        q.chunks.contains_key(t),
    ensures
        outstanding(q, si) == share(q.chunks[t], si) + total_bytes(
            outstanding_chunks(q, si).remove(t),
        ),
{
    let m = outstanding_chunks(q, si);
    lemma_outstanding_finite(q, si);
    if m.contains_key(t) {
        lemma_total_bytes_remove(m, t);
    } else {
        assert(m.remove(t) =~= m);
    }
}

/// What waits for its acknowledgement, with one chunk taken out or replaced.
proof fn lemma_outstanding_changed(q: PayloadQueueView, r: PayloadQueueView, t: u32, si: u16)
    requires
        q.chunks.dom().finite(),
        q.chunks.contains_key(t),
        r.chunks == q.chunks.remove(t) || r.chunks == q.chunks.insert(t, r.chunks[t]),
    ensures
        outstanding(q, si) + (if r.chunks.contains_key(t) {
            share(r.chunks[t], si)
        } else {
            0
        }) == outstanding(r, si) + share(q.chunks[t], si),
{
    lemma_share(q, t, si);
    let m = outstanding_chunks(q, si);
    let n = outstanding_chunks(r, si);
    assert(m.remove(t) =~= n.remove(t));
    if r.chunks.contains_key(t) {
        lemma_share(r, t, si);
    } else {
        assert(n.remove(t) =~= n);
    }
}

proof fn lemma_outstanding_bounded(q: PayloadQueueView, si: u16)
    requires
        q.wf(),
    ensures
        outstanding(q, si) <= q.n_bytes,
{
    reveal(PayloadQueueView::wf);
    lemma_sub_bytes(outstanding_chunks(q, si), q.chunks);
}

/// Some of the chunks hold no more bytes than all.
pub proof fn lemma_sub_bytes(m: Map<u32, DataView>, n: Map<u32, DataView>)
    requires
        n.dom().finite(),
        forall|t: u32| #[trigger] m.contains_key(t) ==> n.contains_key(t) && n[t] == m[t],
    ensures
        m.dom().finite(),
        total_bytes(m) <= total_bytes(n),
    decreases n.dom().len(),
{
    assert(m.dom().subset_of(n.dom()));
    vstd::set_lib::lemma_len_subset(m.dom(), n.dom());
    if n.dom().len() == 0 {
        assert(m.dom() =~= Set::empty());
    } else {
        let k = n.dom().choose();
        lemma_total_bytes_remove(n, k);
        if m.contains_key(k) {
            lemma_total_bytes_remove(m, k);
            lemma_sub_bytes(m.remove(k), n.remove(k));
        } else {
            lemma_sub_bytes(m, n.remove(k));
        }
    }
}

/// What is counted for a stream.
pub open spec fn amount(bytes: Map<u16, u64>, si: u16) -> int {
    if bytes.contains_key(si) {
        bytes[si] as int
    } else {
        0
    }
}

/// What is counted and what still waits make up what waited at first.
spec fn balanced(q0: PayloadQueueView, q: PayloadQueueView, bytes: Map<u16, u64>) -> bool {
    &&& q.wf()
    &&& q0.n_bytes <= u64::MAX
    &&& forall|si: u16| #[trigger]
        amount(bytes, si) + outstanding(q, si) == outstanding(q0, si) && outstanding(q0, si)
            <= q0.n_bytes
}

proof fn lemma_balanced_step(
    q0: PayloadQueueView,
    q: PayloadQueueView,
    r: PayloadQueueView,
    bytes: Map<u16, u64>,
    t: u32,
)
    requires
        balanced(q0, q, bytes),
        q.chunks.contains_key(t),
        r.wf(),
        r.chunks == q.chunks.remove(t) || (r.chunks == q.chunks.insert(t, r.chunks[t])
            && r.chunks[t].acked),
    ensures
        ({
            let c = q.chunks[t];
            balanced(
                q0,
                r,
                if c.acked {
                    bytes
                } else {
                    add_bytes(bytes, c.stream_identifier, c.user_data.len())
                },
            )
        }),
{
    reveal(PayloadQueueView::wf);
    let c = q.chunks[t];
    let after = if c.acked {
        bytes
    } else {
        add_bytes(bytes, c.stream_identifier, c.user_data.len())
    };
    assert forall|si: u16| #[trigger]
        amount(after, si) + outstanding(r, si) == outstanding(q0, si) && outstanding(q0, si)
            <= q0.n_bytes by {
        lemma_outstanding_changed(q, r, t, si);
        assert(amount(bytes, si) + outstanding(q, si) == outstanding(q0, si));
    }
}

proof fn lemma_popped_balanced(
    q0: PayloadQueueView,
    s: AssociationView,
    bytes: Map<u16, u64>,
    i: u32,
    cum: u32,
    now: Instant,
)
    requires
        balanced(q0, s.inflight_queue, bytes),
        pop_acked(s, bytes, i, cum, now).err is None,
    ensures
        ({
            let a = pop_acked(s, bytes, i, cum, now);
            &&& balanced(q0, a.s.inflight_queue, a.bytes)
            &&& a.s.streams == s.streams
            &&& a.s.events == s.events
            &&& a.s.pending_queue == s.pending_queue
            &&& a.s.tcb.conf == s.tcb.conf
        }),
    decreases count_upto(i, cum),
{
    if upto32(i, cum) {
        reveal(pop_one);
        reveal(cumulatively_acked);
        reveal(PayloadQueueView::popped);
        reveal(PayloadQueueView::pop);
        let q = s.inflight_queue;
        let (s1, bytes1) = pop_one(s, bytes, i, now);
        lemma_pop_wf(q, i);
        lemma_balanced_step(q0, q, s1.inflight_queue, bytes, i);
        lemma_popped_balanced(q0, s1, bytes1, i.wrapping_add(1), cum, now);
    }
}

proof fn lemma_gap_balanced(q0: PayloadQueueView, a: Acked, tsn: u32, now: Instant)
    requires
        balanced(q0, a.s.inflight_queue, a.bytes),
        gap_acked(a, tsn, now).err is None,
    ensures
        ({
            let b = gap_acked(a, tsn, now);
            &&& balanced(q0, b.s.inflight_queue, b.bytes)
            &&& b.s.streams == a.s.streams
            &&& b.s.events == a.s.events
            &&& b.s.pending_queue == a.s.pending_queue
            &&& b.s.tcb.conf == a.s.tcb.conf
        }),
{
    let q = a.s.inflight_queue;
    if q.chunks.contains_key(tsn) && !q.chunks[tsn].acked {
        reveal(PayloadQueueView::mark_as_acked);
        lemma_mark_as_acked_wf(q, tsn);
        lemma_balanced_step(q0, q, q.mark_as_acked(tsn), a.bytes, tsn);
    }
}

proof fn lemma_block_balanced(
    q0: PayloadQueueView,
    a: Acked,
    cum: u32,
    start: u16,
    n: int,
    now: Instant,
)
    requires
        balanced(q0, a.s.inflight_queue, a.bytes),
        a.err is None,
        block_acked(a, cum, start, n, now).err is None,
    ensures
        ({
            let b = block_acked(a, cum, start, n, now);
            &&& balanced(q0, b.s.inflight_queue, b.bytes)
            &&& b.s.streams == a.s.streams
            &&& b.s.events == a.s.events
            &&& b.s.pending_queue == a.s.pending_queue
            &&& b.s.tcb.conf == a.s.tcb.conf
        }),
    decreases n,
{
    if n > 0 {
        lemma_block_balanced(q0, a, cum, start, n - 1, now);
        let c = block_acked(a, cum, start, n - 1, now);
        lemma_gap_balanced(q0, c, cum.wrapping_add((start + n - 1) as u32), now);
    }
}

proof fn lemma_blocks_balanced(
    q0: PayloadQueueView,
    a: Acked,
    cum: u32,
    blocks: Seq<GapAckBlock>,
    k: int,
    now: Instant,
)
    requires
        balanced(q0, a.s.inflight_queue, a.bytes),
        a.err is None,
        blocks_acked(a, cum, blocks, k, now).err is None,
    ensures
        ({
            let b = blocks_acked(a, cum, blocks, k, now);
            &&& balanced(q0, b.s.inflight_queue, b.bytes)
            &&& b.s.streams == a.s.streams
            &&& b.s.events == a.s.events
            &&& b.s.pending_queue == a.s.pending_queue
            &&& b.s.tcb.conf == a.s.tcb.conf
        }),
    decreases k,
{
    if k > 0 {
        lemma_blocks_balanced(q0, a, cum, blocks, k - 1, now);
        let c = blocks_acked(a, cum, blocks, k - 1, now);
        lemma_block_balanced(q0, c, cum, blocks[k - 1].start, block_len(blocks[k - 1]), now);
    }
}

/// What a stream's buffer holds after `n` bytes of it were acknowledged.
pub open spec fn left_of(held: usize, n: int) -> int {
    if held >= n {
        held - n
    } else {
        0
    }
}

/// Whether the buffer of a stream falls from above its threshold to it or below.
pub open spec fn falls_low(before: StreamView, after: StreamView) -> bool {
    before.buffered_amount > before.buffered_amount_low && after.buffered_amount
        <= before.buffered_amount_low
}

/// The event that tells of a low buffer.
pub open spec fn low_event(si: u16) -> Event {
    Event::Stream(StreamEvent::BufferedAmountLow { id: si })
}

/// Whether an event tells of a low buffer.
pub open spec fn is_low_event(e: Event) -> bool {
    e matches Event::Stream(StreamEvent::BufferedAmountLow { .. })
}

/// Whether the event that tells of a low buffer of the stream stands at `from` or behind.
pub open spec fn told_low(events: Seq<Event>, from: int, si: u16) -> bool {
    exists|k: int| from <= k < events.len() && #[trigger] events[k] == low_event(si)
}

/// Each stream gave back what was counted for it, and the low ones are told of.
spec fn gave_back(s: AssociationView, r: AssociationView, ids: Seq<u16>, n: int, bytes: Map<
    u16,
    u64,
>) -> bool {
    let k = s.events.len() as int;
    &&& r.streams.dom() == s.streams.dom()
    &&& r.events.len() >= k
    &&& forall|j: int| 0 <= j < k ==> r.events[j] == s.events[j]
    &&& forall|si: u16| #[trigger]
        s.streams.contains_key(si) ==> r.streams[si] == (StreamView {
            buffered_amount: left_of(
                s.streams[si].buffered_amount,
                if ids.take(n).contains(si) {
                    bytes[si] as int
                } else {
                    0
                },
            ) as usize,
            ..s.streams[si]
        })
    &&& forall|si: u16| #[trigger]
        told_low(r.events, k, si) <==> s.streams.contains_key(si) && falls_low(
            s.streams[si],
            r.streams[si],
        )
    &&& forall|j: int| k <= j < r.events.len() ==> is_low_event(#[trigger] r.events[j])
}

proof fn lemma_gave_back(s: AssociationView, bytes: Map<u16, u64>, ids: Seq<u16>, n: int)
    requires
        ids.no_duplicates(),
        0 <= n <= ids.len(),
    ensures
        gave_back(s, release_buffers(s, bytes, ids, n), ids, n, bytes),
    decreases n,
{
    let r = release_buffers(s, bytes, ids, n);
    let k = s.events.len() as int;
    if n == 0 {
        assert forall|si: u16| s.streams.contains_key(si) implies r.streams[si] == (StreamView {
            buffered_amount: left_of(s.streams[si].buffered_amount, 0) as usize,
            ..s.streams[si]
        }) by {}
        assert(ids.take(0) =~= seq![]);
    } else {
        let m = n - 1;
        lemma_gave_back(s, bytes, ids, m);
        let a = release_buffers(s, bytes, ids, m);
        let id = ids[m];
        assert forall|si: u16| ids.take(n).contains(si) <==> ids.take(m).contains(si) || si
            == id by {
            if ids.take(n).contains(si) {
                let j = choose|j: int| 0 <= j < n && ids.take(n)[j] == si;
                if j < m {
                    assert(ids.take(m)[j] == si);
                }
            }
            if ids.take(m).contains(si) {
                let j = choose|j: int| 0 <= j < m && ids.take(m)[j] == si;
                assert(ids.take(n)[j] == si);
            }
            assert(ids.take(n)[m] == id);
        }
        assert(!ids.take(m).contains(id)) by {
            if ids.take(m).contains(id) {
                let j = choose|j: int| 0 <= j < m && ids.take(m)[j] == id;
                assert(ids[j] == ids[m]);
            }
        }
        if s.streams.contains_key(id) {
            assert(a.streams[id].buffered_amount == s.streams[id].buffered_amount);
            assert(a.streams[id] == s.streams[id]);
            assert(!falls_low(s.streams[id], a.streams[id]));
            assert(r.streams.dom() =~= s.streams.dom());
            let low = a.streams[id].becomes_low(bytes[id]);
            assert(low == falls_low(s.streams[id], r.streams[id]));
            if low {
                assert(r.events == a.events.push(low_event(id)));
                assert(r.events[a.events.len() as int] == low_event(id));
                assert(told_low(r.events, k, id));
            }
            assert forall|si: u16| #[trigger] told_low(r.events, k, si) <==> s.streams.contains_key(si)
                && falls_low(s.streams[si], r.streams[si]) by {
                if si != id {
                    assert(told_low(a.events, k, si) <==> s.streams.contains_key(si) && falls_low(
                        s.streams[si],
                        a.streams[si],
                    ));
                    if told_low(r.events, k, si) {
                        let j = choose|j: int|
                            k <= j < r.events.len() && #[trigger] r.events[j] == low_event(si);
                        assert(j < a.events.len());
                        assert(a.events[j] == low_event(si));
                    }
                    if told_low(a.events, k, si) {
                        let j = choose|j: int|
                            k <= j < a.events.len() && #[trigger] a.events[j] == low_event(si);
                        assert(r.events[j] == low_event(si));
                    }
                } else if told_low(r.events, k, id) && !low {
                    assert(told_low(a.events, k, id));
                }
            }
            assert forall|j: int| k <= j < r.events.len() implies is_low_event(
                #[trigger] r.events[j],
            ) by {
                if j < a.events.len() {
                    assert(r.events[j] == a.events[j]);
                }
            }
        } else {
            assert(r == a);
        }
    }
}

proof fn lemma_missing_keeps(s: AssociationView, tsn: u32, max_tsn: u32, htna: u32)
    requires
        s.inflight_queue.chunks.dom().finite(),
    ensures
        ({
            let r = report_all_missing(s, tsn, max_tsn, htna).0;
            &&& r.streams == s.streams
            &&& r.events == s.events
            &&& r.inflight_queue.n_bytes == s.inflight_queue.n_bytes
            &&& r.tcb.cc.rwnd == s.tcb.cc.rwnd
            &&& forall|si: u16| #[trigger]
                outstanding(r.inflight_queue, si) == outstanding(s.inflight_queue, si)
        }),
    decreases count_before(tsn, max_tsn),
{
    if before32(tsn, max_tsn) && s.inflight_queue.chunks.contains_key(tsn) {
        let a = report_missing(s, tsn, htna);
        let q = s.inflight_queue;
        if a.inflight_queue != q {
            assert forall|si: u16| #[trigger]
                outstanding(a.inflight_queue, si) == outstanding(q, si) by {
                lemma_outstanding_changed(q, a.inflight_queue, tsn, si);
            }
        }
        lemma_missing_keeps(a, tsn.wrapping_add(1), max_tsn, htna);
    }
}

/// What is taken over from the counts to the association.
proof fn lemma_accepted_gives_back(
    s: AssociationView,
    d: SackView,
    bytes: Map<u16, u64>,
    htna: u32,
    now: Instant,
)
    requires
        s.inflight_queue.chunks.dom().finite(),
        bytes.dom().finite(),
    ensures
        ({
            let r = s.sack_accepted(d, bytes, htna, now).0;
            let ids = sorted_keys(bytes.dom());
            &&& gave_back(s, r, ids, ids.len() as int, bytes)
            &&& ids.to_set() == bytes.dom()
            &&& r.inflight_queue.n_bytes == s.inflight_queue.n_bytes
            &&& r.tcb.cc.rwnd == left_of(
                d.advertised_receiver_window_credit as usize,
                low32(s.inflight_queue.n_bytes as int) as int,
            )
            &&& forall|si: u16| #[trigger]
                outstanding(r.inflight_queue, si) == outstanding(s.inflight_queue, si)
        }),
{
    reveal(AssociationView::sack_accepted);
    reveal(AssociationView::sack_windows);
    reveal(AssociationView::acked_upto);
    reveal(advanced);
    reveal(fast_retransmission);
    reveal(skipped_to);
    reveal(after_sack);
    let ids = sorted_keys(bytes.dom());
    lemma_sorted_dom(bytes.dom());
    lemma_ascending_distinct(ids);
    let s1 = s.acked_upto(
        d.cumulative_tsn_ack,
        crate::association::sack::total_bytes_acked(bytes),
        now,
    );
    lemma_gave_back(s1, bytes, ids, ids.len() as int);
    lemma_release_keeps(s1, bytes, ids, ids.len() as int);
    let s3 = s.sack_windows(d, bytes, now);
    let cum = d.cumulative_tsn_ack;
    let max_tsn = if !s3.tcb.cc.in_fast_recovery {
        htna
    } else {
        cum.wrapping_add(low32(s3.inflight_queue.chunks.dom().len() as int)).wrapping_add(1)
    };
    lemma_missing_keeps(s3, cum.wrapping_add(1), max_tsn, htna);
}

proof fn lemma_release_keeps(s: AssociationView, bytes: Map<u16, u64>, ids: Seq<u16>, n: int)
    ensures
        release_buffers(s, bytes, ids, n).tcb == s.tcb,
        release_buffers(s, bytes, ids, n).inflight_queue == s.inflight_queue,
    decreases n,
{
    if n > 0 {
        lemma_release_keeps(s, bytes, ids, n - 1);
    }
}

/// A finite set has its numbers in ascending order.
pub proof fn lemma_sorted_dom(dom: Set<u16>)
    requires
        dom.finite(),
    ensures
        ascending(sorted_keys(dom)),
        sorted_keys(dom).to_set() == dom,
{
    reveal(sorted_keys);
    lemma_sortable(dom);
}

proof fn lemma_sortable(dom: Set<u16>)
    requires
        dom.finite(),
    ensures
        exists|s: Seq<u16>| #[trigger] ascending(s) && s.to_set() == dom,
    decreases dom.len(),
{
    reveal(ascending);
    if dom.len() == 0 {
        let s = Seq::<u16>::empty();
        assert(s.to_set() =~= dom);
        assert(ascending(s));
    } else {
        let x = lemma_greatest(dom);
        lemma_sortable(dom.remove(x));
        let s = choose|s: Seq<u16>| #[trigger] ascending(s) && s.to_set() == dom.remove(x);
        let r = s.push(x);
        assert forall|y: u16| r.to_set().contains(y) <==> dom.contains(y) by {
            if r.contains(y) {
                let j = choose|j: int| 0 <= j < r.len() && r[j] == y;
                if j < s.len() {
                    assert(s[j] == y);
                    assert(s.to_set().contains(y));
                }
            }
            if dom.contains(y) {
                if y == x {
                    assert(r[s.len() as int] == x);
                } else {
                    assert(s.to_set().contains(y));
                    let j = choose|j: int| 0 <= j < s.len() && s[j] == y;
                    assert(r[j] == y);
                }
            }
        }
        assert(r.to_set() =~= dom);
        assert(ascending(r)) by {
            assert forall|i: int, j: int| 0 <= i < j < r.len() implies r[i] < r[j] by {
                if j == s.len() {
                    assert(s.to_set().contains(s[i]));
                }
            }
        }
    }
}

proof fn lemma_greatest(dom: Set<u16>) -> (x: u16)
    requires
        dom.finite(),
        dom.len() > 0,
    ensures
        dom.contains(x),
        forall|y: u16| dom.contains(y) ==> y <= x,
    decreases dom.len(),
{
    let a = dom.choose();
    if dom.len() == 1 {
        assert forall|y: u16| dom.contains(y) implies y <= a by {
            if y != a {
                assert(dom.remove(a).contains(y));
                assert(dom.remove(a).len() == 0);
            }
        }
        a
    } else {
        let b = lemma_greatest(dom.remove(a));
        assert forall|y: u16| dom.contains(y) implies y <= (if a >= b {
            a
        } else {
            b
        }) by {
            if y != a {
                assert(dom.remove(a).contains(y));
            }
        }
        if a >= b {
            a
        } else {
            b
        }
    }
}

proof fn lemma_counts_finite(
    s: AssociationView,
    bytes: Map<u16, u64>,
    i: u32,
    cum: u32,
    now: Instant,
)
    requires
        bytes.dom().finite(),
    ensures
        pop_acked(s, bytes, i, cum, now).bytes.dom().finite(),
    decreases count_upto(i, cum),
{
    if upto32(i, cum) {
        reveal(pop_one);
        let (s1, bytes1) = pop_one(s, bytes, i, now);
        lemma_counts_finite(s1, bytes1, i.wrapping_add(1), cum, now);
    }
}

proof fn lemma_block_finite(a: Acked, cum: u32, start: u16, n: int, now: Instant)
    requires
        a.bytes.dom().finite(),
    ensures
        block_acked(a, cum, start, n, now).bytes.dom().finite(),
    decreases n,
{
    if n > 0 {
        lemma_block_finite(a, cum, start, n - 1, now);
    }
}

proof fn lemma_blocks_finite(a: Acked, cum: u32, blocks: Seq<GapAckBlock>, k: int, now: Instant)
    requires
        a.bytes.dom().finite(),
    ensures
        blocks_acked(a, cum, blocks, k, now).bytes.dom().finite(),
    decreases k,
{
    if k > 0 {
        lemma_blocks_finite(a, cum, blocks, k - 1, now);
        let c = blocks_acked(a, cum, blocks, k - 1, now);
        lemma_block_finite(c, cum, blocks[k - 1].start, block_len(blocks[k - 1]), now);
    }
}

/// A SACK that is taken gives each stream back exactly the bytes of it that are newly
/// acknowledged, be it that the chunks left flight or that a gap block names them: the buffer
/// falls by them, down to nothing, and nothing else about the stream changes. The application
/// hears of exactly the streams whose buffer falls to the threshold. The peer's window is what
/// the SACK advertises less the bytes still in flight.
pub proof fn law_sack_gives_back(s: AssociationView, d: SackView, now: Instant)
    requires
        s.wf(),
        takes_sacks(s.tcb.state),
        !after32(s.tcb.tx.cumulative_tsn_ack_point, d.cumulative_tsn_ack),
        s.handle_sack(d, now).1 is Ok,
    ensures
        ({
            let r = s.handle_sack(d, now).0;
            let k = s.events.len() as int;
            &&& r.streams.dom() == s.streams.dom()
            &&& forall|si: u16| #[trigger]
                s.streams.contains_key(si) ==> {
                    let n = outstanding(s.inflight_queue, si) - outstanding(r.inflight_queue, si);
                    &&& n >= 0
                    &&& r.streams[si] == (StreamView {
                        buffered_amount: left_of(s.streams[si].buffered_amount, n) as usize,
                        ..s.streams[si]
                    })
                }
            &&& r.events.len() >= k
            &&& forall|j: int| 0 <= j < k ==> r.events[j] == s.events[j]
            &&& forall|si: u16| #[trigger]
                told_low(r.events, k, si) <==> s.streams.contains_key(si) && falls_low(
                    s.streams[si],
                    r.streams[si],
                )
            &&& forall|j: int| k <= j < r.events.len() ==> is_low_event(#[trigger] r.events[j])
            &&& r.inflight_queue.n_bytes <= u32::MAX ==> r.tcb.cc.rwnd == left_of(
                d.advertised_receiver_window_credit as usize,
                r.inflight_queue.n_bytes as int,
            )
        }),
{
    reveal(AssociationView::handle_sack);
    reveal(selective_ack);
    reveal(PayloadQueueView::wf);
    let s0 = s.with(
        Tcb {
            stats: AssociationStats {
                n_sacks: s.tcb.stats.n_sacks.wrapping_add(1),
                ..s.tcb.stats
            },
            ..s.tcb
        },
    );
    let q0 = s.inflight_queue;
    let cum = d.cumulative_tsn_ack;
    let first = s.tcb.tx.cumulative_tsn_ack_point.wrapping_add(1);
    let none = Map::<u16, u64>::empty();
    assert forall|si: u16| #[trigger]
        amount(none, si) + outstanding(q0, si) == outstanding(q0, si) && outstanding(q0, si)
            <= q0.n_bytes by {
        lemma_outstanding_bounded(q0, si);
    }
    let a = pop_acked(s0, none, first, cum, now);
    let n = d.gap_ack_blocks.len() as int;
    lemma_popped_balanced(q0, s0, none, first, cum, now);
    lemma_counts_finite(s0, none, first, cum, now);
    lemma_blocks_balanced(q0, a, cum, d.gap_ack_blocks, n, now);
    lemma_blocks_finite(a, cum, d.gap_ack_blocks, n, now);
    let b = blocks_acked(a, cum, d.gap_ack_blocks, n, now);
    lemma_accepted_gives_back(b.s, d, b.bytes, b.htna, now);
    let r = s.handle_sack(d, now).0;
    let ids = sorted_keys(b.bytes.dom());
    assert(ids.take(ids.len() as int) =~= ids);
    assert forall|si: u16| #[trigger] s.streams.contains_key(si) implies {
        let n = outstanding(s.inflight_queue, si) - outstanding(r.inflight_queue, si);
        &&& n >= 0
        &&& r.streams[si] == (StreamView {
            buffered_amount: left_of(s.streams[si].buffered_amount, n) as usize,
            ..s.streams[si]
        })
    } by {
        assert(amount(b.bytes, si) + outstanding(b.s.inflight_queue, si) == outstanding(q0, si));
        assert(ids.contains(si) <==> b.bytes.contains_key(si)) by {
            assert(ids.to_set().contains(si) <==> ids.contains(si));
        }
        assert(outstanding(r.inflight_queue, si) == outstanding(b.s.inflight_queue, si));
    }
}

} // verus!
