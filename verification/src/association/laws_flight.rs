//! What holds of data in flight.

use vstd::prelude::*;

use crate::association::create::Blueprint;
use crate::association::laws_sack::takes_sacks;
use crate::association::resend::{
    is_due, is_lost, resend, resend_lost, resent, resent_fast, Conditions, Windows,
};
use crate::association::sack::{
    advanced, after_sack, block_acked, block_len, blocks_acked, count_before, count_upto,
    cumulatively_acked, fast_retransmission, gap_acked, pop_acked, pop_one, release_buffers,
    report_all_missing, report_missing, selective_ack, skipped_to, total_bytes_acked, Acked,
};
use crate::association::send::{
    data_size, judged, lemma_end_of_stream_leaves, lemma_launched, new_data, send_pending,
    with_chunk,
};
use crate::association::stats::AssociationStats;
use crate::association::view::{AssociationView, Tcb};
use crate::chunk::kinds::{GapAckBlock, SackView};
use crate::chunk::payload::{DataView, Instant};
use crate::keys::sorted_keys;
use crate::queue::payload_laws::{
    consistent, in_window, law_ack_keeps_consistent, law_empty_queue_is_consistent,
    law_pop_moves_behind, law_push_keeps_consistent, law_retransmit_keeps_consistent,
};
use crate::queue::payload_queue::{
    lemma_push_wf, lemma_set_wf, lemma_total_bytes_insert, PayloadQueueView,
};
use crate::queue::pending_queue::lemma_pop_wf;
use crate::util::{after32, before32, fwd32, low32, upto32, HALF_32};

verus! {

/// Whether `t` lies behind `base` and before `next`.
pub open spec fn between(base: u32, t: u32, next: u32) -> bool {
    1 <= fwd32(base, t) < fwd32(base, next)
}

/// The chunks behind the TSN `base` and before `next` are in flight, without a gap, and no
/// others.
pub open spec fn gapless(q: PayloadQueueView, base: u32, next: u32) -> bool {
    &&& consistent(q, base)
    &&& 1 <= fwd32(base, next) <= HALF_32
    &&& forall|t: u32| #[trigger] q.chunks.contains_key(t) <==> between(base, t, next)
}

/// What was sent and is not acknowledged cumulatively is in flight.
pub open spec fn flight_is_gapless(s: AssociationView) -> bool {
    gapless(s.inflight_queue, s.tcb.tx.cumulative_tsn_ack_point, s.tcb.tx.my_next_tsn)
}

proof fn lemma_pop(q: PayloadQueueView, base: u32, next: u32)
    requires
        gapless(q, base, next),
        fwd32(base, next) > 1,
    ensures
        q.popped(base.wrapping_add(1)) is Some,
        gapless(q.pop(base.wrapping_add(1)), base.wrapping_add(1), next),
{
    reveal(PayloadQueueView::pop);
    reveal(PayloadQueueView::popped);
    reveal(PayloadQueueView::wf);
    let t = base.wrapping_add(1);
    assert(fwd32(base, t) == 1);
    assert(q.chunks.contains_key(t));
    let i = choose|i: int| 0 <= i < q.sorted.len() && q.sorted[i] == t;
    assert(q.sorted[i] == t);
    if i > 0 {
        assert(fwd32(base, q.sorted[0]) <= fwd32(base, q.sorted[i]));
    }
    assert(in_window(base, q.sorted[0]));
    assert(q.sorted[0] == t);
    law_pop_moves_behind(q, base);
    let r = q.pop(t);
    assert forall|x: u32| #[trigger] r.chunks.contains_key(x) <==> between(t, x, next) by {
        assert(q.chunks.contains_key(x) <==> between(base, x, next));
    }
}

proof fn lemma_pops(
    s: AssociationView,
    bytes: Map<u16, u64>,
    base: u32,
    cum: u32,
    now: Instant,
)
    requires
        gapless(s.inflight_queue, base, s.tcb.tx.my_next_tsn),
        fwd32(base, cum) < fwd32(base, s.tcb.tx.my_next_tsn),
    ensures
        ({
            let a = pop_acked(s, bytes, base.wrapping_add(1), cum, now);
            &&& a.err is None
            &&& a.htna == cum
            &&& gapless(a.s.inflight_queue, cum, s.tcb.tx.my_next_tsn)
            &&& a.s.tcb.tx.my_next_tsn == s.tcb.tx.my_next_tsn
            &&& a.s.tcb.tx.cumulative_tsn_ack_point == s.tcb.tx.cumulative_tsn_ack_point
        }),
    decreases count_upto(base.wrapping_add(1), cum),
{
    let i = base.wrapping_add(1);
    let next = s.tcb.tx.my_next_tsn;
    if upto32(i, cum) {
        lemma_pop(s.inflight_queue, base, next);
        reveal(pop_one);
        reveal(cumulatively_acked);
        let (s1, bytes1) = pop_one(s, bytes, i, now);
        lemma_pops(s1, bytes1, i, cum, now);
    } else {
        assert(cum == base);
    }
}

/// What acknowledging by gap blocks keeps.
pub open spec fn gaps_keep(a: Acked, b: Acked, cum: u32) -> bool {
    let next = a.s.tcb.tx.my_next_tsn;
    &&& b.err is None
    &&& gapless(b.s.inflight_queue, cum, next)
    &&& b.s.tcb.tx.my_next_tsn == next
    &&& b.s.tcb.tx.cumulative_tsn_ack_point == a.s.tcb.tx.cumulative_tsn_ack_point
    &&& fwd32(cum, b.htna) < fwd32(cum, next)
}

proof fn lemma_gap(a: Acked, tsn: u32, cum: u32, now: Instant)
    requires
        gaps_keep(a, a, cum),
        between(cum, tsn, a.s.tcb.tx.my_next_tsn),
    ensures
        gaps_keep(a, gap_acked(a, tsn, now), cum),
{
    reveal(PayloadQueueView::mark_as_acked);
    assert(a.s.inflight_queue.chunks.contains_key(tsn));
    law_ack_keeps_consistent(a.s.inflight_queue, tsn, cum);
}

proof fn lemma_block(a: Acked, cum: u32, start: u16, n: int, now: Instant)
    requires
        gaps_keep(a, a, cum),
        0 <= n <= 0x1_0000,
        n > 0 ==> start >= 1 && start + n - 1 < fwd32(cum, a.s.tcb.tx.my_next_tsn),
    ensures
        gaps_keep(a, block_acked(a, cum, start, n, now), cum),
    decreases n,
{
    if n > 0 {
        lemma_block(a, cum, start, n - 1, now);
        let b = block_acked(a, cum, start, n - 1, now);
        let o = start + n - 1;
        let tsn = cum.wrapping_add(o as u32);
        assert(fwd32(cum, tsn) == o);
        lemma_gap(b, tsn, cum, now);
    }
}

/// Blocks that name only what was sent.
pub open spec fn blocks_sent(blocks: Seq<GapAckBlock>, cum: u32, next: u32) -> bool {
    forall|j: int|
        0 <= j < blocks.len() && (#[trigger] blocks[j]).start <= blocks[j].end ==> 1
            <= blocks[j].start && blocks[j].end < fwd32(cum, next)
}

proof fn lemma_blocks(
    a: Acked,
    cum: u32,
    blocks: Seq<GapAckBlock>,
    k: int,
    now: Instant,
)
    requires
        gaps_keep(a, a, cum),
        blocks_sent(blocks, cum, a.s.tcb.tx.my_next_tsn),
        0 <= k <= blocks.len(),
    ensures
        gaps_keep(a, blocks_acked(a, cum, blocks, k, now), cum),
    decreases k,
{
    if k > 0 {
        lemma_blocks(a, cum, blocks, k - 1, now);
        let b = blocks_acked(a, cum, blocks, k - 1, now);
        let g = blocks[k - 1];
        lemma_block(b, cum, g.start, block_len(g), now);
    }
}

/// A chunk that is replaced by one of the same TSN with as much data keeps the queue gapless.
proof fn lemma_set(q: PayloadQueueView, base: u32, next: u32, tsn: u32, c: DataView)
    requires
        gapless(q, base, next),
        q.chunks.contains_key(tsn),
        c.tsn == q.chunks[tsn].tsn,
        c.user_data.len() == q.chunks[tsn].user_data.len(),
    ensures
        gapless(q.set(tsn, c), base, next),
{
    lemma_set_wf(q, tsn, c);
    reveal(PayloadQueueView::wf);
    lemma_total_bytes_insert(q.chunks, tsn, c);
    let r = q.set(tsn, c);
    assert forall|t: u32| r.sorted.contains(t) implies #[trigger] r.chunks.contains_key(t) by {
        assert(q.chunks.contains_key(t));
    }
    assert forall|t: u32| #[trigger] r.chunks.contains_key(t) <==> between(base, t, next) by {
        assert(q.chunks.contains_key(t) <==> between(base, t, next));
    }
}

proof fn lemma_missing(
    s: AssociationView,
    base: u32,
    tsn: u32,
    max_tsn: u32,
    htna: u32,
)
    requires
        gapless(s.inflight_queue, base, s.tcb.tx.my_next_tsn),
        1 <= fwd32(base, tsn) <= HALF_32,
        fwd32(base, max_tsn) <= fwd32(base, s.tcb.tx.my_next_tsn),
    ensures
        ({
            let (r, ok) = report_all_missing(s, tsn, max_tsn, htna);
            &&& ok
            &&& gapless(r.inflight_queue, base, s.tcb.tx.my_next_tsn)
            &&& r.tcb.tx == s.tcb.tx
        }),
    decreases count_before(tsn, max_tsn),
{
    if before32(tsn, max_tsn) {
        let next = s.tcb.tx.my_next_tsn;
        assert(between(base, tsn, next));
        assert(s.inflight_queue.chunks.contains_key(tsn));
        let c = s.inflight_queue.chunks[tsn];
        let m = (c.miss_indicator + 1) as u32;
        lemma_set(s.inflight_queue, base, next, tsn, DataView { miss_indicator: m, ..c });
        lemma_missing(report_missing(s, tsn, htna), base, tsn.wrapping_add(1), max_tsn, htna);
    }
}

proof fn lemma_count(d: Set<u32>, base: u32, next: u32)
    requires
        d.finite(),
        1 <= fwd32(base, next),
        forall|t: u32| #[trigger] d.contains(t) <==> between(base, t, next),
    ensures
        d.len() == fwd32(base, next) - 1,
    decreases fwd32(base, next),
{
    if fwd32(base, next) == 1 {
        assert(d =~= Set::empty());
    } else {
        let last = next.wrapping_sub(1);
        let e = d.remove(last);
        assert(d.contains(last));
        assert forall|t: u32| #[trigger] e.contains(t) <==> between(base, t, last) by {
            assert(d.contains(t) <==> between(base, t, next));
        }
        lemma_count(e, base, last);
    }
}

proof fn lemma_fast(s: AssociationView, cum: u32, htna: u32, moved: bool)
    requires
        gapless(s.inflight_queue, cum, s.tcb.tx.my_next_tsn),
        fwd32(cum, htna) < fwd32(cum, s.tcb.tx.my_next_tsn),
    ensures
        ({
            let (r, ok) = fast_retransmission(s, cum, htna, moved);
            &&& ok
            &&& gapless(r.inflight_queue, cum, s.tcb.tx.my_next_tsn)
            &&& r.tcb.tx == s.tcb.tx
        }),
{
    reveal(fast_retransmission);
    reveal(PayloadQueueView::wf);
    let q = s.inflight_queue;
    let next = s.tcb.tx.my_next_tsn;
    let d = q.chunks.dom();
    assert forall|t: u32| #[trigger] d.contains(t) <==> between(cum, t, next) by {
        assert(q.chunks.contains_key(t) <==> between(cum, t, next));
    }
    lemma_count(d, cum, next);
    let all = cum.wrapping_add(low32(d.len() as int)).wrapping_add(1);
    assert(all == next);
    let first = cum.wrapping_add(1);
    lemma_missing(s, cum, first, htna, htna);
    lemma_missing(s, cum, first, all, htna);
}

proof fn lemma_released(s: AssociationView, bytes: Map<u16, u64>, ids: Seq<u16>, n: int)
    ensures
        release_buffers(s, bytes, ids, n).tcb == s.tcb,
        release_buffers(s, bytes, ids, n).inflight_queue == s.inflight_queue,
    decreases n,
{
    if n > 0 {
        lemma_released(s, bytes, ids, n - 1);
    }
}

proof fn lemma_windows(s: AssociationView, d: SackView, bytes: Map<u16, u64>, now: Instant)
    ensures
        ({
            let r = s.sack_windows(d, bytes, now);
            let point = s.tcb.tx.cumulative_tsn_ack_point;
            &&& r.inflight_queue == s.inflight_queue
            &&& r.tcb.tx.my_next_tsn == s.tcb.tx.my_next_tsn
            &&& before32(point, d.cumulative_tsn_ack) ==> r.tcb.tx.cumulative_tsn_ack_point
                == d.cumulative_tsn_ack
            &&& !before32(point, d.cumulative_tsn_ack) ==> r.tcb.tx.cumulative_tsn_ack_point
                == point
        }),
{
    reveal(AssociationView::sack_windows);
    reveal(AssociationView::acked_upto);
    reveal(advanced);
    let s1 = s.acked_upto(d.cumulative_tsn_ack, total_bytes_acked(bytes), now);
    let ids = sorted_keys(bytes.dom());
    lemma_released(s1, bytes, ids, ids.len() as int);
}

/// A SACK of what was sent is never refused, and keeps what is in flight without a gap: its
/// cumulative TSN is the acknowledgement point or one that was sent behind it, and its blocks
/// name only what was sent.
pub proof fn law_sack_of_sent_data_is_taken(s: AssociationView, d: SackView, now: Instant)
    requires
        flight_is_gapless(s),
        takes_sacks(s.tcb.state),
        fwd32(s.tcb.tx.cumulative_tsn_ack_point, d.cumulative_tsn_ack) < fwd32(
            s.tcb.tx.cumulative_tsn_ack_point,
            s.tcb.tx.my_next_tsn,
        ),
        blocks_sent(d.gap_ack_blocks, d.cumulative_tsn_ack, s.tcb.tx.my_next_tsn),
    ensures
        s.handle_sack(d, now).1 is Ok,
        flight_is_gapless(s.handle_sack(d, now).0),
{
    reveal(AssociationView::handle_sack);
    reveal(selective_ack);
    let s0 = s.with(
        Tcb {
            stats: AssociationStats {
                n_sacks: s.tcb.stats.n_sacks.wrapping_add(1),
                ..s.tcb.stats
            },
            ..s.tcb
        },
    );
    let point = s.tcb.tx.cumulative_tsn_ack_point;
    let cum = d.cumulative_tsn_ack;
    let first = point.wrapping_add(1);
    assert(!after32(point, cum));
    lemma_pops(s0, Map::empty(), point, cum, now);
    let a = pop_acked(s0, Map::empty(), first, cum, now);
    let n = d.gap_ack_blocks.len() as int;
    lemma_blocks(a, cum, d.gap_ack_blocks, n, now);
    let b = blocks_acked(a, cum, d.gap_ack_blocks, n, now);
    reveal(AssociationView::sack_accepted);
    reveal(skipped_to);
    reveal(after_sack);
    lemma_windows(b.s, d, b.bytes, now);
    let s3 = b.s.sack_windows(d, b.bytes, now);
    lemma_fast(s3, cum, b.htna, before32(b.s.tcb.tx.cumulative_tsn_ack_point, cum));
}

/// Nothing is in flight in a new association.
pub proof fn law_new_flight_is_gapless(b: Blueprint, random: u32, now: Instant)
    ensures
        flight_is_gapless(b.build(random, now)),
{
    reveal(Blueprint::build);
    reveal(AssociationView::send_init);
    let s = b.build(random, now);
    let point = s.tcb.tx.cumulative_tsn_ack_point;
    assert(s.inflight_queue == PayloadQueueView::empty());
    assert(fwd32(point, s.tcb.tx.my_next_tsn) == 1);
    law_empty_queue_is_consistent(point);
}

/// A chunk that is sent takes the next place in flight, as long as the TSNs in flight are fewer
/// than half of all.
pub proof fn law_sending_keeps_flight_gapless(s: AssociationView, b: bool, u: bool, now: Instant)
    requires
        flight_is_gapless(s),
        fwd32(s.tcb.tx.cumulative_tsn_ack_point, s.tcb.tx.my_next_tsn) < HALF_32,
    ensures
        flight_is_gapless(s.move_pending(b, u, now)),
{
    match s.pending_queue.popped(b, u) {
        None => {},
        Some(p) => {
            let next = s.tcb.tx.my_next_tsn;
            let base = s.tcb.tx.cumulative_tsn_ack_point;
            lemma_launched(p, next, now, s.tcb.peer.use_forward_tsn, s.streams);
            let c = s.moved_chunk(b, u, now)->0;
            let q = s.inflight_queue;
            assert(!q.chunks.contains_key(next));
            assert(q.accepts(c.tsn, base));
            law_push_keeps_consistent(q, c, base);
            reveal(PayloadQueueView::push);
            reveal(PayloadQueueView::push_no_check);
            let r = q.push_no_check(c);
            let after = next.wrapping_add(1);
            assert forall|t: u32| #[trigger] r.chunks.contains_key(t) <==> between(
                base,
                t,
                after,
            ) by {
                assert(q.chunks.contains_key(t) <==> between(base, t, next));
            }
        },
    }
}

proof fn lemma_sent(
    s: AssociationView,
    now: Instant,
    chunks: Seq<DataView>,
    resets: Seq<u16>,
)
    requires
        s.wf(),
        flight_is_gapless(s),
        fwd32(s.tcb.tx.cumulative_tsn_ack_point, s.tcb.tx.my_next_tsn) + s.pending_queue.len()
            <= HALF_32,
    ensures
        ({
            let r = send_pending(s, now, chunks, resets).s;
            &&& r.wf()
            &&& flight_is_gapless(r)
            &&& fwd32(r.tcb.tx.cumulative_tsn_ack_point, r.tcb.tx.my_next_tsn)
                + r.pending_queue.len() <= HALF_32
        }),
    decreases s.pending_queue.len(), s.tcb.cc.rwnd,
{
    match s.pending_queue.peek() {
        None => {},
        Some(c) => {
            let n = c.user_data.len();
            let (b, u) = (c.beginning_fragment, c.unordered);
            lemma_pop_wf(s.pending_queue, b, u);
            lemma_end_of_stream_leaves(s.pending_queue);
            if n == 0 {
                let t = AssociationView { pending_queue: s.pending_queue.pop(b, u), ..s };
                lemma_sent(t, now, chunks, resets.push(c.stream_identifier));
            } else if s.may_send(n) {
                let s1 = s.use_window(n);
                lemma_moved(s1, b, u, now);
                lemma_sent(
                    s1.move_pending(b, u, now),
                    now,
                    with_chunk(chunks, s1.moved_chunk(b, u, now)),
                    resets,
                );
            }
        },
    }
}

proof fn lemma_moved(s: AssociationView, b: bool, u: bool, now: Instant)
    requires
        s.wf(),
        flight_is_gapless(s),
        fwd32(s.tcb.tx.cumulative_tsn_ack_point, s.tcb.tx.my_next_tsn) + s.pending_queue.len()
            <= HALF_32,
    ensures
        ({
            let r = s.move_pending(b, u, now);
            &&& r.wf()
            &&& flight_is_gapless(r)
            &&& fwd32(r.tcb.tx.cumulative_tsn_ack_point, r.tcb.tx.my_next_tsn)
                + r.pending_queue.len() <= HALF_32
        }),
{
    lemma_pop_wf(s.pending_queue, b, u);
    match s.pending_queue.popped(b, u) {
        None => {},
        Some(p) => {
            law_sending_keeps_flight_gapless(s, b, u, now);
            lemma_launched(
                p,
                s.tcb.tx.my_next_tsn,
                now,
                s.tcb.peer.use_forward_tsn,
                s.streams,
            );
            lemma_push_wf(s.inflight_queue, s.moved_chunk(b, u, now)->0);
        },
    }
}

/// All new data that goes out takes the next places in flight, as long as the TSNs in flight
/// with those of the data that waits are no more than half of all.
pub proof fn law_new_data_keeps_flight_gapless(s: AssociationView, now: Instant)
    requires
        s.wf(),
        flight_is_gapless(s),
        fwd32(s.tcb.tx.cumulative_tsn_ack_point, s.tcb.tx.my_next_tsn) + s.pending_queue.len()
            <= HALF_32,
    ensures
        flight_is_gapless(new_data(s, now).s),
{
    lemma_sent(s, now, seq![], seq![]);
    let r = send_pending(s, now, seq![], seq![]).s;
    match r.pending_queue.peek() {
        None => {},
        Some(c) => {
            lemma_moved(r, c.beginning_fragment, c.unordered, now);
        },
    }
}

proof fn lemma_resent(c: DataView, w: Conditions)
    ensures
        w.resent(c).tsn == c.tsn,
        w.resent(c).user_data == c.user_data,
        w.resent_fast(c).tsn == c.tsn,
        w.resent_fast(c).user_data == c.user_data,
{
    reveal(resent);
    reveal(resent_fast);
    reveal(judged);
}

/// Sending data again after a timeout keeps what is in flight without a gap.
pub proof fn law_resending_keeps_flight_gapless(
    w: Conditions,
    win: Windows,
    q: PayloadQueueView,
    chunks: Seq<DataView>,
    tsn: u32,
    is_first: bool,
    sent: nat,
    n: nat,
    base: u32,
    next: u32,
)
    requires
        gapless(q, base, next),
    ensures
        gapless(resend(w, win, q, chunks, tsn, is_first, sent, n).q, base, next),
    decreases n,
{
    if n > 0 && q.chunks.contains_key(tsn) {
        let c = q.chunks[tsn];
        let after = tsn.wrapping_add(1);
        let m = (n - 1) as nat;
        lemma_resent(c, w);
        if !is_due(c) {
            law_resending_keeps_flight_gapless(
                w,
                win,
                q,
                chunks,
                after,
                false,
                sent,
                m,
                base,
                next,
            );
        } else {
            lemma_set(q, base, next, tsn, w.resent(c));
            if !(is_first && win.rwnd < low32(c.user_data.len() as int)) && sent
                + c.user_data.len() <= win.awnd {
                law_resending_keeps_flight_gapless(
                    w,
                    win,
                    q.set(tsn, w.resent(c)),
                    chunks.push(w.resent(c)),
                    after,
                    false,
                    sent + c.user_data.len(),
                    m,
                    base,
                    next,
                );
            }
        }
    }
}

/// Fast retransmission keeps what is in flight without a gap.
pub proof fn law_fast_retransmission_keeps_flight_gapless(
    w: Conditions,
    mtu: u32,
    q: PayloadQueueView,
    chunks: Seq<DataView>,
    tsn: u32,
    size: int,
    n: nat,
    base: u32,
    next: u32,
)
    requires
        gapless(q, base, next),
    ensures
        gapless(resend_lost(w, mtu, q, chunks, tsn, size, n).q, base, next),
    decreases n,
{
    if n > 0 && q.chunks.contains_key(tsn) {
        let c = q.chunks[tsn];
        let after = tsn.wrapping_add(1);
        let m = (n - 1) as nat;
        lemma_resent(c, w);
        if !is_lost(c) {
            law_fast_retransmission_keeps_flight_gapless(
                w,
                mtu,
                q,
                chunks,
                after,
                size,
                m,
                base,
                next,
            );
        } else if mtu >= size + data_size(c) {
            lemma_set(q, base, next, tsn, w.resent_fast(c));
            law_fast_retransmission_keeps_flight_gapless(
                w,
                mtu,
                q.set(tsn, w.resent_fast(c)),
                chunks.push(w.resent_fast(c)),
                after,
                size + data_size(c),
                m,
                base,
                next,
            );
        }
    }
}

/// Marking data to be sent again keeps what is in flight without a gap.
pub proof fn law_timeout_keeps_flight_gapless(q: PayloadQueueView, base: u32, next: u32)
    requires
        gapless(q, base, next),
    ensures
        gapless(q.mark_all_to_retransmit(), base, next),
{
    law_retransmit_keeps_consistent(q, base);
    reveal(PayloadQueueView::mark_all_to_retransmit);
    let r = q.mark_all_to_retransmit();
    assert forall|t: u32| #[trigger] r.chunks.contains_key(t) <==> between(base, t, next) by {
        assert(q.chunks.contains_key(t) <==> between(base, t, next));
    }
}

} // verus!
