//! What holds of acknowledgements and of the congestion window.

use vstd::prelude::*;

use crate::association::laws_receive::in_sequence;
use crate::association::sack::{
    advanced, after_sack, block_acked, block_len, blocks_acked, count_before, count_upto,
    cumulatively_acked, fast_retransmission, gap_acked, grow_window, pop_acked, pop_one,
    release_buffers, report_all_missing, report_missing, selective_ack, skipped_to, Acked,
};
use crate::association::state::AssociationState;
use crate::association::stats::AssociationStats;
use crate::association::view::{no_packets, AssociationView, Congestion, Tcb};
use crate::chunk::kinds::{GapAckBlock, SackView};
use crate::chunk::payload::Instant;
use crate::queue::payload_laws::{covered, law_gap_blocks_are_exact};
use crate::queue::payload_queue::PayloadQueueView;
use crate::util::{after32, before32, fwd32, low32, upto32};

verus! {

/// The states in which data is sent, and so acknowledged.
pub open spec fn takes_sacks(state: AssociationState) -> bool {
    state == AssociationState::Established || state == AssociationState::ShutdownPending || state
        == AssociationState::ShutdownReceived
}

/// A SACK in a state that sends no data changes nothing. One that is older than what is
/// acknowledged is counted and changes nothing else.
pub proof fn law_stale_sack_is_ignored(s: AssociationView, d: SackView, now: Instant)
    ensures
        !takes_sacks(s.tcb.state) ==> s.handle_sack(d, now) == (s, no_packets()),
        takes_sacks(s.tcb.state) && after32(s.tcb.tx.cumulative_tsn_ack_point, d.cumulative_tsn_ack)
            ==> s.handle_sack(d, now) == (
            s.with(
                Tcb {
                    stats: AssociationStats {
                        n_sacks: s.tcb.stats.n_sacks.wrapping_add(1),
                        ..s.tcb.stats
                    },
                    ..s.tcb
                },
            ),
            no_packets(),
        ),
{
    reveal(AssociationView::handle_sack);
}

/// Whether `t` is one of the TSNs from `i` up to `last`.
pub open spec fn in_range(i: u32, t: u32, last: u32) -> bool {
    upto32(i, last) && fwd32(i, t) <= fwd32(i, last)
}

/// Whether a chunk is in flight and acknowledged.
pub open spec fn is_acked(q: PayloadQueueView, tsn: u32) -> bool {
    q.chunks.contains_key(tsn) && q.chunks[tsn].acked
}

/// Whether a block names a chunk.
pub open spec fn names(g: GapAckBlock, cum: u32, tsn: u32) -> bool {
    g.start <= fwd32(cum, tsn) <= g.end
}

/// Whether one of the first `k` blocks names a chunk.
pub open spec fn named(blocks: Seq<GapAckBlock>, k: int, cum: u32, tsn: u32) -> bool {
    exists|j: int| 0 <= j < k && names(#[trigger] blocks[j], cum, tsn)
}

/// The same chunks are in flight.
pub open spec fn same_flight(q: PayloadQueueView, r: PayloadQueueView) -> bool {
    forall|t: u32| #[trigger] r.chunks.contains_key(t) <==> q.chunks.contains_key(t)
}

/// The same chunks are acknowledged.
pub open spec fn same_acked(q: PayloadQueueView, r: PayloadQueueView) -> bool {
    forall|t: u32| #[trigger] is_acked(r, t) <==> is_acked(q, t)
}

pub proof fn lemma_popped(
    s: AssociationView,
    bytes: Map<u16, u64>,
    i: u32,
    cum: u32,
    now: Instant,
)
    requires
        pop_acked(s, bytes, i, cum, now).err is None,
    ensures
        ({
            let a = pop_acked(s, bytes, i, cum, now);
            &&& a.s.tcb.tx.cumulative_tsn_ack_point == s.tcb.tx.cumulative_tsn_ack_point
            &&& forall|t: u32| #[trigger]
                a.s.inflight_queue.chunks.contains_key(t) <==> s.inflight_queue.chunks.contains_key(
                    t,
                ) && !in_range(i, t, cum)
            &&& forall|t: u32| #[trigger]
                is_acked(a.s.inflight_queue, t) <==> is_acked(s.inflight_queue, t) && !in_range(
                    i,
                    t,
                    cum,
                )
        }),
    decreases count_upto(i, cum),
{
    if upto32(i, cum) {
        reveal(pop_one);
        reveal(cumulatively_acked);
        reveal(PayloadQueueView::popped);
        reveal(PayloadQueueView::pop);
        let (s1, bytes1) = pop_one(s, bytes, i, now);
        let next = i.wrapping_add(1);
        lemma_popped(s1, bytes1, next, cum, now);
        let a = pop_acked(s1, bytes1, next, cum, now);
        assert(s1.inflight_queue.chunks == s.inflight_queue.chunks.remove(i));
        assert forall|t: u32| #[trigger]
            a.s.inflight_queue.chunks.contains_key(t) <==> s.inflight_queue.chunks.contains_key(t)
                && !in_range(i, t, cum) by {
            assert(s1.inflight_queue.chunks.contains_key(t) <==> t != i
                && s.inflight_queue.chunks.contains_key(t));
        }
        assert forall|t: u32| #[trigger]
            is_acked(a.s.inflight_queue, t) <==> is_acked(s.inflight_queue, t) && !in_range(
                i,
                t,
                cum,
            ) by {
            assert(is_acked(s1.inflight_queue, t) <==> t != i && is_acked(s.inflight_queue, t));
        }
    }
}

proof fn lemma_gap(a: Acked, tsn: u32, now: Instant)
    requires
        gap_acked(a, tsn, now).err is None,
    ensures
        ({
            let b = gap_acked(a, tsn, now);
            &&& b.s.tcb.tx.cumulative_tsn_ack_point == a.s.tcb.tx.cumulative_tsn_ack_point
            &&& same_flight(a.s.inflight_queue, b.s.inflight_queue)
            &&& forall|t: u32| #[trigger]
                is_acked(b.s.inflight_queue, t) <==> is_acked(a.s.inflight_queue, t) || t == tsn
        }),
{
    reveal(PayloadQueueView::mark_as_acked);
}

proof fn lemma_block(a: Acked, cum: u32, start: u16, n: int, now: Instant)
    requires
        a.err is None,
        0 <= n <= 0x1_0000,
        block_acked(a, cum, start, n, now).err is None,
    ensures
        ({
            let b = block_acked(a, cum, start, n, now);
            &&& b.s.tcb.tx.cumulative_tsn_ack_point == a.s.tcb.tx.cumulative_tsn_ack_point
            &&& same_flight(a.s.inflight_queue, b.s.inflight_queue)
            &&& forall|t: u32| #[trigger]
                is_acked(b.s.inflight_queue, t) <==> is_acked(a.s.inflight_queue, t) || start
                    <= fwd32(cum, t) < start + n
        }),
    decreases n,
{
    if n > 0 {
        lemma_block(a, cum, start, n - 1, now);
        let c = block_acked(a, cum, start, n - 1, now);
        let o = start + n - 1;
        lemma_gap(c, cum.wrapping_add(o as u32), now);
        assert(forall|t: u32|
            t == cum.wrapping_add(o as u32) <==> #[trigger] fwd32(cum, t) == o);
    }
}

proof fn lemma_blocks(
    a: Acked,
    cum: u32,
    blocks: Seq<GapAckBlock>,
    k: int,
    now: Instant,
)
    requires
        a.err is None,
        blocks_acked(a, cum, blocks, k, now).err is None,
        0 <= k <= blocks.len(),
    ensures
        ({
            let b = blocks_acked(a, cum, blocks, k, now);
            &&& b.s.tcb.tx.cumulative_tsn_ack_point == a.s.tcb.tx.cumulative_tsn_ack_point
            &&& same_flight(a.s.inflight_queue, b.s.inflight_queue)
            &&& forall|t: u32| #[trigger]
                is_acked(b.s.inflight_queue, t) <==> is_acked(a.s.inflight_queue, t) || named(
                    blocks,
                    k,
                    cum,
                    t,
                )
        }),
    decreases k,
{
    if k > 0 {
        lemma_blocks(a, cum, blocks, k - 1, now);
        let c = blocks_acked(a, cum, blocks, k - 1, now);
        let g = blocks[k - 1];
        lemma_block(c, cum, g.start, block_len(g), now);
        let b = blocks_acked(a, cum, blocks, k, now);
        assert forall|t: u32| #[trigger]
            is_acked(b.s.inflight_queue, t) <==> is_acked(a.s.inflight_queue, t) || named(
                blocks,
                k,
                cum,
                t,
            ) by {
            assert(is_acked(b.s.inflight_queue, t) <==> is_acked(c.s.inflight_queue, t) || names(
                g,
                cum,
                t,
            ));
            assert(named(blocks, k, cum, t) <==> named(blocks, k - 1, cum, t) || names(g, cum, t))
                by {
                if named(blocks, k, cum, t) {
                    let j = choose|j: int| 0 <= j < k && names(#[trigger] blocks[j], cum, t);
                    assert(j < k - 1 || names(g, cum, t));
                    if j < k - 1 {
                        assert(names(blocks[j], cum, t));
                    }
                }
                if named(blocks, k - 1, cum, t) {
                    let j = choose|j: int| 0 <= j < k - 1 && names(#[trigger] blocks[j], cum, t);
                    assert(names(blocks[j], cum, t));
                }
            }
        }
    }
}

proof fn lemma_released(s: AssociationView, bytes: Map<u16, u64>, ids: Seq<u16>, n: int)
    ensures
        release_buffers(s, bytes, ids, n).tcb == s.tcb,
        release_buffers(s, bytes, ids, n).inflight_queue == s.inflight_queue,
    decreases n,
{
    if n > 0 {
        lemma_released(s, bytes, ids, n - 1);
    }
}

proof fn lemma_missing(s: AssociationView, tsn: u32, max_tsn: u32, htna: u32)
    ensures
        ({
            let r = report_all_missing(s, tsn, max_tsn, htna).0;
            &&& r.tcb.tx == s.tcb.tx
            &&& same_flight(s.inflight_queue, r.inflight_queue)
            &&& same_acked(s.inflight_queue, r.inflight_queue)
        }),
    decreases count_before(tsn, max_tsn),
{
    if before32(tsn, max_tsn) && s.inflight_queue.chunks.contains_key(tsn) {
        lemma_missing(report_missing(s, tsn, htna), tsn.wrapping_add(1), max_tsn, htna);
    }
}

proof fn lemma_windows(s: AssociationView, d: SackView, bytes: Map<u16, u64>, now: Instant)
    ensures
        ({
            let r = s.sack_windows(d, bytes, now);
            let point = s.tcb.tx.cumulative_tsn_ack_point;
            &&& r.inflight_queue == s.inflight_queue
            &&& r.tcb.tx.cumulative_tsn_ack_point == if before32(point, d.cumulative_tsn_ack) {
                d.cumulative_tsn_ack
            } else {
                point
            }
        }),
{
    reveal(AssociationView::sack_windows);
    reveal(AssociationView::acked_upto);
    reveal(advanced);
    let s1 = s.acked_upto(
        d.cumulative_tsn_ack,
        crate::association::sack::total_bytes_acked(bytes),
        now,
    );
    let ids = crate::keys::sorted_keys(bytes.dom());
    lemma_released(s1, bytes, ids, ids.len() as int);
}

proof fn lemma_accepted(
    s: AssociationView,
    d: SackView,
    bytes: Map<u16, u64>,
    htna: u32,
    now: Instant,
)
    ensures
        ({
            let r = s.sack_accepted(d, bytes, htna, now).0;
            let point = s.tcb.tx.cumulative_tsn_ack_point;
            &&& same_flight(s.inflight_queue, r.inflight_queue)
            &&& same_acked(s.inflight_queue, r.inflight_queue)
            &&& r.tcb.tx.cumulative_tsn_ack_point == if before32(point, d.cumulative_tsn_ack) {
                d.cumulative_tsn_ack
            } else {
                point
            }
        }),
{
    reveal(AssociationView::sack_accepted);
    reveal(fast_retransmission);
    reveal(skipped_to);
    reveal(after_sack);
    lemma_windows(s, d, bytes, now);
    let s3 = s.sack_windows(d, bytes, now);
    let cum = d.cumulative_tsn_ack;
    let max_tsn = if !s3.tcb.cc.in_fast_recovery {
        htna
    } else {
        cum.wrapping_add(low32(s3.inflight_queue.chunks.dom().len() as int)).wrapping_add(1)
    };
    lemma_missing(s3, cum.wrapping_add(1), max_tsn, htna);
}

/// After a SACK that is taken, the acknowledgement point is the SACK's; the chunks behind the
/// former point and up to it have left flight, and no others; and of those that are still in
/// flight exactly those that a gap block names are newly acknowledged.
pub proof fn law_sack_acknowledges(s: AssociationView, d: SackView, now: Instant)
    requires
        takes_sacks(s.tcb.state),
        !after32(s.tcb.tx.cumulative_tsn_ack_point, d.cumulative_tsn_ack),
        s.handle_sack(d, now).1 is Ok,
    ensures
        ({
            let r = s.handle_sack(d, now).0;
            let cum = d.cumulative_tsn_ack;
            let first = s.tcb.tx.cumulative_tsn_ack_point.wrapping_add(1);
            let n = d.gap_ack_blocks.len() as int;
            &&& r.tcb.tx.cumulative_tsn_ack_point == cum
            &&& forall|t: u32| #[trigger]
                r.inflight_queue.chunks.contains_key(t) <==> s.inflight_queue.chunks.contains_key(t)
                    && !in_range(first, t, cum)
            &&& forall|t: u32| #[trigger]
                is_acked(r.inflight_queue, t) <==> (is_acked(s.inflight_queue, t) && !in_range(
                    first,
                    t,
                    cum,
                )) || named(d.gap_ack_blocks, n, cum, t)
        }),
{
    reveal(AssociationView::handle_sack);
    reveal(selective_ack);
    let s0 = s.with(
        Tcb {
            stats: AssociationStats {
                n_sacks: s.tcb.stats.n_sacks.wrapping_add(1),
                ..s.tcb.stats
            },
            ..s.tcb
        },
    );
    let cum = d.cumulative_tsn_ack;
    let first = s.tcb.tx.cumulative_tsn_ack_point.wrapping_add(1);
    let a = pop_acked(s0, Map::empty(), first, cum, now);
    lemma_popped(s0, Map::empty(), first, cum, now);
    let n = d.gap_ack_blocks.len() as int;
    lemma_blocks(a, cum, d.gap_ack_blocks, n, now);
    let b = blocks_acked(a, cum, d.gap_ack_blocks, n, now);
    lemma_accepted(b.s, d, b.bytes, b.htna, now);
}

/// What a receiver reports is what its peer takes to be received: with the SACK of a receiver
/// that is in sequence, every chunk that it received leaves flight or is acknowledged, and no
/// chunk that it did not receive is newly acknowledged. The TSNs behind a gap have to be within
/// the reach of a gap block and not to go round the end of the numbers.
pub proof fn law_exactly_what_was_received_is_acknowledged(
    s: AssociationView,
    peer: AssociationView,
    now: Instant,
)
    requires
        takes_sacks(s.tcb.state),
        !after32(s.tcb.tx.cumulative_tsn_ack_point, peer.tcb.rx.peer_last_tsn),
        s.handle_sack(peer.selective_ack_chunk(), now).1 is Ok,
        in_sequence(peer),
        forall|t: u32| #[trigger]
            peer.payload_queue.chunks.contains_key(t) ==> peer.tcb.rx.peer_last_tsn < t
                <= peer.tcb.rx.peer_last_tsn + 0xffff,
    ensures
        ({
            let r = s.handle_sack(peer.selective_ack_chunk(), now).0;
            let last = peer.tcb.rx.peer_last_tsn;
            let first = s.tcb.tx.cumulative_tsn_ack_point.wrapping_add(1);
            &&& forall|t: u32| #[trigger]
                r.inflight_queue.chunks.contains_key(t) <==> s.inflight_queue.chunks.contains_key(t)
                    && !in_range(first, t, last)
            &&& forall|t: u32| #[trigger]
                is_acked(r.inflight_queue, t) <==> (is_acked(s.inflight_queue, t) && !in_range(
                    first,
                    t,
                    last,
                )) || peer.payload_queue.chunks.contains_key(t)
        }),
{
    let d = peer.selective_ack_chunk();
    let last = peer.tcb.rx.peer_last_tsn;
    let n = d.gap_ack_blocks.len() as int;
    law_sack_acknowledges(s, d, now);
    law_gap_blocks_are_exact(peer.payload_queue, last);
    assert forall|t: u32| #[trigger] named(d.gap_ack_blocks, n, last, t) <==> peer.payload_queue
        .chunks.contains_key(t) by {
        let o = fwd32(last, t);
        let x = o as u16;
        if named(d.gap_ack_blocks, n, last, t) {
            let j = choose|j: int|
                0 <= j < n && names(#[trigger] d.gap_ack_blocks[j], last, t);
            assert(d.gap_ack_blocks[j].start <= x <= d.gap_ack_blocks[j].end);
            assert(covered(d.gap_ack_blocks, x));
            assert((last + x) as u32 == t);
        }
        if peer.payload_queue.chunks.contains_key(t) {
            assert(o == t - last);
            assert((last + x) as u32 == t);
            assert(covered(d.gap_ack_blocks, x));
            let k = choose|k: int|
                0 <= k < n && (#[trigger] d.gap_ack_blocks[k]).start <= x
                    <= d.gap_ack_blocks[k].end;
            assert(names(d.gap_ack_blocks[k], last, t));
        }
    }
}

/// The congestion window grows only while more data waits to be sent. In slow start it at most
/// doubles and does not grow in fast recovery; in congestion avoidance it grows by at most one
/// MTU.
pub proof fn law_window_grows_slowly(w: Congestion, mtu: u32, pending: bool, total: u32)
    requires
        2 * w.cwnd <= u32::MAX,
        w.cwnd + mtu <= u32::MAX,
    ensures
        ({
            let r = grow_window(w, mtu, pending, total);
            &&& !pending ==> r.cwnd == w.cwnd
            &&& w.cwnd <= w.ssthresh ==> w.cwnd <= r.cwnd <= 2 * w.cwnd
            &&& w.cwnd <= w.ssthresh && w.in_fast_recovery ==> r == w
            &&& w.cwnd > w.ssthresh ==> r.cwnd == w.cwnd || r.cwnd == w.cwnd + mtu
            &&& r.ssthresh == w.ssthresh
            &&& r.rwnd == w.rwnd
        }),
{
}

/// A chunk that is reported missing for the third time starts fast recovery: the threshold and
/// the window become half the window, but not less than four MTUs, and fast retransmission is
/// due.
pub proof fn law_third_report_halves_the_window(s: AssociationView, tsn: u32, htna: u32)
    requires
        s.inflight_queue.chunks.contains_key(tsn),
        !s.inflight_queue.chunks[tsn].acked,
        !s.inflight_queue.chunks[tsn].given_up(),
        s.inflight_queue.chunks[tsn].miss_indicator == 2,
        !s.tcb.cc.in_fast_recovery,
        4 * s.tcb.conf.mtu <= u32::MAX,
    ensures
        ({
            let r = report_missing(s, tsn, htna);
            let half = s.tcb.cc.cwnd as int / 2;
            let least = 4 * s.tcb.conf.mtu;
            &&& r.tcb.cc.cwnd == if half >= least {
                half
            } else {
                least
            }
            &&& r.tcb.cc.ssthresh == r.tcb.cc.cwnd
            &&& r.tcb.cc.in_fast_recovery
            &&& r.tcb.owed.will_retransmit_fast
            &&& r.inflight_queue.chunks[tsn].miss_indicator == 3
        }),
{
}

/// While fast recovery lasts, further reports do not cut the window again.
pub proof fn law_window_is_cut_once(s: AssociationView, tsn: u32, max_tsn: u32, htna: u32)
    requires
        s.tcb.cc.in_fast_recovery,
    ensures
        report_all_missing(s, tsn, max_tsn, htna).0.tcb == s.tcb,
    decreases count_before(tsn, max_tsn),
{
    if before32(tsn, max_tsn) && s.inflight_queue.chunks.contains_key(tsn) {
        law_window_is_cut_once(report_missing(s, tsn, htna), tsn.wrapping_add(1), max_tsn, htna);
    }
}

} // verus!
