//! What a SACK does to the timers, to the measured round trip, to data that is given up, and to a
//! shutdown that waits.

use vstd::prelude::*;

use crate::association::laws_congestion::{
    after_reports, before_reports, first_outstanding, is_taken, lemma_gone_through,
    lemma_last_steps, lemma_len_only_acked, lemma_release_kept, lemma_reports_cut, moves,
    report_end, with_sack_counted,
};
use crate::association::laws_deadlines::{in_millis, law_started_timer_expires_in_time, wait};
use crate::association::laws_sack::{in_range, takes_sacks};
use crate::association::sack::{
    advanced, after_sack, block_acked, block_len, blocks_acked, count_upto, cumulatively_acked,
    fast_retransmission, gap_acked, pop_acked, pop_one, report_all_missing, selective_ack,
    skip_given_up, skipped_to, total_bytes_acked, Acked,
};
use crate::association::state::AssociationState;
use crate::association::timer::{RtoManager, Timer, TimerSlot, TimerTable};
use crate::association::view::{AssociationView, Owed, Sender, Tcb};
use crate::chunk::kinds::{GapAckBlock, SackView};
use crate::chunk::payload::{millis_between, Instant};
use crate::keys::sorted_keys;
use crate::queue::payload_queue::PayloadQueueView;
use crate::util::{after32, before32, fwd32, upto32};

verus! {

/// A measured round trip, in milliseconds, is taken into account. The first one is the smoothed
/// round trip and allows for as much again and once more; each later one moves the smoothed round
/// trip by an eighth of the way, and what is allowed for by a quarter of the way towards four
/// times the distance. The timeout is the sum, within one second and one minute.
pub proof fn law_round_trip_is_smoothed(m: RtoManager, rtt: u64)
    requires
        m.srtt <= 0xffff_ffff,
        m.rttvar4 <= 0xffff_ffff,
        rtt <= 0xffff_ffff,
    ensures
        ({
            let r = m.measured(rtt);
            let sum = r.srtt + r.rttvar4;
            let way = if m.srtt >= rtt {
                m.srtt - rtt
            } else {
                rtt - m.srtt
            };
            &&& m.srtt == 0 ==> r.srtt == rtt && r.rttvar4 == 2 * rtt
            &&& m.srtt != 0 ==> 8 * r.srtt <= 7 * m.srtt + rtt < 8 * r.srtt + 8
            &&& m.srtt != 0 ==> 4 * r.rttvar4 <= 3 * m.rttvar4 + 4 * way < 4 * r.rttvar4 + 4
            &&& sum < 1000 ==> r.rto == 1000
            &&& 1000 <= sum <= 60000 ==> r.rto == sum
            &&& sum > 60000 ==> r.rto == 60000
        }),
{
    reveal(RtoManager::measured);
}

/// The whole milliseconds between two points in time, which are counted in nanoseconds.
pub proof fn law_milliseconds(since: Instant, now: Instant)
    ensures
        now >= since ==> 1_000_000 * millis_between(since, now) <= now - since < 1_000_000 * (
        millis_between(since, now) + 1),
        now < since ==> millis_between(since, now) == 0,
{
    reveal(millis_between);
}

/// No chunk was sent just once.
pub open spec fn none_sent_once(q: PayloadQueueView) -> bool {
    forall|t: u32| #[trigger] q.chunks.contains_key(t) ==> q.chunks[t].acked || q.chunks[t].nsent
        != 1
}

proof fn lemma_popped_unmeasured(
    s: AssociationView,
    bytes: Map<u16, u64>,
    i: u32,
    cum: u32,
    now: Instant,
)
    requires
        none_sent_once(s.inflight_queue),
    ensures
        pop_acked(s, bytes, i, cum, now).s.tcb.rto_mgr == s.tcb.rto_mgr,
        none_sent_once(pop_acked(s, bytes, i, cum, now).s.inflight_queue),
    decreases count_upto(i, cum),
{
    if upto32(i, cum) {
        reveal(pop_one);
        reveal(cumulatively_acked);
        reveal(PayloadQueueView::popped);
        reveal(PayloadQueueView::pop);
        let (s1, bytes1) = pop_one(s, bytes, i, now);
        assert forall|t: u32| #[trigger] s1.inflight_queue.chunks.contains_key(t) implies
            s1.inflight_queue.chunks[t].acked || s1.inflight_queue.chunks[t].nsent != 1 by {
            assert(s.inflight_queue.chunks.contains_key(t));
        }
        if s.inflight_queue.popped(i) is Some {
            assert(s.inflight_queue.chunks.contains_key(i));
        }
        lemma_popped_unmeasured(s1, bytes1, i.wrapping_add(1), cum, now);
    }
}

proof fn lemma_block_unmeasured(a: Acked, cum: u32, start: u16, n: int, now: Instant)
    requires
        none_sent_once(a.s.inflight_queue),
    ensures
        block_acked(a, cum, start, n, now).s.tcb.rto_mgr == a.s.tcb.rto_mgr,
        none_sent_once(block_acked(a, cum, start, n, now).s.inflight_queue),
    decreases n,
{
    if n > 0 {
        lemma_block_unmeasured(a, cum, start, n - 1, now);
        let b = block_acked(a, cum, start, n - 1, now);
        let tsn = cum.wrapping_add((start + n - 1) as u32);
        reveal(PayloadQueueView::mark_as_acked);
        let q = b.s.inflight_queue;
        let r = gap_acked(b, tsn, now).s.inflight_queue;
        assert forall|t: u32| #[trigger] r.chunks.contains_key(t) implies r.chunks[t].acked
            || r.chunks[t].nsent != 1 by {
            assert(q.chunks.contains_key(t));
        }
        if q.chunks.contains_key(tsn) {
        }
    }
}

proof fn lemma_blocks_unmeasured(a: Acked, cum: u32, blocks: Seq<GapAckBlock>, k: int, now: Instant)
    requires
        none_sent_once(a.s.inflight_queue),
    ensures
        blocks_acked(a, cum, blocks, k, now).s.tcb.rto_mgr == a.s.tcb.rto_mgr,
        none_sent_once(blocks_acked(a, cum, blocks, k, now).s.inflight_queue),
    decreases k,
{
    if k > 0 {
        lemma_blocks_unmeasured(a, cum, blocks, k - 1, now);
        let b = blocks_acked(a, cum, blocks, k - 1, now);
        lemma_block_unmeasured(b, cum, blocks[k - 1].start, block_len(blocks[k - 1]), now);
    }
}

/// What the steps before the reports do.
proof fn lemma_before(s: AssociationView, d: SackView, now: Instant)
    requires
        s.wf(),
        is_taken(s, d, now),
    ensures
        ({
            let b = selective_ack(with_sack_counted(s), d, now).s;
            let t = before_reports(s, d, now);
            let idle = b.inflight_queue.chunks.dom().is_empty();
            &&& t.inflight_queue == b.inflight_queue
            &&& t.tcb == (Tcb {
                cc: t.tcb.cc,
                tx: Sender { cumulative_tsn_ack_point: d.cumulative_tsn_ack, ..b.tcb.tx },
                timers: if !moves(s, d) {
                    b.tcb.timers
                } else if idle {
                    b.tcb.timers.stopped(Timer::T3RTX)
                } else {
                    b.tcb.timers.restarted_if_stale(Timer::T3RTX, now, b.tcb.rto_mgr.rto)
                },
                ..b.tcb
            })
        }),
{
    lemma_last_steps(s, d, now);
    lemma_gone_through(s, d, now);
    reveal(AssociationView::sack_windows);
    reveal(AssociationView::acked_upto);
    reveal(advanced);
    let b = selective_ack(with_sack_counted(s), d, now);
    let s1 = b.s.acked_upto(d.cumulative_tsn_ack, total_bytes_acked(b.bytes), now);
    let ids = sorted_keys(b.bytes.dom());
    lemma_release_kept(s1, b.bytes, ids, ids.len() as int);
}

/// What the reports do.
proof fn lemma_middle(s: AssociationView, d: SackView, now: Instant)
    requires
        4 * before_reports(s, d, now).tcb.conf.mtu <= u32::MAX,
    ensures
        ({
            let t = before_reports(s, d, now);
            let u = after_reports(s, d, now);
            &&& u.inflight_queue.chunks.dom() == t.inflight_queue.chunks.dom()
            &&& u.tcb == (Tcb { cc: u.tcb.cc, owed: u.tcb.owed, ..t.tcb })
        }),
{
    let b = selective_ack(with_sack_counted(s), d, now);
    let t = before_reports(s, d, now);
    let first = d.cumulative_tsn_ack.wrapping_add(1);
    lemma_reports_cut(t, first, report_end(s, d, now), b.htna);
    lemma_reports_dom(t, first, report_end(s, d, now), b.htna);
}

/// The last steps of a SACK.
spec fn ended(u: AssociationView, state: AssociationState, now: Instant) -> AssociationView {
    (if u.tcb.peer.use_forward_tsn {
        u.forward_point()
    } else {
        u
    }).postprocess_sack(state, now)
}

/// The association after the reports, with what was lost perhaps owed again.
spec fn owes_fast(u: AssociationView, v: AssociationView) -> bool {
    v == u || v == u.with_owed(Owed { will_retransmit_fast: true, ..u.tcb.owed })
}

/// The last steps come behind the reports.
proof fn lemma_ended(s: AssociationView, d: SackView, now: Instant) -> (v: AssociationView)
    requires
        s.wf(),
        is_taken(s, d, now),
    ensures
        owes_fast(after_reports(s, d, now), v),
        s.handle_sack(d, now).0 == ended(v, s.tcb.state, now),
{
    lemma_gone_through_state(s, d, now);
    reveal(AssociationView::handle_sack);
    reveal(AssociationView::sack_accepted);
    reveal(fast_retransmission);
    let b = selective_ack(with_sack_counted(s), d, now);
    let moved = before32(s.tcb.tx.cumulative_tsn_ack_point, d.cumulative_tsn_ack);
    assert(moved == moves(s, d));
    let t = before_reports(s, d, now);
    fast_retransmission(t, d.cumulative_tsn_ack, b.htna, moved).0
}

/// What the last steps do.
proof fn lemma_end(u: AssociationView, state: AssociationState, now: Instant)
    ensures
        ({
            let r = ended(u, state, now);
            let idle = u.inflight_queue.chunks.dom().is_empty();
            let point = u.tcb.tx.advanced_peer_tsn_ack_point;
            let cum = u.tcb.tx.cumulative_tsn_ack_point;
            let base = if before32(point, cum) {
                cum
            } else {
                point
            };
            &&& r.inflight_queue == u.inflight_queue
            &&& r.tcb.rto_mgr == u.tcb.rto_mgr
            &&& r.tcb.tx == (Sender {
                advanced_peer_tsn_ack_point: r.tcb.tx.advanced_peer_tsn_ack_point,
                ..u.tcb.tx
            })
            &&& r.tcb.timers == if idle {
                u.tcb.timers
            } else {
                u.tcb.timers.restarted_if_stale(Timer::T3RTX, now, u.tcb.rto_mgr.rto)
            }
            &&& idle && state == AssociationState::ShutdownPending ==> r.tcb.state
                == AssociationState::ShutdownSent && r.tcb.owed.will_send_shutdown
            &&& idle && state == AssociationState::ShutdownReceived ==> r.tcb.state
                == AssociationState::ShutdownAckSent && r.tcb.owed.will_send_shutdown_ack
            &&& !idle || state == AssociationState::Established ==> r.tcb.state == u.tcb.state
            &&& u.tcb.peer.use_forward_tsn ==> r.tcb.tx.advanced_peer_tsn_ack_point
                == skip_given_up(u.inflight_queue, base, u.inflight_queue.chunks.dom().len())
            &&& u.tcb.peer.use_forward_tsn && after32(r.tcb.tx.advanced_peer_tsn_ack_point, cum)
                ==> r.tcb.owed.will_send_forward_tsn
        }),
{
    reveal(skipped_to);
    reveal(after_sack);
}

proof fn lemma_gone_through_state(s: AssociationView, d: SackView, now: Instant)
    requires
        s.wf(),
        is_taken(s, d, now),
    ensures
        selective_ack(with_sack_counted(s), d, now).err is None,
        selective_ack(with_sack_counted(s), d, now).s.tcb.state == s.tcb.state,
        selective_ack(
            with_sack_counted(s),
            d,
            now,
        ).s.tcb.tx.cumulative_tsn_ack_point == s.tcb.tx.cumulative_tsn_ack_point,
{
    lemma_last_steps(s, d, now);
    lemma_gone_through(s, d, now);
}

/// What the last steps of a SACK leave alone, and what they do.
proof fn lemma_finish(s: AssociationView, d: SackView, now: Instant)
    requires
        s.wf(),
        is_taken(s, d, now),
        4 * s.tcb.conf.mtu <= u32::MAX,
    ensures
        ({
            let r = s.handle_sack(d, now).0;
            let b = selective_ack(with_sack_counted(s), d, now).s;
            let idle = r.inflight_queue.chunks.dom().is_empty();
            let point = s.tcb.tx.advanced_peer_tsn_ack_point;
            let base = if before32(point, d.cumulative_tsn_ack) {
                d.cumulative_tsn_ack
            } else {
                point
            };
            let timers = if !moves(s, d) {
                b.tcb.timers
            } else if idle {
                b.tcb.timers.stopped(Timer::T3RTX)
            } else {
                b.tcb.timers.restarted_if_stale(Timer::T3RTX, now, r.tcb.rto_mgr.rto)
            };
            &&& r.tcb.rto_mgr == b.tcb.rto_mgr
            &&& r.tcb.tx.min_tsn2measure_rtt == b.tcb.tx.min_tsn2measure_rtt
            &&& r.tcb.timers == if idle {
                timers
            } else {
                timers.restarted_if_stale(Timer::T3RTX, now, r.tcb.rto_mgr.rto)
            }
            &&& idle && s.tcb.state == AssociationState::ShutdownPending ==> r.tcb.state
                == AssociationState::ShutdownSent && r.tcb.owed.will_send_shutdown
            &&& idle && s.tcb.state == AssociationState::ShutdownReceived ==> r.tcb.state
                == AssociationState::ShutdownAckSent && r.tcb.owed.will_send_shutdown_ack
            &&& !idle || s.tcb.state == AssociationState::Established ==> r.tcb.state
                == s.tcb.state
            &&& r.inflight_queue.chunks.dom() == b.inflight_queue.chunks.dom()
            &&& s.tcb.peer.use_forward_tsn ==> r.tcb.tx.advanced_peer_tsn_ack_point
                == skip_given_up(r.inflight_queue, base, r.inflight_queue.chunks.dom().len())
            &&& s.tcb.peer.use_forward_tsn && after32(
                r.tcb.tx.advanced_peer_tsn_ack_point,
                d.cumulative_tsn_ack,
            ) ==> r.tcb.owed.will_send_forward_tsn
        }),
{
    lemma_last_steps(s, d, now);
    lemma_gone_through(s, d, now);
    lemma_before(s, d, now);
    lemma_middle(s, d, now);
    let v = lemma_ended(s, d, now);
    lemma_end(v, s.tcb.state, now);
}

proof fn lemma_reports_dom(s: AssociationView, tsn: u32, max_tsn: u32, htna: u32)
    ensures
        report_all_missing(s, tsn, max_tsn, htna).0.inflight_queue.chunks.dom()
            == s.inflight_queue.chunks.dom(),
    decreases crate::association::sack::count_before(tsn, max_tsn),
{
    if before32(tsn, max_tsn) && s.inflight_queue.chunks.contains_key(tsn) {
        let a = crate::association::sack::report_missing(s, tsn, htna);
        assert(a.inflight_queue.chunks.dom() =~= s.inflight_queue.chunks.dom());
        lemma_reports_dom(a, tsn.wrapping_add(1), max_tsn, htna);
    }
}

/// No round trip is measured with data that was sent more than once: nobody knows which time is
/// acknowledged.
pub proof fn law_only_data_sent_once_is_measured(s: AssociationView, d: SackView, now: Instant)
    requires
        s.wf(),
        is_taken(s, d, now),
        4 * s.tcb.conf.mtu <= u32::MAX,
        none_sent_once(s.inflight_queue),
    ensures
        s.handle_sack(d, now).0.tcb.rto_mgr == s.tcb.rto_mgr,
{
    lemma_finish(s, d, now);
    reveal(selective_ack);
    let s0 = with_sack_counted(s);
    let none = Map::<u16, u64>::empty();
    let cum = d.cumulative_tsn_ack;
    let first = first_outstanding(s);
    lemma_popped_unmeasured(s0, none, first, cum, now);
    let a = pop_acked(s0, none, first, cum, now);
    lemma_blocks_unmeasured(
        a,
        cum,
        d.gap_ack_blocks,
        d.gap_ack_blocks.len() as int,
        now,
    );
}

/// The acknowledgement of the oldest chunk, if it was sent once and is not older than what may be
/// measured, measures a round trip: the time from when it was sent. Nothing sent before the next
/// new chunk is measured after that.
pub proof fn law_acknowledged_chunk_is_measured(s: AssociationView, d: SackView, now: Instant)
    requires
        s.wf(),
        is_taken(s, d, now),
        4 * s.tcb.conf.mtu <= u32::MAX,
        d.cumulative_tsn_ack == first_outstanding(s),
        d.gap_ack_blocks.len() == 0,
        s.inflight_queue.chunks.contains_key(first_outstanding(s)),
    ensures
        ({
            let r = s.handle_sack(d, now).0;
            let c = s.inflight_queue.chunks[first_outstanding(s)];
            let o = fwd32(s.tcb.tx.min_tsn2measure_rtt, c.tsn);
            &&& !c.acked && c.nsent == 1 && c.since is Some && o < 0x8000_0000 ==> r.tcb.rto_mgr
                == s.tcb.rto_mgr.measured(millis_between(c.since->0, now))
            &&& !c.acked && c.nsent == 1 && o < 0x8000_0000 ==> r.tcb.tx.min_tsn2measure_rtt
                == s.tcb.tx.my_next_tsn
            &&& c.acked || c.nsent != 1 || o > 0x8000_0000 ==> r.tcb.rto_mgr == s.tcb.rto_mgr
        }),
{
    lemma_finish(s, d, now);
    reveal(selective_ack);
    reveal(pop_one);
    reveal(cumulatively_acked);
    reveal(PayloadQueueView::popped);
    reveal(PayloadQueueView::wf);
    let s0 = with_sack_counted(s);
    let none = Map::<u16, u64>::empty();
    let first = first_outstanding(s);
    lemma_last_steps(s, d, now);
    let (s1, bytes1) = pop_one(s0, none, first, now);
    reveal_with_fuel(pop_acked, 2);
    assert(pop_acked(s1, bytes1, first.wrapping_add(1), first, now).s == s1);
}

/// The slots of all timers but the retransmission timer are the same.
pub open spec fn same_but_t3(a: TimerTable, b: TimerTable) -> bool {
    &&& a.t1_init == b.t1_init
    &&& a.t1_cookie == b.t1_cookie
    &&& a.t2_shutdown == b.t2_shutdown
    &&& a.reconfig == b.reconfig
    &&& a.ack == b.ack
}

proof fn lemma_popped_timers(
    s: AssociationView,
    bytes: Map<u16, u64>,
    i: u32,
    cum: u32,
    now: Instant,
)
    ensures
        same_but_t3(pop_acked(s, bytes, i, cum, now).s.tcb.timers, s.tcb.timers),
        pop_acked(s, bytes, i, cum, now).s.tcb.timers.t3_rtx == s.tcb.timers.t3_rtx || pop_acked(
            s,
            bytes,
            i,
            cum,
            now,
        ).s.tcb.timers.t3_rtx == (TimerSlot { deadline: None, retrans: 0 }),
    decreases count_upto(i, cum),
{
    if upto32(i, cum) {
        reveal(pop_one);
        reveal(cumulatively_acked);
        let (s1, bytes1) = pop_one(s, bytes, i, now);
        lemma_popped_timers(s1, bytes1, i.wrapping_add(1), cum, now);
    }
}

proof fn lemma_block_timers(a: Acked, cum: u32, start: u16, n: int, now: Instant)
    ensures
        block_acked(a, cum, start, n, now).s.tcb.timers == a.s.tcb.timers,
    decreases n,
{
    if n > 0 {
        lemma_block_timers(a, cum, start, n - 1, now);
    }
}

proof fn lemma_blocks_timers(a: Acked, cum: u32, blocks: Seq<GapAckBlock>, k: int, now: Instant)
    ensures
        blocks_acked(a, cum, blocks, k, now).s.tcb.timers == a.s.tcb.timers,
    decreases k,
{
    if k > 0 {
        lemma_blocks_timers(a, cum, blocks, k - 1, now);
        let b = blocks_acked(a, cum, blocks, k - 1, now);
        lemma_block_timers(b, cum, blocks[k - 1].start, block_len(blocks[k - 1]), now);
    }
}

/// After a SACK that is taken the retransmission timer runs if data is in flight, and never
/// expired already; it does not run once the last data was acknowledged. No other timer is
/// touched.
pub proof fn law_retransmission_timer_covers_flight(s: AssociationView, d: SackView, now: Instant)
    requires
        s.wf(),
        is_taken(s, d, now),
        4 * s.tcb.conf.mtu <= u32::MAX,
    ensures
        ({
            let r = s.handle_sack(d, now).0;
            &&& same_but_t3(r.tcb.timers, s.tcb.timers)
            &&& !r.inflight_queue.chunks.dom().is_empty() ==> (
            r.tcb.timers.t3_rtx.deadline matches Some(x) && x >= now)
            &&& r.inflight_queue.chunks.dom().is_empty() && moves(s, d) ==> r.tcb.timers.t3_rtx
                == (TimerSlot { deadline: None, retrans: 0 })
        }),
{
    lemma_finish(s, d, now);
    reveal(selective_ack);
    reveal(TimerTable::started);
    let s0 = with_sack_counted(s);
    let none = Map::<u16, u64>::empty();
    let first = first_outstanding(s);
    let cum = d.cumulative_tsn_ack;
    lemma_popped_timers(s0, none, first, cum, now);
    let a = pop_acked(s0, none, first, cum, now);
    lemma_blocks_timers(a, cum, d.gap_ack_blocks, d.gap_ack_blocks.len() as int, now);
}

/// A SACK that acknowledges the oldest data in flight for the first time starts the retransmission
/// timer anew for what is still in flight: with the whole timeout, and as one that never expired.
/// A SACK that does not move the acknowledgement point leaves a timer alone that runs.
pub proof fn law_acknowledged_data_restarts_the_timer(s: AssociationView, d: SackView, now: Instant)
    requires
        s.wf(),
        is_taken(s, d, now),
        4 * s.tcb.conf.mtu <= u32::MAX,
        s.handle_sack(d, now).0.tcb.rto_mgr.rto > 0,
    ensures
        ({
            let r = s.handle_sack(d, now).0;
            let first = first_outstanding(s);
            let is_oldest_new = moves(s, d) && s.inflight_queue.chunks.contains_key(first)
                && !s.inflight_queue.chunks[first].acked;
            &&& is_oldest_new && !r.inflight_queue.chunks.dom().is_empty() ==> {
                &&& r.tcb.timers.t3_rtx.retrans == 0
                &&& r.tcb.timers.t3_rtx.deadline matches Some(x) && x == in_millis(
                    now,
                    wait(r.tcb.rto_mgr.rto, 0),
                )
            }
            &&& !moves(s, d) && (s.tcb.timers.t3_rtx.deadline matches Some(x) && x >= now)
                ==> r.tcb.timers.t3_rtx == s.tcb.timers.t3_rtx
        }),
{
    lemma_finish(s, d, now);
    reveal(selective_ack);
    let s0 = with_sack_counted(s);
    let none = Map::<u16, u64>::empty();
    let first = first_outstanding(s);
    let cum = d.cumulative_tsn_ack;
    let a = pop_acked(s0, none, first, cum, now);
    lemma_blocks_timers(a, cum, d.gap_ack_blocks, d.gap_ack_blocks.len() as int, now);
    let r = s.handle_sack(d, now).0;
    lemma_last_steps(s, d, now);
    lemma_gone_through(s, d, now);
    assert(a.err is None);
    let idle_slot = TimerSlot { deadline: None, retrans: 0 };
    if moves(s, d) {
        reveal(pop_one);
        reveal(cumulatively_acked);
        reveal(PayloadQueueView::popped);
        let (s1, bytes1) = pop_one(s0, none, first, now);
        assert(upto32(first, cum));
        assert(s0.inflight_queue.popped(first) == Some(s.inflight_queue.chunks[first]));
        lemma_popped_timers(s1, bytes1, first.wrapping_add(1), cum, now);
        assert(a == pop_acked(s1, bytes1, first.wrapping_add(1), cum, now));
        assert(!s.inflight_queue.chunks[first].acked ==> s1.tcb.timers.t3_rtx == idle_slot);
        assert(!s.inflight_queue.chunks[first].acked ==> a.s.tcb.timers.t3_rtx == idle_slot);
        law_started_timer_expires_in_time(a.s.tcb.timers, Timer::T3RTX, now, r.tcb.rto_mgr.rto);
    }
}

proof fn lemma_skips(q: PayloadQueueView, point: u32, n: nat)
    requires
        n < 0x1_0000_0000,
    ensures
        ({
            let p = skip_given_up(q, point, n);
            &&& fwd32(point, p) <= n
            &&& forall|t: u32|
                0 < #[trigger] fwd32(point, t) <= fwd32(point, p) ==> q.chunks.contains_key(t)
                    && q.chunks[t].abandoned && q.chunks[t].all_inflight
            &&& fwd32(point, p) == n || !(q.chunks.contains_key(p.wrapping_add(1))
                && q.chunks[p.wrapping_add(1)].abandoned
                && q.chunks[p.wrapping_add(1)].all_inflight)
        }),
    decreases n,
{
    if n > 0 {
        let next = point.wrapping_add(1);
        if q.chunks.contains_key(next) && q.chunks[next].given_up() {
            let m = (n - 1) as nat;
            lemma_skips(q, next, m);
            let p = skip_given_up(q, point, n);
            assert(fwd32(point, next) == 1);
            assert forall|t: u32|
                0 < #[trigger] fwd32(point, t) <= fwd32(point, p) implies q.chunks.contains_key(t)
                && q.chunks[t].abandoned && q.chunks[t].all_inflight by {
                if t != next {
                    assert(0 < fwd32(next, t) <= fwd32(next, p));
                }
            }
        }
    }
}

/// Where both ends know FORWARD TSN, the point that the peer is told of moves, from the
/// acknowledged data or from where it was if that is ahead, over chunks that are given up, and
/// over all of them in a row. A FORWARD TSN is owed if the point is then ahead of the acknowledged
/// data.
pub proof fn law_forward_point_skips_what_is_given_up(
    s: AssociationView,
    d: SackView,
    now: Instant,
)
    requires
        s.wf(),
        is_taken(s, d, now),
        4 * s.tcb.conf.mtu <= u32::MAX,
        s.tcb.peer.use_forward_tsn,
        s.inflight_queue.chunks.dom().len() < 0x8000_0000,
    ensures
        ({
            let r = s.handle_sack(d, now).0;
            let q = r.inflight_queue;
            let cum = d.cumulative_tsn_ack;
            let was = s.tcb.tx.advanced_peer_tsn_ack_point;
            let base = if 0 < fwd32(was, cum) < 0x8000_0000 {
                cum
            } else {
                was
            };
            let p = r.tcb.tx.advanced_peer_tsn_ack_point;
            let next = p.wrapping_add(1);
            &&& forall|t: u32|
                0 < #[trigger] fwd32(base, t) <= fwd32(base, p) ==> q.chunks.contains_key(t)
                    && q.chunks[t].abandoned && q.chunks[t].all_inflight
            &&& fwd32(base, p) == q.chunks.dom().len() || !(q.chunks.contains_key(next)
                && q.chunks[next].abandoned && q.chunks[next].all_inflight)
            &&& 0 < fwd32(cum, p) < 0x8000_0000 ==> r.tcb.owed.will_send_forward_tsn
        }),
{
    lemma_finish(s, d, now);
    lemma_last_steps(s, d, now);
    lemma_gone_through(s, d, now);
    let b = selective_ack(with_sack_counted(s), d, now);
    reveal(PayloadQueueView::wf);
    lemma_len_only_acked(s.inflight_queue, b.s.inflight_queue);
    let r = s.handle_sack(d, now).0;
    let was = s.tcb.tx.advanced_peer_tsn_ack_point;
    let base = if before32(was, d.cumulative_tsn_ack) {
        d.cumulative_tsn_ack
    } else {
        was
    };
    lemma_skips(r.inflight_queue, base, r.inflight_queue.chunks.dom().len());
}

/// A shutdown that waited for data in flight goes on with the SACK that acknowledges the last of
/// it, and only then.
pub proof fn law_last_acknowledgement_lets_shutdown_go_on(
    s: AssociationView,
    d: SackView,
    now: Instant,
)
    requires
        s.wf(),
        is_taken(s, d, now),
        4 * s.tcb.conf.mtu <= u32::MAX,
    ensures
        ({
            let r = s.handle_sack(d, now).0;
            let idle = r.inflight_queue.chunks.dom().is_empty();
            &&& idle && s.tcb.state == AssociationState::ShutdownPending ==> r.tcb.state
                == AssociationState::ShutdownSent && r.tcb.owed.will_send_shutdown
            &&& idle && s.tcb.state == AssociationState::ShutdownReceived ==> r.tcb.state
                == AssociationState::ShutdownAckSent && r.tcb.owed.will_send_shutdown_ack
            &&& !idle || s.tcb.state == AssociationState::Established ==> r.tcb.state
                == s.tcb.state
        }),
{
    lemma_finish(s, d, now);
}

proof fn lemma_missing_stops(
    s: AssociationView,
    bytes: Map<u16, u64>,
    i: u32,
    cum: u32,
    now: Instant,
    t: u32,
)
    requires
        in_range(i, t, cum),
        !s.inflight_queue.chunks.contains_key(t),
    ensures
        pop_acked(s, bytes, i, cum, now).err is Some,
    decreases count_upto(i, cum),
{
    reveal(pop_one);
    reveal(PayloadQueueView::pop);
    reveal(PayloadQueueView::popped);
    if upto32(i, cum) && s.inflight_queue.popped(i) is Some {
        let (s1, bytes1) = pop_one(s, bytes, i, now);
        assert(i != t);
        lemma_missing_stops(s1, bytes1, i.wrapping_add(1), cum, now, t);
    }
}

/// Only data in flight can be acknowledged: a SACK whose TSN moves over one that is not is an
/// error.
pub proof fn law_unsent_data_cannot_be_acknowledged(
    s: AssociationView,
    d: SackView,
    now: Instant,
    t: u32,
)
    requires
        takes_sacks(s.tcb.state),
        !after32(s.tcb.tx.cumulative_tsn_ack_point, d.cumulative_tsn_ack),
        in_range(s.tcb.tx.cumulative_tsn_ack_point.wrapping_add(1), t, d.cumulative_tsn_ack),
        !s.inflight_queue.chunks.contains_key(t),
    ensures
        s.handle_sack(d, now).1 is Err,
{
    reveal(AssociationView::handle_sack);
    reveal(selective_ack);
    let first = s.tcb.tx.cumulative_tsn_ack_point.wrapping_add(1);
    lemma_missing_stops(
        with_sack_counted(s),
        Map::empty(),
        first,
        d.cumulative_tsn_ack,
        now,
        t,
    );
}

} // verus!
