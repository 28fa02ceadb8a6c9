//! How a SACK moves the congestion window and what it says of missing data.

use vstd::prelude::*;

use crate::association::laws_release::lemma_sorted_dom;
use crate::association::laws_sack::{in_range, is_acked, lemma_popped, takes_sacks};
use crate::association::sack::{
    add_bytes, advanced, after_sack, block_acked, block_len, blocks_acked, count_before, count_upto,
    cumulatively_acked, fast_retransmission, gap_acked, pop_acked, pop_one, release_buffers,
    report_all_missing, report_missing, selective_ack, skipped_to, sum_bytes, total_bytes_acked,
    Acked,
};
use crate::association::stats::AssociationStats;
use crate::association::view::{AssociationView, Congestion, Owed, Tcb};
use crate::chunk::kinds::{GapAckBlock, SackView};
use crate::chunk::payload::{DataView, Instant};
use crate::keys::{lemma_ascending_distinct, sorted_keys};
use crate::queue::payload_queue::{
    lemma_mark_as_acked_wf, lemma_pop_wf, lemma_total_bytes_remove, total_bytes, PayloadQueueView,
};
use crate::util::{after32, before32, fwd32, low32, upto32};

verus! {

/// The chunks that wait for their acknowledgement.
pub open spec fn unacked_chunks(q: PayloadQueueView) -> Map<u32, DataView> {
    q.chunks.restrict(Set::new(|t: u32| q.chunks.contains_key(t) && !q.chunks[t].acked))
}

/// The bytes that wait for their acknowledgement.
pub open spec fn unacked(q: PayloadQueueView) -> nat {
    total_bytes(unacked_chunks(q))
}

proof fn lemma_unacked_finite(q: PayloadQueueView)
    requires
        q.chunks.dom().finite(),
    ensures
        unacked_chunks(q).dom().finite(),
{
    assert(unacked_chunks(q).dom().subset_of(q.chunks.dom()));
    vstd::set_lib::lemma_len_subset(unacked_chunks(q).dom(), q.chunks.dom());
}

/// What waits for its acknowledgement, with one chunk taken out or acknowledged.
proof fn lemma_unacked_less(q: PayloadQueueView, r: PayloadQueueView, t: u32)
    requires
        q.chunks.dom().finite(),
        q.chunks.contains_key(t),
        r.chunks == q.chunks.remove(t) || (r.chunks == q.chunks.insert(t, r.chunks[t])
            && r.chunks[t].acked),
    ensures
        unacked(q) == unacked(r) + if q.chunks[t].acked {
            0
        } else {
            q.chunks[t].user_data.len()
        },
{
    lemma_unacked_finite(q);
    let m = unacked_chunks(q);
    let n = unacked_chunks(r);
    assert(n =~= m.remove(t));
    if m.contains_key(t) {
        lemma_total_bytes_remove(m, t);
    } else {
        assert(m.remove(t) =~= m);
    }
}

/// The same chunks wait if only other things about them change.
proof fn lemma_unacked_same(q: PayloadQueueView, r: PayloadQueueView, t: u32)
    requires
        q.chunks.dom().finite(),
        q.chunks.contains_key(t),
        r.chunks == q.chunks.insert(t, r.chunks[t]),
        r.chunks[t].acked == q.chunks[t].acked,
        r.chunks[t].user_data == q.chunks[t].user_data,
    ensures
        unacked(r) == unacked(q),
{
    lemma_unacked_finite(q);
    let m = unacked_chunks(q);
    let n = unacked_chunks(r);
    assert(n.dom() =~= m.dom());
    crate::queue::payload_queue::lemma_total_bytes_same(m, n);
}

/// The sum of counts.
pub open spec fn map_sum(m: Map<u16, u64>) -> nat
    decreases m.dom().len(),
    when m.dom().finite()
{
    if m.dom().len() == 0 {
        0
    } else {
        let k = m.dom().choose();
        m[k] as nat + map_sum(m.remove(k))
    }
}

proof fn lemma_map_sum_remove(m: Map<u16, u64>, t: u16)
    requires
        m.dom().finite(),
        m.contains_key(t),
    ensures
        map_sum(m) == m[t] + map_sum(m.remove(t)),
    decreases m.dom().len(),
{
    let k = m.dom().choose();
    if k != t {
        let a = m.remove(k);
        let b = m.remove(t);
        lemma_map_sum_remove(a, t);
        lemma_map_sum_remove(b, k);
        assert(a.remove(t) =~= b.remove(k));
    }
}

proof fn lemma_map_sum_add(m: Map<u16, u64>, si: u16, n: nat)
    requires
        m.dom().finite(),
        map_sum(m) + n <= u64::MAX,
    ensures
        map_sum(add_bytes(m, si, n)) == map_sum(m) + n,
        add_bytes(m, si, n).dom().finite(),
{
    let r = add_bytes(m, si, n);
    lemma_map_sum_remove(r, si);
    assert(r.remove(si) =~= m.remove(si));
    if m.contains_key(si) {
        lemma_map_sum_remove(m, si);
    } else {
        assert(m.remove(si) =~= m);
    }
}

/// The counts of the first `n` streams.
spec fn first_counts(m: Map<u16, u64>, ids: Seq<u16>, n: int) -> Map<u16, u64> {
    m.restrict(ids.take(n).to_set())
}

proof fn lemma_sum(m: Map<u16, u64>, ids: Seq<u16>, n: int)
    requires
        m.dom().finite(),
        ids.no_duplicates(),
        ids.to_set() == m.dom(),
        0 <= n <= ids.len(),
        map_sum(m) <= u64::MAX,
    ensures
        first_counts(m, ids, n).dom().finite(),
        map_sum(first_counts(m, ids, n)) <= map_sum(m),
        sum_bytes(m, ids, n) == map_sum(first_counts(m, ids, n)),
    decreases n,
{
    let f = first_counts(m, ids, n);
    assert(f.dom().subset_of(m.dom()));
    vstd::set_lib::lemma_len_subset(f.dom(), m.dom());
    lemma_sub_sum(f, m);
    if n == 0 {
        assert(f.dom() =~= Set::empty());
    } else {
        let id = ids[n - 1];
        let e = first_counts(m, ids, n - 1);
        lemma_sum(m, ids, n - 1);
        assert(ids.to_set().contains(id)) by {
            assert(ids.contains(ids[n - 1]));
        }
        assert(ids.take(n)[n - 1] == id);
        assert(ids.take(n).to_set().contains(id));
        assert(f.remove(id) =~= e) by {
            assert forall|x: u16| f.remove(id).contains_key(x) <==> e.contains_key(x) by {
                if ids.take(n).contains(x) && x != id {
                    let j = choose|j: int| 0 <= j < n && ids.take(n)[j] == x;
                    assert(ids.take(n - 1)[j] == x);
                }
                if ids.take(n - 1).contains(x) {
                    let front = ids.take(n - 1);
                    let j = choose|j: int| 0 <= j < front.len() && front[j] == x;
                    assert(ids.take(n)[j] == x);
                    assert(ids[j] == x && ids[n - 1] == id);
                }
            }
        }
        lemma_map_sum_remove(f, id);
    }
}

proof fn lemma_sub_sum(f: Map<u16, u64>, m: Map<u16, u64>)
    requires
        m.dom().finite(),
        f.dom().finite(),
        forall|x: u16| #[trigger] f.contains_key(x) ==> m.contains_key(x) && m[x] == f[x],
    ensures
        map_sum(f) <= map_sum(m),
    decreases m.dom().len(),
{
    if m.dom().len() == 0 {
        assert(f.dom() =~= Set::empty());
    } else {
        let k = m.dom().choose();
        lemma_map_sum_remove(m, k);
        if f.contains_key(k) {
            lemma_map_sum_remove(f, k);
            lemma_sub_sum(f.remove(k), m.remove(k));
        } else {
            lemma_sub_sum(f, m.remove(k));
        }
    }
}

proof fn lemma_total(m: Map<u16, u64>)
    requires
        m.dom().finite(),
        map_sum(m) <= u64::MAX,
    ensures
        total_bytes_acked(m) == map_sum(m),
{
    let ids = sorted_keys(m.dom());
    lemma_sorted_dom(m.dom());
    lemma_ascending_distinct(ids);
    let n = ids.len() as int;
    lemma_sum(m, ids, n);
    assert(ids.take(n) =~= ids);
    assert(first_counts(m, ids, n) =~= m);
}

/// What is counted and what still waits make up what waited at first.
pub open spec fn counted(q0: PayloadQueueView, q: PayloadQueueView, bytes: Map<u16, u64>) -> bool {
    &&& q.wf()
    &&& bytes.dom().finite()
    &&& unacked(q0) <= u64::MAX
    &&& map_sum(bytes) + unacked(q) == unacked(q0)
}

/// What does not change while the chunks that a SACK acknowledges are gone through.
pub open spec fn kept(s: AssociationView, r: AssociationView) -> bool {
    &&& r.pending_queue == s.pending_queue
    &&& r.tcb.conf == s.tcb.conf
    &&& r.tcb.state == s.tcb.state
    &&& r.tcb.peer == s.tcb.peer
    &&& r.tcb.owed == s.tcb.owed
    &&& r.tcb.tx.cumulative_tsn_ack_point == s.tcb.tx.cumulative_tsn_ack_point
    &&& r.tcb.tx.advanced_peer_tsn_ack_point == s.tcb.tx.advanced_peer_tsn_ack_point
    &&& r.tcb.tx.my_next_tsn == s.tcb.tx.my_next_tsn
    &&& r.tcb.cc == (Congestion { in_fast_recovery: r.tcb.cc.in_fast_recovery, ..s.tcb.cc })
}

/// A chunk that stays in flight is as it was, but may be acknowledged.
pub open spec fn only_acked(q: PayloadQueueView, r: PayloadQueueView) -> bool {
    forall|t: u32| #[trigger]
        r.chunks.contains_key(t) ==> q.chunks.contains_key(t) && (r.chunks[t] == q.chunks[t]
            || (!q.chunks[t].acked && r.chunks[t] == (DataView {
            acked: true,
            retransmit: false,
            user_data: seq![],
            ..q.chunks[t]
        })))
}

proof fn lemma_popped_counted(
    q0: PayloadQueueView,
    s: AssociationView,
    bytes: Map<u16, u64>,
    i: u32,
    cum: u32,
    now: Instant,
)
    requires
        counted(q0, s.inflight_queue, bytes),
        pop_acked(s, bytes, i, cum, now).err is None,
    ensures
        ({
            let a = pop_acked(s, bytes, i, cum, now);
            &&& counted(q0, a.s.inflight_queue, a.bytes)
            &&& kept(s, a.s)
            &&& only_acked(s.inflight_queue, a.s.inflight_queue)
            &&& a.htna == cum
            &&& a.s.tcb.cc.in_fast_recovery == (s.tcb.cc.in_fast_recovery && !in_range(
                i,
                s.tcb.cc.fast_recover_exit_point,
                cum,
            ))
        }),
    decreases count_upto(i, cum),
{
    if upto32(i, cum) {
        reveal(pop_one);
        reveal(cumulatively_acked);
        reveal(PayloadQueueView::popped);
        reveal(PayloadQueueView::pop);
        reveal(PayloadQueueView::wf);
        let q = s.inflight_queue;
        let (s1, bytes1) = pop_one(s, bytes, i, now);
        let c = q.chunks[i];
        lemma_pop_wf(q, i);
        lemma_unacked_less(q, s1.inflight_queue, i);
        if !c.acked {
            lemma_map_sum_add(bytes, c.stream_identifier, c.user_data.len());
        }
        lemma_popped_counted(q0, s1, bytes1, i.wrapping_add(1), cum, now);
        let a = pop_acked(s, bytes, i, cum, now);
        assert forall|t: u32| #[trigger]
            a.s.inflight_queue.chunks.contains_key(t) implies q.chunks.contains_key(t) && (
        a.s.inflight_queue.chunks[t] == q.chunks[t] || (!q.chunks[t].acked
            && a.s.inflight_queue.chunks[t] == (DataView {
            acked: true,
            retransmit: false,
            user_data: seq![],
            ..q.chunks[t]
        }))) by {
            assert(s1.inflight_queue.chunks.contains_key(t));
            assert(s1.inflight_queue.chunks[t] == q.chunks[t]);
        }
    }
}

/// The highest TSN that is newly acknowledged, seen from `cum`.
pub open spec fn highest(q0: PayloadQueueView, q: PayloadQueueView, cum: u32, htna: u32) -> bool {
    &&& fwd32(cum, htna) <= 0xffff
    &&& htna != cum ==> newly_acked(q0, q, htna)
    &&& forall|u: u32| #[trigger] newly_acked(q0, q, u) ==> fwd32(cum, u) <= fwd32(cum, htna)
}

/// A chunk that is still in flight and that was not acknowledged before is acknowledged.
pub open spec fn newly_acked(q: PayloadQueueView, r: PayloadQueueView, t: u32) -> bool {
    is_acked(r, t) && !is_acked(q, t)
}

proof fn lemma_gap_counted(
    q0: PayloadQueueView,
    q1: PayloadQueueView,
    a: Acked,
    cum: u32,
    o: int,
    now: Instant,
)
    requires
        counted(q0, a.s.inflight_queue, a.bytes),
        only_acked(q1, a.s.inflight_queue),
        highest(q1, a.s.inflight_queue, cum, a.htna),
        0 <= o <= 0xffff,
        gap_acked(a, cum.wrapping_add(o as u32), now).err is None,
    ensures
        ({
            let b = gap_acked(a, cum.wrapping_add(o as u32), now);
            &&& counted(q0, b.s.inflight_queue, b.bytes)
            &&& kept(a.s, b.s)
            &&& b.s.tcb.cc == a.s.tcb.cc
            &&& only_acked(q1, b.s.inflight_queue)
            &&& highest(q1, b.s.inflight_queue, cum, b.htna)
        }),
{
    let tsn = cum.wrapping_add(o as u32);
    let q = a.s.inflight_queue;
    assert(fwd32(cum, tsn) == o);
    if q.chunks.contains_key(tsn) && !q.chunks[tsn].acked {
        reveal(PayloadQueueView::mark_as_acked);
        reveal(PayloadQueueView::wf);
        lemma_mark_as_acked_wf(q, tsn);
        let r = q.mark_as_acked(tsn);
        let c = q.chunks[tsn];
        lemma_unacked_less(q, r, tsn);
        lemma_map_sum_add(a.bytes, c.stream_identifier, c.user_data.len());
        let b = gap_acked(a, tsn, now);
        assert(q1.chunks[tsn] == c);
        assert(newly_acked(q1, r, tsn));
        assert forall|u: u32| #[trigger] newly_acked(q1, r, u) implies fwd32(cum, u) <= fwd32(
            cum,
            b.htna,
        ) by {
            if u != tsn {
                assert(newly_acked(q1, q, u));
            }
        }
        assert(b.htna != cum ==> newly_acked(q1, r, b.htna)) by {
            if b.htna != tsn && b.htna != cum {
                assert(newly_acked(q1, q, b.htna));
            }
        }
    }
}

proof fn lemma_block_counted(
    q0: PayloadQueueView,
    q1: PayloadQueueView,
    a: Acked,
    cum: u32,
    start: u16,
    n: int,
    now: Instant,
)
    requires
        counted(q0, a.s.inflight_queue, a.bytes),
        only_acked(q1, a.s.inflight_queue),
        highest(q1, a.s.inflight_queue, cum, a.htna),
        a.err is None,
        start + n <= 0x1_0000,
        block_acked(a, cum, start, n, now).err is None,
    ensures
        ({
            let b = block_acked(a, cum, start, n, now);
            &&& counted(q0, b.s.inflight_queue, b.bytes)
            &&& kept(a.s, b.s)
            &&& b.s.tcb.cc == a.s.tcb.cc
            &&& only_acked(q1, b.s.inflight_queue)
            &&& highest(q1, b.s.inflight_queue, cum, b.htna)
        }),
    decreases n,
{
    if n > 0 {
        lemma_block_counted(q0, q1, a, cum, start, n - 1, now);
        let c = block_acked(a, cum, start, n - 1, now);
        lemma_gap_counted(q0, q1, c, cum, start + n - 1, now);
    }
}

proof fn lemma_blocks_counted(
    q0: PayloadQueueView,
    q1: PayloadQueueView,
    a: Acked,
    cum: u32,
    blocks: Seq<GapAckBlock>,
    k: int,
    now: Instant,
)
    requires
        counted(q0, a.s.inflight_queue, a.bytes),
        only_acked(q1, a.s.inflight_queue),
        highest(q1, a.s.inflight_queue, cum, a.htna),
        a.err is None,
        blocks_acked(a, cum, blocks, k, now).err is None,
        0 <= k <= blocks.len(),
    ensures
        ({
            let b = blocks_acked(a, cum, blocks, k, now);
            &&& counted(q0, b.s.inflight_queue, b.bytes)
            &&& kept(a.s, b.s)
            &&& b.s.tcb.cc == a.s.tcb.cc
            &&& only_acked(q1, b.s.inflight_queue)
            &&& highest(q1, b.s.inflight_queue, cum, b.htna)
        }),
    decreases k,
{
    if k > 0 {
        lemma_blocks_counted(q0, q1, a, cum, blocks, k - 1, now);
        let c = blocks_acked(a, cum, blocks, k - 1, now);
        lemma_block_counted(q0, q1, c, cum, blocks[k - 1].start, block_len(blocks[k - 1]), now);
    }
}

/// How a chunk is after it was reported missing once more: one that is acknowledged or given up
/// is not, and three reports are enough.
pub open spec fn once_more_missing(c: DataView) -> DataView {
    if c.acked || (c.abandoned && c.all_inflight) || c.miss_indicator >= 3 {
        c
    } else {
        DataView { miss_indicator: (c.miss_indicator + 1) as u32, ..c }
    }
}

/// The window is cut to a half, but to no less than four MTUs, and what was lost is to be sent
/// again fast.
pub open spec fn cut(t: Tcb, r: Tcb) -> bool {
    let half = t.cc.cwnd as int / 2;
    let least = 4 * t.conf.mtu;
    &&& r.cc.cwnd == if half >= least {
        half
    } else {
        least
    }
    &&& r.cc.ssthresh == r.cc.cwnd
    &&& r.cc.partial_bytes_acked == 0
    &&& r.cc.in_fast_recovery
    &&& r.cc.rwnd == t.cc.rwnd
    &&& r.owed.will_retransmit_fast
}

/// The chunks after all reports.
pub proof fn lemma_reports(s: AssociationView, tsn: u32, max_tsn: u32, htna: u32)
    requires
        s.inflight_queue.chunks.dom().finite(),
        report_all_missing(s, tsn, max_tsn, htna).1,
    ensures
        ({
            let r = report_all_missing(s, tsn, max_tsn, htna).0;
            let q = s.inflight_queue;
            &&& r.inflight_queue.chunks.dom() == q.chunks.dom()
            &&& unacked(r.inflight_queue) == unacked(q)
            &&& forall|t: u32| #[trigger]
                q.chunks.contains_key(t) ==> r.inflight_queue.chunks[t] == if before32(tsn, max_tsn)
                    && fwd32(tsn, t) < fwd32(tsn, max_tsn) {
                    once_more_missing(q.chunks[t])
                } else {
                    q.chunks[t]
                }
        }),
    decreases count_before(tsn, max_tsn),
{
    let q = s.inflight_queue;
    let r = report_all_missing(s, tsn, max_tsn, htna).0;
    if before32(tsn, max_tsn) {
        let a = report_missing(s, tsn, htna);
        let p = a.inflight_queue;
        assert(p.chunks.dom() =~= q.chunks.dom());
        assert(p.chunks[tsn] == once_more_missing(q.chunks[tsn]));
        assert(forall|t: u32| #[trigger]
            q.chunks.contains_key(t) && t != tsn ==> p.chunks[t] == q.chunks[t]);
        if p != q {
            lemma_unacked_same(q, p, tsn);
        }
        lemma_reports(a, tsn.wrapping_add(1), max_tsn, htna);
        assert forall|t: u32| #[trigger]
            q.chunks.contains_key(t) implies r.inflight_queue.chunks[t] == if fwd32(tsn, t)
            < fwd32(tsn, max_tsn) {
            once_more_missing(q.chunks[t])
        } else {
            q.chunks[t]
        } by {
            assert(p.chunks.contains_key(t));
        }
    }
}

/// The control block after all reports.
pub proof fn lemma_reports_cut(s: AssociationView, tsn: u32, max_tsn: u32, htna: u32)
    requires
        4 * s.tcb.conf.mtu <= u32::MAX,
    ensures
        ({
            let r = report_all_missing(s, tsn, max_tsn, htna).0;
            &&& r.tcb == s.tcb || (!s.tcb.cc.in_fast_recovery && cut(s.tcb, r.tcb)
                && r.tcb.cc.fast_recover_exit_point == htna)
            &&& r.tcb == (Tcb { cc: r.tcb.cc, owed: r.tcb.owed, ..s.tcb })
            &&& r.tcb.owed == (Owed {
                will_retransmit_fast: r.tcb.owed.will_retransmit_fast,
                ..s.tcb.owed
            })
        }),
    decreases count_before(tsn, max_tsn),
{
    if before32(tsn, max_tsn) && s.inflight_queue.chunks.contains_key(tsn) {
        let a = report_missing(s, tsn, htna);
        lemma_reports_cut(a, tsn.wrapping_add(1), max_tsn, htna);
    }
}

/// Fast recovery begins with a third report, and with nothing else.
proof fn lemma_reports_third(s: AssociationView, tsn: u32, max_tsn: u32, htna: u32)
    requires
        s.inflight_queue.chunks.dom().finite(),
        4 * s.tcb.conf.mtu <= u32::MAX,
        !s.tcb.cc.in_fast_recovery,
        report_all_missing(s, tsn, max_tsn, htna).1,
    ensures
        ({
            let r = report_all_missing(s, tsn, max_tsn, htna).0;
            r.tcb.cc.in_fast_recovery <==> exists|t: u32| #[trigger]
                third_report(s.inflight_queue, r.inflight_queue, t)
        }),
    decreases count_before(tsn, max_tsn),
{
    let q = s.inflight_queue;
    let r = report_all_missing(s, tsn, max_tsn, htna).0;
    if before32(tsn, max_tsn) {
        let a = report_missing(s, tsn, htna);
        let p = a.inflight_queue;
        let next = tsn.wrapping_add(1);
        assert(p.chunks.dom() =~= q.chunks.dom());
        lemma_reports(s, tsn, max_tsn, htna);
        lemma_reports(a, next, max_tsn, htna);
        lemma_reports_cut(a, next, max_tsn, htna);
        assert(q.chunks.contains_key(tsn) && p.chunks.contains_key(tsn));
        if a.tcb.cc.in_fast_recovery {
            assert(third_report(q, r.inflight_queue, tsn));
        } else {
            lemma_reports_third(a, next, max_tsn, htna);
            if r.tcb.cc.in_fast_recovery {
                let t = choose|t: u32| #[trigger] third_report(p, r.inflight_queue, t);
                assert(q.chunks.contains_key(t));
                assert(third_report(q, r.inflight_queue, t));
            }
            if exists|t: u32| #[trigger] third_report(q, r.inflight_queue, t) {
                let t = choose|t: u32| #[trigger] third_report(q, r.inflight_queue, t);
                assert(third_report(p, r.inflight_queue, t));
            }
        }
    } else {
        assert(forall|t: u32| !third_report(q, q, t));
    }
}

/// A chunk was reported missing for the third time.
pub open spec fn third_report(q: PayloadQueueView, r: PayloadQueueView, t: u32) -> bool {
    &&& q.chunks.contains_key(t)
    &&& r.chunks.contains_key(t)
    &&& q.chunks[t].miss_indicator < 3
    &&& r.chunks[t].miss_indicator == 3
}

/// The association with a SACK counted.
pub open spec fn with_sack_counted(s: AssociationView) -> AssociationView {
    s.with(
        Tcb {
            stats: AssociationStats {
                n_sacks: s.tcb.stats.n_sacks.wrapping_add(1),
                ..s.tcb.stats
            },
            ..s.tcb
        },
    )
}

/// The first TSN that a SACK may acknowledge.
pub open spec fn first_outstanding(s: AssociationView) -> u32 {
    s.tcb.tx.cumulative_tsn_ack_point.wrapping_add(1)
}

/// Whether fast recovery lasts beyond a SACK's cumulative acknowledgement.
pub open spec fn recovery_lasts(s: AssociationView, d: SackView) -> bool {
    s.tcb.cc.in_fast_recovery && !in_range(
        first_outstanding(s),
        s.tcb.cc.fast_recover_exit_point,
        d.cumulative_tsn_ack,
    )
}

/// What holds once all that a SACK acknowledges was gone through.
pub proof fn lemma_gone_through(s: AssociationView, d: SackView, now: Instant)
    requires
        s.wf(),
        selective_ack(with_sack_counted(s), d, now).err is None,
    ensures
        ({
            let b = selective_ack(with_sack_counted(s), d, now);
            let q = s.inflight_queue;
            &&& counted(q, b.s.inflight_queue, b.bytes)
            &&& kept(s, b.s)
            &&& b.s.tcb.cc.in_fast_recovery == recovery_lasts(s, d)
            &&& only_acked(q, b.s.inflight_queue)
            &&& highest(q, b.s.inflight_queue, d.cumulative_tsn_ack, b.htna)
        }),
{
    reveal(selective_ack);
    reveal(PayloadQueueView::wf);
    let s0 = with_sack_counted(s);
    let q = s.inflight_queue;
    let cum = d.cumulative_tsn_ack;
    let first = first_outstanding(s);
    let none = Map::<u16, u64>::empty();
    lemma_unacked_finite(q);
    lemma_unacked_bounded(q);
    let a = pop_acked(s0, none, first, cum, now);
    lemma_popped_counted(q, s0, none, first, cum, now);
    lemma_popped(s0, none, first, cum, now);
    let q1 = a.s.inflight_queue;
    assert(only_acked(q1, q1));
    let n = d.gap_ack_blocks.len() as int;
    lemma_blocks_counted(q, q1, a, cum, d.gap_ack_blocks, n, now);
    let b = blocks_acked(a, cum, d.gap_ack_blocks, n, now);
    let r = b.s.inflight_queue;
    assert forall|t: u32| r.chunks.contains_key(t) implies is_acked(q1, t) == is_acked(q, t) by {
        assert(q1.chunks.contains_key(t));
        assert(is_acked(q1, t) <==> is_acked(q, t) && !in_range(first, t, cum));
    }
    assert forall|t: u32| #[trigger] newly_acked(q, r, t) <==> newly_acked(q1, r, t) by {}
    assert(b.htna != cum ==> newly_acked(q1, r, b.htna));
    assert forall|t: u32| #[trigger] r.chunks.contains_key(t) implies q.chunks.contains_key(t) && (
    r.chunks[t] == q.chunks[t] || (!q.chunks[t].acked && r.chunks[t] == (DataView {
        acked: true,
        retransmit: false,
        user_data: seq![],
        ..q.chunks[t]
    }))) by {
        assert(q1.chunks.contains_key(t));
        assert(is_acked(q1, t) == is_acked(q, t));
    }
}

proof fn lemma_unacked_bounded(q: PayloadQueueView)
    requires
        q.wf(),
    ensures
        unacked(q) <= q.n_bytes,
{
    reveal(PayloadQueueView::wf);
    crate::association::laws_release::lemma_sub_bytes(unacked_chunks(q), q.chunks);
}

/// Whether the acknowledgement point moves.
pub open spec fn moves(s: AssociationView, d: SackView) -> bool {
    s.tcb.tx.cumulative_tsn_ack_point != d.cumulative_tsn_ack
}

/// The bytes that a SACK newly acknowledges.
pub open spec fn acked_by(s: AssociationView, r: AssociationView) -> int {
    unacked(s.inflight_queue) - unacked(r.inflight_queue)
}

/// The numbers of a window are small enough to grow.
pub open spec fn can_grow(s: AssociationView) -> bool {
    &&& 2 * s.tcb.cc.cwnd <= u32::MAX
    &&& s.tcb.cc.cwnd + s.tcb.conf.mtu <= u32::MAX
    &&& 4 * s.tcb.conf.mtu <= u32::MAX
    &&& s.tcb.cc.partial_bytes_acked + s.inflight_queue.n_bytes <= u32::MAX
}

/// A window `w` grows to `r` with `n` bytes acknowledged. It grows only if more data waits: in
/// slow start by `n`, up to its double, unless fast recovery lasts; in congestion avoidance by an
/// MTU, each time a whole window was acknowledged.
pub open spec fn grows(
    w: Congestion,
    r: Congestion,
    mtu: u32,
    waits: bool,
    recovers: bool,
    n: int,
) -> bool {
    let slow_start = w.cwnd <= w.ssthresh;
    let full = w.partial_bytes_acked + n >= w.cwnd;
    &&& r.ssthresh == w.ssthresh
    &&& slow_start ==> r.partial_bytes_acked == w.partial_bytes_acked
    &&& slow_start && waits && !recovers && n <= w.cwnd ==> r.cwnd == w.cwnd + n
    &&& slow_start && waits && !recovers && n > w.cwnd ==> r.cwnd == 2 * w.cwnd
    &&& slow_start && (!waits || recovers) ==> r.cwnd == w.cwnd
    &&& !slow_start && full && waits ==> r.cwnd == w.cwnd + mtu && r.partial_bytes_acked
        == w.partial_bytes_acked + n - w.cwnd
    &&& !slow_start && !(full && waits) ==> r.cwnd == w.cwnd && r.partial_bytes_acked
        == w.partial_bytes_acked + n
}

/// What the windows are before missing data is reported.
proof fn lemma_windows_grow(s: AssociationView, d: SackView, bytes: Map<u16, u64>, now: Instant)
    requires
        bytes.dom().finite(),
        2 * s.tcb.cc.cwnd <= u32::MAX,
        s.tcb.cc.cwnd + s.tcb.conf.mtu <= u32::MAX,
        s.tcb.cc.partial_bytes_acked + map_sum(bytes) <= u32::MAX,
        !after32(s.tcb.tx.cumulative_tsn_ack_point, d.cumulative_tsn_ack),
    ensures
        ({
            let r = s.sack_windows(d, bytes, now);
            let w = s.tcb.cc;
            &&& r.inflight_queue == s.inflight_queue
            &&& r.pending_queue == s.pending_queue
            &&& r.tcb == (Tcb { cc: r.tcb.cc, tx: r.tcb.tx, timers: r.tcb.timers, ..s.tcb })
            &&& r.tcb.tx == (crate::association::view::Sender {
                cumulative_tsn_ack_point: d.cumulative_tsn_ack,
                ..s.tcb.tx
            })
            &&& r.tcb.cc.in_fast_recovery == w.in_fast_recovery
            &&& r.tcb.cc.fast_recover_exit_point == w.fast_recover_exit_point
            &&& moves(s, d) ==> grows(
                w,
                r.tcb.cc,
                s.tcb.conf.mtu,
                s.pending_queue.len() > 0,
                w.in_fast_recovery,
                map_sum(bytes) as int,
            )
            &&& !moves(s, d) ==> r.tcb.cc == (Congestion { rwnd: r.tcb.cc.rwnd, ..w })
                && r.tcb.timers == s.tcb.timers
        }),
{
    reveal(AssociationView::sack_windows);
    reveal(AssociationView::acked_upto);
    reveal(advanced);
    lemma_total(bytes);
    let s1 = s.acked_upto(d.cumulative_tsn_ack, total_bytes_acked(bytes), now);
    let ids = sorted_keys(bytes.dom());
    lemma_release_kept(s1, bytes, ids, ids.len() as int);
}

pub proof fn lemma_release_kept(s: AssociationView, bytes: Map<u16, u64>, ids: Seq<u16>, n: int)
    ensures
        release_buffers(s, bytes, ids, n).tcb == s.tcb,
        release_buffers(s, bytes, ids, n).inflight_queue == s.inflight_queue,
        release_buffers(s, bytes, ids, n).pending_queue == s.pending_queue,
    decreases n,
{
    if n > 0 {
        lemma_release_kept(s, bytes, ids, n - 1);
    }
}

/// How a chunk stands that is still in flight after a SACK.
pub open spec fn reported(s: AssociationView, r: AssociationView, d: SackView, t: u32) -> bool {
    let o = fwd32(d.cumulative_tsn_ack, t);
    if recovery_lasts(s, d) {
        moves(s, d) && 0 < o <= r.inflight_queue.chunks.dom().len()
    } else {
        exists|u: u32| #[trigger]
            newly_acked(s.inflight_queue, r.inflight_queue, u) && 0 < o < fwd32(
                d.cumulative_tsn_ack,
                u,
            )
    }
}

/// The association before a SACK's missing data is reported.
pub open spec fn before_reports(s: AssociationView, d: SackView, now: Instant) -> AssociationView {
    let b = selective_ack(with_sack_counted(s), d, now);
    b.s.sack_windows(d, b.bytes, now)
}

/// The TSN before which data is reported missing.
pub open spec fn report_end(s: AssociationView, d: SackView, now: Instant) -> u32 {
    let t = before_reports(s, d, now);
    let cum = d.cumulative_tsn_ack;
    if !t.tcb.cc.in_fast_recovery {
        selective_ack(with_sack_counted(s), d, now).htna
    } else {
        cum.wrapping_add(low32(t.inflight_queue.chunks.dom().len() as int)).wrapping_add(1)
    }
}

/// The association after a SACK's missing data was reported.
pub open spec fn after_reports(s: AssociationView, d: SackView, now: Instant) -> AssociationView {
    let t = before_reports(s, d, now);
    if !t.tcb.cc.in_fast_recovery || moves(s, d) {
        report_all_missing(
            t,
            d.cumulative_tsn_ack.wrapping_add(1),
            report_end(s, d, now),
            selective_ack(with_sack_counted(s), d, now).htna,
        ).0
    } else {
        t
    }
}

/// A SACK that is taken.
pub open spec fn is_taken(s: AssociationView, d: SackView, now: Instant) -> bool {
    &&& takes_sacks(s.tcb.state)
    &&& !after32(s.tcb.tx.cumulative_tsn_ack_point, d.cumulative_tsn_ack)
    &&& s.handle_sack(d, now).1 is Ok
}

/// What comes after the reports leaves the chunks and the windows alone.
pub proof fn lemma_last_steps(s: AssociationView, d: SackView, now: Instant)
    requires
        s.wf(),
        is_taken(s, d, now),
    ensures
        selective_ack(with_sack_counted(s), d, now).err is None,
        s.handle_sack(d, now).0.inflight_queue == after_reports(s, d, now).inflight_queue,
        s.handle_sack(d, now).0.tcb.cc == after_reports(s, d, now).tcb.cc,
        after_reports(s, d, now).tcb.owed.will_retransmit_fast
            ==> s.handle_sack(d, now).0.tcb.owed.will_retransmit_fast,
        !before_reports(s, d, now).tcb.cc.in_fast_recovery || moves(s, d) ==> report_all_missing(
            before_reports(s, d, now),
            d.cumulative_tsn_ack.wrapping_add(1),
            report_end(s, d, now),
            selective_ack(with_sack_counted(s), d, now).htna,
        ).1,
{
    reveal(AssociationView::handle_sack);
    reveal(AssociationView::sack_accepted);
    reveal(fast_retransmission);
    reveal(skipped_to);
    reveal(after_sack);
    lemma_gone_through(s, d, now);
}

/// A SACK that is taken lets the congestion window grow with the bytes that it newly
/// acknowledges, if it moves the acknowledgement point. If it reports some data missing for the
/// third time, and fast recovery does not last, the window is then cut.
pub proof fn law_sack_moves_the_window(s: AssociationView, d: SackView, now: Instant)
    requires
        s.wf(),
        is_taken(s, d, now),
        can_grow(s),
    ensures
        ({
            let r = s.handle_sack(d, now).0;
            exists|w: Tcb|
                {
                    &&& #[trigger] grown(s, d, r, w)
                    &&& w.conf == s.tcb.conf
                    &&& w.cc.rwnd == r.tcb.cc.rwnd
                    &&& if !recovery_lasts(s, d) && exists|t: u32| #[trigger]
                        third_report(s.inflight_queue, r.inflight_queue, t) {
                        cut(w, r.tcb)
                    } else {
                        r.tcb.cc == w.cc
                    }
                }
        }),
{
    lemma_last_steps(s, d, now);
    lemma_gone_through(s, d, now);
    let b = selective_ack(with_sack_counted(s), d, now);
    let q = s.inflight_queue;
    lemma_unacked_bounded(q);
    lemma_windows_grow(b.s, d, b.bytes, now);
    let t = before_reports(s, d, now);
    let r = s.handle_sack(d, now).0;
    let p = r.inflight_queue;
    let q3 = t.inflight_queue;
    let first = d.cumulative_tsn_ack.wrapping_add(1);
    let end = report_end(s, d, now);
    reveal(PayloadQueueView::wf);
    lemma_len_only_acked(q, q3);
    if !t.tcb.cc.in_fast_recovery || moves(s, d) {
        lemma_reports(t, first, end, b.htna);
        lemma_reports_cut(t, first, end, b.htna);
    }
    assert(p.chunks.dom() == q3.chunks.dom());
    assert forall|x: u32| #[trigger] third_report(q, p, x) <==> third_report(q3, p, x) by {
        if p.chunks.contains_key(x) {
            assert(q3.chunks.contains_key(x));
        }
    }
    if !t.tcb.cc.in_fast_recovery {
        lemma_reports_third(t, first, end, b.htna);
        if exists|x: u32| #[trigger] third_report(q, p, x) {
            let x = choose|x: u32| #[trigger] third_report(q, p, x);
            assert(third_report(q3, p, x));
        }
        if exists|x: u32| #[trigger] third_report(q3, p, x) {
            let x = choose|x: u32| #[trigger] third_report(q3, p, x);
            assert(third_report(q, p, x));
        }
    }
    assert(grown(s, d, r, t.tcb));
}

/// A SACK that is taken reports data missing once more exactly if data behind it is newly
/// acknowledged; while fast recovery lasts, all data in flight is reported, each time the
/// acknowledgement point moves. Nothing else about the data that stays in flight changes, but
/// that what is newly acknowledged drops its bytes.
pub proof fn law_missing_data_is_reported(s: AssociationView, d: SackView, now: Instant)
    requires
        s.wf(),
        is_taken(s, d, now),
        s.inflight_queue.chunks.dom().len() < 0x7fff_ffff,
    ensures
        ({
            let r = s.handle_sack(d, now).0;
            let q = s.inflight_queue;
            let p = r.inflight_queue;
            forall|t: u32| #[trigger]
                p.chunks.contains_key(t) ==> q.chunks.contains_key(t) && p.chunks[t] == if reported(
                    s,
                    r,
                    d,
                    t,
                ) {
                    once_more_missing(acked_or_same(q, p, t))
                } else {
                    acked_or_same(q, p, t)
                }
        }),
{
    lemma_last_steps(s, d, now);
    lemma_gone_through(s, d, now);
    reveal(PayloadQueueView::wf);
    let b = selective_ack(with_sack_counted(s), d, now);
    let t0 = before_reports(s, d, now);
    lemma_windows_keep(b.s, d, b.bytes, now);
    let r = s.handle_sack(d, now).0;
    let q = s.inflight_queue;
    let p = r.inflight_queue;
    let q3 = t0.inflight_queue;
    let cum = d.cumulative_tsn_ack;
    let first = cum.wrapping_add(1);
    let end = report_end(s, d, now);
    let reports = !t0.tcb.cc.in_fast_recovery || moves(s, d);
    lemma_len_only_acked(q, q3);
    if reports {
        lemma_reports(t0, first, end, b.htna);
    }
    assert(p.chunks.dom() == q3.chunks.dom());
    assert forall|t: u32| #[trigger] newly_acked(q, p, t) <==> newly_acked(q, q3, t) by {
        if q3.chunks.contains_key(t) {
            assert(p.chunks[t].acked == q3.chunks[t].acked);
        }
    }
    assert forall|t: u32| #[trigger] p.chunks.contains_key(t) implies q.chunks.contains_key(t)
        && p.chunks[t] == if reported(s, r, d, t) {
        once_more_missing(acked_or_same(q, p, t))
    } else {
        acked_or_same(q, p, t)
    } by {
        assert(q3.chunks.contains_key(t));
        assert(newly_acked(q, p, t) == newly_acked(q, q3, t));
        assert(q3.chunks[t] == acked_or_same(q, p, t));
        let o = fwd32(cum, t);
        let asked = reports && before32(first, end) && fwd32(first, t) < fwd32(first, end);
        if recovery_lasts(s, d) {
            assert(asked <==> reported(s, r, d, t));
        } else {
            if asked {
                assert(b.htna != cum);
                assert(newly_acked(q, q3, b.htna));
                assert(newly_acked(q, p, b.htna));
                assert(0 < o < fwd32(cum, b.htna));
            }
            if reported(s, r, d, t) {
                let u = choose|u: u32| #[trigger]
                    newly_acked(q, p, u) && 0 < o < fwd32(cum, u);
                assert(newly_acked(q, q3, u));
                assert(fwd32(cum, u) <= fwd32(cum, b.htna));
                assert(asked);
            }
        }
    }
}

pub proof fn lemma_windows_keep(s: AssociationView, d: SackView, bytes: Map<u16, u64>, now: Instant)
    ensures
        s.sack_windows(d, bytes, now).inflight_queue == s.inflight_queue,
        s.sack_windows(d, bytes, now).tcb.cc.in_fast_recovery == s.tcb.cc.in_fast_recovery,
{
    reveal(AssociationView::sack_windows);
    reveal(AssociationView::acked_upto);
    reveal(advanced);
    let s1 = s.acked_upto(d.cumulative_tsn_ack, total_bytes_acked(bytes), now);
    let ids = sorted_keys(bytes.dom());
    lemma_release_kept(s1, bytes, ids, ids.len() as int);
}

/// Fewer chunks are in flight.
pub proof fn lemma_len_only_acked(q: PayloadQueueView, r: PayloadQueueView)
    requires
        only_acked(q, r),
        q.chunks.dom().finite(),
    ensures
        r.chunks.dom().finite(),
        r.chunks.dom().len() <= q.chunks.dom().len(),
{
    assert(r.chunks.dom().subset_of(q.chunks.dom()));
    vstd::set_lib::lemma_len_subset(r.chunks.dom(), q.chunks.dom());
}

/// The chunk as it was, without its data if it is newly acknowledged.
pub open spec fn acked_or_same(q: PayloadQueueView, p: PayloadQueueView, t: u32) -> DataView {
    if newly_acked(q, p, t) {
        DataView { acked: true, retransmit: false, user_data: seq![], ..q.chunks[t] }
    } else {
        q.chunks[t]
    }
}

/// The windows `w` have grown with what a SACK acknowledges, or stayed as they were if the
/// acknowledgement point does not move.
pub open spec fn grown(s: AssociationView, d: SackView, r: AssociationView, w: Tcb) -> bool {
    &&& w.cc.in_fast_recovery == recovery_lasts(s, d)
    &&& moves(s, d) ==> grows(
        s.tcb.cc,
        w.cc,
        s.tcb.conf.mtu,
        s.pending_queue.len() > 0,
        recovery_lasts(s, d),
        acked_by(s, r),
    )
    &&& !moves(s, d) ==> w.cc.cwnd == s.tcb.cc.cwnd && w.cc.ssthresh == s.tcb.cc.ssthresh
        && w.cc.partial_bytes_acked == s.tcb.cc.partial_bytes_acked
}

} // verus!
