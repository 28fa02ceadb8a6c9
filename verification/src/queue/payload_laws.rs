//! What holds of a [`PayloadQueue`](crate::queue::payload_queue::PayloadQueue) over several
//! operations.

use vstd::prelude::*;

use crate::chunk::kinds::GapAckBlock;
use crate::chunk::payload::DataView;
use crate::queue::payload_history::{
    exact, lemma_ack_exact, lemma_duplicates_exact, lemma_empty_exact, lemma_pop_exact,
    lemma_push_exact, lemma_retransmit_exact,
};
use crate::queue::payload_queue::{
    acknowledged, gap_blocks, gap_offset, gap_offsets, lemma_mark_as_acked_wf,
    lemma_serial_sort_multiset, serial_insert, serial_sort, to_retransmit, PayloadQueueView,
};
use crate::util::{fwd32, lemma_serial_order_in_window, HALF_32};

verus! {

/// `t` lies in the half of the circle behind `base`.
pub open spec fn in_window(base: u32, t: u32) -> bool {
    1 <= fwd32(base, t) <= HALF_32
}

/// All TSNs lie in the half of the circle behind `base`.
pub open spec fn all_in_window(base: u32, s: Seq<u32>) -> bool {
    forall|i: int| 0 <= i < s.len() ==> in_window(base, #[trigger] s[i])
}

/// The TSNs lie in serial order behind `base`.
pub open spec fn in_order(base: u32, s: Seq<u32>) -> bool {
    forall|i: int, j: int|
        0 <= i < j < s.len() ==> fwd32(base, #[trigger] s[i]) <= fwd32(base, #[trigger] s[j])
}

/// A queue behind the cumulative TSN `base`: exact, with its TSNs in serial order, all behind
/// `base`.
pub open spec fn consistent(q: PayloadQueueView, base: u32) -> bool {
    &&& exact(q)
    &&& all_in_window(base, q.sorted)
    &&& in_order(base, q.sorted)
}

proof fn lemma_insert_in_order(base: u32, s: Seq<u32>, t: u32)
    requires
        all_in_window(base, s),
        in_order(base, s),
        in_window(base, t),
    ensures
        all_in_window(base, serial_insert(s, t)),
        in_order(base, serial_insert(s, t)),
        serial_insert(s, t).len() == s.len() + 1,
        serial_insert(s, t).last() == t || (s.len() > 0 && serial_insert(s, t).last() == s.last()),
    decreases s.len(),
{
    if s.len() == 0 {
    } else {
        lemma_serial_order_in_window(base, t, s.last());
        if fwd32(base, t) < fwd32(base, s.last()) {
            let d = s.drop_last();
            assert(all_in_window(base, d)) by {
                assert forall|i: int| 0 <= i < d.len() implies in_window(base, #[trigger] d[i]) by {
                    assert(d[i] == s[i]);
                }
            }
            lemma_insert_in_order(base, d, t);
            let r = serial_insert(d, t);
            let l = fwd32(base, s.last());
            assert(d.len() > 0 ==> d.last() == s[s.len() - 2]);
            assert(fwd32(base, r.last()) <= l);
            assert(serial_insert(s, t) == r.push(s.last()));
        } else {
            assert(serial_insert(s, t) == s.push(t));
        }
    }
}

/// Sorting keeps exactly the TSNs and, where they lie in one half of the circle behind some
/// `base`, puts them in serial order.
pub proof fn law_sorting_orders(base: u32, s: Seq<u32>)
    requires
        all_in_window(base, s),
    ensures
        serial_sort(s).to_multiset() == s.to_multiset(),
        all_in_window(base, serial_sort(s)),
        in_order(base, serial_sort(s)),
    decreases s.len(),
{
    lemma_serial_sort_multiset(s);
    if s.len() > 0 {
        let d = s.drop_last();
        assert forall|i: int| 0 <= i < d.len() implies in_window(base, #[trigger] d[i]) by {
            assert(d[i] == s[i]);
        }
        law_sorting_orders(base, d);
        lemma_insert_in_order(base, serial_sort(d), s.last());
    }
}

/// An empty queue lies behind every cumulative TSN.
pub proof fn law_empty_queue_is_consistent(base: u32)
    ensures
        consistent(PayloadQueueView::empty(), base),
{
    lemma_empty_exact();
}

/// A queue that takes only what it accepts stays consistent.
pub proof fn law_push_keeps_consistent(q: PayloadQueueView, p: DataView, base: u32)
    requires
        consistent(q, base),
    ensures
        consistent(q.push(p, base), base),
{
    reveal(PayloadQueueView::push_no_check);
    reveal(PayloadQueueView::push);
    if q.accepts(p.tsn, base) {
        let all = q.sorted.push(p.tsn);
        lemma_push_exact(q, p);
        assert(all_in_window(base, all)) by {
            assert forall|i: int| 0 <= i < all.len() implies in_window(base, #[trigger] all[i]) by {
                if i < q.sorted.len() {
                    assert(all[i] == q.sorted[i]);
                }
            }
        }
        law_sorting_orders(base, all);
    } else {
        lemma_duplicates_exact(q, q.dup_tsn.push(p.tsn));
    }
}

/// Taking the next TSN out moves the queue behind it, whether it was there or not.
pub proof fn law_pop_moves_behind(q: PayloadQueueView, base: u32)
    requires
        consistent(q, base),
    ensures
        consistent(q.pop(base.wrapping_add(1)), base.wrapping_add(1)),
        !q.pop(base.wrapping_add(1)).chunks.contains_key(base.wrapping_add(1)),
{
    reveal(PayloadQueueView::popped);
    reveal(PayloadQueueView::pop);
    reveal(PayloadQueueView::wf);
    let t = base.wrapping_add(1);
    let r = q.pop(t);
    lemma_pop_exact(q, t);
    if q.is_oldest(t) {
        assert forall|i: int| 0 <= i < r.sorted.len() implies in_window(
            t,
            #[trigger] r.sorted[i],
        ) by {
            assert(r.sorted[i] == q.sorted[i + 1]);
            assert(in_window(base, q.sorted[i + 1]));
            assert(q.sorted[i + 1] != q.sorted[0]);
        }
        assert forall|i: int, j: int| 0 <= i < j < r.sorted.len() implies fwd32(
            t,
            #[trigger] r.sorted[i],
        ) <= fwd32(t, #[trigger] r.sorted[j]) by {
            assert(fwd32(base, q.sorted[i + 1]) <= fwd32(base, q.sorted[j + 1]));
            assert(in_window(base, q.sorted[i + 1]) && in_window(base, q.sorted[j + 1]));
            assert(in_window(t, r.sorted[i]) && in_window(t, r.sorted[j]));
        }
    } else {
        assert forall|i: int| 0 <= i < r.sorted.len() implies in_window(
            t,
            #[trigger] r.sorted[i],
        ) by {
            assert(in_window(base, q.sorted[i]));
            if q.sorted[i] == t && i > 0 {
                assert(fwd32(base, q.sorted[0]) <= fwd32(base, q.sorted[i]));
                assert(in_window(base, q.sorted[0]));
            }
        }
        assert forall|i: int, j: int| 0 <= i < j < r.sorted.len() implies fwd32(
            t,
            #[trigger] r.sorted[i],
        ) <= fwd32(t, #[trigger] r.sorted[j]) by {
            assert(fwd32(base, q.sorted[i]) <= fwd32(base, q.sorted[j]));
            assert(in_window(base, q.sorted[i]) && in_window(base, q.sorted[j]));
            assert(in_window(t, r.sorted[i]) && in_window(t, r.sorted[j]));
        }
        if r.chunks.contains_key(t) {
            assert(r.sorted.contains(t));
            let i = choose|i: int| 0 <= i < r.sorted.len() && r.sorted[i] == t;
            assert(in_window(t, r.sorted[i]));
        }
    }
}

/// Acknowledging a chunk keeps the queue consistent.
pub proof fn law_ack_keeps_consistent(q: PayloadQueueView, tsn: u32, base: u32)
    requires
        consistent(q, base),
    ensures
        consistent(q.mark_as_acked(tsn), base),
{
    lemma_ack_exact(q, tsn);
}

/// Marking chunks for retransmission keeps the queue consistent.
pub proof fn law_retransmit_keeps_consistent(q: PayloadQueueView, base: u32)
    requires
        consistent(q, base),
    ensures
        consistent(q.mark_all_to_retransmit(), base),
{
    lemma_retransmit_exact(q);
}

/// Of a queue behind a cumulative TSN, the chunk with the next TSN comes out as it was put in,
/// and the queue is then as it was before.
pub proof fn law_pop_undoes_push(q: PayloadQueueView, p: DataView, base: u32)
    requires
        consistent(q, base),
        p.tsn == base.wrapping_add(1),
        !q.chunks.contains_key(p.tsn),
    ensures
        q.push(p, base).popped(p.tsn) == Some(p),
        q.push(p, base).pop(p.tsn) == q,
{
    reveal(PayloadQueueView::popped);
    reveal(PayloadQueueView::pop);
    reveal(PayloadQueueView::push_no_check);
    reveal(PayloadQueueView::push);
    let t = p.tsn;
    assert(fwd32(base, t) == 1);
    assert(q.accepts(t, base));
    let r = q.push(p, base);
    law_push_keeps_consistent(q, p, base);
    lemma_all_after(q.sorted, base, t);
    assert(r.sorted =~= seq![t] + q.sorted);
    assert(r.pop(t).sorted =~= q.sorted);
    assert(r.pop(t).chunks =~= q.chunks);
}

/// Putting in a TSN before all others leads to it at the front of the sorted ones.
proof fn lemma_all_after(s: Seq<u32>, base: u32, t: u32)
    requires
        all_in_window(base, s),
        in_order(base, s),
        fwd32(base, t) == 1,
        !s.contains(t),
    ensures
        serial_sort(s.push(t)) == seq![t] + s,
{
    lemma_sorted_is_fixed(s, base);
    assert(s.push(t).drop_last() =~= s);
    lemma_insert_front(s, base, t);
}

proof fn lemma_insert_front(s: Seq<u32>, base: u32, t: u32)
    requires
        all_in_window(base, s),
        fwd32(base, t) == 1,
        !s.contains(t),
    ensures
        serial_insert(s, t) == seq![t] + s,
    decreases s.len(),
{
    if s.len() == 0 {
        assert(serial_insert(s, t) =~= seq![t] + s);
    } else {
        lemma_serial_order_in_window(base, t, s.last());
        assert(s.contains(s.last()));
        let d = s.drop_last();
        assert forall|i: int| 0 <= i < d.len() implies in_window(base, #[trigger] d[i]) by {
            assert(d[i] == s[i]);
        }
        assert(!d.contains(t)) by {
            if d.contains(t) {
                let i = choose|i: int| 0 <= i < d.len() && d[i] == t;
                assert(s[i] == t);
            }
        }
        lemma_insert_front(d, base, t);
        assert(serial_insert(s, t) =~= seq![t] + s);
    }
}

proof fn lemma_sorted_is_fixed(s: Seq<u32>, base: u32)
    requires
        all_in_window(base, s),
        in_order(base, s),
    ensures
        serial_sort(s) == s,
    decreases s.len(),
{
    if s.len() > 0 {
        let d = s.drop_last();
        assert forall|i: int| 0 <= i < d.len() implies in_window(base, #[trigger] d[i]) by {
            assert(d[i] == s[i]);
        }
        lemma_sorted_is_fixed(d, base);
        if d.len() > 0 {
            assert(d.last() == s[s.len() - 2]);
            lemma_serial_order_in_window(base, s.last(), d.last());
        }
        assert(serial_insert(d, s.last()) =~= s);
    }
}

/// A chunk that comes again is refused, changes no chunk and is recorded as a duplicate; the
/// record is handed out once.
pub proof fn law_duplicates_are_recorded_once(q: PayloadQueueView, p: DataView, base: u32)
    requires
        q.accepts(p.tsn, base),
    ensures
        !q.push(p, base).accepts(p.tsn, base),
        q.push(p, base).push(p, base) == (PayloadQueueView {
            dup_tsn: q.dup_tsn.push(p.tsn),
            ..q.push(p, base)
        }),
        q.push(p, base).push(p, base).pop_duplicates().dup_tsn.len() == 0,
{
    reveal(PayloadQueueView::push_no_check);
    reveal(PayloadQueueView::push);
}

/// Some block covers the offset.
pub open spec fn covered(blocks: Seq<GapAckBlock>, x: u16) -> bool {
    exists|k: int| 0 <= k < blocks.len() && (#[trigger] blocks[k]).start <= x <= blocks[k].end
}

/// Blocks that are not empty, in ascending order and apart from one another.
pub open spec fn blocks_apart(blocks: Seq<GapAckBlock>) -> bool {
    &&& forall|k: int| 0 <= k < blocks.len() ==> (#[trigger] blocks[k]).start <= blocks[k].end
    &&& forall|k: int, m: int|
        0 <= k < m < blocks.len() ==> (#[trigger] blocks[k]).end + 1 < (#[trigger] blocks[m]).start
}

proof fn lemma_blocks(offsets: Seq<u16>)
    requires
        forall|i: int, j: int| 0 <= i < j < offsets.len() ==> offsets[i] < offsets[j],
    ensures
        blocks_apart(gap_blocks(offsets)),
        forall|x: u16|
            #![trigger covered(gap_blocks(offsets), x)]
            #![trigger offsets.contains(x)]
            covered(gap_blocks(offsets), x) <==> offsets.contains(x),
        offsets.len() > 0 ==> gap_blocks(offsets).len() > 0 && gap_blocks(offsets).last().end
            == offsets.last(),
    decreases offsets.len(),
{
    let blocks = gap_blocks(offsets);
    if offsets.len() > 0 {
        let d = offsets.drop_last();
        let o = offsets.last();
        let before = gap_blocks(d);
        lemma_blocks(d);
        if d.len() > 0 {
            assert(d.last() == offsets[offsets.len() - 2]);
            assert(d.last() < o);
        } else {
            assert(before =~= seq![]);
        }
        let extends = before.len() > 0 && before.last().end.wrapping_add(1) == o;
        let n = before.len() as int;
        if before.len() > 0 {
            assert(d.len() > 0);
        }
        assert forall|x: u16| covered(blocks, x) <==> offsets.contains(x) by {
            if offsets.contains(x) {
                let i = choose|i: int| 0 <= i < offsets.len() && offsets[i] == x;
                if i == d.len() {
                    assert(blocks[blocks.len() - 1].start <= x <= blocks[blocks.len() - 1].end);
                } else {
                    assert(d[i] == x);
                    assert(d.contains(x));
                    assert(covered(before, x));
                    let k = choose|k: int|
                        0 <= k < before.len() && (#[trigger] before[k]).start <= x
                            <= before[k].end;
                    assert(blocks[k].start <= x <= blocks[k].end);
                }
            }
            if covered(blocks, x) {
                let k = choose|k: int|
                    0 <= k < blocks.len() && (#[trigger] blocks[k]).start <= x <= blocks[k].end;
                if x == o {
                    assert(offsets[offsets.len() - 1] == x);
                } else {
                    assert(k < before.len() && before[k].start <= x <= before[k].end);
                    assert(covered(before, x));
                    assert(d.contains(x));
                    let i = choose|i: int| 0 <= i < d.len() && d[i] == x;
                    assert(offsets[i] == x);
                }
            }
        }
        assert(blocks_apart(blocks)) by {
            if !extends && n > 0 {
                assert(before[n - 1].end + 1 < o);
                assert forall|k: int, m: int| 0 <= k < m < blocks.len() implies (
                #[trigger] blocks[k]).end + 1 < (#[trigger] blocks[m]).start by {
                    if m == n && k < n - 1 {
                        assert(before[k].end + 1 < before[n - 1].start);
                        assert(before[n - 1].start <= before[n - 1].end);
                    }
                }
            }
        }
    } else {
        assert forall|x: u16| covered(blocks, x) <==> offsets.contains(x) by {}
    }
}

/// The gap blocks tell exactly what was received: an offset lies in a block if and only if the
/// queue holds its TSN. The blocks are in ascending order, and a TSN is missing between any two
/// of them. This holds while the TSNs lie numerically behind the cumulative one, by no more
/// than a block can express.
pub proof fn law_gap_blocks_are_exact(q: PayloadQueueView, base: u32)
    requires
        consistent(q, base),
        forall|t: u32| #[trigger] q.chunks.contains_key(t) ==> base < t <= base + 0xffff,
    ensures
        blocks_apart(q.gap_ack_blocks(base)),
        forall|x: u16|
            #![trigger covered(q.gap_ack_blocks(base), x)]
            covered(q.gap_ack_blocks(base), x) <==> (base + x <= u32::MAX
                && q.chunks.contains_key((base + x) as u32)),
{
    reveal(PayloadQueueView::wf);
    let blocks = q.gap_ack_blocks(base);
    let offsets = gap_offsets(q.sorted, base);
    assert forall|i: int| 0 <= i < q.sorted.len() implies base < #[trigger] q.sorted[i] <= base
        + 0xffff && offsets[i] == q.sorted[i] - base by {
        assert(q.sorted.contains(q.sorted[i]));
        assert(q.chunks.contains_key(q.sorted[i]));
        assert(gap_offset(q.sorted[i], base) == q.sorted[i] - base);
    }
    assert forall|i: int, j: int| 0 <= i < j < offsets.len() implies offsets[i] < offsets[j] by {
        assert(fwd32(base, q.sorted[i]) <= fwd32(base, q.sorted[j]));
        assert(q.sorted[i] != q.sorted[j]);
    }
    lemma_blocks(offsets);
    if q.chunks.dom().is_empty() {
        assert(blocks =~= seq![]);
        assert forall|x: u16|
            #![trigger covered(blocks, x)]
            covered(blocks, x) <==> (base + x <= u32::MAX && q.chunks.contains_key(
                (base + x) as u32,
            )) by {
            assert(!q.chunks.dom().contains((base + x) as u32));
        }
    } else {
        assert forall|x: u16|
            #![trigger covered(blocks, x)]
            covered(blocks, x) <==> (base + x <= u32::MAX && q.chunks.contains_key(
                (base + x) as u32,
            )) by {
            if covered(blocks, x) {
                assert(offsets.contains(x));
                let i = choose|i: int| 0 <= i < offsets.len() && offsets[i] == x;
                assert(q.sorted[i] == base + x);
                assert(q.sorted.contains(q.sorted[i]));
                assert(q.chunks.contains_key(q.sorted[i]));
            }
            if base + x <= u32::MAX && q.chunks.contains_key((base + x) as u32) {
                let t = (base + x) as u32;
                assert(q.sorted.contains(t));
                let i = choose|i: int| 0 <= i < q.sorted.len() && q.sorted[i] == t;
                assert(offsets[i] == x);
                assert(offsets.contains(x));
            }
        }
    }
}

/// What is acknowledged is not sent again, nor counted any longer.
pub proof fn law_acknowledged_is_not_retransmitted(q: PayloadQueueView, tsn: u32)
    requires
        q.wf(),
        q.chunks.contains_key(tsn),
    ensures
        !q.mark_as_acked(tsn).mark_all_to_retransmit().chunks[tsn].retransmit,
        q.mark_as_acked(tsn).n_bytes + q.chunks[tsn].user_data.len() == q.n_bytes,
        q.mark_as_acked(tsn).bytes_of(tsn) == 0,
        forall|t: u32|
            t != tsn && #[trigger] q.chunks.contains_key(t) ==> q.mark_as_acked(tsn).chunks[t]
                == q.chunks[t],
{
    reveal(PayloadQueueView::mark_all_to_retransmit);
    reveal(PayloadQueueView::mark_as_acked);
    lemma_mark_as_acked_wf(q, tsn);
    assert(to_retransmit(acknowledged(q.chunks[tsn])) == acknowledged(q.chunks[tsn]));
}

} // verus!
