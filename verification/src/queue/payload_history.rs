//! What a [`PayloadQueue`](crate::queue::payload_queue::PayloadQueue) holds after any calls.

use vstd::prelude::*;

use crate::chunk::payload::DataView;
use crate::queue::payload_queue::{
    acknowledged, lemma_mark_as_acked_wf, lemma_pop_wf, lemma_push_wf, lemma_retransmit_wf,
    lemma_serial_sort_contains, lemma_serial_sort_multiset, lemma_total_bytes_insert,
    lemma_total_bytes_remove, lemma_total_bytes_same, total_bytes, PayloadQueueView,
};
use crate::util::upto32;

verus! {

/// The TSNs of the queue are those of its chunks, each once, and its bytes are counted exactly.
pub open spec fn exact(q: PayloadQueueView) -> bool {
    &&& q.wf()
    &&& total_bytes(q.chunks) == q.n_bytes
    &&& q.sorted.no_duplicates()
    &&& forall|t: u32| q.sorted.contains(t) ==> #[trigger] q.chunks.contains_key(t)
}

/// A queue without chunks is exact.
pub proof fn lemma_empty_exact()
    ensures
        exact(PayloadQueueView::empty()),
{
    reveal(PayloadQueueView::wf);
}

/// Putting in a chunk whose TSN is not there keeps the queue exact.
pub proof fn lemma_push_exact(q: PayloadQueueView, p: DataView)
    requires
        exact(q),
        !q.chunks.contains_key(p.tsn),
    ensures
        exact(q.push_no_check(p)),
{
    reveal(PayloadQueueView::push_no_check);
    reveal(PayloadQueueView::wf);
    let r = q.push_no_check(p);
    let all = q.sorted.push(p.tsn);
    lemma_push_wf(q, p);
    lemma_total_bytes_insert(q.chunks, p.tsn, p);
    lemma_serial_sort_multiset(all);
    assert(all.no_duplicates()) by {
        assert forall|i: int, j: int| 0 <= i < j < all.len() implies all[i] != all[j] by {
            if j == q.sorted.len() {
                assert(q.sorted.contains(q.sorted[i]));
                assert(q.chunks.contains_key(q.sorted[i]));
            }
        }
    }
    all.lemma_multiset_has_no_duplicates();
    assert forall|x: u32| r.sorted.to_multiset().contains(x) implies r.sorted.to_multiset().count(x)
        == 1 by {
        assert(all.to_multiset().contains(x));
    }
    r.sorted.lemma_multiset_has_no_duplicates_conv();
    assert forall|t: u32| r.sorted.contains(t) implies #[trigger] r.chunks.contains_key(t) by {
        lemma_serial_sort_contains(all, t);
        let i = choose|i: int| 0 <= i < all.len() && all[i] == t;
        if i < q.sorted.len() {
            assert(q.sorted[i] == t);
            assert(q.sorted.contains(t));
            assert(q.chunks.contains_key(t));
        }
    }
}

/// A change of the duplicates alone keeps the queue exact.
pub proof fn lemma_duplicates_exact(q: PayloadQueueView, dup_tsn: Seq<u32>)
    requires
        exact(q),
    ensures
        exact(PayloadQueueView { dup_tsn, ..q }),
{
    reveal(PayloadQueueView::wf);
    let r = PayloadQueueView { dup_tsn, ..q };
    assert forall|t: u32| r.sorted.contains(t) implies #[trigger] r.chunks.contains_key(t) by {
        assert(q.chunks.contains_key(t));
    }
}

/// Taking a chunk out keeps the queue exact, and takes its TSN out where it is the oldest one.
pub proof fn lemma_pop_exact(q: PayloadQueueView, tsn: u32)
    requires
        exact(q),
    ensures
        exact(q.pop(tsn)),
        q.popped(tsn) is Some <==> q.is_oldest(tsn),
        q.pop(tsn).chunks == (if q.is_oldest(tsn) {
            q.chunks.remove(tsn)
        } else {
            q.chunks
        }),
{
    reveal(PayloadQueueView::popped);
    reveal(PayloadQueueView::pop);
    reveal(PayloadQueueView::wf);
    lemma_pop_wf(q, tsn);
    if q.is_oldest(tsn) {
        let r = q.pop(tsn);
        assert(q.sorted.contains(tsn));
        assert(q.chunks.contains_key(tsn));
        lemma_total_bytes_remove(q.chunks, tsn);
        assert forall|x: u32| r.sorted.contains(x) implies #[trigger] r.chunks.contains_key(x) by {
            let i = choose|i: int| 0 <= i < r.sorted.len() && r.sorted[i] == x;
            assert(q.sorted[i + 1] == x);
            assert(q.sorted.contains(x));
            assert(q.chunks.contains_key(x));
        }
    }
}

/// Acknowledging a chunk keeps the queue exact.
pub proof fn lemma_ack_exact(q: PayloadQueueView, tsn: u32)
    requires
        exact(q),
    ensures
        exact(q.mark_as_acked(tsn)),
        q.mark_as_acked(tsn).chunks.dom() == q.chunks.dom(),
        q.mark_as_acked(tsn).sorted == q.sorted,
{
    reveal(PayloadQueueView::mark_as_acked);
    reveal(PayloadQueueView::wf);
    lemma_mark_as_acked_wf(q, tsn);
    let r = q.mark_as_acked(tsn);
    if q.chunks.contains_key(tsn) {
        lemma_total_bytes_insert(q.chunks, tsn, acknowledged(q.chunks[tsn]));
    }
    assert(r.chunks.dom() =~= q.chunks.dom());
    assert forall|t: u32| r.sorted.contains(t) implies #[trigger] r.chunks.contains_key(t) by {
        assert(q.chunks.contains_key(t));
    }
}

/// Marking chunks to be sent again keeps the queue exact.
pub proof fn lemma_retransmit_exact(q: PayloadQueueView)
    requires
        exact(q),
    ensures
        exact(q.mark_all_to_retransmit()),
        q.mark_all_to_retransmit().chunks.dom() == q.chunks.dom(),
        q.mark_all_to_retransmit().sorted == q.sorted,
{
    lemma_retransmit_wf(q);
    reveal(PayloadQueueView::mark_all_to_retransmit);
    reveal(PayloadQueueView::wf);
    let r = q.mark_all_to_retransmit();
    assert(r.chunks.dom() =~= q.chunks.dom());
    lemma_total_bytes_same(q.chunks, r.chunks);
    assert forall|t: u32| r.sorted.contains(t) implies #[trigger] r.chunks.contains_key(t) by {
        assert(q.chunks.contains_key(t));
    }
}

/// A call that changes a queue.
pub enum PayloadStep {
    Push { p: DataView, cumulative_tsn: u32 },
    PushNoCheck { p: DataView },
    Pop { tsn: u32 },
    MarkAsAcked { tsn: u32 },
    MarkAllToRetransmit,
    PopDuplicates,
}

impl PayloadQueueView {
    /// The queue after a call.
    pub open spec fn after(self, step: PayloadStep) -> PayloadQueueView {
        match step {
            PayloadStep::Push { p, cumulative_tsn } => self.push(p, cumulative_tsn),
            PayloadStep::PushNoCheck { p } => self.push_no_check(p),
            PayloadStep::Pop { tsn } => self.pop(tsn),
            PayloadStep::MarkAsAcked { tsn } => self.mark_as_acked(tsn),
            PayloadStep::MarkAllToRetransmit => self.mark_all_to_retransmit(),
            PayloadStep::PopDuplicates => self.pop_duplicates(),
        }
    }

    /// Whether a call puts a chunk with this TSN in.
    pub open spec fn takes(self, step: PayloadStep, tsn: u32) -> bool {
        match step {
            PayloadStep::Push { p, cumulative_tsn } => p.tsn == tsn && self.accepts(
                tsn,
                cumulative_tsn,
            ),
            PayloadStep::PushNoCheck { p } => p.tsn == tsn,
            _ => false,
        }
    }

    /// Whether a call takes the chunk with this TSN out.
    pub open spec fn gives(self, step: PayloadStep, tsn: u32) -> bool {
        step == (PayloadStep::Pop { tsn }) && self.popped(tsn) is Some
    }
}

/// The queue after calls on a new one.
pub open spec fn queue_after(steps: Seq<PayloadStep>) -> PayloadQueueView
    decreases steps.len(),
{
    if steps.len() == 0 {
        PayloadQueueView::empty()
    } else {
        queue_after(steps.drop_last()).after(steps.last())
    }
}

/// No chunk is put in unchecked whose TSN is there already.
pub open spec fn puts_in_fresh(steps: Seq<PayloadStep>) -> bool
    decreases steps.len(),
{
    steps.len() > 0 ==> {
        &&& puts_in_fresh(steps.drop_last())
        &&& steps.last() matches PayloadStep::PushNoCheck { p } ==> !queue_after(
            steps.drop_last(),
        ).chunks.contains_key(p.tsn)
    }
}

/// The `i`-th call put a chunk with this TSN in.
pub open spec fn accepted_at(steps: Seq<PayloadStep>, i: int, tsn: u32) -> bool {
    0 <= i < steps.len() && queue_after(steps.take(i)).takes(steps[i], tsn)
}

/// The `i`-th call took the chunk with this TSN out.
pub open spec fn popped_at(steps: Seq<PayloadStep>, i: int, tsn: u32) -> bool {
    0 <= i < steps.len() && queue_after(steps.take(i)).gives(steps[i], tsn)
}

/// A chunk with this TSN was put in and not taken out since.
pub open spec fn is_held(steps: Seq<PayloadStep>, tsn: u32) -> bool {
    exists|i: int| #[trigger]
        accepted_at(steps, i, tsn) && forall|j: int|
            i < j ==> !#[trigger] popped_at(steps, j, tsn)
}

/// What a call does to the TSNs that are there.
proof fn lemma_step(q: PayloadQueueView, step: PayloadStep, tsn: u32)
    requires
        exact(q),
        step matches PayloadStep::PushNoCheck { p } ==> !q.chunks.contains_key(p.tsn),
    ensures
        exact(q.after(step)),
        !(q.takes(step, tsn) && q.gives(step, tsn)),
        q.after(step).chunks.contains_key(tsn) <==> q.takes(step, tsn) || (q.chunks.contains_key(
            tsn,
        ) && !q.gives(step, tsn)),
{
    match step {
        PayloadStep::Push { p, cumulative_tsn } => {
            reveal(PayloadQueueView::push);
            if q.accepts(p.tsn, cumulative_tsn) {
                lemma_push_exact(q, p);
                lemma_push_wf(q, p);
            } else {
                lemma_duplicates_exact(q, q.dup_tsn.push(p.tsn));
            }
        },
        PayloadStep::PushNoCheck { p } => {
            lemma_push_exact(q, p);
            lemma_push_wf(q, p);
        },
        PayloadStep::Pop { tsn: t } => {
            lemma_pop_exact(q, t);
        },
        PayloadStep::MarkAsAcked { tsn: t } => {
            lemma_ack_exact(q, t);
        },
        PayloadStep::MarkAllToRetransmit => {
            lemma_retransmit_exact(q);
        },
        PayloadStep::PopDuplicates => {
            lemma_duplicates_exact(q, seq![]);
        },
    }
}

proof fn lemma_earlier_calls(steps: Seq<PayloadStep>, tsn: u32)
    requires
        steps.len() > 0,
    ensures
        forall|i: int|
            i < steps.len() - 1 ==> #[trigger] accepted_at(steps, i, tsn) == accepted_at(
                steps.drop_last(),
                i,
                tsn,
            ),
        forall|i: int|
            i < steps.len() - 1 ==> #[trigger] popped_at(steps, i, tsn) == popped_at(
                steps.drop_last(),
                i,
                tsn,
            ),
{
    let d = steps.drop_last();
    assert forall|i: int| i < steps.len() - 1 implies #[trigger] accepted_at(steps, i, tsn)
        == accepted_at(d, i, tsn) by {
        if i >= 0 {
            assert(steps.take(i) =~= d.take(i));
        }
    }
    assert forall|i: int| i < steps.len() - 1 implies #[trigger] popped_at(steps, i, tsn)
        == popped_at(d, i, tsn) by {
        if i >= 0 {
            assert(steps.take(i) =~= d.take(i));
        }
    }
}

proof fn lemma_held(steps: Seq<PayloadStep>, tsn: u32)
    requires
        puts_in_fresh(steps),
    ensures
        exact(queue_after(steps)),
        queue_after(steps).chunks.contains_key(tsn) <==> is_held(steps, tsn),
    decreases steps.len(),
{
    if steps.len() == 0 {
        lemma_empty_exact();
    } else {
        let d = steps.drop_last();
        let n = d.len() as int;
        let q = queue_after(d);
        let step = steps.last();
        lemma_held(d, tsn);
        lemma_step(q, step, tsn);
        lemma_earlier_calls(steps, tsn);
        assert(steps.take(n) =~= d);
        assert(accepted_at(steps, n, tsn) == q.takes(step, tsn));
        assert(popped_at(steps, n, tsn) == q.gives(step, tsn));
        if is_held(d, tsn) && !q.gives(step, tsn) {
            let i = choose|i: int| #[trigger]
                accepted_at(d, i, tsn) && forall|j: int| i < j ==> !#[trigger] popped_at(d, j, tsn);
            assert(accepted_at(steps, i, tsn));
            assert forall|j: int| i < j implies !#[trigger] popped_at(steps, j, tsn) by {
                if j < n {
                    assert(!popped_at(d, j, tsn));
                }
            }
        }
        if is_held(steps, tsn) && !q.takes(step, tsn) {
            let i = choose|i: int| #[trigger]
                accepted_at(steps, i, tsn) && forall|j: int|
                    i < j ==> !#[trigger] popped_at(steps, j, tsn);
            assert(i < n);
            assert(accepted_at(d, i, tsn));
            assert(!popped_at(steps, n, tsn));
            assert forall|j: int| i < j implies !#[trigger] popped_at(d, j, tsn) by {
                if j < n {
                    assert(!popped_at(steps, j, tsn));
                }
            }
        }
    }
}

/// After any calls on a new queue it holds exactly the chunks that were accepted and not popped
/// since, each under its own TSN.
pub proof fn law_queue_holds_what_was_accepted(steps: Seq<PayloadStep>, tsn: u32)
    requires
        puts_in_fresh(steps),
    ensures
        queue_after(steps).get(tsn) is Some <==> is_held(steps, tsn),
        queue_after(steps).get(tsn) matches Some(c) ==> c.tsn == tsn,
{
    lemma_held(steps, tsn);
    reveal(PayloadQueueView::wf);
}

/// After any calls on a new queue the byte count is the sum over the chunks that it holds, and
/// the list of TSNs has each of their TSNs once and no other.
pub proof fn law_queue_counts_what_it_holds(steps: Seq<PayloadStep>)
    requires
        puts_in_fresh(steps),
    ensures
        queue_after(steps).wf(),
        queue_after(steps).n_bytes == total_bytes(queue_after(steps).chunks),
        queue_after(steps).sorted.no_duplicates(),
        queue_after(steps).sorted.to_set() == queue_after(steps).chunks.dom(),
        queue_after(steps).sorted.len() == queue_after(steps).chunks.dom().len(),
{
    lemma_held(steps, 0);
    reveal(PayloadQueueView::wf);
    let q = queue_after(steps);
    assert(q.sorted.to_set() =~= q.chunks.dom());
    q.sorted.unique_seq_to_set();
}

/// A chunk is refused exactly if its TSN is held, or at or before the cumulative one. A chunk
/// that is accepted is put in as without the check; one that is refused changes nothing but the
/// record of duplicates.
pub proof fn law_push_refuses_held_and_old(q: PayloadQueueView, p: DataView, cumulative_tsn: u32)
    ensures
        !q.accepts(p.tsn, cumulative_tsn) <==> q.get(p.tsn) is Some || upto32(
            p.tsn,
            cumulative_tsn,
        ),
        q.accepts(p.tsn, cumulative_tsn) ==> q.push(p, cumulative_tsn) == q.push_no_check(p),
        !q.accepts(p.tsn, cumulative_tsn) ==> q.push(p, cumulative_tsn) == (PayloadQueueView {
            dup_tsn: q.dup_tsn.push(p.tsn),
            ..q
        }),
{
    reveal(PayloadQueueView::push);
}

} // verus!
