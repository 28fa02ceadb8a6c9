//! What holds of the chunks in a [`PayloadQueue`](crate::queue::payload_queue::PayloadQueue) when
//! they are marked, put in and taken out.

use vstd::prelude::*;

use crate::chunk::payload::DataView;
use crate::queue::payload_queue::{lemma_push_wf, lemma_total_bytes_remove, PayloadQueueView};
use crate::queue::pending_queue::PendingQueueView;

verus! {

/// A chunk is settled: acknowledged, or given up with its whole message.
pub open spec fn is_settled(c: DataView) -> bool {
    c.acked || (c.abandoned && c.all_inflight)
}

/// When all is to be sent again, that goes for each chunk that is not settled. Nothing else of
/// the chunks changes, nor of the queue.
pub proof fn law_all_unsettled_is_marked(q: PayloadQueueView, t: u32)
    requires
        q.chunks.contains_key(t),
    ensures
        ({
            let r = q.mark_all_to_retransmit();
            let (c, d) = (q.chunks[t], r.chunks[t]);
            &&& d.retransmit == (c.retransmit || !is_settled(c))
            &&& d == (DataView { retransmit: d.retransmit, ..c })
            &&& r.chunks.dom() == q.chunks.dom()
            &&& r.sorted == q.sorted
            &&& r.n_bytes == q.n_bytes
            &&& r.dup_tsn == q.dup_tsn
        }),
{
    reveal(PayloadQueueView::mark_all_to_retransmit);
    let r = q.mark_all_to_retransmit();
    assert(r.chunks.dom() =~= q.chunks.dom());
}

/// A chunk that is acknowledged gives its bytes back and is not sent again. No other chunk
/// changes, and a TSN that is not there changes nothing.
pub proof fn law_acknowledged_chunk_gives_its_bytes_back(q: PayloadQueueView, t: u32)
    requires
        q.wf(),
    ensures
        ({
            let r = q.mark_as_acked(t);
            &&& !q.chunks.contains_key(t) ==> r == q
            &&& q.chunks.contains_key(t) ==> {
                let (c, d) = (q.chunks[t], r.chunks[t]);
                &&& r.n_bytes + c.user_data.len() == q.n_bytes
                &&& d.acked && !d.retransmit && d.user_data.len() == 0
                &&& d == (DataView {
                    acked: d.acked,
                    retransmit: d.retransmit,
                    user_data: d.user_data,
                    ..c
                })
                &&& r.chunks.dom() == q.chunks.dom()
                &&& r.sorted == q.sorted
                &&& r.dup_tsn == q.dup_tsn
            }
            &&& forall|x: u32| x != t ==> #[trigger] r.chunks[x] == q.chunks[x]
        }),
{
    reveal(PayloadQueueView::mark_as_acked);
    reveal(PayloadQueueView::wf);
    let r = q.mark_as_acked(t);
    if q.chunks.contains_key(t) {
        lemma_total_bytes_remove(q.chunks, t);
        assert(r.chunks.dom() =~= q.chunks.dom());
    }
}

/// The oldest chunk leaves with its bytes; nothing leaves under another TSN.
pub proof fn law_only_the_oldest_leaves(q: PayloadQueueView, t: u32)
    requires
        q.wf(),
        q.sorted.len() > 0 && q.chunks.contains_key(q.sorted[0]),
    ensures
        t == q.sorted[0] ==> {
            let r = q.pop(t);
            &&& q.popped(t) == Some(q.chunks[t])
            &&& r.n_bytes + q.chunks[t].user_data.len() == q.n_bytes
            &&& !r.chunks.contains_key(t)
            &&& r.sorted == q.sorted.skip(1)
            &&& forall|x: u32|
                x != t ==> (#[trigger] r.chunks.contains_key(x) <==> q.chunks.contains_key(x))
                    && r.chunks[x] == q.chunks[x]
        },
        t != q.sorted[0] ==> q.popped(t) is None && q.pop(t) == q,
{
    reveal(PayloadQueueView::pop);
    reveal(PayloadQueueView::popped);
    reveal(PayloadQueueView::wf);
    if t == q.sorted[0] {
        lemma_total_bytes_remove(q.chunks, t);
    }
}

/// A chunk that is put in is there under its TSN with its bytes, if it is new; otherwise only its
/// TSN is noted.
pub proof fn law_new_chunk_is_put_in(q: PayloadQueueView, p: DataView, cum: u32)
    requires
        q.wf(),
    ensures
        ({
            let r = q.push(p, cum);
            let is_new = !q.chunks.contains_key(p.tsn) && !(crate::util::fwd32(p.tsn, cum)
                < 0x8000_0000);
            &&& is_new ==> {
                &&& r.chunks == q.chunks.insert(p.tsn, p)
                &&& r.n_bytes == q.n_bytes + p.user_data.len()
                &&& r.dup_tsn == q.dup_tsn
            }
            &&& !is_new ==> {
                &&& r.chunks == q.chunks && r.sorted == q.sorted && r.n_bytes == q.n_bytes
                &&& r.dup_tsn == q.dup_tsn.push(p.tsn)
            }
        }),
{
    reveal(PayloadQueueView::push);
    reveal(PayloadQueueView::push_no_check);
    lemma_push_wf(q, p);
}

/// A chunk waits behind those of its kind. An unordered one goes before all ordered ones, but not
/// between two fragments of a message.
pub proof fn law_unordered_goes_first(q: PendingQueueView, c: DataView)
    ensures
        ({
            let r = q.push(c);
            &&& c.unordered ==> r.unordered == q.unordered.push(c) && r.ordered == q.ordered
            &&& !c.unordered ==> r.ordered == q.ordered.push(c) && r.unordered == q.unordered
            &&& r.n_bytes == q.n_bytes + c.user_data.len()
            &&& r.selected == q.selected
        }),
        !q.selected && q.unordered.len() > 0 ==> q.peek() == Some(q.unordered[0]),
        !q.selected && q.unordered.len() == 0 && q.ordered.len() > 0 ==> q.peek() == Some(
            q.ordered[0],
        ),
        q.selected && q.unordered_is_selected && q.unordered.len() > 0 ==> q.peek() == Some(
            q.unordered[0],
        ),
        q.selected && !q.unordered_is_selected && q.ordered.len() > 0 ==> q.peek() == Some(
            q.ordered[0],
        ),
        !q.selected && q.unordered.len() == 0 && q.ordered.len() == 0 ==> q.peek() is None,
{
    reveal(PendingQueueView::peek);
}

/// A message holds its queue from its first fragment to its last one.
pub proof fn law_message_holds_its_queue(q: PendingQueueView)
    requires
        q.wf(),
        q.peek() is Some,
        q.selected || q.peek()->0.beginning_fragment,
    ensures
        ({
            let c = q.peek()->0;
            let r = q.pop(c.beginning_fragment, c.unordered);
            &&& r.n_bytes + c.user_data.len() == q.n_bytes
            &&& r.selected == !c.ending_fragment
            &&& !c.ending_fragment ==> r.unordered_is_selected == c.unordered
            &&& c.unordered ==> r.unordered == q.unordered.skip(1) && r.ordered == q.ordered
            &&& !c.unordered ==> r.ordered == q.ordered.skip(1) && r.unordered == q.unordered
        }),
{
    reveal(PendingQueueView::peek);
    reveal(PendingQueueView::pop);
    reveal(PendingQueueView::popped);
    reveal(PendingQueueView::wf);
    let c = q.peek()->0;
    crate::queue::pending_queue::lemma_pop_wf(q, c.beginning_fragment, c.unordered);
    lemma_first_counts(q.unordered);
    lemma_first_counts(q.ordered);
}

proof fn lemma_first_counts(s: Seq<DataView>)
    ensures
        s.len() > 0 ==> crate::queue::pending_queue::data_bytes(s) >= s[0].user_data.len(),
    decreases s.len(),
{
    if s.len() > 1 {
        lemma_first_counts(s.drop_last());
        assert(s.drop_last()[0] == s[0]);
    }
}

} // verus!
