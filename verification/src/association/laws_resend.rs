//! What holds of data that is sent again.

use vstd::prelude::*;

use crate::association::laws_send::law_resending_keeps_to_windows;
use crate::association::resend::{
    resend, resend_lost, resent, resent_fast, Conditions, Resending, Windows,
};
use crate::association::send::{data_size, judged};
use crate::association::view::AssociationView;
use crate::chunk::payload::{DataView, Instant};
use crate::queue::payload_queue::PayloadQueueView;
use crate::queue::pending_queue::data_bytes;
use crate::util::{fwd32, low32};

verus! {

/// What is sent again after a timeout is no more than the congestion window and no more than the
/// peer's window, unless it is one chunk, the first in flight, that is larger than the peer's
/// window.
pub proof fn law_resending_keeps_to_own_windows(s: AssociationView, now: Instant)
    requires
        s.wf(),
    ensures
        ({
            let r = s.resending(now);
            let first = s.tcb.tx.cumulative_tsn_ack_point.wrapping_add(1);
            ||| data_bytes(r.chunks) <= s.tcb.cc.cwnd && data_bytes(r.chunks) <= s.tcb.cc.rwnd
            ||| {
                &&& r.chunks.len() == 1
                &&& r.chunks[0].tsn == first
                &&& s.inflight_queue.chunks.contains_key(first)
                &&& r.chunks[0].user_data == s.inflight_queue.chunks[first].user_data
                &&& s.tcb.cc.rwnd < r.chunks[0].user_data.len()
            }
        }),
{
    reveal(PayloadQueueView::wf);
    reveal(resent);
    reveal(judged);
    let win = own_windows(s);
    law_resending_keeps_to_windows(
        s.conditions(now),
        win,
        s.inflight_queue,
        seq![],
        s.tcb.tx.cumulative_tsn_ack_point.wrapping_add(1),
        true,
        0,
        s.inflight_queue.chunks.dom().len(),
    );
}

/// Whether a chunk waits to be sent again: it is marked, not acknowledged and not given up.
pub open spec fn is_marked(c: DataView) -> bool {
    c.retransmit && !c.acked && !(c.abandoned && c.all_inflight)
}

/// Whether a chunk was lost: sent once, reported missing three times, not acknowledged and not
/// given up.
pub open spec fn was_lost(c: DataView) -> bool {
    c.nsent <= 1 && c.miss_indicator >= 3 && !c.acked && !(c.abandoned && c.all_inflight)
}

/// Whether all chunks from `tsn` to `t` are in flight.
pub open spec fn reaches(q: PayloadQueueView, tsn: u32, t: u32) -> bool {
    forall|x: u32| #[trigger] fwd32(tsn, x) <= fwd32(tsn, t) ==> q.chunks.contains_key(x)
}

/// Whether a chunk with this TSN is among `cs`.
pub open spec fn holds(cs: Seq<DataView>, t: u32) -> bool {
    exists|k: int| 0 <= k < cs.len() && (#[trigger] cs[k]).tsn == t
}

/// What is sent from `tsn` on, among `n` TSNs at most: chunks in the order of their TSNs, each as
/// it is in flight then, and the others as they were.
#[verifier::opaque]
spec fn orderly(
    q: PayloadQueueView,
    r: Resending,
    sent: Seq<DataView>,
    tsn: u32,
    n: int,
    marked: spec_fn(DataView) -> bool,
) -> bool {
    &&& forall|k: int|
        0 <= k < sent.len() ==> {
            let t = (#[trigger] sent[k]).tsn;
            &&& q.chunks.contains_key(t)
            &&& marked(q.chunks[t])
            &&& fwd32(tsn, t) < n
            &&& r.q.chunks[t] == sent[k]
        }
    &&& forall|j: int, k: int|
        0 <= j < k < sent.len() ==> fwd32(tsn, (#[trigger] sent[j]).tsn) < fwd32(
            tsn,
            (#[trigger] sent[k]).tsn,
        )
    &&& r.q.chunks.dom() == q.chunks.dom()
    &&& forall|t: u32| #[trigger]
        q.chunks.contains_key(t) && !holds(sent, t) ==> r.q.chunks[t] == q.chunks[t]
}

/// A chunk that was reached and left behind had no room, or one before it had none.
spec fn stopped_by(
    q: PayloadQueueView,
    sent: Seq<DataView>,
    tsn: u32,
    t: u32,
    marked: spec_fn(DataView) -> bool,
    room: int,
    size: spec_fn(DataView) -> int,
) -> bool {
    exists|u: u32| #[trigger]
        q.chunks.contains_key(u) && fwd32(tsn, u) <= fwd32(tsn, t) && marked(q.chunks[u]) && !holds(
            sent,
            u,
        ) && size(q.chunks[u]) > room
}

proof fn lemma_push_front(
    q: PayloadQueueView,
    q1: PayloadQueueView,
    r: Resending,
    rest: Seq<DataView>,
    c: DataView,
    tsn: u32,
    n: int,
    marked: spec_fn(DataView) -> bool,
)
    requires
        1 <= n <= 0x1_0000_0000,
        q.chunks.contains_key(tsn),
        q1.chunks == q.chunks.insert(tsn, c),
        c.tsn == tsn,
        marked(q.chunks[tsn]),
        orderly(q1, r, rest, tsn.wrapping_add(1), n - 1, marked),
    ensures
        orderly(q, r, seq![c] + rest, tsn, n, marked),
        forall|t: u32| #[trigger] holds(seq![c] + rest, t) <==> t == tsn || holds(rest, t),
{
    reveal(orderly);
    let sent = seq![c] + rest;
    let next = tsn.wrapping_add(1);
    assert(forall|t: u32| t != tsn ==> fwd32(tsn, t) == #[trigger] fwd32(next, t) + 1);
    assert(!holds(rest, tsn)) by {
        if holds(rest, tsn) {
            let k = choose|k: int| 0 <= k < rest.len() && (#[trigger] rest[k]).tsn == tsn;
            assert(fwd32(next, rest[k].tsn) < n - 1);
        }
    }
    assert forall|k: int| 0 <= k < rest.len() implies (#[trigger] rest[k]).tsn != tsn by {
        assert(rest[k].tsn == tsn ==> holds(rest, tsn));
    }
    assert(q1.chunks.contains_key(tsn));
    assert(r.q.chunks[tsn] == c);
    assert forall|k: int| 0 <= k < sent.len() implies {
        let t = (#[trigger] sent[k]).tsn;
        &&& q.chunks.contains_key(t)
        &&& marked(q.chunks[t])
        &&& fwd32(tsn, t) < n
        &&& r.q.chunks[t] == sent[k]
    } by {
        if k > 0 {
            assert(sent[k] == rest[k - 1]);
        }
    }
    assert forall|j: int, k: int| 0 <= j < k < sent.len() implies fwd32(
        tsn,
        (#[trigger] sent[j]).tsn,
    ) < fwd32(tsn, (#[trigger] sent[k]).tsn) by {
        assert(sent[k] == rest[k - 1]);
        if j > 0 {
            assert(sent[j] == rest[j - 1]);
        }
    }
    assert(q1.chunks.dom() =~= q.chunks.dom());
    assert forall|t: u32| #[trigger] holds(sent, t) <==> t == tsn || holds(rest, t) by {
        if holds(sent, t) {
            let k = choose|k: int| 0 <= k < sent.len() && (#[trigger] sent[k]).tsn == t;
            if k > 0 {
                assert(sent[k] == rest[k - 1]);
                assert(rest[k - 1].tsn == t);
            }
        }
        if holds(rest, t) {
            let k = choose|k: int| 0 <= k < rest.len() && (#[trigger] rest[k]).tsn == t;
            assert(sent[k + 1] == rest[k]);
            assert(sent[k + 1].tsn == t);
        }
        assert(sent[0].tsn == tsn);
    }
    assert forall|t: u32| #[trigger]
        q.chunks.contains_key(t) && !holds(sent, t) implies r.q.chunks[t] == q.chunks[t] by {
        assert(t != tsn && !holds(rest, t));
        assert(q1.chunks.contains_key(t));
    }
}

proof fn lemma_step_over(
    q: PayloadQueueView,
    r: Resending,
    sent: Seq<DataView>,
    tsn: u32,
    n: int,
    marked: spec_fn(DataView) -> bool,
)
    requires
        1 <= n <= 0x1_0000_0000,
        q.chunks.contains_key(tsn),
        orderly(q, r, sent, tsn.wrapping_add(1), n - 1, marked),
    ensures
        orderly(q, r, sent, tsn, n, marked),
        !holds(sent, tsn),
{
    reveal(orderly);
    let next = tsn.wrapping_add(1);
    assert(forall|t: u32| t != tsn ==> fwd32(tsn, t) == #[trigger] fwd32(next, t) + 1);
    assert(fwd32(next, tsn) == 0xffff_ffff);
    assert(!holds(sent, tsn)) by {
        if holds(sent, tsn) {
            let k = choose|k: int| 0 <= k < sent.len() && (#[trigger] sent[k]).tsn == tsn;
            assert(fwd32(next, sent[k].tsn) < n - 1);
        }
    }
    assert forall|k: int| 0 <= k < sent.len() implies (#[trigger] sent[k]).tsn != tsn by {
        assert(sent[k].tsn == tsn ==> holds(sent, tsn));
    }
}

/// The room that is left of a window.
spec fn room(win: Windows, sent: nat) -> int {
    win.awnd - sent
}

proof fn lemma_resent_keeps(w: Conditions, c: DataView)
    ensures
        w.resent(c).tsn == c.tsn,
        w.resent(c).user_data == c.user_data,
        w.resent_fast(c).tsn == c.tsn,
        w.resent_fast(c).user_data == c.user_data,
{
    reveal(resent);
    reveal(resent_fast);
    reveal(judged);
}

/// Each chunk is filed under its TSN.
spec fn filed(q: PayloadQueueView) -> bool {
    forall|t: u32| #[trigger] q.chunks.contains_key(t) ==> q.chunks[t].tsn == t
}

spec fn marked_fn() -> spec_fn(DataView) -> bool {
    |c: DataView| is_marked(c)
}

spec fn length_fn() -> spec_fn(DataView) -> int {
    |c: DataView| c.user_data.len() as int
}

proof fn lemma_nothing(q: PayloadQueueView, chunks: Seq<DataView>, tsn: u32, n: int, marked: spec_fn(
    DataView,
) -> bool)
    ensures
        orderly(q, Resending { q, chunks }, seq![], tsn, n, marked),
{
    reveal(orderly);
}

/// What is sent again comes in order.
proof fn lemma_resend_orderly(
    w: Conditions,
    win: Windows,
    q: PayloadQueueView,
    chunks: Seq<DataView>,
    tsn: u32,
    is_first: bool,
    sent: nat,
    n: nat,
)
    requires
        n <= 0xffff_ffff,
        filed(q),
    ensures
        ({
            let r = resend(w, win, q, chunks, tsn, is_first, sent, n);
            let new = r.chunks.skip(chunks.len() as int);
            &&& r.chunks.len() >= chunks.len()
            &&& r.chunks.take(chunks.len() as int) == chunks
            &&& orderly(q, r, new, tsn, n as int, marked_fn())
            &&& forall|k: int|
                0 <= k < new.len() ==> #[trigger] new[k] == w.resent(q.chunks[new[k].tsn])
        }),
    decreases n,
{
    let r = resend(w, win, q, chunks, tsn, is_first, sent, n);
    let l = chunks.len() as int;
    let new = r.chunks.skip(l);
    let m = marked_fn();
    let next = tsn.wrapping_add(1);
    let c = q.chunks[tsn];
    let k = (n - 1) as nat;
    if n == 0 || !q.chunks.contains_key(tsn) || (is_marked(c) && !(is_first && win.rwnd < low32(
        c.user_data.len() as int,
    )) && sent + c.user_data.len() > win.awnd) {
        assert(new =~= seq![]);
        assert(r.chunks.take(l) =~= chunks);
        lemma_nothing(q, chunks, tsn, n as int, m);
    } else if !is_marked(c) {
        lemma_resend_orderly(w, win, q, chunks, next, false, sent, k);
        lemma_step_over(q, r, new, tsn, n as int, m);
    } else {
        let d = w.resent(c);
        let q1 = q.set(tsn, d);
        lemma_resent_keeps(w, c);
        assert(filed(q1));
        assert(m(q.chunks[tsn]));
        if is_first && win.rwnd < low32(c.user_data.len() as int) {
            lemma_nothing(q1, chunks.push(d), next, k as int, m);
            lemma_push_front(q, q1, r, seq![], d, tsn, n as int, m);
            assert(new =~= seq![d] + seq![]);
            assert(r.chunks.take(l) =~= chunks);
        } else {
            let more = chunks.push(d);
            lemma_resend_orderly(w, win, q1, more, next, false, sent + c.user_data.len(), k);
            let rest = r.chunks.skip(l + 1);
            lemma_push_front(q, q1, r, rest, d, tsn, n as int, m);
            lemma_front(r.chunks, chunks, d);
            assert(new == seq![d] + rest);
            assert forall|j: int| 0 <= j < new.len() implies #[trigger] new[j] == w.resent(
                q.chunks[new[j].tsn],
            ) by {
                if j > 0 {
                    assert(new[j] == rest[j - 1]);
                    assert(rest[j - 1] == w.resent(q1.chunks[rest[j - 1].tsn]));
                    lemma_beyond(q1, r, rest, next, k as int, m, j - 1);
                }
            }
        }
    }
}

/// A TSN that is sent later is another one.
proof fn lemma_beyond(
    q: PayloadQueueView,
    r: Resending,
    sent: Seq<DataView>,
    next: u32,
    n: int,
    marked: spec_fn(DataView) -> bool,
    j: int,
)
    requires
        n <= 0xffff_ffff,
        orderly(q, r, sent, next, n, marked),
        0 <= j < sent.len(),
    ensures
        sent[j].tsn != next.wrapping_sub(1),
{
    reveal(orderly);
    assert(fwd32(next, sent[j].tsn) < n);
    assert(fwd32(next, next.wrapping_sub(1)) == 0xffff_ffff);
}

/// A sequence that goes on from another one and one more.
proof fn lemma_front(all: Seq<DataView>, chunks: Seq<DataView>, d: DataView)
    requires
        all.len() > chunks.len(),
        all.take((chunks.len() + 1) as int) == chunks.push(d),
    ensures
        all.take(chunks.len() as int) == chunks,
        all.skip(chunks.len() as int) == seq![d] + all.skip((chunks.len() + 1) as int),
{
    let l = chunks.len() as int;
    assert(all.take(l + 1)[l] == all[l]);
    assert(all.take(l) =~= all.take(l + 1).take(l));
    assert(chunks.push(d).take(l) =~= chunks);
    assert(all.skip(l) =~= seq![d] + all.skip(l + 1));
}

proof fn lemma_reaches_on(q: PayloadQueueView, q1: PayloadQueueView, tsn: u32, t: u32)
    requires
        t != tsn,
        reaches(q, tsn, t),
        q1.chunks.dom() == q.chunks.dom(),
    ensures
        reaches(q1, tsn.wrapping_add(1), t),
        fwd32(tsn, t) == fwd32(tsn.wrapping_add(1), t) + 1,
        q.chunks.contains_key(t),
{
    let next = tsn.wrapping_add(1);
    assert forall|x: u32| #[trigger] fwd32(next, x) <= fwd32(next, t) implies q1.chunks.contains_key(
        x,
    ) by {
        if x != tsn {
            assert(fwd32(tsn, x) <= fwd32(tsn, t));
        }
        assert(q.chunks.contains_key(x));
        assert(q1.chunks.dom().contains(x));
    }
    assert(fwd32(tsn, t) <= fwd32(tsn, t));
}

/// What one is left behind by.
proof fn lemma_stopped_on(
    q: PayloadQueueView,
    q1: PayloadQueueView,
    sent: Seq<DataView>,
    rest: Seq<DataView>,
    tsn: u32,
    t: u32,
    marked: spec_fn(DataView) -> bool,
    room: int,
    size: spec_fn(DataView) -> int,
)
    requires
        t != tsn,
        q1.chunks.dom() == q.chunks.dom(),
        forall|x: u32| #[trigger] q.chunks.contains_key(x) && x != tsn ==> q1.chunks[x]
            == q.chunks[x],
        forall|x: u32| #[trigger] holds(sent, x) ==> x == tsn || holds(rest, x),
        stopped_by(q1, rest, tsn.wrapping_add(1), t, marked, room, size),
    ensures
        stopped_by(q, sent, tsn, t, marked, room, size),
{
    let next = tsn.wrapping_add(1);
    let u = choose|u: u32| #[trigger]
        q1.chunks.contains_key(u) && fwd32(next, u) <= fwd32(next, t) && marked(q1.chunks[u])
            && !holds(rest, u) && size(q1.chunks[u]) > room;
    assert(fwd32(next, tsn) == 0xffff_ffff);
    assert(u != tsn);
    assert(q1.chunks.dom().contains(u));
    assert(q.chunks.contains_key(u));
    assert(!holds(sent, u));
}

/// As much as fits is sent again.
proof fn lemma_resend_complete(
    w: Conditions,
    win: Windows,
    q: PayloadQueueView,
    chunks: Seq<DataView>,
    tsn: u32,
    is_first: bool,
    sent: nat,
    n: nat,
    t: u32,
)
    requires
        n <= 0xffff_ffff,
        filed(q),
        fwd32(tsn, t) < n,
        reaches(q, tsn, t),
        is_marked(q.chunks[t]),
        !(is_first && q.chunks.contains_key(tsn) && is_marked(q.chunks[tsn]) && win.rwnd < low32(
            q.chunks[tsn].user_data.len() as int,
        )),
    ensures
        ({
            let r = resend(w, win, q, chunks, tsn, is_first, sent, n);
            let new = r.chunks.skip(chunks.len() as int);
            holds(new, t) || stopped_by(
                q,
                new,
                tsn,
                t,
                marked_fn(),
                room(win, sent) - data_bytes(new),
                length_fn(),
            )
        }),
    decreases n,
{
    let r = resend(w, win, q, chunks, tsn, is_first, sent, n);
    let l = chunks.len() as int;
    let new = r.chunks.skip(l);
    let m = marked_fn();
    let size = length_fn();
    let next = tsn.wrapping_add(1);
    assert(fwd32(tsn, tsn) <= fwd32(tsn, t));
    assert(q.chunks.contains_key(tsn));
    let c = q.chunks[tsn];
    let k = (n - 1) as nat;
    let left = room(win, sent) - data_bytes(new);
    if !is_marked(c) {
        lemma_reaches_on(q, q, tsn, t);
        lemma_resend_complete(w, win, q, chunks, next, false, sent, k, t);
        if !holds(new, t) {
            lemma_stopped_on(q, q, new, new, tsn, t, m, left, size);
        }
    } else if sent + c.user_data.len() > win.awnd {
        assert(new =~= seq![]);
        assert(data_bytes(new) == 0);
        assert(q.chunks.contains_key(tsn) && m(c) && !holds(new, tsn) && size(c) > left);
    } else {
        let d = w.resent(c);
        let q1 = q.set(tsn, d);
        lemma_resent_keeps(w, c);
        assert(filed(q1));
        assert(q1.chunks.dom() =~= q.chunks.dom());
        let more = chunks.push(d);
        let total = sent + c.user_data.len();
        let rest = r.chunks.skip(l + 1);
        lemma_resend_orderly(w, win, q1, more, next, false, total, k);
        lemma_front(r.chunks, chunks, d);
        lemma_push_front(q, q1, r, rest, d, tsn, n as int, m);
        lemma_bytes_front(d, rest);
        assert(holds(new, tsn));
        if t != tsn {
            lemma_reaches_on(q, q1, tsn, t);
            lemma_resend_complete(w, win, q1, more, next, false, total, k, t);
            if !holds(new, t) {
                lemma_stopped_on(q, q1, new, rest, tsn, t, m, left, size);
            }
        }
    }
}

proof fn lemma_bytes_front(d: DataView, rest: Seq<DataView>)
    ensures
        data_bytes(seq![d] + rest) == d.user_data.len() + data_bytes(rest),
    decreases rest.len(),
{
    let s = seq![d] + rest;
    if rest.len() == 0 {
        assert(s.drop_last() =~= seq![]);
        assert(s.last() == d);
        assert(data_bytes(seq![]) == 0);
    } else {
        lemma_bytes_front(d, rest.drop_last());
        assert(s.drop_last() =~= seq![d] + rest.drop_last());
        assert(s.last() == rest.last());
    }
}

/// A chunk is the same but for how often it was sent, that it is not marked any longer, and that
/// it may be given up.
pub open spec fn sent_again(c: DataView, d: DataView) -> bool {
    d == (DataView {
        nsent: c.nsent.wrapping_add(1),
        retransmit: false,
        abandoned: d.abandoned,
        ..c
    })
}

/// What is sent again after a timeout is what was marked, in the order of its TSNs and as it was
/// in flight; it is not marked any longer, and all else in flight stays as it is.
pub proof fn law_marked_data_is_resent_in_order(s: AssociationView, now: Instant)
    requires
        s.wf(),
        s.inflight_queue.chunks.dom().len() <= 0xffff_ffff,
    ensures
        ({
            let r = s.resending(now);
            let q = s.inflight_queue;
            let first = s.tcb.tx.cumulative_tsn_ack_point.wrapping_add(1);
            &&& forall|k: int|
                0 <= k < r.chunks.len() ==> {
                    let t = (#[trigger] r.chunks[k]).tsn;
                    &&& q.chunks.contains_key(t)
                    &&& is_marked(q.chunks[t])
                    &&& sent_again(q.chunks[t], r.chunks[k])
                    &&& r.q.chunks[t] == r.chunks[k]
                }
            &&& forall|j: int, k: int|
                0 <= j < k < r.chunks.len() ==> fwd32(first, (#[trigger] r.chunks[j]).tsn) < fwd32(
                    first,
                    (#[trigger] r.chunks[k]).tsn,
                )
            &&& r.q.chunks.dom() == q.chunks.dom()
            &&& forall|t: u32| #[trigger]
                q.chunks.contains_key(t) && !holds(r.chunks, t) ==> r.q.chunks[t] == q.chunks[t]
        }),
{
    reveal(PayloadQueueView::wf);
    reveal(resent);
    reveal(judged);
    reveal(orderly);
    let r = s.resending(now);
    lemma_resend_orderly(
        s.conditions(now),
        own_windows(s),
        s.inflight_queue,
        seq![],
        s.tcb.tx.cumulative_tsn_ack_point.wrapping_add(1),
        true,
        0,
        s.inflight_queue.chunks.dom().len(),
    );
    assert(r.chunks.skip(0) =~= r.chunks);
}

/// The windows of an association.
spec fn own_windows(s: AssociationView) -> Windows {
    Windows {
        rwnd: s.tcb.cc.rwnd,
        awnd: if s.tcb.cc.cwnd <= s.tcb.cc.rwnd {
            s.tcb.cc.cwnd
        } else {
            s.tcb.cc.rwnd
        },
    }
}

/// As much as the windows allow is sent again: a marked chunk, with all before it in flight, is
/// left behind only if it, or a marked one before it, does not fit beside what is sent.
pub proof fn law_windows_are_used_to_resend(s: AssociationView, now: Instant, t: u32)
    requires
        s.wf(),
        s.inflight_queue.chunks.dom().len() <= 0xffff_ffff,
        reaches(s.inflight_queue, s.tcb.tx.cumulative_tsn_ack_point.wrapping_add(1), t),
        fwd32(s.tcb.tx.cumulative_tsn_ack_point.wrapping_add(1), t)
            < s.inflight_queue.chunks.dom().len(),
        is_marked(s.inflight_queue.chunks[t]),
        s.inflight_queue.chunks[t].user_data.len() <= u32::MAX,
    ensures
        ({
            let r = s.resending(now);
            let q = s.inflight_queue;
            let first = s.tcb.tx.cumulative_tsn_ack_point.wrapping_add(1);
            let sent = data_bytes(r.chunks);
            ||| holds(r.chunks, t)
            ||| r.chunks.len() == 1 && r.chunks[0].tsn == first && q.chunks[first].user_data.len()
                > s.tcb.cc.rwnd
            ||| exists|u: u32| #[trigger]
                q.chunks.contains_key(u) && fwd32(first, u) <= fwd32(first, t) && is_marked(
                    q.chunks[u],
                ) && !holds(r.chunks, u) && (sent + q.chunks[u].user_data.len() > s.tcb.cc.cwnd
                    || sent + q.chunks[u].user_data.len() > s.tcb.cc.rwnd)
        }),
{
    reveal(PayloadQueueView::wf);
    let r = s.resending(now);
    let q = s.inflight_queue;
    let first = s.tcb.tx.cumulative_tsn_ack_point.wrapping_add(1);
    let win = own_windows(s);
    let n = q.chunks.dom().len();
    assert(r.chunks.skip(0) =~= r.chunks);
    if q.chunks.contains_key(first) && is_marked(q.chunks[first]) && win.rwnd < low32(
        q.chunks[first].user_data.len() as int,
    ) {
        lemma_resent_keeps(s.conditions(now), q.chunks[first]);
        assert(r.chunks =~= seq![s.conditions(now).resent(q.chunks[first])]);
    } else {
        lemma_resend_complete(s.conditions(now), win, q, seq![], first, true, 0, n, t);
        if !holds(r.chunks, t) {
            let left = win.awnd - data_bytes(r.chunks);
            let u = choose|u: u32| #[trigger]
                q.chunks.contains_key(u) && fwd32(first, u) <= fwd32(first, t) && marked_fn()(
                    q.chunks[u],
                ) && !holds(r.chunks, u) && length_fn()(q.chunks[u]) > left;
            assert(q.chunks.contains_key(u));
        }
    }
}

spec fn lost_fn() -> spec_fn(DataView) -> bool {
    |c: DataView| was_lost(c)
}

spec fn size_fn() -> spec_fn(DataView) -> int {
    |c: DataView| chunk_size(c)
}

/// The size of a DATA chunk in a packet: its header, its data, and what fills it up to a multiple
/// of four.
pub open spec fn chunk_size(c: DataView) -> int {
    16 + (c.user_data.len() as int + 3) / 4 * 4
}

/// The size of a packet of DATA chunks.
pub open spec fn packet_size(cs: Seq<DataView>) -> int
    decreases cs.len(),
{
    if cs.len() == 0 {
        12
    } else {
        packet_size(cs.drop_last()) + chunk_size(cs.last())
    }
}

proof fn lemma_chunk_size(c: DataView)
    ensures
        chunk_size(c) == data_size(c),
{
}

proof fn lemma_size_front(d: DataView, rest: Seq<DataView>)
    ensures
        packet_size(seq![d] + rest) == chunk_size(d) + packet_size(rest),
    decreases rest.len(),
{
    let s = seq![d] + rest;
    if rest.len() == 0 {
        assert(s.drop_last() =~= seq![]);
        assert(s.last() == d);
        assert(packet_size(seq![]) == 12);
    } else {
        lemma_size_front(d, rest.drop_last());
        assert(s.drop_last() =~= seq![d] + rest.drop_last());
        assert(s.last() == rest.last());
    }
}

/// What was lost comes in order, and fits.
proof fn lemma_lost_orderly(
    w: Conditions,
    mtu: u32,
    q: PayloadQueueView,
    chunks: Seq<DataView>,
    tsn: u32,
    size: int,
    n: nat,
)
    requires
        n <= 0xffff_ffff,
        filed(q),
    ensures
        ({
            let r = resend_lost(w, mtu, q, chunks, tsn, size, n);
            let new = r.chunks.skip(chunks.len() as int);
            &&& r.chunks.len() >= chunks.len()
            &&& r.chunks.take(chunks.len() as int) == chunks
            &&& orderly(q, r, new, tsn, n as int, lost_fn())
            &&& new.len() > 0 ==> size + packet_size(new) - 12 <= mtu
            &&& forall|k: int|
                0 <= k < new.len() ==> #[trigger] new[k] == w.resent_fast(q.chunks[new[k].tsn])
        }),
    decreases n,
{
    let r = resend_lost(w, mtu, q, chunks, tsn, size, n);
    let l = chunks.len() as int;
    let new = r.chunks.skip(l);
    let m = lost_fn();
    let next = tsn.wrapping_add(1);
    let c = q.chunks[tsn];
    let k = (n - 1) as nat;
    lemma_chunk_size(c);
    if n == 0 || !q.chunks.contains_key(tsn) || (was_lost(c) && mtu < size + chunk_size(c)) {
        assert(new =~= seq![]);
        assert(r.chunks.take(l) =~= chunks);
        lemma_nothing(q, chunks, tsn, n as int, m);
    } else if !was_lost(c) {
        lemma_lost_orderly(w, mtu, q, chunks, next, size, k);
        lemma_step_over(q, r, new, tsn, n as int, m);
    } else {
        let d = w.resent_fast(c);
        let q1 = q.set(tsn, d);
        lemma_resent_keeps(w, c);
        assert(filed(q1));
        assert(m(q.chunks[tsn]));
        let more = chunks.push(d);
        lemma_lost_orderly(w, mtu, q1, more, next, size + chunk_size(c), k);
        let rest = r.chunks.skip(l + 1);
        lemma_push_front(q, q1, r, rest, d, tsn, n as int, m);
        lemma_front(r.chunks, chunks, d);
        lemma_size_front(d, rest);
        assert(rest.len() == 0 ==> packet_size(rest) == 12);
        assert forall|j: int| 0 <= j < new.len() implies #[trigger] new[j] == w.resent_fast(
            q.chunks[new[j].tsn],
        ) by {
            if j > 0 {
                assert(new[j] == rest[j - 1]);
                assert(rest[j - 1] == w.resent_fast(q1.chunks[rest[j - 1].tsn]));
                lemma_beyond(q1, r, rest, next, k as int, m, j - 1);
            }
        }
    }
}

/// As much of what was lost is sent as fits.
proof fn lemma_lost_complete(
    w: Conditions,
    mtu: u32,
    q: PayloadQueueView,
    chunks: Seq<DataView>,
    tsn: u32,
    size: int,
    n: nat,
    t: u32,
)
    requires
        n <= 0xffff_ffff,
        filed(q),
        fwd32(tsn, t) < n,
        reaches(q, tsn, t),
        was_lost(q.chunks[t]),
    ensures
        ({
            let r = resend_lost(w, mtu, q, chunks, tsn, size, n);
            let new = r.chunks.skip(chunks.len() as int);
            holds(new, t) || stopped_by(
                q,
                new,
                tsn,
                t,
                lost_fn(),
                mtu - (size + packet_size(new) - 12),
                size_fn(),
            )
        }),
    decreases n,
{
    let r = resend_lost(w, mtu, q, chunks, tsn, size, n);
    let l = chunks.len() as int;
    let new = r.chunks.skip(l);
    let m = lost_fn();
    let sz = size_fn();
    let next = tsn.wrapping_add(1);
    assert(fwd32(tsn, tsn) <= fwd32(tsn, t));
    assert(q.chunks.contains_key(tsn));
    let c = q.chunks[tsn];
    let k = (n - 1) as nat;
    lemma_chunk_size(c);
    let left = mtu - (size + packet_size(new) - 12);
    if !was_lost(c) {
        lemma_reaches_on(q, q, tsn, t);
        lemma_lost_complete(w, mtu, q, chunks, next, size, k, t);
        if !holds(new, t) {
            lemma_stopped_on(q, q, new, new, tsn, t, m, left, sz);
        }
    } else if mtu < size + chunk_size(c) {
        assert(new =~= seq![]);
        assert(packet_size(new) == 12);
        assert(q.chunks.contains_key(tsn) && m(c) && !holds(new, tsn) && sz(c) > left);
    } else {
        let d = w.resent_fast(c);
        let q1 = q.set(tsn, d);
        lemma_resent_keeps(w, c);
        assert(filed(q1));
        assert(q1.chunks.dom() =~= q.chunks.dom());
        let more = chunks.push(d);
        let total = size + chunk_size(c);
        let rest = r.chunks.skip(l + 1);
        lemma_lost_orderly(w, mtu, q1, more, next, total, k);
        lemma_front(r.chunks, chunks, d);
        lemma_push_front(q, q1, r, rest, d, tsn, n as int, m);
        lemma_size_front(d, rest);
        assert(holds(new, tsn));
        if t != tsn {
            lemma_reaches_on(q, q1, tsn, t);
            lemma_lost_complete(w, mtu, q1, more, next, total, k, t);
            if !holds(new, t) {
                lemma_stopped_on(q, q1, new, rest, tsn, t, m, left, sz);
            }
        }
    }
}

/// A chunk is the same but for how often it was sent, and that it may be given up.
pub open spec fn sent_once_more(c: DataView, d: DataView) -> bool {
    d == (DataView { nsent: c.nsent.wrapping_add(1), abandoned: d.abandoned, ..c })
}

/// What is sent again fast is what was lost, in the order of its TSNs and as it was in flight. It
/// fits one packet of the association's MTU, and all else in flight stays as it is.
pub proof fn law_lost_data_is_resent_in_order(s: AssociationView, now: Instant)
    requires
        s.wf(),
        s.inflight_queue.chunks.dom().len() <= 0xffff_ffff,
    ensures
        ({
            let r = s.resending_lost(now);
            let q = s.inflight_queue;
            let first = s.tcb.tx.cumulative_tsn_ack_point.wrapping_add(1);
            &&& forall|k: int|
                0 <= k < r.chunks.len() ==> {
                    let t = (#[trigger] r.chunks[k]).tsn;
                    &&& q.chunks.contains_key(t)
                    &&& was_lost(q.chunks[t])
                    &&& sent_once_more(q.chunks[t], r.chunks[k])
                    &&& r.q.chunks[t] == r.chunks[k]
                }
            &&& forall|j: int, k: int|
                0 <= j < k < r.chunks.len() ==> fwd32(first, (#[trigger] r.chunks[j]).tsn) < fwd32(
                    first,
                    (#[trigger] r.chunks[k]).tsn,
                )
            &&& r.chunks.len() > 0 ==> packet_size(r.chunks) <= s.tcb.conf.mtu
            &&& r.q.chunks.dom() == q.chunks.dom()
            &&& forall|t: u32| #[trigger]
                q.chunks.contains_key(t) && !holds(r.chunks, t) ==> r.q.chunks[t] == q.chunks[t]
        }),
{
    reveal(PayloadQueueView::wf);
    reveal(resent_fast);
    reveal(judged);
    reveal(orderly);
    let r = s.resending_lost(now);
    lemma_lost_orderly(
        s.conditions(now),
        s.tcb.conf.mtu,
        s.inflight_queue,
        seq![],
        s.tcb.tx.cumulative_tsn_ack_point.wrapping_add(1),
        12,
        s.inflight_queue.chunks.dom().len(),
    );
    assert(r.chunks.skip(0) =~= r.chunks);
}

/// As much of what was lost is sent again fast as fits the packet: a lost chunk, with all before
/// it in flight, is left behind only if it, or a lost one before it, does not fit any more.
pub proof fn law_packet_is_filled_with_lost_data(s: AssociationView, now: Instant, t: u32)
    requires
        s.wf(),
        s.inflight_queue.chunks.dom().len() <= 0xffff_ffff,
        reaches(s.inflight_queue, s.tcb.tx.cumulative_tsn_ack_point.wrapping_add(1), t),
        fwd32(s.tcb.tx.cumulative_tsn_ack_point.wrapping_add(1), t)
            < s.inflight_queue.chunks.dom().len(),
        was_lost(s.inflight_queue.chunks[t]),
    ensures
        ({
            let r = s.resending_lost(now);
            let q = s.inflight_queue;
            let first = s.tcb.tx.cumulative_tsn_ack_point.wrapping_add(1);
            ||| holds(r.chunks, t)
            ||| exists|u: u32| #[trigger]
                q.chunks.contains_key(u) && fwd32(first, u) <= fwd32(first, t) && was_lost(
                    q.chunks[u],
                ) && !holds(r.chunks, u) && packet_size(r.chunks) + chunk_size(q.chunks[u])
                    > s.tcb.conf.mtu
        }),
{
    reveal(PayloadQueueView::wf);
    let r = s.resending_lost(now);
    let q = s.inflight_queue;
    let first = s.tcb.tx.cumulative_tsn_ack_point.wrapping_add(1);
    let n = q.chunks.dom().len();
    let mtu = s.tcb.conf.mtu;
    assert(r.chunks.skip(0) =~= r.chunks);
    lemma_lost_complete(s.conditions(now), mtu, q, seq![], first, 12, n, t);
    if !holds(r.chunks, t) {
        let left = mtu - packet_size(r.chunks);
        let u = choose|u: u32| #[trigger]
            q.chunks.contains_key(u) && fwd32(first, u) <= fwd32(first, t) && lost_fn()(
                q.chunks[u],
            ) && !holds(r.chunks, u) && size_fn()(q.chunks[u]) > left;
        assert(q.chunks.contains_key(u));
    }
}

} // verus!
