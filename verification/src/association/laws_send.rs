//! What holds of sending data.

use vstd::prelude::*;

use crate::association::resend::{
    is_due, is_lost, resend, resend_lost, resent, resent_fast, Conditions, Windows,
};
use crate::association::send::{
    bundle, data_chunks, data_size, judged, lemma_end_of_stream_leaves, lemma_launched, new_data,
    send_pending, with_chunk,
};
use crate::association::view::AssociationView;
use crate::chunk::codec::{chunk_encode, chunk_value};
use crate::chunk::kinds::ChunkView;
use crate::chunk::payload::{DataView, Instant};
use crate::packet::{append_chunks, header_encode, pad4, packet_encode, with_checksum};
use crate::queue::payload_queue::{lemma_push_wf, PayloadQueueView};
use crate::queue::pending_queue::{
    data_bytes, law_peeked_chunk_comes_next, lemma_pop_wf, PendingQueueView,
};
use crate::util::{low32, padding};

verus! {

/// The chunks of all packets in a row.
pub open spec fn joined(groups: Seq<Seq<DataView>>) -> Seq<DataView>
    decreases groups.len(),
{
    if groups.len() == 0 {
        seq![]
    } else {
        joined(groups.drop_last()) + groups.last()
    }
}

/// The size of a packet of DATA chunks.
pub open spec fn group_size(g: Seq<DataView>) -> int
    decreases g.len(),
{
    if g.len() == 0 {
        12
    } else {
        group_size(g.drop_last()) + data_size(g.last())
    }
}

/// Whether chunks can go into one packet.
pub open spec fn fits(g: Seq<DataView>, mtu: u32) -> bool {
    g.len() <= 1 || group_size(g) <= mtu
}

/// Whether the data of a chunk alone is too much for a packet.
pub open spec fn exceeds(c: DataView, mtu: u32) -> bool {
    12 + c.user_data.len() > mtu
}

proof fn lemma_bundle(cs: Seq<DataView>, mtu: u32)
    ensures
        ({
            let b = bundle(cs, mtu);
            &&& joined(b.full) + b.open == cs
            &&& b.size == group_size(b.open)
            &&& forall|k: int| 0 <= k < b.full.len() ==> fits(#[trigger] b.full[k], mtu)
            &&& fits(b.open, mtu)
            &&& cs.len() > 0 ==> b.open.len() > 0
            &&& forall|k: int|
                0 <= k < b.full.len() && (#[trigger] b.full[k]).len() == 0 ==> k == 0
            &&& b.full.len() > 0 && b.full[0].len() == 0 ==> exceeds(cs[0], mtu)
            &&& cs.len() > 0 && exceeds(cs[0], mtu) ==> b.full.len() > 0 && b.full[0].len() == 0
        }),
    decreases cs.len(),
{
    let b = bundle(cs, mtu);
    if cs.len() == 0 {
        assert(joined(b.full) + b.open =~= cs);
    } else {
        let d = cs.drop_last();
        let c = cs.last();
        lemma_bundle(d, mtu);
        let a = bundle(d, mtu);
        if a.overflows(c, mtu) {
            assert(a.full.push(a.open).drop_last() =~= a.full);
            assert(joined(b.full) == joined(a.full) + a.open);
            assert(joined(b.full) + b.open =~= cs);
            assert(b.open.drop_last() =~= Seq::<DataView>::empty());
            assert(group_size(Seq::<DataView>::empty()) == 12);
            assert(group_size(b.open) == 12 + data_size(c));
            assert forall|k: int| 0 <= k < b.full.len() implies fits(#[trigger] b.full[k], mtu) by {
                if k < a.full.len() {
                    assert(b.full[k] == a.full[k]);
                }
            }
        } else {
            assert(b.open.drop_last() =~= a.open);
            assert(joined(a.full) + a.open.push(c) =~= (joined(a.full) + a.open).push(c));
            assert(d.push(c) =~= cs);
        }
    }
}

/// Bundling loses no chunk and keeps their order, and no packet of more than one chunk exceeds
/// the path MTU. A packet without chunks comes first, and only before a chunk whose data alone is
/// too much for a packet.
pub proof fn law_bundles_fit(cs: Seq<DataView>, mtu: u32)
    ensures
        joined(bundle(cs, mtu).finish()) == cs,
        forall|k: int|
            0 <= k < bundle(cs, mtu).finish().len() ==> fits(
                #[trigger] bundle(cs, mtu).finish()[k],
                mtu,
            ),
        forall|k: int|
            0 <= k < bundle(cs, mtu).finish().len() ==> ((#[trigger] bundle(
                cs,
                mtu,
            ).finish()[k]).len() == 0 <==> k == 0 && exceeds(cs[0], mtu)),
{
    lemma_bundle(cs, mtu);
    let b = bundle(cs, mtu);
    if b.open.len() > 0 {
        assert(b.full.push(b.open).drop_last() =~= b.full);
    } else {
        assert(joined(b.full) + b.open =~= joined(b.full));
    }
}

proof fn lemma_group_size_first(g: Seq<DataView>)
    requires
        g.len() > 0,
    ensures
        group_size(g) == data_size(g[0]) + group_size(g.drop_first()),
    decreases g.len(),
{
    if g.len() > 1 {
        lemma_group_size_first(g.drop_last());
        assert(g.drop_first().drop_last() =~= g.drop_last().drop_first());
    } else {
        assert(g.drop_last() =~= seq![]);
        assert(g.drop_first() =~= seq![]);
    }
}

proof fn lemma_data_encoded(c: DataView)
    ensures
        chunk_encode(ChunkView::PayloadData(c)) matches Ok(b) ==> b.len() == 16
            + c.user_data.len(),
{
    reveal(chunk_value);
}

proof fn lemma_padded(n: int, w: int)
    requires
        w % 4 == 0,
        n >= 0,
    ensures
        padding(w + 16 + n) == padding(n),
        (w + 16 + n + padding(n)) % 4 == 0,
{
}

proof fn lemma_appended(w: Seq<u8>, g: Seq<DataView>)
    requires
        w.len() % 4 == 0,
        append_chunks(w, data_chunks(g)).1 is None,
    ensures
        append_chunks(w, data_chunks(g)).0.len() == w.len() + group_size(g) - 12,
        group_size(g) >= 12,
    decreases g.len(),
{
    let cs = data_chunks(g);
    if g.len() > 0 {
        let c = g[0];
        lemma_data_encoded(c);
        lemma_group_size_first(g);
        assert(cs[0] == ChunkView::PayloadData(c));
        assert(cs.drop_first() =~= data_chunks(g.drop_first()));
        let bytes = chunk_encode(cs[0])->Ok_0;
        lemma_padded(c.user_data.len() as int, w.len() as int);
        let w1 = pad4(w + bytes);
        assert(w1.len() == w.len() + data_size(c));
        lemma_appended(w1, g.drop_first());
    }
}

/// A packet of DATA chunks that can be encoded is as long as its size says.
pub proof fn law_data_packet_size(s: AssociationView, g: Seq<DataView>)
    requires
        packet_encode(s.packet(data_chunks(g))) is Ok,
    ensures
        packet_encode(s.packet(data_chunks(g)))->Ok_0.len() == group_size(g),
{
    let p = s.packet(data_chunks(g));
    let w = Seq::<u8>::empty() + header_encode(p.common_header);
    assert(w.len() == 12);
    lemma_appended(w, g);
    assert(seq![] + header_encode(p.common_header) =~= w);
    let bytes = append_chunks(w, p.chunks).0;
    assert(with_checksum(bytes, 8).len() == bytes.len());
}

/// The chunks have consecutive TSNs, and `next` is the one behind them.
pub open spec fn numbered(cs: Seq<DataView>, next: u32) -> bool {
    forall|j: int|
        0 <= j < cs.len() ==> (#[trigger] cs[j]).tsn.wrapping_add(low32(cs.len() - j)) == next
}

proof fn lemma_numbered_push(cs: Seq<DataView>, c: DataView, next: u32)
    requires
        numbered(cs, next),
        c.tsn == next,
    ensures
        numbered(cs.push(c), next.wrapping_add(1)),
{
    let r = cs.push(c);
    assert forall|j: int| 0 <= j < r.len() implies (#[trigger] r[j]).tsn.wrapping_add(
        low32(r.len() - j),
    ) == next.wrapping_add(1) by {
        if j < cs.len() {
            assert(cs[j].tsn.wrapping_add(low32(cs.len() - j)) == next);
            lemma_low32_next(cs.len() - j);
        }
    }
}

proof fn lemma_low32_next(n: int)
    requires
        n >= 0,
    ensures
        low32(n + 1) == low32(n).wrapping_add(1),
{
}

/// What moving a chunk into flight does to the counts.
proof fn lemma_moved(s: AssociationView, b: bool, u: bool, now: Instant)
    requires
        s.wf(),
    ensures
        ({
            let t = s.move_pending(b, u, now);
            let m = s.moved_chunk(b, u, now);
            &&& t.wf()
            &&& t.buffered() == s.buffered()
            &&& t.tcb.cc == s.tcb.cc
            &&& m is None ==> t == s
            &&& m matches Some(c) ==> {
                &&& c.tsn == s.tcb.tx.my_next_tsn
                &&& t.tcb.tx.my_next_tsn == s.tcb.tx.my_next_tsn.wrapping_add(1)
                &&& t.inflight_queue.n_bytes == s.inflight_queue.n_bytes + c.user_data.len()
                &&& s.pending_queue.popped(b, u) matches Some(p) && p.user_data == c.user_data
            }
        }),
{
    lemma_pop_wf(s.pending_queue, b, u);
    match s.pending_queue.popped(b, u) {
        None => {},
        Some(p) => {
            lemma_launched(
                p,
                s.tcb.tx.my_next_tsn,
                now,
                s.tcb.peer.use_forward_tsn,
                s.streams,
            );
            let c = s.moved_chunk(b, u, now)->0;
            lemma_push_wf(s.inflight_queue, c);
        },
    }
}

proof fn lemma_with_chunk(cs: Seq<DataView>, c: DataView)
    ensures
        data_bytes(cs.push(c)) == data_bytes(cs) + c.user_data.len(),
{
    assert(cs.push(c).drop_last() =~= cs);
}

proof fn lemma_popped_is_peeked(q: PendingQueueView)
    requires
        q.wf(),
    ensures
        q.peek() matches Some(c) ==> (q.popped(c.beginning_fragment, c.unordered) matches Some(p)
            ==> p == c),
{
    reveal(PendingQueueView::wf);
    reveal(PendingQueueView::peek);
    reveal(PendingQueueView::popped);
}

/// A fragment heads the queue that follows no other fragment of its message.
pub open spec fn has_stray_head(q: PendingQueueView) -> bool {
    q.peek() matches Some(c) && !c.beginning_fragment && !q.selected
}

/// New data keeps to the windows: what is in flight afterwards is no more than the congestion
/// window allows, or than before, and what is sent is taken off the peer's window, to the byte
/// unless a stray fragment is left at the head of the queue. No byte gets lost between waiting
/// and flight, and the chunks get the next TSNs in a row.
pub proof fn law_windows_are_kept(
    s: AssociationView,
    now: Instant,
    chunks: Seq<DataView>,
    resets: Seq<u16>,
)
    requires
        s.wf(),
        numbered(chunks, s.tcb.tx.my_next_tsn),
    ensures
        ({
            let r = send_pending(s, now, chunks, resets);
            &&& r.s.wf()
            &&& r.s.inflight_queue.n_bytes <= s.inflight_queue.n_bytes
                || r.s.inflight_queue.n_bytes <= s.tcb.cc.cwnd
            &&& r.s.tcb.cc.cwnd == s.tcb.cc.cwnd
            &&& data_bytes(r.chunks) + r.s.tcb.cc.rwnd <= data_bytes(chunks) + s.tcb.cc.rwnd
            &&& data_bytes(r.chunks) + r.s.tcb.cc.rwnd == data_bytes(chunks) + s.tcb.cc.rwnd
                || has_stray_head(r.s.pending_queue)
            &&& has_stray_head(s.pending_queue) ==> has_stray_head(r.s.pending_queue)
            &&& r.s.buffered() == s.buffered()
            &&& numbered(r.chunks, r.s.tcb.tx.my_next_tsn)
        }),
    decreases s.pending_queue.len(), s.tcb.cc.rwnd,
{
    match s.pending_queue.peek() {
        None => {},
        Some(c) => {
            let n = c.user_data.len();
            let (b, u) = (c.beginning_fragment, c.unordered);
            lemma_pop_wf(s.pending_queue, b, u);
            lemma_end_of_stream_leaves(s.pending_queue);
            lemma_popped_is_peeked(s.pending_queue);
            law_peeked_chunk_comes_next(s.pending_queue);
            if n == 0 {
                let t = AssociationView { pending_queue: s.pending_queue.pop(b, u), ..s };
                law_windows_are_kept(t, now, chunks, resets.push(c.stream_identifier));
            } else if s.may_send(n) {
                let s1 = s.use_window(n);
                lemma_moved(s1, b, u, now);
                let t = s1.move_pending(b, u, now);
                let m = s1.moved_chunk(b, u, now);
                match m {
                    None => {
                        law_windows_are_kept(t, now, chunks, resets);
                    },
                    Some(d) => {
                        lemma_with_chunk(chunks, d);
                        lemma_numbered_push(chunks, d, s.tcb.tx.my_next_tsn);
                        law_windows_are_kept(t, now, chunks.push(d), resets);
                    },
                }
            }
        },
    }
}

proof fn lemma_nothing_sent(
    s: AssociationView,
    now: Instant,
    chunks: Seq<DataView>,
    resets: Seq<u16>,
)
    requires
        s.wf(),
    ensures
        ({
            let r = send_pending(s, now, chunks, resets);
            &&& r.s.wf()
            &&& r.chunks.len() >= chunks.len()
            &&& r.chunks.len() == chunks.len() ==> r.s.inflight_queue == s.inflight_queue
        }),
    decreases s.pending_queue.len(), s.tcb.cc.rwnd,
{
    match s.pending_queue.peek() {
        None => {},
        Some(c) => {
            let n = c.user_data.len();
            let (b, u) = (c.beginning_fragment, c.unordered);
            lemma_pop_wf(s.pending_queue, b, u);
            lemma_end_of_stream_leaves(s.pending_queue);
            if n == 0 {
                let t = AssociationView { pending_queue: s.pending_queue.pop(b, u), ..s };
                lemma_nothing_sent(t, now, chunks, resets.push(c.stream_identifier));
            } else if s.may_send(n) {
                let s1 = s.use_window(n);
                lemma_moved(s1, b, u, now);
                lemma_nothing_sent(
                    s1.move_pending(b, u, now),
                    now,
                    with_chunk(chunks, s1.moved_chunk(b, u, now)),
                    resets,
                );
            }
        },
    }
}

/// The sender can always have one chunk in flight, whatever the windows are: if nothing is in
/// flight and nothing is sent, then nothing waits that could be sent. A fragment that follows no
/// other one cannot.
pub proof fn law_one_chunk_is_always_in_flight(s: AssociationView, now: Instant)
    requires
        s.wf(),
        s.idle(),
        new_data(s, now).chunks.len() == 0,
    ensures
        ({
            let q = new_data(s, now).s.pending_queue;
            q.peek() is Some ==> has_stray_head(q)
        }),
{
    let r = send_pending(s, now, seq![], seq![]);
    lemma_nothing_sent(s, now, seq![], seq![]);
    law_peeked_chunk_comes_next(r.s.pending_queue);
    match r.s.pending_queue.peek() {
        None => {},
        Some(c) => {
            lemma_moved(r.s, c.beginning_fragment, c.unordered, now);
        },
    }
}

/// What is sent again after a timeout keeps to the windows, unless it is one chunk that probes
/// the peer's window: the first in flight, which is larger than that window.
pub proof fn law_resending_keeps_to_windows(
    w: Conditions,
    win: Windows,
    q: PayloadQueueView,
    chunks: Seq<DataView>,
    tsn: u32,
    is_first: bool,
    sent: nat,
    n: nat,
)
    requires
        data_bytes(chunks) == sent,
        sent <= win.awnd,
        is_first ==> chunks.len() == 0,
    ensures
        ({
            let r = resend(w, win, q, chunks, tsn, is_first, sent, n);
            data_bytes(r.chunks) <= win.awnd || {
                let c = q.chunks[tsn];
                &&& is_first
                &&& q.chunks.contains_key(tsn)
                &&& is_due(c)
                &&& r.chunks == seq![w.resent(c)]
                &&& win.rwnd < low32(c.user_data.len() as int)
            }
        }),
    decreases n,
{
    if n > 0 && q.chunks.contains_key(tsn) {
        let c = q.chunks[tsn];
        let next = tsn.wrapping_add(1);
        lemma_resent(c, w);
        lemma_with_chunk(chunks, w.resent(c));
        if !is_due(c) {
            law_resending_keeps_to_windows(
                w,
                win,
                q,
                chunks,
                next,
                false,
                sent,
                (n - 1) as nat,
            );
        } else if is_first && win.rwnd < low32(c.user_data.len() as int) {
            assert(chunks.push(w.resent(c)) =~= seq![w.resent(c)]);
        } else if sent + c.user_data.len() <= win.awnd {
            law_resending_keeps_to_windows(
                w,
                win,
                q.set(tsn, w.resent(c)),
                chunks.push(w.resent(c)),
                next,
                false,
                sent + c.user_data.len(),
                (n - 1) as nat,
            );
        }
    }
}

proof fn lemma_resent(c: DataView, w: Conditions)
    ensures
        w.resent(c).user_data == c.user_data,
        !w.resent(c).retransmit,
{
    reveal(resent);
    reveal(judged);
}

/// Only what is marked is sent again after a timeout: what is acknowledged or given up stays as
/// it is.
pub proof fn law_only_marked_data_is_resent(
    w: Conditions,
    win: Windows,
    q: PayloadQueueView,
    chunks: Seq<DataView>,
    tsn: u32,
    is_first: bool,
    sent: nat,
    n: nat,
    t: u32,
)
    requires
        q.chunks.contains_key(t),
        !is_due(q.chunks[t]),
    ensures
        resend(w, win, q, chunks, tsn, is_first, sent, n).q.chunks.contains_key(t),
        resend(w, win, q, chunks, tsn, is_first, sent, n).q.chunks[t] == q.chunks[t],
    decreases n,
{
    if n > 0 && q.chunks.contains_key(tsn) {
        let c = q.chunks[tsn];
        let next = tsn.wrapping_add(1);
        let m = (n - 1) as nat;
        if !is_due(c) {
            law_only_marked_data_is_resent(w, win, q, chunks, next, false, sent, m, t);
        } else if !(is_first && win.rwnd < low32(c.user_data.len() as int)) && sent
            + c.user_data.len() <= win.awnd {
            law_only_marked_data_is_resent(
                w,
                win,
                q.set(tsn, w.resent(c)),
                chunks.push(w.resent(c)),
                next,
                false,
                sent + c.user_data.len(),
                m,
                t,
            );
        }
    }
}

/// What is sent again fast fits one packet of at most `mtu` bytes, padding counted.
pub proof fn law_fast_retransmission_fits_a_packet(
    w: Conditions,
    mtu: u32,
    q: PayloadQueueView,
    chunks: Seq<DataView>,
    tsn: u32,
    n: nat,
)
    requires
        group_size(chunks) <= mtu,
    ensures
        group_size(resend_lost(w, mtu, q, chunks, tsn, group_size(chunks), n).chunks) <= mtu,
    decreases n,
{
    if n > 0 && q.chunks.contains_key(tsn) {
        let c = q.chunks[tsn];
        let next = tsn.wrapping_add(1);
        let m = (n - 1) as nat;
        if !is_lost(c) {
            law_fast_retransmission_fits_a_packet(w, mtu, q, chunks, next, m);
        } else if mtu >= group_size(chunks) + data_size(c) {
            reveal(resent_fast);
            reveal(judged);
            let sent = chunks.push(w.resent_fast(c));
            assert(sent.drop_last() =~= chunks);
            law_fast_retransmission_fits_a_packet(
                w,
                mtu,
                q.set(tsn, w.resent_fast(c)),
                sent,
                next,
                m,
            );
        }
    }
}

/// Fast retransmission sends only what was reported missing three times and sent once before.
pub proof fn law_only_lost_data_is_resent_fast(
    w: Conditions,
    mtu: u32,
    q: PayloadQueueView,
    chunks: Seq<DataView>,
    tsn: u32,
    size: int,
    n: nat,
    t: u32,
)
    requires
        q.chunks.contains_key(t),
        !is_lost(q.chunks[t]),
    ensures
        resend_lost(w, mtu, q, chunks, tsn, size, n).q.chunks.contains_key(t),
        resend_lost(w, mtu, q, chunks, tsn, size, n).q.chunks[t] == q.chunks[t],
    decreases n,
{
    if n > 0 && q.chunks.contains_key(tsn) {
        let c = q.chunks[tsn];
        let next = tsn.wrapping_add(1);
        let m = (n - 1) as nat;
        if !is_lost(c) {
            law_only_lost_data_is_resent_fast(w, mtu, q, chunks, next, size, m, t);
        } else if mtu >= size + data_size(c) {
            law_only_lost_data_is_resent_fast(
                w,
                mtu,
                q.set(tsn, w.resent_fast(c)),
                chunks.push(w.resent_fast(c)),
                next,
                size + data_size(c),
                m,
                t,
            );
        }
    }
}

} // verus!
