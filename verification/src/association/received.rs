//! How much what was received grows with a chunk.

use vstd::prelude::*;

use crate::association::inbound::{chunk_data, data_from};
use crate::association::receive::{
    lemma_reset_keeps_received, lemma_retry_keeps_received, lemma_take_next, skip_upto,
};
use crate::association::sack::{
    advanced, after_sack, block_acked, block_len, blocks_acked, count_before, count_upto,
    cumulatively_acked, fast_retransmission, pop_acked, pop_one, release_buffers,
    report_all_missing, report_missing, selective_ack, skipped_to, total_bytes_acked, Acked,
};
use crate::association::stats::AssociationStats;
use crate::association::view::{AssociationView, Tcb};
use crate::chunk::codec::{chunk_decode, chunk_value};
use crate::chunk::kinds::{ChunkView, ForwardTsnView, GapAckBlock, InitView, ReconfigView, SackView};
use crate::chunk::param::ParamView;
use crate::chunk::payload::{DataView, Instant};
use crate::keys::sorted_keys;
use crate::packet::{chunk_size, chunks_decode, CommonHeader, PacketView};
use crate::queue::payload_queue::{lemma_pop_wf, lemma_push_wf, PayloadQueueView};
use crate::util::{before32, fwd32, low32, upto32};

verus! {

proof fn lemma_pop_acked(
    s: AssociationView,
    bytes: Map<u16, u64>,
    i: u32,
    cum: u32,
    now: Instant,
)
    ensures
        pop_acked(s, bytes, i, cum, now).s.payload_queue == s.payload_queue,
        pop_acked(s, bytes, i, cum, now).s.tcb.rx == s.tcb.rx,
    decreases count_upto(i, cum),
{
    reveal(pop_one);
    reveal(cumulatively_acked);
    if upto32(i, cum) && s.inflight_queue.popped(i) is Some {
        let (s1, bytes1) = pop_one(s, bytes, i, now);
        lemma_pop_acked(s1, bytes1, i.wrapping_add(1), cum, now);
    }
}

proof fn lemma_block_acked(a: Acked, cum: u32, start: u16, n: int, now: Instant)
    ensures
        block_acked(a, cum, start, n, now).s.payload_queue == a.s.payload_queue,
        block_acked(a, cum, start, n, now).s.tcb.rx == a.s.tcb.rx,
    decreases n,
{
    if n > 0 {
        lemma_block_acked(a, cum, start, n - 1, now);
    }
}

proof fn lemma_blocks_acked(a: Acked, cum: u32, blocks: Seq<GapAckBlock>, k: int, now: Instant)
    ensures
        blocks_acked(a, cum, blocks, k, now).s.payload_queue == a.s.payload_queue,
        blocks_acked(a, cum, blocks, k, now).s.tcb.rx == a.s.tcb.rx,
    decreases k,
{
    if k > 0 {
        lemma_blocks_acked(a, cum, blocks, k - 1, now);
        let b = blocks_acked(a, cum, blocks, k - 1, now);
        lemma_block_acked(b, cum, blocks[k - 1].start, block_len(blocks[k - 1]), now);
    }
}

proof fn lemma_selective_ack(s: AssociationView, d: SackView, now: Instant)
    ensures
        selective_ack(s, d, now).s.payload_queue == s.payload_queue,
        selective_ack(s, d, now).s.tcb.rx == s.tcb.rx,
{
    reveal(selective_ack);
    let first = s.tcb.tx.cumulative_tsn_ack_point.wrapping_add(1);
    let a = pop_acked(s, Map::empty(), first, d.cumulative_tsn_ack, now);
    lemma_pop_acked(s, Map::empty(), first, d.cumulative_tsn_ack, now);
    lemma_blocks_acked(
        a,
        d.cumulative_tsn_ack,
        d.gap_ack_blocks,
        d.gap_ack_blocks.len() as int,
        now,
    );
}

proof fn lemma_release_buffers(s: AssociationView, bytes: Map<u16, u64>, ids: Seq<u16>, n: int)
    ensures
        release_buffers(s, bytes, ids, n).payload_queue == s.payload_queue,
        release_buffers(s, bytes, ids, n).tcb.rx == s.tcb.rx,
    decreases n,
{
    if n > 0 {
        lemma_release_buffers(s, bytes, ids, n - 1);
    }
}

proof fn lemma_report_all_missing(s: AssociationView, tsn: u32, max_tsn: u32, htna: u32)
    ensures
        report_all_missing(s, tsn, max_tsn, htna).0.payload_queue == s.payload_queue,
        report_all_missing(s, tsn, max_tsn, htna).0.tcb.rx == s.tcb.rx,
    decreases count_before(tsn, max_tsn),
{
    if before32(tsn, max_tsn) && s.inflight_queue.chunks.contains_key(tsn) {
        lemma_report_all_missing(
            report_missing(s, tsn, htna),
            tsn.wrapping_add(1),
            max_tsn,
            htna,
        );
    }
}

proof fn lemma_fast_retransmission(s: AssociationView, cum: u32, htna: u32, advanced: bool)
    ensures
        fast_retransmission(s, cum, htna, advanced).0.payload_queue == s.payload_queue,
        fast_retransmission(s, cum, htna, advanced).0.tcb.rx == s.tcb.rx,
{
    reveal(fast_retransmission);
    let len = low32(s.inflight_queue.chunks.dom().len() as int);
    lemma_report_all_missing(s, cum.wrapping_add(1), htna, htna);
    lemma_report_all_missing(
        s,
        cum.wrapping_add(1),
        cum.wrapping_add(len).wrapping_add(1),
        htna,
    );
}

proof fn lemma_sack_windows(s: AssociationView, d: SackView, bytes: Map<u16, u64>, now: Instant)
    ensures
        s.sack_windows(d, bytes, now).payload_queue == s.payload_queue,
        s.sack_windows(d, bytes, now).tcb.rx == s.tcb.rx,
{
    reveal(AssociationView::sack_windows);
    reveal(AssociationView::acked_upto);
    reveal(advanced);
    let s1 = s.acked_upto(d.cumulative_tsn_ack, total_bytes_acked(bytes), now);
    let ids = sorted_keys(bytes.dom());
    lemma_release_buffers(s1, bytes, ids, ids.len() as int);
}

/// A SACK leaves alone what was received and what is owed for it.
pub proof fn law_sack_keeps_received(s: AssociationView, d: SackView, now: Instant)
    ensures
        s.handle_sack(d, now).0.payload_queue == s.payload_queue,
        s.handle_sack(d, now).0.tcb.rx == s.tcb.rx,
{
    reveal(AssociationView::handle_sack);
    reveal(AssociationView::sack_accepted);
    reveal(skipped_to);
    reveal(after_sack);
    let s1 = s.with(
        Tcb {
            stats: AssociationStats {
                n_sacks: s.tcb.stats.n_sacks.wrapping_add(1),
                ..s.tcb.stats
            },
            ..s.tcb
        },
    );
    lemma_selective_ack(s1, d, now);
    let a = selective_ack(s1, d, now);
    lemma_sack_windows(a.s, d, a.bytes, now);
    let moved = before32(a.s.tcb.tx.cumulative_tsn_ack_point, d.cumulative_tsn_ack);
    lemma_fast_retransmission(
        a.s.sack_windows(d, a.bytes, now),
        d.cumulative_tsn_ack,
        a.htna,
        moved,
    );
}

proof fn lemma_skip_upto(q: PayloadQueueView, last: u32, cum: u32)
    requires
        q.wf(),
    ensures
        skip_upto(q, last, cum).wf(),
        skip_upto(q, last, cum).n_bytes <= q.n_bytes,
    decreases fwd32(last, cum),
{
    if before32(last, cum) {
        lemma_pop_wf(q, last.wrapping_add(1));
        lemma_skip_upto(q.pop(last.wrapping_add(1)), last.wrapping_add(1), cum);
    }
}

proof fn lemma_advance_peer_tsn(s: AssociationView, reply: Seq<PacketView>)
    requires
        s.payload_queue.wf(),
    ensures
        s.advance_peer_tsn(reply).s.payload_queue.n_bytes <= s.payload_queue.n_bytes,
    decreases s.payload_queue.sorted.len(),
{
    lemma_pop_wf(s.payload_queue, s.tcb.rx.peer_last_tsn.wrapping_add(1));
    reveal(AssociationView::take_next);
    if s.has_next() {
        let t = s.take_next();
        lemma_take_next(s);
        lemma_retry_keeps_received(t, reply);
        let r = t.retry_all_resets(reply);
        lemma_advance_peer_tsn(r.s, r.reply);
    }
}

proof fn lemma_after_data(s: AssociationView, sack_immediately: bool)
    requires
        s.payload_queue.wf(),
    ensures
        s.after_data(sack_immediately).0.payload_queue.n_bytes <= s.payload_queue.n_bytes,
{
    reveal(AssociationView::after_data);
    lemma_advance_peer_tsn(s, seq![]);
}

proof fn lemma_accept_data(s: AssociationView, d: DataView)
    requires
        s.payload_queue.wf(),
    ensures
        s.accept_data(d).payload_queue.wf(),
        s.accept_data(d).payload_queue.n_bytes <= s.payload_queue.n_bytes + d.user_data.len(),
{
    reveal(AssociationView::accept_data);
    reveal(AssociationView::get_or_create_stream);
    reveal(AssociationView::create_stream);
    reveal(AssociationView::store);
    reveal(AssociationView::deliver);
    reveal(PayloadQueueView::push);
    let t = s.get_or_create_stream(d.stream_identifier);
    assert(t.payload_queue == s.payload_queue);
    lemma_push_wf(s.payload_queue, d);
}

proof fn lemma_handle_data(s: AssociationView, d: DataView)
    requires
        s.payload_queue.wf(),
    ensures
        s.handle_data(d).0.payload_queue.n_bytes <= s.payload_queue.n_bytes + d.user_data.len(),
{
    reveal(AssociationView::handle_data);
    reveal(AssociationView::count_data);
    let t = s.count_data();
    lemma_accept_data(t, d);
    lemma_after_data(t.accept_data(d), d.immediate_sack);
}

proof fn lemma_handle_forward_tsn(s: AssociationView, c: ForwardTsnView)
    requires
        s.payload_queue.wf(),
    ensures
        s.handle_forward_tsn(c).0.payload_queue.n_bytes <= s.payload_queue.n_bytes,
{
    reveal(AssociationView::handle_forward_tsn);
    reveal(AssociationView::ack_now);
    reveal(AssociationView::skip_data);
    lemma_skip_upto(s.payload_queue, s.tcb.rx.peer_last_tsn, c.new_cumulative_tsn);
    lemma_after_data(s.skip_data(c), false);
}

proof fn lemma_handle_reconfig_param(
    s: AssociationView,
    param: Option<ParamView>,
    reply: Seq<PacketView>,
)
    ensures
        s.handle_reconfig_param(param, reply).0.s.payload_queue == s.payload_queue,
        s.handle_reconfig_param(param, reply).0.s.tcb.rx == s.tcb.rx,
{
    reveal(AssociationView::handle_reconfig_param);
    reveal(AssociationView::keep_request);
    reveal(AssociationView::reset_answered);
    if let Some(ParamView::OutgoingResetRequest(p)) = param {
        lemma_reset_keeps_received(s.keep_request(p), p, true, reply);
    }
}

/// A RECONFIG chunk leaves alone what was received.
pub proof fn lemma_handle_reconfig(s: AssociationView, c: ReconfigView)
    ensures
        s.handle_reconfig(c).0.payload_queue == s.payload_queue,
        s.handle_reconfig(c).0.tcb.rx == s.tcb.rx,
{
    reveal(AssociationView::handle_reconfig);
    lemma_handle_reconfig_param(s, c.param_a, seq![]);
    let (a, a_ok) = s.handle_reconfig_param(c.param_a, seq![]);
    lemma_handle_reconfig_param(a.s, c.param_b, a.reply);
}

proof fn lemma_handle_init_ack(s: AssociationView, h: CommonHeader, i: InitView, now: Instant)
    ensures
        s.handle_init_ack(h, i, now).0.payload_queue == s.payload_queue,
{
    reveal(AssociationView::handle_init_ack);
    reveal(AssociationView::accept_init_ack);
    reveal(AssociationView::send_cookie_echo);
}

/// What was received grows by no more than the data of a chunk.
pub proof fn lemma_dispatch_received(
    s: AssociationView,
    h: CommonHeader,
    c: ChunkView,
    now: Instant,
    fresh: Seq<u8>,
)
    requires
        s.payload_queue.wf(),
    ensures
        s.dispatch(h, c, now, fresh).0.payload_queue.n_bytes <= s.payload_queue.n_bytes
            + chunk_data(c),
{
    reveal(AssociationView::dispatch);
    reveal(AssociationView::close_for);
    match c {
        ChunkView::Init(i) => {
            lemma_handle_init_ack(s, h, i, now);
            reveal(AssociationView::handle_init);
        },
        ChunkView::CookieEcho(cookie) => {
            reveal(AssociationView::handle_cookie_echo);
            reveal(AssociationView::connect);
        },
        ChunkView::CookieAck => {
            reveal(AssociationView::handle_cookie_ack);
        },
        ChunkView::PayloadData(d) => {
            lemma_handle_data(s, d);
        },
        ChunkView::SelectiveAck(d) => {
            law_sack_keeps_received(s, d, now);
        },
        ChunkView::Reconfig(c) => {
            lemma_handle_reconfig(s, c);
        },
        ChunkView::ForwardTsn(c) => {
            lemma_handle_forward_tsn(s, c);
        },
        ChunkView::ShutdownComplete => {
            reveal(AssociationView::handle_shutdown_complete);
        },
        _ => {},
    }
}

/// Chunks hold no more user data than the bytes that they are read from.
pub proof fn lemma_decoded_data(s: Seq<u8>)
    ensures
        chunks_decode(s) matches Ok(cs) ==> data_from(cs, 0) <= s.len(),
    decreases s.len(),
{
    if s.len() >= 4 {
        match chunk_decode(s) {
            Ok(c) => {
                let n = chunk_size(c);
                reveal(chunk_value);
                assert(chunk_data(c) <= n && n > 0);
                if n <= s.len() {
                    let rest = s.skip(n);
                    lemma_decoded_data(rest);
                    match chunks_decode(rest) {
                        Ok(more) => {
                            lemma_data_behind(c, more, 0);
                        },
                        Err(_) => {},
                    }
                }
            },
            Err(_) => {},
        }
    }
}

proof fn lemma_data_behind(c: ChunkView, more: Seq<ChunkView>, k: int)
    requires
        k >= 0,
    ensures
        data_from(seq![c] + more, k + 1) == data_from(more, k),
    decreases more.len() - k,
{
    if k < more.len() {
        lemma_data_behind(c, more, k + 1);
        assert((seq![c] + more)[k + 1] == more[k]);
    }
}

} // verus!
