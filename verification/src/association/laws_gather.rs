//! What holds of the packets that go out together.

use vstd::prelude::*;

use crate::association::gather::{with_packet, with_packets};
use crate::association::laws_deadlines::{in_millis, law_started_timer_expires_in_time, wait};
use crate::association::laws_inflow::law_owed_ack_goes_out;
use crate::association::laws_outflow::law_packets_go_out_in_order;
use crate::association::laws_reset::{is_addressed, lemma_sorted_dom32};
use crate::association::send::{lemma_end_of_stream_leaves, new_data, send_pending, with_chunk};
use crate::association::state::{AckState, AssociationState};
use crate::association::timer::Timer;
use crate::association::view::AssociationView;
use crate::chunk::kinds::{ChunkView, ReconfigView};
use crate::chunk::payload::{DataView, Instant};
use crate::keys::sorted_keys;
use crate::packet::{packet_encode, PacketView};
use crate::queue::pending_queue::lemma_pop_wf;
use crate::util::fwd32;

verus! {

/// Packets that went out before stay in front.
pub open spec fn extends(before: Seq<Seq<u8>>, after: Seq<Seq<u8>>) -> bool {
    after.len() >= before.len() && after.take(before.len() as int) == before
}

/// The bytes of a packet are among those that go out, if it can be encoded.
pub open spec fn goes_out(raws: Seq<Seq<u8>>, p: PacketView) -> bool {
    packet_encode(p) matches Ok(b) ==> raws.contains(b)
}

proof fn lemma_extends(a: Seq<Seq<u8>>, b: Seq<Seq<u8>>, c: Seq<Seq<u8>>)
    requires
        extends(a, b),
        extends(b, c),
    ensures
        extends(a, c),
{
    assert(c.take(a.len() as int) =~= b.take(a.len() as int));
}

proof fn lemma_still_goes_out(a: Seq<Seq<u8>>, b: Seq<Seq<u8>>, p: PacketView)
    requires
        extends(a, b),
        goes_out(a, p),
    ensures
        goes_out(b, p),
{
    if packet_encode(p) is Ok {
        let x = packet_encode(p)->Ok_0;
        let j = choose|j: int| 0 <= j < a.len() && a[j] == x;
        assert(b.take(a.len() as int)[j] == x);
        assert(b[j] == x);
    }
}

proof fn lemma_with_packet(raws: Seq<Seq<u8>>, p: PacketView)
    ensures
        extends(raws, with_packet(raws, p)),
        goes_out(with_packet(raws, p), p),
{
    reveal(with_packet);
    let r = with_packet(raws, p);
    assert(r.take(raws.len() as int) =~= raws);
    if packet_encode(p) is Ok {
        assert(r[raws.len() as int] == packet_encode(p)->Ok_0);
    }
}

proof fn lemma_same(raws: Seq<Seq<u8>>)
    ensures
        extends(raws, raws),
{
    assert(raws.take(raws.len() as int) =~= raws);
}

proof fn lemma_with_packets(raws: Seq<Seq<u8>>, ps: Seq<PacketView>, n: int)
    requires
        0 <= n <= ps.len(),
    ensures
        extends(raws, with_packets(raws, ps, n)),
        forall|j: int| 0 <= j < n ==> goes_out(with_packets(raws, ps, n), #[trigger] ps[j]),
    decreases n,
{
    if n > 0 {
        lemma_with_packets(raws, ps, n - 1);
        let a = with_packets(raws, ps, n - 1);
        let r = with_packets(raws, ps, n);
        lemma_with_packet(a, ps[n - 1]);
        lemma_extends(raws, a, r);
        assert forall|j: int| 0 <= j < n implies goes_out(r, #[trigger] ps[j]) by {
            if j < n - 1 {
                lemma_still_goes_out(a, r, ps[j]);
            }
        }
    } else {
        lemma_same(raws);
    }
}

/// New data goes out in its packets, behind what went before, and the retransmission timer runs
/// then: until the time at which it expires already, if that is still to come. Without new data
/// nothing happens.
pub proof fn law_new_data_runs_the_timer(
    s: AssociationView,
    chunks: Seq<DataView>,
    raws: Seq<Seq<u8>>,
    now: Instant,
)
    requires
        s.tcb.rto_mgr.rto > 0,
    ensures
        ({
            let g = s.gather_new_data(chunks, raws, now);
            let t3 = s.tcb.timers.t3_rtx;
            let ps = s.bundled(chunks);
            &&& chunks.len() == 0 ==> g.s == s && g.raws == raws
            &&& chunks.len() > 0 ==> {
                &&& g.s.tcb.timers.t3_rtx.deadline matches Some(d) && d == (
                if t3.deadline is Some && t3.deadline->0 >= now {
                    t3.deadline->0 as int
                } else {
                    in_millis(now, wait(s.tcb.rto_mgr.rto, t3.retrans as nat))
                })
                &&& g.s.tcb.timers.t3_rtx.retrans == t3.retrans
                &&& extends(raws, g.raws)
                &&& forall|j: int| 0 <= j < ps.len() ==> goes_out(g.raws, #[trigger] ps[j])
            }
        }),
{
    reveal(AssociationView::gather_new_data);
    let ps = s.bundled(chunks);
    lemma_with_packets(raws, ps, ps.len() as int);
    law_started_timer_expires_in_time(s.tcb.timers, Timer::T3RTX, now, s.tcb.rto_mgr.rto);
}

proof fn lemma_with_reconfigs(s: AssociationView, raws: Seq<Seq<u8>>, rsns: Seq<u32>, n: int)
    requires
        0 <= n <= rsns.len(),
    ensures
        extends(raws, s.with_reconfigs(raws, rsns, n)),
        forall|j: int|
            0 <= j < n ==> goes_out(
                s.with_reconfigs(raws, rsns, n),
                s.reconfig_packet(s.reconfigs[#[trigger] rsns[j]]),
            ),
    decreases n,
{
    if n > 0 {
        lemma_with_reconfigs(s, raws, rsns, n - 1);
        let a = s.with_reconfigs(raws, rsns, n - 1);
        let r = s.with_reconfigs(raws, rsns, n);
        lemma_with_packet(a, s.reconfig_packet(s.reconfigs[rsns[n - 1]]));
        lemma_extends(raws, a, r);
        assert forall|j: int| 0 <= j < n implies goes_out(
            r,
            s.reconfig_packet(s.reconfigs[#[trigger] rsns[j]]),
        ) by {
            if j < n - 1 {
                lemma_still_goes_out(a, r, s.reconfig_packet(s.reconfigs[rsns[j]]));
            }
        }
    } else {
        lemma_same(raws);
    }
}

/// A packet to the peer that carries one RECONFIG chunk.
pub open spec fn carries_request(s: AssociationView, c: ReconfigView, p: PacketView) -> bool {
    is_addressed(s, p) && p.chunks == seq![ChunkView::Reconfig(c)]
}

/// When it is called for, every request that was not answered goes out again as it is, and is
/// then not called for any more. Otherwise none goes out.
pub proof fn law_requests_go_out_again(s: AssociationView, raws: Seq<Seq<u8>>, rsn: u32)
    requires
        s.reconfigs.dom().finite(),
        s.reconfigs.contains_key(rsn),
    ensures
        ({
            let g = s.gather_old_reconfigs(raws);
            &&& !s.tcb.owed.will_retransmit_reconfig ==> g.s == s && g.raws == raws
            &&& s.tcb.owed.will_retransmit_reconfig ==> {
                &&& extends(raws, g.raws)
                &&& exists|p: PacketView|
                    carries_request(s, s.reconfigs[rsn], p) && #[trigger] goes_out(g.raws, p)
                &&& !g.s.tcb.owed.will_retransmit_reconfig
                &&& g.s.reconfigs == s.reconfigs
            }
        }),
{
    reveal(AssociationView::gather_old_reconfigs);
    if s.tcb.owed.will_retransmit_reconfig {
        let rsns = sorted_keys(s.reconfigs.dom());
        lemma_sorted_dom32(s.reconfigs.dom());
        lemma_with_reconfigs(s, raws, rsns, rsns.len() as int);
        assert(rsns.to_set().contains(rsn));
        let j = choose|j: int| 0 <= j < rsns.len() && rsns[j] == rsn;
        let p = s.reconfig_packet(s.reconfigs[rsns[j]]);
        assert(carries_request(s, s.reconfigs[rsn], p));
        assert(goes_out(s.gather_old_reconfigs(raws).raws, p));
    }
}

/// The reconfiguration timer runs once a request goes out, new or again.
pub proof fn law_requests_run_the_timer(
    s: AssociationView,
    ids: Seq<u16>,
    raws: Seq<Seq<u8>>,
    now: Instant,
)
    requires
        s.tcb.rto_mgr.rto > 0,
    ensures
        ({
            let g = s.gather_reconfigs(ids, raws, now);
            let slot = g.s.tcb.timers.reconfig;
            let n = s.tcb.timers.reconfig.retrans;
            &&& ids.len() > 0 || (s.tcb.owed.will_retransmit_reconfig
                && !s.reconfigs.dom().is_empty()) ==> (slot.deadline matches Some(d) && d
                == in_millis(now, wait(s.tcb.rto_mgr.rto, n as nat)))
            &&& ids.len() == 0 && !s.tcb.owed.will_retransmit_reconfig ==> g.s == s && g.raws
                == raws
            &&& !g.s.tcb.owed.will_retransmit_reconfig
            &&& ids.len() > 0 ==> g.s.reconfigs.contains_key(s.tcb.tx.my_next_rsn)
        }),
{
    reveal(AssociationView::gather_reconfigs);
    reveal(AssociationView::gather_old_reconfigs);
    reveal(AssociationView::gather_new_reconfig);
    reveal(AssociationView::start_reconfig_timer);
    law_started_timer_expires_in_time(s.tcb.timers, Timer::Reconfig, now, s.tcb.rto_mgr.rto);
    let g1 = s.gather_old_reconfigs(raws);
    let g2 = g1.s.gather_new_reconfig(ids, g1.raws);
    if ids.len() > 0 {
        assert(g2.s.reconfigs.dom().contains(s.tcb.tx.my_next_rsn));
    }
}

/// The chunks of the shutdown sequence go out one at a time, each when it is owed. A SHUTDOWN and
/// its acknowledgement run the shutdown timer; once the last chunk is on its way the association
/// is to be closed, and only then.
pub proof fn law_shutdown_chunks_go_out(s: AssociationView, raws: Seq<Seq<u8>>, now: Instant)
    requires
        s.tcb.rto_mgr.rto > 0,
    ensures
        ({
            let (g, stays) = s.gather_shutdown(raws, now);
            let o = s.tcb.owed;
            let chunk = if o.will_send_shutdown {
                ChunkView::Shutdown(s.tcb.tx.cumulative_tsn_ack_point)
            } else if o.will_send_shutdown_ack {
                ChunkView::ShutdownAck
            } else {
                ChunkView::ShutdownComplete
            };
            let owed = o.will_send_shutdown || o.will_send_shutdown_ack
                || o.will_send_shutdown_complete;
            let last = !o.will_send_shutdown && !o.will_send_shutdown_ack;
            &&& !owed ==> g.s == s && g.raws == raws && stays
            &&& owed ==> exists|p: PacketView|
                {
                    &&& is_addressed(s, p)
                    &&& p.chunks == seq![chunk]
                    &&& g.raws == #[trigger] with_packet(raws, p)
                    &&& packet_encode(p) is Ok ==> {
                        &&& stays == !last
                        &&& !last ==> (g.s.tcb.timers.t2_shutdown.deadline matches Some(d) && d
                            == in_millis(
                            now,
                            wait(s.tcb.rto_mgr.rto, s.tcb.timers.t2_shutdown.retrans as nat),
                        ))
                        &&& last ==> g.s.tcb.timers == s.tcb.timers
                    }
                }
            &&& !g.s.tcb.owed.will_send_shutdown
            &&& g.s.tcb.owed.will_send_shutdown_ack == (o.will_send_shutdown_ack
                && o.will_send_shutdown)
            &&& g.s.tcb.owed.will_send_shutdown_complete == (o.will_send_shutdown_complete && !last)
            &&& g.s.tcb.state == s.tcb.state
        }),
{
    reveal(AssociationView::gather_shutdown);
    law_started_timer_expires_in_time(s.tcb.timers, Timer::T2Shutdown, now, s.tcb.rto_mgr.rto);
    if let Some(c) = s.shutdown_chunk() {
        let p = s.with_owed(s.shutdown_owed()).packet(seq![c]);
        assert(is_addressed(s, p));
        assert(s.gather_shutdown(raws, now).0.raws == with_packet(raws, p));
    }
}

/// What a stage of sending leaves alone.
spec fn keeps_receiver(s: AssociationView, r: AssociationView) -> bool {
    &&& r.tcb.rx == s.tcb.rx
    &&& r.tcb.peer == s.tcb.peer
    &&& r.payload_queue == s.payload_queue
    &&& r.control_queue == s.control_queue
    &&& r.tcb.state == s.tcb.state
    &&& r.streams == s.streams
}

proof fn lemma_send_keeps(
    s: AssociationView,
    now: Instant,
    chunks: Seq<DataView>,
    resets: Seq<u16>,
)
    requires
        s.pending_queue.wf(),
    ensures
        keeps_receiver(s, send_pending(s, now, chunks, resets).s),
        send_pending(s, now, chunks, resets).s.tcb.owed == s.tcb.owed,
    decreases s.pending_queue.len(), s.tcb.cc.rwnd,
{
    let q = s.pending_queue;
    if let Some(c) = q.peek() {
        let n = c.user_data.len();
        let (b, u) = (c.beginning_fragment, c.unordered);
        lemma_pop_wf(q, b, u);
        lemma_end_of_stream_leaves(q);
        if n == 0 {
            let t = AssociationView { pending_queue: q.pop(b, u), ..s };
            lemma_send_keeps(t, now, chunks, resets.push(c.stream_identifier));
        } else if s.may_send(n) {
            let s1 = s.use_window(n);
            let m = s1.moved_chunk(b, u, now);
            lemma_send_keeps(s1.move_pending(b, u, now), now, with_chunk(chunks, m), resets);
        }
    }
}

proof fn lemma_retransmissions(s: AssociationView, raws: Seq<Seq<u8>>, now: Instant)
    ensures
        ({
            let g = s.gather_retransmissions(raws, now);
            &&& extends(raws, g.raws)
            &&& keeps_receiver(s, g.s)
            &&& g.s.tcb.owed == s.tcb.owed
            &&& g.s.pending_queue == s.pending_queue
        }),
{
    reveal(AssociationView::gather_retransmissions);
    let ps = s.bundled(s.resending(now).chunks);
    lemma_with_packets(raws, ps, ps.len() as int);
}

proof fn lemma_data_and_reconfigs(s: AssociationView, raws: Seq<Seq<u8>>, now: Instant)
    requires
        s.pending_queue.wf(),
    ensures
        ({
            let g = s.gather_data_and_reconfigs(raws, now);
            &&& extends(raws, g.raws)
            &&& keeps_receiver(s, g.s)
            &&& !g.s.tcb.owed.will_retransmit_reconfig
            &&& g.s.tcb.owed.will_send_forward_tsn == s.tcb.owed.will_send_forward_tsn
        }),
{
    reveal(AssociationView::gather_data_and_reconfigs);
    reveal(AssociationView::gather_new_data);
    reveal(AssociationView::gather_reconfigs);
    reveal(AssociationView::gather_old_reconfigs);
    reveal(AssociationView::gather_new_reconfig);
    reveal(AssociationView::start_reconfig_timer);
    lemma_send_keeps(s, now, seq![], seq![]);
    let d = new_data(s, now);
    let ps = d.s.bundled(d.chunks);
    lemma_same(raws);
    lemma_with_packets(raws, ps, ps.len() as int);
    let g = d.s.gather_new_data(d.chunks, raws, now);
    assert(extends(raws, g.raws));
    let g1 = g.s.gather_old_reconfigs(g.raws);
    let rsns = sorted_keys(g.s.reconfigs.dom());
    lemma_with_reconfigs(g.s, g.raws, rsns, rsns.len() as int);
    lemma_same(g.raws);
    assert(extends(g.raws, g1.raws));
    let g2 = g1.s.gather_new_reconfig(d.resets, g1.raws);
    lemma_same(g1.raws);
    if d.resets.len() > 0 {
        let c = g2.s.reconfigs[g1.s.tcb.tx.my_next_rsn];
        lemma_with_packet(g1.raws, g1.s.reconfig_packet(c));
    }
    assert(extends(g1.raws, g2.raws));
    lemma_extends(raws, g.raws, g1.raws);
    lemma_extends(raws, g1.raws, g2.raws);
}

proof fn lemma_lost(s: AssociationView, raws: Seq<Seq<u8>>, now: Instant)
    ensures
        ({
            let g = s.gather_lost(raws, now);
            &&& extends(raws, g.raws)
            &&& keeps_receiver(s, g.s)
            &&& !g.s.tcb.owed.will_retransmit_fast
            &&& g.s.tcb.owed.will_send_forward_tsn == s.tcb.owed.will_send_forward_tsn
            &&& g.s.tcb.owed.will_retransmit_reconfig == s.tcb.owed.will_retransmit_reconfig
        }),
{
    reveal(AssociationView::gather_lost);
    lemma_same(raws);
    let u = s.with_owed(
        crate::association::view::Owed { will_retransmit_fast: false, ..s.tcb.owed },
    );
    let r = u.resending_lost(now);
    lemma_with_packet(raws, u.packet(crate::association::send::data_chunks(r.chunks)));
}

/// A packet to the peer that carries one acknowledgement of what was received.
pub open spec fn carries_ack(s: AssociationView, p: PacketView) -> bool {
    &&& is_addressed(s, p)
    &&& p.chunks.len() == 1
    &&& p.chunks[0] matches ChunkView::SelectiveAck(a) && {
        &&& a.cumulative_tsn_ack == s.tcb.rx.peer_last_tsn
        &&& a.duplicate_tsn == s.payload_queue.dup_tsn
    }
}

proof fn lemma_sack(s: AssociationView, raws: Seq<Seq<u8>>)
    ensures
        ({
            let g = s.gather_sack(raws);
            &&& extends(raws, g.raws)
            &&& g.s.tcb.rx.ack_state != AckState::Immediate
            &&& g.s.tcb.owed == s.tcb.owed
            &&& s.tcb.rx.ack_state == AckState::Immediate ==> exists|p: PacketView| #[trigger]
                carries_ack(s, p) && goes_out(g.raws, p)
            &&& g.s.control_queue == s.control_queue
            &&& g.s.tcb.state == s.tcb.state
            &&& g.s.tcb.peer == s.tcb.peer
        }),
{
    law_owed_ack_goes_out(s, raws);
    reveal(AssociationView::gather_sack);
    lemma_same(raws);
    if s.tcb.rx.ack_state == AckState::Immediate {
        let g = s.gather_sack(raws);
        let p = choose|p: PacketView|
            {
                &&& is_addressed(s, p)
                &&& p.chunks.len() == 1
                &&& p.chunks[0] matches ChunkView::SelectiveAck(a) && {
                    &&& a.cumulative_tsn_ack == s.tcb.rx.peer_last_tsn
                    &&& a.duplicate_tsn == s.payload_queue.dup_tsn
                    &&& a == s.selective_ack_chunk()
                }
                &&& g.raws == #[trigger] with_packet(raws, p)
            };
        lemma_with_packet(raws, p);
        assert(carries_ack(s, p));
    }
}

proof fn lemma_forward(s: AssociationView, raws: Seq<Seq<u8>>)
    ensures
        ({
            let g = s.gather_forward_tsn(raws);
            &&& extends(raws, g.raws)
            &&& !g.s.tcb.owed.will_send_forward_tsn
            &&& g.s.tcb.owed.will_retransmit_fast == s.tcb.owed.will_retransmit_fast
            &&& g.s.tcb.owed.will_retransmit_reconfig == s.tcb.owed.will_retransmit_reconfig
            &&& g.s.tcb.rx == s.tcb.rx
            &&& g.s.control_queue == s.control_queue
            &&& g.s.tcb.state == s.tcb.state
        }),
{
    reveal(AssociationView::gather_forward_tsn);
    lemma_same(raws);
    let u = s.with_owed(
        crate::association::view::Owed { will_send_forward_tsn: false, ..s.tcb.owed },
    );
    lemma_with_packet(raws, u.packet(seq![ChunkView::ForwardTsn(u.forward_tsn_chunk())]));
}

proof fn lemma_established(s: AssociationView, raws: Seq<Seq<u8>>, now: Instant)
    requires
        s.pending_queue.wf(),
    ensures
        ({
            let g = s.gather_established(raws, now);
            &&& extends(raws, g.raws)
            &&& g.s.control_queue == s.control_queue
            &&& g.s.tcb.state == s.tcb.state
            &&& g.s.tcb.rx.ack_state != AckState::Immediate
            &&& !g.s.tcb.owed.will_retransmit_fast
            &&& !g.s.tcb.owed.will_send_forward_tsn
            &&& !g.s.tcb.owed.will_retransmit_reconfig
            &&& s.tcb.rx.ack_state == AckState::Immediate ==> exists|p: PacketView| #[trigger]
                carries_ack(s, p) && goes_out(g.raws, p)
        }),
{
    reveal(AssociationView::gather_established);
    let g1 = s.gather_retransmissions(raws, now);
    lemma_retransmissions(s, raws, now);
    let g2 = g1.s.gather_data_and_reconfigs(g1.raws, now);
    lemma_data_and_reconfigs(g1.s, g1.raws, now);
    let g3 = g2.s.gather_lost(g2.raws, now);
    lemma_lost(g2.s, g2.raws, now);
    let g4 = g3.s.gather_sack(g3.raws);
    lemma_sack(g3.s, g3.raws);
    let g5 = g4.s.gather_forward_tsn(g4.raws);
    lemma_forward(g4.s, g4.raws);
    lemma_extends(raws, g1.raws, g2.raws);
    lemma_extends(raws, g2.raws, g3.raws);
    lemma_extends(raws, g3.raws, g4.raws);
    lemma_extends(raws, g4.raws, g5.raws);
    if s.tcb.rx.ack_state == AckState::Immediate {
        let p = choose|p: PacketView| #[trigger] carries_ack(g3.s, p) && goes_out(g4.raws, p);
        lemma_still_goes_out(g4.raws, g5.raws, p);
        assert(carries_ack(s, p));
    }
}

/// An established association sends all that it owes: the packets that wait come first, an
/// acknowledgement that is owed at once is among the others, and afterwards nothing is owed.
pub proof fn law_established_sends_what_it_owes(s: AssociationView, now: Instant)
    requires
        s.wf(),
        s.tcb.state == AssociationState::Established,
    ensures
        ({
            let (g, stays) = s.gather_outbound(now);
            &&& stays
            &&& forall|j: int|
                0 <= j < s.control_queue.len() ==> goes_out(g.raws, #[trigger] s.control_queue[j])
            &&& g.s.control_queue.len() == 0
            &&& g.s.tcb.rx.ack_state != AckState::Immediate
            &&& !g.s.tcb.owed.will_retransmit_fast
            &&& !g.s.tcb.owed.will_send_forward_tsn
            &&& !g.s.tcb.owed.will_retransmit_reconfig
            &&& s.tcb.rx.ack_state == AckState::Immediate ==> exists|p: PacketView| #[trigger]
                carries_ack(s, p) && goes_out(g.raws, p)
        }),
{
    reveal(AssociationView::gather_outbound);
    let g0 = s.gather_control();
    lemma_with_packets(seq![], s.control_queue, s.control_queue.len() as int);
    lemma_established(g0.s, g0.raws, now);
    let g = s.gather_outbound(now).0;
    assert forall|j: int| 0 <= j < s.control_queue.len() implies goes_out(
        g.raws,
        #[trigger] s.control_queue[j],
    ) by {
        lemma_still_goes_out(g0.raws, g.raws, s.control_queue[j]);
    }
    if s.tcb.rx.ack_state == AckState::Immediate {
        let p = choose|p: PacketView| #[trigger] carries_ack(g0.s, p) && goes_out(g.raws, p);
        assert(carries_ack(s, p));
    }
}

/// A FORWARD TSN goes out when it is owed and data was given up behind the acknowledged data: it
/// tells how far the peer is to move. Otherwise none goes out.
pub proof fn law_forward_tsn_goes_out(s: AssociationView, raws: Seq<Seq<u8>>)
    ensures
        ({
            let g = s.gather_forward_tsn(raws);
            let point = s.tcb.tx.advanced_peer_tsn_ack_point;
            let is_ahead = 0 < fwd32(s.tcb.tx.cumulative_tsn_ack_point, point) <= 0x8000_0000;
            &&& !s.tcb.owed.will_send_forward_tsn ==> g.s == s && g.raws == raws
            &&& !g.s.tcb.owed.will_send_forward_tsn
            &&& s.tcb.owed.will_send_forward_tsn && !is_ahead ==> g.raws == raws
            &&& s.tcb.owed.will_send_forward_tsn && is_ahead ==> exists|p: PacketView|
                {
                    &&& is_addressed(s, p)
                    &&& p.chunks.len() == 1
                    &&& p.chunks[0] matches ChunkView::ForwardTsn(c) && c.new_cumulative_tsn
                        == point && c == s.forward_tsn_chunk()
                    &&& g.raws == #[trigger] with_packet(raws, p)
                }
            &&& g.s.inflight_queue == s.inflight_queue && g.s.tcb.tx == s.tcb.tx
        }),
{
    reveal(AssociationView::gather_forward_tsn);
    if s.tcb.owed.will_send_forward_tsn {
        let u = s.with_owed(
            crate::association::view::Owed { will_send_forward_tsn: false, ..s.tcb.owed },
        );
        let p = u.packet(seq![ChunkView::ForwardTsn(u.forward_tsn_chunk())]);
        assert(is_addressed(s, p));
        assert(p.chunks[0] == ChunkView::ForwardTsn(s.forward_tsn_chunk()));
        assert(s.gather_forward_tsn(raws).raws == with_packet(raws, p)
            || s.gather_forward_tsn(raws).raws == raws);
    }
}

/// Before the handshake is done, only the packets that wait go out.
pub proof fn law_handshake_sends_what_waits(s: AssociationView, now: Instant)
    requires
        s.tcb.state == AssociationState::CookieWait || s.tcb.state == AssociationState::CookieEchoed
            || s.tcb.state == AssociationState::Closed,
    ensures
        ({
            let (g, stays) = s.gather_outbound(now);
            &&& stays
            &&& g.s == (AssociationView { control_queue: seq![], ..s })
            &&& (forall|j: int|
                0 <= j < s.control_queue.len() ==> packet_encode(#[trigger] s.control_queue[j])
                    is Ok) ==> {
                &&& g.raws.len() == s.control_queue.len()
                &&& forall|j: int|
                    0 <= j < s.control_queue.len() ==> g.raws[j] == packet_encode(
                        #[trigger] s.control_queue[j],
                    )->Ok_0
            }
        }),
{
    reveal(AssociationView::gather_outbound);
    law_packets_go_out_in_order(seq![], s.control_queue);
}

/// Data that is sent again because of the timer goes out in its packets, behind what went before.
/// The lost data goes out in one packet when it is called for, and is then not called for any
/// more.
pub proof fn law_resent_data_goes_out(s: AssociationView, raws: Seq<Seq<u8>>, now: Instant)
    ensures
        ({
            let g = s.gather_retransmissions(raws, now);
            let ps = s.bundled(s.resending(now).chunks);
            &&& extends(raws, g.raws)
            &&& forall|j: int| 0 <= j < ps.len() ==> goes_out(g.raws, #[trigger] ps[j])
            &&& g.s.inflight_queue == s.resending(now).q
        }),
        ({
            let g = s.gather_lost(raws, now);
            let cs = s.resending_lost(now).chunks;
            &&& !s.tcb.owed.will_retransmit_fast ==> g.s == s && g.raws == raws
            &&& !g.s.tcb.owed.will_retransmit_fast
            &&& s.tcb.owed.will_retransmit_fast ==> {
                &&& extends(raws, g.raws)
                &&& g.s.inflight_queue == s.resending_lost(now).q
                &&& cs.len() == 0 ==> g.raws == raws
                &&& cs.len() > 0 ==> exists|p: PacketView|
                    {
                        &&& is_addressed(s, p)
                        &&& p.chunks == cs.map_values(|c: DataView| ChunkView::PayloadData(c))
                        &&& #[trigger] goes_out(g.raws, p)
                    }
                &&& cs.len() <= u64::MAX ==> g.s.tcb.stats.n_fast_retrans
                    == s.tcb.stats.n_fast_retrans.wrapping_add(cs.len() as u64)
            }
        }),
{
    reveal(AssociationView::gather_retransmissions);
    let ps = s.bundled(s.resending(now).chunks);
    lemma_with_packets(raws, ps, ps.len() as int);
    lemma_lost(s, raws, now);
    reveal(AssociationView::gather_lost);
    if s.tcb.owed.will_retransmit_fast {
        let u = s.with_owed(
            crate::association::view::Owed { will_retransmit_fast: false, ..s.tcb.owed },
        );
        let r = u.resending_lost(now);
        let p = u.packet(crate::association::send::data_chunks(r.chunks));
        lemma_with_packet(raws, p);
        assert(is_addressed(s, p));
        assert(goes_out(s.gather_lost(raws, now).raws, p) || r.chunks.len() == 0);
    }
}

/// While data in flight keeps a shutdown from going on, acknowledgements go out as before, behind
/// the packets that wait, and then the chunk of the shutdown sequence that is owed.
pub proof fn law_closing_sends_what_it_owes(s: AssociationView, now: Instant)
    requires
        s.tcb.state == AssociationState::ShutdownPending || s.tcb.state
            == AssociationState::ShutdownSent || s.tcb.state == AssociationState::ShutdownReceived,
        s.tcb.rto_mgr.rto > 0,
    ensures
        ({
            let (g, stays) = s.gather_outbound(now);
            &&& forall|j: int|
                0 <= j < s.control_queue.len() ==> goes_out(g.raws, #[trigger] s.control_queue[j])
            &&& g.s.control_queue.len() == 0
            &&& g.s.tcb.rx.ack_state != AckState::Immediate
            &&& s.tcb.rx.ack_state == AckState::Immediate ==> exists|p: PacketView| #[trigger]
                carries_ack(s, p) && goes_out(g.raws, p)
            &&& !g.s.tcb.owed.will_retransmit_fast
            &&& !g.s.tcb.owed.will_send_shutdown
            &&& s.tcb.owed.will_send_shutdown ==> exists|p: PacketView|
                {
                    &&& is_addressed(s, p)
                    &&& p.chunks.len() == 1 && p.chunks[0] is Shutdown
                    &&& #[trigger] goes_out(g.raws, p)
                }
            &&& !s.tcb.owed.will_send_shutdown && s.tcb.owed.will_send_shutdown_ack ==> exists|
                p: PacketView,
            |
                {
                    &&& is_addressed(s, p)
                    &&& p.chunks == seq![ChunkView::ShutdownAck]
                    &&& #[trigger] goes_out(g.raws, p)
                }
        }),
{
    reveal(AssociationView::gather_outbound);
    reveal(AssociationView::gather_closing);
    let g0 = s.gather_control();
    lemma_with_packets(seq![], s.control_queue, s.control_queue.len() as int);
    let g1 = g0.s.gather_retransmissions(g0.raws, now);
    lemma_retransmissions(g0.s, g0.raws, now);
    let g2 = g1.s.gather_lost(g1.raws, now);
    lemma_lost(g1.s, g1.raws, now);
    lemma_lost_owed(g1.s, g1.raws, now);
    let g3 = g2.s.gather_sack(g2.raws);
    lemma_sack(g2.s, g2.raws);
    lemma_extends(g0.raws, g1.raws, g2.raws);
    lemma_extends(g0.raws, g2.raws, g3.raws);
    let (g, stays) = s.gather_outbound(now);
    reveal(AssociationView::gather_shutdown);
    lemma_same(g3.raws);
    if let Some(c) = g3.s.shutdown_chunk() {
        let p = g3.s.with_owed(g3.s.shutdown_owed()).packet(seq![c]);
        lemma_with_packet(g3.raws, p);
        assert(is_addressed(s, p));
        assert(p.chunks[0] == c);
        assert(goes_out(g.raws, p));
    }
    lemma_extends(g0.raws, g3.raws, g.raws);
    assert forall|j: int| 0 <= j < s.control_queue.len() implies goes_out(
        g.raws,
        #[trigger] s.control_queue[j],
    ) by {
        lemma_still_goes_out(g0.raws, g.raws, s.control_queue[j]);
    }
    if s.tcb.rx.ack_state == AckState::Immediate {
        let p = choose|p: PacketView| #[trigger] carries_ack(g2.s, p) && goes_out(g3.raws, p);
        lemma_still_goes_out(g3.raws, g.raws, p);
        assert(carries_ack(s, p));
    }
}

proof fn lemma_lost_owed(s: AssociationView, raws: Seq<Seq<u8>>, now: Instant)
    ensures
        ({
            let o = s.gather_lost(raws, now).s.tcb.owed;
            &&& o.will_send_shutdown == s.tcb.owed.will_send_shutdown
            &&& o.will_send_shutdown_ack == s.tcb.owed.will_send_shutdown_ack
            &&& o.will_send_shutdown_complete == s.tcb.owed.will_send_shutdown_complete
        }),
{
    reveal(AssociationView::gather_lost);
}

} // verus!
