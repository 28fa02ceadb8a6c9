//! What the two ends settle when an association is made, and what it leaves behind when it ends.

use vstd::prelude::*;

use crate::association::create::Blueprint;
use crate::association::handshake::{
    acknowledged, agreed, cookie_echoed, established, init_ack_received, init_received, last_cookie,
};
use crate::association::laws_deadlines::{in_millis, law_started_timer_expires_in_time, wait};
use crate::association::laws_reset::is_addressed;
use crate::association::lifecycle::{shutdown_acked, shutdown_begun, shutdown_received};
use crate::association::state::{AckState, AssociationState};
use crate::association::timer::{Timer, TimerSlot};
use crate::association::view::{AssociationView, Event};
use crate::chunk::kinds::{ChunkView, InitView};
use crate::chunk::param::ParamView;
use crate::chunk::payload::Instant;
use crate::packet::CommonHeader;
use crate::shared::EndpointEventInner;

verus! {

/// The lesser of two numbers.
pub open spec fn is_lesser(a: u16, b: u16, r: u16) -> bool {
    r <= a && r <= b && (r == a || r == b)
}

/// A timer that does not run and never expired.
pub open spec fn is_off(t: TimerSlot) -> bool {
    t.deadline is None && t.retrans == 0
}

/// Whether an end says that it knows FORWARD TSN, the chunk type 192.
pub open spec fn knows_forward_tsn(i: InitView) -> bool {
    exists|k: int|
        0 <= k < i.params.len() && (#[trigger] i.params[k] matches ParamView::SupportedExtensions(
            types,
        ) && types.contains(192u8))
}

/// The handshake can go on from this state.
pub open spec fn is_open(s: AssociationView) -> bool {
    s.tcb.state == AssociationState::Closed || s.tcb.state == AssociationState::CookieWait
        || s.tcb.state == AssociationState::CookieEchoed
}

/// What an INIT or an INIT ACK settles.
pub open spec fn settles(s: AssociationView, i: InitView, r: AssociationView) -> bool {
    &&& is_lesser(
        s.tcb.peer.my_max_num_inbound_streams,
        i.num_inbound_streams,
        r.tcb.peer.my_max_num_inbound_streams,
    )
    &&& is_lesser(
        s.tcb.peer.my_max_num_outbound_streams,
        i.num_outbound_streams,
        r.tcb.peer.my_max_num_outbound_streams,
    )
    &&& r.tcb.peer.peer_verification_tag == i.initiate_tag
    &&& r.tcb.rx.peer_last_tsn.wrapping_add(1) == i.initial_tsn
}

/// An INIT is taken before the handshake is done: it settles the peer's tag, the TSN that comes
/// first, the ports, the number of streams and whether FORWARD TSN is used. The answer is an
/// INIT ACK that says the same of this end and carries the cookie.
pub proof fn law_init_is_answered(
    s: AssociationView,
    h: CommonHeader,
    i: InitView,
    fresh: Seq<u8>,
)
    requires
        is_open(s),
    ensures
        ({
            let (r, reply) = s.handle_init(h, i, fresh);
            &&& settles(s, i, r)
            &&& r.tcb.peer.source_port == h.destination_port
            &&& r.tcb.peer.destination_port == h.source_port
            &&& r.tcb.peer.use_forward_tsn == (s.tcb.peer.use_forward_tsn || knows_forward_tsn(i))
            &&& r.my_cookie matches Some(cookie) && {
                &&& cookie == if s.my_cookie is Some {
                    s.my_cookie->0
                } else {
                    fresh
                }
                &&& reply matches Ok(ps) && {
                    &&& ps.len() == 1 && is_addressed(r, ps[0]) && ps[0].chunks.len() == 1
                    &&& ps[0].chunks[0] matches ChunkView::Init(a) && {
                        &&& a.is_ack
                        &&& a.initial_tsn == s.tcb.tx.my_next_tsn
                        &&& a.initiate_tag == s.tcb.conf.my_verification_tag
                        &&& a.num_inbound_streams == r.tcb.peer.my_max_num_inbound_streams
                        &&& a.num_outbound_streams == r.tcb.peer.my_max_num_outbound_streams
                        &&& a.advertised_receiver_window_credit
                            == s.tcb.conf.max_receive_buffer_size
                        &&& knows_forward_tsn(a)
                        &&& a.params.len() == 2 && a.params[0] == ParamView::StateCookie(cookie)
                        &&& a.params[1] == ParamView::SupportedExtensions(seq![130u8, 192u8])
                    }
                }
            }
            &&& r.tcb.state == s.tcb.state
            &&& r.tcb.timers == s.tcb.timers
            &&& r.tcb.tx == s.tcb.tx
            &&& r.tcb.cc == s.tcb.cc
            &&& r.events == s.events
        }),
{
    reveal(AssociationView::handle_init);
    reveal(init_received);
    reveal(agreed);
    let (r, reply) = s.handle_init(h, i, fresh);
    let a = r.init_ack(r.my_cookie->0);
    assert(seq![130u8, 192u8][1] == 192u8);
    assert(a.params[1] matches ParamView::SupportedExtensions(types) && types.contains(192u8));
}

/// The cookie that comes last among the parameters.
pub open spec fn brings(i: InitView, c: Seq<u8>) -> bool {
    exists|k: int|
        {
            &&& 0 <= k < i.params.len()
            &&& #[trigger] i.params[k] == ParamView::StateCookie(c)
            &&& forall|j: int| k < j < i.params.len() ==> !((#[trigger] i.params[j]) is StateCookie)
        }
}

proof fn lemma_last_cookie(i: InitView, n: int)
    requires
        0 <= n <= i.params.len(),
    ensures
        last_cookie(i.params, n) is None ==> forall|j: int|
            0 <= j < n ==> !((#[trigger] i.params[j]) is StateCookie),
        last_cookie(i.params, n) matches Some(c) ==> exists|k: int|
            {
                &&& 0 <= k < n
                &&& #[trigger] i.params[k] == ParamView::StateCookie(c)
                &&& forall|j: int| k < j < n ==> !((#[trigger] i.params[j]) is StateCookie)
            },
    decreases n,
{
    if n > 0 {
        lemma_last_cookie(i, n - 1);
        if let ParamView::StateCookie(c) = i.params[n - 1] {
            assert(i.params[n - 1] == ParamView::StateCookie(c));
        }
    }
}

/// An INIT ACK that is waited for and comes from the right port settles what the peer offers,
/// its window among it, and its cookie goes back. Then the acknowledgement of the cookie is
/// waited for, and the INIT is not sent any more. Without a cookie it is an error.
pub proof fn law_cookie_is_returned(
    s: AssociationView,
    h: CommonHeader,
    i: InitView,
    now: Instant,
)
    requires
        s.tcb.state == AssociationState::CookieWait,
        s.tcb.peer.source_port == h.destination_port,
        s.tcb.peer.destination_port == h.source_port,
        s.tcb.rto_mgr.rto > 0,
    ensures
        ({
            let (r, reply) = s.handle_init_ack(h, i, now);
            &&& settles(s, i, r)
            &&& r.tcb.cc.rwnd == i.advertised_receiver_window_credit
            &&& r.tcb.cc.ssthresh == i.advertised_receiver_window_credit
            &&& r.tcb.cc.cwnd == s.tcb.cc.cwnd
            &&& r.tcb.peer.use_forward_tsn == (s.tcb.peer.use_forward_tsn || knows_forward_tsn(i))
            &&& is_off(r.tcb.timers.t1_init)
            &&& r.stored_init is None
            &&& (exists|c: Seq<u8>| #[trigger] brings(i, c)) ==> {
                &&& reply matches Ok(ps) && ps.len() == 0
                &&& r.tcb.state == AssociationState::CookieEchoed
                &&& r.stored_cookie_echo matches Some(c) && {
                    &&& brings(i, c)
                    &&& r.control_queue.len() == s.control_queue.len() + 1
                    &&& r.control_queue.last().chunks == seq![ChunkView::CookieEcho(c)]
                    &&& is_addressed(r, r.control_queue.last())
                }
                &&& r.tcb.timers.t1_cookie.deadline matches Some(d) && d == in_millis(
                    now,
                    wait(s.tcb.rto_mgr.rto, s.tcb.timers.t1_cookie.retrans as nat),
                )
            }
            &&& !(exists|c: Seq<u8>| #[trigger] brings(i, c)) ==> {
                &&& reply is Err
                &&& r.tcb.state == AssociationState::CookieWait
                &&& r.control_queue == s.control_queue
            }
        }),
{
    reveal(AssociationView::handle_init_ack);
    reveal(AssociationView::accept_init_ack);
    reveal(AssociationView::send_cookie_echo);
    reveal(agreed);
    reveal(init_ack_received);
    reveal(cookie_echoed);
    lemma_last_cookie(i, i.params.len() as int);
    let u = s.with(agreed(s.tcb, i));
    let t = init_ack_received(u.tcb, i);
    law_started_timer_expires_in_time(t.timers, Timer::T1Cookie, now, s.tcb.rto_mgr.rto);
    let (r, reply) = s.handle_init_ack(h, i, now);
    match last_cookie(i.params, i.params.len() as int) {
        Some(c) => {
            assert(brings(i, c));
        },
        None => {
            assert forall|c: Seq<u8>| !#[trigger] brings(i, c) by {}
        },
    }
    assert(r.tcb.timers.t1_init == t.timers.t1_init) by {
        let a = t.timers.started(Timer::T1Cookie, now, s.tcb.rto_mgr.rto);
        assert(a.slot(Timer::T1Init) == t.timers.slot(Timer::T1Init));
    }
}

/// An INIT ACK from another port settles what any INIT ACK does, and the cookie does not go back.
pub proof fn law_init_ack_from_elsewhere(
    s: AssociationView,
    h: CommonHeader,
    i: InitView,
    now: Instant,
)
    requires
        s.tcb.state == AssociationState::CookieWait,
        s.tcb.peer.source_port != h.destination_port || s.tcb.peer.destination_port
            != h.source_port,
    ensures
        ({
            let (r, reply) = s.handle_init_ack(h, i, now);
            &&& settles(s, i, r)
            &&& reply matches Ok(ps) && ps.len() == 0
            &&& r.control_queue == s.control_queue
            &&& r.stored_init == s.stored_init
            &&& r.tcb.state == s.tcb.state
            &&& r.tcb.timers == s.tcb.timers
            &&& r.tcb.cc == s.tcb.cc
        }),
{
    reveal(AssociationView::handle_init_ack);
    reveal(agreed);
}

/// The handshake is done.
pub open spec fn is_done(s: AssociationView, r: AssociationView) -> bool {
    &&& r.tcb.state == AssociationState::Established
    &&& r.tcb.handshake_completed
    &&& is_off(r.tcb.timers.t1_cookie)
    &&& r.stored_cookie_echo is None
    &&& r.events == s.events.push(Event::Connected)
    &&& r.tcb.tx == s.tcb.tx
    &&& r.tcb.rx == s.tcb.rx
    &&& r.tcb.cc == s.tcb.cc
    &&& r.tcb.peer == s.tcb.peer
    &&& r.streams == s.streams
}

/// The right cookie ends the handshake and is acknowledged; the application hears that the
/// association is connected. In the established state it is acknowledged again and changes
/// nothing, and in all others nothing happens.
pub proof fn law_right_cookie_connects(s: AssociationView, cookie: Seq<u8>)
    requires
        s.my_cookie == Some(cookie),
    ensures
        ({
            let (r, reply) = s.handle_cookie_echo(cookie);
            &&& is_open(s) ==> {
                &&& is_done(s, r)
                &&& is_off(r.tcb.timers.t1_init)
                &&& r.stored_init is None
            }
            &&& !is_open(s) ==> r == s
            &&& is_open(s) || s.tcb.state == AssociationState::Established ==> (reply matches Ok(
                ps,
            ) && ps.len() == 1 && ps[0].chunks == seq![ChunkView::CookieAck] && is_addressed(
                s,
                ps[0],
            ))
            &&& !is_open(s) && s.tcb.state != AssociationState::Established ==> (reply matches Ok(
                ps,
            ) && ps.len() == 0)
        }),
{
    reveal(AssociationView::handle_cookie_echo);
    reveal(AssociationView::connect);
    reveal(established);
}

/// The acknowledgement of the cookie ends the handshake on the other side, and only there.
pub proof fn law_cookie_ack_connects(s: AssociationView)
    ensures
        s.tcb.state == AssociationState::CookieEchoed ==> is_done(s, s.handle_cookie_ack()),
        s.tcb.state != AssociationState::CookieEchoed ==> s.handle_cookie_ack() == s,
{
    reveal(AssociationView::handle_cookie_ack);
    reveal(acknowledged);
}

/// A new association starts at its first TSN: nothing below it is to be acknowledged, requests
/// are numbered from it, and the MTU leaves room for the payload. A client's INIT tells the peer
/// what this end offers and is repeated after three seconds.
pub proof fn law_new_association_starts_at_its_first_tsn(b: Blueprint, random: u32, now: Instant)
    requires
        b.is_valid(),
    ensures
        ({
            let r = b.build(random, now);
            let tsn = r.tcb.tx.my_next_tsn;
            let mtu = b.max_payload_size + 28;
            &&& tsn == if random == 0 {
                1u32
            } else {
                random
            }
            &&& r.tcb.tx.cumulative_tsn_ack_point.wrapping_add(1) == tsn
            &&& r.tcb.tx.advanced_peer_tsn_ack_point.wrapping_add(1) == tsn
            &&& r.tcb.tx.my_next_rsn == tsn
            &&& r.tcb.tx.min_tsn2measure_rtt == tsn
            &&& r.tcb.conf.mtu == mtu
            &&& r.tcb.conf.max_payload_size == b.max_payload_size
            &&& r.tcb.conf.my_verification_tag == b.local_aid
            &&& r.tcb.conf.max_receive_buffer_size == b.config.max_receive_buffer_size
            &&& r.tcb.conf.max_message_size == b.config.max_message_size
            &&& r.tcb.cc.cwnd == if 4 * mtu <= 4380 {
                4 * mtu
            } else if 2 * mtu >= 4380 {
                2 * mtu
            } else {
                4380
            }
            &&& !r.tcb.cc.in_fast_recovery
            &&& r.tcb.rto_mgr.rto == 3000 && r.tcb.rto_mgr.srtt == 0
            &&& r.tcb.rx.ack_state == AckState::Idle
            &&& !r.tcb.handshake_completed && !r.tcb.is_over
            &&& r.streams.dom().is_empty() && r.reconfigs.dom().is_empty()
                && r.reconfig_requests.dom().is_empty()
            &&& r.events.len() == 0 && r.error is None
            &&& b.side is Client ==> {
                &&& r.tcb.state == AssociationState::CookieWait
                &&& r.stored_init matches Some(i) && {
                    &&& r.control_queue.len() == 1
                    &&& r.control_queue[0].chunks == seq![ChunkView::Init(i)]
                    &&& r.control_queue[0].common_header.verification_tag == 0
                    &&& r.control_queue[0].common_header.source_port == 5000
                    &&& r.control_queue[0].common_header.destination_port == 5000
                    &&& !i.is_ack
                    &&& i.initial_tsn == tsn
                    &&& i.initiate_tag == b.local_aid
                    &&& i.num_outbound_streams == b.config.max_num_outbound_streams
                    &&& i.num_inbound_streams == b.config.max_num_inbound_streams
                    &&& i.advertised_receiver_window_credit == b.config.max_receive_buffer_size
                    &&& knows_forward_tsn(i)
                }
                &&& r.tcb.timers.t1_init.deadline matches Some(d) && d == in_millis(now, 3000)
            }
            &&& b.side is Server ==> {
                &&& r.tcb.state == AssociationState::Closed
                &&& r.control_queue.len() == 0
                &&& is_off(r.tcb.timers.t1_init)
                &&& r.stored_init is None
            }
        }),
{
    reveal(Blueprint::build);
    reveal(AssociationView::send_init);
    let r = b.build(random, now);
    let tsn = r.tcb.tx.my_next_tsn;
    law_started_timer_expires_in_time(
        crate::association::timer::TimerTable::idle(),
        Timer::T1Init,
        now,
        3000,
    );
    assert(wait(3000, 0) == 3000);
    assert(seq![130u8, 192u8][1] == 192u8);
    let i = b.init(tsn);
    assert(i.params[0] matches ParamView::SupportedExtensions(types) && types.contains(192u8));
}

/// A shutdown is sent at once if nothing is in flight, and waits otherwise. The endpoint hears of
/// it.
pub proof fn law_shutdown_begins(s: AssociationView)
    ensures
        ({
            let r = s.shutdown();
            let busy = exists|t: u32| s.inflight_queue.chunks.contains_key(t);
            &&& !busy ==> r.tcb.state == AssociationState::ShutdownSent
                && r.tcb.owed.will_send_shutdown
            &&& busy ==> r.tcb.state == AssociationState::ShutdownPending && r.tcb.owed
                == s.tcb.owed
            &&& r.endpoint_events == s.endpoint_events.push(EndpointEventInner::Drained)
            &&& r.streams == s.streams && r.inflight_queue == s.inflight_queue && r.pending_queue
                == s.pending_queue && r.tcb.timers == s.tcb.timers
        }),
{
    reveal(AssociationView::shutdown);
    reveal(shutdown_begun);
    lemma_busy(s);
}

proof fn lemma_busy(s: AssociationView)
    ensures
        s.idle() <==> !exists|t: u32| s.inflight_queue.chunks.contains_key(t),
{
    let dom = s.inflight_queue.chunks.dom();
    if exists|t: u32| s.inflight_queue.chunks.contains_key(t) {
        let t = choose|t: u32| s.inflight_queue.chunks.contains_key(t);
        assert(dom.contains(t));
    } else {
        assert forall|t: u32| !dom.contains(t) by {
            assert(!s.inflight_queue.chunks.contains_key(t));
        }
        assert(dom =~= Set::empty());
    }
}

/// The peer's SHUTDOWN is acknowledged once nothing is in flight. One that crosses a SHUTDOWN of
/// this end is acknowledged at once. In other states it is ignored.
pub proof fn law_peer_shuts_down(
    s: AssociationView,
    h: CommonHeader,
    cum: u32,
    now: Instant,
    fresh: Seq<u8>,
)
    ensures
        ({
            let (r, reply) = s.dispatch(h, ChunkView::Shutdown(cum), now, fresh);
            let busy = exists|t: u32| s.inflight_queue.chunks.contains_key(t);
            let up = s.tcb.state == AssociationState::Established;
            let sent = s.tcb.state == AssociationState::ShutdownSent;
            &&& reply matches Ok(ps) && ps.len() == 0
            &&& up && busy ==> r.tcb.state == AssociationState::ShutdownReceived && r.tcb.owed
                == s.tcb.owed
            &&& up && !busy || sent ==> r.tcb.state == AssociationState::ShutdownAckSent
                && r.tcb.owed.will_send_shutdown_ack
            &&& !up && !sent ==> r == s
            &&& r.tcb.owed.will_send_shutdown == s.tcb.owed.will_send_shutdown
        }),
{
    reveal(AssociationView::dispatch);
    reveal(shutdown_received);
    lemma_busy(s);
}

/// The acknowledgement of a shutdown is completed: the shutdown timer stops. It is ignored by an
/// end that does not wait for it.
pub proof fn law_acknowledged_shutdown_is_completed(
    s: AssociationView,
    h: CommonHeader,
    now: Instant,
    fresh: Seq<u8>,
)
    ensures
        ({
            let (r, reply) = s.dispatch(h, ChunkView::ShutdownAck, now, fresh);
            let waits = s.tcb.state == AssociationState::ShutdownSent || s.tcb.state
                == AssociationState::ShutdownAckSent;
            &&& reply matches Ok(ps) && ps.len() == 0
            &&& waits ==> {
                &&& is_off(r.tcb.timers.t2_shutdown)
                &&& r.tcb.owed.will_send_shutdown_complete
                &&& r.tcb.state == s.tcb.state
            }
            &&& !waits ==> r == s
        }),
        ({
            let (r, reply) = s.dispatch(h, ChunkView::ShutdownComplete, now, fresh);
            &&& reply matches Ok(ps) && ps.len() == 0
            &&& s.tcb.state == AssociationState::ShutdownAckSent ==> {
                &&& r.tcb.state == AssociationState::Closed
                &&& r.tcb.is_over
                &&& is_off(r.tcb.timers.t2_shutdown) && is_off(r.tcb.timers.t3_rtx) && is_off(
                    r.tcb.timers.ack,
                ) && is_off(r.tcb.timers.reconfig)
                &&& r.streams.dom().is_empty()
                &&& r.error is Some
            }
            &&& s.tcb.state != AssociationState::ShutdownAckSent ==> r == s
        }),
{
    reveal(AssociationView::dispatch);
    reveal(shutdown_acked);
    reveal(AssociationView::handle_shutdown_complete);
    reveal(AssociationView::close_for);
}

/// A heartbeat changes nothing and is answered with its information.
pub proof fn law_heartbeat_is_answered(
    s: AssociationView,
    h: CommonHeader,
    ps: Seq<ParamView>,
    now: Instant,
    fresh: Seq<u8>,
)
    ensures
        ({
            let (r, reply) = s.dispatch(h, ChunkView::Heartbeat(ps), now, fresh);
            &&& r == s
            &&& ps.len() > 0 && ps[0] is HeartbeatInfo ==> (reply matches Ok(out) && {
                &&& out.len() == 1 && is_addressed(s, out[0])
                &&& out[0].chunks == seq![ChunkView::HeartbeatAck(seq![ps[0]])]
            })
            &&& !(ps.len() > 0 && ps[0] is HeartbeatInfo) ==> (reply matches Ok(out) && out.len()
                == 0)
        }),
{
    reveal(AssociationView::dispatch);
    reveal(AssociationView::heartbeat_reply);
}

/// The application hears each event once and in order, and at last why the association was lost.
pub proof fn law_events_are_heard_in_order(s: AssociationView)
    ensures
        s.events.len() > 0 ==> {
            &&& s.next_event() == Some(s.events[0])
            &&& s.polled().events == s.events.skip(1)
            &&& s.polled().error == s.error
        },
        s.events.len() == 0 ==> {
            &&& s.error matches Some(reason) ==> s.next_event() == Some(
                Event::AssociationLost { reason },
            )
            &&& s.error is None ==> s.next_event() is None
            &&& s.polled().error is None && s.polled().events.len() == 0
        },
{
}

} // verus!
