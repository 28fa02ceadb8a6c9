//! What holds of the points in time at which timers expire.

use vstd::arithmetic::power2::{lemma_pow2_unfold, pow2};
use vstd::prelude::*;

use crate::association::inbound::ack_scheduled;
use crate::association::laws_reset::is_addressed;
use crate::association::state::{AckState, AssociationState};
use crate::association::timeout::{ack_timed_out, data_timed_out, expired, shutdown_timed_out};
use crate::association::timer::{backoff, Timer, TimerSlot, TimerTable};
use crate::association::view::{AssociationError, AssociationView, Tcb};
use crate::chunk::kinds::ChunkView;
use crate::chunk::payload::Instant;
use crate::error::Error;

verus! {

/// How long a timer waits that expired `n` times, in milliseconds: twice as long each time, but
/// never more than a minute.
pub open spec fn wait(rto: u64, n: nat) -> nat
    decreases n,
{
    let longer = if n == 0 {
        rto as nat
    } else {
        2 * wait(rto, (n - 1) as nat)
    };
    if longer > 60_000 {
        60_000
    } else {
        longer
    }
}

/// A point in time this many milliseconds later, in nanoseconds, or the last one there is.
pub open spec fn in_millis(now: Instant, millis: nat) -> int {
    if now + 1_000_000 * millis > 0xffff_ffff_ffff_ffff {
        0xffff_ffff_ffff_ffff
    } else {
        now + 1_000_000 * millis
    }
}

proof fn lemma_wait(rto: u64, n: nat)
    requires
        rto > 0,
    ensures
        rto * pow2(n) <= 60_000 ==> wait(rto, n) == rto * pow2(n),
        rto * pow2(n) > 60_000 ==> wait(rto, n) == 60_000,
    decreases n,
{
    if n == 0 {
        vstd::arithmetic::power2::lemma2_to64();
    } else {
        let m = (n - 1) as nat;
        lemma_wait(rto, m);
        lemma_pow2_unfold(n);
        let (a, b) = (pow2(n), pow2(m));
        assert(rto * a == 2 * (rto * b)) by (nonlinear_arith)
            requires
                a == 2 * b,
        ;
    }
}

proof fn lemma_long(rto: u64, n: nat)
    requires
        rto > 0,
        n >= 16,
    ensures
        rto * pow2(n) > 60_000,
    decreases n,
{
    if n == 16 {
        vstd::arithmetic::power2::lemma2_to64();
        assert(rto * pow2(16) >= pow2(16)) by (nonlinear_arith)
            requires
                rto >= 1,
                pow2(16) >= 0,
        ;
    } else {
        let m = (n - 1) as nat;
        lemma_long(rto, m);
        lemma_pow2_unfold(n);
        let (a, b) = (pow2(n), pow2(m));
        assert(rto * a == 2 * (rto * b)) by (nonlinear_arith)
            requires
                a == 2 * b,
        ;
    }
}

/// A timeout doubles with each expiry, up to a minute.
pub proof fn law_timeouts_double(rto: u64, n: usize)
    requires
        rto > 0,
    ensures
        backoff(rto, n) == wait(rto, n as nat),
{
    reveal(backoff);
    lemma_wait(rto, n as nat);
    if n >= 31 {
        lemma_long(rto, n as nat);
    }
}

/// A timer that is started expires after the time that it waits; the acknowledgement timer after
/// the time that is given. How often it expired stays, and so do all other timers.
pub proof fn law_started_timer_expires_in_time(
    t: TimerTable,
    timer: Timer,
    now: Instant,
    interval: u64,
)
    requires
        interval > 0,
    ensures
        ({
            let r = t.started(timer, now, interval);
            let n = t.slot(timer).retrans;
            &&& r.slot(timer).deadline matches Some(d) && d == in_millis(
                now,
                if timer is Ack {
                    interval as nat
                } else {
                    wait(interval, n as nat)
                },
            )
            &&& r.slot(timer).retrans == n
            &&& forall|o: Timer| o != timer ==> (#[trigger] r.slot(o)) == t.slot(o)
        }),
{
    reveal(TimerTable::started);
    law_timeouts_double(interval, t.slot(timer).retrans);
}

/// Stopping a timer forgets how often it expired and leaves all others alone.
pub proof fn law_stopped_timer_is_reset(t: TimerTable, timer: Timer)
    ensures
        ({
            let r = t.stopped(timer);
            &&& r.slot(timer) == (TimerSlot { deadline: None, retrans: 0 })
            &&& forall|o: Timer| o != timer ==> (#[trigger] r.slot(o)) == t.slot(o)
        }),
{
}

/// The time that is named for the next expiry is that of a timer, and none expires before it.
pub proof fn law_first_deadline_is_the_first(t: TimerTable)
    ensures
        t.first_deadline() is None <==> forall|o: Timer| (#[trigger] t.slot(o)).deadline is None,
        t.first_deadline() matches Some(d) ==> {
            &&& exists|o: Timer| (#[trigger] t.slot(o)).deadline == Some(d)
            &&& forall|o: Timer| (#[trigger] t.slot(o)).deadline matches Some(e) ==> d <= e
        },
{
    assert(t.slot(Timer::T1Init) == t.t1_init);
    assert(t.slot(Timer::T1Cookie) == t.t1_cookie);
    assert(t.slot(Timer::T2Shutdown) == t.t2_shutdown);
    assert(t.slot(Timer::T3RTX) == t.t3_rtx);
    assert(t.slot(Timer::Reconfig) == t.reconfig);
    assert(t.slot(Timer::Ack) == t.ack);
}

/// How often a timer is started again after it expired.
pub open spec fn tries(timer: Timer) -> nat {
    match timer {
        Timer::T1Init => 8,
        Timer::T1Cookie => 8,
        Timer::Reconfig => 5,
        _ => 0x1_0000_0000_0000_0000,
    }
}

proof fn lemma_timeout_keeps(s: AssociationView, timer: Timer)
    ensures
        s.on_retransmission_timeout(timer).tcb.timers == s.tcb.timers,
        s.on_retransmission_timeout(timer).tcb.rto_mgr == s.tcb.rto_mgr,
{
    reveal(AssociationView::on_retransmission_timeout);
    reveal(AssociationView::send_init);
    reveal(AssociationView::send_cookie_echo);
    reveal(shutdown_timed_out);
    reveal(AssociationView::on_data_timeout);
    reveal(data_timed_out);
    reveal(AssociationView::skip_abandoned_if_known);
    reveal(crate::association::sack::skipped_to);
}

/// A timer that expired is counted and started again with a longer wait, until it was started
/// again as often as it may be.
pub proof fn law_expired_timer_runs_on(s: AssociationView, timer: Timer, now: Instant)
    requires
        s.tcb.timers.slot(timer).deadline matches Some(d) && d <= now,
        !(timer is Ack),
        s.tcb.rto_mgr.rto > 0,
        s.tcb.timers.slot(timer).retrans < tries(timer),
        s.tcb.timers.slot(timer).retrans < usize::MAX,
    ensures
        ({
            let r = s.serve(timer, now);
            let n = s.tcb.timers.slot(timer).retrans;
            &&& r.tcb.timers.slot(timer).retrans == n + 1
            &&& r.tcb.timers.slot(timer).deadline matches Some(d) && d == in_millis(
                now,
                wait(s.tcb.rto_mgr.rto, n as nat + 1),
            )
            &&& forall|o: Timer| o != timer ==> (#[trigger] r.tcb.timers.slot(o))
                == s.tcb.timers.slot(o)
        }),
{
    reveal(AssociationView::serve);
    reveal(AssociationView::on_expiry);
    let counted = s.tcb.timers.counted(timer);
    let u = s.with_timers(expired(counted, timer));
    lemma_timeout_keeps(u, timer);
    law_started_timer_expires_in_time(u.tcb.timers, timer, now, s.tcb.rto_mgr.rto);
    assert(!counted.is_exhausted(timer));
    let r = s.serve(timer, now);
    assert(r.tcb.timers == u.tcb.timers.started(timer, now, s.tcb.rto_mgr.rto));
    assert forall|o: Timer| o != timer implies (#[trigger] r.tcb.timers.slot(o))
        == s.tcb.timers.slot(o) by {
        assert(r.tcb.timers.slot(o) == u.tcb.timers.slot(o));
    }
}

/// A timer is served when its time has come, not before, and what it stands for is done: the
/// INIT or the COOKIE ECHO is sent again, the chunk of the shutdown sequence or the requests to
/// reset streams are owed again.
pub proof fn law_expired_timer_does_its_work(s: AssociationView, timer: Timer, now: Instant)
    requires
        s.tcb.timers.slot(timer).deadline matches Some(d) && d <= now,
        s.tcb.timers.slot(timer).retrans < tries(timer),
        s.tcb.timers.slot(timer).retrans < usize::MAX,
    ensures
        ({
            let r = s.serve(timer, now);
            &&& timer is T1Init ==> (s.stored_init matches Some(i) ==> {
                &&& r.control_queue.len() == s.control_queue.len() + 1
                &&& r.control_queue.drop_last() == s.control_queue
                &&& r.control_queue.last().chunks == seq![ChunkView::Init(i)]
                &&& r.control_queue.last().common_header.source_port == 5000
                &&& r.control_queue.last().common_header.destination_port == 5000
                &&& r.control_queue.last().common_header.verification_tag
                    == s.tcb.peer.peer_verification_tag
            })
            &&& timer is T1Cookie ==> (s.stored_cookie_echo matches Some(c) ==> {
                &&& r.control_queue.len() == s.control_queue.len() + 1
                &&& r.control_queue.drop_last() == s.control_queue
                &&& r.control_queue.last().chunks == seq![ChunkView::CookieEcho(c)]
                &&& is_addressed(s, r.control_queue.last())
            })
            &&& timer is T2Shutdown ==> {
                &&& r.tcb.owed.will_send_shutdown == (s.tcb.owed.will_send_shutdown || s.tcb.state
                    == AssociationState::ShutdownSent)
                &&& r.tcb.owed.will_send_shutdown_ack == (s.tcb.owed.will_send_shutdown_ack
                    || s.tcb.state == AssociationState::ShutdownAckSent)
                &&& r.tcb.owed.will_send_shutdown_complete
                    == s.tcb.owed.will_send_shutdown_complete
            }
            &&& timer is Reconfig ==> r.tcb.owed.will_retransmit_reconfig && r.reconfigs
                == s.reconfigs
            &&& timer is Ack ==> r.tcb.rx.ack_state == AckState::Immediate
                && r.tcb.stats.n_ack_timeouts == s.tcb.stats.n_ack_timeouts.wrapping_add(1)
            &&& timer is T3RTX ==> r.tcb.stats.n_t3timeouts == s.tcb.stats.n_t3timeouts.wrapping_add(
                1,
            )
            &&& r.tcb.state == s.tcb.state
            &&& r.error == s.error
            &&& r.streams == s.streams
            &&& r.pending_queue == s.pending_queue
        }),
{
    reveal(AssociationView::serve);
    reveal(AssociationView::on_expiry);
    reveal(AssociationView::on_retransmission_timeout);
    reveal(AssociationView::send_init);
    reveal(AssociationView::send_cookie_echo);
    reveal(shutdown_timed_out);
    reveal(ack_timed_out);
    reveal(AssociationView::on_data_timeout);
    reveal(data_timed_out);
    reveal(AssociationView::skip_abandoned_if_known);
    reveal(crate::association::sack::skipped_to);
    let counted = s.tcb.timers.counted(timer);
    assert(!counted.is_exhausted(timer));
    let r = s.serve(timer, now);
    if timer is T1Init && s.stored_init is Some {
        assert(r.control_queue.drop_last() =~= s.control_queue);
    }
    if timer is T1Cookie && s.stored_cookie_echo is Some {
        assert(r.control_queue.drop_last() =~= s.control_queue);
    }
}

/// Requests to reset streams that were sent again as often as they may be are not sent again
/// any more, and the timer stops. That is no reason to close the association.
pub proof fn law_reset_requests_give_up(s: AssociationView, now: Instant)
    requires
        s.tcb.timers.reconfig.deadline matches Some(d) && d <= now,
        s.tcb.timers.reconfig.retrans >= 5,
    ensures
        ({
            let r = s.serve(Timer::Reconfig, now);
            &&& r.tcb.timers.reconfig.deadline is None
            &&& r.tcb.owed == s.tcb.owed
            &&& r.tcb.state == s.tcb.state
            &&& r.error == s.error
        }),
{
    reveal(AssociationView::serve);
    reveal(AssociationView::on_expiry);
    reveal(AssociationView::on_retransmission_failure);
}

/// The handshake is given up when its chunk was sent again eight times without an answer: the
/// association is closed and lost for that reason.
pub proof fn law_handshake_is_tried_eight_times(s: AssociationView, timer: Timer, now: Instant)
    requires
        timer is T1Init || timer is T1Cookie,
        s.tcb.timers.slot(timer).deadline matches Some(d) && d <= now,
        s.tcb.timers.slot(timer).retrans >= 8,
    ensures
        ({
            let r = s.serve(timer, now);
            &&& r.tcb.state == AssociationState::Closed
            &&& r.tcb.timers.slot(timer).deadline is None
            &&& r.control_queue == s.control_queue
            &&& r.error == Some(
                AssociationError::HandshakeFailed(
                    if timer is T1Init {
                        Error::ErrHandshakeInitAck
                    } else {
                        Error::ErrHandshakeCookieEcho
                    },
                ),
            )
        }),
{
    reveal(AssociationView::serve);
    reveal(AssociationView::on_expiry);
    reveal(AssociationView::on_retransmission_failure);
    reveal(AssociationView::close_for);
}

/// An acknowledgement that is delayed waits 200 milliseconds. One that is not is owed at once,
/// and its timer does not run.
pub proof fn law_ack_waits_no_longer(t: Tcb, now: Instant)
    ensures
        ({
            let r = ack_scheduled(t, now);
            &&& t.rx.immediate_ack_triggered ==> r.rx.ack_state == AckState::Immediate
                && r.timers.ack == (TimerSlot { deadline: None, retrans: 0 })
            &&& !t.rx.immediate_ack_triggered && t.rx.delayed_ack_triggered ==> r.rx.ack_state
                == AckState::Delay && (r.timers.ack.deadline matches Some(d) && d == in_millis(
                now,
                200,
            ))
            &&& !t.rx.immediate_ack_triggered && !t.rx.delayed_ack_triggered ==> r == t
            &&& r.timers.t3_rtx == t.timers.t3_rtx && r.timers.t1_init == t.timers.t1_init
                && r.timers.t1_cookie == t.timers.t1_cookie && r.timers.t2_shutdown
                == t.timers.t2_shutdown && r.timers.reconfig == t.timers.reconfig
        }),
{
    reveal(ack_scheduled);
    reveal(TimerTable::started);
}

} // verus!
