//! What holds of timers.

use vstd::arithmetic::power2::{lemma_pow2_pos, pow2};
use vstd::prelude::*;

use crate::association::sack::skipped_to;
use crate::association::state::{AckState, AssociationState};
use crate::association::timeout::{ack_timed_out, data_timed_out, expired, shutdown_timed_out};
use crate::association::timer::{all_timers, backoff, Timer, TimerTable, MAX_INIT_RETRANS, RTO_MAX};
use crate::association::view::{AssociationError, AssociationView};
use crate::chunk::payload::Instant;
use crate::error::Error;
use crate::queue::payload_queue::PayloadQueueView;

verus! {

proof fn lemma_serve_nothing(s: AssociationView, now: Instant, n: int)
    requires
        forall|timer: Timer| !(#[trigger] s.tcb.timers.slot(timer)).is_expired(now),
    ensures
        s.serve_all(now, n) == s,
    decreases n,
{
    if n > 0 {
        lemma_serve_nothing(s, now, n - 1);
        reveal(AssociationView::serve);
        assert(!s.tcb.timers.slot(all_timers()[n - 1]).is_expired(now));
    }
}

/// Serving the timers before the time that is named for it does nothing, and neither does it
/// if no time is named.
pub proof fn law_early_timeout_does_nothing(s: AssociationView, now: Instant)
    requires
        s.tcb.timers.first_deadline() matches Some(d) ==> now < d,
    ensures
        s.handle_timeout(now) == s,
{
    let t = s.tcb.timers;
    assert forall|timer: Timer| !(#[trigger] t.slot(timer)).is_expired(now) by {
        match timer {
            Timer::T1Init => {},
            Timer::T1Cookie => {},
            Timer::T2Shutdown => {},
            Timer::T3RTX => {},
            Timer::Reconfig => {},
            Timer::Ack => {},
        }
    }
    lemma_serve_nothing(s, now, 6);
}

proof fn lemma_backoff_positive(rto: u64, n: usize)
    requires
        rto > 0,
    ensures
        0 < backoff(rto, n) <= RTO_MAX,
{
    reveal(backoff);
    lemma_pow2_pos(n as nat);
    let p = pow2(n as nat);
    assert(rto * p > 0) by (nonlinear_arith)
        requires
            rto > 0,
            p > 0,
    ;
}

/// The slots of all timers but one are the same.
pub open spec fn same_but(a: TimerTable, b: TimerTable, timer: Timer) -> bool {
    forall|o: Timer| o != timer ==> (#[trigger] a.slot(o)) == b.slot(o)
}

proof fn lemma_on_timeout(s: AssociationView, timer: Timer)
    ensures
        s.on_retransmission_timeout(timer).tcb.timers == s.tcb.timers,
        s.on_retransmission_timeout(timer).tcb.rto_mgr == s.tcb.rto_mgr,
        s.on_retransmission_failure(timer).tcb.timers == s.tcb.timers
            || s.on_retransmission_failure(timer).tcb.timers == TimerTable::idle(),
        s.on_retransmission_failure(timer).tcb.rto_mgr == s.tcb.rto_mgr,
{
    reveal(AssociationView::on_retransmission_timeout);
    reveal(AssociationView::on_retransmission_failure);
    reveal(AssociationView::close_for);
    reveal(AssociationView::send_init);
    reveal(AssociationView::send_cookie_echo);
    reveal(shutdown_timed_out);
    reveal(AssociationView::on_data_timeout);
    reveal(data_timed_out);
    lemma_skips_only(s.with(data_timed_out(s.tcb)));
}

proof fn lemma_served(s: AssociationView, timer: Timer, now: Instant)
    requires
        s.tcb.rto_mgr.rto > 0,
        now + RTO_MAX * 1_000_000 <= u64::MAX,
    ensures
        ({
            let r = s.serve(timer, now);
            &&& !r.tcb.timers.slot(timer).is_expired(now)
            &&& same_but(r.tcb.timers, s.tcb.timers, timer) || r.tcb.timers == TimerTable::idle()
            &&& r.tcb.rto_mgr == s.tcb.rto_mgr
        }),
{
    reveal(AssociationView::serve);
    reveal(AssociationView::on_expiry);
    reveal(ack_timed_out);
    reveal(TimerTable::started);
    if s.tcb.timers.slot(timer).is_expired(now) {
        let s1 = s.with_timers(expired(s.tcb.timers.counted(timer), timer));
        lemma_on_timeout(s1, timer);
        lemma_backoff_positive(s.tcb.rto_mgr.rto, s1.tcb.timers.slot(timer).retrans);
        assert(same_but(s1.tcb.timers, s.tcb.timers, timer));
    }
}

proof fn lemma_served_all(s: AssociationView, now: Instant, n: int)
    requires
        s.tcb.rto_mgr.rto > 0,
        now + RTO_MAX * 1_000_000 <= u64::MAX,
        0 <= n <= 6,
    ensures
        s.serve_all(now, n).tcb.rto_mgr == s.tcb.rto_mgr,
        forall|k: int|
            0 <= k < n ==> !s.serve_all(now, n).tcb.timers.slot(
                #[trigger] all_timers()[k],
            ).is_expired(now),
    decreases n,
{
    if n > 0 {
        lemma_served_all(s, now, n - 1);
        let r = s.serve_all(now, n - 1);
        let timer = all_timers()[n - 1];
        lemma_served(r, timer, now);
        assert forall|k: int| 0 <= k < n implies !s.serve_all(now, n).tcb.timers.slot(
            #[trigger] all_timers()[k],
        ).is_expired(now) by {
            if k < n - 1 {
                assert(all_timers()[k] != timer);
            }
        }
    }
}

/// Serving the timers a second time at the same time does nothing.
pub proof fn law_second_timeout_does_nothing(s: AssociationView, now: Instant)
    requires
        s.tcb.rto_mgr.rto > 0,
        now + RTO_MAX * 1_000_000 <= u64::MAX,
    ensures
        s.handle_timeout(now).handle_timeout(now) == s.handle_timeout(now),
{
    lemma_served_all(s, now, 6);
    let r = s.handle_timeout(now);
    let all = all_timers();
    assert forall|timer: Timer| !(#[trigger] r.tcb.timers.slot(timer)).is_expired(now) by {
        match timer {
            Timer::T1Init => {
                assert(timer == all[0]);
            },
            Timer::T1Cookie => {
                assert(timer == all[1]);
            },
            Timer::T2Shutdown => {
                assert(timer == all[2]);
            },
            Timer::T3RTX => {
                assert(timer == all[3]);
            },
            Timer::Reconfig => {
                assert(timer == all[4]);
            },
            Timer::Ack => {
                assert(timer == all[5]);
            },
        }
    }
    lemma_serve_nothing(r, now, 6);
}

/// The handshake is tried again a limited number of times. The expiry after the last one closes
/// the association and is reported as the reason why it is lost; no timer runs any longer.
pub proof fn law_handshake_gives_up(s: AssociationView, now: Instant)
    requires
        s.tcb.timers.t1_init.is_expired(now),
        s.tcb.timers.t1_init.retrans == MAX_INIT_RETRANS,
    ensures
        ({
            let r = s.serve(Timer::T1Init, now);
            &&& r.error == Some(AssociationError::HandshakeFailed(Error::ErrHandshakeInitAck))
            &&& r.tcb.state == AssociationState::Closed
            &&& r.tcb.timers.t1_init.deadline is None
            &&& s.tcb.state != AssociationState::Closed ==> r.tcb.is_over
                && r.tcb.timers.first_deadline() is None
            &&& r.control_queue == s.control_queue
        }),
{
    reveal(AssociationView::serve);
    reveal(AssociationView::on_expiry);
    reveal(AssociationView::on_retransmission_failure);
    reveal(AssociationView::close_for);
}

/// The same holds of the cookie.
pub proof fn law_cookie_gives_up(s: AssociationView, now: Instant)
    requires
        s.tcb.timers.t1_cookie.is_expired(now),
        s.tcb.timers.t1_cookie.retrans == MAX_INIT_RETRANS,
    ensures
        ({
            let r = s.serve(Timer::T1Cookie, now);
            &&& r.error == Some(AssociationError::HandshakeFailed(Error::ErrHandshakeCookieEcho))
            &&& r.tcb.state == AssociationState::Closed
            &&& r.tcb.timers.t1_cookie.deadline is None
            &&& s.tcb.state != AssociationState::Closed ==> r.tcb.is_over
                && r.tcb.timers.first_deadline() is None
            &&& r.control_queue == s.control_queue
        }),
{
    reveal(AssociationView::serve);
    reveal(AssociationView::on_expiry);
    reveal(AssociationView::on_retransmission_failure);
    reveal(AssociationView::close_for);
}

/// Until the limit is reached, an INIT that got no answer is sent again, and nothing is
/// reported.
pub proof fn law_init_is_sent_again(s: AssociationView, now: Instant)
    requires
        s.tcb.timers.t1_init.is_expired(now),
        s.tcb.timers.t1_init.retrans < MAX_INIT_RETRANS,
        s.stored_init is Some,
    ensures
        ({
            let r = s.serve(Timer::T1Init, now);
            &&& r.error == s.error
            &&& r.tcb.timers.t1_init.deadline is Some
            &&& r.tcb.timers.t1_init.retrans == s.tcb.timers.t1_init.retrans + 1
            &&& r.control_queue.len() == s.control_queue.len() + 1
        }),
{
    reveal(AssociationView::serve);
    reveal(AssociationView::on_expiry);
    reveal(AssociationView::on_retransmission_timeout);
    reveal(AssociationView::send_init);
    reveal(TimerTable::started);
}

proof fn lemma_skips_only(s: AssociationView)
    ensures
        s.skip_abandoned_if_known().inflight_queue == s.inflight_queue,
        s.skip_abandoned_if_known().tcb.cc == s.tcb.cc,
        s.skip_abandoned_if_known().tcb.timers == s.tcb.timers,
        s.skip_abandoned_if_known().tcb.rto_mgr == s.tcb.rto_mgr,
{
    reveal(AssociationView::skip_abandoned_if_known);
    reveal(skipped_to);
}

/// When the retransmission timer expires, the window is one MTU, the threshold half of the
/// window that was, but not less than four MTUs, and all data in flight that is neither
/// acknowledged nor given up is to be sent again. The timer runs on.
pub proof fn law_lost_data_is_sent_again(s: AssociationView, now: Instant)
    requires
        s.tcb.timers.t3_rtx.is_expired(now),
        4 * s.tcb.conf.mtu <= u32::MAX,
    ensures
        ({
            let r = s.serve(Timer::T3RTX, now);
            let half = s.tcb.cc.cwnd as int / 2;
            let least = 4 * s.tcb.conf.mtu;
            &&& r.tcb.cc.cwnd == s.tcb.conf.mtu
            &&& r.tcb.cc.ssthresh == if half >= least {
                half
            } else {
                least
            }
            &&& r.tcb.timers.t3_rtx.deadline is Some
            &&& r.inflight_queue.chunks.dom() == s.inflight_queue.chunks.dom()
            &&& forall|t: u32| #[trigger]
                s.inflight_queue.chunks.contains_key(t) && !s.inflight_queue.chunks[t].acked
                    && !s.inflight_queue.chunks[t].given_up()
                    ==> r.inflight_queue.chunks[t].retransmit
        }),
{
    reveal(AssociationView::serve);
    reveal(AssociationView::on_expiry);
    reveal(AssociationView::on_retransmission_timeout);
    reveal(AssociationView::on_data_timeout);
    reveal(data_timed_out);
    reveal(TimerTable::started);
    reveal(PayloadQueueView::mark_all_to_retransmit);
    let counted = s.tcb.timers.counted(Timer::T3RTX);
    let s1 = s.with_timers(expired(counted, Timer::T3RTX));
    lemma_skips_only(s1.with(data_timed_out(s1.tcb)));
    let r = s.serve(Timer::T3RTX, now);
    assert(r.inflight_queue.chunks.dom() =~= s.inflight_queue.chunks.dom());
}

/// When the acknowledgement timer expires, the acknowledgement that was delayed goes out with
/// the next packets.
pub proof fn law_delayed_ack_goes_out(s: AssociationView, now: Instant)
    requires
        s.tcb.timers.ack.is_expired(now),
    ensures
        s.serve(Timer::Ack, now).tcb.rx.ack_state == AckState::Immediate,
        s.serve(Timer::Ack, now).tcb.timers.ack.deadline is None,
{
    reveal(AssociationView::serve);
    reveal(AssociationView::on_expiry);
    reveal(ack_timed_out);
}

} // verus!
