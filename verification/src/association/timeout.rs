//! What the expiry of a timer does.

use vstd::prelude::*;

use crate::association::sack::{loss_threshold, skip_abandoned, threshold_after_loss};
use crate::association::state::{AckState, AssociationState};
use crate::association::stats::AssociationStats;
use crate::association::timer::{all_timers, Timer, TimerSlot, TimerTable};
use crate::association::view::{
    Association, AssociationError, AssociationView, Congestion, Owed, Receiver, Tcb,
};
use crate::chunk::payload::Instant;
use crate::error::Error;
use crate::queue::payload_queue::lemma_retransmit_wf;

verus! {

/// The acknowledgement that was delayed is owed now.
#[verifier::opaque]
pub open spec fn ack_timed_out(t: Tcb) -> Tcb {
    Tcb {
        stats: AssociationStats {
            n_ack_timeouts: t.stats.n_ack_timeouts.wrapping_add(1),
            ..t.stats
        },
        rx: Receiver { ack_state: AckState::Immediate, ..t.rx },
        ..t
    }
}

/// The chunk of the shutdown sequence is owed again.
#[verifier::opaque]
pub open spec fn shutdown_timed_out(t: Tcb) -> Tcb {
    match t.state {
        AssociationState::ShutdownSent => Tcb {
            owed: Owed { will_send_shutdown: true, ..t.owed },
            ..t
        },
        AssociationState::ShutdownAckSent => Tcb {
            owed: Owed { will_send_shutdown_ack: true, ..t.owed },
            ..t
        },
        _ => t,
    }
}

/// Slow start after data was lost: half of the window, but no less than four MTUs, is the
/// threshold, and the window is one MTU.
#[verifier::opaque]
pub open spec fn data_timed_out(t: Tcb) -> Tcb {
    Tcb {
        stats: AssociationStats {
            n_t3timeouts: t.stats.n_t3timeouts.wrapping_add(1),
            ..t.stats
        },
        cc: Congestion {
            ssthresh: loss_threshold(t.cc.cwnd, t.conf.mtu),
            cwnd: t.conf.mtu,
            ..t.cc
        },
        ..t
    }
}

impl AssociationView {
    /// The advanced acknowledgement point moves over data that is given up, where FORWARD TSN is
    /// known.
    #[verifier::opaque]
    pub open spec fn skip_abandoned_if_known(self) -> AssociationView {
        if self.tcb.peer.use_forward_tsn {
            skip_abandoned(self)
        } else {
            self
        }
    }

    /// The association with all data in flight marked to be sent again.
    pub open spec fn retransmit_all(self) -> AssociationView {
        AssociationView { inflight_queue: self.inflight_queue.mark_all_to_retransmit(), ..self }
    }

    /// The retransmission timer expired: all that is in flight is to be sent again.
    #[verifier::opaque]
    pub open spec fn on_data_timeout(self) -> AssociationView {
        self.with(data_timed_out(self.tcb)).skip_abandoned_if_known().retransmit_all()
    }

    /// What the expiry of a timer calls for.
    #[verifier::opaque]
    pub open spec fn on_retransmission_timeout(self, timer: Timer) -> AssociationView {
        match timer {
            Timer::T1Init => self.send_init(),
            Timer::T1Cookie => self.send_cookie_echo(),
            Timer::T2Shutdown => self.with(shutdown_timed_out(self.tcb)),
            Timer::T3RTX => self.on_data_timeout(),
            Timer::Reconfig => self.with_owed(
                Owed { will_retransmit_reconfig: true, ..self.tcb.owed },
            ),
            Timer::Ack => self,
        }
    }

    /// The association closed because its handshake failed.
    pub open spec fn fail_handshake(self, e: Error) -> AssociationView {
        let reason = AssociationError::HandshakeFailed(e);
        AssociationView { error: Some(reason), ..self }.close_for(reason)
    }

    /// What the last expiry of a timer calls for: the handshake failed. Data is sent again without
    /// a limit.
    #[verifier::opaque]
    pub open spec fn on_retransmission_failure(self, timer: Timer) -> AssociationView {
        match timer {
            Timer::T1Init => self.fail_handshake(Error::ErrHandshakeInitAck),
            Timer::T1Cookie => self.fail_handshake(Error::ErrHandshakeCookieEcho),
            _ => self,
        }
    }

    /// The association with a timer started.
    pub open spec fn start_timer(self, timer: Timer, now: Instant) -> AssociationView {
        self.with_timers(self.tcb.timers.started(timer, now, self.tcb.rto_mgr.rto))
    }

    /// A timer that expired is served.
    #[verifier::opaque]
    pub open spec fn on_expiry(self, timer: Timer, failure: bool, now: Instant) -> AssociationView {
        if timer is Ack {
            self.with(ack_timed_out(self.tcb))
        } else if failure {
            self.on_retransmission_failure(timer)
        } else {
            self.on_retransmission_timeout(timer).start_timer(timer, now)
        }
    }

    /// A timer is served: if it expired, that is counted, and the timer does not run until what
    /// the expiry calls for starts it.
    #[verifier::opaque]
    pub open spec fn serve(self, timer: Timer, now: Instant) -> AssociationView {
        if !self.tcb.timers.slot(timer).is_expired(now) {
            self
        } else {
            let counted = self.tcb.timers.counted(timer);
            self.with_timers(expired(counted, timer)).on_expiry(
                timer,
                counted.is_exhausted(timer),
                now,
            )
        }
    }

    /// The first `n` timers are served.
    pub open spec fn serve_all(self, now: Instant, n: int) -> AssociationView
        decreases n,
    {
        if n <= 0 {
            self
        } else {
            self.serve_all(now, n - 1).serve(all_timers()[n - 1], now)
        }
    }

    /// All timers are served.
    pub open spec fn handle_timeout(self, now: Instant) -> AssociationView {
        self.serve_all(now, 6)
    }
}

/// A table with a timer that does not run any longer.
pub open spec fn expired(t: TimerTable, timer: Timer) -> TimerTable {
    t.with(timer, TimerSlot { deadline: None, ..t.slot(timer) })
}

/// Owes the acknowledgement that was delayed.
fn time_out_ack(t: &mut Tcb)
    ensures
        *final(t) == ack_timed_out(*old(t)),
{
    reveal(ack_timed_out);
    t.stats.inc_ack_timeouts();
    t.rx.ack_state = AckState::Immediate;
}

/// Owes the chunk of the shutdown sequence again.
fn time_out_shutdown(t: &mut Tcb)
    ensures
        *final(t) == shutdown_timed_out(*old(t)),
{
    reveal(shutdown_timed_out);
    match t.state {
        AssociationState::ShutdownSent => {
            t.owed.will_send_shutdown = true;
        },
        AssociationState::ShutdownAckSent => {
            t.owed.will_send_shutdown_ack = true;
        },
        _ => {},
    }
}

/// Enters slow start after data was lost.
fn time_out_data(t: &mut Tcb)
    ensures
        *final(t) == data_timed_out(*old(t)),
{
    reveal(data_timed_out);
    t.stats.inc_t3timeouts();
    t.cc.ssthresh = threshold_after_loss(t.cc.cwnd, t.conf.mtu);
    t.cc.cwnd = t.conf.mtu;
}

impl Association {
    /// Owes the acknowledgement that was delayed.
    pub fn on_ack_timeout(&mut self)
        requires
            old(self)@.wf(),
        ensures
            final(self)@ == old(self)@.with(ack_timed_out(old(self)@.tcb)),
            final(self)@.wf(),
    {
        time_out_ack(&mut self.tcb);
    }

    /// Moves the advanced acknowledgement point over data that is given up, where FORWARD TSN is
    /// known.
    fn skip_abandoned_data(&mut self)
        requires
            old(self)@.wf(),
        ensures
            final(self)@ == old(self)@.skip_abandoned_if_known(),
            final(self)@.wf(),
    {
        reveal(AssociationView::skip_abandoned_if_known);
        if self.tcb.peer.use_forward_tsn {
            self.advance_peer_ack_point();
        }
    }

    /// Marks all that is in flight to be sent again.
    fn retransmit_all(&mut self)
        requires
            old(self)@.wf(),
        ensures
            final(self)@ == old(self)@.retransmit_all(),
            final(self)@.wf(),
    {
        proof {
            lemma_retransmit_wf(self@.inflight_queue);
        }
        self.inflight_queue.mark_all_to_retrasmit();
    }

    /// Does what the expiry of the T3-rtx timer calls for.
    fn on_data_timeout(&mut self)
        requires
            old(self)@.wf(),
        ensures
            final(self)@ == old(self)@.on_data_timeout(),
            final(self)@.wf(),
    {
        reveal(AssociationView::on_data_timeout);
        time_out_data(&mut self.tcb);
        // Any time the T3-rtx timer expires, the sender should try to advance the
        // "Advanced.Peer.Ack.Point".
        self.skip_abandoned_data();
        self.retransmit_all();
    }

    /// Does what the expiry of a timer calls for.
    pub fn on_retransmission_timeout(&mut self, timer: Timer)
        requires
            old(self)@.wf(),
        ensures
            final(self)@ == old(self)@.on_retransmission_timeout(timer),
            final(self)@.wf(),
    {
        reveal(AssociationView::on_retransmission_timeout);
        match timer {
            Timer::T1Init => {
                let _ = self.send_init();
            },
            Timer::T1Cookie => {
                let _ = self.send_cookie_echo();
            },
            Timer::T2Shutdown => {
                time_out_shutdown(&mut self.tcb);
            },
            Timer::T3RTX => {
                self.on_data_timeout();
            },
            Timer::Reconfig => {
                self.tcb.owed.will_retransmit_reconfig = true;
            },
            Timer::Ack => {},
        }
    }

    /// Does what the last expiry of a timer calls for.
    pub fn on_retransmission_failure(&mut self, timer: Timer)
        requires
            old(self)@.wf(),
        ensures
            final(self)@ == old(self)@.on_retransmission_failure(timer),
            final(self)@.wf(),
    {
        reveal(AssociationView::on_retransmission_failure);
        match timer {
            Timer::T1Init => {
                self.error = Some(AssociationError::HandshakeFailed(Error::ErrHandshakeInitAck));
                self.close_for(AssociationError::HandshakeFailed(Error::ErrHandshakeInitAck));
            },
            Timer::T1Cookie => {
                self.error = Some(
                    AssociationError::HandshakeFailed(Error::ErrHandshakeCookieEcho),
                );
                self.close_for(AssociationError::HandshakeFailed(Error::ErrHandshakeCookieEcho));
            },
            // The T3-rtx timer will not fail by design.
            _ => {},
        }
    }

    /// Serves a timer that expired.
    fn on_expiry(&mut self, timer: Timer, failure: bool, now: Instant)
        requires
            old(self)@.wf(),
        ensures
            final(self)@ == old(self)@.on_expiry(timer, failure, now),
            final(self)@.wf(),
    {
        reveal(AssociationView::on_expiry);
        if timer == Timer::Ack {
            self.on_ack_timeout();
        } else if failure {
            self.on_retransmission_failure(timer);
        } else {
            self.on_retransmission_timeout(timer);
            let rto = self.tcb.rto_mgr.get_rto();
            self.tcb.timers.start(timer, now, rto);
        }
    }

    /// Serves a timer.
    fn serve(&mut self, timer: Timer, now: Instant)
        requires
            old(self)@.wf(),
        ensures
            final(self)@ == old(self)@.serve(timer, now),
            final(self)@.wf(),
    {
        reveal(AssociationView::serve);
        let (is_expired, failure, _n_rtos) = self.tcb.timers.is_expired(timer, now);
        if !is_expired {
            return;
        }
        self.tcb.timers.set(timer, None);
        self.on_expiry(timer, failure, now);
    }

    /// Process timer expirations
    ///
    /// Executes protocol logic, potentially preparing signals (including application `Event`s,
    /// `EndpointEvent`s and outgoing datagrams) that should be extracted through the relevant
    /// methods.
    ///
    /// It is most efficient to call this immediately after the system clock reaches the latest
    /// `Instant` that was output by `poll_timeout`; however spurious extra calls will simply
    /// no-op and therefore are safe.
    pub fn handle_timeout(&mut self, now: Instant)
        requires
            old(self)@.wf(),
        ensures
            final(self)@ == old(self)@.handle_timeout(now),
            final(self)@.wf(),
    {
        proof {
            reveal_with_fuel(AssociationView::serve_all, 7);
        }
        self.serve(Timer::T1Init, now);
        self.serve(Timer::T1Cookie, now);
        self.serve(Timer::T2Shutdown, now);
        self.serve(Timer::T3RTX, now);
        self.serve(Timer::Reconfig, now);
        self.serve(Timer::Ack, now);
    }
}

} // verus!
