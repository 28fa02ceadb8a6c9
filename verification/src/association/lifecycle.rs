//! How an association ends.

use vstd::prelude::*;

use crate::association::handshake::no_reply;
use crate::association::state::AssociationState;
use crate::association::timer::{Timer, TimerTable};
use crate::association::view::{
    no_packets, reply_view, Association, AssociationError, AssociationView, Owed, Tcb,
};
use crate::error::Error;
use crate::keys::fx_keys16;
use crate::packet::Packet;
use crate::shared::EndpointEventInner;

verus! {

/// A shutdown begins: it waits until no data is in flight.
#[verifier::opaque]
pub open spec fn shutdown_begun(t: Tcb, idle: bool) -> Tcb {
    if idle {
        Tcb {
            owed: Owed { will_send_shutdown: true, ..t.owed },
            state: AssociationState::ShutdownSent,
            ..t
        }
    } else {
        Tcb { state: AssociationState::ShutdownPending, ..t }
    }
}

/// The peer shuts down: that is acknowledged once no data is in flight.
#[verifier::opaque]
pub open spec fn shutdown_received(t: Tcb, idle: bool) -> Tcb {
    if t.state == AssociationState::Established && !idle {
        Tcb { state: AssociationState::ShutdownReceived, ..t }
    } else if t.state == AssociationState::Established || t.state
        == AssociationState::ShutdownSent {
        Tcb {
            owed: Owed { will_send_shutdown_ack: true, ..t.owed },
            state: AssociationState::ShutdownAckSent,
            ..t
        }
    } else {
        t
    }
}

/// The peer acknowledged the shutdown, which is to be completed.
#[verifier::opaque]
pub open spec fn shutdown_acked(t: Tcb) -> Tcb {
    if t.state == AssociationState::ShutdownSent || t.state == AssociationState::ShutdownAckSent {
        Tcb {
            timers: t.timers.stopped(Timer::T2Shutdown),
            owed: Owed { will_send_shutdown_complete: true, ..t.owed },
            ..t
        }
    } else {
        t
    }
}

impl AssociationView {
    /// The association closed: no timer runs, no stream is open, and the application will hear
    /// the reason, unless another one waits for it already.
    #[verifier::opaque]
    pub open spec fn close_for(self, reason: AssociationError) -> AssociationView {
        if self.tcb.state == AssociationState::Closed {
            self
        } else {
            AssociationView {
                streams: Map::empty(),
                error: if self.error is Some {
                    self.error
                } else {
                    Some(reason)
                },
                ..self.with(
                    Tcb {
                        state: AssociationState::Closed,
                        is_over: true,
                        timers: TimerTable::idle(),
                        ..self.tcb
                    },
                )
            }
        }
    }

    /// The association closed by its user.
    pub open spec fn close(self) -> AssociationView {
        self.close_for(AssociationError::LocallyClosed)
    }

    /// The association with a shutdown begun, and its endpoint told.
    #[verifier::opaque]
    pub open spec fn shutdown(self) -> AssociationView {
        AssociationView {
            endpoint_events: self.endpoint_events.push(EndpointEventInner::Drained),
            ..self.with(shutdown_begun(self.tcb, self.idle()))
        }
    }

    /// What a SHUTDOWN COMPLETE chunk does.
    #[verifier::opaque]
    pub open spec fn handle_shutdown_complete(self) -> AssociationView {
        if self.tcb.state == AssociationState::ShutdownAckSent {
            self.with_timers(self.tcb.timers.stopped(Timer::T2Shutdown)).close_for(
                AssociationError::ApplicationClosed,
            )
        } else {
            self
        }
    }
}

/// Begins a shutdown.
fn begin_shutdown(t: &mut Tcb, idle: bool)
    ensures
        *final(t) == shutdown_begun(*old(t), idle),
{
    reveal(shutdown_begun);
    // Attempt a graceful shutdown.
    t.state = AssociationState::ShutdownPending;
    if idle {
        // No more outstanding, send shutdown.
        t.owed.will_send_shutdown = true;
        t.state = AssociationState::ShutdownSent;
    }
}

/// Follows the peer into a shutdown.
fn receive_shutdown(t: &mut Tcb, idle: bool)
    ensures
        *final(t) == shutdown_received(*old(t), idle),
{
    reveal(shutdown_received);
    if t.state == AssociationState::Established {
        if !idle {
            t.state = AssociationState::ShutdownReceived;
        } else {
            // No more outstanding, send shutdown ack.
            t.owed.will_send_shutdown_ack = true;
            t.state = AssociationState::ShutdownAckSent;
        }
    } else if t.state == AssociationState::ShutdownSent {
        t.owed.will_send_shutdown_ack = true;
        t.state = AssociationState::ShutdownAckSent;
    }
}

/// Goes on to complete a shutdown.
fn receive_shutdown_ack(t: &mut Tcb)
    ensures
        *final(t) == shutdown_acked(*old(t)),
{
    reveal(shutdown_acked);
    if t.state == AssociationState::ShutdownSent || t.state == AssociationState::ShutdownAckSent {
        t.timers.stop(Timer::T2Shutdown);
        t.owed.will_send_shutdown_complete = true;
    }
}

/// Stops all timers.
fn stop_all(timers: &mut TimerTable)
    ensures
        *final(timers) == TimerTable::idle(),
{
    timers.stop(Timer::T1Init);
    timers.stop(Timer::T1Cookie);
    timers.stop(Timer::T2Shutdown);
    timers.stop(Timer::T3RTX);
    timers.stop(Timer::Reconfig);
    timers.stop(Timer::Ack);
}

impl Association {
    /// Shutdown initiates the shutdown sequence. It goes on once no data is in flight.
    pub fn shutdown(&mut self) -> (r: Result<(), Error>)
        requires
            old(self)@.wf(),
        ensures
            r == (if old(self)@.tcb.state == AssociationState::Established {
                Ok::<(), Error>(())
            } else {
                Err::<(), Error>(Error::ErrShutdownNonEstablished)
            }),
            final(self)@ == (if r is Ok {
                old(self)@.shutdown()
            } else {
                old(self)@
            }),
            final(self)@.wf(),
    {
        reveal(AssociationView::shutdown);
        if self.tcb.state != AssociationState::Established {
            return Err(Error::ErrShutdownNonEstablished);
        }
        let idle = self.inflight_queue.is_empty();
        begin_shutdown(&mut self.tcb, idle);
        self.endpoint_events.push_back(EndpointEventInner::Drained);
        Ok(())
    }

    /// Stops all timers.
    pub fn close_all_timers(&mut self)
        requires
            old(self)@.wf(),
        ensures
            final(self)@ == old(self)@.with_timers(TimerTable::idle()),
            final(self)@.wf(),
    {
        stop_all(&mut self.tcb.timers);
    }

    /// Forgets all streams.
    fn unregister_all_streams(&mut self)
        requires
            old(self)@.wf(),
        ensures
            final(self)@ == (AssociationView { streams: Map::empty(), ..old(self)@ }),
            final(self)@.wf(),
    {
        broadcast use vstd::std_specs::hash::group_hash_axioms;

        let ghost m = self@.streams;
        let ids = fx_keys16(&self.streams);
        assert(ids@.take(0).to_set() =~= Set::empty());
        assert(m.remove_keys(Set::empty()) =~= m);
        let mut k: usize = 0;
        while k < ids.len()
            invariant
                k <= ids.len(),
                self@.wf(),
                self@ == (AssociationView {
                    streams: m.remove_keys(ids@.take(k as int).to_set()),
                    ..old(self)@
                }),
            decreases ids.len() - k,
        {
            let si = ids[k];
            proof {
                let a = ids@.take(k as int);
                let b = ids@.take(k + 1);
                assert(b =~= a.push(si));
                assert forall|x: u16|
                    b.to_set().contains(x) <==> a.to_set().insert(si).contains(x) by {
                    if a.contains(x) {
                        let j = choose|j: int| 0 <= j < a.len() && a[j] == x;
                        assert(b[j] == x);
                    }
                    assert(b[k as int] == si);
                    if b.contains(x) && x != si {
                        let j = choose|j: int| 0 <= j < b.len() && b[j] == x;
                        assert(a[j] == x);
                    }
                }
                assert(m.remove_keys(a.to_set()).remove(si) =~= m.remove_keys(b.to_set()));
            }
            self.unregister_stream(si);
            k += 1;
        }
        proof {
            assert(ids@.take(k as int) =~= ids@);
            assert(ids@.to_set() =~= m.dom());
            assert(m.remove_keys(ids@.to_set()) =~= Map::empty());
        }
    }

    /// Ends the association and cleans up any state. A reason that waits to be reported is kept.
    pub(crate) fn close_for(&mut self, reason: AssociationError)
        requires
            old(self)@.wf(),
        ensures
            final(self)@ == old(self)@.close_for(reason),
            final(self)@.wf(),
    {
        reveal(AssociationView::close_for);
        if self.tcb.state != AssociationState::Closed {
            self.tcb.state = AssociationState::Closed;
            self.tcb.is_over = true;
            self.close_all_timers();
            self.unregister_all_streams();
            if self.error.is_none() {
                self.error = Some(reason);
            }
        }
    }

    /// Close ends the SCTP Association and cleans up any state
    ///
    /// An `AssociationLost` event tells the application that the association became closed.
    pub fn close(&mut self) -> (r: Result<(), Error>)
        requires
            old(self)@.wf(),
        ensures
            r is Ok,
            final(self)@ == old(self)@.close(),
            final(self)@.wf(),
    {
        self.close_for(AssociationError::LocallyClosed);
        Ok(())
    }

    /// Handles a SHUTDOWN chunk.
    pub fn handle_shutdown(&mut self) -> (r: Result<Vec<Packet>, Error>)
        requires
            old(self)@.wf(),
        ensures
            final(self)@ == old(self)@.with(
                shutdown_received(old(self)@.tcb, old(self)@.idle()),
            ),
            reply_view(r) == no_packets(),
            final(self)@.wf(),
    {
        let idle = self.inflight_queue.is_empty();
        receive_shutdown(&mut self.tcb, idle);
        no_reply()
    }

    /// Handles a SHUTDOWN ACK chunk.
    pub fn handle_shutdown_ack(&mut self) -> (r: Result<Vec<Packet>, Error>)
        requires
            old(self)@.wf(),
        ensures
            final(self)@ == old(self)@.with(shutdown_acked(old(self)@.tcb)),
            reply_view(r) == no_packets(),
            final(self)@.wf(),
    {
        receive_shutdown_ack(&mut self.tcb);
        no_reply()
    }

    /// Handles a SHUTDOWN COMPLETE chunk.
    pub fn handle_shutdown_complete(&mut self) -> (r: Result<Vec<Packet>, Error>)
        requires
            old(self)@.wf(),
        ensures
            final(self)@ == old(self)@.handle_shutdown_complete(),
            reply_view(r) == no_packets(),
            final(self)@.wf(),
    {
        reveal(AssociationView::handle_shutdown_complete);
        if self.tcb.state == AssociationState::ShutdownAckSent {
            self.tcb.timers.stop(Timer::T2Shutdown);
            self.close_for(AssociationError::ApplicationClosed);
        }
        no_reply()
    }
}

} // verus!
