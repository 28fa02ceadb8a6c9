//! What the user of an association sees and asks for.

use bytes::Bytes;
use vstd::prelude::*;

use crate::association::gather::raw_views;
use crate::association::state::AssociationState;
use crate::association::stats::AssociationStats;
use crate::association::stream::StreamId;
use crate::association::view::{Association, AssociationView, Event, Settings, Tcb};
use crate::buffer::bytes_len;
use crate::chunk::payload::{data_views, remove_chunk, ChunkPayloadData, DataView, Instant};
use crate::error::Error;
use crate::queue::pending_queue::{
    data_bytes, lemma_can_take_front, lemma_push_wf, PendingQueueView,
};
use crate::shared::{EndpointEvent, IpAddr, Payload, Side, SocketAddr, Transmit};

verus! {

/// The chunk without data that ends a stream.
pub open spec fn end_of_stream(si: StreamId) -> DataView {
    DataView {
        stream_identifier: si,
        beginning_fragment: true,
        ending_fragment: true,
        ..DataView::blank()
    }
}

/// A count of bytes with `n` more, as far as it can count.
pub open spec fn counted_bytes(count: usize, n: nat) -> usize {
    if count + n > usize::MAX {
        usize::MAX
    } else {
        (count + n) as usize
    }
}

/// Counts `n` more bytes.
pub(crate) fn count_bytes(count: usize, n: usize) -> (r: usize)
    ensures
        r == counted_bytes(count, n as nat),
{
    if n > usize::MAX - count {
        usize::MAX
    } else {
        count + n
    }
}

/// The bytes of all packets.
pub open spec fn raw_bytes(raws: Seq<Seq<u8>>) -> nat
    decreases raws.len(),
{
    if raws.len() == 0 {
        0
    } else {
        raw_bytes(raws.drop_last()) + raws.last().len()
    }
}

impl AssociationView {
    /// The association with `n` more bytes sent.
    pub open spec fn with_sent(self, n: nat) -> AssociationView {
        self.with(
            Tcb {
                conf: Settings {
                    bytes_sent: counted_bytes(self.tcb.conf.bytes_sent, n),
                    ..self.tcb.conf
                },
                ..self.tcb
            },
        )
    }

    /// The association with `n` more bytes received.
    pub open spec fn with_received(self, n: nat) -> AssociationView {
        self.with(
            Tcb {
                conf: Settings {
                    bytes_received: counted_bytes(self.tcb.conf.bytes_received, n),
                    ..self.tcb.conf
                },
                ..self.tcb
            },
        )
    }

    /// The number of bytes of user data that are not sent or not acknowledged.
    pub open spec fn buffered(self) -> nat {
        self.pending_queue.n_bytes + self.inflight_queue.n_bytes
    }

    /// The association with other chunks that wait to be sent.
    pub open spec fn with_pending(self, pending_queue: PendingQueueView) -> AssociationView {
        AssociationView { pending_queue, ..self }
    }

    /// The event that the application hears next: those that wait, and after them that the
    /// association was lost.
    pub open spec fn next_event(self) -> Option<Event> {
        if self.events.len() > 0 {
            Some(self.events[0])
        } else {
            match self.error {
                Some(reason) => Some(Event::AssociationLost { reason }),
                None => None,
            }
        }
    }

    /// The association after the application heard its next event.
    pub open spec fn polled(self) -> AssociationView {
        if self.events.len() > 0 {
            AssociationView { events: self.events.drop_first(), ..self }
        } else {
            AssociationView { error: None, ..self }
        }
    }
}

impl Association {
    /// Returns application-facing event
    ///
    /// Associations should be polled for events after:
    /// - a call was made to `handle_event`
    /// - a call was made to `handle_timeout`
    #[must_use]
    pub fn poll(&mut self) -> (r: Option<Event>)
        ensures
            r == old(self)@.next_event(),
            final(self)@ == old(self)@.polled(),
            old(self)@.wf() ==> final(self)@.wf(),
    {
        if let Some(x) = self.events.pop_front() {
            assert(self@.events =~= old(self)@.events.drop_first());
            return Some(x);
        }
        if let Some(err) = self.error.take() {
            return Some(Event::AssociationLost { reason: err });
        }
        None
    }

    /// Return endpoint-facing event
    #[must_use]
    pub fn poll_endpoint_event(&mut self) -> (r: Option<EndpointEvent>)
        ensures
            old(self)@.endpoint_events.len() > 0 ==> r == Some(
                EndpointEvent(old(self)@.endpoint_events[0]),
            ) && final(self)@ == (AssociationView {
                endpoint_events: old(self)@.endpoint_events.drop_first(),
                ..old(self)@
            }),
            old(self)@.endpoint_events.len() == 0 ==> r is None && final(self)@ == old(self)@,
            old(self)@.wf() ==> final(self)@.wf(),
    {
        match self.endpoint_events.pop_front() {
            Some(e) => {
                assert(self@.endpoint_events =~= old(self)@.endpoint_events.drop_first());
                Some(EndpointEvent(e))
            },
            None => None,
        }
    }

    /// Returns the next time at which `handle_timeout` should be called
    ///
    /// The value returned may change after:
    /// - the application performed some I/O on the association
    /// - a call was made to `handle_transmit`
    /// - a call to `poll_transmit` returned `Some`
    /// - a call was made to `handle_timeout`
    #[must_use]
    pub fn poll_timeout(&mut self) -> (r: Option<Instant>)
        ensures
            r == old(self)@.tcb.timers.first_deadline(),
            *final(self) == *old(self),
    {
        self.tcb.timers.next_timeout()
    }

    /// Returns packets to transmit
    ///
    /// Associations should be polled for transmit after:
    /// - the application performed some I/O on the Association
    /// - a call was made to `handle_event`
    /// - a call was made to `handle_timeout`
    #[must_use]
    pub fn poll_transmit(&mut self, now: Instant) -> (r: Option<Transmit>)
        requires
            old(self)@.wf(),
        ensures
            ({
                let g = old(self)@.gather_outbound(now).0;
                &&& final(self)@ == g.s.with_sent(raw_bytes(g.raws))
                &&& match r {
                    None => g.raws.len() == 0,
                    Some(t) => {
                        &&& g.raws.len() > 0
                        &&& t.now == now
                        &&& t.remote == g.s.tcb.conf.remote_addr
                        &&& t.local_ip == g.s.tcb.conf.local_ip
                        &&& t.ecn is None
                        &&& t.payload matches Payload::RawEncode(v) && raw_views(v@) == g.raws
                    },
                }
            }),
            final(self)@.wf(),
    {
        let (contents, _) = self.gather_outbound(now);
        assert(contents@.len() == raw_views(contents@).len());
        self.count_sent(&contents);
        if contents.len() == 0 {
            None
        } else {
            Some(
                Transmit {
                    now,
                    remote: self.tcb.conf.remote_addr,
                    payload: Payload::RawEncode(contents),
                    ecn: None,
                    local_ip: self.tcb.conf.local_ip,
                },
            )
        }
    }

    /// Counts the bytes of packets that are sent.
    fn count_sent(&mut self, contents: &Vec<Bytes>)
        ensures
            final(self)@ == old(self)@.with_sent(raw_bytes(raw_views(contents@))),
            old(self)@.wf() ==> final(self)@.wf(),
    {
        let ghost all = raw_views(contents@);
        let mut count = self.tcb.conf.bytes_sent;
        let mut i: usize = 0;
        assert(all.take(0) =~= seq![]);
        while i < contents.len()
            invariant
                i <= contents.len(),
                all == raw_views(contents@),
                count == counted_bytes(
                    old(self)@.tcb.conf.bytes_sent,
                    raw_bytes(all.take(i as int)),
                ),
            decreases contents.len() - i,
        {
            assert(all.take(i + 1).drop_last() =~= all.take(i as int));
            count = count_bytes(count, bytes_len(&contents[i]));
            i += 1;
        }
        assert(all.take(i as int) =~= all);
        self.tcb.conf.bytes_sent = count;
    }

    /// Returns Association statistics
    pub fn stats(&self) -> (r: AssociationStats)
        ensures
            r == self@.tcb.stats,
    {
        self.tcb.stats
    }

    /// Whether the Association is in the process of being established
    ///
    /// If this returns `false`, the Association may be either established or closed, signaled by
    /// the emission of a `Connected` or `AssociationLost` message respectively.
    pub fn is_handshaking(&self) -> (r: bool)
        ensures
            r == (!self@.tcb.handshake_completed && !self@.tcb.is_over),
    {
        !self.tcb.handshake_completed && !self.tcb.is_over
    }

    /// Whether the Association is closed
    ///
    /// Closed Associations cannot transport any further data. An association becomes closed when
    /// either peer application intentionally closes it, or when either transport layer detects an
    /// error such as a time-out.
    ///
    /// A `AssociationLost` event is emitted with details when the association becomes closed.
    pub fn is_closed(&self) -> (r: bool)
        ensures
            r == (self@.tcb.state is Closed),
    {
        self.tcb.state == AssociationState::Closed
    }

    /// Whether there is no longer any need to keep the association around
    ///
    /// All drained associations have been closed.
    pub fn is_drained(&self) -> (r: bool)
        ensures
            r == (self@.tcb.state is Closed),
    {
        self.tcb.state.is_drained()
    }

    /// Look up whether we're the client or server of this Association
    pub fn side(&self) -> (r: Side)
        ensures
            r == self@.tcb.conf.side,
    {
        self.tcb.conf.side
    }

    /// The latest socket address for this Association's peer
    pub fn remote_addr(&self) -> (r: SocketAddr)
        ensures
            r == self@.tcb.conf.remote_addr,
    {
        self.tcb.conf.remote_addr
    }

    /// Current best estimate of this Association's latency (round-trip-time), in milliseconds:
    /// the smoothed round-trip time, zero before one was measured
    pub fn rtt(&self) -> (r: u64)
        ensures
            r == self@.tcb.rto_mgr.srtt,
    {
        self.tcb.rto_mgr.srtt
    }

    /// The local IP address which was used when the peer established the association
    ///
    /// This can be different from the address the endpoint is bound to, in case the endpoint is
    /// bound to a wildcard address like `0.0.0.0` or `::`.
    ///
    /// This will return `None` for clients.
    pub fn local_ip(&self) -> (r: Option<IpAddr>)
        ensures
            r == (if self@.tcb.conf.side is Client {
                None
            } else {
                self@.tcb.conf.local_ip
            }),
    {
        if self.tcb.conf.side.is_client() {
            None
        } else {
            self.tcb.conf.local_ip
        }
    }

    /// The number of bytes sent, in datagrams
    pub fn bytes_sent(&self) -> (r: usize)
        ensures
            r == self@.tcb.conf.bytes_sent,
    {
        self.tcb.conf.bytes_sent
    }

    /// The number of bytes received, in datagrams
    pub fn bytes_received(&self) -> (r: usize)
        ensures
            r == self@.tcb.conf.bytes_received,
    {
        self.tcb.conf.bytes_received
    }

    /// The maximum message size you can send.
    pub fn max_message_size(&self) -> (r: u32)
        ensures
            r == self@.tcb.conf.max_message_size,
    {
        self.tcb.conf.max_message_size
    }

    /// Sets the maximum message size you can send.
    pub fn set_max_message_size(&mut self, max_message_size: u32)
        ensures
            final(self)@ == old(self)@.with(
                Tcb {
                    conf: Settings { max_message_size, ..old(self)@.tcb.conf },
                    ..old(self)@.tcb
                },
            ),
            old(self)@.wf() ==> final(self)@.wf(),
    {
        self.tcb.conf.max_message_size = max_message_size;
    }

    /// The state of the association.
    pub fn state(&self) -> (r: AssociationState)
        ensures
            r == self@.tcb.state,
    {
        self.tcb.state
    }

    /// Ends a stream once all of its data is sent.
    pub fn send_reset_request(&mut self, stream_identifier: StreamId) -> (r: Result<(), Error>)
        requires
            old(self)@.wf(),
        ensures
            r == (if old(self)@.tcb.state == AssociationState::Established {
                Ok::<(), Error>(())
            } else {
                Err::<(), Error>(Error::ErrResetPacketInStateNotExist)
            }),
            final(self)@ == (if r is Ok {
                old(self)@.with_pending(
                    old(self)@.pending_queue.push(end_of_stream(stream_identifier)),
                )
            } else {
                old(self)@
            }),
            final(self)@.wf(),
    {
        if self.tcb.state != AssociationState::Established {
            return Err(Error::ErrResetPacketInStateNotExist);
        }
        // Create DATA chunk which only contains valid stream identifier with nil userData and
        // use it as a EOS from the stream.
        let mut c = ChunkPayloadData::default();
        c.stream_identifier = stream_identifier;
        c.beginning_fragment = true;
        c.ending_fragment = true;
        assert(c@ == end_of_stream(stream_identifier));
        self.pending_queue.push(c);
        Ok(())
    }

    /// Puts chunks behind those that wait to be sent.
    fn push_pending(&mut self, chunks: Vec<ChunkPayloadData>)
        requires
            old(self)@.wf(),
            old(self)@.pending_queue.can_take_all(data_views(chunks@)),
            old(self)@.buffered() + data_bytes(data_views(chunks@)) <= usize::MAX,
        ensures
            final(self)@ == old(self)@.with_pending(
                old(self)@.pending_queue.push_all(data_views(chunks@)),
            ),
            final(self)@.wf(),
    {
        let ghost all = data_views(chunks@);
        let ghost q = self@.pending_queue;
        let mut rest = chunks;
        let n = rest.len();
        let mut i: usize = 0;
        assert(all.skip(0) =~= all);
        assert(all.take(0) =~= seq![]);
        while i < n
            invariant
                i <= n,
                n == all.len(),
                rest.len() == n - i,
                data_views(rest@) == all.skip(i as int),
                q.can_take_all(all),
                q == old(self)@.pending_queue,
                old(self)@.wf(),
                self@.wf(),
                self@ == old(self)@.with_pending(q.push_all(all.take(i as int))),
                self@.pending_queue.n_bytes == q.n_bytes + data_bytes(all.take(i as int)),
                old(self)@.buffered() + data_bytes(all) <= usize::MAX,
            decreases n - i,
        {
            let c = remove_chunk(&mut rest, 0);
            assert(c@ == all[i as int]);
            assert(data_views(rest@) =~= all.skip(i + 1));
            proof {
                assert(all.take(i + 1).drop_last() =~= all.take(i as int));
                lemma_data_bytes_take(all, i + 1);
                lemma_can_take_front(q, all, i + 1);
                lemma_push_wf(self@.pending_queue, c@);
            }
            self.pending_queue.push(c);
            i += 1;
        }
        assert(all.take(i as int) =~= all);
    }

    /// Sends data chunks. A chunk without data ends its stream; one that neither begins a message
    /// nor goes on with one could never leave the queue, and keeps all others from leaving.
    pub fn send_payload_data(&mut self, chunks: Vec<ChunkPayloadData>) -> (r: Result<(), Error>)
        requires
            old(self)@.wf(),
            old(self)@.tcb.state == AssociationState::Established ==> {
                &&& old(self)@.pending_queue.can_take_all(data_views(chunks@))
                &&& old(self)@.buffered() + data_bytes(data_views(chunks@)) <= usize::MAX
            },
        ensures
            r == (if old(self)@.tcb.state == AssociationState::Established {
                Ok::<(), Error>(())
            } else {
                Err::<(), Error>(Error::ErrPayloadDataStateNotExist)
            }),
            final(self)@ == (if r is Ok {
                old(self)@.with_pending(
                    old(self)@.pending_queue.push_all(data_views(chunks@)),
                )
            } else {
                old(self)@
            }),
            final(self)@.wf(),
    {
        if self.tcb.state != AssociationState::Established {
            return Err(Error::ErrPayloadDataStateNotExist);
        }
        self.push_pending(chunks);
        Ok(())
    }

    /// The total amount (in bytes) of currently buffered user data.
    pub fn buffered_amount(&self) -> (r: usize)
        requires
            self@.wf(),
        ensures
            r == self@.buffered(),
    {
        self.pending_queue.get_num_bytes() + self.inflight_queue.get_num_bytes()
    }

    /// Whether no timers are running
    pub fn is_idle(&self) -> (r: bool)
        ensures
            r == (self@.tcb.timers.first_deadline() is None),
    {
        self.tcb.timers.next_timeout().is_none()
    }
}

/// Some of the chunks hold no more data than all.
proof fn lemma_data_bytes_take(s: Seq<DataView>, n: int)
    requires
        0 <= n <= s.len(),
    ensures
        data_bytes(s.take(n)) <= data_bytes(s),
    decreases s.len() - n,
{
    if n < s.len() {
        lemma_data_bytes_take(s, n + 1);
        assert(s.take(n + 1).drop_last() =~= s.take(n));
    } else {
        assert(s.take(n) =~= s);
    }
}

} // verus!
