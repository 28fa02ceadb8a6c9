//! Opening, accepting and closing streams.

use vstd::prelude::*;

use crate::association::stream::{RecvSendState, StreamEvent, StreamId, StreamState, StreamView};
use crate::association::view::{Association, AssociationView, Event};
use crate::chunk::payload::PayloadProtocolIdentifier;
use crate::error::Error;
use crate::fx::{fx_contains_key, fx_get, fx_insert, fx_remove};
use crate::keys::{fx_keys16, sorted_keys};

verus! {

/// A stream of an association.
#[derive(Debug)]
pub struct Stream<'a> {
    pub stream_identifier: StreamId,
    pub association: &'a mut Association,
}

/// The bytes that wait to be read on the first `n` streams, modulo 2^32.
pub open spec fn queued_bytes(streams: Map<u16, StreamView>, ids: Seq<u16>, n: int) -> u32
    decreases n,
{
    if n <= 0 {
        0
    } else {
        queued_bytes(streams, ids, n - 1).wrapping_add(
            streams[ids[n - 1]].reassembly_queue.n_bytes,
        )
    }
}

impl AssociationView {
    /// How many bytes the peer may send: what the bytes that wait to be read leave of the
    /// receive buffer.
    #[verifier::opaque]
    pub open spec fn receiver_window_credit(self) -> u32 {
        let ids = sorted_keys(self.streams.dom());
        let queued = queued_bytes(self.streams, ids, ids.len() as int);
        if self.tcb.conf.max_receive_buffer_size >= queued {
            (self.tcb.conf.max_receive_buffer_size - queued) as u32
        } else {
            0
        }
    }

    /// The association without a stream.
    pub open spec fn without_stream(self, si: StreamId) -> AssociationView {
        AssociationView { streams: self.streams.remove(si), ..self }
    }

    /// The association with a new stream; one that the peer opened is there to be accepted.
    #[verifier::opaque]
    pub open spec fn create_stream(
        self,
        si: StreamId,
        accept: bool,
        default_payload_type: PayloadProtocolIdentifier,
    ) -> AssociationView {
        AssociationView {
            streams: self.streams.insert(
                si,
                StreamView::fresh(
                    self.tcb.conf.side,
                    si,
                    self.tcb.conf.max_payload_size,
                    default_payload_type,
                ),
            ),
            stream_queue: if accept {
                self.stream_queue.push(si)
            } else {
                self.stream_queue
            },
            events: if accept {
                self.events.push(Event::Stream(StreamEvent::Opened))
            } else {
                self.events
            },
            ..self
        }
    }

    /// The association with a stream that the peer uses.
    #[verifier::opaque]
    pub open spec fn get_or_create_stream(self, si: StreamId) -> AssociationView {
        if self.streams.contains_key(si) {
            self
        } else {
            self.create_stream(si, true, PayloadProtocolIdentifier::Unknown)
        }
    }
}

impl Association {
    /// Opens a stream.
    pub fn open_stream(
        &mut self,
        stream_identifier: StreamId,
        default_payload_type: PayloadProtocolIdentifier,
    ) -> (r: Result<Stream<'_>, Error>)
        ensures
            match r {
                Ok(s) => {
                    &&& !old(self)@.streams.contains_key(stream_identifier)
                    &&& s.stream_identifier == stream_identifier
                    &&& s.association@ == old(self)@.create_stream(
                        stream_identifier,
                        false,
                        default_payload_type,
                    )
                    &&& old(self)@.wf() ==> s.association@.wf()
                    &&& *final(self) == *final(s.association)
                },
                Err(e) => {
                    &&& old(self)@.streams.contains_key(stream_identifier)
                    &&& e == Error::ErrStreamAlreadyExist
                    &&& *final(self) == *old(self)
                },
            },
    {
        broadcast use vstd::std_specs::hash::group_hash_axioms;

        if fx_contains_key(&self.streams, &stream_identifier) {
            return Err(Error::ErrStreamAlreadyExist);
        }
        Ok(self.create_stream(stream_identifier, false, default_payload_type))
    }

    /// Accepts a stream that the peer opened.
    pub fn accept_stream(&mut self) -> (r: Option<Stream<'_>>)
        ensures
            match r {
                Some(s) => {
                    &&& old(self)@.stream_queue.len() > 0
                    &&& s.stream_identifier == old(self)@.stream_queue[0]
                    &&& s.association@ == (AssociationView {
                        stream_queue: old(self)@.stream_queue.drop_first(),
                        ..old(self)@
                    })
                    &&& old(self)@.wf() ==> s.association@.wf()
                    &&& *final(self) == *final(s.association)
                },
                None => old(self)@.stream_queue.len() == 0 && final(self)@ == old(self)@,
            },
    {
        match self.stream_queue.pop_front() {
            Some(stream_identifier) => {
                assert(self@.stream_queue =~= old(self)@.stream_queue.drop_first());
                Some(Stream { stream_identifier, association: self })
            },
            None => None,
        }
    }

    /// A stream that is open.
    pub fn stream(&mut self, stream_identifier: StreamId) -> (r: Result<Stream<'_>, Error>)
        ensures
            match r {
                Ok(s) => {
                    &&& old(self)@.streams.contains_key(stream_identifier)
                    &&& s.stream_identifier == stream_identifier
                    &&& *s.association == *old(self)
                    &&& *final(self) == *final(s.association)
                },
                Err(e) => {
                    &&& !old(self)@.streams.contains_key(stream_identifier)
                    &&& e == Error::ErrStreamNotExisted
                    &&& *final(self) == *old(self)
                },
            },
    {
        broadcast use vstd::std_specs::hash::group_hash_axioms;

        if !fx_contains_key(&self.streams, &stream_identifier) {
            Err(Error::ErrStreamNotExisted)
        } else {
            Ok(Stream { stream_identifier, association: self })
        }
    }

    /// Forgets a stream.
    pub fn unregister_stream(&mut self, stream_identifier: StreamId)
        ensures
            final(self)@ == old(self)@.without_stream(stream_identifier),
            old(self)@.wf() ==> final(self)@.wf(),
    {
        broadcast use vstd::std_specs::hash::group_hash_axioms;

        let ghost m = self@.streams;
        if let Some(mut s) = fx_remove(&mut self.streams, &stream_identifier) {
            s.state = RecvSendState::Closed;
        }
        assert(self@.streams =~= m.remove(stream_identifier));
    }

    /// Adds a stream. Whether there is one of this number is left to the caller to find out.
    fn add_stream(
        &mut self,
        stream_identifier: StreamId,
        accept: bool,
        default_payload_type: PayloadProtocolIdentifier,
    )
        ensures
            final(self)@ == old(self)@.create_stream(
                stream_identifier,
                accept,
                default_payload_type,
            ),
            old(self)@.wf() ==> final(self)@.wf(),
    {
        broadcast use vstd::std_specs::hash::group_hash_axioms;

        reveal(AssociationView::create_stream);
        let ghost m = self@.streams;
        let s = StreamState::new(
            self.tcb.conf.side,
            stream_identifier,
            self.tcb.conf.max_payload_size,
            default_payload_type,
        );
        let ghost sv = s@;
        if accept {
            self.stream_queue.push_back(stream_identifier);
            self.events.push_back(Event::Stream(StreamEvent::Opened));
        }
        fx_insert(&mut self.streams, stream_identifier, s);
        assert(self@.streams =~= m.insert(stream_identifier, sv));
    }

    /// Creates a stream.
    pub fn create_stream(
        &mut self,
        stream_identifier: StreamId,
        accept: bool,
        default_payload_type: PayloadProtocolIdentifier,
    ) -> (s: Stream<'_>)
        ensures
            s.stream_identifier == stream_identifier,
            s.association@ == old(self)@.create_stream(
                stream_identifier,
                accept,
                default_payload_type,
            ),
            old(self)@.wf() ==> s.association@.wf(),
            *final(self) == *final(s.association),
    {
        self.add_stream(stream_identifier, accept, default_payload_type);
        Stream { stream_identifier, association: self }
    }

    /// The stream that the peer uses; one that does not exist yet is created.
    pub fn get_or_create_stream(&mut self, stream_identifier: StreamId) -> (s: Stream<'_>)
        ensures
            s.stream_identifier == stream_identifier,
            s.association@ == old(self)@.get_or_create_stream(stream_identifier),
            old(self)@.wf() ==> s.association@.wf(),
            *final(self) == *final(s.association),
    {
        broadcast use vstd::std_specs::hash::group_hash_axioms;

        reveal(AssociationView::get_or_create_stream);
        if !fx_contains_key(&self.streams, &stream_identifier) {
            self.add_stream(stream_identifier, true, PayloadProtocolIdentifier::Unknown);
        }
        Stream { stream_identifier, association: self }
    }

    /// How many bytes the peer may send.
    pub fn get_my_receiver_window_credit(&self) -> (r: u32)
        ensures
            r == self@.receiver_window_credit(),
    {
        broadcast use vstd::std_specs::hash::group_hash_axioms;

        reveal(AssociationView::receiver_window_credit);
        let ids = fx_keys16(&self.streams);
        assert(self.streams@.dom() =~= self@.streams.dom());
        let mut bytes_queued: u32 = 0;
        let mut k: usize = 0;
        while k < ids.len()
            invariant
                k <= ids.len(),
                ids@.to_set() == self.streams@.dom(),
                bytes_queued == queued_bytes(self@.streams, ids@, k as int),
            decreases ids.len() - k,
        {
            let si = ids[k];
            assert(ids@.to_set().contains(si)) by {
                assert(ids@.contains(ids@[k as int]));
            }
            assert(self.streams@.contains_key(si));
            if let Some(s) = fx_get(&self.streams, &si) {
                bytes_queued = bytes_queued.wrapping_add(s.get_num_bytes_in_reassembly_queue());
            }
            k += 1;
        }
        self.tcb.conf.max_receive_buffer_size.saturating_sub(bytes_queued)
    }
}

} // verus!
