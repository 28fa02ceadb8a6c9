//! Streams of an association.

use vstd::prelude::*;

use crate::chunk::payload::{ChunkPayloadData, DataView, PayloadProtocolIdentifier};
use crate::queue::reassembly_queue::{ReassemblyQueue, ReassemblyView};
use crate::shared::Side;

verus! {

/// The number of a stream.
pub type StreamId = u16;

/// Events of a stream.
#[derive(Debug, Clone, Copy, PartialEq, Eq, Structural)]
pub enum StreamEvent {
    /// The peer opened a stream.
    Opened,
    /// A message can be read.
    Readable {
        id: StreamId,
    },
    /// The amount of data that waits for acknowledgement fell to the threshold.
    BufferedAmountLow {
        id: StreamId,
    },
}

/// How hard the sender tries to deliver a message.
#[derive(Debug, Clone, Copy, PartialEq, Eq, Structural)]
pub enum ReliabilityType {
    /// Until it is acknowledged.
    Reliable,
    /// A number of times.
    Rexmit,
    /// For a number of milliseconds.
    Timed,
}

/// Which directions of a stream are open.
#[derive(Debug, Clone, Copy, PartialEq, Eq, Structural)]
pub enum RecvSendState {
    Closed,
    Readable,
    Writable,
    ReadWritable,
}

/// What an association keeps about a stream.
#[derive(Debug)]
pub struct StreamState {
    pub side: Side,
    pub max_payload_size: u32,
    pub stream_identifier: StreamId,
    pub default_payload_type: PayloadProtocolIdentifier,
    pub reassembly_queue: ReassemblyQueue,
    pub sequence_number: u16,
    pub state: RecvSendState,
    pub unordered: bool,
    pub reliability_type: ReliabilityType,
    pub reliability_value: u32,
    pub buffered_amount: usize,
    pub buffered_amount_low: usize,
}

/// The content of a [`StreamState`].
#[verifier::ext_equal]
pub struct StreamView {
    pub side: Side,
    pub max_payload_size: u32,
    pub stream_identifier: StreamId,
    pub default_payload_type: PayloadProtocolIdentifier,
    pub reassembly_queue: ReassemblyView,
    pub sequence_number: u16,
    pub state: RecvSendState,
    pub unordered: bool,
    pub reliability_type: ReliabilityType,
    pub reliability_value: u32,
    pub buffered_amount: usize,
    pub buffered_amount_low: usize,
}

impl View for StreamState {
    type V = StreamView;

    open spec fn view(&self) -> StreamView {
        StreamView {
            side: self.side,
            max_payload_size: self.max_payload_size,
            stream_identifier: self.stream_identifier,
            default_payload_type: self.default_payload_type,
            reassembly_queue: self.reassembly_queue@,
            sequence_number: self.sequence_number,
            state: self.state,
            unordered: self.unordered,
            reliability_type: self.reliability_type,
            reliability_value: self.reliability_value,
            buffered_amount: self.buffered_amount,
            buffered_amount_low: self.buffered_amount_low,
        }
    }
}

impl StreamView {
    /// A new stream: nothing sent, nothing received, reliable and ordered.
    pub open spec fn fresh(
        side: Side,
        stream_identifier: StreamId,
        max_payload_size: u32,
        default_payload_type: PayloadProtocolIdentifier,
    ) -> StreamView {
        StreamView {
            side,
            max_payload_size,
            stream_identifier,
            default_payload_type,
            reassembly_queue: ReassemblyView::empty(stream_identifier),
            sequence_number: 0,
            state: RecvSendState::ReadWritable,
            unordered: false,
            reliability_type: ReliabilityType::Reliable,
            reliability_value: 0,
            buffered_amount: 0,
            buffered_amount_low: 0,
        }
    }

    /// The stream with a chunk received.
    pub open spec fn handle_data(self, c: DataView) -> StreamView {
        StreamView { reassembly_queue: self.reassembly_queue.push(c), ..self }
    }

    /// The stream with the incomplete ordered messages up to `ssn` skipped.
    pub open spec fn forward_ordered(self, ssn: u16) -> StreamView {
        if self.unordered {
            self
        } else {
            StreamView { reassembly_queue: self.reassembly_queue.forward_ordered(ssn), ..self }
        }
    }

    /// The stream with the fragments of incomplete unordered messages up to `tsn` skipped.
    pub open spec fn forward_unordered(self, tsn: u32) -> StreamView {
        if self.unordered {
            StreamView { reassembly_queue: self.reassembly_queue.forward_unordered(tsn), ..self }
        } else {
            self
        }
    }

    /// The stream after the peer acknowledged `n` bytes.
    pub open spec fn buffer_released(self, n: u64) -> StreamView {
        StreamView {
            buffered_amount: if self.buffered_amount < n {
                0
            } else {
                (self.buffered_amount - n) as usize
            },
            ..self
        }
    }

    /// Whether the buffered amount falls to the threshold with `n` bytes acknowledged.
    pub open spec fn becomes_low(self, n: u64) -> bool {
        n > 0 && self.buffered_amount > self.buffered_amount_low && self.buffer_released(
            n,
        ).buffered_amount <= self.buffered_amount_low
    }
}

impl StreamState {
    /// A new stream.
    pub fn new(
        side: Side,
        stream_identifier: StreamId,
        max_payload_size: u32,
        default_payload_type: PayloadProtocolIdentifier,
    ) -> (r: Self)
        ensures
            r@ == StreamView::fresh(
                side,
                stream_identifier,
                max_payload_size,
                default_payload_type,
            ),
    {
        StreamState {
            side,
            stream_identifier,
            max_payload_size,
            default_payload_type,
            reassembly_queue: ReassemblyQueue::new(stream_identifier),
            sequence_number: 0,
            state: RecvSendState::ReadWritable,
            unordered: false,
            reliability_type: ReliabilityType::Reliable,
            reliability_value: 0,
            buffered_amount: 0,
            buffered_amount_low: 0,
        }
    }

    /// Receives a chunk.
    pub fn handle_data(&mut self, pd: &ChunkPayloadData)
        ensures
            final(self)@ == old(self)@.handle_data(pd@),
    {
        self.reassembly_queue.push(pd.clone());
    }

    /// Skips the incomplete ordered messages up to `ssn`.
    pub fn handle_forward_tsn_for_ordered(&mut self, ssn: u16)
        ensures
            final(self)@ == old(self)@.forward_ordered(ssn),
    {
        if self.unordered {
            return;
        }
        self.reassembly_queue.forward_tsn_for_ordered(ssn);
    }

    /// Skips the fragments of incomplete unordered messages up to `new_cumulative_tsn`.
    pub fn handle_forward_tsn_for_unordered(&mut self, new_cumulative_tsn: u32)
        ensures
            final(self)@ == old(self)@.forward_unordered(new_cumulative_tsn),
    {
        if !self.unordered {
            return;
        }
        self.reassembly_queue.forward_tsn_for_unordered(new_cumulative_tsn);
    }

    /// Takes acknowledged bytes off the buffered amount; returns whether it falls to the
    /// threshold.
    pub fn on_buffer_released(&mut self, n_bytes_released: u64) -> (r: bool)
        ensures
            r == old(self)@.becomes_low(n_bytes_released),
            final(self)@ == old(self)@.buffer_released(n_bytes_released),
    {
        if n_bytes_released == 0 {
            return false;
        }
        let from_amount = self.buffered_amount;
        self.buffered_amount = if (from_amount as u64) < n_bytes_released {
            0
        } else {
            from_amount - (n_bytes_released as usize)
        };
        from_amount > self.buffered_amount_low && self.buffered_amount <= self.buffered_amount_low
    }

    /// The number of bytes that wait to be read, modulo 2^32.
    pub fn get_num_bytes_in_reassembly_queue(&self) -> (r: u32)
        ensures
            r == self@.reassembly_queue.n_bytes,
    {
        self.reassembly_queue.get_num_bytes()
    }
}

} // verus!
