//! DATA chunks.

use bytes::Bytes;
use vstd::prelude::*;

use crate::buffer::{bytes_clone, bytes_new, bytes_view};

verus! {

/// A point in time: nanoseconds on a clock that never goes back.
pub type Instant = u64;

/// Nanoseconds in a millisecond.
pub const NANOS_PER_MILLI: u64 = 1_000_000;

/// The whole milliseconds from `since` to `now`; none if `since` lies behind `now`.
#[verifier::opaque]
pub open spec fn millis_between(since: Instant, now: Instant) -> u64 {
    if now >= since {
        ((now - since) / NANOS_PER_MILLI as int) as u64
    } else {
        0
    }
}

/// The whole milliseconds from `since` to `now`.
pub fn elapsed_millis(since: Instant, now: Instant) -> (r: u64)
    ensures
        r == millis_between(since, now),
{
    reveal(millis_between);
    if now >= since {
        (now - since) / NANOS_PER_MILLI
    } else {
        0
    }
}

/// The protocol that user data belongs to.
#[derive(Debug, Clone, Copy, PartialEq, Eq, Structural)]
pub enum PayloadProtocolIdentifier {
    /// Data channel establishment
    Dcep,
    /// Text
    String,
    /// Binary data
    Binary,
    /// Empty text
    StringEmpty,
    /// Empty binary data
    BinaryEmpty,
    /// Anything else
    Unknown,
}

impl Default for PayloadProtocolIdentifier {
    fn default() -> (r: Self)
        ensures
            r == PayloadProtocolIdentifier::Unknown,
    {
        PayloadProtocolIdentifier::Unknown
    }
}

impl PayloadProtocolIdentifier {
    /// The number that stands for the identifier on the wire.
    pub open spec fn code(self) -> u32 {
        match self {
            PayloadProtocolIdentifier::Dcep => 50,
            PayloadProtocolIdentifier::String => 51,
            PayloadProtocolIdentifier::Binary => 53,
            PayloadProtocolIdentifier::StringEmpty => 56,
            PayloadProtocolIdentifier::BinaryEmpty => 57,
            PayloadProtocolIdentifier::Unknown => 58,
        }
    }

    /// The identifier that a number on the wire stands for.
    pub open spec fn of_code(x: u32) -> PayloadProtocolIdentifier {
        if x == 50 {
            PayloadProtocolIdentifier::Dcep
        } else if x == 51 {
            PayloadProtocolIdentifier::String
        } else if x == 53 {
            PayloadProtocolIdentifier::Binary
        } else if x == 56 {
            PayloadProtocolIdentifier::StringEmpty
        } else if x == 57 {
            PayloadProtocolIdentifier::BinaryEmpty
        } else {
            PayloadProtocolIdentifier::Unknown
        }
    }

    /// The number on the wire.
    pub fn to_u32(self) -> (r: u32)
        ensures
            r == self.code(),
    {
        match self {
            PayloadProtocolIdentifier::Dcep => 50,
            PayloadProtocolIdentifier::String => 51,
            PayloadProtocolIdentifier::Binary => 53,
            PayloadProtocolIdentifier::StringEmpty => 56,
            PayloadProtocolIdentifier::BinaryEmpty => 57,
            PayloadProtocolIdentifier::Unknown => 58,
        }
    }

    /// The identifier of a number on the wire.
    pub fn from_u32(x: u32) -> (r: PayloadProtocolIdentifier)
        ensures
            r == PayloadProtocolIdentifier::of_code(x),
    {
        if x == 50 {
            PayloadProtocolIdentifier::Dcep
        } else if x == 51 {
            PayloadProtocolIdentifier::String
        } else if x == 53 {
            PayloadProtocolIdentifier::Binary
        } else if x == 56 {
            PayloadProtocolIdentifier::StringEmpty
        } else if x == 57 {
            PayloadProtocolIdentifier::BinaryEmpty
        } else {
            PayloadProtocolIdentifier::Unknown
        }
    }
}

/// A DATA chunk, with what its sender keeps about it.
#[derive(Debug)]
pub struct ChunkPayloadData {
    pub unordered: bool,
    pub beginning_fragment: bool,
    pub ending_fragment: bool,
    pub immediate_sack: bool,
    pub tsn: u32,
    pub stream_identifier: u16,
    pub stream_sequence_number: u16,
    pub payload_type: PayloadProtocolIdentifier,
    pub user_data: Bytes,
    /// Whether the peer acknowledged this chunk.
    pub acked: bool,
    /// How often the peer reported this chunk missing.
    pub miss_indicator: u32,
    /// When the chunk was sent first.
    pub since: Option<Instant>,
    /// How often the chunk was sent.
    pub nsent: u32,
    /// Whether the sender gave the chunk up.
    pub abandoned: bool,
    /// Whether all fragments of the message are in flight.
    pub all_inflight: bool,
    /// Whether the chunk waits to be sent again.
    pub retransmit: bool,
}

/// The content of a [`ChunkPayloadData`].
#[verifier::ext_equal]
pub struct DataView {
    pub unordered: bool,
    pub beginning_fragment: bool,
    pub ending_fragment: bool,
    pub immediate_sack: bool,
    pub tsn: u32,
    pub stream_identifier: u16,
    pub stream_sequence_number: u16,
    pub payload_type: PayloadProtocolIdentifier,
    pub user_data: Seq<u8>,
    pub acked: bool,
    pub miss_indicator: u32,
    pub since: Option<Instant>,
    pub nsent: u32,
    pub abandoned: bool,
    pub all_inflight: bool,
    pub retransmit: bool,
}

impl View for ChunkPayloadData {
    type V = DataView;

    open spec fn view(&self) -> DataView {
        DataView {
            unordered: self.unordered,
            beginning_fragment: self.beginning_fragment,
            ending_fragment: self.ending_fragment,
            immediate_sack: self.immediate_sack,
            tsn: self.tsn,
            stream_identifier: self.stream_identifier,
            stream_sequence_number: self.stream_sequence_number,
            payload_type: self.payload_type,
            user_data: bytes_view(self.user_data),
            acked: self.acked,
            miss_indicator: self.miss_indicator,
            since: self.since,
            nsent: self.nsent,
            abandoned: self.abandoned,
            all_inflight: self.all_inflight,
            retransmit: self.retransmit,
        }
    }
}

impl DataView {
    /// An empty chunk of stream 0.
    pub open spec fn blank() -> DataView {
        DataView {
            unordered: false,
            beginning_fragment: false,
            ending_fragment: false,
            immediate_sack: false,
            tsn: 0,
            stream_identifier: 0,
            stream_sequence_number: 0,
            payload_type: PayloadProtocolIdentifier::Unknown,
            user_data: seq![],
            acked: false,
            miss_indicator: 0,
            since: None,
            nsent: 0,
            abandoned: false,
            all_inflight: false,
            retransmit: false,
        }
    }

    /// What of the chunk travels to the peer: nothing of what its sender keeps about it.
    pub open spec fn wire(self) -> DataView {
        DataView {
            acked: false,
            miss_indicator: 0,
            since: None,
            nsent: 0,
            abandoned: false,
            all_inflight: false,
            retransmit: false,
            ..self
        }
    }

    /// Whether the chunk is given up: the sender gave it up and all of its message is in flight.
    pub open spec fn given_up(self) -> bool {
        self.abandoned && self.all_inflight
    }
}

impl Default for ChunkPayloadData {
    fn default() -> (r: Self)
        ensures
            r@ == DataView::blank(),
    {
        ChunkPayloadData {
            unordered: false,
            beginning_fragment: false,
            ending_fragment: false,
            immediate_sack: false,
            tsn: 0,
            stream_identifier: 0,
            stream_sequence_number: 0,
            payload_type: PayloadProtocolIdentifier::Unknown,
            user_data: bytes_new(),
            acked: false,
            miss_indicator: 0,
            since: None,
            nsent: 0,
            abandoned: false,
            all_inflight: false,
            retransmit: false,
        }
    }
}

impl Clone for ChunkPayloadData {
    fn clone(&self) -> (r: Self)
        ensures
            r@ == self@,
    {
        ChunkPayloadData {
            unordered: self.unordered,
            beginning_fragment: self.beginning_fragment,
            ending_fragment: self.ending_fragment,
            immediate_sack: self.immediate_sack,
            tsn: self.tsn,
            stream_identifier: self.stream_identifier,
            stream_sequence_number: self.stream_sequence_number,
            payload_type: self.payload_type,
            user_data: bytes_clone(&self.user_data),
            acked: self.acked,
            miss_indicator: self.miss_indicator,
            since: self.since,
            nsent: self.nsent,
            abandoned: self.abandoned,
            all_inflight: self.all_inflight,
            retransmit: self.retransmit,
        }
    }
}

impl ChunkPayloadData {
    /// Whether the chunk is given up.
    pub fn abandoned(&self) -> (r: bool)
        ensures
            r == self@.given_up(),
    {
        self.abandoned && self.all_inflight
    }

    /// Gives the chunk up, or takes that back.
    pub fn set_abandoned(&mut self, abandoned: bool)
        ensures
            final(self)@ == (DataView { abandoned, ..old(self)@ }),
    {
        self.abandoned = abandoned;
    }

    /// Records, on the last fragment of a message, that all of the message is in flight.
    pub fn set_all_inflight(&mut self)
        ensures
            final(self)@ == (DataView {
                all_inflight: old(self)@.all_inflight || old(self)@.ending_fragment,
                ..old(self)@
            }),
    {
        if self.ending_fragment {
            self.all_inflight = true;
        }
    }
}

/// The contents of a vector of chunks.
pub open spec fn data_views(cs: Seq<ChunkPayloadData>) -> Seq<DataView> {
    cs.map_values(|c: ChunkPayloadData| c@)
}

/// Takes the chunk at `i` out.
pub fn remove_chunk(v: &mut Vec<ChunkPayloadData>, i: usize) -> (r: ChunkPayloadData)
    requires
        i < old(v).len(),
    ensures
        r@ == data_views(old(v)@)[i as int],
        data_views(final(v)@) == data_views(old(v)@).remove(i as int),
        final(v).len() == old(v).len() - 1,
{
    let r = v.remove(i);
    assert(data_views(v@) =~= data_views(old(v)@).remove(i as int));
    r
}

} // verus!
