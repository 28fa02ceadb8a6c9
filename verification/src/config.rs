//! Limits of an association.

use vstd::prelude::*;

verus! {

/// The size of the header of a packet.
pub const COMMON_HEADER_SIZE: u32 = 12;

/// The size of the header of a DATA chunk.
pub const DATA_CHUNK_HEADER_SIZE: u32 = 16;

/// What one end of an association offers to the other.
#[derive(Debug, Clone, Copy, PartialEq, Eq, Structural)]
pub struct TransportConfig {
    pub max_receive_buffer_size: u32,
    pub max_message_size: u32,
    pub max_num_outbound_streams: u16,
    pub max_num_inbound_streams: u16,
}

/// What a server allows; an association that is made with one is a server.
#[derive(Debug, Clone, Copy, PartialEq, Eq, Structural)]
pub struct ServerConfig {
    pub transport: TransportConfig,
}

impl TransportConfig {
    /// How many bytes may wait to be read.
    pub fn max_receive_buffer_size(&self) -> (r: u32)
        ensures
            r == self.max_receive_buffer_size,
    {
        self.max_receive_buffer_size
    }

    /// The size of the largest message.
    pub fn max_message_size(&self) -> (r: u32)
        ensures
            r == self.max_message_size,
    {
        self.max_message_size
    }

    /// How many streams may be opened.
    pub fn max_num_outbound_streams(&self) -> (r: u16)
        ensures
            r == self.max_num_outbound_streams,
    {
        self.max_num_outbound_streams
    }

    /// How many streams the peer may open.
    pub fn max_num_inbound_streams(&self) -> (r: u16)
        ensures
            r == self.max_num_inbound_streams,
    {
        self.max_num_inbound_streams
    }
}

} // verus!
