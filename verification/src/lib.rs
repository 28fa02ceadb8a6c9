//! A sans-I/O SCTP association: packet codec, payload queues and the protocol
//! state machine, each with its behaviour stated and proved.

pub mod association;
pub mod buffer;
pub mod chunk;
pub mod config;
pub mod error;
pub mod fx;
pub mod keys;
pub mod packet;
pub mod packet_laws;
pub mod queue;
pub mod random;
pub mod shared;
pub mod text;
pub mod util;
pub mod util_laws;
