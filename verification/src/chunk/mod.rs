//! Chunks and their wire format.

pub mod codec;
pub mod header;
pub mod kinds;
pub mod laws;
pub mod layout;
pub mod param;
pub mod payload;
pub mod tlv;
