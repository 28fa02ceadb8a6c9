//! An SCTP association.

pub mod create;
pub mod gather;
pub mod handshake;
pub mod inbound;
pub mod laws_abandon;
pub mod laws_agreement;
pub mod laws_congestion;
pub mod laws_deadlines;
pub mod laws_end;
pub mod laws_flight;
pub mod laws_gather;
pub mod laws_handshake;
pub mod laws_inflow;
pub mod laws_outflow;
pub mod laws_packets;
pub mod laws_progress;
pub mod laws_receive;
pub mod laws_release;
pub mod laws_resend;
pub mod laws_reset;
pub mod laws_sack;
pub mod laws_send;
pub mod laws_time;
pub mod lifecycle;
pub mod receive;
pub mod received;
pub mod resend;
pub mod sack;
pub mod send;
pub mod state;
pub mod stats;
pub mod stream;
pub mod streams;
pub mod timeout;
pub mod timer;
pub mod user;
pub mod view;
