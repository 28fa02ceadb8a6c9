//! Queues of DATA chunks.

pub mod payload_history;
pub mod payload_laws;
pub mod payload_marks;
pub mod payload_queue;
pub mod pending_queue;
pub mod reassembly_counts;
pub mod reassembly_laws;
pub mod reassembly_queue;
