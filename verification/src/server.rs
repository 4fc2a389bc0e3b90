//! The server side: change detection and what is kept per client.

pub mod acked_ticks;
pub mod change_detection;
pub mod removal_tracker;
pub mod replication_message;
