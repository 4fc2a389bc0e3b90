//! Tick-windowed delta replication: the server-side change detection engine
//! and the tick acknowledgment and entity mapping protocol around it.

pub mod client;
pub mod entity;
pub mod lookup;
pub mod network_event;
pub mod replicon_core;
pub mod server;
pub mod storage;
pub mod tick;
