//! The event relay: application events that travel between a client and the
//! server beside the replicated state.

pub mod client_event;
