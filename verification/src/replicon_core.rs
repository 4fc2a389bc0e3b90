//! What the server and the clients share: the replication rules.

pub mod replication_rules;
pub mod wire;
