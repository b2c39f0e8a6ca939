//! A room-scoped message relay core: a connection registry that owns all
//! room membership and fans broadcasts out to members, a per-connection
//! session state machine with liveness tracking, and the JSON wire codec
//! the two speak over.
//!
//! The registry and session logic is pure: operations return the deliveries
//! and actions they decide on as plain data, and the surrounding runtime
//! performs them against the network.

pub mod codec;
pub mod database;
pub mod models;
pub mod server;
pub mod session;

