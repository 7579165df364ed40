//! NAT-traversal coordination core: a STUN binding codec with its
//! request handler, and the room-directory state machine of a
//! signaling service, together with the wire codec for its messages.
//!
//! Network listeners, sockets and timers live outside this crate; the
//! functions here are the parts of the service that decide and compute,
//! each with a verified contract.

pub mod protocol;
pub mod server;
pub mod types;
pub mod actor;
pub mod messages;
pub mod connection;
