//! The per-connection core of a capability-based RPC runtime: the question,
//! answer, import and export tables, the capability descriptor codec and the
//! message dispatcher, stated over plain values.
//!
//! - `tables`: the dense export table with compact id reuse, and the sparse import table.
//! - `error`: error kinds, and the decoding of exceptions received from the peer.
//! - `wire`: protocol messages, descriptors, targets, and paths through payload content.
//! - `client`: capability handles and promise state.
//! - `connection`: the connection state and its invariants.
//! - `codec`: writing and reading capability descriptors.
//! - `calls`: routing calls, sending requests, questions, bootstrap and pipelining.
//! - `resolve`: promise resolution with embargoes, releases of exports and imports.
//! - `dispatch`: handling each incoming message, returning results, disconnecting.
//! - `laws`: properties that relate several operations.

pub mod tables;
pub mod error;
pub mod wire;
pub mod client;
pub mod connection;
pub mod codec;
pub mod calls;
pub mod resolve;
pub mod dispatch;
pub mod laws;
