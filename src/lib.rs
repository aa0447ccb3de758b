//! A small in-memory key-value store speaking a Redis-style wire protocol:
//! the wire codec, the two-table store with its command handlers, the
//! per-connection request loop over a byte buffer, and the replay of the
//! append-only command log.

pub mod message;
pub mod decode;
pub mod resp;
pub mod store;
pub mod handlers;
pub mod commands;
pub mod session;
pub mod aof;
pub mod writer;
