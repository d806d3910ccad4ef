//! An embedded key-value store backed by an append-only log.
//!
//! Mutations are serialized as self-describing binary documents and appended
//! to a single log; point lookups are answered from an in-memory index that
//! is rebuilt lazily by replaying the log. The store itself works on the
//! log's bytes; reading and writing the log file is left to the caller.

pub mod codec;
pub mod laws;
pub mod records;
pub mod store;
