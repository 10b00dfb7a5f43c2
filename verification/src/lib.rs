//! A verified core for a minimal server speaking a Redis-like, line-oriented
//! wire protocol: the protocol value model and its byte-exact encoding, an
//! incremental builder that reassembles one value from a stream of line
//! fragments, an in-memory key-value store with lazy per-key expiry, and the
//! command engine that dispatches parsed requests against the store.
pub mod builder;
pub mod driver;
pub mod engine;
pub mod laws;
pub mod num;
pub mod resp;
pub mod store;
