//! A single-node key/value store: an in-memory store, the engine
//! interface, the request protocol, the server's request handling and the
//! index of the log-structured store.
pub mod error;
pub mod common;
pub mod engine;
pub mod kv;
pub mod server;
pub mod log;
pub mod gens;
pub mod laws;
