//! The Raft consensus algorithm: persistent state, its byte encoding, the
//! node state machine and the service wrapper around it, and a model of a
//! whole cluster for election safety.
pub mod cluster;
pub mod codec;
pub mod errors;
pub mod laws;
pub mod messages;
pub mod node;
pub mod persister;
pub mod spec;
