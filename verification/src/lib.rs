//! Verified building blocks of distributed storage: a Raft consensus node,
//! a fault-tolerant key/value service on top of it, a Percolator-style
//! transactional store, and a log-structured key/value engine.
pub mod kvraft;
pub mod kvs;
pub mod linearizability;
pub mod percolator;
pub mod raft;
