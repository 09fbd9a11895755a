//! A Percolator transaction store: a three-column table, a storage server
//! that runs the two-phase commit protocol on it, a timestamp oracle, and the
//! client side of a transaction.
pub mod client;
pub mod laws;
pub mod oracle;
pub mod storage;
pub mod table;
