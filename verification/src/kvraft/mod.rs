//! A fault-tolerant key/value service replicated with Raft: the layouts of
//! commands and snapshots, the state machine, the server and its clerk, and
//! the checks on concurrent appends.
pub mod checks;
pub mod client;
pub mod codec;
pub mod command;
pub mod errors;
pub mod laws;
pub mod server;
pub mod state;
