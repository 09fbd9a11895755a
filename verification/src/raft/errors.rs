//! Errors of the Raft layer.
use vstd::prelude::*;

verus! {

/// Why a Raft operation did not happen.
#[derive(Clone, Copy, Debug, PartialEq, Eq, Structural)]
pub enum Error {
    /// The saved Raft state could not be decoded.
    Decode,
    /// A peer could not be reached.
    Rpc,
    /// The node does not believe it leads.
    NotLeader,
    /// The log has reached the largest index a `u64` can count.
    LogFull,
}

} // verus!
