//! Errors of the key/value service.
use vstd::prelude::*;

verus! {

/// Why the service did not take an operation.
#[derive(Clone, Copy, Debug, PartialEq, Eq, Structural)]
pub enum Error {
    /// The server asked does not lead; the client should try another.
    NoLeader,
}

impl Error {
    /// The error as text.
    pub fn message(&self) -> (s: &'static str)
        ensures
            s@ == "NoLeader"@,
    {
        proof {
            reveal_strlit("NoLeader");
        }
        "NoLeader"
    }
}

} // verus!
