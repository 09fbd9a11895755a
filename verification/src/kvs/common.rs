//! The requests a client sends and the responses a server answers with.
use vstd::prelude::*;

verus! {

/// A request to the server: read, write or remove a key.
#[derive(Debug)]
pub enum Request {
    Get { key: String },
    Put { key: String, value: String },
    Remove { key: String },
}

/// The answer to a `Get`: the value, if any, or the error text.
#[derive(Debug)]
pub enum GetResponse {
    Found(Option<String>),
    Failed(String),
}

/// The answer to a `Set`.
#[derive(Debug)]
pub enum SetResponse {
    Done,
    Failed(String),
}

/// The answer to a `Remove`.
#[derive(Debug)]
pub enum RemoveResponse {
    Done,
    Failed(String),
}

/// The answer to any request.
#[derive(Debug)]
pub enum Response {
    Get(Option<String>),
    Put,
    Remove,
    Failed(String),
}

} // verus!
