//! Histories of operations and the models they are checked against.
pub mod model;
