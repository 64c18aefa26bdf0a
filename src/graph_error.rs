//! The errors that the graph service reports.
use vstd::prelude::*;

verus! {

/// Why an operation of the graph service failed.
#[derive(Debug)]
pub enum GraphError {
    GraphNotFound(String),
    GraphAlreadyExists(String),
    NodeNotFound(u64),
    NodeAlreadyExists(u64),
    EdgeNotFound(u64),
    EdgeAlreadyExists(u64),
    InvalidOperation(String),
    StorageError(String),
    MethodNotSupported(String),
    UnsupportedOperation(String),
    InvalidQuery(String),
}

} // verus!
