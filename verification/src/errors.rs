//! The error taxonomy shared by the store, the codec and the synchronizers.

use vstd::prelude::*;

verus! {

/// Why an operation failed.
#[derive(Clone, Copy, Debug, PartialEq, Eq, Structural)]
pub enum ErrorKind {
    /// A referenced event, blob or directory does not exist.
    NotFound,
    /// A persisted record or snapshot cannot be decoded.
    InvalidData,
    /// A path lacks a parent where one is required.
    InvalidInput,
    /// A safety check refused to overwrite changed state.
    AlreadyExists,
}

} // verus!
