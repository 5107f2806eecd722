//! The two ways in which a store operation can fail.

use vstd::prelude::*;

verus! {

/// A failed store operation.
#[derive(Debug)]
pub enum Error {
    /// The document, value or bitmap entry asked for is absent.
    NotFound,
    /// The operation was aborted: storage failure, corrupt bytes, or a
    /// transaction that could not be committed.
    InternalError(String),
}

impl Error {
    /// Whether the caller may recover by supplying a default.
    pub fn is_not_found(&self) -> (r: bool)
        ensures
            r == (self is NotFound),
    {
        match self {
            Error::NotFound => true,
            Error::InternalError(_) => false,
        }
    }
}

} // verus!
