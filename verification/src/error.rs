//! Error codes shared by the codec and the service registry.

use vstd::prelude::*;

verus! {

/// The reason an operation failed.
#[derive(Clone, Copy, Debug, PartialEq, Eq, Structural)]
pub enum ErrorCode {
    /// A structural violation: wrong container kind, a container that cannot
    /// be entered, a mandatory member that is absent, an unmatched variant tag.
    Invalid,
    /// A tag was present but was not of the kind required.
    TLVTypeMismatch,
    /// The writer has no room left.
    NoSpace,
    /// A service registration could not be changed.
    MdnsError,
}

/// An error, carrying its code.
#[derive(Clone, Copy, Debug, PartialEq, Eq, Structural)]
pub struct Error {
    pub code: ErrorCode,
}

impl Error {
    /// Builds the error with the given code.
    pub fn new(code: ErrorCode) -> (e: Error)
        ensures
            e.code == code,
    {
        Error { code }
    }

    /// The code this error carries.
    pub fn code(&self) -> (c: ErrorCode)
        ensures
            c == self.code,
    {
        self.code
    }
}

} // verus!
