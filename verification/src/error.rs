//! The error kinds that the storage engine reports.
use vstd::prelude::*;

verus! {

/// What went wrong in a storage operation.
#[derive(Debug)]
pub enum Error {
    /// An allocation found no available slot, an id was already present, or
    /// a structural inconsistency was detected.
    Corrupted(String),
    /// The input was malformed.
    Invalid(String),
    /// The requested size cannot be served.
    TooLargeSize,
    /// An unknown table, partition or page was referenced.
    NotFound(String),
}

impl Error {
    /// Whether this is the `Corrupted` kind.
    pub fn is_corrupted(&self) -> (r: bool)
        ensures
            r == (*self is Corrupted),
    {
        match self {
            Error::Corrupted(_) => true,
            _ => false,
        }
    }

    /// Whether this is the `NotFound` kind.
    pub fn is_not_found(&self) -> (r: bool)
        ensures
            r == (*self is NotFound),
    {
        match self {
            Error::NotFound(_) => true,
            _ => false,
        }
    }

    /// Whether this is the `Invalid` kind.
    pub fn is_invalid(&self) -> (r: bool)
        ensures
            r == (*self is Invalid),
    {
        match self {
            Error::Invalid(_) => true,
            _ => false,
        }
    }
}

} // verus!
