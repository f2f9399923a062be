//! The kinds of lock that the lock manager hands out.
use vstd::prelude::*;

verus! {

/// The kinds of lock on a resource.
#[derive(Debug)]
pub enum LockType {
    /// Shared lock.
    S,
    /// Exclusive lock.
    X,
    /// Intention shared lock.
    IS,
    /// Intention exclusive lock.
    IX,
    /// Shared intention exclusive lock.
    SIX,
    /// No lock held.
    NL,
}

} // verus!
