//! The keys of the index: values with a total order given by an integer rank.
use vstd::prelude::*;

verus! {

/// A key of the index. Keys are ordered by their rank, and two keys of the
/// same rank are the same key to the index.
pub trait Key: Copy {
    /// The position of the key in the total order.
    spec fn rank(&self) -> int;

    /// Whether `self` comes strictly before `other`.
    fn less(&self, other: &Self) -> (b: bool)
        ensures
            b == (self.rank() < other.rank()),
    ;
}

impl Key for u32 {
    open spec fn rank(&self) -> int {
        *self as int
    }

    fn less(&self, other: &Self) -> (b: bool) {
        *self < *other
    }
}

impl Key for u64 {
    open spec fn rank(&self) -> int {
        *self as int
    }

    fn less(&self, other: &Self) -> (b: bool) {
        *self < *other
    }
}

impl Key for usize {
    open spec fn rank(&self) -> int {
        *self as int
    }

    fn less(&self, other: &Self) -> (b: bool) {
        *self < *other
    }
}

impl Key for i32 {
    open spec fn rank(&self) -> int {
        *self as int
    }

    fn less(&self, other: &Self) -> (b: bool) {
        *self < *other
    }
}

impl Key for i64 {
    open spec fn rank(&self) -> int {
        *self as int
    }

    fn less(&self, other: &Self) -> (b: bool) {
        *self < *other
    }
}

} // verus!
