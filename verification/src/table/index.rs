//! The ordered index: a B+ tree with fixed-fanout nodes.
use vstd::prelude::*;

pub mod btree;
pub mod btree_builder;
pub mod key;
pub mod node;
pub mod order;
pub mod range;
pub mod span;
pub mod store;

verus! {

/// The fanout parameter of the tree.
pub const B: usize = 6;

/// The number of keys that a node holds while an insert is in flight.
pub const CAPACITY: usize = 2 * B - 1;

/// The fewest keys that a node other than the root holds.
pub const MIN_LEN_AFTER_SPLIT: usize = B - 1;

/// The most keys that a node holds between operations: one slot stays free
/// so that an insert in place is always possible before a split.
pub const MAX_LEN: usize = CAPACITY - 1;

} // verus!
