//! What can be wrong with a page.
use vstd::prelude::*;

verus! {

/// An error of the page layer.
#[derive(Debug)]
pub enum PageError {
    /// A page of another kind than expected: the kind expected first, then
    /// the kind found.
    InvalidPage(String, String),
}

} // verus!
