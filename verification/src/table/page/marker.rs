//! The kinds of page that a page reference can stand for. The types serve
//! as type parameters only.
use vstd::prelude::*;

verus! {

/// The reference stands for a header page.
pub enum Header {
    Mark,
}

/// The reference stands for a data page.
pub enum Data {
    Mark,
}

/// The reference stands for a page of either kind.
pub enum HeaderOrData {
    Mark,
}

} // verus!
