//! Columns of values.
use vstd::prelude::*;

pub mod scalar;

verus! {

/// A conversion met a value of another type than it expected: the type
/// expected first, then the type found.
#[derive(Debug)]
pub struct TypeMismatch(pub &'static str, pub &'static str);

} // verus!
