//! Single values of the column types.
use vstd::prelude::*;

verus! {

/// An owned value of one of the column types.
#[derive(Debug)]
pub enum ScalarImpl {
    Int16(i16),
    Int32(i32),
    Int64(i64),
    Bool(bool),
    String(String),
}

/// A borrowed value of one of the column types.
#[derive(Debug)]
pub enum ScalarRefImpl<'a> {
    Int16(i16),
    Int32(i32),
    Int64(i64),
    Bool(bool),
    String(&'a str),
}

impl ScalarImpl {
    /// The name of the type of the value.
    pub fn identifier(&self) -> (r: &'static str)
        ensures
            r@ == match *self {
                ScalarImpl::Int16(_) => "Int16"@,
                ScalarImpl::Int32(_) => "Int32"@,
                ScalarImpl::Int64(_) => "Int64"@,
                ScalarImpl::Bool(_) => "Bool"@,
                ScalarImpl::String(_) => "String"@,
            },
    {
        match self {
            ScalarImpl::Int16(_) => "Int16",
            ScalarImpl::Int32(_) => "Int32",
            ScalarImpl::Int64(_) => "Int64",
            ScalarImpl::Bool(_) => "Bool",
            ScalarImpl::String(_) => "String",
        }
    }
}

} // verus!
