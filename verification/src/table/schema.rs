//! The schema of a table as its pages see it: the size of a record.
use vstd::prelude::*;

verus! {

/// The schema of a table.
#[derive(Debug)]
pub struct Schema {
    size: usize,
}

impl Schema {
    /// The size of a record as a specification value.
    pub closed spec fn spec_size(&self) -> usize {
        self.size
    }

    /// A schema whose records take `size` bytes.
    pub fn with_size(size: usize) -> (r: Self)
        ensures
            r.spec_size() == size,
    {
        Schema { size }
    }

    /// Adds a new field to the schema. Fields are not kept yet: the schema
    /// stays as it is.
    pub fn add(&mut self)
        ensures
            final(self).spec_size() == old(self).spec_size(),
    {
    }

    /// The size of a record.
    pub fn size(&self) -> (r: usize)
        ensures
            r == self.spec_size(),
    {
        self.size
    }
}

} // verus!
