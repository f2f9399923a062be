//! The schema of a table as the catalog keeps it.
use vstd::prelude::*;

verus! {

/// The number of a column.
pub type ColumnId = u16;

/// The schema of a table: the indexes that are defined on it.
pub struct Schema {
    indices: Vec<TableIndex>,
}

/// An index on some columns of a table.
pub struct TableIndex {
    /// Index name.
    pub name: String,
    /// The column id corresponding to the index.
    pub cols: Vec<ColumnId>,
}

impl Schema {
    /// The indexes of the table.
    pub closed spec fn view(&self) -> Seq<TableIndex> {
        self.indices@
    }

    /// A schema with these indexes.
    pub fn new(indices: Vec<TableIndex>) -> (r: Self)
        ensures
            r@ == indices@,
    {
        Schema { indices }
    }

    /// Adds a new field to the schema. Fields are not kept yet: the schema
    /// stays as it is.
    pub fn add(&mut self)
        ensures
            final(self)@ == old(self)@,
    {
    }

    /// Returns all indicies associated table.
    pub fn get_indcies(&self) -> (r: &[TableIndex])
        ensures
            r@ == self@,
    {
        self.indices.as_slice()
    }
}

} // verus!
