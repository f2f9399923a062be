//! What a table knows of itself.
use vstd::prelude::*;
use crate::catalog::schema::Schema;

verus! {

/// The metadata of a table.
pub struct TableMetadata {
    schema: Schema,
}

impl TableMetadata {
    /// The schema of the table.
    pub closed spec fn spec_schema(&self) -> Schema {
        self.schema
    }

    /// The metadata of a table with this schema.
    pub fn new(schema: Schema) -> (r: Self)
        ensures
            r.spec_schema() == schema,
    {
        Self { schema }
    }

    /// The schema of the table.
    pub fn get_schema(&self) -> (r: &Schema)
        ensures
            *r == self.spec_schema(),
    {
        &self.schema
    }
}

} // verus!
