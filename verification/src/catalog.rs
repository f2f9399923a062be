//! The catalog: the schemas of the tables by name.
use vstd::prelude::*;
use crate::catalog::schema::Schema;
use crate::error::Error;

pub mod schema;

verus! {

/// The tables of a database, each with its schema.
pub struct Catalog {
    names: Vec<String>,
    schemas: Vec<Schema>,
}

impl Catalog {
    /// The names of the tables, in the order in which they were created.
    pub closed spec fn names(&self) -> Seq<Seq<char>> {
        Seq::new(self.names@.len(), |i: int| self.names@[i]@)
    }

    /// The schemas of the tables, in the order of their names.
    pub closed spec fn schemas(&self) -> Seq<Schema> {
        self.schemas@
    }

    /// Each table has a schema and no name occurs twice.
    pub closed spec fn wf(&self) -> bool {
        &&& self.names@.len() == self.schemas@.len()
        &&& forall|i: int, j: int|
            0 <= i < j < self.names@.len() ==> self.names@[i]@ != self.names@[j]@
    }

    /// What the contracts say of the names and schemas.
    pub proof fn lemma_view(&self)
        requires
            self.wf(),
        ensures
            self.names().len() == self.schemas().len(),
            self.names().no_duplicates(),
    {
    }

    /// A catalog without tables.
    pub fn new() -> (r: Self)
        ensures
            r.wf(),
            r.names().len() == 0,
    {
        Catalog { names: Vec::new(), schemas: Vec::new() }
    }

    /// The position of the table `name`, if there is one.
    fn position(&self, name: &String) -> (r: Option<usize>)
        requires
            self.wf(),
        ensures
            match r {
                Some(i) => i < self.names().len() && self.names()[i as int] == name@,
                None => !self.names().contains(name@),
            },
    {
        let n: usize = self.names.len();
        let mut i: usize = 0;
        while i < n
            invariant
                n == self.names@.len(),
                i <= n,
                forall|j: int| 0 <= j < i ==> self.names()[j] != name@,
            decreases n - i,
        {
            if self.names[i] == *name {
                return Some(i);
            }
            i += 1;
        }
        None
    }

    /// The schema of the table `table_name`.
    pub fn get_table(&self, table_name: &str) -> (r: Result<&Schema, Error>)
        requires
            self.wf(),
        ensures
            match r {
                Ok(schema) => exists|i: int|
                    0 <= i < self.names().len() && self.names()[i] == table_name@ && *schema
                        == self.schemas()[i],
                Err(e) => e is NotFound && !self.names().contains(table_name@),
            },
    {
        let name = table_name.to_owned();
        match self.position(&name) {
            Some(i) => Ok(&self.schemas[i]),
            None => Err(Error::NotFound("table".to_owned())),
        }
    }

    /// Adds the table `table_name` with its schema. A name that is taken
    /// is refused.
    pub fn create_table(&mut self, table_name: String, schema: Schema) -> (r: Result<(), Error>)
        requires
            old(self).wf(),
        ensures
            final(self).wf(),
            match r {
                Ok(_) => !old(self).names().contains(table_name@) && final(self).names() == old(
                    self,
                ).names().push(table_name@) && final(self).schemas() == old(self).schemas().push(
                    schema,
                ),
                Err(e) => e is Corrupted && old(self).names().contains(table_name@) && final(self).names() == old(self).names() && final(self).schemas() == old(self).schemas(),
            },
    {
        match self.position(&table_name) {
            Some(_) => Err(Error::Corrupted("table name already exist.".to_owned())),
            None => {
                proof {
                    assert forall|i: int| 0 <= i < self.names@.len() implies self.names@[i]@
                        != table_name@ by {
                        assert(self.names()[i] == self.names@[i]@);
                    }
                }
                self.names.push(table_name);
                self.schemas.push(schema);
                assert(self.names() =~= old(self).names().push(table_name@));
                Ok(())
            },
        }
    }

    /// Takes the table `table_name` out of the catalog.
    pub fn drop_table(&mut self, table_name: &str) -> (r: Result<(), Error>)
        requires
            old(self).wf(),
        ensures
            final(self).wf(),
            match r {
                Ok(_) => exists|i: int|
                    0 <= i < old(self).names().len() && old(self).names()[i] == table_name@
                        && final(self).names() == old(self).names().remove(i) && final(self).schemas() == old(self).schemas().remove(i),
                Err(e) => e is NotFound && !old(self).names().contains(table_name@) && final(self).names() == old(self).names() && final(self).schemas() == old(self).schemas(),
            },
    {
        let name = table_name.to_owned();
        match self.position(&name) {
            Some(i) => {
                self.names.remove(i);
                self.schemas.remove(i);
                assert(self.names() =~= old(self).names().remove(i as int));
                Ok(())
            },
            None => Err(Error::NotFound("table".to_owned())),
        }
    }
}

} // verus!
