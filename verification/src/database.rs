//! A database: a name and the tables of its catalog.

use vstd::prelude::*;
use crate::catalog::Catalog;
use crate::common::TableSchema;
use crate::table::Table;

verus! {

/// A database: its name and its tables.
#[derive(Debug)]
pub struct Database {
    /// Name of the database.
    pub name: String,
    /// The tables of the database.
    pub tables: Vec<Table>,
}

impl Database {
    /// A new database with the given name and no tables.
    pub fn new(name: String) -> (db: Self)
        ensures
            db.name@ == name@,
            db.tables@.len() == 0,
    {
        Database { name, tables: Vec::new() }
    }

    /// Add a table to the catalog.
    pub fn add_table(&mut self, table: Table)
        ensures
            final(self).tables@ == old(self).tables@.push(table),
            final(self).name == old(self).name,
    {
        self.tables.push(table);
    }
}

impl Catalog for Database {
    /// The tables of the database.
    open spec fn spec_tables(&self) -> Seq<Table> {
        self.tables@
    }

    /// The tables of the database: names, ids and schemas.
    fn get_tables(&self) -> (r: Vec<(String, u64, TableSchema)>)
        ensures
            r@.len() == self.spec_tables().len(),
            forall|i: int|
                0 <= i < r@.len() ==> (#[trigger] r@[i]).0@ == self.spec_tables()[i].name@
                    && r@[i].1 == self.spec_tables()[i].id && r@[i].2@
                    == self.spec_tables()[i].schema@,
    {
        let mut out: Vec<(String, u64, TableSchema)> = Vec::new();
        let mut i: usize = 0;
        while i < self.tables.len()
            invariant
                i <= self.tables@.len(),
                out@.len() == i,
                forall|j: int|
                    0 <= j < i ==> (#[trigger] out@[j]).0@ == self.tables@[j].name@ && out@[j].1
                        == self.tables@[j].id && out@[j].2@ == self.tables@[j].schema@,
            decreases self.tables@.len() - i,
        {
            let name = self.tables[i].name.clone();
            let id = self.tables[i].id;
            let schema = self.tables[i].schema.clone();
            out.push((name, id, schema));
            i = i + 1;
        }
        out
    }
}

} // verus!
