//! The catalog: what knows every table in a database and its schema.

use vstd::prelude::*;
use vstd::string::StringExecFns;
use crate::common::{CrustyError, TableSchema};
use crate::table::Table;

verus! {

/// The largest index of a table carrying the given id, if any; a later
/// table with the same id shadows an earlier one.
pub open spec fn table_index_of(tables: Seq<Table>, table_id: u64) -> Option<int>
    decreases tables.len(),
{
    if tables.len() == 0 {
        None
    } else if tables.last().id == table_id {
        Some(tables.len() - 1)
    } else {
        table_index_of(tables.drop_last(), table_id)
    }
}

/// A found index is in bounds and carries the id; an absent id is carried
/// by no table.
pub proof fn lemma_table_index_bounds(tables: Seq<Table>, table_id: u64)
    ensures
        match table_index_of(tables, table_id) {
            Some(i) => 0 <= i < tables.len() && tables[i].id == table_id,
            None => forall|j: int| 0 <= j < tables.len() ==> (#[trigger] tables[j]).id != table_id,
        },
    decreases tables.len(),
{
    if tables.len() > 0 && tables.last().id != table_id {
        lemma_table_index_bounds(tables.drop_last(), table_id);
        if table_index_of(tables, table_id) is None {
            assert forall|j: int| 0 <= j < tables.len() implies (#[trigger] tables[j]).id
                != table_id by {
                if j < tables.len() - 1 {
                    assert(tables.drop_last()[j] == tables[j]);
                }
            }
        }
    }
}

/// What a catalog offers: the tables of the database, and lookups of a
/// table's presence, schema and name by its id.
pub trait Catalog: Sized {
    /// The tables of the catalog, for specifications.
    spec fn spec_tables(&self) -> Seq<Table>;

    /// The tables of the catalog: names, ids and schemas.
    fn get_tables(&self) -> (r: Vec<(String, u64, TableSchema)>)
        ensures
            r@.len() == self.spec_tables().len(),
            forall|i: int|
                0 <= i < r@.len() ==> (#[trigger] r@[i]).0@ == self.spec_tables()[i].name@
                    && r@[i].1 == self.spec_tables()[i].id && r@[i].2@
                    == self.spec_tables()[i].schema@,
    ;

    /// Whether a table with the given id is in the catalog.
    fn is_valid_table(&self, table_id: u64) -> (r: bool)
        ensures
            r == (table_index_of(self.spec_tables(), table_id) is Some),
    {
        let tables = self.get_tables();
        let mut j: usize = tables.len();
        proof {
            assert(self.spec_tables().subrange(0, j as int) =~= self.spec_tables());
        }
        while j > 0
            invariant
                j <= tables@.len(),
                tables@.len() == self.spec_tables().len(),
                forall|i: int|
                    0 <= i < tables@.len() ==> (#[trigger] tables@[i]).1
                        == self.spec_tables()[i].id,
                table_index_of(self.spec_tables(), table_id) == table_index_of(
                    self.spec_tables().subrange(0, j as int),
                    table_id,
                ),
            decreases j,
        {
            j = j - 1;
            let ghost pre_sub = self.spec_tables().subrange(0, j as int + 1);
            proof {
                assert(pre_sub.drop_last() =~= self.spec_tables().subrange(0, j as int));
                assert(pre_sub.last() == self.spec_tables()[j as int]);
            }
            if tables[j].1 == table_id {
                proof {
                    lemma_table_index_bounds(self.spec_tables(), table_id);
                }
                return true;
            }
        }
        proof {
            assert(self.spec_tables().subrange(0, 0) =~= Seq::<Table>::empty());
        }
        false
    }

    /// Whether the table with the given id has a column of the given
    /// name. A missing table has no columns.
    fn is_valid_column(&self, table_id: u64, col_name: &str) -> (r: bool)
        ensures
            r == match table_index_of(self.spec_tables(), table_id) {
                Some(i) => self.spec_tables()[i].schema.spec_field_index(col_name@) is Some,
                None => false,
            },
    {
        match self.get_table_ptr(table_id) {
            Ok((_, _, schema)) => schema.get_field_index(col_name).is_some(),
            Err(_) => false,
        }
    }

    /// The schema of the table with the given id; a missing table is an
    /// error.
    fn get_table_schema(&self, table_id: u64) -> (r: Result<TableSchema, CrustyError>)
        ensures
            match table_index_of(self.spec_tables(), table_id) {
                Some(i) => (r matches Ok(s) && s@ == self.spec_tables()[i].schema@),
                None => r is Err,
            },
    {
        match self.get_table_ptr(table_id) {
            Ok((_, _, schema)) => Ok(schema),
            Err(e) => Err(e),
        }
    }

    /// The name of the table with the given id; a missing table is an
    /// error.
    fn get_table_name(&self, table_id: u64) -> (r: Result<String, CrustyError>)
        ensures
            match table_index_of(self.spec_tables(), table_id) {
                Some(i) => (r matches Ok(s) && s@ == self.spec_tables()[i].name@),
                None => r is Err,
            },
    {
        let tables = self.get_tables();
        let mut j: usize = tables.len();
        proof {
            assert(self.spec_tables().subrange(0, j as int) =~= self.spec_tables());
        }
        while j > 0
            invariant
                j <= tables@.len(),
                tables@.len() == self.spec_tables().len(),
                forall|i: int|
                    0 <= i < tables@.len() ==> (#[trigger] tables@[i]).1
                        == self.spec_tables()[i].id && tables@[i].0@
                        == self.spec_tables()[i].name@,
                table_index_of(self.spec_tables(), table_id) == table_index_of(
                    self.spec_tables().subrange(0, j as int),
                    table_id,
                ),
            decreases j,
        {
            j = j - 1;
            let ghost pre_sub = self.spec_tables().subrange(0, j as int + 1);
            proof {
                assert(pre_sub.drop_last() =~= self.spec_tables().subrange(0, j as int));
                assert(pre_sub.last() == self.spec_tables()[j as int]);
            }
            if tables[j].1 == table_id {
                let mut t = tables;
                let (name, _, _) = t.remove(j);
                return Ok(name);
            }
        }
        proof {
            assert(self.spec_tables().subrange(0, 0) =~= Seq::<Table>::empty());
        }
        Err(CrustyError::CrustyError(String::from_str("Table not found")))
    }

    /// The table with the given id, as name, id and schema; a missing
    /// table is an error. This is the lookup the other catalog questions
    /// go through.
    fn get_table_ptr(&self, table_id: u64) -> (r: Result<(String, u64, TableSchema), CrustyError>)
        ensures
            match table_index_of(self.spec_tables(), table_id) {
                Some(i) => (r matches Ok(t) && t.0@ == self.spec_tables()[i].name@ && t.1
                    == table_id && t.2@ == self.spec_tables()[i].schema@),
                None => r is Err,
            },
    {
        let tables = self.get_tables();
        let mut j: usize = tables.len();
        proof {
            assert(self.spec_tables().subrange(0, j as int) =~= self.spec_tables());
        }
        while j > 0
            invariant
                j <= tables@.len(),
                tables@.len() == self.spec_tables().len(),
                forall|i: int|
                    0 <= i < tables@.len() ==> (#[trigger] tables@[i]).0@
                        == self.spec_tables()[i].name@ && tables@[i].1
                        == self.spec_tables()[i].id && tables@[i].2@
                        == self.spec_tables()[i].schema@,
                table_index_of(self.spec_tables(), table_id) == table_index_of(
                    self.spec_tables().subrange(0, j as int),
                    table_id,
                ),
            decreases j,
        {
            j = j - 1;
            let ghost pre_sub = self.spec_tables().subrange(0, j as int + 1);
            proof {
                assert(pre_sub.drop_last() =~= self.spec_tables().subrange(0, j as int));
                assert(pre_sub.last() == self.spec_tables()[j as int]);
            }
            if tables[j].1 == table_id {
                proof {
                    assert(table_index_of(pre_sub, table_id) == Some(j as int));
                }
                let mut t = tables;
                let (name, id, schema) = t.remove(j);
                return Ok((name, id, schema));
            }
        }
        proof {
            assert(self.spec_tables().subrange(0, 0) =~= Seq::<Table>::empty());
        }
        Err(CrustyError::CrustyError(String::from_str("Table not found")))
    }
}

} // verus!
