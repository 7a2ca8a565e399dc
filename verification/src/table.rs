//! A table: its name, the identifier derived from the name, and its
//! schema.

use vstd::prelude::*;
use vstd::utf8::encode_utf8;
use crate::common::TableSchema;

verus! {

/// The FNV-1a hash of the first `i` bytes, folding each byte in with an
/// exclusive-or and a multiplication modulo two to the sixty-fourth.
pub open spec fn fnv1a_hash(bytes: Seq<u8>, i: int) -> u64
    decreases i,
{
    if i <= 0 {
        0xcbf29ce484222325u64
    } else {
        ((((fnv1a_hash(bytes, i - 1) ^ (bytes[i - 1] as u64)) as int) * 0x100000001b3)
            % 0x10000000000000000) as u64
    }
}

/// The identifier a table name hashes to: FNV-1a over its encoded bytes.
pub open spec fn spec_table_id(name: Seq<char>) -> u64 {
    fnv1a_hash(encode_utf8(name), encode_utf8(name).len() as int)
}

/// A table: the name, the id the name hashes to, and the schema.
#[derive(Debug)]
pub struct Table {
    /// Table name.
    pub name: String,
    /// Table id, derived from the name.
    pub id: u64,
    /// Table schema.
    pub schema: TableSchema,
}

impl Table {
    /// A new table with the given name and schema; the id is derived from
    /// the name.
    pub fn new(name: String, schema: TableSchema) -> (t: Self)
        ensures
            t.name@ == name@,
            t.id == spec_table_id(name@),
            t.schema@ == schema@,
    {
        let table_id = Table::get_table_id(name.as_str());
        Table { name, id: table_id, schema }
    }

    /// The identifier a table name hashes to, stable across processes:
    /// FNV-1a over the name's encoded bytes.
    pub fn get_table_id(name: &str) -> (r: u64)
        ensures
            r == spec_table_id(name@),
    {
        let bytes = name.as_bytes();
        let n = bytes.len();
        let mut h: u64 = 0xcbf29ce484222325;
        let mut i: usize = 0;
        while i < n
            invariant
                i <= n,
                n == bytes@.len(),
                bytes@ == vstd::string::StringSliceAdditionalSpecFns::spec_bytes(name),
                h == fnv1a_hash(bytes@, i as int),
            decreases n - i,
        {
            let x: u64 = h ^ (bytes[i] as u64);
            let wide: u128 = (x as u128) * 0x100000001b3u128;
            h = (wide % 0x10000000000000000u128) as u64;
            proof {
                assert(h == fnv1a_hash(bytes@, i as int + 1));
            }
            i = i + 1;
        }
        h
    }
}

} // verus!
