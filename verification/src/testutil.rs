//! Helpers shared by the test suites: building tuples and schemas, a
//! deterministic page filler, and an order-blind byte-vector comparison.

use vstd::prelude::*;
use vstd::string::StringExecFns;
use crate::common::{Attribute, DataType, Field, TableSchema, Tuple};
use crate::heapstore::page::Page;
use crate::heapstore::storage_manager::StorageManager;
use crate::ids::{ContainerId, PageId, TransactionId};

verus! {

/// A tuple of integer fields, one per input value, in order.
pub fn int_vec_to_tuple(data: Vec<i32>) -> (t: Tuple)
    ensures
        t.field_vals@.len() == data@.len(),
        forall|i: int|
            0 <= i < data@.len() ==> #[trigger] t.field_vals@[i] == Field::IntField(data@[i]),
{
    let mut tuple_data: Vec<Field> = Vec::new();
    let mut i: usize = 0;
    while i < data.len()
        invariant
            i <= data@.len(),
            tuple_data@.len() == i,
            forall|j: int|
                0 <= j < i ==> #[trigger] tuple_data@[j] == Field::IntField(data@[j]),
        decreases data@.len() - i,
    {
        tuple_data.push(Field::IntField(data[i]));
        i = i + 1;
    }
    Tuple::new(tuple_data)
}

/// A tuple of integer fields for each row of input values.
pub fn create_tuple_list(tuple_data: Vec<Vec<i32>>) -> (ts: Vec<Tuple>)
    ensures
        ts@.len() == tuple_data@.len(),
{
    let mut tuples: Vec<Tuple> = Vec::new();
    let mut i: usize = 0;
    while i < tuple_data.len()
        invariant
            i <= tuple_data@.len(),
            tuples@.len() == i,
        decreases tuple_data@.len() - i,
    {
        let row = tuple_data[i].clone();
        tuples.push(int_vec_to_tuple(row));
        i = i + 1;
    }
    tuples
}

/// A schema of `width` integer attributes with empty names.
pub fn get_int_table_schema(width: usize) -> (s: TableSchema)
    ensures
        s@.len() == width,
        forall|i: int| 0 <= i < width ==> (#[trigger] s@[i]).dtype == DataType::Int,
{
    let mut attrs: Vec<Attribute> = Vec::new();
    let mut i: usize = 0;
    while i < width
        invariant
            i <= width,
            attrs@.len() == i,
            forall|j: int| 0 <= j < i ==> (#[trigger] attrs@[j]).dtype == DataType::Int,
        decreases width - i,
    {
        attrs.push(Attribute::new(String::new(), DataType::Int));
        i = i + 1;
    }
    TableSchema::new(attrs)
}

/// A deterministic byte vector of the given length; byte `i` depends on
/// `i` and the seed, so different seeds give different contents.
pub fn gen_byte_vec(n: usize, seed: u8) -> (r: Vec<u8>)
    ensures
        r@.len() == n,
{
    let mut out: Vec<u8> = Vec::new();
    let mut i: usize = 0;
    while i < n
        invariant
            out@.len() == i,
            i <= n,
        decreases n - i,
    {
        let b: u8 = (((i % 251) as u8)) ^ seed;
        out.push(b);
        i = i + 1;
    }
    out
}

/// How many occurrences of the byte string `x` the list holds.
pub open spec fn count_of(vs: Seq<Vec<u8>>, x: Seq<u8>) -> int
    decreases vs.len(),
{
    if vs.len() == 0 {
        0
    } else {
        (if vs.last()@ == x {
            1int
        } else {
            0int
        }) + count_of(vs.drop_last(), x)
    }
}

/// Count the occurrences of a byte string in a list of byte vectors.
fn count_occurrences(vs: &Vec<Vec<u8>>, x: &Vec<u8>) -> (r: usize)
    ensures
        r == count_of(vs@, x@),
{
    proof {
        lemma_count_of_bounds(vs@, x@);
    }
    let mut c: usize = 0;
    let n = vs.len();
    let mut j: usize = n;
    proof {
        assert(vs@.subrange(0, j as int) =~= vs@);
    }
    while j > 0
        invariant
            n == vs@.len(),
            j <= vs@.len(),
            c == count_of(vs@, x@) - count_of(vs@.subrange(0, j as int), x@),
            count_of(vs@.subrange(0, j as int), x@) >= 0,
            count_of(vs@.subrange(0, j as int), x@) <= count_of(vs@, x@),
            count_of(vs@, x@) <= vs@.len(),
        decreases j,
    {
        j = j - 1;
        let ghost pre_sub = vs@.subrange(0, j as int + 1);
        proof {
            assert(pre_sub.drop_last() =~= vs@.subrange(0, j as int));
            assert(pre_sub.last() == vs@[j as int]);
            lemma_count_of_bounds(vs@.subrange(0, j as int), x@);
        }
        let eq = byte_vecs_equal(&vs[j], x);
        if eq {
            proof {
                assert(count_of(pre_sub, x@) == 1 + count_of(vs@.subrange(0, j as int), x@));
                assert(c + 1 == count_of(vs@, x@) - count_of(vs@.subrange(0, j as int), x@));
                assert(c + 1 <= n);
            }
            c = c + 1;
        } else {
            proof {
                assert(count_of(pre_sub, x@) == count_of(vs@.subrange(0, j as int), x@));
            }
        }
    }
    proof {
        assert(vs@.subrange(0, 0) =~= Seq::<Vec<u8>>::empty());
    }
    c
}

/// A count is between zero and the list's length, and shrinking the list
/// never raises it.
proof fn lemma_count_of_bounds(vs: Seq<Vec<u8>>, x: Seq<u8>)
    ensures
        0 <= count_of(vs, x) <= vs.len(),
        vs.len() > 0 ==> count_of(vs.drop_last(), x) <= count_of(vs, x),
    decreases vs.len(),
{
    if vs.len() > 0 {
        lemma_count_of_bounds(vs.drop_last(), x);
    }
}

/// Whether two byte vectors hold the same bytes.
fn byte_vecs_equal(a: &Vec<u8>, b: &Vec<u8>) -> (r: bool)
    ensures
        r == (a@ == b@),
{
    if a.len() != b.len() {
        return false;
    }
    let mut i: usize = 0;
    while i < a.len()
        invariant
            i <= a@.len(),
            a@.len() == b@.len(),
            forall|j: int| 0 <= j < i ==> a@[j] == b@[j],
        decreases a@.len() - i,
    {
        if a[i] != b[i] {
            return false;
        }
        i = i + 1;
    }
    proof {
        assert(a@ =~= b@);
    }
    true
}

/// Whether two lists hold the same byte vectors with the same
/// multiplicities, in any order: they have the same length and every
/// byte string occurs equally often in both.
pub fn compare_unordered_byte_vecs(a: &Vec<Vec<u8>>, b: Vec<Vec<u8>>) -> (r: bool)
    ensures
        r == (a@.len() == b@.len() && forall|i: int|
            0 <= i < a@.len() ==> count_of(a@, (#[trigger] a@[i])@) == count_of(b@, a@[i]@)),
{
    if a.len() != b.len() {
        return false;
    }
    let mut i: usize = 0;
    while i < a.len()
        invariant
            i <= a@.len(),
            a@.len() == b@.len(),
            forall|j: int|
                0 <= j < i ==> count_of(a@, (#[trigger] a@[j])@) == count_of(b@, a@[j]@),
        decreases a@.len() - i,
    {
        let ca = count_occurrences(a, &a[i]);
        let cb = count_occurrences(&b, &a[i]);
        if ca != cb {
            return false;
        }
        i = i + 1;
    }
    true
}

/// Fill a container of the storage manager with `new_pages` fresh pages,
/// each holding `per_page` records of `size` bytes, written through page
/// by page starting at the current page count.
pub fn fill_hf_sm(
    sm: &mut StorageManager,
    container_id: ContainerId,
    new_pages: PageId,
    per_page: usize,
    size: usize,
    tid: TransactionId,
) -> (r: Result<(), crate::common::CrustyError>)
    requires
        old(sm).wf(),
    ensures
        final(sm).wf(),
{
    let mut p: PageId = 0;
    while p < new_pages
        invariant
            sm.wf(),
        decreases new_pages - p,
    {
        let num = match sm.get_num_pages(container_id) {
            Some(n) => n,
            None => {
                return Err(crate::common::CrustyError::CrustyError(
                    String::from_str("container not found"),
                ));
            },
        };
        if num == u16::MAX {
            return Err(crate::common::CrustyError::CrustyError(
                String::from_str("container is full"),
            ));
        }
        let mut page = Page::new(num);
        let mut k: usize = 0;
        while k < per_page
            invariant
                page.wf(),
            decreases per_page - k,
        {
            let bytes = gen_byte_vec(size, (k % 256) as u8);
            let _ = page.add_value(&bytes);
            k = k + 1;
        }
        match sm.write_page(container_id, page, tid) {
            Ok(()) => {},
            Err(e) => {
                return Err(e);
            },
        }
        p = p + 1;
    }
    Ok(())
}

} // verus!
