use crustydb::catalog::Catalog;
use crustydb::common::{Attribute, CrustyError, DataType, Field, TableSchema, Tuple, PAGE_SIZE};
use crustydb::database::Database;
use crustydb::heapstore::storage_manager::StorageManager;
use crustydb::ids::{Permissions, TransactionId};
use crustydb::table::Table;
use crustydb::testutil::{compare_unordered_byte_vecs, get_int_table_schema, int_vec_to_tuple};

use rand::seq::SliceRandom;
use rand::thread_rng;
use rand::Rng;

fn get_random_byte_vec(n: usize) -> Vec<u8> {
    let random_bytes: Vec<u8> = (0..n).map(|_| rand::random::<u8>()).collect();
    random_bytes
}

fn get_random_vec_of_byte_vec(n: usize, min_size: usize, max_size: usize) -> Vec<Vec<u8>> {
    let mut res: Vec<Vec<u8>> = Vec::new();
    for _ in 0..n {
        res.push((min_size..max_size).map(|_| rand::random::<u8>()).collect());
    }
    res
}

#[test]
fn test_compare() {
    let mut rng = thread_rng();
    let a = get_random_vec_of_byte_vec(100, 10, 20);
    let b = a.clone();
    assert_eq!(true, compare_unordered_byte_vecs(&a, b));
    let mut b = a.clone();
    b.shuffle(&mut rng);
    assert_eq!(true, compare_unordered_byte_vecs(&a, b));
    let new_rand = get_random_vec_of_byte_vec(99, 10, 20);
    assert_eq!(false, compare_unordered_byte_vecs(&a, new_rand));
    let mut b = a.clone();
    b[rng.gen_range(0..a.len())] = get_random_byte_vec(10);
    assert_eq!(false, compare_unordered_byte_vecs(&a, b));
}

#[test]
fn test_schema_lookup() {
    let schema = TableSchema::from_vecs(
        vec!["a", "b", "c"],
        vec![DataType::Int, DataType::String, DataType::Int],
    );
    assert_eq!(3, schema.size());
    assert_eq!(Some(0), schema.get_field_index("a"));
    assert_eq!(Some(1), schema.get_field_index("b"));
    assert_eq!(None, schema.get_field_index("d"));
    assert!(schema.contains("c"));
    assert!(!schema.contains("z"));
    // 4 + 132 + 4 bytes
    assert_eq!(140, schema.byte_size());
    let attr = schema.get_attribute(1).unwrap();
    assert_eq!("b", attr.name());
    assert_eq!(&DataType::String, attr.dtype());
}

#[test]
fn test_tuple_fields() {
    let mut t = int_vec_to_tuple(vec![1, 2, 3]);
    assert_eq!(3, t.size());
    assert_eq!(Some(&Field::IntField(2)), t.get_field(1));
    assert_eq!(None, t.get_field(9));
    t.set_field(1, Field::IntField(7));
    assert_eq!(Some(&Field::IntField(7)), t.get_field(1));
    let u = int_vec_to_tuple(vec![4]);
    let m = t.merge(&u);
    assert_eq!(4, m.size());
    assert_eq!(Some(&Field::IntField(4)), m.get_field(3));
}

#[test]
fn test_field_to_bytes() {
    // a negative integer round-trips through its little-endian form
    let f = Field::IntField(-2);
    assert_eq!((-2i32).to_le_bytes().to_vec(), f.to_bytes());
    // a string carries an eight-byte length and 128 padded text bytes
    let s = Field::StringField(String::from("hi"));
    let b = s.to_bytes();
    assert_eq!(136, b.len());
    assert_eq!(2, u64::from_le_bytes(b[0..8].try_into().unwrap()));
    assert_eq!(b"hi", &b[8..10]);
    assert!(b[10..].iter().all(|x| *x == 0));
}

#[test]
fn test_field_unwrap() {
    let f = Field::IntField(42);
    assert_eq!(42, f.unwrap_int_field());
    let s = Field::StringField(String::from("x"));
    assert_eq!("x", s.unwrap_string_field());
}

#[test]
fn test_error_text() {
    let e = CrustyError::ValidationError(String::from("bad"));
    assert_eq!("Validation Error: bad", e.to_text());
    let e = CrustyError::CrustyError(String::from("oops"));
    assert_eq!("Crusty Error: oops", e.to_text());
    let e = CrustyError::IOError(String::from("disk gone"));
    assert_eq!("disk gone", e.to_text());
}

#[test]
fn test_table_id_deterministic() {
    let a = Table::get_table_id("users");
    let b = Table::get_table_id("users");
    let c = Table::get_table_id("orders");
    assert_eq!(a, b);
    assert_ne!(a, c);
    let t = Table::new(String::from("users"), get_int_table_schema(2));
    assert_eq!(a, t.id);
}

#[test]
fn test_catalog_lookup() {
    let mut db = Database::new(String::from("db"));
    let t1 = Table::new(String::from("users"), get_int_table_schema(2));
    let id1 = t1.id;
    db.add_table(t1);
    let t2 = Table::new(String::from("orders"), get_int_table_schema(3));
    let id2 = t2.id;
    db.add_table(t2);
    assert!(db.is_valid_table(id1));
    assert!(db.is_valid_table(id2));
    assert!(!db.is_valid_table(id1 ^ id2 ^ 1));
    assert_eq!("users", db.get_table_name(id1).unwrap());
    assert_eq!(3, db.get_table_schema(id2).unwrap().size());
    assert!(db.get_table_schema(id1 ^ id2 ^ 1).is_err());
    // columns come from the int schema, which has empty names
    assert!(db.is_valid_column(id1, ""));
    assert!(!db.is_valid_column(id1, "missing"));
}

#[test]
fn test_sm_insert_then_get() {
    // what goes in comes out, byte for byte
    let mut sm = StorageManager::new_test_sm();
    sm.create_container(3).unwrap();
    let tid = TransactionId::new();
    let b = get_random_byte_vec(100);
    let vid = sm.insert_value(3, b.clone(), tid).unwrap();
    assert_eq!(b, sm.get_value(vid, tid, Permissions::ReadOnly).unwrap());
}

#[test]
fn test_sm_oversized_record_rejected() {
    let mut sm = StorageManager::new_test_sm();
    sm.create_container(3).unwrap();
    let tid = TransactionId::new();
    let too_big = vec![0u8; PAGE_SIZE];
    match sm.insert_value(3, too_big, tid) {
        Err(CrustyError::ValidationError(_)) => {}
        _ => panic!("an oversized record must be rejected"),
    }
    // the largest representable record still goes in
    let just_fits = vec![7u8; PAGE_SIZE - 8 - 6];
    let vid = sm.insert_value(3, just_fits.clone(), tid).unwrap();
    assert_eq!(
        just_fits,
        sm.get_value(vid, tid, Permissions::ReadOnly).unwrap()
    );
}

#[test]
fn test_sm_missing_container_errors() {
    let mut sm = StorageManager::new_test_sm();
    let tid = TransactionId::new();
    match sm.insert_value(9, vec![1, 2], tid) {
        Err(CrustyError::CrustyError(_)) => {}
        _ => panic!("an unknown container must be rejected"),
    }
    let vid = crustydb::ids::ValueId::new_slot(9, 0, 0);
    match sm.get_value(vid, tid, Permissions::ReadOnly) {
        Err(CrustyError::ExecutionError(_)) => {}
        _ => panic!("reading from an unknown container must fail"),
    }
    // deleting a missing record silently succeeds
    assert!(sm.delete_value(vid, tid).is_ok());
}

#[test]
fn test_sm_update_moves_value() {
    let mut sm = StorageManager::new_test_sm();
    sm.create_container(1).unwrap();
    let tid = TransactionId::new();
    let v1 = sm.insert_value(1, vec![1, 1, 1], tid).unwrap();
    let v2 = sm.update_value(vec![2, 2], v1, tid).unwrap();
    assert_eq!(
        vec![2, 2],
        sm.get_value(v2, tid, Permissions::ReadOnly).unwrap()
    );
}

#[test]
fn test_sm_iterator_yields_inserted_set() {
    // a scan of a fresh container yields exactly what was inserted
    let mut sm = StorageManager::new_test_sm();
    sm.create_container(5).unwrap();
    let tid = TransactionId::new();
    let mut inserted: Vec<Vec<u8>> = Vec::new();
    for i in 0..7 {
        let b = get_random_byte_vec(300 + i * 10);
        sm.insert_value(5, b.clone(), tid).unwrap();
        inserted.push(b);
    }
    let mut iter = sm.get_iterator(5, tid, Permissions::ReadOnly).unwrap();
    let mut got: Vec<Vec<u8>> = Vec::new();
    while let Some(v) = iter.next() {
        got.push(v);
    }
    assert!(compare_unordered_byte_vecs(&inserted, got));
}

#[test]
fn test_sm_shutdown_restart_round_trip() {
    // persist through exported blocks and reattach on a fresh manager
    let mut sm = StorageManager::new_test_sm();
    sm.create_container(1).unwrap();
    sm.create_container(2).unwrap();
    let tid = TransactionId::new();
    let b1 = get_random_byte_vec(100);
    let b2 = get_random_byte_vec(300);
    let b3 = get_random_byte_vec(100);
    let v1 = sm.insert_value(1, b1.clone(), tid).unwrap();
    let v2 = sm.insert_value(1, b2.clone(), tid).unwrap();
    let v3 = sm.insert_value(2, b3.clone(), tid).unwrap();
    let v4 = sm.insert_value(1, b2.clone(), tid).unwrap();
    sm.delete_value(v4, tid).unwrap();
    sm.shutdown();

    let blocks1 = sm.export_container(1).unwrap();
    let blocks2 = sm.export_container(2).unwrap();
    let mut sm2 = StorageManager::new(String::new());
    sm2.attach_container(1, &blocks1).unwrap();
    sm2.attach_container(2, &blocks2).unwrap();
    assert_eq!(b1, sm2.get_value(v1, tid, Permissions::ReadOnly).unwrap());
    assert_eq!(b2, sm2.get_value(v2, tid, Permissions::ReadOnly).unwrap());
    assert_eq!(b3, sm2.get_value(v3, tid, Permissions::ReadOnly).unwrap());
    assert!(sm2.get_value(v4, tid, Permissions::ReadOnly).is_err());
}

#[test]
fn test_sm_remove_container() {
    let mut sm = StorageManager::new_test_sm();
    sm.create_container(1).unwrap();
    sm.create_container(2).unwrap();
    let tid = TransactionId::new();
    let keep = sm.insert_value(2, vec![9, 9], tid).unwrap();
    let gone = sm.insert_value(1, vec![1], tid).unwrap();
    sm.remove_container(1).unwrap();
    assert!(sm.get_value(gone, tid, Permissions::ReadOnly).is_err());
    assert_eq!(
        vec![9, 9],
        sm.get_value(keep, tid, Permissions::ReadOnly).unwrap()
    );
}

#[test]
fn test_write_page_visibility() {
    // a page written through is what the next fetch returns
    let mut sm = StorageManager::new_test_sm();
    sm.create_container(1).unwrap();
    let tid = TransactionId::new();
    sm.insert_value(1, vec![5; 32], tid).unwrap();
    let mut p = sm
        .get_page(1, 0, tid, Permissions::ReadOnly, false)
        .unwrap();
    p.add_value(&vec![6; 16]);
    let expected = p.get_bytes();
    sm.write_page(1, p, tid).unwrap();
    let q = sm
        .get_page(1, 0, tid, Permissions::ReadOnly, false)
        .unwrap();
    assert_eq!(expected, q.get_bytes());
}

#[test]
fn test_tuple_creation_helpers() {
    let t = int_vec_to_tuple(vec![0, 1, 0]);
    assert_eq!(3, t.size());
    let ts = crustydb::testutil::create_tuple_list(vec![vec![1, 2], vec![3, 4]]);
    assert_eq!(2, ts.len());
    assert_eq!(Some(&Field::IntField(4)), ts[1].get_field(1));
    let tuple = Tuple::new(vec![Field::IntField(1)]);
    assert_eq!(0, tuple.get_record_id().page_no);
    let attr = Attribute::new(String::from("n"), DataType::Int);
    assert_eq!(4, attr.get_byte_len());
}
