use crustydb::common::{QueryResult, PAGE_SLOTS};
use crustydb::heapstore::storage_manager::StorageManager;
use crustydb::ids::{Permissions, TransactionId, ValueId};
use crustydb::logical_plan::logical_op::{AggOp, FieldIdentifier};

#[test]
fn test_query_result_text() {
    let r = QueryResult::empty();
    assert_eq!("", r.result());
    let r = QueryResult::new("two rows");
    assert_eq!("two rows", r.result());
}

#[test]
fn test_field_identifier_aliases() {
    let f = FieldIdentifier::new("t", "c");
    assert_eq!("t", f.table());
    assert_eq!("c", f.column());
    assert_eq!(None, f.alias());
    assert_eq!(None, f.agg_op());

    let f = FieldIdentifier::new_column_alias("t", "c", "out");
    assert_eq!(Some("out"), f.alias());

    // a default alias is the operation's name, an underscore, the column
    let mut f = FieldIdentifier::new("t", "total");
    f.set_op(AggOp::Sum);
    f.default_alias();
    assert_eq!(Some("sum_total"), f.alias());
    assert_eq!(Some(AggOp::Sum), f.agg_op());

    let mut f = FieldIdentifier::new("t", "c");
    f.set_alias(String::from("renamed"));
    assert_eq!(Some("renamed"), f.alias());
    // without an operation, a default alias changes nothing
    f.default_alias();
    assert_eq!(Some("renamed"), f.alias());
}

#[test]
fn test_agg_op_text() {
    assert_eq!("avg", AggOp::Avg.to_text());
    assert_eq!("count", AggOp::Count.to_text());
    assert_eq!("max", AggOp::Max.to_text());
    assert_eq!("min", AggOp::Min.to_text());
    assert_eq!("sum", AggOp::Sum.to_text());
}

#[test]
fn test_get_page_bounds() {
    let mut sm = StorageManager::new_test_sm();
    sm.create_container(1).unwrap();
    let tid = TransactionId::new();
    // no pages yet: nothing to fetch
    assert!(sm.get_page(1, 0, tid, Permissions::ReadOnly, false).is_none());
    // unknown container: nothing to fetch
    assert!(sm.get_page(9, 0, tid, Permissions::ReadOnly, false).is_none());
    sm.insert_value(1, vec![1, 2, 3], tid).unwrap();
    assert!(sm.get_page(1, 0, tid, Permissions::ReadOnly, false).is_some());
    assert!(sm.get_page(1, 1, tid, Permissions::ReadOnly, false).is_none());
}

#[test]
fn test_insert_fills_first_page_with_room() {
    // records go to the first page that has room, in page order
    let mut sm = StorageManager::new_test_sm();
    sm.create_container(1).unwrap();
    let tid = TransactionId::new();
    // three large records: two fill page 0, the third opens page 1
    let big = vec![3u8; 2000];
    let v0 = sm.insert_value(1, big.clone(), tid).unwrap();
    let v1 = sm.insert_value(1, big.clone(), tid).unwrap();
    let v2 = sm.insert_value(1, big.clone(), tid).unwrap();
    assert_eq!(Some(0), v0.page_id);
    assert_eq!(Some(0), v1.page_id);
    assert_eq!(Some(1), v2.page_id);
    // a small record fits the remaining room of page 0 again
    let small = vec![4u8; 10];
    let v3 = sm.insert_value(1, small.clone(), tid).unwrap();
    assert_eq!(Some(0), v3.page_id);
    assert_eq!(
        small,
        sm.get_value(v3, tid, Permissions::ReadOnly).unwrap()
    );
}

#[test]
fn test_delete_then_get_is_gone() {
    let mut sm = StorageManager::new_test_sm();
    sm.create_container(1).unwrap();
    let tid = TransactionId::new();
    let v = sm.insert_value(1, vec![1, 2, 3], tid).unwrap();
    sm.delete_value(v, tid).unwrap();
    assert!(sm.get_value(v, tid, Permissions::ReadOnly).is_err());
    // deleting again still succeeds
    sm.delete_value(v, tid).unwrap();
}

#[test]
fn test_value_id_constructors() {
    let v = ValueId::new(4);
    assert_eq!(4, v.container_id);
    assert_eq!(None, v.page_id);
    let v = ValueId::new_page(4, 9);
    assert_eq!(Some(9), v.page_id);
    assert_eq!(None, v.slot_id);
    let v = ValueId::new_slot(4, 9, 2);
    assert_eq!(Some(2), v.slot_id);
    // ids come from the embedding application's monotone source
    let t = TransactionId::with_id(7);
    assert_eq!(7, t.id());
    let t2 = TransactionId::with_id(8);
    assert_eq!(8, t2.id());
}

#[test]
fn test_dirty_eviction_write_back() {
    // spread records over more pages than the pool holds: dirty frames are
    // evicted with a write-back along the way, and nothing is lost
    let mut sm = StorageManager::new_test_sm();
    sm.create_container(1).unwrap();
    let tid = TransactionId::new();
    let big = vec![9u8; 2000];
    let mut vids = Vec::new();
    for _ in 0..(2 * (PAGE_SLOTS + 2)) {
        vids.push(sm.insert_value(1, big.clone(), tid).unwrap());
    }
    sm.reset();
    for v in &vids {
        assert_eq!(big, sm.get_value(*v, tid, Permissions::ReadOnly).unwrap());
    }
}

#[test]
fn test_update_relocates_when_needed() {
    // when the replacement does not fit the old page, the update moves the
    // record to another page and the old locator stops reading back
    let mut sm = StorageManager::new_test_sm();
    sm.create_container(1).unwrap();
    let tid = TransactionId::new();
    let a = sm.insert_value(1, vec![1u8; 2000], tid).unwrap();
    let b = sm.insert_value(1, vec![2u8; 2000], tid).unwrap();
    let nv = sm.update_value(vec![3u8; 3000], a, tid).unwrap();
    assert_ne!(a.page_id, nv.page_id);
    assert_eq!(
        vec![3u8; 3000],
        sm.get_value(nv, tid, Permissions::ReadOnly).unwrap()
    );
    assert!(sm.get_value(a, tid, Permissions::ReadOnly).is_err());
    assert_eq!(
        vec![2u8; 2000],
        sm.get_value(b, tid, Permissions::ReadOnly).unwrap()
    );
}
