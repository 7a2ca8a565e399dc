use crustydb::ids::{Permissions, TransactionId, ValueId};
use crustydb::memstore::storage_manager::StorageManager;

/// A deterministic stand-in for a small serialized tuple.
fn tuple_bytes_of(vals: &[i32]) -> Vec<u8> {
    let mut out = Vec::new();
    for v in vals {
        out.extend(v.to_le_bytes());
    }
    out
}

#[test]
fn test_get_val1() {
    let tuple_bytes = tuple_bytes_of(&[0, 1, 2]);
    let mut sm = StorageManager::new_test_sm();
    let container_id = 1;
    sm.create_container(container_id).unwrap();
    let tid = TransactionId::new();
    let rid = sm.insert_value(container_id, tuple_bytes.clone(), tid);
    let check_bytes = sm.get_value(rid, tid, Permissions::ReadOnly).unwrap();
    assert_eq!(tuple_bytes, check_bytes);
}

#[test]
fn test_get_val2() {
    let tuple_bytes = tuple_bytes_of(&[0, 1, 0]);
    let tuple_bytes2 = tuple_bytes_of(&[0, 1, 1]);
    let mut sm = StorageManager::new_test_sm();
    let container_id = 1;
    sm.create_container(container_id).unwrap();
    let tid = TransactionId::new();
    let rid = sm.insert_value(container_id, tuple_bytes.clone(), tid);
    let rid2 = sm.insert_value(container_id, tuple_bytes2.clone(), tid);
    let mut check_bytes = sm.get_value(rid, tid, Permissions::ReadOnly).unwrap();
    assert_eq!(tuple_bytes, check_bytes);
    check_bytes = sm.get_value(rid2, tid, Permissions::ReadOnly).unwrap();
    assert_eq!(tuple_bytes2, check_bytes);
}

#[test]
fn test_multi() {
    let tuple_bytes = tuple_bytes_of(&[0, 1, 0]);
    let tuple_bytes2 = tuple_bytes_of(&[0, 1, 1]);
    let byte_vec = vec![tuple_bytes.clone(), tuple_bytes2.clone()];
    let mut sm = StorageManager::new_test_sm();
    let container_id = 1;
    sm.create_container(container_id).unwrap();
    let tid = TransactionId::new();
    let rid = sm.insert_values(container_id, byte_vec, tid);
    let mut check_bytes = sm
        .get_value(*rid.get(0).unwrap(), tid, Permissions::ReadOnly)
        .unwrap();
    assert_eq!(tuple_bytes, check_bytes);
    check_bytes = sm
        .get_value(*rid.get(1).unwrap(), tid, Permissions::ReadOnly)
        .unwrap();
    assert_eq!(tuple_bytes2, check_bytes);
}

#[test]
fn test_delete1() {
    let tuple_bytes = tuple_bytes_of(&[0, 1, 2]);
    let mut sm = StorageManager::new_test_sm();
    let container_id = 1;
    sm.create_container(container_id).unwrap();
    let tid = TransactionId::new();
    let rid = sm.insert_value(container_id, tuple_bytes.clone(), tid);
    let check_bytes = sm.get_value(rid, tid, Permissions::ReadOnly).unwrap();
    assert_eq!(tuple_bytes, check_bytes);
    let res = sm.delete_value(rid, tid);
    assert!(res.is_ok());
    let res2 = sm.get_value(rid, tid, Permissions::ReadOnly);
    assert!(res2.is_err());
}

#[test]
fn test_simple_iter() {
    let tuple_bytes = tuple_bytes_of(&[0, 1, 0]);
    let tuple_bytes2 = tuple_bytes_of(&[0, 1, 1]);
    let mut sm = StorageManager::new_test_sm();
    let container_id = 1;
    sm.create_container(container_id).unwrap();
    let tid = TransactionId::new();
    let _rid = sm.insert_value(container_id, tuple_bytes.clone(), tid);
    let _rid2 = sm.insert_value(container_id, tuple_bytes2.clone(), tid);
    let mut iter = sm.get_iterator(container_id, tid, Permissions::ReadOnly);

    let check_bytes = iter.next().unwrap();
    assert_eq!(tuple_bytes, check_bytes);
    let check_bytes = iter.next().unwrap();
    assert_eq!(tuple_bytes2, check_bytes);
    assert_eq!(None, iter.next());
}

#[test]
fn test_simple_iter_delete() {
    let tuple_bytes = tuple_bytes_of(&[0, 1, 0]);
    let tuple_bytes2 = tuple_bytes_of(&[0, 1, 1]);
    let mut sm = StorageManager::new_test_sm();
    let container_id = 1;
    sm.create_container(container_id).unwrap();
    let tid = TransactionId::new();
    let rid = sm.insert_value(container_id, tuple_bytes.clone(), tid);
    let _rid2 = sm.insert_value(container_id, tuple_bytes2.clone(), tid);
    let mut iter = sm.get_iterator(container_id, tid, Permissions::ReadOnly);

    let check_bytes = iter.next().unwrap();
    assert_eq!(tuple_bytes, check_bytes);
    let check_bytes = iter.next().unwrap();
    assert_eq!(tuple_bytes2, check_bytes);
    assert_eq!(None, iter.next());

    sm.delete_value(rid, tid).unwrap();
    let mut iter2 = sm.get_iterator(container_id, tid, Permissions::ReadOnly);
    let check_bytes = iter2.next().unwrap();
    assert_eq!(tuple_bytes2, check_bytes);
    assert_eq!(None, iter2.next());
}

#[test]
fn test_not_found() {
    let tuple_bytes = tuple_bytes_of(&[0, 1, 2]);
    let mut sm = StorageManager::new_test_sm();
    let container_id = 1;
    sm.create_container(container_id).unwrap();
    let tid = TransactionId::new();
    let rid = sm.insert_value(container_id, tuple_bytes.clone(), tid);
    let check_bytes = sm.get_value(rid, tid, Permissions::ReadOnly).unwrap();
    assert_eq!(tuple_bytes, check_bytes);
    let mut rid2 = ValueId::new(container_id);
    rid2.slot_id = Some(1000);
    assert!(
        sm.get_value(rid2, tid, Permissions::ReadOnly).is_err(),
        "value should not exist"
    );
    rid2.container_id = 1400;
    assert!(
        sm.get_value(rid2, tid, Permissions::ReadOnly).is_err(),
        "file should not exist"
    );
}

#[test]
fn test_mem_snapshot_restore() {
    // a snapshot taken before shutdown rebuilds an equivalent store
    let tuple_bytes = tuple_bytes_of(&[7, 8, 9]);
    let mut sm = StorageManager::new_test_sm();
    sm.create_container(1).unwrap();
    sm.create_container(2).unwrap();
    let tid = TransactionId::new();
    let rid1 = sm.insert_value(1, tuple_bytes.clone(), tid);
    let rid2 = sm.insert_value(2, tuple_bytes_of(&[1]), tid);
    sm.shutdown();
    let snap = sm.snapshot();
    let sm2 = StorageManager::restore(String::new(), snap).unwrap();
    assert_eq!(
        tuple_bytes,
        sm2.get_value(rid1, tid, Permissions::ReadOnly).unwrap()
    );
    assert_eq!(
        tuple_bytes_of(&[1]),
        sm2.get_value(rid2, tid, Permissions::ReadOnly).unwrap()
    );
    // the next insert continues after the highest live slot
    let mut sm2 = sm2;
    let rid3 = sm2.insert_value(1, tuple_bytes_of(&[2]), tid);
    assert_eq!(rid1.slot_id.unwrap() + 1, rid3.slot_id.unwrap());
}

#[test]
fn test_mem_delete_missing_container_is_noop() {
    // deletes are idempotent successes, even for an unknown container
    let mut sm = StorageManager::new_test_sm();
    let tid = TransactionId::new();
    let vid = ValueId::new_slot(9, 0, 0);
    let mut vid = vid;
    vid.page_id = None;
    assert!(sm.delete_value(vid, tid).is_ok());
    sm.create_container(1).unwrap();
    let mut missing = ValueId::new(1);
    missing.slot_id = Some(5);
    assert!(sm.delete_value(missing, tid).is_ok());
}

#[test]
fn test_mem_update_old_locator_gone() {
    // an update hands out the next slot id; the old locator stops reading
    let mut sm = StorageManager::new_test_sm();
    sm.create_container(1).unwrap();
    let tid = TransactionId::new();
    let a = sm.insert_value(1, vec![1, 2, 3], tid);
    let nv = sm.update_value(vec![4, 5], a, tid).unwrap();
    assert_ne!(a.slot_id, nv.slot_id);
    assert_eq!(
        vec![4, 5],
        sm.get_value(nv, tid, Permissions::ReadOnly).unwrap()
    );
    assert!(sm.get_value(a, tid, Permissions::ReadOnly).is_err());
}
