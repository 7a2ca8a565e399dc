use crustydb::common::PAGE_SLOTS;
use crustydb::heapstore::storage_manager::StorageManager;
use crustydb::ids::{PageId, Permissions, TransactionId, ValueId};
use crustydb::testutil::fill_hf_sm;

fn get_random_byte_vec(n: usize) -> Vec<u8> {
    let random_bytes: Vec<u8> = (0..n).map(|_| rand::random::<u8>()).collect();
    random_bytes
}

#[test]
fn test_bp_a_get() {
    let mut sm = StorageManager::new_test_sm();
    let hfid = 1;
    sm.create_container(hfid).unwrap();
    let byte_1 = get_random_byte_vec(40);
    let tid = TransactionId::new();
    let val_id = sm.insert_value(hfid, byte_1.clone(), tid).unwrap();

    let _p = sm.get_page(
        val_id.container_id,
        val_id.page_id.unwrap(),
        tid,
        Permissions::ReadOnly,
        false,
    );
    sm.get_page(
        val_id.container_id,
        val_id.page_id.unwrap(),
        tid,
        Permissions::ReadOnly,
        false,
    );
    let (rc, _wc) = sm.get_hf_read_write_count(hfid);
    assert_eq!(1, rc);

    let byte_check = sm.get_value(val_id, tid, Permissions::ReadOnly).unwrap();
    assert_eq!(byte_check, byte_1);

    sm.reset();
    sm.get_page(
        val_id.container_id,
        val_id.page_id.unwrap(),
        tid,
        Permissions::ReadOnly,
        false,
    );
    let (rc, _wc) = sm.get_hf_read_write_count(hfid);
    assert_eq!(2, rc);
}

#[test]
fn test_bp_evict() {
    let mut sm = StorageManager::new_test_sm();
    let hfid = 1;
    sm.create_container(hfid).unwrap();
    let tid = TransactionId::new();
    let to_fill = PAGE_SLOTS + 1;
    fill_hf_sm(&mut sm, hfid, to_fill as PageId, 10, 100, tid).unwrap();
    for i in 0..PAGE_SLOTS {
        let id = ValueId {
            container_id: hfid,
            segment_id: None,
            page_id: Some(i as PageId),
            slot_id: None,
        };
        sm.get_page(
            id.container_id,
            id.page_id.unwrap(),
            tid,
            Permissions::ReadOnly,
            false,
        );
    }

    let (rc, _wc) = sm.get_hf_read_write_count(hfid);
    assert_eq!(PAGE_SLOTS as u64, rc);

    // re-read: everything is cached, no extra reads
    for i in 0..PAGE_SLOTS {
        let id = ValueId {
            container_id: hfid,
            segment_id: None,
            page_id: Some(i as PageId),
            slot_id: None,
        };
        sm.get_page(
            id.container_id,
            id.page_id.unwrap(),
            tid,
            Permissions::ReadOnly,
            false,
        );
    }
    let (rc, _wc) = sm.get_hf_read_write_count(hfid);
    assert_eq!(PAGE_SLOTS as u64, rc);

    // one page past the pool's capacity forces an eviction and one read
    let evict_id = ValueId {
        container_id: hfid,
        segment_id: None,
        page_id: Some(PAGE_SLOTS as PageId),
        slot_id: None,
    };
    sm.get_page(
        evict_id.container_id,
        evict_id.page_id.unwrap(),
        tid,
        Permissions::ReadOnly,
        false,
    );
    let (rc, _wc) = sm.get_hf_read_write_count(hfid);
    assert_eq!((PAGE_SLOTS + 1) as u64, rc);

    // re-reading the newly cached page costs nothing
    sm.get_page(
        evict_id.container_id,
        evict_id.page_id.unwrap(),
        tid,
        Permissions::ReadOnly,
        false,
    );
    let (rc, _wc) = sm.get_hf_read_write_count(hfid);
    assert_eq!((PAGE_SLOTS + 1) as u64, rc);
}

#[test]
fn test_bp_write() {
    let mut sm = StorageManager::new_test_sm();
    let hfid = 1;
    sm.create_container(hfid).unwrap();
    let byte_1 = get_random_byte_vec(40);
    let tid = TransactionId::new();
    let val_id = sm.insert_value(hfid, byte_1, tid).unwrap();

    let mut p = sm
        .get_page(
            val_id.container_id,
            val_id.page_id.unwrap(),
            tid,
            Permissions::ReadOnly,
            false,
        )
        .unwrap();
    sm.get_page(
        val_id.container_id,
        val_id.page_id.unwrap(),
        tid,
        Permissions::ReadOnly,
        false,
    );

    let (rc, _wc) = sm.get_hf_read_write_count(hfid);
    assert_eq!(1, rc);

    let byte_2 = get_random_byte_vec(40);
    p.add_value(&byte_2);
    let p1_bytes = p.get_bytes();
    sm.write_page(val_id.container_id, p, tid).unwrap();

    let (_rc, wc) = sm.get_hf_read_write_count(hfid);
    assert_eq!(2, wc);

    let p2 = sm
        .get_page(
            val_id.container_id,
            val_id.page_id.unwrap(),
            tid,
            Permissions::ReadOnly,
            false,
        )
        .unwrap();
    assert_eq!(p1_bytes[..], p2.get_bytes()[..]);
}

#[test]
fn test_pin_keeps_frame_until_released() {
    // a pinned page survives pool pressure: re-fetching it after the pool
    // filled costs no extra read; releasing the pin is harmless
    let mut sm = StorageManager::new_test_sm();
    let hfid = 1;
    sm.create_container(hfid).unwrap();
    let tid = TransactionId::new();
    fill_hf_sm(&mut sm, hfid, (PAGE_SLOTS + 2) as PageId, 5, 100, tid).unwrap();
    sm.get_page(hfid, 0, tid, Permissions::ReadOnly, true);
    for p in 1..=(PAGE_SLOTS as PageId) {
        sm.get_page(hfid, p, tid, Permissions::ReadOnly, false);
    }
    let (rc, _) = sm.get_hf_read_write_count(hfid);
    assert_eq!((PAGE_SLOTS + 1) as u64, rc);
    // page 0 was pinned, so the eviction took someone else
    sm.get_page(hfid, 0, tid, Permissions::ReadOnly, false);
    let (rc, _) = sm.get_hf_read_write_count(hfid);
    assert_eq!((PAGE_SLOTS + 1) as u64, rc);
    sm.unpin_page(hfid, 0, tid);
    // the page is still readable after the release
    assert!(sm.get_page(hfid, 0, tid, Permissions::ReadOnly, false).is_some());
}
