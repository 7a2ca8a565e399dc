use crustydb::heapstore::heapfile::HeapFile;
use crustydb::heapstore::page::Page;

fn get_random_byte_vec(n: usize) -> Vec<u8> {
    let random_bytes: Vec<u8> = (0..n).map(|_| rand::random::<u8>()).collect();
    random_bytes
}

#[test]
fn hs_hf_insert() {
    // a fresh heap file for container 1
    let mut hf = HeapFile::new(1);

    // make a page and write it
    let mut p0 = Page::new(0);
    let bytes = get_random_byte_vec(100);
    p0.add_value(&bytes);
    let bytes = get_random_byte_vec(100);
    p0.add_value(&bytes);
    let bytes = get_random_byte_vec(100);
    p0.add_value(&bytes);
    let p0_bytes = p0.get_bytes();
    hf.write_page(p0).unwrap();
    assert_eq!(1, hf.num_pages());
    let checkp0 = hf.read_page(0).unwrap();
    assert_eq!(p0_bytes, checkp0.get_bytes());

    // add another page
    let mut p1 = Page::new(1);
    let bytes = get_random_byte_vec(100);
    p1.add_value(&bytes);
    let bytes = get_random_byte_vec(100);
    p1.add_value(&bytes);
    let bytes = get_random_byte_vec(100);
    p1.add_value(&bytes);
    let p1_bytes = p1.get_bytes();

    hf.write_page(p1).unwrap();

    assert_eq!(2, hf.num_pages());
    // recheck page 0
    let checkp0 = hf.read_page(0).unwrap();
    assert_eq!(p0_bytes, checkp0.get_bytes());

    // check page 1
    let checkp1 = hf.read_page(1).unwrap();
    assert_eq!(p1_bytes, checkp1.get_bytes());

    assert_eq!(hf.read_count, 3);
    assert_eq!(hf.write_count, 2);
}

#[test]
fn hs_hf_out_of_range_read_fails() {
    let mut hf = HeapFile::new(1);
    assert!(hf.read_page(0).is_err());
    let p = Page::new(0);
    hf.write_page(p).unwrap();
    assert!(hf.read_page(0).is_ok());
    assert!(hf.read_page(1).is_err());
}

#[test]
fn hs_hf_blocks_round_trip() {
    // persisting and reattaching a heap file keeps every page's bytes
    let mut hf = HeapFile::new(3);
    let mut p0 = Page::new(0);
    p0.add_value(&get_random_byte_vec(64));
    let mut p1 = Page::new(1);
    p1.add_value(&get_random_byte_vec(32));
    p1.add_value(&get_random_byte_vec(48));
    hf.write_page(p0).unwrap();
    hf.write_page(p1).unwrap();
    let blocks = hf.to_blocks();
    assert_eq!(2, blocks.len());
    let mut hf2 = HeapFile::from_blocks(3, &blocks).unwrap();
    assert_eq!(2, hf2.num_pages());
    let q0 = hf2.read_page(0).unwrap();
    let q1 = hf2.read_page(1).unwrap();
    assert_eq!(blocks[0], q0.get_bytes());
    assert_eq!(blocks[1], q1.get_bytes());
}

#[test]
fn hs_hf_from_blocks_rejects_misplaced_page() {
    // a block whose page id does not match its position is refused
    let p = Page::new(5);
    let blocks = vec![p.get_bytes()];
    assert!(HeapFile::from_blocks(9, &blocks).is_err());
}
