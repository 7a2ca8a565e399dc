use crustydb::common::PAGE_SIZE;
use crustydb::heapstore::codec::parse_page;
use crustydb::heapstore::page::Page;

/// Limits on how many bytes the page may use for metadata.
pub const FIXED_HEADER_SIZE: usize = 8;
pub const HEADER_PER_VAL_SIZE: usize = 6;

fn get_random_byte_vec(n: usize) -> Vec<u8> {
    let random_bytes: Vec<u8> = (0..n).map(|_| rand::random::<u8>()).collect();
    random_bytes
}

/// A deterministic stand-in for a small serialized tuple.
fn tuple_bytes_of(vals: &[i32]) -> Vec<u8> {
    let mut out = Vec::new();
    for v in vals {
        out.extend(v.to_le_bytes());
    }
    out
}

#[test]
fn hs_page_create() {
    let p = Page::new(0);
    assert_eq!(0, p.get_page_id());
    assert_eq!(
        PAGE_SIZE - p.get_header_size(),
        p.get_largest_free_contiguous_space()
    );
}

#[test]
fn hs_page_simple_insert() {
    let mut p = Page::new(0);
    let tuple_bytes = tuple_bytes_of(&[0, 1, 2]);
    let byte_len = tuple_bytes.len();
    assert_eq!(Some(0), p.add_value(&tuple_bytes));
    assert_eq!(
        PAGE_SIZE - byte_len - p.get_header_size(),
        p.get_largest_free_contiguous_space()
    );
    let tuple_bytes2 = tuple_bytes_of(&[0, 1, 2]);
    assert_eq!(Some(1), p.add_value(&tuple_bytes2));
    assert_eq!(
        PAGE_SIZE - p.get_header_size() - byte_len - byte_len,
        p.get_largest_free_contiguous_space()
    );
}

#[test]
fn hs_page_space() {
    let mut p = Page::new(0);
    let size = 10;
    let bytes = get_random_byte_vec(size);
    assert_eq!(10, bytes.len());
    assert_eq!(Some(0), p.add_value(&bytes));
    assert_eq!(
        PAGE_SIZE - p.get_header_size() - size,
        p.get_largest_free_contiguous_space()
    );
    assert_eq!(Some(1), p.add_value(&bytes));
    assert_eq!(
        PAGE_SIZE - p.get_header_size() - size * 2,
        p.get_largest_free_contiguous_space()
    );
    assert_eq!(Some(2), p.add_value(&bytes));
    assert_eq!(
        PAGE_SIZE - p.get_header_size() - size * 3,
        p.get_largest_free_contiguous_space()
    );
}

#[test]
fn hs_page_get_value() {
    let mut p = Page::new(0);
    let tuple_bytes = tuple_bytes_of(&[0, 1, 2]);
    assert_eq!(Some(0), p.add_value(&tuple_bytes));
    let check_bytes = p.get_value(0).unwrap();
    assert_eq!(tuple_bytes, check_bytes);
    let tuple_bytes2 = tuple_bytes_of(&[3, 3, 3]);
    assert_eq!(Some(1), p.add_value(&tuple_bytes2));
    let check_bytes2 = p.get_value(1).unwrap();
    assert_eq!(tuple_bytes2, check_bytes2);
    // recheck
    let check_bytes2 = p.get_value(1).unwrap();
    assert_eq!(tuple_bytes2, check_bytes2);
    let check_bytes = p.get_value(0).unwrap();
    assert_eq!(tuple_bytes, check_bytes);
    // an unknown slot yields nothing
    assert_eq!(None, p.get_value(2));
}

#[test]
fn hs_page_header_size_small() {
    // the header stays within 8 bytes plus 6 bytes per stored value
    let mut p = Page::new(0);
    assert!(p.get_header_size() <= FIXED_HEADER_SIZE);
    let bytes = get_random_byte_vec(10);
    assert_eq!(Some(0), p.add_value(&bytes));
    assert!(p.get_header_size() <= FIXED_HEADER_SIZE + HEADER_PER_VAL_SIZE);
    assert_eq!(Some(1), p.add_value(&bytes));
    assert_eq!(Some(2), p.add_value(&bytes));
    assert_eq!(Some(3), p.add_value(&bytes));
    assert!(p.get_header_size() <= FIXED_HEADER_SIZE + HEADER_PER_VAL_SIZE * 4);
}

#[test]
fn hs_page_header_size_full() {
    let mut p = Page::new(0);
    assert!(p.get_header_size() <= FIXED_HEADER_SIZE);
    let byte_size = 10;
    let bytes = get_random_byte_vec(byte_size);
    // how many values fit when each costs its bytes plus one entry
    let num_vals: usize = (((PAGE_SIZE - FIXED_HEADER_SIZE) as f64
        / (byte_size + HEADER_PER_VAL_SIZE) as f64)
        .floor()) as usize;
    if PAGE_SIZE == 4096 && FIXED_HEADER_SIZE == 8 && HEADER_PER_VAL_SIZE == 6 {
        assert_eq!(255, num_vals);
    }
    for _ in 0..num_vals {
        p.add_value(&bytes);
    }
    assert!(p.get_header_size() <= FIXED_HEADER_SIZE + (num_vals * HEADER_PER_VAL_SIZE));
    assert!(
        p.get_largest_free_contiguous_space()
            >= PAGE_SIZE
                - (byte_size * num_vals)
                - FIXED_HEADER_SIZE
                - (num_vals * HEADER_PER_VAL_SIZE)
    );
}

#[test]
fn hs_page_no_space() {
    let mut p = Page::new(0);
    let size = PAGE_SIZE / 4;
    let bytes = get_random_byte_vec(size);
    assert_eq!(Some(0), p.add_value(&bytes));
    assert_eq!(
        PAGE_SIZE - p.get_header_size() - size,
        p.get_largest_free_contiguous_space()
    );
    assert_eq!(Some(1), p.add_value(&bytes));
    assert_eq!(
        PAGE_SIZE - p.get_header_size() - size * 2,
        p.get_largest_free_contiguous_space()
    );
    assert_eq!(Some(2), p.add_value(&bytes));
    assert_eq!(
        PAGE_SIZE - p.get_header_size() - size * 3,
        p.get_largest_free_contiguous_space()
    );
    // no room for a fourth record of this size
    assert_eq!(None, p.add_value(&bytes));
    assert_eq!(
        PAGE_SIZE - p.get_header_size() - size * 3,
        p.get_largest_free_contiguous_space()
    );
    // a smaller record still fits
    let small_bytes = get_random_byte_vec(size / 4);
    assert_eq!(Some(3), p.add_value(&small_bytes));
    assert_eq!(
        PAGE_SIZE - p.get_header_size() - size * 3 - small_bytes.len(),
        p.get_largest_free_contiguous_space()
    );
}

#[test]
fn hs_page_simple_delete() {
    let mut p = Page::new(0);
    let tuple_bytes = tuple_bytes_of(&[0, 1, 2]);
    assert_eq!(Some(0), p.add_value(&tuple_bytes));
    let check_bytes = p.get_value(0).unwrap();
    assert_eq!(tuple_bytes, check_bytes);
    let tuple_bytes2 = tuple_bytes_of(&[3, 3, 3]);
    assert_eq!(Some(1), p.add_value(&tuple_bytes2));
    let check_bytes2 = p.get_value(1).unwrap();
    assert_eq!(tuple_bytes2, check_bytes2);
    assert_eq!(Some(()), p.delete_value(0));
    let check_bytes2 = p.get_value(1).unwrap();
    assert_eq!(tuple_bytes2, check_bytes2);
    // slot 0 is gone
    assert_eq!(None, p.get_value(0));
    assert_eq!(None, p.get_value(2));
    // delete slot 1
    assert_eq!(Some(()), p.delete_value(1));
    assert_eq!(None, p.get_value(1));
}

#[test]
fn hs_page_get_first_free_space() {
    let p = Page::new(0);
    assert_eq!(0, p.get_page_id());
    let _b1 = get_random_byte_vec(100);
    let _b2 = get_random_byte_vec(50);
}

#[test]
fn hs_page_delete_insert() {
    let mut p = Page::new(0);
    let tuple_bytes = get_random_byte_vec(20);
    let tuple_bytes2 = get_random_byte_vec(20);
    let tuple_bytes3 = get_random_byte_vec(20);
    let tuple_bytes4 = get_random_byte_vec(20);
    let tuple_bytes_big = get_random_byte_vec(40);
    let tuple_bytes_small1 = get_random_byte_vec(5);
    let tuple_bytes_small2 = get_random_byte_vec(5);
    // add three values
    assert_eq!(Some(0), p.add_value(&tuple_bytes));
    let check_bytes = p.get_value(0).unwrap();
    assert_eq!(tuple_bytes, check_bytes);
    assert_eq!(Some(1), p.add_value(&tuple_bytes2));
    let check_bytes = p.get_value(1).unwrap();
    assert_eq!(tuple_bytes2, check_bytes);
    assert_eq!(Some(2), p.add_value(&tuple_bytes3));
    let check_bytes = p.get_value(2).unwrap();
    assert_eq!(tuple_bytes3, check_bytes);
    assert_eq!(Some(()), p.delete_value(1));
    // slot 1 is gone, the others stay
    assert_eq!(None, p.get_value(1));
    let check_bytes = p.get_value(0).unwrap();
    assert_eq!(tuple_bytes, check_bytes);
    let check_bytes = p.get_value(2).unwrap();
    assert_eq!(tuple_bytes3, check_bytes);
    // the freed slot id is reused
    assert_eq!(Some(1), p.add_value(&tuple_bytes4));
    let check_bytes = p.get_value(1).unwrap();
    assert_eq!(tuple_bytes4, check_bytes);
    // delete 0, insert a bigger value: id 0 comes back
    assert_eq!(Some(()), p.delete_value(0));
    assert_eq!(Some(0), p.add_value(&tuple_bytes_big));
    // small values go to the next unused ids
    assert_eq!(Some(3), p.add_value(&tuple_bytes_small1));
    assert_eq!(Some(4), p.add_value(&tuple_bytes_small2));
}

#[test]
fn hs_page_size() {
    let mut p = Page::new(2);
    let tuple_bytes = tuple_bytes_of(&[0, 1, 2]);
    assert_eq!(Some(0), p.add_value(&tuple_bytes));

    let page_bytes = p.get_bytes();
    assert_eq!(PAGE_SIZE, page_bytes.len());
}

#[test]
fn hs_page_simple_byte_serialize() {
    let mut p = Page::new(0);
    let tuple_bytes = tuple_bytes_of(&[0, 1, 2]);
    assert_eq!(Some(0), p.add_value(&tuple_bytes));
    let tuple_bytes2 = tuple_bytes_of(&[3, 3, 3]);
    assert_eq!(Some(1), p.add_value(&tuple_bytes2));

    // serialize and rebuild
    let bytes = p.get_bytes();
    let mut p2 = Page::from_bytes(&bytes);
    assert_eq!(0, p2.get_page_id());

    // the rebuilt page holds the same records
    let check_bytes2 = p2.get_value(1).unwrap();
    assert_eq!(tuple_bytes2, check_bytes2);
    let check_bytes = p2.get_value(0).unwrap();
    assert_eq!(tuple_bytes, check_bytes);

    // the rebuilt page accepts new records
    let tuple_bytes3 = tuple_bytes_of(&[4, 3, 2]);
    assert_eq!(Some(2), p2.add_value(&tuple_bytes3));
    assert_eq!(tuple_bytes3, p2.get_value(2).unwrap());
    assert_eq!(tuple_bytes2, p2.get_value(1).unwrap());
    assert_eq!(tuple_bytes, p2.get_value(0).unwrap());
}

#[test]
fn hs_page_iter() {
    let mut p = Page::new(0);
    let tuple_bytes = tuple_bytes_of(&[0, 0, 1]);
    assert_eq!(Some(0), p.add_value(&tuple_bytes));
    let tuple_bytes2 = tuple_bytes_of(&[0, 0, 2]);
    assert_eq!(Some(1), p.add_value(&tuple_bytes2));
    let tuple_bytes3 = tuple_bytes_of(&[0, 0, 3]);
    assert_eq!(Some(2), p.add_value(&tuple_bytes3));
    let tuple_bytes4 = tuple_bytes_of(&[0, 0, 4]);
    assert_eq!(Some(3), p.add_value(&tuple_bytes4));

    let tup_vec = vec![
        tuple_bytes.clone(),
        tuple_bytes2.clone(),
        tuple_bytes3.clone(),
        tuple_bytes4.clone(),
    ];
    let page_bytes = p.get_bytes();

    // first walk
    let mut iter = p.into_iter();
    assert_eq!(Some(tuple_bytes.clone()), iter.next());
    assert_eq!(Some(tuple_bytes2.clone()), iter.next());
    assert_eq!(Some(tuple_bytes3.clone()), iter.next());
    assert_eq!(Some(tuple_bytes4.clone()), iter.next());
    assert_eq!(None, iter.next());

    // the same through a rebuilt page
    let p = Page::from_bytes(&page_bytes);
    assert_eq!(Some(tuple_bytes.clone()), p.get_value(0));
    let mut iter = p.into_iter();
    let mut i = 0;
    while let Some(x) = iter.next() {
        assert_eq!(tup_vec[i], x);
        i += 1;
    }
    assert_eq!(4, i);

    let p = Page::from_bytes(&page_bytes);
    let mut count = 0;
    let mut iter = p.into_iter();
    while iter.next().is_some() {
        count += 1;
    }
    assert_eq!(count, 4);

    // add a value and recount
    let mut p = Page::from_bytes(&page_bytes);
    assert_eq!(Some(4), p.add_value(&tuple_bytes));
    let page_bytes = p.get_bytes();
    count = 0;
    let mut iter = p.into_iter();
    while iter.next().is_some() {
        count += 1;
    }
    assert_eq!(count, 5);

    // delete one and walk again
    let mut p = Page::from_bytes(&page_bytes);
    p.delete_value(2);
    let mut iter = p.into_iter();
    assert_eq!(Some(tuple_bytes.clone()), iter.next());
    assert_eq!(Some(tuple_bytes2.clone()), iter.next());
    assert_eq!(Some(tuple_bytes4.clone()), iter.next());
    assert_eq!(Some(tuple_bytes.clone()), iter.next());
    assert_eq!(None, iter.next());
}

#[test]
fn hs_page_parse_rejects_junk() {
    // wrong length
    assert!(parse_page(&vec![0u8; 10]).is_none());
    // right length but an impossible slot count
    let mut block = vec![0u8; PAGE_SIZE];
    block[2] = 0xFF;
    block[3] = 0xFF;
    assert!(parse_page(&block).is_none());
    // a canonical block parses
    let mut p = Page::new(7);
    p.add_value(&vec![1, 2, 3]);
    let parsed = parse_page(&p.get_bytes()).unwrap();
    assert_eq!(7, parsed.get_page_id());
    assert_eq!(Some(vec![1, 2, 3]), parsed.get_value(0));
}

#[test]
fn hs_page_empty_round_trip() {
    let p = Page::new(42);
    let bytes = p.get_bytes();
    assert_eq!(PAGE_SIZE, bytes.len());
    // id then zero live slots, little endian
    assert_eq!(42, bytes[0]);
    assert_eq!(0, bytes[1]);
    assert_eq!(0, bytes[2]);
    assert_eq!(0, bytes[3]);
    let p2 = Page::from_bytes(&bytes);
    assert_eq!(42, p2.get_page_id());
    assert_eq!(None, p2.get_value(0));
}

#[test]
fn hs_page_layout_bytes_exact() {
    // one three-byte record at the end of the block
    let mut p = Page::new(1);
    assert_eq!(Some(0), p.add_value(&vec![0xAA, 0xBB, 0xCC]));
    let b = p.get_bytes();
    // header: page id 1, one slot
    assert_eq!(1, b[0]);
    assert_eq!(0, b[1]);
    assert_eq!(1, b[2]);
    assert_eq!(0, b[3]);
    // directory entry: slot id 0, offset 4093, length 3
    assert_eq!(0, u16::from_le_bytes([b[4], b[5]]));
    assert_eq!(4093, u16::from_le_bytes([b[6], b[7]]));
    assert_eq!(3, u16::from_le_bytes([b[8], b[9]]));
    // the record bytes sit at the offset
    assert_eq!(&[0xAA, 0xBB, 0xCC], &b[4093..4096]);
}
