use database::btree::Record;
use database::page::{
    decode_leaf, encode_leaf, PageError, CELL_SIZE, HEADER_SIZE, KEY_SIZE, MAX_CELLS,
    MAX_VALUE_BYTES, NODE_INTERNAL, NODE_LEAF, PAGE_SIZE, VALUE_SIZE,
};

fn cell(key: i32, value: &str) -> Record {
    Record { key, value: value.to_string() }
}

fn content(records: &[Record]) -> Vec<(i32, String)> {
    records.iter().map(|r| (r.key, r.value.clone())).collect()
}

#[test]
fn layout_constants_fit_together() {
    assert_eq!(PAGE_SIZE, 4096);
    assert_eq!(HEADER_SIZE, 6);
    assert_eq!(KEY_SIZE, 4);
    assert_eq!(VALUE_SIZE, 256);
    assert_eq!(MAX_VALUE_BYTES, VALUE_SIZE - 1);
    assert_eq!(CELL_SIZE, KEY_SIZE + VALUE_SIZE);
    assert_eq!(MAX_CELLS, (PAGE_SIZE - HEADER_SIZE) / CELL_SIZE);
    assert_eq!(NODE_INTERNAL, 0);
    assert_eq!(NODE_LEAF, 1);
}

#[test]
fn empty_leaf_is_a_header_and_zeros() {
    let page = encode_leaf(&vec![]).unwrap();
    assert_eq!(page.len(), PAGE_SIZE);
    assert_eq!(&page[..HEADER_SIZE], &[NODE_LEAF, 0, 0, 0, 0, 0]);
    assert!(page[HEADER_SIZE..].iter().all(|b| *b == 0));
    assert!(decode_leaf(&page).unwrap().is_empty());
}

#[test]
fn leaf_page_is_laid_out_bit_for_bit() {
    let page = encode_leaf(&vec![cell(0x01020304, "ab"), cell(-2, "")]).unwrap();
    assert_eq!(page.len(), PAGE_SIZE);
    // type, reserved, cell count low byte first
    assert_eq!(&page[..6], &[1, 0, 2, 0, 0, 0]);
    // first cell: key low byte first, length of the value, the value, zeros
    assert_eq!(&page[6..10], &[0x04, 0x03, 0x02, 0x01]);
    assert_eq!(page[10], 2);
    assert_eq!(&page[11..13], b"ab");
    assert!(page[13..6 + CELL_SIZE].iter().all(|b| *b == 0));
    // second cell
    let at = 6 + CELL_SIZE;
    assert_eq!(&page[at..at + 4], &[0xfe, 0xff, 0xff, 0xff]);
    assert_eq!(page[at + 4], 0);
    assert!(page[at + 5..].iter().all(|b| *b == 0));
}

#[test]
fn leaf_page_round_trip() {
    let records = vec![
        cell(i32::MIN, "lowest"),
        cell(-1, ""),
        cell(0, "zero"),
        cell(7, "grüße, 世界 \u{1F600}"),
        cell(i32::MAX, &"x".repeat(MAX_VALUE_BYTES)),
    ];
    let page = encode_leaf(&records).unwrap();
    let back = decode_leaf(&page).unwrap();
    assert_eq!(content(&back), content(&records));
}

#[test]
fn full_leaf_page_round_trip() {
    let records: Vec<Record> =
        (0..MAX_CELLS as i32).map(|i| cell(i * 3 - 20, &format!("value {}", i))).collect();
    let page = encode_leaf(&records).unwrap();
    assert_eq!(page.len(), PAGE_SIZE);
    assert_eq!(content(&decode_leaf(&page).unwrap()), content(&records));
}

#[test]
fn encode_refuses_more_records_than_cells() {
    let records: Vec<Record> = (0..=MAX_CELLS as i32).map(|i| cell(i, "v")).collect();
    assert_eq!(encode_leaf(&records).unwrap_err(), PageError::CapacityExceeded);
}

#[test]
fn encode_refuses_a_value_that_is_too_large() {
    let records =
        vec![cell(1, "fits"), cell(2, &"y".repeat(MAX_VALUE_BYTES + 1)), cell(3, &"z".repeat(999))];
    assert_eq!(encode_leaf(&records).unwrap_err(), PageError::ValueTooLarge { index: 1 });
    // The width counts bytes, not characters.
    let wide = "é".repeat(128);
    assert_eq!(wide.len(), 256);
    assert_eq!(encode_leaf(&vec![cell(1, &wide)]).unwrap_err(), PageError::ValueTooLarge { index: 0 });
}

#[test]
fn decode_refuses_what_is_no_leaf_page() {
    assert_eq!(decode_leaf(&[]).unwrap_err(), PageError::Malformed);
    assert_eq!(decode_leaf(&vec![0u8; PAGE_SIZE - 1]).unwrap_err(), PageError::Malformed);
    assert_eq!(decode_leaf(&vec![0u8; PAGE_SIZE + 1]).unwrap_err(), PageError::Malformed);
    // A zeroed page carries the tag of an inner node.
    assert_eq!(decode_leaf(&vec![0u8; PAGE_SIZE]).unwrap_err(), PageError::Malformed);
    let mut page = encode_leaf(&vec![cell(1, "a")]).unwrap();
    page[2] = (MAX_CELLS + 1) as u8;
    assert_eq!(decode_leaf(&page).unwrap_err(), PageError::Malformed);
    let mut page = encode_leaf(&vec![cell(1, "a")]).unwrap();
    page[5] = 1;
    assert_eq!(decode_leaf(&page).unwrap_err(), PageError::Malformed);
}

#[test]
fn decode_refuses_a_value_that_is_no_text() {
    let mut page = encode_leaf(&vec![cell(1, "ab")]).unwrap();
    page[11] = 0xff;
    assert_eq!(decode_leaf(&page).unwrap_err(), PageError::Malformed);
}

#[test]
fn decode_reads_only_the_cells_that_the_header_counts() {
    let mut page = encode_leaf(&vec![cell(1, "a"), cell(2, "b")]).unwrap();
    page[2] = 1;
    // What lies behind the last cell is not looked at.
    page[6 + CELL_SIZE + 5] = 0xff;
    assert_eq!(content(&decode_leaf(&page).unwrap()), vec![(1, "a".to_string())]);
    // The reserved byte is not looked at either.
    page[1] = 9;
    assert_eq!(content(&decode_leaf(&page).unwrap()), vec![(1, "a".to_string())]);
}

#[test]
fn new_leaf_page_is_empty() {
    let page = database::page::new_leaf_page();
    assert_eq!(page.len(), PAGE_SIZE);
    assert_eq!(page[0], NODE_LEAF);
    assert_eq!(database::page::leaf_count(&page), 0);
    assert!(decode_leaf(&page).unwrap().is_empty());
    assert_eq!(database::page::leaf_find(&page, 1), None);
}

#[test]
fn leaf_insert_keeps_the_cells_in_key_order() {
    let mut page = database::page::new_leaf_page();
    for (k, v) in [(5, "five"), (1, "one"), (9, "nine"), (3, "three"), (-7, "minus")] {
        assert_eq!(database::page::leaf_insert(&mut page, k, v), Ok(()));
        assert_eq!(page.len(), PAGE_SIZE);
    }
    assert_eq!(database::page::leaf_count(&page), 5);
    assert_eq!(
        content(&decode_leaf(&page).unwrap()),
        vec![
            (-7, "minus".to_string()),
            (1, "one".to_string()),
            (3, "three".to_string()),
            (5, "five".to_string()),
            (9, "nine".to_string()),
        ]
    );
    assert_eq!(database::page::leaf_find(&page, 3), Some("three".to_string()));
    assert_eq!(database::page::leaf_find(&page, 4), None);
    // The page is the one that writing the records at once gives.
    let at_once = encode_leaf(&decode_leaf(&page).unwrap()).unwrap();
    assert_eq!(&page[..HEADER_SIZE + 5 * CELL_SIZE], &at_once[..HEADER_SIZE + 5 * CELL_SIZE]);
}

#[test]
fn leaf_insert_moves_the_cells_behind_one_cell_to_the_right() {
    let mut page = encode_leaf(&vec![cell(1, "a"), cell(3, "c")]).unwrap();
    let second = page[HEADER_SIZE + CELL_SIZE..HEADER_SIZE + 2 * CELL_SIZE].to_vec();
    assert_eq!(database::page::leaf_insert(&mut page, 2, "b"), Ok(()));
    assert_eq!(&page[HEADER_SIZE + 2 * CELL_SIZE..HEADER_SIZE + 3 * CELL_SIZE], &second[..]);
    assert_eq!(&page[2..6], &[3, 0, 0, 0]);
}

#[test]
fn leaf_insert_refuses_before_it_writes() {
    let mut page = encode_leaf(&vec![cell(1, "a"), cell(3, "c")]).unwrap();
    let before = page.clone();
    assert_eq!(database::page::leaf_insert(&mut page, 3, "again"), Err(PageError::DuplicateKey));
    assert_eq!(page, before);
    let long = "x".repeat(MAX_VALUE_BYTES + 1);
    assert_eq!(
        database::page::leaf_insert(&mut page, 2, &long),
        Err(PageError::ValueTooLarge { index: 2 })
    );
    assert_eq!(page, before);
    // The value is looked at first, then the key.
    assert_eq!(
        database::page::leaf_insert(&mut page, 3, &long),
        Err(PageError::ValueTooLarge { index: 2 })
    );
    let records: Vec<Record> = (0..MAX_CELLS as i32).map(|i| cell(i * 2, "v")).collect();
    let mut full = encode_leaf(&records).unwrap();
    let before = full.clone();
    assert_eq!(database::page::leaf_insert(&mut full, 1, "v"), Err(PageError::CapacityExceeded));
    assert_eq!(full, before);
    assert_eq!(database::page::leaf_insert(&mut full, 2, "v"), Err(PageError::DuplicateKey));
}

#[test]
fn leaf_insert_fills_the_page_to_the_last_cell() {
    let mut page = database::page::new_leaf_page();
    for i in (0..MAX_CELLS as i32).rev() {
        assert_eq!(database::page::leaf_insert(&mut page, i, &format!("v{}", i)), Ok(()));
    }
    let want: Vec<(i32, String)> = (0..MAX_CELLS as i32).map(|i| (i, format!("v{}", i))).collect();
    assert_eq!(content(&decode_leaf(&page).unwrap()), want);
    assert_eq!(page.len(), PAGE_SIZE);
}

#[test]
fn leaf_delete_moves_the_cells_behind_one_cell_to_the_left() {
    let mut page = encode_leaf(&vec![cell(1, "a"), cell(2, "b"), cell(3, "c")]).unwrap();
    let third = page[HEADER_SIZE + 2 * CELL_SIZE..HEADER_SIZE + 3 * CELL_SIZE].to_vec();
    assert!(database::page::leaf_delete(&mut page, 2));
    assert_eq!(page.len(), PAGE_SIZE);
    assert_eq!(&page[HEADER_SIZE + CELL_SIZE..HEADER_SIZE + 2 * CELL_SIZE], &third[..]);
    assert_eq!(content(&decode_leaf(&page).unwrap()), vec![(1, "a".to_string()), (3, "c".to_string())]);
    let before = page.clone();
    assert!(!database::page::leaf_delete(&mut page, 2));
    assert_eq!(page, before);
    assert!(database::page::leaf_delete(&mut page, 3));
    assert!(database::page::leaf_delete(&mut page, 1));
    assert_eq!(database::page::leaf_count(&page), 0);
    assert!(!database::page::leaf_delete(&mut page, 1));
}

#[test]
fn leaf_delete_from_a_full_page() {
    let records: Vec<Record> = (0..MAX_CELLS as i32).map(|i| cell(i, &format!("v{}", i))).collect();
    let mut page = encode_leaf(&records).unwrap();
    assert!(database::page::leaf_delete(&mut page, 0));
    assert!(database::page::leaf_delete(&mut page, MAX_CELLS as i32 - 1));
    let want: Vec<(i32, String)> =
        (1..MAX_CELLS as i32 - 1).map(|i| (i, format!("v{}", i))).collect();
    assert_eq!(content(&decode_leaf(&page).unwrap()), want);
    assert_eq!(page.len(), PAGE_SIZE);
}

#[test]
fn page_image_is_header_cells_and_zeros() {
    let records = vec![
        Record { key: 1, value: "a".to_string() },
        Record { key: -2, value: "bc".to_string() },
    ];
    let page = encode_leaf(&records).unwrap();
    assert_eq!(page.len(), PAGE_SIZE);
    assert_eq!(&page[0..6], &[1, 0, 2, 0, 0, 0]);
    // The first cell: the key, the length of the value, the value, zeros.
    assert_eq!(&page[6..12], &[1, 0, 0, 0, 1, b'a']);
    assert!(page[12..266].iter().all(|b| *b == 0));
    // The second cell: a negative key counts from the top.
    assert_eq!(&page[266..273], &[0xfe, 0xff, 0xff, 0xff, 2, b'b', b'c']);
    assert!(page[273..].iter().all(|b| *b == 0));
}
