use inlined_strings::heap::{Heap, CELL_BYTES};
use inlined_strings::inlined_bytes::{allocate_inlined_bytes, InlinedBytes};

#[test]
fn allocating_inlined_bytes() {
    let mut heap = Heap::new();
    let heap = &mut heap;

    assert_eq!(heap.len(), 0);

    // This should allocate 1 cell, for the sentinel
    allocate_inlined_bytes(heap, &[]);
    assert_eq!(heap.len(), 1);

    // This should allocate only one cell
    allocate_inlined_bytes(heap, &[1, 2, 3, 4]);
    assert_eq!(heap.len(), 2);

    // This should allocate 2 cells, because of the sentinel
    allocate_inlined_bytes(heap, &[1, 2, 3, 4, 5, 6, 7, 8]);
    assert_eq!(heap.len(), 4);

    // This should also allocate 2 cells
    allocate_inlined_bytes(heap, &[1, 2, 3, 4, 5, 6, 7, 8, 9, 10]);
    assert_eq!(heap.len(), 6);
}

#[test]
fn inlined_bytes_as_bytes() {
    let mut heap = Heap::new();
    let heap = &mut heap;

    let test_bytes_list = [
        &[] as &[u8],
        &[1, 2, 3, 4],
        &[1, 2, 3, 4, 5, 6, 7, 8],
        &[1, 2, 3, 4, 5, 6, 7, 8, 9],
    ];

    for test_bytes in test_bytes_list {
        let bytes = allocate_inlined_bytes(heap, test_bytes);
        assert_eq!(bytes.as_bytes(), test_bytes);
    }
}

#[test]
fn inlined_bytes_as_str() {
    let mut heap = Heap::new();
    let heap = &mut heap;

    let valid_strs = ["", "1234", "12345678", "123456789", "漢字"];

    for valid_str in valid_strs {
        let str_bytes = valid_str.as_bytes();
        let bytes = allocate_inlined_bytes(heap, str_bytes);
        assert_eq!(bytes.as_str(), Ok(valid_str));
    }

    let invalid_strs: &[&[u8]] = &[
        &[0xc3, 0x28],
        &[0xa0, 0xa1],
        &[0xe2, 0x28, 0xa1],
        &[0xe2, 0x82, 0x28],
        &[0xf0, 0x28, 0x8c, 0xbc],
        &[0xf0, 0x90, 0x28, 0xbc],
        &[0xf0, 0x28, 0x8c, 0x28],
    ];

    for invalid_str in invalid_strs {
        let bytes = allocate_inlined_bytes(heap, invalid_str);
        assert!(bytes.as_str().is_err());
    }
}

#[test]
fn inlined_bytes_as_str_unchecked() {
    let mut heap = Heap::new();
    let heap = &mut heap;

    let valid_strs = ["", "1234", "12345678", "123456789", "漢字"];

    for valid_str in valid_strs {
        let str_bytes = valid_str.as_bytes();
        let bytes = allocate_inlined_bytes(heap, str_bytes);
        assert_eq!(bytes.as_str_unchecked(), valid_str);
    }
}

#[test]
fn empty_payload_takes_one_cell_and_reads_empty() {
    let mut heap = Heap::new();
    let view = allocate_inlined_bytes(&mut heap, &[]);
    assert_eq!(view.as_bytes(), &[] as &[u8]);
    assert_eq!(view.as_str(), Ok(""));
    assert_eq!(heap.len(), 1);
    assert_eq!(heap.as_bytes(), &[0u8; 8]);
}

#[test]
fn eight_bytes_take_two_cells() {
    let mut heap = Heap::new();
    let payload = [1u8, 2, 3, 4, 5, 6, 7, 8];
    let view = allocate_inlined_bytes(&mut heap, &payload);
    assert_eq!(view.as_bytes(), &payload);
    assert_eq!(heap.len(), 2);
}

#[test]
fn cell_counts_follow_length() {
    for (n, cells) in [(0usize, 1usize), (4, 1), (7, 1), (8, 2), (9, 2), (10, 2), (15, 2), (16, 3)] {
        let mut heap = Heap::new();
        let payload: Vec<u8> = (1..=n as u8).collect();
        allocate_inlined_bytes(&mut heap, &payload);
        assert_eq!(heap.len(), cells);
        assert_eq!(heap.as_bytes().len(), cells * CELL_BYTES);
    }
}

#[test]
fn zero_follows_payload_and_fills_the_cell() {
    let mut heap = Heap::new();
    allocate_inlined_bytes(&mut heap, &[9, 9, 9]);
    allocate_inlined_bytes(&mut heap, &[7; 10]);
    assert_eq!(heap.as_bytes(), &[9, 9, 9, 0, 0, 0, 0, 0, 7, 7, 7, 7, 7, 7, 7, 7, 7, 7, 0, 0, 0, 0, 0, 0]);
}

#[test]
fn offset_views_read_the_rest() {
    let mut heap = Heap::new();
    allocate_inlined_bytes(&mut heap, &[5]);
    let payload = [1u8, 2, 3, 4, 5, 6, 7, 8, 9, 10];
    allocate_inlined_bytes(&mut heap, &payload);
    for o in 0..payload.len() {
        let view = InlinedBytes::from_addr_offset(&heap, 1, o);
        assert_eq!(view.as_bytes(), &payload[o..]);
    }
    let whole = InlinedBytes::from_addr(&heap, 1);
    assert_eq!(whole.as_bytes(), &payload);
    let first = InlinedBytes::from_addr(&heap, 0);
    assert_eq!(first.as_bytes(), &[5]);
}

#[test]
fn offset_views_of_text() {
    let mut heap = Heap::new();
    allocate_inlined_bytes(&mut heap, "ab漢字".as_bytes());
    let view = InlinedBytes::from_addr_offset(&heap, 0, 2);
    assert_eq!(view.as_str(), Ok("漢字"));
    let inside = InlinedBytes::from_addr_offset(&heap, 0, 3);
    assert!(inside.as_str().is_err());
}

#[test]
fn reading_twice_gives_the_same_bytes() {
    let mut heap = Heap::new();
    let view = allocate_inlined_bytes(&mut heap, &[3, 1, 4, 1, 5, 9, 2, 6, 5]);
    let first = view.as_bytes().to_vec();
    let second = view.as_bytes().to_vec();
    assert_eq!(first, second);
    assert_eq!(first, vec![3, 1, 4, 1, 5, 9, 2, 6, 5]);
}

#[test]
fn embedded_zero_cuts_the_read_short() {
    let mut heap = Heap::new();
    let view = allocate_inlined_bytes(&mut heap, &[1, 2, 0, 3]);
    assert_eq!(view.as_bytes(), &[1, 2]);
    assert_eq!(heap.len(), 1);
}

#[test]
fn checked_offset_view() {
    let mut heap = Heap::new();
    allocate_inlined_bytes(&mut heap, &[1, 2, 3]);
    let view = InlinedBytes::from_addr_offset_checked(&heap, 0, 1).unwrap();
    assert_eq!(view.as_bytes(), &[2, 3]);
    let last = InlinedBytes::from_addr_offset_checked(&heap, 0, 7).unwrap();
    assert_eq!(last.as_bytes(), &[] as &[u8]);
    assert!(InlinedBytes::from_addr_offset_checked(&heap, 0, 8).is_none());
    assert!(InlinedBytes::from_addr_offset_checked(&heap, 1, 0).is_none());
    assert!(InlinedBytes::from_addr_offset_checked(&heap, usize::MAX, 1).is_none());
    assert!(InlinedBytes::from_addr_offset_checked(&heap, 0, usize::MAX).is_none());
}

#[test]
fn checked_offset_view_needs_a_zero() {
    let mut heap = Heap::new();
    allocate_inlined_bytes(&mut heap, &[1, 2, 3, 4, 5, 6, 7, 8]);
    assert!(InlinedBytes::from_addr_offset_checked(&heap, 0, 8).is_some());
    assert!(InlinedBytes::from_addr_offset_checked(&heap, 2, 0).is_none());
}

#[test]
fn invalid_text_reports_where_it_breaks() {
    let mut heap = Heap::new();
    let view = allocate_inlined_bytes(&mut heap, &[0x61, 0x62, 0xc3, 0x28]);
    let err = view.as_str().unwrap_err();
    assert_eq!(err.valid_up_to(), 2);
}
