//! The boundary-tag codec on concrete byte buffers.
use rusty_mara::code_block::{
    generate_code_block_for_internal_size, get_block_size, get_needed_code_block_size, is_free,
    read_from_left, read_from_right, set_free,
};

#[test]
fn needed_tag_size_breakpoints() {
    assert_eq!(get_needed_code_block_size(1), 1);
    assert_eq!(get_needed_code_block_size(63), 1);
    assert_eq!(get_needed_code_block_size(64), 2);
    assert_eq!(get_needed_code_block_size(8191), 2);
    assert_eq!(get_needed_code_block_size(8192), 3);
    assert_eq!(get_needed_code_block_size(1048575), 3);
    assert_eq!(get_needed_code_block_size(1048576), 4);
}

#[test]
fn single_byte_tag_round_trip() {
    let mut heap: Vec<u8> = vec![0; 64];
    // a whole block of 10 bytes: one-byte tags, payload 8
    let tag = generate_code_block_for_internal_size(&mut heap, 0, 10, true);
    assert_eq!(tag, 1);
    assert_eq!(read_from_left(&heap, 0), 8);
    assert!(is_free(&heap, 0));
    assert_eq!(get_block_size(&heap, 0), 1);
    // the single tag byte: top bit set, free bit set, size 8
    assert_eq!(heap[0], 0b1100_1000);
    set_free(&mut heap, 0, false);
    assert_eq!(read_from_left(&heap, 0), 8);
    assert!(!is_free(&heap, 0));
    assert_eq!(heap[0], 0b1000_1000);
}

#[test]
fn multi_byte_tag_round_trip() {
    let mut heap: Vec<u8> = vec![0; 16384];
    // a block of 10000 bytes in total: three-byte tags, payload 9994
    let tag = generate_code_block_for_internal_size(&mut heap, 3, 10000, true);
    assert_eq!(tag, 3);
    assert_eq!(read_from_left(&heap, 3), 9994);
    assert!(is_free(&heap, 3));
    assert_eq!(get_block_size(&heap, 3), 3);
    // 9994 = 78 * 128 + 10: a zero leading digit carrying the free bit, a
    // continuation byte, and a final byte with a clear top bit
    assert_eq!(heap[3], 0b0100_0000);
    assert_eq!(heap[4], 0b1000_0000 + 78);
    assert_eq!(heap[5], 10);
    // reading the same bytes from their right end finds the same size and
    // the tag start
    let (size, start) = read_from_right(&heap, 5);
    assert_eq!(size, 9994);
    assert_eq!(start, 3);
}

#[test]
fn internal_size_fixed_point() {
    // 66 total bytes cannot use one-byte tags (64 needs two bytes), so the
    // tag grows and the payload shrinks accordingly
    let mut heap: Vec<u8> = vec![0; 128];
    let tag = generate_code_block_for_internal_size(&mut heap, 0, 66, true);
    assert_eq!(tag, 2);
    assert_eq!(read_from_left(&heap, 0), 62);
}
