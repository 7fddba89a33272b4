//! End-to-end scenarios over whole allocators.
use rusty_mara::bucket_list::BucketList;
use rusty_mara::code_block::{is_free, read_from_left};
use rusty_mara::Mara;

/// One page spanning the whole buffer; allocate, free, allocate again.
#[test]
fn single_alloc_free() {
    let mut mara = Mara::new(vec![0u8; 4096], 4096);
    let p = mara.dynamic_new(100).unwrap();
    // the first block starts at the page start with a two-byte tag
    assert_eq!(p, 2);
    assert_eq!(read_from_left(&mara.heap, 0), 100);
    assert!(!is_free(&mara.heap, 0));
    // the remainder follows as a free block
    assert!(is_free(&mara.heap, 104));
    mara.dynamic_delete(p);
    // freeing merged everything back into one block spanning the page
    assert_eq!(read_from_left(&mara.heap, 0), 4092);
    assert!(is_free(&mara.heap, 0));
    let q = mara.dynamic_new(100).unwrap();
    assert_eq!(q, p);
}

/// Splitting a large free block shrinks the left block's tags; the
/// remainder carries matching tags of its own.
#[test]
fn split_tag_shrinking() {
    // one page holding a single free block of payload 10000 (three-byte tags)
    let mut mara = Mara::new(vec![0u8; 10006], 10006);
    assert_eq!(read_from_left(&mara.heap, 0), 10000);
    let p = mara.dynamic_new(50).unwrap();
    // the used block gets one-byte tags, so its payload starts at 1
    assert_eq!(p, 1);
    assert_eq!(read_from_left(&mara.heap, 0), 50);
    // remainder: total 10006 - 52 = 9954 bytes with three-byte tags
    assert_eq!(read_from_left(&mara.heap, 52), 9948);
    assert!(is_free(&mara.heap, 52));
    assert!(9948 >= 10000 - 50 - 2 - 6);
    // its right tag mirrors its left tag byte for byte
    assert_eq!(mara.heap[10003], mara.heap[52]);
    assert_eq!(mara.heap[10004], mara.heap[53]);
    assert_eq!(mara.heap[10005], mara.heap[54]);
}

/// Freeing three adjacent blocks in the order first, last, middle merges
/// them back into one free block.
#[test]
fn coalesce_both_sides() {
    let mut mara = Mara::new(vec![0u8; 4096], 4096);
    let a = mara.dynamic_new(64).unwrap();
    let b = mara.dynamic_new(64).unwrap();
    let c = mara.dynamic_new(64).unwrap();
    assert!(a < b && b < c);
    mara.dynamic_delete(a);
    mara.dynamic_delete(c);
    mara.dynamic_delete(b);
    assert_eq!(read_from_left(&mara.heap, 0), 4092);
    assert!(is_free(&mara.heap, 0));
}

/// A request whose own bucket is empty walks up to a higher bucket and
/// splits what it finds there.
#[test]
fn bucket_escalation() {
    let mut mara = Mara::new(vec![0u8; 4096], 4096);
    // bucket 7 (sizes 29..=32) is empty; the page's single free block
    // hangs in a higher bucket and still serves the request
    assert_eq!(BucketList::lookup_bucket(31), 7);
    let p = mara.dynamic_new(31).unwrap();
    assert_eq!(read_from_left(&mara.heap, 0), 31);
    assert!(!is_free(&mara.heap, 0));
    assert!(p == 1);
}

/// When the first page is exhausted, the ring grows and the next page
/// serves the request.
#[test]
fn multi_page_growth() {
    let mut mara = Mara::new(vec![0u8; 768], 256);
    // fill the whole first page
    let p1 = mara.dynamic_new(252).unwrap();
    assert_eq!(p1, 2);
    // the next request transparently comes from a freshly carved page
    let p2 = mara.dynamic_new(252).unwrap();
    assert_eq!(p2, 256 + 2);
    let p3 = mara.dynamic_new(252).unwrap();
    assert_eq!(p3, 512 + 2);
}

/// Exhausting the buffer returns null; all handed-out regions are
/// pairwise disjoint and inside the buffer.
#[test]
fn out_of_memory() {
    let mut mara = Mara::new(vec![0u8; 1024], 128);
    let mut got: Vec<usize> = Vec::new();
    loop {
        match mara.dynamic_new(40) {
            Some(p) => got.push(p),
            None => break,
        }
        assert!(got.len() <= 64);
    }
    assert!(got.len() >= 8);
    for (i, &p) in got.iter().enumerate() {
        assert!(p + 40 <= 1024);
        for (j, &q) in got.iter().enumerate() {
            if i != j {
                assert!(p + 40 <= q || q + 40 <= p);
            }
        }
    }
}

/// A request of exactly the next-pointer width succeeds.
#[test]
fn smallest_request() {
    let mut mara = Mara::new(vec![0u8; 256], 256);
    let p = mara.dynamic_new(4).unwrap();
    assert_eq!(read_from_left(&mara.heap, 0), 4);
    mara.write_byte(p, 0, 0xAB);
    mara.write_byte(p, 3, 0xCD);
    assert_eq!(mara.read_byte(p), 0xAB);
    assert_eq!(mara.read_byte(p + 3), 0xCD);
}

/// A request that consumes the largest possible block of an empty page
/// returns it whole and leaves every bucket empty.
#[test]
fn largest_single_block() {
    let mut mara = Mara::new(vec![0u8; 256], 256);
    // the fresh page holds one free block of payload 252
    let p = mara.dynamic_new(252).unwrap();
    assert_eq!(p, 2);
    assert!(!is_free(&mara.heap, 0));
    for head in mara.page_list.pages[0].bucket_list.bucket_list.iter() {
        assert!(head.is_none());
    }
}

/// A request larger than any page fails with null.
#[test]
fn oversized_request_fails() {
    let mut mara = Mara::new(vec![0u8; 256], 128);
    assert_eq!(mara.dynamic_new(1000), None);
}

/// Freeing a long run of allocations in a scrambled order returns the
/// page to a single free block spanning its whole area.
#[test]
fn free_in_arbitrary_order() {
    let mut mara = Mara::new(vec![0u8; 8192], 8192);
    let mut ptrs: Vec<usize> = Vec::new();
    for i in 0..40 {
        ptrs.push(mara.dynamic_new(16 + (i % 7) * 8).unwrap());
    }
    // free in a scrambled but fixed order
    let mut order: Vec<usize> = Vec::new();
    let mut x: usize = 17;
    while !ptrs.is_empty() {
        x = (x * 31 + 7) % 97;
        let idx = x % ptrs.len();
        order.push(ptrs.remove(idx));
    }
    for p in order {
        mara.dynamic_delete(p);
    }
    assert_eq!(read_from_left(&mara.heap, 0), 8192 - 4);
    assert!(is_free(&mara.heap, 0));
}

/// Building an allocator twice over buffers with the same contents yields
/// the same bytes and the same bucket heads.
#[test]
fn idempotent_init() {
    let m1 = Mara::new(vec![7u8; 2048], 2048);
    let m2 = Mara::new(vec![7u8; 2048], 2048);
    assert_eq!(m1.heap, m2.heap);
    assert_eq!(
        m1.page_list.pages[0].bucket_list.bucket_list,
        m2.page_list.pages[0].bucket_list.bucket_list
    );
}

/// The bucket-index function, on the exact class boundaries.
#[test]
fn bucket_lookup_boundaries() {
    assert_eq!(BucketList::lookup_bucket(1), 0);
    assert_eq!(BucketList::lookup_bucket(4), 0);
    assert_eq!(BucketList::lookup_bucket(5), 1);
    assert_eq!(BucketList::lookup_bucket(32), 7);
    assert_eq!(BucketList::lookup_bucket(33), 8);
    assert_eq!(BucketList::lookup_bucket(128), 13);
    assert_eq!(BucketList::lookup_bucket(129), 14);
    assert_eq!(BucketList::lookup_bucket(256), 14);
    assert_eq!(BucketList::lookup_bucket(257), 15);
    assert_eq!(BucketList::lookup_bucket(1024), 16);
    assert_eq!(BucketList::lookup_bucket(1025), 17);
    assert_eq!(BucketList::lookup_bucket(1_000_000), 17);
}

/// Caller bytes survive neighboring allocations and frees.
#[test]
fn payload_bytes_kept() {
    let mut mara = Mara::new(vec![0u8; 2048], 2048);
    let a = mara.dynamic_new(32).unwrap();
    let b = mara.dynamic_new(32).unwrap();
    for i in 0..32 {
        mara.write_byte(a, i, i as u8);
        mara.write_byte(b, i, (255 - i) as u8);
    }
    let c = mara.dynamic_new(64).unwrap();
    mara.dynamic_delete(c);
    for i in 0..32 {
        assert_eq!(mara.read_byte(a + i), i as u8);
        assert_eq!(mara.read_byte(b + i), (255 - i) as u8);
    }
}

/// Walks one page's blocks along the boundary tags and the bucket chains
/// along the in-band next pointers, checking the layout between
/// operations: exact tiling, mirrored tags, no adjacent free blocks,
/// minimum free payloads, and free blocks reachable from the bucket heads.
#[test]
fn layout_scan_between_operations() {
    let mut mara = Mara::new(vec![0u8; 2048], 2048);
    let a = mara.dynamic_new(24).unwrap();
    let b = mara.dynamic_new(100).unwrap();
    let c = mara.dynamic_new(300).unwrap();
    let _d = mara.dynamic_new(8).unwrap();
    mara.dynamic_delete(b);
    mara.dynamic_delete(a);
    let _e = mara.dynamic_new(60).unwrap();
    mara.dynamic_delete(c);

    // walk the block sequence from the page start
    let mut pos = 0usize;
    let mut free_payload_starts: Vec<usize> = Vec::new();
    let mut prev_free = false;
    while pos < 2048 {
        let size = rusty_mara::code_block::read_from_left(&mara.heap, pos);
        let tag = rusty_mara::code_block::get_block_size(&mara.heap, pos);
        let free = is_free(&mara.heap, pos);
        // left and right tags mirror each other byte for byte
        for t in 0..tag {
            assert_eq!(mara.heap[pos + t], mara.heap[pos + tag + size + t]);
        }
        // the right tag decodes to the same size
        let (rsize, rstart) = rusty_mara::code_block::read_from_right(
            &mara.heap,
            pos + 2 * tag + size - 1,
        );
        assert_eq!(rsize, size);
        assert_eq!(rstart, pos + tag + size);
        // no two adjacent free blocks, and free payloads hold a next pointer
        assert!(!(free && prev_free));
        if free {
            assert!(size >= 4);
            free_payload_starts.push(pos + tag);
        }
        prev_free = free;
        pos += 2 * tag + size;
    }
    // the blocks tile the page exactly
    assert_eq!(pos, 2048);

    // every free block is reachable from exactly one bucket head
    let mut reached: Vec<usize> = Vec::new();
    for head in mara.page_list.pages[0].bucket_list.bucket_list.iter() {
        let mut cur = *head;
        while let Some(p) = cur {
            assert!(free_payload_starts.contains(&p));
            assert!(!reached.contains(&p));
            reached.push(p);
            // follow the in-band next pointer
            let off = mara.heap[p] as u32
                | (mara.heap[p + 1] as u32) << 8
                | (mara.heap[p + 2] as u32) << 16
                | (mara.heap[p + 3] as u32) << 24;
            if off == u32::MAX {
                cur = None;
            } else {
                assert!((off as usize) < 2048);
                cur = Some(off as usize);
            }
        }
    }
    reached.sort();
    free_payload_starts.sort();
    assert_eq!(reached, free_payload_starts);
}
