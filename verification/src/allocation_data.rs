//! A mutable bundle of cached facts about one block in flight.
//!
//! Every field starts unset and is filled either by the caller or by reading
//! the boundary tags; reading an unset field is a caller error and excluded
//! by precondition.
use vstd::prelude::*;

use crate::code_block;
use crate::code_block::{is_block, is_tag, tag_is_free, tag_value};
use crate::globals::{ERROR_NEXT_POINTER, MAX_PAGE_SIZE, NEXT_POINTER_SIZE};
use crate::space::Space;

verus! {

pub struct AllocationData {
    /// First byte of the block; also the first byte of the left tag.
    pub data_start: Option<usize>,
    /// Last byte of the block; also the last byte of the right tag.
    pub data_end: Option<usize>,
    /// Length in bytes of one boundary tag of this block.
    pub code_block_size: Option<usize>,
    /// View over the payload region between the two tags.
    pub space: Space,
    /// Index of the page this block lives in.
    pub page: Option<usize>,
}

impl AllocationData {
    pub fn new() -> (r: AllocationData)
        ensures
            r.data_start is None,
            r.data_end is None,
            r.code_block_size is None,
            r.space.ptr is None,
            r.space.size is None,
            r.space.next is None,
            r.page is None,
    {
        AllocationData {
            data_start: None,
            data_end: None,
            code_block_size: None,
            space: Space::new(),
            page: None,
        }
    }

    pub fn data_start(&self) -> (r: usize)
        requires
            self.data_start is Some,
        ensures
            self.data_start == Some(r),
    {
        self.data_start.unwrap()
    }

    pub fn data_end(&self) -> (r: usize)
        requires
            self.data_end is Some,
        ensures
            self.data_end == Some(r),
    {
        self.data_end.unwrap()
    }

    pub fn code_block_size(&self) -> (r: usize)
        requires
            self.code_block_size is Some,
        ensures
            self.code_block_size == Some(r),
    {
        self.code_block_size.unwrap()
    }

    pub fn page(&self) -> (r: usize)
        requires
            self.page is Some,
        ensures
            self.page == Some(r),
    {
        self.page.unwrap()
    }

    pub fn set_data_start(&mut self, data: usize)
        ensures
            final(self).data_start == Some(data),
            final(self).data_end == old(self).data_end,
            final(self).code_block_size == old(self).code_block_size,
            final(self).space == old(self).space,
            final(self).page == old(self).page,
    {
        self.data_start = Some(data)
    }

    pub fn set_data_end(&mut self, data: usize)
        ensures
            final(self).data_end == Some(data),
            final(self).data_start == old(self).data_start,
            final(self).code_block_size == old(self).code_block_size,
            final(self).space == old(self).space,
            final(self).page == old(self).page,
    {
        self.data_end = Some(data)
    }

    pub fn set_code_block_size(&mut self, data: usize)
        ensures
            final(self).code_block_size == Some(data),
            final(self).data_start == old(self).data_start,
            final(self).data_end == old(self).data_end,
            final(self).space == old(self).space,
            final(self).page == old(self).page,
    {
        self.code_block_size = Some(data)
    }

    pub fn set_page(&mut self, data: usize)
        ensures
            final(self).page == Some(data),
            final(self).data_start == old(self).data_start,
            final(self).data_end == old(self).data_end,
            final(self).code_block_size == old(self).code_block_size,
            final(self).space == old(self).space,
    {
        self.page = Some(data)
    }

    /// Total block size in bytes, from the cached span or, when the end is
    /// not cached yet, from the cached tag and payload sizes.
    pub fn calculate_data_size(&self) -> (r: usize)
        requires
            self.data_start is Some,
            self.data_end is Some ==> self.data_start.unwrap() <= self.data_end.unwrap()
                && self.data_end.unwrap() < usize::MAX,
            self.data_end is None ==> self.code_block_size is Some && self.space.size is Some && 2
                * self.code_block_size.unwrap() + self.space.size.unwrap() <= usize::MAX,
        ensures
            r as int == if self.data_end is Some {
                self.data_end.unwrap() - self.data_start.unwrap() + 1
            } else {
                2 * self.code_block_size.unwrap() + self.space.size.unwrap()
            },
    {
        if self.data_end.is_some() {
            self.data_end.unwrap() - self.data_start.unwrap() + 1
        } else {
            2 * self.code_block_size.unwrap() + self.space.size.unwrap()
        }
    }

    /// Reads the boundary tags and fills every cache field, starting from
    /// whichever of `data_start`, `space.ptr` or `data_end` is set.
    pub fn read_and_cache_code_blocks(&mut self, heap: &Vec<u8>)
        requires
            old(self).data_start is Some ==> exists|n: int, p: int|
                #[trigger] is_block(heap@, old(self).data_start.unwrap() as int, n, p) && p
                    <= MAX_PAGE_SIZE as int,
            old(self).data_start is None && old(self).space.ptr is Some ==> exists|
                s: int,
                n: int,
                p: int,
            |
                #[trigger] is_block(heap@, s, n, p) && s + n == old(self).space.ptr.unwrap() as int
                    && p <= MAX_PAGE_SIZE as int,
            old(self).data_start is None && old(self).space.ptr is None ==> old(self).data_end
                is Some && exists|s: int, n: int, p: int|
                #[trigger] is_block(heap@, s, n, p) && s + 2 * n + p == old(
                    self,
                ).data_end.unwrap() as int + 1 && p <= MAX_PAGE_SIZE as int,
        ensures
            final(self).page == old(self).page,
            final(self).space.next == old(self).space.next,
            final(self).data_start is Some,
            final(self).data_end is Some,
            final(self).code_block_size is Some,
            final(self).space.ptr is Some,
            final(self).space.size is Some,
            forall|s: int, n: int, p: int|
                #[trigger] is_block(heap@, s, n, p) && matches_input(*old(self), s, n, p)
                    ==> final(self).data_start == Some(s as usize) && final(self).data_end == Some(
                    (s + 2 * n + p - 1) as usize,
                ) && final(self).code_block_size == Some(n as usize) && final(self).space.ptr
                    == Some((s + n) as usize) && final(self).space.size == Some(p as usize),
    {
        let heap_len = heap.len();
        if self.data_start.is_some() {
            let start = self.data_start();
            let ghost (n0, p0) = choose|n: int, p: int|
                #[trigger] is_block(heap@, start as int, n, p) && p <= MAX_PAGE_SIZE as int;
            proof {
                assert forall|n: int|
                    is_tag(heap@, start as int, n) implies tag_value(heap@, start as int, n)
                    <= MAX_PAGE_SIZE as int by {
                    code_block::lemma_tag_size_unique(heap@, start as int, n, n0);
                }
            }
            let size = code_block::read_from_left(heap, start);
            let cbs = code_block::get_block_size(heap, start);
            proof {
                code_block::lemma_tag_size_unique(heap@, start as int, cbs as int, n0);
                assert(cbs as int == n0 && size as int == p0);
                assert(start + 2 * n0 + p0 <= heap_len);
            }
            self.space.set_size(size);
            self.set_code_block_size(cbs);
            self.space.set_ptr(start + cbs);
            self.set_data_end(start + 2 * cbs + size - 1);
            proof {
                assert forall|s: int, n: int, p: int|
                    #[trigger] is_block(heap@, s, n, p) && matches_input(
                        *old(self),
                        s,
                        n,
                        p,
                    ) implies self.data_start == Some(s as usize) && self.data_end == Some(
                    (s + 2 * n + p - 1) as usize,
                ) && self.code_block_size == Some(n as usize) && self.space.ptr == Some(
                    (s + n) as usize,
                ) && self.space.size == Some(p as usize) by {
                    code_block::lemma_block_start_unique(heap@, s, n, p, n0, p0);
                }
            }
        } else if self.space.is_some() {
            let ptr = self.space.ptr();
            let ghost (s0, n0, p0) = choose|s: int, n: int, p: int|
                #[trigger] is_block(heap@, s, n, p) && s + n == ptr as int && p
                    <= MAX_PAGE_SIZE as int;
            proof {
                assert(is_tag(heap@, s0, n0));
                assert forall|s: int, n: int|
                    s + n == ptr as int && is_tag(heap@, s, n) implies tag_value(heap@, s, n)
                    <= MAX_PAGE_SIZE as int by {
                    code_block::lemma_tag_end_unique(heap@, s, n, s0, n0);
                }
            }
            let (memory_size, block) = code_block::read_from_right(heap, ptr - 1);
            proof {
                assert(block as int == s0 && memory_size as int == p0);
                assert(s0 + 2 * n0 + p0 <= heap_len);
            }
            let cbs = ptr - block;
            self.space.set_size(memory_size);
            self.set_code_block_size(cbs);
            self.set_data_start(block);
            self.set_data_end(block + 2 * cbs + memory_size - 1);
            proof {
                assert forall|s: int, n: int, p: int|
                    #[trigger] is_block(heap@, s, n, p) && matches_input(
                        *old(self),
                        s,
                        n,
                        p,
                    ) implies self.data_start == Some(s as usize) && self.data_end == Some(
                    (s + 2 * n + p - 1) as usize,
                ) && self.code_block_size == Some(n as usize) && self.space.ptr == Some(
                    (s + n) as usize,
                ) && self.space.size == Some(p as usize) by {
                    code_block::lemma_block_ptr_unique(heap@, s, n, p, s0, n0, p0);
                }
            }
        } else {
            let data_end = self.data_end();
            let ghost (s0, n0, p0) = choose|s: int, n: int, p: int|
                #[trigger] is_block(heap@, s, n, p) && s + 2 * n + p == data_end as int + 1 && p
                    <= MAX_PAGE_SIZE as int;
            proof {
                code_block::lemma_right_tag(heap@, s0, n0, p0);
                assert(is_tag(heap@, s0 + n0 + p0, n0));
                assert((s0 + n0 + p0) + n0 == data_end as int + 1);
                assert forall|s: int, n: int|
                    s + n == data_end as int + 1 && is_tag(heap@, s, n) implies tag_value(
                    heap@,
                    s,
                    n,
                ) <= MAX_PAGE_SIZE as int by {
                    code_block::lemma_tag_end_unique(heap@, s, n, s0 + n0 + p0, n0);
                    assert(tag_value(heap@, s0 + n0 + p0, n0) == p0);
                }
            }
            let (memory_size, block) = code_block::read_from_right(heap, data_end);
            proof {
                assert(block as int == s0 + n0 + p0);
                assert(memory_size as int == p0);
                assert(s0 + 2 * n0 + p0 <= heap_len);
            }
            let cbs = data_end + 1 - block;
            self.space.set_size(memory_size);
            self.set_code_block_size(cbs);
            self.set_data_start(block - cbs - memory_size);
            self.space.set_ptr(block - memory_size);
            proof {
                assert(self.data_start == Some(s0 as usize));
                assert forall|s: int, n: int, p: int|
                    #[trigger] is_block(heap@, s, n, p) && matches_input(
                        *old(self),
                        s,
                        n,
                        p,
                    ) implies self.data_start == Some(s as usize) && self.data_end == Some(
                    (s + 2 * n + p - 1) as usize,
                ) && self.code_block_size == Some(n as usize) && self.space.ptr == Some(
                    (s + n) as usize,
                ) && self.space.size == Some(p as usize) by {
                    code_block::lemma_block_end_unique(heap@, s, n, p, s0, n0, p0);
                }
            }
        }
    }

    /// The block that follows this one in its page, or `None` at the page
    /// boundary; caches its tag facts.
    pub fn right_neighbor(&self, heap: &Vec<u8>, end_of_page: usize) -> (r: Option<AllocationData>)
        requires
            self.data_end is Some,
            self.page is Some,
            self.data_end.unwrap() < end_of_page,
            self.data_end.unwrap() as int + 1 < end_of_page as int ==> exists|n: int, p: int|
                #[trigger] is_block(heap@, self.data_end.unwrap() as int + 1, n, p) && p
                    <= MAX_PAGE_SIZE as int,
        ensures
            self.data_end.unwrap() as int + 1 == end_of_page as int ==> r is None,
            self.data_end.unwrap() as int + 1 < end_of_page as int ==> match r {
                Some(right) => {
                    &&& right.page == self.page
                    &&& right.space.next is None
                    &&& forall|n: int, p: int|
                        #[trigger] is_block(heap@, self.data_end.unwrap() as int + 1, n, p)
                            ==> right.data_start == Some((self.data_end.unwrap() + 1) as usize)
                            && right.data_end == Some(
                            (self.data_end.unwrap() as int + 2 * n + p) as usize,
                        ) && right.code_block_size == Some(n as usize) && right.space.ptr == Some(
                            (self.data_end.unwrap() as int + 1 + n) as usize,
                        ) && right.space.size == Some(p as usize)
                },
                None => false,
            },
    {
        let start = self.data_end() + 1;
        if start < end_of_page {
            let mut right = AllocationData::new();
            right.set_page(self.page());
            right.set_data_start(start);
            proof {
                let (n0, p0) = choose|n: int, p: int|
                    #[trigger] is_block(heap@, self.data_end.unwrap() as int + 1, n, p) && p
                        <= MAX_PAGE_SIZE as int;
                assert(right.data_start.unwrap() as int == self.data_end.unwrap() as int + 1);
                assert(is_block(heap@, right.data_start.unwrap() as int, n0, p0) && p0
                    <= MAX_PAGE_SIZE as int);
            }
            right.read_and_cache_code_blocks(heap);
            Some(right)
        } else {
            None
        }
    }

    /// The block that precedes this one in its page, or `None` at the page
    /// boundary; caches its tag facts.
    pub fn left_neighbor(&self, heap: &Vec<u8>, start_of_page: usize) -> (r: Option<
        AllocationData,
    >)
        requires
            self.data_start is Some,
            self.page is Some,
            self.data_start.unwrap() >= start_of_page,
            self.data_start.unwrap() > start_of_page ==> exists|s: int, n: int, p: int|
                #[trigger] is_block(heap@, s, n, p) && s + 2 * n + p == self.data_start.unwrap()
                    && p <= MAX_PAGE_SIZE as int,
        ensures
            self.data_start.unwrap() == start_of_page ==> r is None,
            self.data_start.unwrap() > start_of_page ==> match r {
                Some(left) => {
                    &&& left.page == self.page
                    &&& left.space.next is None
                    &&& forall|s: int, n: int, p: int|
                        #[trigger] is_block(heap@, s, n, p) && s + 2 * n + p
                            == self.data_start.unwrap() ==> left.data_start == Some(s as usize)
                            && left.data_end == Some((self.data_start.unwrap() - 1) as usize)
                            && left.code_block_size == Some(n as usize) && left.space.ptr == Some(
                            (s + n) as usize,
                        ) && left.space.size == Some(p as usize)
                },
                None => false,
            },
    {
        let start = self.data_start();
        if start > start_of_page {
            let end = start - 1;
            let mut left = AllocationData::new();
            left.set_page(self.page());
            left.set_data_end(end);
            proof {
                let (s0, n0, p0) = choose|s: int, n: int, p: int|
                    #[trigger] is_block(heap@, s, n, p) && s + 2 * n + p
                        == self.data_start.unwrap() && p <= MAX_PAGE_SIZE as int;
                assert(is_block(heap@, s0, n0, p0) && s0 + 2 * n0 + p0
                    == left.data_end.unwrap() as int + 1 && p0 <= MAX_PAGE_SIZE as int);
            }
            left.read_and_cache_code_blocks(heap);
            Some(left)
        } else {
            None
        }
    }

    /// Copies the left tag bytes over the rightmost bytes of the block.
    pub fn copy_code_block_to_end(&self, heap: &mut Vec<u8>)
        requires
            self.data_start is Some,
            self.data_end is Some,
            self.code_block_size is Some,
            1 <= self.code_block_size.unwrap(),
            self.data_start.unwrap() + 2 * self.code_block_size.unwrap()
                <= self.data_end.unwrap() + 1,
            self.data_end.unwrap() < old(heap).len(),
        ensures
            final(heap)@.len() == old(heap)@.len(),
            forall|k: int|
                0 <= k < final(heap)@.len() && !(self.data_end.unwrap() + 1
                    - self.code_block_size.unwrap() <= k < self.data_end.unwrap() + 1) ==> final(
                    heap
                )@[k] == old(heap)@[k],
            forall|t: int|
                0 <= t < self.code_block_size.unwrap() ==> #[trigger] code_block::byte_shift_eq(
                    final(heap)@,
                    self.data_start.unwrap() as int,
                    self.data_end.unwrap() + 1 - self.code_block_size.unwrap(),
                    t,
                ),
    {
        let start = self.data_start();
        let n = self.code_block_size();
        let target = self.data_end() + 1 - n;
        let mut i: usize = 0;
        while i < n
            invariant
                start + 2 * n <= target + n <= heap@.len(),
                target == self.data_end.unwrap() + 1 - n,
                start == self.data_start.unwrap(),
                n == self.code_block_size.unwrap(),
                0 <= i <= n,
                heap@.len() == old(heap)@.len(),
                forall|k: int|
                    0 <= k < heap@.len() && !(target <= k < target + i) ==> heap@[k] == old(
                        heap,
                    )@[k],
                forall|t: int|
                    0 <= t < i ==> #[trigger] code_block::byte_shift_eq(
                        heap@,
                        start as int,
                        target as int,
                        t,
                    ),
            decreases n - i,
        {
            let ghost h_prev = heap@;
            let b = heap[start + i];
            heap.set(target + i, b);
            proof {
                assert forall|t: int| 0 <= t < i + 1 implies #[trigger] code_block::byte_shift_eq(
                    heap@,
                    start as int,
                    target as int,
                    t,
                ) by {
                    if t < i {
                        assert(code_block::byte_shift_eq(h_prev, start as int, target as int, t));
                        assert(heap@[target as int + t] == h_prev[target as int + t]);
                        assert(heap@[start as int + t] == h_prev[start as int + t]);
                    } else {
                        assert(heap@[target as int + t] == b);
                        assert(heap@[start as int + t] == h_prev[start as int + t]);
                    }
                }
            }
            i = i + 1;
        }
    }

    /// Writes tags consistent with the cached block span `data_start ..=
    /// data_end`, mirrors the tag to the right end, refreshes the payload
    /// caches and stores the cached next pointer into the payload.
    pub fn write_data_size_code_blocks(&mut self, heap: &mut Vec<u8>, is_free: bool, start_of_page: usize)
        requires
            old(self).data_start is Some,
            old(self).data_end is Some,
            old(self).space.next is Some,
            ({
                let s = old(self).data_start.unwrap() as int;
                let e = old(self).data_end.unwrap() as int;
                &&& s + crate::globals::SMALLEST_POSSIBLE_FREE_SPACE as int <= e + 1
                &&& e - s + 1 <= MAX_PAGE_SIZE as int
                &&& e < old(heap).len()
            }),
            match old(self).space.next.unwrap() {
                Some(np) => start_of_page <= np && np - start_of_page < ERROR_NEXT_POINTER as int,
                None => true,
            },
        ensures
            final(heap)@.len() == old(heap)@.len(),
            forall|k: int|
                0 <= k < final(heap)@.len() && !(old(self).data_start.unwrap() <= k <= old(
                    self,
                ).data_end.unwrap()) ==> final(heap)@[k] == old(heap)@[k],
            final(self).data_start == old(self).data_start,
            final(self).data_end == old(self).data_end,
            final(self).page == old(self).page,
            final(self).space.next == old(self).space.next,
            final(self).code_block_size is Some,
            ({
                let s = old(self).data_start.unwrap() as int;
                let e = old(self).data_end.unwrap() as int;
                let n = final(self).code_block_size.unwrap() as int;
                let payload = e - s + 1 - 2 * n;
                &&& code_block::spec_internal_tag_ok(e - s + 1, n)
                &&& payload >= NEXT_POINTER_SIZE as int
                &&& final(self).space.ptr == Some((s + n) as usize)
                &&& final(self).space.size == Some(payload as usize)
                &&& code_block::block_ok(
                    final(heap)@,
                    code_block::Block { start: s, tag: n, payload: payload, free: is_free },
                )
                &&& crate::space::next_at(final(heap)@, s + n) == match old(
                    self,
                ).space.next.unwrap() {
                    Some(np) => np - start_of_page,
                    None => ERROR_NEXT_POINTER as int,
                }
            }),
    {
        let start = self.data_start();
        let data_end = self.data_end();
        let size = self.calculate_data_size();
        let code_block_size = code_block::generate_code_block_for_internal_size(
            heap,
            start,
            size,
            is_free,
        );
        self.set_code_block_size(code_block_size);
        let ghost h1 = heap@;
        self.copy_code_block_to_end(heap);
        proof {
            // the copy targets the right tag region, which cannot overlap
            // the left tag because the payload sits between them
            assert(code_block::agree_on(h1, heap@, start as int, start as int + code_block_size));
            code_block::lemma_tag_frame(h1, heap@, start as int, code_block_size as int);
        }
        self.space.set_size(size - 2 * code_block_size);
        self.space.set_ptr(start + code_block_size);
        let ghost h2 = heap@;
        let ghost b = code_block::Block {
            start: start as int,
            tag: code_block_size as int,
            payload: size - 2 * code_block_size,
            free: is_free,
        };
        proof {
            assert(code_block::is_block(h2, b.start, b.tag, b.payload));
            assert(code_block::block_ok(h2, b));
        }
        self.space.write_next(heap, start_of_page);
        proof {
            assert(code_block::agree_on(h2, heap@, b.start, b.ptr()));
            assert(code_block::agree_on(h2, heap@, b.right_tag(), b.end()));
            code_block::lemma_block_tags_frame(h2, heap@, b);
        }
    }

    /// Writes tags consistent with the cached payload size, mirrors the tag
    /// to the right end and recomputes `data_end` (the block may shrink when
    /// the new tag is shorter).
    pub fn write_space_size_code_blocks(&mut self, heap: &mut Vec<u8>, is_free: bool)
        requires
            old(self).data_start is Some,
            old(self).space.size is Some,
            1 <= old(self).space.size.unwrap(),
            old(self).space.size.unwrap() <= MAX_PAGE_SIZE,
            is_free ==> old(self).space.size.unwrap() >= NEXT_POINTER_SIZE,
            old(self).data_start.unwrap() + 2 * code_block::spec_needed_tag_size(
                old(self).space.size.unwrap() as int,
            ) + old(self).space.size.unwrap() <= old(heap).len(),
        ensures
            final(heap)@.len() == old(heap)@.len(),
            final(self).data_start == old(self).data_start,
            final(self).page == old(self).page,
            final(self).space.next == old(self).space.next,
            final(self).space.size == old(self).space.size,
            final(self).code_block_size is Some,
            final(self).code_block_size.unwrap() as int == code_block::spec_needed_tag_size(
                old(self).space.size.unwrap() as int,
            ),
            ({
                let s = old(self).data_start.unwrap() as int;
                let sz = old(self).space.size.unwrap() as int;
                let n = code_block::spec_needed_tag_size(sz);
                &&& forall|k: int|
                    0 <= k < final(heap)@.len() && !(s <= k < s + 2 * n + sz) ==> final(heap)@[k]
                        == old(heap)@[k]
                &&& final(self).space.ptr == Some((s + n) as usize)
                &&& final(self).data_end == Some((s + 2 * n + sz - 1) as usize)
                &&& code_block::block_ok(
                    final(heap)@,
                    code_block::Block { start: s, tag: n, payload: sz, free: is_free },
                )
            }),
    {
        proof {
            code_block::lemma_needed_le_5(old(self).space.size.unwrap() as int);
        }
        code_block::generate_code_block_for_payload_size(heap, self, is_free);
        let n = self.code_block_size();
        let start = self.data_start();
        let sz = self.space.size();
        self.set_data_end(start + 2 * n + sz - 1);
        let ghost h1 = heap@;
        self.copy_code_block_to_end(heap);
        proof {
            assert(code_block::agree_on(h1, heap@, start as int, start as int + n));
            code_block::lemma_tag_frame(h1, heap@, start as int, n as int);
            let b = code_block::Block {
                start: start as int,
                tag: n as int,
                payload: sz as int,
                free: is_free,
            };
            assert(code_block::is_block(heap@, b.start, b.tag, b.payload));
        }
    }
}

/// The cached fields describe the one block that matches what the caller
/// started from.
pub open spec fn matches_input(ad: AllocationData, s: int, n: int, p: int) -> bool {
    if ad.data_start is Some {
        s == ad.data_start.unwrap()
    } else if ad.space.ptr is Some {
        s + n == ad.space.ptr.unwrap()
    } else {
        ad.data_end is Some && s + 2 * n + p == ad.data_end.unwrap() + 1
    }
}

} // verus!
