//! A coalescing, segregated-fit allocator over a caller-supplied byte buffer.
//!
//! Every block of the buffer carries a variable-length boundary tag at both
//! ends encoding its payload size and a free bit.  Free blocks are threaded
//! through their own payload bytes into per-page bucket lists of size
//! classes.  Pages are carved from the buffer on demand and form a ring.
use vstd::prelude::*;

pub mod allocation_data;
pub mod bucket_list;
pub mod code_block;
pub mod globals;
pub mod laws;
pub mod page;
pub mod page_list;
pub mod space;

use crate::allocation_data::AllocationData;
use crate::code_block::unchanged_except;
use crate::globals::{MAX_PAGE_SIZE, NEXT_POINTER_SIZE, SMALLEST_POSSIBLE_FREE_SPACE};
use crate::page::free_success;
use crate::page_list::PageList;

verus! {

/// The allocator: a byte buffer it owns for its lifetime, and the ring of
/// pages carved from it.
pub struct Mara {
    /// The backing buffer.
    pub heap: Vec<u8>,
    /// The pages managing the buffer.
    pub page_list: PageList,
}

impl Mara {
    /// The allocator invariant: every page is well formed over the buffer.
    pub open spec fn wf(self) -> bool {
        self.page_list.wf(self.heap@)
    }

    /// `p` is the payload start of a live allocation of at least `req`
    /// bytes.
    pub open spec fn allocated(self, p: int, req: int) -> bool {
        self.page_list.allocated(p, req)
    }

    /// `addr` lies inside the payload of the live allocation at `p`.
    pub open spec fn in_live_payload(self, p: int, addr: int) -> bool {
        exists|pi: int, kb: int|
            0 <= pi < self.page_list.pages@.len() && 0 <= kb
                < self.page_list.pages@[pi].blocks@.len() && !(
            #[trigger] self.page_list.pages@[pi].blocks@[kb]).free
                && self.page_list.pages@[pi].blocks@[kb].ptr() == p && p <= addr < p
                + self.page_list.pages@[pi].blocks@[kb].payload
    }

    /// Takes ownership of `data` as the backing buffer and carves the first
    /// page of `page_size` bytes from its front.
    pub fn new(data: Vec<u8>, page_size: usize) -> (r: Mara)
        requires
            SMALLEST_POSSIBLE_FREE_SPACE <= page_size <= MAX_PAGE_SIZE,
            page_size <= data.len(),
        ensures
            r.wf(),
            r.heap@.len() == data@.len(),
            r.page_list.page_size == page_size,
            r.page_list.data_size == data@.len(),
            r.page_list.pages@.len() == 1,
            r.page_list.pages@[0].blocks@.len() == 1,
            r.page_list.pages@[0].blocks@[0].free,
            r.page_list.pages@[0].blocks@[0].start == 0,
            crate::code_block::spec_internal_tag_ok(
                page_size as int,
                r.page_list.pages@[0].blocks@[0].tag,
            ),
            r.page_list.pages@[0].blocks@[0].payload == page_size - 2
                * r.page_list.pages@[0].blocks@[0].tag,
            r.page_list.pages@[0].bucket_list.bucket_list@[crate::bucket_list::spec_lookup_bucket(
                r.page_list.pages@[0].blocks@[0].payload,
            )] == Some(r.page_list.pages@[0].blocks@[0].ptr() as usize),
            forall|i: int|
                0 <= i < crate::globals::BUCKET_LIST_SIZE as int && i
                    != crate::bucket_list::spec_lookup_bucket(
                    r.page_list.pages@[0].blocks@[0].payload,
                ) ==> #[trigger] r.page_list.pages@[0].bucket_list.bucket_list@[i] is None,
            unchanged_except(data@, r.heap@, 0, page_size as int),
    {
        let mut heap = data;
        let page_list = PageList::new(&mut heap, page_size);
        Mara { heap, page_list }
    }

    /// Reserves at least `size_in_byte` bytes and returns the payload start
    /// of the reserved block, or `None` when no page can serve the request
    /// and the buffer has no room for another page.  Requests smaller than
    /// a next pointer are rounded up to one.
    pub fn dynamic_new(&mut self, size_in_byte: usize) -> (r: Option<usize>)
        requires
            old(self).wf(),
            1 <= size_in_byte <= MAX_PAGE_SIZE,
        ensures
            final(self).wf(),
            final(self).heap@.len() == old(self).heap@.len(),
            final(self).page_list.page_size == old(self).page_list.page_size,
            final(self).page_list.data_size == old(self).page_list.data_size,
            ({
                let req = if size_in_byte < NEXT_POINTER_SIZE {
                    NEXT_POINTER_SIZE as int
                } else {
                    size_in_byte as int
                };
                match r {
                    Some(p) => final(self).allocated(p as int, req) && final(self).allocated(
                        p as int,
                        size_in_byte as int,
                    ),
                    None => !final(self).page_list.has_fitting_space(req) && (final(self).page_list.pages@.len() + 1) * final(self).page_list.page_size > final(self).page_list.data_size,
                }
            }),
    {
        let size = if size_in_byte < NEXT_POINTER_SIZE {
            NEXT_POINTER_SIZE
        } else {
            size_in_byte
        };
        let mut allocation_data = AllocationData::new();
        allocation_data.space.set_size(size);
        self.page_list.dynamic_new(&mut self.heap, &mut allocation_data);
        if allocation_data.space.is_some() {
            Some(allocation_data.space.ptr())
        } else {
            None
        }
    }

    /// Frees the reserved block whose payload starts at `address`,
    /// coalescing it with any free neighbor; `address` must come from
    /// `dynamic_new` and not have been freed since.
    pub fn dynamic_delete(&mut self, address: usize)
        requires
            old(self).wf(),
            old(self).allocated(address as int, 0),
        ensures
            final(self).wf(),
            final(self).heap@.len() == old(self).heap@.len(),
            final(self).page_list.page_size == old(self).page_list.page_size,
            final(self).page_list.data_size == old(self).page_list.data_size,
            final(self).page_list.pages@.len() == old(self).page_list.pages@.len(),
            exists|pi: int|
                0 <= pi < old(self).page_list.pages@.len() && #[trigger] free_success(
                    old(self).page_list.pages@[pi].blocks@,
                    final(self).page_list.pages@[pi].blocks@,
                    address as int,
                ) && (forall|pj: int|
                    0 <= pj < old(self).page_list.pages@.len() && pj != pi ==> final(self).page_list.pages@[pj] == old(self).page_list.pages@[pj]),
    {
        self.page_list.dynamic_delete(&mut self.heap, address);
    }

    /// Writes one byte into a live allocation's payload: the bytes handed
    /// out by `dynamic_new` are caller-owned until freed.
    pub fn write_byte(&mut self, p: usize, offset: usize, value: u8)
        requires
            old(self).wf(),
            p + offset <= usize::MAX,
            old(self).in_live_payload(p as int, p + offset),
        ensures
            final(self).wf(),
            final(self).page_list == old(self).page_list,
            final(self).heap@.len() == old(self).heap@.len(),
            final(self).heap@ == old(self).heap@.update(p + offset, value),
    {
        let ghost h0 = self.heap@;
        let ghost (pi0, kb0) = choose|pi: int, kb: int|
            0 <= pi < old(self).page_list.pages@.len() && 0 <= kb < old(self).page_list.pages@[pi].blocks@.len() && !(
            #[trigger] old(self).page_list.pages@[pi].blocks@[kb]).free && old(self).page_list.pages@[pi].blocks@[kb].ptr() == p as int && p as int <= p + offset < p
                + old(self).page_list.pages@[pi].blocks@[kb].payload;
        proof {
            assert(self.page_list.pages@[pi0].wf(h0));
            crate::page::lemma_block_ptr_in_page(self.page_list.pages@[pi0], h0, kb0);
            assert(crate::code_block::block_ok(h0, self.page_list.pages@[pi0].blocks@[kb0]));
            assert(p + offset < self.page_list.pages@[pi0].end_of_page);
            assert(p + offset < h0.len());
        }
        let addr = p + offset;
        self.heap.set(addr, value);
        proof {
            let h2 = self.heap@;
            let a = addr as int;
            assert(unchanged_except(h0, h2, a, a + 1));
            assert forall|pj: int|
                0 <= pj < self.page_list.pages@.len() implies (
            #[trigger] self.page_list.pages@[pj]).wf(h2) by {
                if pj == pi0 {
                    self.page_list.pages@[pi0].lemma_used_payload_write(h0, h2, kb0, a, a + 1);
                } else {
                    if pj < pi0 {
                        crate::page_list::lemma_range_ordered(
                            pj,
                            pi0,
                            self.page_list.page_size as int,
                        );
                    } else {
                        crate::page_list::lemma_range_ordered(
                            pi0,
                            pj,
                            self.page_list.page_size as int,
                        );
                    }
                    self.page_list.pages@[pj].lemma_page_frame(h0, h2, a, a + 1);
                }
            }
            assert(h2 =~= h0.update(a, value));
        }
    }

    /// Reads one byte of the buffer.
    pub fn read_byte(&self, address: usize) -> (r: u8)
        requires
            address < self.heap@.len(),
        ensures
            r == self.heap@[address as int],
    {
        self.heap[address]
    }
}

} // verus!
