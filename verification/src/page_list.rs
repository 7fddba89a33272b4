//! The ring of pages carved from the backing buffer.
//!
//! Pages are cut from the front of the buffer, one `page_size` bytes each.
//! An allocation walks the pages in ring order; when none can serve it and
//! the buffer still has room, a new page is carved and tried, until the
//! buffer is exhausted.
use vstd::prelude::*;

use crate::allocation_data::AllocationData;
use crate::code_block;
use crate::globals::{MAX_PAGE_SIZE, NEXT_POINTER_SIZE, SMALLEST_POSSIBLE_FREE_SPACE};
use crate::page::{alloc_success, free_success, Page};

verus! {

/// Page ranges of equal size are ordered with their indices.
pub proof fn lemma_range_ordered(p1: int, p2: int, ps: int)
    requires
        p1 < p2,
        ps >= 0,
    ensures
        (p1 + 1) * ps <= p2 * ps,
        p1 * ps <= p2 * ps,
    decreases 0int,
{
    assert((p1 + 1) * ps <= p2 * ps) by (nonlinear_arith)
        requires
            p1 + 1 <= p2,
            ps >= 0,
    ;
    assert(p1 * ps <= p2 * ps) by (nonlinear_arith)
        requires
            p1 <= p2,
            ps >= 0,
    ;
}

pub struct PageList {
    /// Bytes each page spans.
    pub page_size: usize,
    /// The pages, in buffer order; page `i` spans
    /// `[i * page_size, (i + 1) * page_size)`.
    pub pages: Vec<Page>,
    /// The page the next allocation search starts from.
    pub first_page: usize,
    /// Size of the backing buffer.
    pub data_size: usize,
}

impl PageList {
    /// Every page is well formed over its own slice of the buffer.
    pub open spec fn wf(self, h: Seq<u8>) -> bool {
        &&& h.len() == self.data_size
        &&& SMALLEST_POSSIBLE_FREE_SPACE <= self.page_size <= MAX_PAGE_SIZE as int
        &&& 1 <= self.pages@.len()
        &&& self.pages@.len() * self.page_size <= self.data_size
        &&& self.first_page < self.pages@.len()
        &&& forall|i: int|
            0 <= i < self.pages@.len() ==> (#[trigger] self.pages@[i]).start_of_page as int == i
                * self.page_size && self.pages@[i].end_of_page as int == (i + 1) * self.page_size
        &&& forall|i: int| 0 <= i < self.pages@.len() ==> (#[trigger] self.pages@[i]).wf(h)
    }

    /// The payload at `p` belongs to a used block of at least `req` bytes
    /// in some page.
    pub open spec fn allocated(self, p: int, req: int) -> bool {
        exists|pi: int, kb: int|
            0 <= pi < self.pages@.len() && 0 <= kb < self.pages@[pi].blocks@.len() && !(
            #[trigger] self.pages@[pi].blocks@[kb]).free && self.pages@[pi].blocks@[kb].ptr() == p
                && self.pages@[pi].blocks@[kb].payload >= req
    }

    /// Some page still has a free block of at least `req` bytes.
    pub open spec fn has_fitting_space(self, req: int) -> bool {
        exists|pi: int|
            0 <= pi < self.pages@.len() && (#[trigger] self.pages@[pi]).bucket_list.has_fitting_space(
                req,
            )
    }

    /// Sets up the list over a buffer of `data_size` bytes, carving the
    /// first page from its front.
    pub fn new(heap: &mut Vec<u8>, page_size: usize) -> (r: PageList)
        requires
            SMALLEST_POSSIBLE_FREE_SPACE <= page_size <= MAX_PAGE_SIZE,
            page_size <= old(heap).len(),
        ensures
            r.wf(final(heap)@),
            final(heap)@.len() == old(heap)@.len(),
            r.page_size == page_size,
            r.data_size == old(heap)@.len(),
            r.pages@.len() == 1,
            r.first_page == 0,
            r.pages@[0].blocks@.len() == 1,
            r.pages@[0].blocks@[0].free,
            r.pages@[0].blocks@[0].start == 0,
            code_block::spec_internal_tag_ok(page_size as int, r.pages@[0].blocks@[0].tag),
            r.pages@[0].blocks@[0].payload == page_size - 2 * r.pages@[0].blocks@[0].tag,
            r.pages@[0].bucket_list.bucket_list@[crate::bucket_list::spec_lookup_bucket(
                r.pages@[0].blocks@[0].payload,
            )] == Some(r.pages@[0].blocks@[0].ptr() as usize),
            forall|i: int|
                0 <= i < crate::globals::BUCKET_LIST_SIZE as int && i
                    != crate::bucket_list::spec_lookup_bucket(r.pages@[0].blocks@[0].payload)
                    ==> #[trigger] r.pages@[0].bucket_list.bucket_list@[i] is None,
            code_block::unchanged_except(old(heap)@, final(heap)@, 0, page_size as int),
    {
        let data_size = heap.len();
        let page = Page::init(heap, 0, page_size);
        let mut pages: Vec<Page> = Vec::new();
        pages.push(page);
        let r = PageList { page_size, pages, first_page: 0, data_size };
        proof {
            assert(r.pages@[0].wf(heap@));
        }
        r
    }

    /// The page the next search starts from.
    pub fn get_page(&self) -> (r: &Page)
        requires
            self.first_page < self.pages@.len(),
        ensures
            r == self.pages@[self.first_page as int],
    {
        &self.pages[self.first_page]
    }

    /// Reserves a block of the payload size cached in `alloc_data.space`:
    /// walks the pages, and when none can serve, keeps carving new pages
    /// from the buffer until one can or the buffer is exhausted.
    pub fn dynamic_new(&mut self, heap: &mut Vec<u8>, alloc_data: &mut AllocationData)
        requires
            old(self).wf(old(heap)@),
            old(alloc_data).space.size is Some,
            NEXT_POINTER_SIZE <= old(alloc_data).space.size.unwrap(),
            old(alloc_data).space.size.unwrap() <= MAX_PAGE_SIZE,
            old(alloc_data).space.ptr is None,
            old(alloc_data).data_start is None,
        ensures
            final(self).wf(final(heap)@),
            final(heap)@.len() == old(heap)@.len(),
            final(self).page_size == old(self).page_size,
            final(self).data_size == old(self).data_size,
            final(alloc_data).space.size == old(alloc_data).space.size,
            match final(alloc_data).space.ptr {
                Some(p) => final(self).allocated(
                    p as int,
                    old(alloc_data).space.size.unwrap() as int,
                ),
                None => !final(self).has_fitting_space(old(alloc_data).space.size.unwrap() as int)
                    && (final(self).pages@.len() + 1) * final(self).page_size
                    > final(self).data_size,
            },
    {
        let ghost req = old(alloc_data).space.size.unwrap() as int;
        let count = self.pages.len();
        let mut i: usize = 0;
        while i < count
            invariant
                self.wf(heap@),
                heap@.len() == old(heap)@.len(),
                self.page_size == old(self).page_size,
                self.data_size == old(self).data_size,
                self.pages@.len() == count,
                0 <= i <= count,
                alloc_data.space.size == old(alloc_data).space.size,
                alloc_data.space.ptr is None,
                alloc_data.data_start is None,
                old(alloc_data).space.size == Some(alloc_data.space.size.unwrap()),
                NEXT_POINTER_SIZE <= alloc_data.space.size.unwrap(),
                alloc_data.space.size.unwrap() <= MAX_PAGE_SIZE,
                req == alloc_data.space.size.unwrap() as int,
                forall|pi: int|
                    0 <= pi < i ==> !(#[trigger] self.pages@[pi]).bucket_list.has_fitting_space(
                        req,
                    ),
            decreases count - i,
        {
            let ghost pages_before = self.pages@;
            let ghost size_before = alloc_data.space.size.unwrap() as int;
            let allocated_here = self.try_page(heap, alloc_data, i);
            if allocated_here {
                self.first_page = i;
                return ;
            }
            proof {
                assert(size_before == req);
                assert(!pages_before[i as int].bucket_list.has_fitting_space(size_before));
                assert forall|pi: int|
                    0 <= pi <= i implies !(
                #[trigger] self.pages@[pi]).bucket_list.has_fitting_space(req) by {
                    assert(self.pages@[pi] == pages_before[pi]);
                    if pi < i as int {
                        assert(!pages_before[pi].bucket_list.has_fitting_space(req));
                    }
                }
            }
            i = i + 1;
        }
        // every existing page failed: carve new pages while the buffer has
        // room for another
        while self.data_size - self.pages.len() * self.page_size >= self.page_size
            invariant
                self.wf(heap@),
                heap@.len() == old(heap)@.len(),
                self.page_size == old(self).page_size,
                self.data_size == old(self).data_size,
                alloc_data.space.size == old(alloc_data).space.size,
                alloc_data.space.ptr is None,
                alloc_data.data_start is None,
                old(alloc_data).space.size == Some(alloc_data.space.size.unwrap()),
                NEXT_POINTER_SIZE <= alloc_data.space.size.unwrap(),
                alloc_data.space.size.unwrap() <= MAX_PAGE_SIZE,
                req == alloc_data.space.size.unwrap() as int,
                forall|pi: int|
                    0 <= pi < self.pages@.len() ==> !(
                    #[trigger] self.pages@[pi]).bucket_list.has_fitting_space(req),
            decreases self.data_size - self.pages@.len() * self.page_size,
        {
            let count = self.pages.len();
            proof {
                assert(count * self.page_size <= self.data_size);
                assert((count + 1) * self.page_size == count * self.page_size
                    + self.page_size) by (nonlinear_arith);
            }
            let ghost h_before = heap@;
            let new_page = Page::init(heap, count * self.page_size, self.page_size);
            proof {
                assert forall|pi: int|
                    0 <= pi < self.pages@.len() implies (#[trigger] self.pages@[pi]).wf(
                    heap@,
                ) by {
                    lemma_range_ordered(pi, count as int, self.page_size as int);
                    self.pages@[pi].lemma_page_frame(
                        h_before,
                        heap@,
                        count * self.page_size,
                        (count + 1) * self.page_size,
                    );
                }
            }
            let ghost old_pages_mid = self.pages@;
            // close the ring through the new page
            let mut last = self.pages.remove(count - 1);
            last.set_next_page(count);
            self.pages.insert(count - 1, last);
            proof {
                assert(self.pages@ =~= old_pages_mid.update(count - 1, last));
            }
            self.pages.push(new_page);
            let ghost pages_before = self.pages@;
            let allocated_here = self.try_page(heap, alloc_data, count);
            if allocated_here {
                self.first_page = count;
                return ;
            }
            proof {
                assert forall|pi: int|
                    0 <= pi < self.pages@.len() implies !(
                #[trigger] self.pages@[pi]).bucket_list.has_fitting_space(req) by {
                    assert(self.pages@[pi] == pages_before[pi]);
                    if pi < count as int {
                        assert(!pages_before[pi].bucket_list.has_fitting_space(req));
                    }
                }
            }
        }
        proof {
            assert((self.pages@.len() + 1) * self.page_size == self.pages@.len() * self.page_size
                + self.page_size) by (nonlinear_arith);
            assert(self.data_size - self.pages@.len() * self.page_size < self.page_size);
        }
    }

    /// Tries to reserve from page `i` alone; restores the list around the
    /// page it worked on.
    fn try_page(&mut self, heap: &mut Vec<u8>, alloc_data: &mut AllocationData, i: usize) -> (r:
        bool)
        requires
            old(self).wf(old(heap)@),
            i < old(self).pages@.len(),
            old(alloc_data).space.size is Some,
            NEXT_POINTER_SIZE <= old(alloc_data).space.size.unwrap(),
            old(alloc_data).space.size.unwrap() <= MAX_PAGE_SIZE,
            old(alloc_data).space.ptr is None,
            old(alloc_data).data_start is None,
        ensures
            final(self).wf(final(heap)@),
            final(heap)@.len() == old(heap)@.len(),
            final(self).page_size == old(self).page_size,
            final(self).data_size == old(self).data_size,
            final(self).pages@.len() == old(self).pages@.len(),
            final(alloc_data).space.size == old(alloc_data).space.size,
            forall|pi: int|
                0 <= pi < old(self).pages@.len() && pi != i
                    ==> #[trigger] final(self).pages@[pi] == old(self).pages@[pi],
            r == (final(alloc_data).space.ptr is Some),
            !r ==> final(self).pages@[i as int] == old(self).pages@[i as int]
                && !old(self).pages@[i as int].bucket_list.has_fitting_space(
                old(alloc_data).space.size.unwrap() as int,
            ) && final(heap)@ == old(heap)@ && final(alloc_data).space.ptr is None
                && final(alloc_data).data_start is None,
            r ==> final(self).allocated(
                final(alloc_data).space.ptr.unwrap() as int,
                old(alloc_data).space.size.unwrap() as int,
            ),
    {
        let ghost h0 = heap@;
        let mut page = self.pages.remove(i);
        let ghost pre_page = page;
        page.get_dynamic_block(heap, alloc_data);
        let found = alloc_data.space.is_some();
        self.pages.insert(i, page);
        proof {
            assert(self.pages@ =~= old(self).pages@.update(i as int, page));
            assert forall|pi: int|
                0 <= pi < self.pages@.len() implies (#[trigger] self.pages@[pi]).wf(heap@) by {
                if pi == i as int {
                } else {
                    assert(self.pages@[pi] == old(self).pages@[pi]);
                    if pi < i as int {
                        lemma_range_ordered(pi, i as int, old(self).page_size as int);
                    } else {
                        lemma_range_ordered(i as int, pi, old(self).page_size as int);
                    }
                    old(self).pages@[pi].lemma_page_frame(
                        h0,
                        heap@,
                        pre_page.start_of_page as int,
                        pre_page.end_of_page as int,
                    );
                }
            }
            if found {
                reveal(crate::page::alloc_success);
                let p = alloc_data.space.ptr.unwrap() as int;
                let req = old(alloc_data).space.size.unwrap() as int;
                let kb = choose|kb: int|
                    #![trigger pre_page.blocks@[kb]]
                    {
                        &&& 0 <= kb < pre_page.blocks@.len()
                        &&& pre_page.blocks@[kb].free
                        &&& pre_page.blocks@[kb].payload >= req
                        &&& 0 <= kb < page.blocks@.len()
                        &&& !page.blocks@[kb].free
                        &&& page.blocks@[kb].payload >= req
                        &&& p == page.blocks@[kb].ptr()
                    };
                assert(self.pages@[i as int].blocks@[kb].ptr() == p);
                assert(self.allocated(p, req));
            } else {
                assert(heap@ == h0 && page == pre_page);
                assert(self.pages@ =~= old(self).pages@);
            }
        }
        found
    }

    /// Frees the block whose payload starts at `address`: finds the owning
    /// page and lets it coalesce and relist the block.
    pub fn dynamic_delete(&mut self, heap: &mut Vec<u8>, address: usize)
        requires
            old(self).wf(old(heap)@),
            exists|pi: int, kb: int|
                0 <= pi < old(self).pages@.len() && 0 <= kb < old(self).pages@[pi].blocks@.len()
                    && !(#[trigger] old(self).pages@[pi].blocks@[kb]).free && old(
                    self,
                ).pages@[pi].blocks@[kb].ptr() == address,
        ensures
            final(self).wf(final(heap)@),
            final(heap)@.len() == old(heap)@.len(),
            final(self).page_size == old(self).page_size,
            final(self).data_size == old(self).data_size,
            final(self).pages@.len() == old(self).pages@.len(),
            exists|pi: int|
                0 <= pi < old(self).pages@.len() && #[trigger] free_success(
                    old(self).pages@[pi].blocks@,
                    final(self).pages@[pi].blocks@,
                    address as int,
                ) && (forall|pj: int|
                    0 <= pj < old(self).pages@.len() && pj != pi ==> final(self).pages@[pj] == old(
                        self,
                    ).pages@[pj]),
    {
        let ghost h0 = heap@;
        let ghost (pi0, kb0) = choose|pi: int, kb: int|
            0 <= pi < old(self).pages@.len() && 0 <= kb < old(self).pages@[pi].blocks@.len() && !(
            #[trigger] old(self).pages@[pi].blocks@[kb]).free && old(
                self,
            ).pages@[pi].blocks@[kb].ptr() == address;
        proof {
            let pg = self.pages@[pi0];
            crate::page::lemma_block_ptr_in_page(pg, h0, kb0);
        }
        let count = self.pages.len();
        let mut i: usize = 0;
        while i < count
            invariant
                self.wf(heap@),
                self == old(self),
                heap@ == h0,
                h0 == old(heap)@,
                count == self.pages@.len(),
                0 <= i <= count,
                0 <= pi0 < count,
                self.pages@[pi0].start_of_page <= address < self.pages@[pi0].end_of_page,
                self.pages@[pi0].blocks@[kb0].ptr() == address,
                0 <= kb0 < self.pages@[pi0].blocks@.len(),
                !self.pages@[pi0].blocks@[kb0].free,
                forall|t: int| 0 <= t < i ==> !((#[trigger] self.pages@[t]).start_of_page
                    <= address < self.pages@[t].end_of_page),
            decreases count - i,
        {
            let in_space = self.pages[i].block_is_in_space(address);
            if in_space {
                proof {
                    // page ranges are disjoint, so this is the owning page
                    assert(self.pages@[i as int].start_of_page as int == i as int
                        * self.page_size);
                    assert(self.pages@[pi0].start_of_page as int == pi0 * self.page_size);
                    crate::page::lemma_same_range(
                        i as int,
                        pi0,
                        self.page_size as int,
                        address as int,
                    );
                }
                let mut alloc_data = AllocationData::new();
                alloc_data.space.set_ptr(address);
                alloc_data.set_page(i);
                let mut page = self.pages.remove(i);
                page.delete_block(heap, &mut alloc_data);
                self.pages.insert(i, page);
                proof {
                    assert(self.pages@ =~= old(self).pages@.update(i as int, page));
                    assert forall|pj: int|
                        0 <= pj < self.pages@.len() implies (#[trigger] self.pages@[pj]).wf(
                        heap@,
                    ) by {
                        if pj != i as int {
                            assert(self.pages@[pj] == old(self).pages@[pj]);
                            if pj < i as int {
                                lemma_range_ordered(pj, i as int, old(self).page_size as int);
                            } else {
                                lemma_range_ordered(i as int, pj, old(self).page_size as int);
                            }
                            old(self).pages@[pj].lemma_page_frame(
                                h0,
                                heap@,
                                old(self).pages@[i as int].start_of_page as int,
                                old(self).pages@[i as int].end_of_page as int,
                            );
                        }
                    }
                    assert(free_success(
                        old(self).pages@[pi0].blocks@,
                        self.pages@[pi0].blocks@,
                        address as int,
                    ));
                }
                return ;
            }
            i = i + 1;
        }
        proof {
            assert(false);
        }
    }
}

} // verus!
