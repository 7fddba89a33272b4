//! A typed view over one block's payload region.
//!
//! A `Space` caches the payload start, the payload size and the cached next
//! pointer of a block, each in an explicit "unset" state until it is read or
//! computed.  For a free block the first `NEXT_POINTER_SIZE` payload bytes
//! hold the next pointer: a page-relative offset to the payload start of the
//! next free block in the same bucket, or the all-ones sentinel.
use vstd::prelude::*;

use crate::code_block;
use crate::globals::{ERROR_NEXT_POINTER, MAX_PAGE_SIZE, NEXT_POINTER_SIZE};

verus! {

/// The value of the `NEXT_POINTER_SIZE` little-endian bytes at `p`.
pub open spec fn next_at(h: Seq<u8>, p: int) -> int {
    (h[p] as int) + 256 * (h[p + 1] as int) + 0x10000 * (h[p + 2] as int) + 0x100_0000 * (h[p
        + 3] as int)
}

/// The next pointer only depends on its own four bytes.
pub proof fn lemma_next_at_frame(h1: Seq<u8>, h2: Seq<u8>, p: int)
    requires
        code_block::agree_on(h1, h2, p, p + NEXT_POINTER_SIZE as int),
        0 <= p,
        p + NEXT_POINTER_SIZE as int <= h1.len(),
    ensures
        next_at(h2, p) == next_at(h1, p),
{
    assert(h1[p] == h2[p]);
    assert(h1[p + 1] == h2[p + 1]);
    assert(h1[p + 2] == h2[p + 2]);
    assert(h1[p + 3] == h2[p + 3]);
}

/// Reads the four next-pointer bytes at `p` as one value.
pub fn read_next_pointer(heap: &Vec<u8>, p: usize) -> (r: u32)
    requires
        p + NEXT_POINTER_SIZE <= heap.len(),
    ensures
        r as int == next_at(heap@, p as int),
{
    let b0 = heap[p] as u32;
    let b1 = heap[p + 1] as u32;
    let b2 = heap[p + 2] as u32;
    let b3 = heap[p + 3] as u32;
    b0 + 256 * b1 + 0x10000 * b2 + 0x100_0000 * b3
}

/// Writes `v` into the four next-pointer bytes at `p`.
pub fn write_next_pointer(heap: &mut Vec<u8>, p: usize, v: u32)
    requires
        p + NEXT_POINTER_SIZE <= old(heap).len(),
    ensures
        final(heap)@.len() == old(heap)@.len(),
        forall|k: int|
            0 <= k < final(heap)@.len() && !(p <= k < p + NEXT_POINTER_SIZE) ==> final(heap)@[k]
                == old(heap)@[k],
        next_at(final(heap)@, p as int) == v as int,
{
    let d0 = (v % 256) as u8;
    let r1 = v / 256;
    let d1 = (r1 % 256) as u8;
    let r2 = r1 / 256;
    let d2 = (r2 % 256) as u8;
    let d3 = (r2 / 256) as u8;
    heap.set(p, d0);
    heap.set(p + 1, d1);
    heap.set(p + 2, d2);
    heap.set(p + 3, d3);
    proof {
        assert(v as int == 256 * (r1 as int) + d0 as int);
        assert(r1 as int == 256 * (r2 as int) + d1 as int);
        assert(r2 as int == 256 * ((r2 / 256) as int) + d2 as int);
    }
}

/// Cached facts about one payload region.
#[derive(Copy, Clone)]
pub struct Space {
    /// Payload start: the address the allocator hands to its caller; for a
    /// free block the next pointer is stored here.
    pub ptr: Option<usize>,
    /// Payload size in bytes.
    pub size: Option<usize>,
    /// Cached next pointer: `Some(None)` caches "no successor",
    /// `Some(Some(p))` caches a successor whose payload starts at `p`.
    pub next: Option<Option<usize>>,
}

impl Space {
    /// A space with every field unset.
    pub fn new() -> (r: Space)
        ensures
            r.ptr is None,
            r.size is None,
            r.next is None,
    {
        Space { ptr: None, size: None, next: None }
    }

    /// The cached payload start; reading it before it is set is an error.
    pub fn ptr(&self) -> (r: usize)
        requires
            self.ptr is Some,
        ensures
            self.ptr == Some(r),
    {
        self.ptr.unwrap()
    }

    /// The cached payload size; reading it before it is set is an error.
    pub fn size(&self) -> (r: usize)
        requires
            self.size is Some,
        ensures
            self.size == Some(r),
    {
        self.size.unwrap()
    }

    /// The cached next space, rebuilt from the cached next pointer.
    pub fn next(&self) -> (r: Option<Space>)
        requires
            self.next is Some,
        ensures
            match self.next {
                Some(None) => r is None,
                Some(Some(p)) => r == Some(
                    Space { ptr: Some(p), size: None::<usize>, next: None::<Option<usize>> },
                ),
                None => false,
            },
    {
        match self.next {
            None => None,
            Some(None) => None,
            Some(Some(p)) => Some(Space { ptr: Some(p), size: None, next: None }),
        }
    }

    pub fn set_ptr(&mut self, ptr: usize)
        ensures
            final(self).ptr == Some(ptr),
            final(self).size == old(self).size,
            final(self).next == old(self).next,
    {
        self.ptr = Some(ptr);
    }

    pub fn set_size(&mut self, size: usize)
        ensures
            final(self).size == Some(size),
            final(self).ptr == old(self).ptr,
            final(self).next == old(self).next,
    {
        self.size = Some(size)
    }

    /// Caches `space` as the next free space; `None` caches "no successor".
    pub fn set_next(&mut self, space: Option<&Space>)
        requires
            match space {
                Some(s) => s.ptr is Some,
                None => true,
            },
        ensures
            final(self).next == match space {
                Some(s) => Some(Some(s.ptr.unwrap())),
                None => Some(None::<usize>),
            },
            final(self).ptr == old(self).ptr,
            final(self).size == old(self).size,
    {
        match space {
            None => self.next = Some(None),
            Some(s) => self.next = Some(Some(s.ptr())),
        }
    }

    pub fn is_some(&self) -> (r: bool)
        ensures
            r == (self.ptr is Some),
    {
        self.ptr.is_some()
    }

    pub fn size_is_some(&self) -> (r: bool)
        ensures
            r == (self.size is Some),
    {
        self.size.is_some()
    }

    /// Writes the cached next pointer into the payload bytes, as an offset
    /// from the start of the page, or as the sentinel for "no successor".
    pub fn write_next(&self, heap: &mut Vec<u8>, start_of_page: usize)
        requires
            self.ptr is Some,
            self.next is Some,
            self.ptr.unwrap() + NEXT_POINTER_SIZE <= old(heap).len(),
            match self.next.unwrap() {
                Some(np) => start_of_page <= np && np - start_of_page < ERROR_NEXT_POINTER as int,
                None => true,
            },
        ensures
            final(heap)@.len() == old(heap)@.len(),
            forall|k: int|
                0 <= k < final(heap)@.len() && !(self.ptr.unwrap() <= k < self.ptr.unwrap()
                    + NEXT_POINTER_SIZE) ==> final(heap)@[k] == old(heap)@[k],
            next_at(final(heap)@, self.ptr.unwrap() as int) == match self.next.unwrap() {
                Some(np) => np - start_of_page,
                None => ERROR_NEXT_POINTER as int,
            },
    {
        match self.next {
            None => {
                proof {
                    assert(false);
                }
            },
            Some(None) => {
                write_next_pointer(heap, self.ptr(), ERROR_NEXT_POINTER);
            },
            Some(Some(np)) => {
                write_next_pointer(heap, self.ptr(), (np - start_of_page) as u32);
            },
        }
    }

    /// Reads the next pointer stored in the payload bytes and turns it back
    /// into a space, or `None` on the sentinel.
    pub fn read_next(&self, heap: &Vec<u8>, start_of_page: usize) -> (r: Option<Space>)
        requires
            self.ptr is Some,
            self.ptr.unwrap() + NEXT_POINTER_SIZE <= heap.len(),
            next_at(heap@, self.ptr.unwrap() as int) != ERROR_NEXT_POINTER as int
                ==> start_of_page + next_at(heap@, self.ptr.unwrap() as int) <= usize::MAX,
        ensures
            match r {
                None => next_at(heap@, self.ptr.unwrap() as int) == ERROR_NEXT_POINTER as int,
                Some(s) => {
                    &&& next_at(heap@, self.ptr.unwrap() as int) != ERROR_NEXT_POINTER as int
                    &&& s.ptr == Some(
                        (start_of_page + next_at(heap@, self.ptr.unwrap() as int)) as usize,
                    )
                    &&& s.size is None
                    &&& s.next is None
                },
            },
    {
        let next = read_next_pointer(heap, self.ptr());
        if next == ERROR_NEXT_POINTER {
            None
        } else {
            Some(Space { ptr: Some(start_of_page + next as usize), size: None, next: None })
        }
    }

    /// Reads the payload size from the tag that ends just left of the
    /// payload start and caches it.
    pub fn cache_size_from_code_block(&mut self, heap: &Vec<u8>)
        requires
            old(self).ptr is Some,
            old(self).ptr.unwrap() >= 1,
            exists|s: int, n: int|
                s + n == old(self).ptr.unwrap() as int && code_block::is_tag(heap@, s, n),
            forall|s: int, n: int|
                s + n == old(self).ptr.unwrap() as int && code_block::is_tag(heap@, s, n)
                    ==> code_block::tag_value(heap@, s, n) <= MAX_PAGE_SIZE as int,
        ensures
            final(self).ptr == old(self).ptr,
            final(self).next == old(self).next,
            forall|s: int, n: int|
                s + n == old(self).ptr.unwrap() as int && code_block::is_tag(heap@, s, n)
                    ==> final(self).size == Some(
                    code_block::tag_value(heap@, s, n) as usize,
                ),
    {
        let (size, _) = code_block::read_from_right(heap, self.ptr() - 1);
        self.set_size(size);
    }

    /// Reads the next pointer from memory and caches it.
    pub fn cache_next(&mut self, heap: &Vec<u8>, start_of_page: usize)
        requires
            old(self).ptr is Some,
            old(self).ptr.unwrap() + NEXT_POINTER_SIZE <= heap.len(),
            next_at(heap@, old(self).ptr.unwrap() as int) != ERROR_NEXT_POINTER as int
                ==> start_of_page + next_at(heap@, old(self).ptr.unwrap() as int) <= usize::MAX,
        ensures
            final(self).ptr == old(self).ptr,
            final(self).size == old(self).size,
            final(self).next == Some(
                if next_at(heap@, old(self).ptr.unwrap() as int) == ERROR_NEXT_POINTER as int {
                    None::<usize>
                } else {
                    Some((start_of_page + next_at(heap@, old(self).ptr.unwrap() as int)) as usize)
                },
            ),
    {
        let r = self.read_next(heap, start_of_page);
        match r {
            None => self.set_next(None),
            Some(s) => self.set_next(Some(&s)),
        }
    }
}

} // verus!
