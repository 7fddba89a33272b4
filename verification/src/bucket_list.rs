//! The per-page segregated free list.
//!
//! A page keeps an array of bucket heads indexed by size class.  Each head
//! points at the payload start of a free block; the remaining blocks of the
//! class are threaded through the payload bytes themselves, each free block
//! storing the page-relative offset of its successor's payload start, with
//! the all-ones sentinel closing the chain.  A ghost sequence of chains
//! mirrors that in-band structure and ties it to the heap bytes.
use vstd::prelude::*;

use crate::code_block;
use crate::code_block::{block_ok, is_tag, tag_value, Block};
use crate::globals::{
    lemma_log2_monotone, lemma_log2_nonneg, lemma_log2_values, spec_log2, BUCKET_LIST_SIZE,
    ERROR_NEXT_POINTER, LARGEST_BUCKET_SIZE, LAST_LINEAR_16_SCALING, LAST_LINEAR_4_SCALING,
    MAX_PAGE_SIZE, NEXT_POINTER_SIZE,
};
use crate::space::{next_at, Space};

verus! {

/// The bucket index a payload of `size` bytes belongs to.
pub open spec fn spec_lookup_bucket(size: int) -> int {
    if size <= LAST_LINEAR_4_SCALING as int {
        (size - 1) / 4
    } else if size <= LAST_LINEAR_16_SCALING as int {
        8 + (size - 33) / 16
    } else if size <= LARGEST_BUCKET_SIZE as int {
        7 + spec_log2(size - 1)
    } else {
        BUCKET_LIST_SIZE as int - 1
    }
}

/// Bucket indices stay inside the table, and only oversized blocks reach
/// the final bucket.
pub proof fn lemma_lookup_bucket_range(size: int)
    requires
        1 <= size,
    ensures
        0 <= spec_lookup_bucket(size) < BUCKET_LIST_SIZE as int,
        size <= LARGEST_BUCKET_SIZE as int ==> spec_lookup_bucket(size) < BUCKET_LIST_SIZE as int
            - 1,
{
    if size <= 32 {
    } else if size <= 128 {
    } else if size <= 1024 {
        lemma_log2_values();
        lemma_log2_monotone(size - 1, 1023);
        lemma_log2_nonneg(size - 1);
    }
}

/// Larger payloads never land in smaller buckets.
pub proof fn lemma_lookup_bucket_monotone(s1: int, s2: int)
    requires
        1 <= s1 <= s2,
    ensures
        spec_lookup_bucket(s1) <= spec_lookup_bucket(s2),
{
    lemma_log2_values();
    if s2 <= 32 {
    } else if s2 <= 128 {
        if s1 > 32 {
        }
    } else if s2 <= 1024 {
        if s1 > 128 {
            lemma_log2_monotone(s1 - 1, s2 - 1);
        } else {
            lemma_log2_monotone(128, s2 - 1);
        }
    } else {
        lemma_lookup_bucket_range(s1);
    }
}

/// Entry `j` is the first entry of the chain whose payload reaches `min`.
pub open spec fn first_fit_at(chain: Seq<Block>, min: int, j: int) -> bool {
    &&& 0 <= j < chain.len()
    &&& chain[j].payload >= min
    &&& forall|t: int| 0 <= t < j ==> #[trigger] chain[t].payload < min
}

/// Two blocks that do not overlap.
pub open spec fn blocks_disjoint(b1: Block, b2: Block) -> bool {
    b1.end() <= b2.start || b2.end() <= b1.start
}

/// The head pointer a chain calls for: the payload start of its first block.
pub open spec fn chain_head(chain: Seq<Block>) -> Option<usize> {
    if chain.len() == 0 {
        None
    } else {
        Some(chain[0].ptr() as usize)
    }
}

/// A chain entry survives a heap write that leaves its bytes alone, also
/// when its position in the chain shifts, as long as its successor keeps
/// the same payload start.
pub proof fn lemma_entry_ok_shift(
    h1: Seq<u8>,
    h2: Seq<u8>,
    po: int,
    pe: int,
    c1: Seq<Block>,
    j1: int,
    c2: Seq<Block>,
    j2: int,
    i: int,
)
    requires
        0 <= j1 < c1.len(),
        0 <= j2 < c2.len(),
        chain_entry_ok(h1, po, pe, c1, j1, i),
        c2[j2] == c1[j1],
        h1.len() == h2.len(),
        code_block::agree_on(h1, h2, c1[j1].start, c1[j1].end()),
        (j1 + 1 < c1.len()) <==> (j2 + 1 < c2.len()),
        j1 + 1 < c1.len() ==> c2[j2 + 1].ptr() == c1[j1 + 1].ptr(),
    ensures
        chain_entry_ok(h2, po, pe, c2, j2, i),
{
    let b = c1[j1];
    code_block::lemma_block_frame(h1, h2, b);
    assert(code_block::agree_on(h1, h2, b.ptr(), b.ptr() + crate::globals::NEXT_POINTER_SIZE as int));
    crate::space::lemma_next_at_frame(h1, h2, b.ptr());
}

/// Entry `j` of a bucket chain is a free block of this page's byte range,
/// sits in the right size class, and its in-band next pointer encodes its
/// successor in the chain (or the sentinel at the chain's end).
pub open spec fn chain_entry_ok(
    h: Seq<u8>,
    po: int,
    pe: int,
    chain: Seq<Block>,
    j: int,
    i: int,
) -> bool {
    let b = chain[j];
    &&& block_ok(h, b)
    &&& b.free
    &&& po <= b.start
    &&& b.end() <= pe
    &&& spec_lookup_bucket(b.payload) == i
    &&& next_at(h, b.ptr()) == if j + 1 < chain.len() {
        chain[j + 1].ptr() - po
    } else {
        ERROR_NEXT_POINTER as int
    }
}

pub struct BucketList {
    /// Head pointers per size class: the payload start of the first free
    /// block of the class, if any.
    pub bucket_list: Vec<Option<usize>>,
    /// First byte of the page this list indexes.
    pub start_of_page: usize,
    /// One byte past the page.
    pub end_of_page: usize,
    /// The chains the in-band next pointers spell out, per bucket.
    pub chains: Ghost<Seq<Seq<Block>>>,
}

impl BucketList {
    /// The heads and the heap bytes agree with the ghost chains.
    pub open spec fn wf(self, h: Seq<u8>) -> bool {
        let po = self.start_of_page as int;
        let pe = self.end_of_page as int;
        &&& self.bucket_list@.len() == BUCKET_LIST_SIZE
        &&& self.chains@.len() == BUCKET_LIST_SIZE
        &&& 0 <= po < pe <= h.len()
        &&& pe - po <= MAX_PAGE_SIZE as int
        &&& forall|i: int|
            0 <= i < BUCKET_LIST_SIZE ==> #[trigger] self.bucket_list@[i] == chain_head(
                self.chains@[i],
            )
        &&& forall|i: int, j: int|
            0 <= i < BUCKET_LIST_SIZE && 0 <= j < self.chains@[i].len()
                ==> #[trigger] chain_entry_ok(h, po, pe, self.chains@[i], j, i)
        &&& forall|i1: int, j1: int, i2: int, j2: int|
            #![trigger self.chains@[i1][j1], self.chains@[i2][j2]]
            0 <= i1 < BUCKET_LIST_SIZE && 0 <= j1 < self.chains@[i1].len() && 0 <= i2
                < BUCKET_LIST_SIZE && 0 <= j2 < self.chains@[i2].len() && !(i1 == i2 && j1 == j2)
                ==> blocks_disjoint(self.chains@[i1][j1], self.chains@[i2][j2])
    }

    /// Some block with at least `min` payload hangs in some bucket.
    pub open spec fn has_fitting_space(self, min: int) -> bool {
        exists|i: int, j: int|
            0 <= i < BUCKET_LIST_SIZE && 0 <= j < self.chains@[i].len()
                && #[trigger] self.chains@[i][j].payload >= min
    }

    /// Initializes the list: every bucket empty, indexing the page that
    /// spans `[start_of_page, end_of_page)`.
    pub fn init(&mut self, start_of_page: usize, end_of_page: usize)
        ensures
            final(self).start_of_page == start_of_page,
            final(self).end_of_page == end_of_page,
            final(self).bucket_list@.len() == BUCKET_LIST_SIZE,
            forall|i: int|
                0 <= i < BUCKET_LIST_SIZE ==> #[trigger] final(self).bucket_list@[i]
                    == None::<usize>,
            final(self).chains@.len() == BUCKET_LIST_SIZE,
            forall|i: int|
                0 <= i < BUCKET_LIST_SIZE ==> #[trigger] final(self).chains@[i]
                    == Seq::<Block>::empty(),
    {
        self.start_of_page = start_of_page;
        self.end_of_page = end_of_page;
        let mut heads: Vec<Option<usize>> = Vec::new();
        let mut i: usize = 0;
        while i < BUCKET_LIST_SIZE
            invariant
                heads@.len() == i,
                0 <= i <= BUCKET_LIST_SIZE,
                forall|k: int| 0 <= k < i ==> #[trigger] heads@[k] == None::<usize>,
            decreases BUCKET_LIST_SIZE - i,
        {
            heads.push(None);
            i = i + 1;
        }
        self.bucket_list = heads;
        self.chains = Ghost(Seq::new(BUCKET_LIST_SIZE as nat, |i: int| Seq::<Block>::empty()));
    }

    /// The head of the bucket with the given index.
    fn get(&self, index: usize) -> (r: Option<Space>)
        requires
            index < self.bucket_list@.len(),
        ensures
            match self.bucket_list@[index as int] {
                None => r is None,
                Some(p) => r == Some(
                    Space { ptr: Some(p), size: None::<usize>, next: None::<Option<usize>> },
                ),
            },
    {
        match self.bucket_list[index] {
            None => None,
            Some(p) => {
                let mut space = Space::new();
                space.set_ptr(p);
                Some(space)
            },
        }
    }

    /// The head of the bucket that `size` maps to.
    pub fn first_for_size(&self, size: usize) -> (r: Option<Space>)
        requires
            self.bucket_list@.len() == BUCKET_LIST_SIZE,
            1 <= size,
        ensures
            match self.bucket_list@[spec_lookup_bucket(size as int)] {
                None => r is None,
                Some(p) => r == Some(
                    Space { ptr: Some(p), size: None::<usize>, next: None::<Option<usize>> },
                ),
            },
    {
        proof {
            lemma_lookup_bucket_range(size as int);
        }
        self.get(Self::lookup_bucket(size))
    }

    /// The bucket index for a payload of `size` bytes: stride-4 classes up
    /// to 32, stride-16 classes up to 128, power-of-two classes up to 1024,
    /// then one unbounded class.
    pub fn lookup_bucket(size: usize) -> (index: usize)
        requires
            1 <= size,
        ensures
            index as int == spec_lookup_bucket(size as int),
            index < BUCKET_LIST_SIZE,
    {
        proof {
            lemma_lookup_bucket_range(size as int);
        }
        if size <= LAST_LINEAR_4_SCALING {
            (size - 1) / 4
        } else if size <= LAST_LINEAR_16_SCALING {
            8 + (size - 33) / 16
        } else if size <= LARGEST_BUCKET_SIZE {
            let l = crate::globals::log2(size - 1);
            proof {
                lemma_log2_values();
                lemma_log2_monotone(128, size as int - 1);
            }
            7 + l
        } else {
            BUCKET_LIST_SIZE - 1
        }
    }

    /// `s` carries exactly the cached facts of chain entry `j` of bucket
    /// `i`: its payload start, its payload size, and its successor.
    pub open spec fn is_chain_entry_match(self, s: Space, i: int, j: int) -> bool {
        &&& 0 <= i < BUCKET_LIST_SIZE
        &&& 0 <= j < self.chains@[i].len()
        &&& s.ptr == Some(self.chains@[i][j].ptr() as usize)
        &&& s.size == Some(self.chains@[i][j].payload as usize)
        &&& s.next == Some(
            if j + 1 < self.chains@[i].len() {
                Some(self.chains@[i][j + 1].ptr() as usize)
            } else {
                None::<usize>
            },
        )
    }

    /// Searches every appropriate bucket, smallest feasible class first,
    /// and returns the first free space of at least `minimum_size` bytes,
    /// with its size and successor caches filled.  Returns `None` exactly
    /// when no free block in the page fits.
    pub fn get_free_space(&self, heap: &Vec<u8>, minimum_size: usize) -> (r: Option<Space>)
        requires
            self.wf(heap@),
            1 <= minimum_size <= MAX_PAGE_SIZE,
        ensures
            match r {
                None => !self.has_fitting_space(minimum_size as int),
                Some(s) => {
                    &&& s.size.unwrap() >= minimum_size
                    &&& exists|i: int, j: int| #[trigger] self.is_chain_entry_match(s, i, j)
                },
            },
    {
        let heap_len = heap.len();
        let mut bucket_index = Self::lookup_bucket(minimum_size);
        let ghost start_bucket = bucket_index as int;
        while bucket_index < BUCKET_LIST_SIZE
            invariant
                self.wf(heap@),
                1 <= minimum_size <= MAX_PAGE_SIZE,
                start_bucket == spec_lookup_bucket(minimum_size as int),
                start_bucket <= bucket_index,
                heap_len == heap@.len(),
                forall|i: int, j: int|
                    start_bucket <= i < bucket_index && 0 <= j < self.chains@[i].len()
                        ==> #[trigger] self.chains@[i][j].payload < minimum_size,
            decreases BUCKET_LIST_SIZE - bucket_index,
        {
            let non_empty = self.find_non_empty_bucket(bucket_index);
            proof {
                // skipped buckets have no head, hence an empty chain
                assert forall|i: int, j: int|
                    bucket_index <= i < non_empty && 0 <= j
                        < self.chains@[i].len() implies #[trigger] self.chains@[i][j].payload
                    < minimum_size by {
                    assert(self.bucket_list@[i] is None);
                    assert(self.bucket_list@[i] == chain_head(self.chains@[i]));
                }
            }
            match self.find_fitting_space_in_bucket(heap, minimum_size, non_empty) {
                None => {
                    bucket_index = non_empty + 1;
                },
                Some(fitting) => {
                    let ghost chain = self.chains@[non_empty as int];
                    let ghost j = choose|j: int| first_fit_at(chain, minimum_size as int, j)
                        && fitting.ptr == Some(chain[j].ptr() as usize);
                    proof {
                        assert(chain_entry_ok(
                            heap@,
                            self.start_of_page as int,
                            self.end_of_page as int,
                            chain,
                            j,
                            non_empty as int,
                        ));
                        let b = chain[j];
                        assert(is_tag(heap@, b.start, b.tag) && b.start + b.tag
                            == fitting.ptr.unwrap() as int);
                        assert forall|s: int, n: int|
                            s + n == fitting.ptr.unwrap() as int && is_tag(
                                heap@,
                                s,
                                n,
                            ) implies tag_value(heap@, s, n) <= MAX_PAGE_SIZE as int by {
                            code_block::lemma_tag_end_unique(heap@, s, n, b.start, b.tag);
                        }
                    }
                    proof {
                        let b = chain[j];
                        if j + 1 < chain.len() {
                            assert(chain_entry_ok(
                                heap@,
                                self.start_of_page as int,
                                self.end_of_page as int,
                                chain,
                                j + 1,
                                non_empty as int,
                            ));
                            assert(next_at(heap@, b.ptr()) == chain[j + 1].ptr()
                                - self.start_of_page);
                            assert(chain[j + 1].ptr() < self.end_of_page as int);
                            assert(chain[j + 1].ptr() - self.start_of_page
                                != ERROR_NEXT_POINTER as int);
                        }
                    }
                    let mut fitting = fitting;
                    fitting.cache_size_from_code_block(heap);
                    fitting.cache_next(heap, self.start_of_page);
                    proof {
                        let b = chain[j];
                        assert(fitting.size == Some(b.payload as usize));
                        assert(self.is_chain_entry_match(fitting, non_empty as int, j));
                    }
                    return Some(fitting);
                },
            }
        }
        proof {
            assert forall|i: int, j: int|
                0 <= i < BUCKET_LIST_SIZE && 0 <= j
                    < self.chains@[i].len() implies #[trigger] self.chains@[i][j].payload
                < minimum_size by {
                assert(chain_entry_ok(
                    heap@,
                    self.start_of_page as int,
                    self.end_of_page as int,
                    self.chains@[i],
                    j,
                    i,
                ));
                if self.chains@[i][j].payload >= minimum_size {
                    lemma_lookup_bucket_monotone(
                        minimum_size as int,
                        self.chains@[i][j].payload,
                    );
                }
            }
        }
        None
    }

    /// The first bucket at or after `index` whose chain is not empty, or
    /// the last bucket if all of them are empty.
    fn find_non_empty_bucket(&self, index: usize) -> (r: usize)
        requires
            self.bucket_list@.len() == BUCKET_LIST_SIZE,
            index < BUCKET_LIST_SIZE,
        ensures
            index <= r < BUCKET_LIST_SIZE,
            forall|i: int| index <= i < r ==> #[trigger] self.bucket_list@[i] is None,
            self.bucket_list@[r as int] is Some || r == BUCKET_LIST_SIZE - 1,
    {
        let mut i = index;
        while i < BUCKET_LIST_SIZE - 1 && self.bucket_list[i].is_none()
            invariant
                self.bucket_list@.len() == BUCKET_LIST_SIZE,
                index <= i < BUCKET_LIST_SIZE,
                forall|k: int| index <= k < i ==> #[trigger] self.bucket_list@[k] is None,
            decreases BUCKET_LIST_SIZE - i,
        {
            i = i + 1;
        }
        i
    }

    /// Greedy search inside one bucket: the first chain entry whose decoded
    /// size fits, without altering the list.
    fn find_fitting_space_in_bucket(&self, heap: &Vec<u8>, minimum_size: usize, index: usize) -> (r:
        Option<Space>)
        requires
            self.wf(heap@),
            1 <= minimum_size,
            index < BUCKET_LIST_SIZE,
        ensures
            ({
                let chain = self.chains@[index as int];
                match r {
                    None => forall|j: int|
                        0 <= j < chain.len() ==> #[trigger] chain[j].payload < minimum_size,
                    Some(s) => exists|j: int|
                        #[trigger] first_fit_at(chain, minimum_size as int, j) && s == (Space {
                            ptr: Some(chain[j].ptr() as usize),
                            size: None::<usize>,
                            next: None::<Option<usize>>,
                        }),
                }
            }),
    {
        let ghost chain = self.chains@[index as int];
        let ghost po = self.start_of_page as int;
        let ghost pe = self.end_of_page as int;
        let mut space = self.get(index);
        let ghost mut j: int = 0;
        proof {
            if chain.len() > 0 {
                assert(chain_entry_ok(heap@, po, pe, chain, 0, index as int));
            }
        }
        while space.is_some()
            invariant
                self.wf(heap@),
                chain == self.chains@[index as int],
                po == self.start_of_page as int,
                pe == self.end_of_page as int,
                0 <= index < BUCKET_LIST_SIZE,
                0 <= j <= chain.len(),
                1 <= minimum_size,
                match space {
                    Some(s) => j < chain.len() && s == (Space {
                        ptr: Some(chain[j].ptr() as usize),
                        size: None::<usize>,
                        next: None::<Option<usize>>,
                    }),
                    None => j == chain.len(),
                },
                forall|t: int| 0 <= t < j ==> #[trigger] chain[t].payload < minimum_size,
            decreases chain.len() - j,
        {
            let cur = space.unwrap();
            let ghost b = chain[j];
            proof {
                assert(chain_entry_ok(heap@, po, pe, chain, j, index as int));
                assert(is_tag(heap@, b.start, b.tag) && b.start + b.tag
                    == cur.ptr.unwrap() as int);
                assert forall|s: int, n: int|
                    s + n == cur.ptr.unwrap() as int && is_tag(heap@, s, n) implies tag_value(
                    heap@,
                    s,
                    n,
                ) <= MAX_PAGE_SIZE as int by {
                    code_block::lemma_tag_end_unique(heap@, s, n, b.start, b.tag);
                }
            }
            let (size, _) = code_block::read_from_right(heap, cur.ptr() - 1);
            proof {
                assert(size as int == b.payload);
            }
            if size >= minimum_size {
                proof {
                    assert(first_fit_at(chain, minimum_size as int, j));
                }
                return Some(cur);
            }
            proof {
                if j + 1 < chain.len() {
                    assert(next_at(heap@, b.ptr()) == chain[j + 1].ptr() - po);
                    assert(chain_entry_ok(heap@, po, pe, chain, j + 1, index as int));
                    assert(chain[j + 1].ptr() - po != ERROR_NEXT_POINTER as int);
                } else {
                    assert(next_at(heap@, b.ptr()) == ERROR_NEXT_POINTER as int);
                }
            }
            space = cur.read_next(heap, self.start_of_page);
            proof {
                j = j + 1;
            }
        }
        None
    }

    /// Adds `space` to the bucket list: it becomes the new head of its size
    /// class and the old head becomes its successor, recorded in the
    /// in-band next pointer inside the block's payload.
    pub fn insert(&mut self, heap: &mut Vec<u8>, space: &mut Space, Ghost(b): Ghost<Block>)
        requires
            old(self).wf(old(heap)@),
            old(space).ptr == Some(b.ptr() as usize),
            old(space).size == Some(b.payload as usize),
            block_ok(old(heap)@, b),
            b.free,
            old(self).start_of_page as int <= b.start,
            b.end() <= old(self).end_of_page as int,
            forall|i: int, j: int|
                0 <= i < BUCKET_LIST_SIZE && 0 <= j < old(self).chains@[i].len()
                    ==> blocks_disjoint(#[trigger] old(self).chains@[i][j], b),
        ensures
            final(self).wf(final(heap)@),
            final(self).start_of_page == old(self).start_of_page,
            final(self).end_of_page == old(self).end_of_page,
            code_block::unchanged_except(
                old(heap)@,
                final(heap)@,
                b.ptr(),
                b.ptr() + NEXT_POINTER_SIZE as int,
            ),
            final(self).chains@ == old(self).chains@.update(
                spec_lookup_bucket(b.payload),
                seq![b] + old(self).chains@[spec_lookup_bucket(b.payload)],
            ),
            final(space).ptr == old(space).ptr,
            final(space).size == old(space).size,
    {
        let ghost po = self.start_of_page as int;
        let ghost pe = self.end_of_page as int;
        let ghost h1 = heap@;
        let heap_len = heap.len();
        let size = space.size();
        let bi = Self::lookup_bucket(size);
        let ghost bii = bi as int;
        let ghost old_chain = self.chains@[bii];
        proof {
            assert(spec_lookup_bucket(b.payload) == bii);
            if old_chain.len() > 0 {
                assert(chain_entry_ok(h1, po, pe, old_chain, 0, bii));
            }
        }
        let head = self.first_for_size(size);
        match head {
            None => space.set_next(None),
            Some(h) => space.set_next(Some(&h)),
        }
        space.write_next(heap, self.start_of_page);
        let p = space.ptr();
        self.bucket_list.set(bi, Some(p));
        let ghost cnew = seq![b] + old_chain;
        self.chains = Ghost(self.chains@.update(bii, cnew));
        proof {
            let h2 = heap@;
            let pre = *old(self);
            assert(cnew[0] == b);
            assert forall|i: int|
                0 <= i < BUCKET_LIST_SIZE implies #[trigger] self.bucket_list@[i] == chain_head(
                self.chains@[i],
            ) by {
                if i == bii {
                    assert(chain_head(cnew) == Some(b.ptr() as usize));
                } else {
                    assert(self.bucket_list@[i] == pre.bucket_list@[i]);
                    assert(self.chains@[i] == pre.chains@[i]);
                }
            }
            assert forall|i: int, j: int|
                0 <= i < BUCKET_LIST_SIZE && 0 <= j
                    < self.chains@[i].len() implies #[trigger] chain_entry_ok(
                h2,
                po,
                pe,
                self.chains@[i],
                j,
                i,
            ) by {
                if i == bii && j == 0 {
                    assert(code_block::agree_on(h1, h2, b.start, b.ptr()));
                    assert(code_block::agree_on(h1, h2, b.right_tag(), b.end()));
                    code_block::lemma_block_tags_frame(h1, h2, b);
                    if cnew.len() > 1 {
                        assert(cnew[1] == old_chain[0]);
                        assert(chain_entry_ok(h1, po, pe, old_chain, 0, bii));
                    }
                } else if i == bii {
                    let e = old_chain[j - 1];
                    assert(chain_entry_ok(h1, po, pe, old_chain, j - 1, i));
                    assert(blocks_disjoint(pre.chains@[i][j - 1], b));
                    assert(code_block::agree_on(h1, h2, e.start, e.end()));
                    assert(cnew[j] == e);
                    if j < old_chain.len() {
                        assert(cnew[j + 1] == old_chain[j]);
                    }
                    lemma_entry_ok_shift(h1, h2, po, pe, old_chain, j - 1, cnew, j, i);
                } else {
                    let e = self.chains@[i][j];
                    assert(self.chains@[i] == pre.chains@[i]);
                    assert(chain_entry_ok(h1, po, pe, pre.chains@[i], j, i));
                    assert(blocks_disjoint(pre.chains@[i][j], b));
                    assert(code_block::agree_on(h1, h2, e.start, e.end()));
                    lemma_entry_ok_shift(h1, h2, po, pe, pre.chains@[i], j, self.chains@[i], j, i);
                }
            }
            assert forall|i1: int, j1: int, i2: int, j2: int|
                0 <= i1 < BUCKET_LIST_SIZE && 0 <= j1 < self.chains@[i1].len() && 0 <= i2
                    < BUCKET_LIST_SIZE && 0 <= j2 < self.chains@[i2].len() && !(i1 == i2 && j1
                    == j2) implies blocks_disjoint(
                #[trigger] self.chains@[i1][j1],
                #[trigger] self.chains@[i2][j2],
            ) by {
                let o1: int = if i1 == bii {
                    j1 - 1
                } else {
                    j1
                };
                let o2: int = if i2 == bii {
                    j2 - 1
                } else {
                    j2
                };
                if i1 == bii && j1 == 0 {
                    assert(blocks_disjoint(pre.chains@[i2][o2], b));
                } else if i2 == bii && j2 == 0 {
                    assert(blocks_disjoint(pre.chains@[i1][o1], b));
                } else {
                    assert(self.chains@[i1][j1] == pre.chains@[i1][o1]);
                    assert(self.chains@[i2][j2] == pre.chains@[i2][o2]);
                    assert(blocks_disjoint(pre.chains@[i1][o1], pre.chains@[i2][o2]));
                }
            }
        }
    }

    /// Unlinks the block whose payload starts at `space.ptr` from the
    /// bucket of `space.size`: the predecessor's next pointer (or the
    /// bucket head) is redirected to the removed block's successor.
    pub fn remove(&mut self, heap: &mut Vec<u8>, space: &Space) -> (r: Ghost<int>)
        requires
            old(self).wf(old(heap)@),
            space.ptr is Some,
            space.size is Some,
            1 <= space.size.unwrap(),
            exists|j: int|
                0 <= j < old(self).chains@[spec_lookup_bucket(space.size.unwrap() as int)].len()
                    && #[trigger] old(self).chains@[spec_lookup_bucket(
                    space.size.unwrap() as int,
                )][j].ptr() == space.ptr.unwrap() as int,
        ensures
            final(self).wf(final(heap)@),
            final(self).start_of_page == old(self).start_of_page,
            final(self).end_of_page == old(self).end_of_page,
            final(heap)@.len() == old(heap)@.len(),
            ({
                let bi = spec_lookup_bucket(space.size.unwrap() as int);
                let chain = old(self).chains@[bi];
                let j = r@;
                &&& 0 <= j < chain.len()
                &&& chain[j].ptr() == space.ptr.unwrap() as int
                &&& final(self).chains@ == old(self).chains@.update(bi, chain.remove(j))
                &&& if j == 0 {
                    final(heap)@ == old(heap)@
                } else {
                    code_block::unchanged_except(
                        old(heap)@,
                        final(heap)@,
                        chain[j - 1].ptr(),
                        chain[j - 1].ptr() + NEXT_POINTER_SIZE as int,
                    )
                }
            }),
    {
        let ghost po = self.start_of_page as int;
        let ghost pe = self.end_of_page as int;
        let ghost h1 = heap@;
        let ghost bii = spec_lookup_bucket(space.size.unwrap() as int);
        proof {
            lemma_lookup_bucket_range(space.size.unwrap() as int);
        }
        let ghost chain = self.chains@[bii];
        let ghost j = choose|j: int|
            0 <= j < chain.len() && #[trigger] chain[j].ptr() == space.ptr.unwrap() as int;
        let heap_len = heap.len();
        proof {
            // the payload start picks out one chain entry
            assert forall|t: int|
                0 <= t < chain.len() && #[trigger] chain[t].ptr()
                    == space.ptr.unwrap() as int implies t == j by {
                if t != j {
                    assert(chain_entry_ok(h1, po, pe, chain, t, bii));
                    assert(chain_entry_ok(h1, po, pe, chain, j, bii));
                    assert(blocks_disjoint(self.chains@[bii][t], self.chains@[bii][j]));
                }
            }
            assert(chain_entry_ok(h1, po, pe, chain, j, bii));
            if j + 1 < chain.len() {
                assert(chain_entry_ok(h1, po, pe, chain, j + 1, bii));
                assert(po <= chain[j + 1].ptr() < pe);
                assert(chain[j + 1].ptr() - po != ERROR_NEXT_POINTER as int);
            }
        }
        let (in_list, predecessor) = self.is_in_list(heap, space);
        let ghost cnew = chain.remove(j);
        if in_list {
            let mut removed = Space::new();
            removed.set_ptr(space.ptr());
            let succ = removed.read_next(heap, self.start_of_page);
            match predecessor {
                Some(pred) => {
                    proof {
                        assert(j != 0);
                        assert(pred.ptr == Some(chain[j - 1].ptr() as usize));
                        assert(chain_entry_ok(h1, po, pe, chain, j - 1, bii));
                    }
                    let mut pred = pred;
                    match succ {
                        None => pred.set_next(None),
                        Some(s) => pred.set_next(Some(&s)),
                    }
                    pred.write_next(heap, self.start_of_page);
                    self.chains = Ghost(self.chains@.update(bii, cnew));
                    proof {
                        let h2 = heap@;
                        let prev = chain[j - 1];
                        let prevw = code_block::unchanged_except(
                            h1,
                            h2,
                            prev.ptr(),
                            prev.ptr() + NEXT_POINTER_SIZE as int,
                        );
                        assert(prevw);
                        self.lemma_remove_wf(h1, h2, *old(self), chain, j, bii);
                    }
                },
                None => {
                    proof {
                        assert(j == 0);
                    }
                    let bi = Self::lookup_bucket(space.size());
                    match succ {
                        None => self.bucket_list.set(bi, None),
                        Some(s) => self.bucket_list.set(bi, Some(s.ptr())),
                    }
                    self.chains = Ghost(self.chains@.update(bii, cnew));
                    proof {
                        let h2 = heap@;
                        assert(h2 == h1);
                        if j + 1 < chain.len() {
                            assert(self.bucket_list@[bii] == Some(chain[1].ptr() as usize));
                        } else {
                            assert(self.bucket_list@[bii] == None::<usize>);
                        }
                        self.lemma_remove_wf(h1, h2, *old(self), chain, j, bii);
                    }
                },
            }
        } else {
            proof {
                assert(false);
            }
        }
        Ghost(j)
    }

    /// After unlinking entry `j` of bucket `bi` and redirecting only its
    /// predecessor's next pointer, the list is well formed again.
    proof fn lemma_remove_wf(
        self,
        h1: Seq<u8>,
        h2: Seq<u8>,
        pre: BucketList,
        chain: Seq<Block>,
        j: int,
        bi: int,
    )
        requires
            pre.wf(h1),
            0 <= bi < BUCKET_LIST_SIZE,
            chain == pre.chains@[bi],
            0 <= j < chain.len(),
            self.start_of_page == pre.start_of_page,
            self.end_of_page == pre.end_of_page,
            self.chains@ == pre.chains@.update(bi, chain.remove(j)),
            self.bucket_list@.len() == BUCKET_LIST_SIZE,
            // the heads: only bucket `bi` may have changed, to the successor
            forall|i: int|
                0 <= i < BUCKET_LIST_SIZE && i != bi ==> #[trigger] self.bucket_list@[i]
                    == pre.bucket_list@[i],
            self.bucket_list@[bi] == (if j == 0 {
                if j + 1 < chain.len() {
                    Some(chain[1].ptr() as usize)
                } else {
                    None::<usize>
                }
            } else {
                pre.bucket_list@[bi]
            }),
            // the heap: at most the predecessor's next pointer was rewritten
            h1.len() == h2.len(),
            (if j == 0 {
                h2 == h1
            } else {
                code_block::unchanged_except(
                    h1,
                    h2,
                    chain[j - 1].ptr(),
                    chain[j - 1].ptr() + NEXT_POINTER_SIZE as int,
                )
            }),
            j != 0 ==> crate::space::next_at(h2, chain[j - 1].ptr()) == (if j + 1 < chain.len() {
                chain[j + 1].ptr() - pre.start_of_page
            } else {
                ERROR_NEXT_POINTER as int
            }),
        ensures
            self.wf(h2),
    {
        let po = pre.start_of_page as int;
        let pe = pre.end_of_page as int;
        let cnew = chain.remove(j);
        assert forall|i: int|
            0 <= i < BUCKET_LIST_SIZE implies #[trigger] self.bucket_list@[i] == chain_head(
            self.chains@[i],
        ) by {
            if i == bi {
                if j == 0 {
                    if chain.len() > 1 {
                        assert(cnew[0] == chain[1]);
                    }
                } else {
                    assert(cnew[0] == chain[0]);
                }
            }
        }
        assert forall|i: int, t: int|
            0 <= i < BUCKET_LIST_SIZE && 0 <= t
                < self.chains@[i].len() implies #[trigger] chain_entry_ok(
            h2,
            po,
            pe,
            self.chains@[i],
            t,
            i,
        ) by {
            if j != 0 {
                assert(chain_entry_ok(h1, po, pe, chain, j - 1, bi));
            }
            if i == bi {
                if j != 0 && t == j - 1 {
                    // the predecessor: its bytes changed only inside its own
                    // payload, and its new next pointer names the successor
                    let b = chain[j - 1];
                    assert(code_block::agree_on(h1, h2, b.start, b.ptr()));
                    assert(code_block::agree_on(h1, h2, b.right_tag(), b.end()));
                    code_block::lemma_block_tags_frame(h1, h2, b);
                    assert(cnew[t] == b);
                    if t + 1 < cnew.len() {
                        assert(cnew[t + 1] == chain[j + 1]);
                    }
                } else {
                    let t1: int = if t < j {
                        t
                    } else {
                        t + 1
                    };
                    let b = chain[t1];
                    assert(chain_entry_ok(h1, po, pe, chain, t1, bi));
                    if j != 0 {
                        assert(blocks_disjoint(pre.chains@[bi][t1], pre.chains@[bi][j - 1]));
                    }
                    assert(code_block::agree_on(h1, h2, b.start, b.end()));
                    assert(cnew[t] == chain[t1]);
                    if t + 1 < cnew.len() {
                        let t2: int = if t + 1 < j {
                            t + 1
                        } else {
                            t + 2
                        };
                        assert(cnew[t + 1] == chain[t2]);
                        assert(chain_entry_ok(h1, po, pe, chain, t2, bi));
                    }
                    lemma_entry_ok_shift(h1, h2, po, pe, chain, t1, cnew, t, i);
                }
            } else {
                let b = pre.chains@[i][t];
                assert(chain_entry_ok(h1, po, pe, pre.chains@[i], t, i));
                if j != 0 {
                    assert(blocks_disjoint(pre.chains@[i][t], pre.chains@[bi][j - 1]));
                }
                assert(code_block::agree_on(h1, h2, b.start, b.end()));
                lemma_entry_ok_shift(h1, h2, po, pe, pre.chains@[i], t, self.chains@[i], t, i);
            }
        }
        assert forall|i1: int, t1: int, i2: int, t2: int|
            0 <= i1 < BUCKET_LIST_SIZE && 0 <= t1 < self.chains@[i1].len() && 0 <= i2
                < BUCKET_LIST_SIZE && 0 <= t2 < self.chains@[i2].len() && !(i1 == i2 && t1
                == t2) implies blocks_disjoint(
            #[trigger] self.chains@[i1][t1],
            #[trigger] self.chains@[i2][t2],
        ) by {
            let o1: int = if i1 == bi && t1 >= j {
                t1 + 1
            } else {
                t1
            };
            let o2: int = if i2 == bi && t2 >= j {
                t2 + 1
            } else {
                t2
            };
            assert(self.chains@[i1][t1] == pre.chains@[i1][o1]);
            assert(self.chains@[i2][t2] == pre.chains@[i2][o2]);
            assert(blocks_disjoint(pre.chains@[i1][o1], pre.chains@[i2][o2]));
        }
    }

    /// Whether a block whose payload starts at `space.ptr` hangs in the
    /// bucket of `space.size`; if it does and is not the bucket head, also
    /// returns its predecessor with its successor cache pointing at it.
    pub fn is_in_list(&self, heap: &Vec<u8>, space: &Space) -> (r: (bool, Option<Space>))
        requires
            self.wf(heap@),
            space.ptr is Some,
            space.size is Some,
            1 <= space.size.unwrap(),
        ensures
            ({
                let chain = self.chains@[spec_lookup_bucket(space.size.unwrap() as int)];
                &&& r.0 == exists|j: int|
                    0 <= j < chain.len() && #[trigger] chain[j].ptr() == space.ptr.unwrap() as int
                &&& forall|j: int|
                    0 <= j < chain.len() && #[trigger] chain[j].ptr()
                        == space.ptr.unwrap() as int ==> if j == 0 {
                        r.1 is None
                    } else {
                        {
                            &&& r.1 is Some
                            &&& r.1.unwrap().ptr == Some(chain[j - 1].ptr() as usize)
                            &&& r.1.unwrap().next == Some(Some(space.ptr.unwrap()))
                        }
                    }
            }),
    {
        let ghost po = self.start_of_page as int;
        let ghost pe = self.end_of_page as int;
        let ghost bii = spec_lookup_bucket(space.size.unwrap() as int);
        proof {
            lemma_lookup_bucket_range(space.size.unwrap() as int);
        }
        let ghost chain = self.chains@[bii];
        let heap_len = heap.len();
        let target = space.ptr();
        let head = self.first_for_size(space.size());
        match head {
            None => {
                proof {
                    assert(chain.len() == 0);
                }
                (false, None)
            },
            Some(first) => {
                proof {
                    assert(chain_entry_ok(heap@, po, pe, chain, 0, bii));
                    assert(first.ptr == Some(chain[0].ptr() as usize));
                }
                if first.ptr() == target {
                    proof {
                        assert(chain[0].ptr() == target as int);
                        // two chain entries sharing a payload start would overlap
                        assert forall|j: int|
                            0 < j < chain.len() implies #[trigger] chain[j].ptr()
                            != target as int by {
                            assert(chain_entry_ok(heap@, po, pe, chain, 0, bii));
                            assert(chain_entry_ok(heap@, po, pe, chain, j, bii));
                            assert(blocks_disjoint(
                                self.chains@[bii][0],
                                self.chains@[bii][j],
                            ));
                        }
                    }
                    return (true, None);
                }
                let mut predecessor = first;
                proof {
                    if chain.len() > 1 {
                        assert(chain_entry_ok(heap@, po, pe, chain, 1, bii));
                        assert(chain[1].ptr() - po != ERROR_NEXT_POINTER as int);
                    }
                }
                predecessor.cache_next(heap, self.start_of_page);
                let ghost mut j: int = 0;
                let mut done = false;
                let mut found = false;
                while !done
                    invariant
                        self.wf(heap@),
                        heap_len == heap@.len(),
                        po == self.start_of_page as int,
                        pe == self.end_of_page as int,
                        chain == self.chains@[bii],
                        0 <= bii < BUCKET_LIST_SIZE,
                        0 <= j < chain.len(),
                        predecessor.ptr == Some(chain[j].ptr() as usize),
                        predecessor.next == Some(
                            if j + 1 < chain.len() {
                                Some(chain[j + 1].ptr() as usize)
                            } else {
                                None::<usize>
                            },
                        ),
                        forall|t: int|
                            0 <= t <= j ==> #[trigger] chain[t].ptr() != target as int,
                        space.ptr == Some(target),
                        found ==> done,
                        done && found ==> j + 1 < chain.len() && chain[j + 1].ptr()
                            == target as int,
                        done && !found ==> j + 1 == chain.len(),
                    decreases chain.len() - j, (if done {
                        0int
                    } else {
                        1int
                    }),
                {
                    let nxt = predecessor.next();
                    match nxt {
                        None => {
                            proof {
                                assert(j + 1 >= chain.len());
                            }
                            done = true;
                        },
                        Some(next) => {
                            proof {
                                assert(chain_entry_ok(heap@, po, pe, chain, j + 1, bii));
                                assert(po <= chain[j + 1].ptr() < pe);
                            }
                            if next.ptr() == target {
                                done = true;
                                found = true;
                                proof {
                                    assert(j + 1 < chain.len());
                                    assert(chain[j + 1].ptr() == target as int);
                                }
                            } else {
                                let mut next = next;
                                proof {
                                    if j + 2 < chain.len() {
                                        assert(chain_entry_ok(heap@, po, pe, chain, j + 2, bii));
                                        assert(po <= chain[j + 2].ptr() < pe);
                                        assert(chain[j + 2].ptr() - po
                                            != ERROR_NEXT_POINTER as int);
                                    }
                                }
                                next.cache_next(heap, self.start_of_page);
                                predecessor = next;
                                proof {
                                    j = j + 1;
                                }
                            }
                        },
                    }
                }
                proof {
                    if found {
                        assert(chain[j + 1].ptr() == target as int);
                        assert forall|t: int|
                            0 <= t < chain.len() && #[trigger] chain[t].ptr()
                                == target as int implies t == j + 1 by {
                            if t != j + 1 {
                                assert(chain_entry_ok(heap@, po, pe, chain, t, bii));
                                assert(chain_entry_ok(heap@, po, pe, chain, j + 1, bii));
                                assert(blocks_disjoint(
                                    self.chains@[bii][t],
                                    self.chains@[bii][j + 1],
                                ));
                            }
                        }
                    } else {
                        assert(j == chain.len() - 1);
                        assert forall|t: int|
                            0 <= t < chain.len() implies #[trigger] chain[t].ptr()
                            != target as int by {}
                    }
                }
                (found, Some(predecessor))
            },
        }
    }
}

} // verus!
