//! The allocator's laws: what holds of every well-formed allocator state,
//! stated and proved once against the invariants and contracts of the
//! other modules.
use vstd::prelude::*;

use crate::bucket_list::{chain_entry_ok, spec_lookup_bucket};
use crate::code_block;
use crate::code_block::{block_ok, Block};
use crate::globals::{BUCKET_LIST_SIZE, ERROR_NEXT_POINTER, NEXT_POINTER_SIZE};
use crate::page::{blocks_tile, lemma_tiling_in_page, lemma_tiling_ordered, Page};
use crate::Mara;

verus! {

/// In every page the ordered block sequence exactly tiles the page's byte
/// range: it starts at the page start, each block begins where its
/// predecessor ends, and the last block ends at the page end.
pub proof fn lemma_page_tiling(m: Mara, pi: int)
    requires
        m.wf(),
        0 <= pi < m.page_list.pages@.len(),
    ensures
        blocks_tile(
            m.page_list.pages@[pi].blocks@,
            m.page_list.pages@[pi].start_of_page as int,
            m.page_list.pages@[pi].end_of_page as int,
        ),
{
}

/// Every block's left and right boundary tags decode to the same payload
/// size and the same free bit.
pub proof fn lemma_tag_symmetry(m: Mara, pi: int, kb: int)
    requires
        m.wf(),
        0 <= pi < m.page_list.pages@.len(),
        0 <= kb < m.page_list.pages@[pi].blocks@.len(),
    ensures
        ({
            let h = m.heap@;
            let b = m.page_list.pages@[pi].blocks@[kb];
            &&& code_block::is_tag(h, b.start, b.tag)
            &&& code_block::is_tag(h, b.right_tag(), b.tag)
            &&& code_block::tag_value(h, b.right_tag(), b.tag) == code_block::tag_value(
                h,
                b.start,
                b.tag,
            )
            &&& code_block::tag_value(h, b.start, b.tag) == b.payload
            &&& code_block::tag_is_free(h, b.right_tag()) == code_block::tag_is_free(h, b.start)
            &&& code_block::tag_is_free(h, b.start) == b.free
        }),
{
    let b = m.page_list.pages@[pi].blocks@[kb];
    assert(block_ok(m.heap@, b));
    code_block::lemma_tag_symmetry(m.heap@, b);
}

/// A block is listed in exactly one bucket position of its page if and
/// only if its free bit is set.
pub proof fn lemma_free_list_soundness(m: Mara, pi: int, kb: int)
    requires
        m.wf(),
        0 <= pi < m.page_list.pages@.len(),
        0 <= kb < m.page_list.pages@[pi].blocks@.len(),
    ensures
        ({
            let pg = m.page_list.pages@[pi];
            let b = pg.blocks@[kb];
            &&& b.free <==> exists|i: int, j: int|
                0 <= i < BUCKET_LIST_SIZE && 0 <= j < pg.bucket_list.chains@[i].len()
                    && #[trigger] pg.bucket_list.chains@[i][j] == b
            &&& b.free ==> forall|i1: int, j1: int, i2: int, j2: int|
                #![trigger pg.bucket_list.chains@[i1][j1], pg.bucket_list.chains@[i2][j2]]
                0 <= i1 < BUCKET_LIST_SIZE && 0 <= j1 < pg.bucket_list.chains@[i1].len() && 0 <= i2
                    < BUCKET_LIST_SIZE && 0 <= j2 < pg.bucket_list.chains@[i2].len()
                    && pg.bucket_list.chains@[i1][j1] == b && pg.bucket_list.chains@[i2][j2] == b
                    ==> i1 == i2 && j1 == j2
        }),
{
    let pg = m.page_list.pages@[pi];
    let b = pg.blocks@[kb];
    let chains = pg.bucket_list.chains@;
    if b.free {
        assert(block_ok(m.heap@, b));
        assert(chains[spec_lookup_bucket(b.payload)].contains(b));
        let j = choose|j: int|
            0 <= j < chains[spec_lookup_bucket(b.payload)].len() && chains[spec_lookup_bucket(
                b.payload,
            )][j] == b;
        crate::bucket_list::lemma_lookup_bucket_range(b.payload);
        assert(chains[spec_lookup_bucket(b.payload)][j] == b);
        assert forall|i1: int, j1: int, i2: int, j2: int|
            #![trigger chains[i1][j1], chains[i2][j2]]
            0 <= i1 < BUCKET_LIST_SIZE && 0 <= j1 < chains[i1].len() && 0 <= i2 < BUCKET_LIST_SIZE
                && 0 <= j2 < chains[i2].len() && chains[i1][j1] == b && chains[i2][j2]
                == b implies i1 == i2 && j1 == j2 by {
            if !(i1 == i2 && j1 == j2) {
                assert(crate::bucket_list::blocks_disjoint(chains[i1][j1], chains[i2][j2]));
                assert(block_ok(m.heap@, b));
            }
        }
    } else {
        if exists|i: int, j: int|
            0 <= i < BUCKET_LIST_SIZE && 0 <= j < chains[i].len() && #[trigger] chains[i][j]
                == b {
            let (i, j) = choose|i: int, j: int|
                0 <= i < BUCKET_LIST_SIZE && 0 <= j < chains[i].len() && #[trigger] chains[i][j]
                    == b;
            assert(chain_entry_ok(
                m.heap@,
                pg.start_of_page as int,
                pg.end_of_page as int,
                chains[i],
                j,
                i,
            ));
        }
    }
}

/// Every block listed in bucket `i` belongs to size class `i`: the bucket
/// index computed from its payload size never exceeds `i`.
pub proof fn lemma_bucket_correctness(m: Mara, pi: int, i: int, j: int)
    requires
        m.wf(),
        0 <= pi < m.page_list.pages@.len(),
        0 <= i < BUCKET_LIST_SIZE,
        0 <= j < m.page_list.pages@[pi].bucket_list.chains@[i].len(),
    ensures
        spec_lookup_bucket(m.page_list.pages@[pi].bucket_list.chains@[i][j].payload) == i,
        spec_lookup_bucket(m.page_list.pages@[pi].bucket_list.chains@[i][j].payload) <= i,
{
    let pg = m.page_list.pages@[pi];
    assert(chain_entry_ok(
        m.heap@,
        pg.start_of_page as int,
        pg.end_of_page as int,
        pg.bucket_list.chains@[i],
        j,
        i,
    ));
}

/// Every non-sentinel next pointer stored in a listed free block decodes
/// to an offset strictly inside the page and names the payload start of
/// another free block of the same page.
pub proof fn lemma_next_pointer_range(m: Mara, pi: int, i: int, j: int)
    requires
        m.wf(),
        0 <= pi < m.page_list.pages@.len(),
        0 <= i < BUCKET_LIST_SIZE,
        0 <= j < m.page_list.pages@[pi].bucket_list.chains@[i].len(),
        crate::space::next_at(
            m.heap@,
            m.page_list.pages@[pi].bucket_list.chains@[i][j].ptr(),
        ) != ERROR_NEXT_POINTER as int,
    ensures
        ({
            let pg = m.page_list.pages@[pi];
            let off = crate::space::next_at(m.heap@, pg.bucket_list.chains@[i][j].ptr());
            &&& 0 < off < pg.end_of_page - pg.start_of_page
            &&& exists|kb: int|
                0 <= kb < pg.blocks@.len() && (#[trigger] pg.blocks@[kb]).free
                    && pg.blocks@[kb].ptr() == pg.start_of_page + off
        }),
{
    let pg = m.page_list.pages@[pi];
    let po = pg.start_of_page as int;
    let pe = pg.end_of_page as int;
    let chain = pg.bucket_list.chains@[i];
    assert(chain_entry_ok(m.heap@, po, pe, chain, j, i));
    assert(j + 1 < chain.len());
    assert(chain_entry_ok(m.heap@, po, pe, chain, j + 1, i));
    let succ = chain[j + 1];
    assert(pg.blocks@.contains(succ));
    let kb = choose|kb: int| 0 <= kb < pg.blocks@.len() && pg.blocks@[kb] == succ;
    assert(block_ok(m.heap@, succ));
    assert(pg.blocks@[kb].ptr() == po + (succ.ptr() - po));
}

/// No two adjacent blocks of a page are both free: coalescing never
/// leaves mergeable neighbors behind.
pub proof fn lemma_no_adjacent_free(m: Mara, pi: int, kb: int)
    requires
        m.wf(),
        0 <= pi < m.page_list.pages@.len(),
        0 < kb < m.page_list.pages@[pi].blocks@.len(),
    ensures
        !(m.page_list.pages@[pi].blocks@[kb].free && m.page_list.pages@[pi].blocks@[kb - 1].free),
{
}

/// Every free block's payload can hold a next pointer.
pub proof fn lemma_min_free_size(m: Mara, pi: int, kb: int)
    requires
        m.wf(),
        0 <= pi < m.page_list.pages@.len(),
        0 <= kb < m.page_list.pages@[pi].blocks@.len(),
        m.page_list.pages@[pi].blocks@[kb].free,
    ensures
        m.page_list.pages@[pi].blocks@[kb].payload >= NEXT_POINTER_SIZE,
{
    assert(block_ok(m.heap@, m.page_list.pages@[pi].blocks@[kb]));
}

/// The payloads of two distinct live allocations in one page never
/// overlap: bytes handed to one caller are disjoint from every other's.
pub proof fn lemma_live_payloads_disjoint(m: Mara, pi: int, k1: int, k2: int)
    requires
        m.wf(),
        0 <= pi < m.page_list.pages@.len(),
        0 <= k1 < m.page_list.pages@[pi].blocks@.len(),
        0 <= k2 < m.page_list.pages@[pi].blocks@.len(),
        k1 != k2,
    ensures
        ({
            let b1 = m.page_list.pages@[pi].blocks@[k1];
            let b2 = m.page_list.pages@[pi].blocks@[k2];
            b1.ptr() + b1.payload <= b2.ptr() || b2.ptr() + b2.payload <= b1.ptr()
        }),
{
    let pg = m.page_list.pages@[pi];
    let bs = pg.blocks@;
    let po = pg.start_of_page as int;
    let pe = pg.end_of_page as int;
    assert forall|t: int|
        0 <= t < bs.len() implies (#[trigger] bs[t]).payload >= 1 && bs[t].tag >= 1 by {
        assert(block_ok(m.heap@, bs[t]));
    }
    if k1 < k2 {
        lemma_tiling_ordered(bs, po, pe, k1, k2);
    } else {
        lemma_tiling_ordered(bs, po, pe, k2, k1);
    }
}

/// Live payloads in different pages never overlap either: the pages
/// themselves are disjoint slices of the buffer.
pub proof fn lemma_live_payloads_disjoint_across_pages(
    m: Mara,
    p1: int,
    k1: int,
    p2: int,
    k2: int,
)
    requires
        m.wf(),
        0 <= p1 < m.page_list.pages@.len(),
        0 <= p2 < m.page_list.pages@.len(),
        p1 != p2,
        0 <= k1 < m.page_list.pages@[p1].blocks@.len(),
        0 <= k2 < m.page_list.pages@[p2].blocks@.len(),
    ensures
        ({
            let b1 = m.page_list.pages@[p1].blocks@[k1];
            let b2 = m.page_list.pages@[p2].blocks@[k2];
            b1.ptr() + b1.payload <= b2.ptr() || b2.ptr() + b2.payload <= b1.ptr()
        }),
{
    crate::page::lemma_block_ptr_in_page(m.page_list.pages@[p1], m.heap@, k1);
    crate::page::lemma_block_ptr_in_page(m.page_list.pages@[p2], m.heap@, k2);
    assert(block_ok(m.heap@, m.page_list.pages@[p1].blocks@[k1]));
    assert(block_ok(m.heap@, m.page_list.pages@[p2].blocks@[k2]));
    if p1 < p2 {
        crate::page_list::lemma_range_ordered(p1, p2, m.page_list.page_size as int);
    } else {
        crate::page_list::lemma_range_ordered(p2, p1, m.page_list.page_size as int);
    }
}

/// Two freshly built allocators over buffers of equal length, with the
/// same page size, carry the same block layout and the same bucket heads.
pub proof fn lemma_init_deterministic(m1: Mara, m2: Mara, page_size: int)
    requires
        m1.wf(),
        m2.wf(),
        m1.page_list.pages@.len() == 1,
        m2.page_list.pages@.len() == 1,
        m1.page_list.pages@[0].blocks@.len() == 1,
        m2.page_list.pages@[0].blocks@.len() == 1,
        m1.page_list.pages@[0].blocks@[0].free,
        m2.page_list.pages@[0].blocks@[0].free,
        m1.page_list.pages@[0].blocks@[0].start == 0,
        m2.page_list.pages@[0].blocks@[0].start == 0,
        code_block::spec_internal_tag_ok(page_size, m1.page_list.pages@[0].blocks@[0].tag),
        code_block::spec_internal_tag_ok(page_size, m2.page_list.pages@[0].blocks@[0].tag),
        m1.page_list.pages@[0].blocks@[0].payload == page_size - 2 * m1.page_list.pages@[0].blocks@[0].tag,
        m2.page_list.pages@[0].blocks@[0].payload == page_size - 2 * m2.page_list.pages@[0].blocks@[0].tag,
    ensures
        m1.page_list.pages@[0].blocks@ =~= m2.page_list.pages@[0].blocks@,
        spec_lookup_bucket(m1.page_list.pages@[0].blocks@[0].payload) == spec_lookup_bucket(
            m2.page_list.pages@[0].blocks@[0].payload,
        ),
{
    code_block::lemma_internal_tag_unique(
        page_size,
        m1.page_list.pages@[0].blocks@[0].tag,
        m2.page_list.pages@[0].blocks@[0].tag,
    );
}

/// Once every allocation of a page has been freed, the page holds exactly
/// one free block again, spanning its whole byte range.
pub proof fn lemma_all_free_single_block(m: Mara, pi: int)
    requires
        m.wf(),
        0 <= pi < m.page_list.pages@.len(),
        forall|kb: int|
            0 <= kb < m.page_list.pages@[pi].blocks@.len()
                ==> (#[trigger] m.page_list.pages@[pi].blocks@[kb]).free,
    ensures
        m.page_list.pages@[pi].blocks@.len() == 1,
        m.page_list.pages@[pi].blocks@[0].start == m.page_list.pages@[pi].start_of_page,
        m.page_list.pages@[pi].blocks@[0].end() == m.page_list.pages@[pi].end_of_page,
{
    let bs = m.page_list.pages@[pi].blocks@;
    if bs.len() >= 2 {
        assert(bs[1].free && bs[0].free);
        assert(false);
    }
}

} // verus!
