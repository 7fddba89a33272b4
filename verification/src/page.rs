//! One heap page: an ordered sequence of adjacent blocks that exactly
//! tiles the page's byte range, with a segregated free list over its free
//! blocks.
//!
//! The page invariant captures the allocator's core guarantees: the blocks
//! tile the page with no gaps or overlaps, every block carries matching
//! boundary tags, no two free blocks are adjacent, every free block is in
//! exactly one bucket chain, and the chains list only free blocks of the
//! page.
use vstd::prelude::*;

use crate::allocation_data::AllocationData;
use crate::bucket_list::{blocks_disjoint, chain_entry_ok, spec_lookup_bucket, BucketList};
use crate::code_block;
use crate::code_block::{block_ok, is_block, Block};
use crate::globals::{
    BUCKET_LIST_SIZE, MAX_PAGE_SIZE, NEXT_POINTER_SIZE, SMALLEST_POSSIBLE_FREE_SPACE,
};
use crate::space::Space;

verus! {

/// The blocks tile `[po, pe)`: the first starts at `po`, each next block
/// starts where the previous one ends, and the last ends at `pe`.
pub open spec fn blocks_tile(bs: Seq<Block>, po: int, pe: int) -> bool {
    &&& bs.len() >= 1
    &&& bs[0].start == po
    &&& bs[bs.len() - 1].end() == pe
    &&& forall|k: int| 0 < k < bs.len() ==> (#[trigger] bs[k]).start == bs[k - 1].end()
}

/// Blocks of a tiling keep their order in memory.
pub proof fn lemma_tiling_ordered(bs: Seq<Block>, po: int, pe: int, k1: int, k2: int)
    requires
        blocks_tile(bs, po, pe),
        forall|k: int| 0 <= k < bs.len() ==> (#[trigger] bs[k]).payload >= 1 && bs[k].tag >= 1,
        0 <= k1 < bs.len(),
        0 <= k2 < bs.len(),
        k1 < k2,
    ensures
        bs[k1].end() <= bs[k2].start,
        bs[k1].start < bs[k2].start,
        blocks_disjoint(bs[k1], bs[k2]),
    decreases k2 - k1,
{
    if k1 + 1 < k2 {
        lemma_tiling_ordered(bs, po, pe, k1 + 1, k2);
    }
}

/// Every block of a tiling stays inside the page.
pub proof fn lemma_tiling_in_page(bs: Seq<Block>, po: int, pe: int, k: int)
    requires
        blocks_tile(bs, po, pe),
        forall|k: int| 0 <= k < bs.len() ==> (#[trigger] bs[k]).payload >= 1 && bs[k].tag >= 1,
        0 <= k < bs.len(),
    ensures
        po <= bs[k].start,
        bs[k].end() <= pe,
        bs[k].start < bs[k].end(),
{
    if k > 0 {
        lemma_tiling_ordered(bs, po, pe, 0, k);
    }
    if k < bs.len() - 1 {
        lemma_tiling_ordered(bs, po, pe, k, bs.len() - 1);
    }
}

/// Two blocks of a tiling that share their start, end, or payload start
/// are the same entry.
pub proof fn lemma_tiling_index_unique(bs: Seq<Block>, po: int, pe: int, k1: int, k2: int)
    requires
        blocks_tile(bs, po, pe),
        forall|k: int| 0 <= k < bs.len() ==> (#[trigger] bs[k]).payload >= 1 && bs[k].tag >= 1,
        0 <= k1 < bs.len(),
        0 <= k2 < bs.len(),
        bs[k1].ptr() == bs[k2].ptr() || bs[k1].start == bs[k2].start || bs[k1].end() == bs[
            k2].end(),
    ensures
        k1 == k2,
{
    if k1 < k2 {
        lemma_tiling_ordered(bs, po, pe, k1, k2);
    }
    if k2 < k1 {
        lemma_tiling_ordered(bs, po, pe, k2, k1);
    }
}

/// Blocks other than `k` survive a heap write confined to block `k`'s
/// byte region.
pub proof fn lemma_blocks_frame(
    bs: Seq<Block>,
    h1: Seq<u8>,
    h2: Seq<u8>,
    po: int,
    pe: int,
    lo: int,
    hi: int,
    k: int,
)
    requires
        blocks_tile(bs, po, pe),
        forall|t: int| 0 <= t < bs.len() ==> (#[trigger] bs[t]).payload >= 1 && bs[t].tag >= 1,
        forall|t: int| 0 <= t < bs.len() && t != k ==> #[trigger] block_ok(h1, bs[t]),
        0 <= k < bs.len(),
        bs[k].start <= lo,
        hi <= bs[k].end(),
        code_block::unchanged_except(h1, h2, lo, hi),
    ensures
        forall|t: int| 0 <= t < bs.len() && t != k ==> #[trigger] block_ok(h2, bs[t]),
{
    assert forall|t: int| 0 <= t < bs.len() && t != k implies #[trigger] block_ok(h2, bs[t]) by {
        assert(block_ok(h1, bs[t]));
        if t < k {
            lemma_tiling_ordered(bs, po, pe, t, k);
        } else {
            lemma_tiling_ordered(bs, po, pe, k, t);
        }
        assert(code_block::agree_on(h1, h2, bs[t].start, bs[t].end()));
        code_block::lemma_block_frame(h1, h2, bs[t]);
    }
}

/// Every block survives a heap write confined to block `k`'s payload
/// interior: block `k` keeps its tags, the others their whole bytes.
pub proof fn lemma_blocks_frame_payload(
    bs: Seq<Block>,
    h1: Seq<u8>,
    h2: Seq<u8>,
    po: int,
    pe: int,
    lo: int,
    hi: int,
    k: int,
)
    requires
        blocks_tile(bs, po, pe),
        forall|t: int|
            0 <= t < bs.len() ==> #[trigger] block_ok(h1, bs[t]) && bs[t].payload
                >= NEXT_POINTER_SIZE as int,
        0 <= k < bs.len(),
        bs[k].ptr() <= lo,
        hi <= bs[k].ptr() + bs[k].payload,
        code_block::unchanged_except(h1, h2, lo, hi),
    ensures
        forall|t: int|
            0 <= t < bs.len() ==> #[trigger] block_ok(h2, bs[t]) && bs[t].payload
                >= NEXT_POINTER_SIZE as int,
{
    assert(block_ok(h1, bs[k]));
    assert forall|t: int|
        0 <= t < bs.len() implies (#[trigger] bs[t]).payload >= 1 && bs[t].tag >= 1 by {
        assert(block_ok(h1, bs[t]));
    }
    lemma_blocks_frame(bs, h1, h2, po, pe, lo, hi, k);
    assert(code_block::agree_on(h1, h2, bs[k].start, bs[k].ptr()));
    assert(code_block::agree_on(h1, h2, bs[k].right_tag(), bs[k].end()));
    code_block::lemma_block_tags_frame(h1, h2, bs[k]);
    assert forall|t: int|
        0 <= t < bs.len() implies #[trigger] block_ok(h2, bs[t]) && bs[t].payload
        >= NEXT_POINTER_SIZE as int by {
        assert(block_ok(h1, bs[t]));
        if t != k {
            assert(block_ok(h2, bs[t]));
        }
    }
}

/// A value at another index survives removing one element.
pub proof fn lemma_remove_still_contains(s: Seq<Block>, j: int, x: Block)
    requires
        0 <= j < s.len(),
        s.contains(x),
        x != s[j],
    ensures
        s.remove(j).contains(x),
{
    let t = choose|t: int| 0 <= t < s.len() && s[t] == x;
    if t < j {
        assert(s.remove(j)[t] == x);
    } else {
        assert(s.remove(j)[t - 1] == x);
    }
}

/// A value survives pushing another one at the front.
pub proof fn lemma_prepend_contains(s: Seq<Block>, x: Block, y: Block)
    requires
        s.contains(y),
    ensures
        (seq![x] + s).contains(y),
{
    let t = choose|t: int| 0 <= t < s.len() && s[t] == y;
    assert((seq![x] + s)[t + 1] == y);
}

/// Every block of the sequence is encoded in the heap and can hold a next
/// pointer.
pub open spec fn blocks_all_ok(h: Seq<u8>, bs: Seq<Block>) -> bool {
    forall|t: int|
        0 <= t < bs.len() ==> #[trigger] block_ok(h, bs[t]) && bs[t].payload
            >= NEXT_POINTER_SIZE as int
}

/// Two distinct blocks of a tiling, identified by their payload starts,
/// are disjoint.
proof fn lemma_tiling_index_unique_ptr(
    bs: Seq<Block>,
    po: int,
    pe: int,
    t0: int,
    k: int,
    e: Block,
    b: Block,
)
    requires
        blocks_tile(bs, po, pe),
        forall|t: int| 0 <= t < bs.len() ==> (#[trigger] bs[t]).payload >= 1 && bs[t].tag >= 1,
        0 <= t0 < bs.len(),
        0 <= k < bs.len(),
        bs[t0] == e,
        bs[k] == b,
        e.ptr() != b.ptr(),
    ensures
        e.end() <= b.start || b.end() <= e.start,
{
    if t0 < k {
        lemma_tiling_ordered(bs, po, pe, t0, k);
    } else if k < t0 {
        lemma_tiling_ordered(bs, po, pe, k, t0);
    }
}

/// After removing the entry of the found block, every entry still listed
/// names a block of the page other than the found one, and every free
/// block other than the found one is still listed in its bucket.
proof fn lemma_remaining_entry(
    chains0: Seq<Seq<Block>>,
    chains_r: Seq<Seq<Block>>,
    ei: int,
    ej: int,
    jr: int,
    i: int,
    j: int,
    bs: Seq<Block>,
    b: Block,
)
    requires
        chains0.len() == BUCKET_LIST_SIZE,
        0 <= ei < BUCKET_LIST_SIZE,
        0 <= ej < chains0[ei].len(),
        0 <= jr < chains0[ei].len(),
        chains0[ei][jr].ptr() == b.ptr(),
        chains_r == chains0.update(ei, chains0[ei].remove(jr)),
        0 <= i < BUCKET_LIST_SIZE,
        0 <= j < chains_r[i].len(),
        // entries of the old chains are blocks and pairwise disjoint
        forall|i1: int, j1: int|
            0 <= i1 < BUCKET_LIST_SIZE && 0 <= j1 < chains0[i1].len() ==> bs.contains(
                #[trigger] chains0[i1][j1],
            ),
        forall|i1: int, j1: int, i2: int, j2: int|
            #![trigger chains0[i1][j1], chains0[i2][j2]]
            0 <= i1 < BUCKET_LIST_SIZE && 0 <= j1 < chains0[i1].len() && 0 <= i2
                < BUCKET_LIST_SIZE && 0 <= j2 < chains0[i2].len() && !(i1 == i2 && j1 == j2)
                ==> blocks_disjoint(chains0[i1][j1], chains0[i2][j2]),
        forall|i1: int, j1: int|
            0 <= i1 < BUCKET_LIST_SIZE && 0 <= j1 < chains0[i1].len() ==> (
            #[trigger] chains0[i1][j1]).payload >= 1 && chains0[i1][j1].tag >= 1,
    ensures
        bs.contains(chains_r[i][j]),
        chains_r[i][j].ptr() != b.ptr(),
{
    let e0: Block = if i == ei {
        if j < jr {
            chains0[i][j]
        } else {
            chains0[i][j + 1]
        }
    } else {
        chains0[i][j]
    };
    assert(chains_r[i][j] == e0);
    assert(bs.contains(e0));
    if i == ei {
        let j0: int = if j < jr {
            j
        } else {
            j + 1
        };
        assert(j0 != jr);
        assert(blocks_disjoint(chains0[i][j0], chains0[ei][jr]));
    } else {
        assert(blocks_disjoint(chains0[i][j], chains0[ei][jr]));
    }
}

/// The chain entry a fitting search returned names one free block of the
/// page; returns that block's index.
proof fn lemma_pick_block(pre: Page, h0: Seq<u8>, fs: Space, ei: int, ej: int) -> (k: int)
    requires
        pre.wf(h0),
        pre.bucket_list.is_chain_entry_match(fs, ei, ej),
    ensures
        0 <= k < pre.blocks@.len(),
        pre.blocks@[k] == pre.bucket_list.chains@[ei][ej],
        pre.blocks@[k].free,
        block_ok(h0, pre.blocks@[k]),
        pre.blocks@[k].ptr() == fs.ptr.unwrap() as int,
        pre.blocks@[k].payload == fs.size.unwrap() as int,
        spec_lookup_bucket(pre.blocks@[k].payload) == ei,
        pre.start_of_page as int <= pre.blocks@[k].start,
        pre.blocks@[k].end() <= pre.end_of_page as int,
        pre.blocks@[k].end() <= h0.len(),
        pre.blocks@[k].end() - pre.blocks@[k].start <= MAX_PAGE_SIZE as int,
{
    let bs = pre.blocks@;
    let po = pre.start_of_page as int;
    let pe = pre.end_of_page as int;
    let e = pre.bucket_list.chains@[ei][ej];
    assert(bs.contains(e));
    assert(chain_entry_ok(h0, po, pe, pre.bucket_list.chains@[ei], ej, ei));
    let k = choose|k0: int| 0 <= k0 < bs.len() && bs[k0] == e;
    assert forall|t: int|
        0 <= t < bs.len() implies (#[trigger] bs[t]).payload >= 1 && bs[t].tag >= 1 by {
        assert(block_ok(h0, bs[t]));
    }
    lemma_tiling_in_page(bs, po, pe, k);
    k
}

/// What freeing does to a page's block sequence: the used block whose
/// payload starts at `p` becomes free, merged with its free neighbors into
/// one block, and every other block stays as it was.
#[verifier::opaque]
pub open spec fn free_success(pre: Seq<Block>, post: Seq<Block>, p: int) -> bool {
    exists|k: int|
        #![trigger pre[k]]
        {
            let l: int = if k > 0 && pre[k - 1].free {
                1
            } else {
                0
            };
            let r: int = if k + 1 < pre.len() && pre[k + 1].free {
                1
            } else {
                0
            };
            &&& 0 <= k < pre.len()
            &&& !pre[k].free
            &&& pre[k].ptr() == p
            &&& post.len() == pre.len() - l - r
            &&& 0 <= k - l < post.len()
            &&& post[k - l].free
            &&& post[k - l].start == pre[k - l].start
            &&& post[k - l].end() == pre[k + r].end()
            &&& (forall|t: int| 0 <= t < k - l ==> #[trigger] post[t] == pre[t])
            &&& (forall|t: int| k + r < t < pre.len() ==> #[trigger] post[t - l - r] == pre[t])
        }
}

/// The state after unlinking one listed block `kr`, stated without the
/// full page invariant so that it can be applied to back-to-back unlinks:
/// every block keeps its bytes, the remaining entries name other blocks,
/// and every block still listed before stays listed unless it is `kr`.
#[verifier::spinoff_prover]
proof fn lemma_after_remove_gen(
    bs: Seq<Block>,
    po: int,
    pe: int,
    h1: Seq<u8>,
    h2: Seq<u8>,
    chains1: Seq<Seq<Block>>,
    chains2: Seq<Seq<Block>>,
    ei: int,
    jr: int,
    kr: int,
)
    requires
        blocks_tile(bs, po, pe),
        forall|t: int| 0 <= t < bs.len() ==> (#[trigger] bs[t]).payload >= 1 && bs[t].tag >= 1,
        blocks_all_ok(h1, bs),
        chains1.len() == BUCKET_LIST_SIZE,
        forall|i: int, j: int|
            0 <= i < BUCKET_LIST_SIZE && 0 <= j < chains1[i].len()
                ==> #[trigger] chain_entry_ok(h1, po, pe, chains1[i], j, i),
        forall|i1: int, j1: int, i2: int, j2: int|
            #![trigger chains1[i1][j1], chains1[i2][j2]]
            0 <= i1 < BUCKET_LIST_SIZE && 0 <= j1 < chains1[i1].len() && 0 <= i2
                < BUCKET_LIST_SIZE && 0 <= j2 < chains1[i2].len() && !(i1 == i2 && j1 == j2)
                ==> crate::bucket_list::blocks_disjoint(chains1[i1][j1], chains1[i2][j2]),
        forall|i: int, j: int|
            0 <= i < BUCKET_LIST_SIZE && 0 <= j < chains1[i].len() ==> bs.contains(
                #[trigger] chains1[i][j],
            ),
        0 <= ei < BUCKET_LIST_SIZE,
        0 <= jr < chains1[ei].len(),
        0 <= kr < bs.len(),
        bs[kr] == chains1[ei][jr],
        chains2 == chains1.update(ei, chains1[ei].remove(jr)),
        h2.len() == h1.len(),
        (if jr == 0 {
            h2 == h1
        } else {
            code_block::unchanged_except(
                h1,
                h2,
                chains1[ei][jr - 1].ptr(),
                chains1[ei][jr - 1].ptr() + NEXT_POINTER_SIZE as int,
            )
        }),
    ensures
        blocks_all_ok(h2, bs),
        code_block::unchanged_except(h1, h2, po, pe),
        forall|i: int, j: int|
            0 <= i < BUCKET_LIST_SIZE && 0 <= j < chains2[i].len() ==> bs.contains(
                #[trigger] chains2[i][j],
            ) && chains2[i][j].ptr() != bs[kr].ptr(),
        forall|t: int|
            0 <= t < bs.len() && t != kr && chains1[spec_lookup_bucket(
                bs[t].payload,
            )].contains(#[trigger] bs[t]) ==> chains2[spec_lookup_bucket(
                bs[t].payload,
            )].contains(bs[t]),
        forall|i: int, j: int|
            0 <= i < BUCKET_LIST_SIZE && 0 <= j < chains2[i].len() ==> #[trigger] entry_listed(
                chains1,
                i,
                chains2[i][j],
            ),
{
    if jr == 0 {
        assert(blocks_all_ok(h2, bs));
    } else {
        let pred = chains1[ei][jr - 1];
        assert(chain_entry_ok(h1, po, pe, chains1[ei], jr - 1, ei));
        assert(bs.contains(pred));
        let tp = choose|t: int| 0 <= t < bs.len() && bs[t] == pred;
        lemma_blocks_frame_payload(
            bs,
            h1,
            h2,
            po,
            pe,
            pred.ptr(),
            pred.ptr() + NEXT_POINTER_SIZE as int,
            tp,
        );
        assert(code_block::unchanged_except(h1, h2, po, pe));
    }
    assert forall|i1: int, j1: int|
        0 <= i1 < BUCKET_LIST_SIZE && 0 <= j1 < chains1[i1].len() implies (
    #[trigger] chains1[i1][j1]).payload >= 1 && chains1[i1][j1].tag >= 1 by {
        assert(chain_entry_ok(h1, po, pe, chains1[i1], j1, i1));
    }
    assert forall|i: int, j: int|
        0 <= i < BUCKET_LIST_SIZE && 0 <= j < chains2[i].len() implies bs.contains(
        #[trigger] chains2[i][j],
    ) && chains2[i][j].ptr() != bs[kr].ptr() by {
        lemma_remaining_entry(chains1, chains2, ei, jr, jr, i, j, bs, bs[kr]);
    }
    assert forall|t: int|
        0 <= t < bs.len() && t != kr && chains1[spec_lookup_bucket(bs[t].payload)].contains(
            #[trigger] bs[t],
        ) implies chains2[spec_lookup_bucket(bs[t].payload)].contains(bs[t]) by {
        let l0 = spec_lookup_bucket(bs[t].payload);
        crate::bucket_list::lemma_lookup_bucket_range(bs[t].payload);
        if l0 == ei {
            lemma_tiling_ordered_any(bs, po, pe, t, kr);
            assert(bs[t] != chains1[ei][jr]);
            lemma_remove_still_contains(chains1[ei], jr, bs[t]);
        } else {
            assert(chains2[l0] == chains1[l0]);
        }
    }
    lemma_remove_membership(chains1, chains2, ei, jr);
}

/// The value `x` stands somewhere in bucket `i` of `chains`.
pub open spec fn entry_listed(chains: Seq<Seq<Block>>, i: int, x: Block) -> bool {
    exists|j2: int| 0 <= j2 < chains[i].len() && #[trigger] chains[i][j2] == x
}

/// Every chain entry that survives the removal of one element was an
/// entry of the same bucket before.
proof fn lemma_remove_membership(
    chains1: Seq<Seq<Block>>,
    chains2: Seq<Seq<Block>>,
    ei: int,
    jr: int,
)
    requires
        chains1.len() == BUCKET_LIST_SIZE,
        0 <= ei < BUCKET_LIST_SIZE,
        0 <= jr < chains1[ei].len(),
        chains2 == chains1.update(ei, chains1[ei].remove(jr)),
    ensures
        forall|i: int, j: int|
            0 <= i < BUCKET_LIST_SIZE && 0 <= j < chains2[i].len() ==> #[trigger] entry_listed(
                chains1,
                i,
                chains2[i][j],
            ),
{
    assert forall|i: int, j: int|
        0 <= i < BUCKET_LIST_SIZE && 0 <= j < chains2[i].len() implies #[trigger] entry_listed(
        chains1,
        i,
        chains2[i][j],
    ) by {
        if i == ei {
            let jx: int = if j < jr {
                j
            } else {
                j + 1
            };
            assert(chains1[i][jx] == chains2[i][j]);
        } else {
            assert(chains1[i][j] == chains2[i][j]);
        }
    }
}

/// What unlinking the found block's chain entry leaves behind: all blocks
/// still encoded, the remaining entries naming other blocks, every other
/// free block still listed, and the page bytes outside the page untouched.
#[verifier::spinoff_prover]
proof fn lemma_after_remove(
    pre: Page,
    h0: Seq<u8>,
    hr: Seq<u8>,
    chains_r: Seq<Seq<Block>>,
    ei: int,
    jr: int,
    k: int,
)
    requires
        pre.wf(h0),
        0 <= ei < BUCKET_LIST_SIZE,
        0 <= jr < pre.bucket_list.chains@[ei].len(),
        0 <= k < pre.blocks@.len(),
        pre.bucket_list.chains@[ei][jr].ptr() == pre.blocks@[k].ptr(),
        chains_r == pre.bucket_list.chains@.update(
            ei,
            pre.bucket_list.chains@[ei].remove(jr),
        ),
        (if jr == 0 {
            hr == h0
        } else {
            code_block::unchanged_except(
                h0,
                hr,
                pre.bucket_list.chains@[ei][jr - 1].ptr(),
                pre.bucket_list.chains@[ei][jr - 1].ptr() + NEXT_POINTER_SIZE as int,
            )
        }),
        hr.len() == h0.len(),
    ensures
        blocks_all_ok(hr, pre.blocks@),
        code_block::unchanged_except(
            h0,
            hr,
            pre.start_of_page as int,
            pre.end_of_page as int,
        ),
        forall|i: int, j: int|
            0 <= i < BUCKET_LIST_SIZE && 0 <= j < chains_r[i].len() ==> pre.blocks@.contains(
                #[trigger] chains_r[i][j],
            ) && chains_r[i][j].ptr() != pre.blocks@[k].ptr() && (chains_r[i][j].end()
                <= pre.blocks@[k].start || pre.blocks@[k].end() <= chains_r[i][j].start),
        forall|t: int|
            0 <= t < pre.blocks@.len() && t != k && (#[trigger] pre.blocks@[t]).free
                ==> chains_r[spec_lookup_bucket(pre.blocks@[t].payload)].contains(
                pre.blocks@[t],
            ),
{
    let bs = pre.blocks@;
    let po = pre.start_of_page as int;
    let pe = pre.end_of_page as int;
    let chains0 = pre.bucket_list.chains@;
    let b = bs[k];
    assert forall|t: int|
        0 <= t < bs.len() implies (#[trigger] bs[t]).payload >= 1 && bs[t].tag >= 1 by {
        assert(block_ok(h0, bs[t]));
    }
    if jr == 0 {
        assert(blocks_all_ok(hr, bs));
    } else {
        let pred = chains0[ei][jr - 1];
        assert(chain_entry_ok(h0, po, pe, chains0[ei], jr - 1, ei));
        assert(bs.contains(pred));
        let tp = choose|t: int| 0 <= t < bs.len() && bs[t] == pred;
        lemma_blocks_frame_payload(
            bs,
            h0,
            hr,
            po,
            pe,
            pred.ptr(),
            pred.ptr() + NEXT_POINTER_SIZE as int,
            tp,
        );
        assert(blocks_all_ok(hr, bs));
        assert(code_block::unchanged_except(h0, hr, po, pe));
    }
    assert forall|i: int, j: int|
        0 <= i < BUCKET_LIST_SIZE && 0 <= j < chains_r[i].len() implies bs.contains(
        #[trigger] chains_r[i][j],
    ) && chains_r[i][j].ptr() != bs[k].ptr() && (chains_r[i][j].end() <= bs[k].start || bs[
        k].end() <= chains_r[i][j].start) by {
        assert forall|i1: int, j1: int|
            0 <= i1 < BUCKET_LIST_SIZE && 0 <= j1 < chains0[i1].len() implies (
        #[trigger] chains0[i1][j1]).payload >= 1 && chains0[i1][j1].tag >= 1 by {
            assert(chain_entry_ok(h0, po, pe, chains0[i1], j1, i1));
        }
        lemma_remaining_entry(chains0, chains_r, ei, jr, jr, i, j, bs, b);
        let e1 = chains_r[i][j];
        let t0 = choose|t: int| 0 <= t < bs.len() && bs[t] == e1;
        lemma_tiling_index_unique_ptr(bs, po, pe, t0, k, e1, b);
    }
    assert forall|t: int|
        0 <= t < bs.len() && t != k && (#[trigger] bs[t]).free implies chains_r[
    spec_lookup_bucket(bs[t].payload)].contains(bs[t]) by {
        let l0 = spec_lookup_bucket(bs[t].payload);
        assert(chains0[l0].contains(bs[t]));
        crate::bucket_list::lemma_lookup_bucket_range(bs[t].payload);
        if l0 == ei {
            lemma_tiling_ordered_any(bs, po, pe, t, k);
            assert(bs[t] != chains0[ei][jr]);
            lemma_remove_still_contains(chains0[ei], jr, bs[t]);
        } else {
            assert(chains_r[l0] == chains0[l0]);
        }
    }
}

/// What a successful allocation does to a page's block sequence: one free
/// block of sufficient payload turns into a used block whose payload
/// starts at `p`, either consumed whole or split with a free remainder,
/// and every other block stays as it was.
#[verifier::opaque]
pub open spec fn alloc_success(pre: Seq<Block>, post: Seq<Block>, p: int, req: int) -> bool {
    exists|k: int|
        #![trigger pre[k]]
        {
            &&& 0 <= k < pre.len()
            &&& pre[k].free
            &&& pre[k].payload >= req
            &&& 0 <= k < post.len()
            &&& post[k].start == pre[k].start
            &&& !post[k].free
            &&& post[k].payload >= req
            &&& p == post[k].ptr()
            &&& (forall|t: int| 0 <= t < k ==> #[trigger] post[t] == pre[t])
            &&& ((post.len() == pre.len() && post[k].payload == pre[k].payload && post[k].tag
                == pre[k].tag && (forall|t: int|
                k < t < pre.len() ==> #[trigger] post[t] == pre[t])) || (post.len() == pre.len()
                + 1 && post[k].payload == req && k + 1 < post.len() && post[k + 1].free && post[k
                + 1].end() == pre[k].end() && (forall|t: int|
                k < t < pre.len() ==> #[trigger] post[t + 1] == pre[t])))
        }
}

/// Bundles the whole split-allocation proof: from the state after the
/// unlink, through the split writes and the remainder's insertion, to the
/// final page invariant.
#[verifier::rlimit(100)]
#[verifier::spinoff_prover]
proof fn lemma_split_branch(
    pre: Page,
    post: Page,
    h0: Seq<u8>,
    hr: Seq<u8>,
    h3: Seq<u8>,
    hf: Seq<u8>,
    chains_r: Seq<Seq<Block>>,
    k: int,
    b: Block,
    left: Block,
    right: Block,
    bs2: Seq<Block>,
    req: int,
)
    requires
        pre.wf(h0),
        0 <= k < pre.blocks@.len(),
        b == pre.blocks@[k],
        b.free,
        b.payload >= req,
        req >= NEXT_POINTER_SIZE as int,
        // after the unlink
        hr.len() == h0.len(),
        blocks_all_ok(hr, pre.blocks@),
        chains_r.len() == BUCKET_LIST_SIZE,
        code_block::unchanged_except(h0, hr, pre.start_of_page as int, pre.end_of_page as int),
        forall|i: int, j: int|
            0 <= i < BUCKET_LIST_SIZE && 0 <= j < chains_r[i].len() ==> pre.blocks@.contains(
                #[trigger] chains_r[i][j],
            ) && chains_r[i][j].ptr() != b.ptr() && (chains_r[i][j].end() <= b.start || b.end()
                <= chains_r[i][j].start),
        forall|t: int|
            0 <= t < pre.blocks@.len() && t != k && (#[trigger] pre.blocks@[t]).free
                ==> chains_r[spec_lookup_bucket(pre.blocks@[t].payload)].contains(
                pre.blocks@[t],
            ),
        // after the split writes
        h3.len() == hr.len(),
        code_block::unchanged_except(hr, h3, b.start, b.end()),
        left.start == b.start,
        !left.free,
        left.payload == req,
        left.tag >= 1,
        right.start == left.end(),
        right.end() == b.end(),
        right.free,
        right.tag >= 1,
        right.payload >= NEXT_POINTER_SIZE as int,
        block_ok(h3, left),
        // after the remainder's insertion
        hf.len() == h3.len(),
        code_block::unchanged_except(h3, hf, right.ptr(), right.ptr() + NEXT_POINTER_SIZE as int),
        post.bucket_list.wf(hf),
        post.bucket_list.chains@ == chains_r.update(
            spec_lookup_bucket(right.payload),
            seq![right] + chains_r[spec_lookup_bucket(right.payload)],
        ),
        post.start_of_page == pre.start_of_page,
        post.end_of_page == pre.end_of_page,
        post.bucket_list.start_of_page == pre.start_of_page,
        post.bucket_list.end_of_page == pre.end_of_page,
        post.blocks@ == bs2,
        bs2 == pre.blocks@.subrange(0, k).push(left).push(right) + pre.blocks@.subrange(
            k + 1,
            pre.blocks@.len() as int,
        ),
    ensures
        post.wf(hf),
        code_block::unchanged_except(h0, hf, pre.start_of_page as int, pre.end_of_page as int),
        alloc_success(pre.blocks@, bs2, left.ptr(), req),
{
    let bs = pre.blocks@;
    let po = pre.start_of_page as int;
    let pe = pre.end_of_page as int;
    let bi2 = spec_lookup_bucket(right.payload);
    crate::bucket_list::lemma_lookup_bucket_range(right.payload);
    assert forall|t: int|
        0 <= t < bs.len() implies (#[trigger] bs[t]).payload >= 1 && bs[t].tag >= 1 by {
        assert(block_ok(h0, bs[t]));
    }
    lemma_tiling_in_page(bs, po, pe, k);
    lemma_blocks_frame(bs, hr, h3, po, pe, b.start, b.end(), k);
    lemma_blocks_frame(bs, h3, hf, po, pe, right.ptr(), right.ptr() + NEXT_POINTER_SIZE as int, k);
    assert(block_ok(hf, left)) by {
        assert(code_block::agree_on(h3, hf, left.start, left.end()));
        code_block::lemma_block_frame(h3, hf, left);
    }
    assert(block_ok(hf, right)) by {
        assert(post.bucket_list.chains@[bi2][0] == right);
        assert(chain_entry_ok(hf, po, pe, post.bucket_list.chains@[bi2], 0, bi2));
    }
    assert(blocks_all_ok(hf, bs2)) by {
        assert forall|t: int|
            0 <= t < bs2.len() implies #[trigger] block_ok(hf, bs2[t]) && bs2[t].payload
            >= NEXT_POINTER_SIZE as int by {
            if t < k {
                assert(bs2[t] == bs[t]);
                assert(block_ok(h0, bs[t]));
                assert(block_ok(hf, bs[t]));
            } else if t == k {
                assert(bs2[t] == left);
            } else if t == k + 1 {
                assert(bs2[t] == right);
            } else {
                assert(bs2[t] == bs[t - 1]);
                assert(block_ok(h0, bs[t - 1]));
                assert(block_ok(hf, bs[t - 1]));
            }
        }
    }
    lemma_alloc_split_wf(pre, post, h0, hf, bs, bs2, chains_r, k, left, right);
    assert(code_block::unchanged_except(h0, hf, po, pe));
    assert(alloc_success(bs, bs2, left.ptr(), req)) by {
        reveal(alloc_success);
        assert(bs2[k] == left);
        assert(bs2[k + 1] == right);
        assert(forall|t: int| 0 <= t < k ==> #[trigger] bs2[t] == bs[t]);
        assert(forall|t: int| k < t < bs.len() ==> #[trigger] bs2[t + 1] == bs[t]);
        assert(bs[k].free && bs[k].payload >= req);
    }
}

/// Bundles the whole-block allocation proof: the found block was unlinked
/// and only its free bit and right tag copy were rewritten.
#[verifier::rlimit(100)]
#[verifier::spinoff_prover]
proof fn lemma_whole_branch(
    pre: Page,
    post: Page,
    h0: Seq<u8>,
    hr: Seq<u8>,
    h4: Seq<u8>,
    hf: Seq<u8>,
    chains_r: Seq<Seq<Block>>,
    k: int,
    b: Block,
    used: Block,
    bs2: Seq<Block>,
    req: int,
)
    requires
        pre.wf(h0),
        0 <= k < pre.blocks@.len(),
        b == pre.blocks@[k],
        b.free,
        b.payload >= req,
        req >= NEXT_POINTER_SIZE as int,
        // after the unlink
        hr.len() == h0.len(),
        blocks_all_ok(hr, pre.blocks@),
        chains_r.len() == BUCKET_LIST_SIZE,
        code_block::unchanged_except(h0, hr, pre.start_of_page as int, pre.end_of_page as int),
        forall|i: int, j: int|
            0 <= i < BUCKET_LIST_SIZE && 0 <= j < chains_r[i].len() ==> pre.blocks@.contains(
                #[trigger] chains_r[i][j],
            ) && chains_r[i][j].ptr() != b.ptr() && (chains_r[i][j].end() <= b.start || b.end()
                <= chains_r[i][j].start),
        forall|t: int|
            0 <= t < pre.blocks@.len() && t != k && (#[trigger] pre.blocks@[t]).free
                ==> chains_r[spec_lookup_bucket(pre.blocks@[t].payload)].contains(
                pre.blocks@[t],
            ),
        // after flipping the free bit
        h4.len() == hr.len(),
        code_block::unchanged_except(hr, h4, b.start, b.start + 1),
        code_block::is_tag(h4, b.start, b.tag),
        code_block::tag_value(h4, b.start, b.tag) == b.payload,
        !code_block::tag_is_free(h4, b.start),
        // after mirroring the tag to the right end
        hf.len() == h4.len(),
        code_block::unchanged_except(h4, hf, b.end() - b.tag, b.end()),
        forall|t: int|
            0 <= t < b.tag ==> #[trigger] code_block::byte_shift_eq(
                hf,
                b.start,
                b.end() - b.tag,
                t,
            ),
        used == (Block { start: b.start, tag: b.tag, payload: b.payload, free: false }),
        bs2 == pre.blocks@.update(k, used),
        post.start_of_page == pre.start_of_page,
        post.end_of_page == pre.end_of_page,
        post.bucket_list.start_of_page == pre.start_of_page,
        post.bucket_list.end_of_page == pre.end_of_page,
        post.bucket_list.chains@ == chains_r,
        post.bucket_list.wf(hr),
        post.blocks@ == bs2,
    ensures
        post.wf(hf),
        code_block::unchanged_except(h0, hf, pre.start_of_page as int, pre.end_of_page as int),
        alloc_success(pre.blocks@, bs2, used.ptr(), req),
{
    let bs = pre.blocks@;
    let po = pre.start_of_page as int;
    let pe = pre.end_of_page as int;
    assert forall|t: int|
        0 <= t < bs.len() implies (#[trigger] bs[t]).payload >= 1 && bs[t].tag >= 1 by {
        assert(block_ok(h0, bs[t]));
    }
    lemma_tiling_in_page(bs, po, pe, k);
    assert(block_ok(h0, b));
    lemma_blocks_frame(bs, hr, h4, po, pe, b.start, b.start + 1, k);
    lemma_blocks_frame(bs, h4, hf, po, pe, b.end() - b.tag, b.end(), k);
    assert(block_ok(hf, used)) by {
        assert(code_block::agree_on(h4, hf, b.start, b.start + b.tag));
        code_block::lemma_tag_frame(h4, hf, b.start, b.tag);
        assert(code_block::is_block(hf, used.start, used.tag, used.payload));
        assert(!code_block::tag_is_free(hf, used.start));
    }
    assert(blocks_all_ok(hf, bs2)) by {
        assert forall|t: int|
            0 <= t < bs2.len() implies #[trigger] block_ok(hf, bs2[t]) && bs2[t].payload
            >= NEXT_POINTER_SIZE as int by {
            if t != k {
                assert(bs2[t] == bs[t]);
                assert(block_ok(h0, bs[t]));
                assert(block_ok(hf, bs[t]));
            }
        }
    }
    // the bucket list never reads the rewritten bytes
    assert(code_block::unchanged_except(hr, hf, b.start, b.end()));
    post.lemma_bucket_list_frame(hr, hf, b.start, b.end());
    lemma_alloc_whole_wf(pre, post, h0, hf, bs, bs2, chains_r, k, used);
    assert(code_block::unchanged_except(h0, hf, po, pe));
    assert(alloc_success(bs, bs2, used.ptr(), req)) by {
        reveal(alloc_success);
        assert(bs2[k] == used);
        assert(forall|t: int| 0 <= t < k ==> #[trigger] bs2[t] == bs[t]);
        assert(forall|t: int| k < t < bs.len() ==> #[trigger] bs2[t] == bs[t]);
        assert(bs[k].free && bs[k].payload >= req);
    }
}

/// The bookkeeping state between unlinking the neighbors and rewriting
/// the merged span: every listed entry is a block other than the unlinked
/// neighbors, and every free block outside the merged span stays listed.
pub open spec fn unlinked_state(
    bs: Seq<Block>,
    chains: Seq<Seq<Block>>,
    k: int,
    l: int,
    r: int,
) -> bool {
    &&& forall|i: int, j: int|
        0 <= i < BUCKET_LIST_SIZE && 0 <= j < chains[i].len() ==> bs.contains(
            #[trigger] chains[i][j],
        ) && (l == 1 ==> chains[i][j].ptr() != bs[k - 1].ptr()) && (r == 1 ==> chains[i][j].ptr()
            != bs[k + 1].ptr())
    &&& forall|t: int|
        0 <= t < bs.len() && !(k - l <= t <= k + r) && (#[trigger] bs[t]).free ==> chains[
            spec_lookup_bucket(bs[t].payload)].contains(bs[t])
}

/// Extends the unlinked-state bookkeeping over the right neighbor's
/// removal.
proof fn lemma_unlinked_extend(
    bs: Seq<Block>,
    chains1: Seq<Seq<Block>>,
    chains2: Seq<Seq<Block>>,
    k: int,
    l: int,
)
    requires
        chains1.len() == BUCKET_LIST_SIZE,
        unlinked_state(bs, chains1, k, l, 0),
        0 <= k,
        0 <= l <= 1,
        k + 1 < bs.len(),
        forall|i: int, j: int|
            0 <= i < BUCKET_LIST_SIZE && 0 <= j < chains2[i].len() ==> bs.contains(
                #[trigger] chains2[i][j],
            ) && chains2[i][j].ptr() != bs[k + 1].ptr(),
        forall|i: int, j: int|
            0 <= i < BUCKET_LIST_SIZE && 0 <= j < chains2[i].len() ==> #[trigger] entry_listed(
                chains1,
                i,
                chains2[i][j],
            ),
        forall|t: int|
            0 <= t < bs.len() && t != k + 1 && chains1[spec_lookup_bucket(
                bs[t].payload,
            )].contains(#[trigger] bs[t]) ==> chains2[spec_lookup_bucket(
                bs[t].payload,
            )].contains(bs[t]),
    ensures
        unlinked_state(bs, chains2, k, l, 1),
{
    assert forall|i: int, j: int|
        0 <= i < BUCKET_LIST_SIZE && 0 <= j < chains2[i].len() implies bs.contains(
        #[trigger] chains2[i][j],
    ) && (l == 1 ==> chains2[i][j].ptr() != bs[k - 1].ptr()) && chains2[i][j].ptr() != bs[k
        + 1].ptr() by {
        if l == 1 {
            assert(entry_listed(chains1, i, chains2[i][j]));
            let j2 = choose|j2: int|
                0 <= j2 < chains1[i].len() && chains1[i][j2] == chains2[i][j];
            assert(chains1[i][j2].ptr() != bs[k - 1].ptr());
        }
    }
    assert forall|t: int|
        0 <= t < bs.len() && !(k - l <= t <= k + 1) && (#[trigger] bs[t]).free implies chains2[
    spec_lookup_bucket(bs[t].payload)].contains(bs[t]) by {
        assert(!(k - l <= t <= k));
        assert(chains1[spec_lookup_bucket(bs[t].payload)].contains(bs[t]));
        assert(t != k + 1);
        assert(chains2[spec_lookup_bucket(bs[t].payload)].contains(bs[t]));
    }
}

/// Every entry still listed after the unlinks lies entirely outside the
/// merged span.
proof fn lemma_merge_entries_outside(
    bs: Seq<Block>,
    po: int,
    pe: int,
    h2: Seq<u8>,
    chains_r: Seq<Seq<Block>>,
    k: int,
    l: int,
    r: int,
    m: Block,
)
    requires
        blocks_tile(bs, po, pe),
        forall|t: int| 0 <= t < bs.len() ==> (#[trigger] bs[t]).payload >= 1 && bs[t].tag >= 1,
        0 <= k < bs.len(),
        !bs[k].free,
        l == (if k > 0 && bs[k - 1].free {
            1int
        } else {
            0int
        }),
        r == (if k + 1 < bs.len() && bs[k + 1].free {
            1int
        } else {
            0int
        }),
        chains_r.len() == BUCKET_LIST_SIZE,
        unlinked_state(bs, chains_r, k, l, r),
        forall|i: int, j: int|
            0 <= i < BUCKET_LIST_SIZE && 0 <= j < chains_r[i].len() ==> (
            #[trigger] chains_r[i][j]).free,
        m.start == bs[k - l].start,
        m.end() == bs[k + r].end(),
    ensures
        forall|i: int, j: int|
            0 <= i < BUCKET_LIST_SIZE && 0 <= j < chains_r[i].len() ==> (
            #[trigger] chains_r[i][j]).end() <= m.start || m.end() <= chains_r[i][j].start,
{
    assert forall|i: int, j: int|
        0 <= i < BUCKET_LIST_SIZE && 0 <= j < chains_r[i].len() implies (
    #[trigger] chains_r[i][j]).end() <= m.start || m.end() <= chains_r[i][j].start by {
        let e1 = chains_r[i][j];
        let t0 = choose|t: int| 0 <= t < bs.len() && bs[t] == e1;
        assert(t0 != k);
        if l == 1 && t0 == k - 1 {
            assert(false);
        }
        if r == 1 && t0 == k + 1 {
            assert(false);
        }
        if t0 < k - l {
            lemma_tiling_ordered(bs, po, pe, t0, k - l);
        } else {
            lemma_tiling_ordered(bs, po, pe, k + r, t0);
        }
    }
}

/// The shape half of the coalescing proof: the new block sequence tiles
/// the page, every block is encoded, and no two free blocks are adjacent.
#[verifier::rlimit(100)]
#[verifier::spinoff_prover]
proof fn lemma_merge_shape(
    pre: Page,
    post: Page,
    h0: Seq<u8>,
    hr: Seq<u8>,
    hm: Seq<u8>,
    hf: Seq<u8>,
    chains_r: Seq<Seq<Block>>,
    k: int,
    l: int,
    r: int,
    m: Block,
    bs2: Seq<Block>,
)
    requires
        pre.wf(h0),
        0 <= k < pre.blocks@.len(),
        !pre.blocks@[k].free,
        l == (if k > 0 && pre.blocks@[k - 1].free {
            1int
        } else {
            0int
        }),
        r == (if k + 1 < pre.blocks@.len() && pre.blocks@[k + 1].free {
            1int
        } else {
            0int
        }),
        // after the unlinks
        hr.len() == h0.len(),
        blocks_all_ok(hr, pre.blocks@),
        chains_r.len() == BUCKET_LIST_SIZE,
        code_block::unchanged_except(h0, hr, pre.start_of_page as int, pre.end_of_page as int),
        unlinked_state(pre.blocks@, chains_r, k, l, r),
        forall|i: int, j: int|
            0 <= i < BUCKET_LIST_SIZE && 0 <= j < chains_r[i].len() ==> (
            #[trigger] chains_r[i][j]).free,
        forall|i: int, j: int|
            0 <= i < BUCKET_LIST_SIZE && 0 <= j < chains_r[i].len() ==> (
            #[trigger] chains_r[i][j]).end() <= m.start || m.end() <= chains_r[i][j].start,
        // after rewriting the merged span
        hm.len() == hr.len(),
        code_block::unchanged_except(hr, hm, m.start, m.end()),
        m.start == pre.blocks@[k - l].start,
        m.end() == pre.blocks@[k + r].end(),
        m.free,
        m.payload >= NEXT_POINTER_SIZE as int,
        m.tag >= 1,
        // after inserting the merged block
        hf.len() == hm.len(),
        code_block::unchanged_except(hm, hf, m.ptr(), m.ptr() + NEXT_POINTER_SIZE as int),
        post.bucket_list.wf(hf),
        post.bucket_list.chains@ == chains_r.update(
            spec_lookup_bucket(m.payload),
            seq![m] + chains_r[spec_lookup_bucket(m.payload)],
        ),
        post.start_of_page == pre.start_of_page,
        post.end_of_page == pre.end_of_page,
        post.bucket_list.start_of_page == pre.start_of_page,
        post.bucket_list.end_of_page == pre.end_of_page,
        post.blocks@ == bs2,
        bs2 == pre.blocks@.subrange(0, k - l).push(m) + pre.blocks@.subrange(
            k + r + 1,
            pre.blocks@.len() as int,
        ),
    ensures
        blocks_tile(bs2, pre.start_of_page as int, pre.end_of_page as int),
        blocks_all_ok(hf, bs2),
        forall|t: int| 0 < t < bs2.len() ==> !((#[trigger] bs2[t]).free && bs2[t - 1].free),
        bs2.len() == pre.blocks@.len() - l - r,
        forall|t: int| 0 <= t < k - l ==> #[trigger] bs2[t] == pre.blocks@[t],
        bs2[k - l] == m,
        forall|t: int| k - l < t < bs2.len() ==> #[trigger] bs2[t] == pre.blocks@[t + l + r],
        code_block::unchanged_except(h0, hf, pre.start_of_page as int, pre.end_of_page as int),
{
    let bs = pre.blocks@;
    let po = pre.start_of_page as int;
    let pe = pre.end_of_page as int;
    let bim = spec_lookup_bucket(m.payload);
    let chains_f = post.bucket_list.chains@;
    crate::bucket_list::lemma_lookup_bucket_range(m.payload);
    assert forall|t: int|
        0 <= t < bs.len() implies (#[trigger] bs[t]).payload >= 1 && bs[t].tag >= 1 by {
        assert(block_ok(h0, bs[t]));
    }
    lemma_tiling_in_page(bs, po, pe, k - l);
    lemma_tiling_in_page(bs, po, pe, k + r);
    if l == 1 || r == 1 {
        lemma_tiling_ordered(bs, po, pe, k - l, k + r);
    }
    // index characterization of the new block sequence
    assert(bs2.len() == bs.len() - l - r);
    assert(forall|t: int| 0 <= t < k - l ==> #[trigger] bs2[t] == bs[t]);
    assert(bs2[k - l] == m);
    assert(forall|t: int| k - l < t < bs2.len() ==> #[trigger] bs2[t] == bs[t + l + r]);
    // every block of the new sequence is encoded
    assert(block_ok(hf, m)) by {
        assert(chains_f[bim][0] == m);
        assert(chain_entry_ok(hf, po, pe, chains_f[bim], 0, bim));
    }
    assert forall|t: int|
        0 <= t < bs.len() && !(k - l <= t <= k + r) implies #[trigger] block_ok(hf, bs[t]) by {
        assert(block_ok(hr, bs[t]));
        if t < k - l {
            lemma_tiling_ordered(bs, po, pe, t, k - l);
        } else {
            lemma_tiling_ordered(bs, po, pe, k + r, t);
        }
        assert(code_block::agree_on(hr, hm, bs[t].start, bs[t].end()));
        code_block::lemma_block_frame(hr, hm, bs[t]);
        assert(code_block::agree_on(hm, hf, bs[t].start, bs[t].end()));
        code_block::lemma_block_frame(hm, hf, bs[t]);
    }
    assert(blocks_all_ok(hf, bs2)) by {
        assert forall|t: int|
            0 <= t < bs2.len() implies #[trigger] block_ok(hf, bs2[t]) && bs2[t].payload
            >= NEXT_POINTER_SIZE as int by {
            if t < k - l {
                assert(bs2[t] == bs[t]);
                assert(block_ok(h0, bs[t]));
                assert(block_ok(hf, bs[t]));
            } else if t == k - l {
                assert(bs2[t] == m);
                assert(block_ok(hf, m));
            } else {
                assert(bs2[t] == bs[t + l + r]);
                assert(block_ok(h0, bs[t + l + r]));
                assert(block_ok(hf, bs[t + l + r]));
            }
        }
    }
    // tiling
    assert(blocks_tile(bs2, po, pe)) by {
        assert forall|t: int| 0 < t < bs2.len() implies (#[trigger] bs2[t]).start == bs2[t
            - 1].end() by {
            if t < k - l {
            } else if t == k - l {
                assert(bs2[t - 1] == bs[t - 1]);
            } else if t == k - l + 1 {
                assert(bs2[t] == bs[k + r + 1]);
                assert(bs[k + r + 1].start == bs[k + r].end());
            } else {
                assert(bs2[t] == bs[t + l + r] && bs2[t - 1] == bs[t - 1 + l + r]);
            }
        }
        if k - l == bs2.len() - 1 {
            assert(bs2[bs2.len() - 1].end() == bs[bs.len() - 1].end());
        } else {
            assert(bs2[bs2.len() - 1] == bs[bs.len() - 1]);
        }
    }
    // no two adjacent free blocks
    assert forall|t: int| 0 < t < bs2.len() implies !((#[trigger] bs2[t]).free && bs2[t
        - 1].free) by {
        if t == k - l {
            assert(bs2[t - 1] == bs[k - l - 1]);
            if l == 1 {
                assert(!(bs[k - 1].free && bs[k - 2].free));
            }
        } else if t == k - l + 1 {
            assert(bs2[t] == bs[k + r + 1]);
            if r == 1 {
                assert(!(bs[k + 2].free && bs[k + 1].free));
            }
        }
    }
}

/// The coupling half of the coalescing proof: every free block of the
/// new sequence hangs in its bucket and every listed entry is a block.
#[verifier::rlimit(100)]
#[verifier::spinoff_prover]
proof fn lemma_merge_coupling(
    pre: Page,
    post: Page,
    h0: Seq<u8>,
    hr: Seq<u8>,
    hm: Seq<u8>,
    hf: Seq<u8>,
    chains_r: Seq<Seq<Block>>,
    k: int,
    l: int,
    r: int,
    m: Block,
    bs2: Seq<Block>,
)
    requires
        pre.wf(h0),
        0 <= k < pre.blocks@.len(),
        !pre.blocks@[k].free,
        l == (if k > 0 && pre.blocks@[k - 1].free {
            1int
        } else {
            0int
        }),
        r == (if k + 1 < pre.blocks@.len() && pre.blocks@[k + 1].free {
            1int
        } else {
            0int
        }),
        // after the unlinks
        hr.len() == h0.len(),
        blocks_all_ok(hr, pre.blocks@),
        chains_r.len() == BUCKET_LIST_SIZE,
        code_block::unchanged_except(h0, hr, pre.start_of_page as int, pre.end_of_page as int),
        unlinked_state(pre.blocks@, chains_r, k, l, r),
        forall|i: int, j: int|
            0 <= i < BUCKET_LIST_SIZE && 0 <= j < chains_r[i].len() ==> (
            #[trigger] chains_r[i][j]).free,
        forall|i: int, j: int|
            0 <= i < BUCKET_LIST_SIZE && 0 <= j < chains_r[i].len() ==> (
            #[trigger] chains_r[i][j]).end() <= m.start || m.end() <= chains_r[i][j].start,
        // after rewriting the merged span
        hm.len() == hr.len(),
        code_block::unchanged_except(hr, hm, m.start, m.end()),
        m.start == pre.blocks@[k - l].start,
        m.end() == pre.blocks@[k + r].end(),
        m.free,
        m.payload >= NEXT_POINTER_SIZE as int,
        m.tag >= 1,
        // after inserting the merged block
        hf.len() == hm.len(),
        code_block::unchanged_except(hm, hf, m.ptr(), m.ptr() + NEXT_POINTER_SIZE as int),
        post.bucket_list.wf(hf),
        post.bucket_list.chains@ == chains_r.update(
            spec_lookup_bucket(m.payload),
            seq![m] + chains_r[spec_lookup_bucket(m.payload)],
        ),
        post.start_of_page == pre.start_of_page,
        post.end_of_page == pre.end_of_page,
        post.bucket_list.start_of_page == pre.start_of_page,
        post.bucket_list.end_of_page == pre.end_of_page,
        post.blocks@ == bs2,
        bs2 == pre.blocks@.subrange(0, k - l).push(m) + pre.blocks@.subrange(
            k + r + 1,
            pre.blocks@.len() as int,
        ),
    ensures
        forall|t: int|
            0 <= t < bs2.len() && (#[trigger] bs2[t]).free ==> post.bucket_list.chains@[
                spec_lookup_bucket(bs2[t].payload)].contains(bs2[t]),
        forall|i: int, j: int|
            0 <= i < BUCKET_LIST_SIZE && 0 <= j < post.bucket_list.chains@[i].len()
                ==> bs2.contains(#[trigger] post.bucket_list.chains@[i][j]),
{
    let bs = pre.blocks@;
    let po = pre.start_of_page as int;
    let pe = pre.end_of_page as int;
    let bim = spec_lookup_bucket(m.payload);
    let chains_f = post.bucket_list.chains@;
    crate::bucket_list::lemma_lookup_bucket_range(m.payload);
    lemma_merge_shape(pre, post, h0, hr, hm, hf, chains_r, k, l, r, m, bs2);
    assert forall|t: int|
        0 <= t < bs.len() implies (#[trigger] bs[t]).payload >= 1 && bs[t].tag >= 1 by {
        assert(block_ok(h0, bs[t]));
    }
    // every free block hangs in its bucket
    assert forall|t: int|
        0 <= t < bs2.len() && (#[trigger] bs2[t]).free implies chains_f[spec_lookup_bucket(
        bs2[t].payload,
    )].contains(bs2[t]) by {
        if t == k - l {
            assert(chains_f[bim][0] == m);
        } else {
            let t0: int = if t < k - l {
                t
            } else {
                t + l + r
            };
            assert(bs2[t] == bs[t0]);
            assert(chains_r[spec_lookup_bucket(bs[t0].payload)].contains(bs[t0]));
            crate::bucket_list::lemma_lookup_bucket_range(bs[t0].payload);
            if spec_lookup_bucket(bs[t0].payload) == bim {
                lemma_prepend_contains(chains_r[bim], m, bs[t0]);
            }
        }
    }
    // every listed entry is a block of the page
    assert forall|i: int, j: int|
        0 <= i < BUCKET_LIST_SIZE && 0 <= j < chains_f[i].len() implies bs2.contains(
        #[trigger] chains_f[i][j],
    ) by {
        if i == bim && j == 0 {
            assert(chains_f[i][j] == m);
            assert(bs2[k - l] == m);
        } else {
            let jx: int = if i == bim {
                j - 1
            } else {
                j
            };
            let e0 = chains_r[i][jx];
            assert(chains_f[i][j] == e0);
            assert(bs.contains(e0));
            let t0 = choose|t: int| 0 <= t < bs.len() && bs[t] == e0;
            assert(t0 != k);
            if l == 1 && t0 == k - 1 {
                assert(e0.ptr() == bs[k - 1].ptr());
                assert(false);
            }
            if r == 1 && t0 == k + 1 {
                assert(e0.ptr() == bs[k + 1].ptr());
                assert(false);
            }
            if t0 < k - l {
                assert(bs2[t0] == e0);
            } else {
                assert(bs2[t0 - l - r] == e0);
            }
        }
    }
}

/// Bundles the whole coalescing proof: the used block `k` and its free
/// neighbors were unlinked, their span was rewritten as one free block
/// with a sentinel next pointer, and that block was inserted at the head
/// of its bucket.
#[verifier::rlimit(100)]
#[verifier::spinoff_prover]
proof fn lemma_merge_branch(
    pre: Page,
    post: Page,
    h0: Seq<u8>,
    hr: Seq<u8>,
    hm: Seq<u8>,
    hf: Seq<u8>,
    chains_r: Seq<Seq<Block>>,
    k: int,
    l: int,
    r: int,
    m: Block,
    bs2: Seq<Block>,
)
    requires
        pre.wf(h0),
        0 <= k < pre.blocks@.len(),
        !pre.blocks@[k].free,
        l == (if k > 0 && pre.blocks@[k - 1].free {
            1int
        } else {
            0int
        }),
        r == (if k + 1 < pre.blocks@.len() && pre.blocks@[k + 1].free {
            1int
        } else {
            0int
        }),
        // after the unlinks
        hr.len() == h0.len(),
        blocks_all_ok(hr, pre.blocks@),
        chains_r.len() == BUCKET_LIST_SIZE,
        code_block::unchanged_except(h0, hr, pre.start_of_page as int, pre.end_of_page as int),
        unlinked_state(pre.blocks@, chains_r, k, l, r),
        forall|i: int, j: int|
            0 <= i < BUCKET_LIST_SIZE && 0 <= j < chains_r[i].len() ==> (
            #[trigger] chains_r[i][j]).free,
        forall|i: int, j: int|
            0 <= i < BUCKET_LIST_SIZE && 0 <= j < chains_r[i].len() ==> (
            #[trigger] chains_r[i][j]).end() <= m.start || m.end() <= chains_r[i][j].start,
        // after rewriting the merged span
        hm.len() == hr.len(),
        code_block::unchanged_except(hr, hm, m.start, m.end()),
        m.start == pre.blocks@[k - l].start,
        m.end() == pre.blocks@[k + r].end(),
        m.free,
        m.payload >= NEXT_POINTER_SIZE as int,
        m.tag >= 1,
        // after inserting the merged block
        hf.len() == hm.len(),
        code_block::unchanged_except(hm, hf, m.ptr(), m.ptr() + NEXT_POINTER_SIZE as int),
        post.bucket_list.wf(hf),
        post.bucket_list.chains@ == chains_r.update(
            spec_lookup_bucket(m.payload),
            seq![m] + chains_r[spec_lookup_bucket(m.payload)],
        ),
        post.start_of_page == pre.start_of_page,
        post.end_of_page == pre.end_of_page,
        post.bucket_list.start_of_page == pre.start_of_page,
        post.bucket_list.end_of_page == pre.end_of_page,
        post.blocks@ == bs2,
        bs2 == pre.blocks@.subrange(0, k - l).push(m) + pre.blocks@.subrange(
            k + r + 1,
            pre.blocks@.len() as int,
        ),
    ensures
        post.wf(hf),
        code_block::unchanged_except(h0, hf, pre.start_of_page as int, pre.end_of_page as int),
        free_success(pre.blocks@, bs2, pre.blocks@[k].ptr()),
{
    let bs = pre.blocks@;
    let po = pre.start_of_page as int;
    let pe = pre.end_of_page as int;
    let bim = spec_lookup_bucket(m.payload);
    let chains_f = post.bucket_list.chains@;
    crate::bucket_list::lemma_lookup_bucket_range(m.payload);
    lemma_merge_shape(pre, post, h0, hr, hm, hf, chains_r, k, l, r, m, bs2);
    assert forall|t: int|
        0 <= t < bs.len() implies (#[trigger] bs[t]).payload >= 1 && bs[t].tag >= 1 by {
        assert(block_ok(h0, bs[t]));
    }
    lemma_merge_coupling(pre, post, h0, hr, hm, hf, chains_r, k, l, r, m, bs2);
    // the freed block, merged and back in a bucket
    assert(free_success(bs, bs2, bs[k].ptr())) by {
        reveal(free_success);
        assert(bs[k].free == false);
        assert(bs2[k - l] == m);
        assert(forall|t: int| 0 <= t < k - l ==> #[trigger] bs2[t] == bs[t]);
        assert(forall|t: int| k + r < t < bs.len() ==> #[trigger] bs2[t - l - r] == bs[t]);
    }
}

pub struct Page {
    /// First byte of the page.
    pub start_of_page: usize,
    /// One byte past the page.
    pub end_of_page: usize,
    /// Index of the next page in the ring.
    pub next_page: usize,
    /// The segregated free list of this page.
    pub bucket_list: BucketList,
    /// The blocks currently tiling this page.
    pub blocks: Ghost<Seq<Block>>,
}

impl Page {
    /// The whole page invariant.
    pub open spec fn wf(self, h: Seq<u8>) -> bool {
        let po = self.start_of_page as int;
        let pe = self.end_of_page as int;
        let bs = self.blocks@;
        &&& po < pe <= h.len()
        &&& pe - po <= MAX_PAGE_SIZE as int
        &&& self.bucket_list.start_of_page == self.start_of_page
        &&& self.bucket_list.end_of_page == self.end_of_page
        &&& blocks_tile(bs, po, pe)
        &&& forall|k: int|
            0 <= k < bs.len() ==> #[trigger] block_ok(h, bs[k]) && bs[k].payload
                >= NEXT_POINTER_SIZE as int
        &&& forall|k: int| 0 < k < bs.len() ==> !((#[trigger] bs[k]).free && bs[k - 1].free)
        &&& self.bucket_list.wf(h)
        &&& forall|k: int|
            0 <= k < bs.len() && (#[trigger] bs[k]).free ==> self.bucket_list.chains@[
                spec_lookup_bucket(bs[k].payload)].contains(bs[k])
        &&& forall|i: int, j: int|
            0 <= i < BUCKET_LIST_SIZE && 0 <= j < self.bucket_list.chains@[i].len() ==> bs.contains(
                #[trigger] self.bucket_list.chains@[i][j],
            )
    }

    /// Every chain entry is one of the page's blocks, and blocks are
    /// pairwise disjoint, so a chain entry that is not block `k` does not
    /// overlap block `k`.
    pub proof fn lemma_entries_disjoint_from(self, h: Seq<u8>, k: int)
        requires
            self.wf(h),
            0 <= k < self.blocks@.len(),
        ensures
            forall|i: int, j: int|
                0 <= i < BUCKET_LIST_SIZE && 0 <= j < self.bucket_list.chains@[i].len()
                    && (#[trigger] self.bucket_list.chains@[i][j]).ptr() != self.blocks@[k].ptr()
                    ==> blocks_disjoint(self.bucket_list.chains@[i][j], self.blocks@[k]),
    {
        let bs = self.blocks@;
        let po = self.start_of_page as int;
        let pe = self.end_of_page as int;
        assert forall|t: int|
            0 <= t < bs.len() implies (#[trigger] bs[t]).payload >= 1 && bs[t].tag >= 1 by {
            assert(block_ok(h, bs[t]));
        }
        assert forall|i: int, j: int|
            0 <= i < BUCKET_LIST_SIZE && 0 <= j < self.bucket_list.chains@[i].len()
                && (#[trigger] self.bucket_list.chains@[i][j]).ptr()
                != self.blocks@[k].ptr() implies blocks_disjoint(
            self.bucket_list.chains@[i][j],
            self.blocks@[k],
        ) by {
            let e = self.bucket_list.chains@[i][j];
            assert(bs.contains(e));
            let t = choose|t: int| 0 <= t < bs.len() && bs[t] == e;
            if t != k {
                lemma_tiling_ordered_any(bs, po, pe, t, k);
            }
        }
    }

    /// The bucket list survives heap writes that stay inside one block
    /// that hangs in no chain.
    pub proof fn lemma_bucket_list_frame(self, h1: Seq<u8>, h2: Seq<u8>, lo: int, hi: int)
        requires
            self.bucket_list.wf(h1),
            code_block::unchanged_except(h1, h2, lo, hi),
            forall|i: int, j: int|
                0 <= i < BUCKET_LIST_SIZE && 0 <= j < self.bucket_list.chains@[i].len() ==> (
                #[trigger] self.bucket_list.chains@[i][j]).end() <= lo || hi
                    <= self.bucket_list.chains@[i][j].start,
        ensures
            self.bucket_list.wf(h2),
    {
        let po = self.bucket_list.start_of_page as int;
        let pe = self.bucket_list.end_of_page as int;
        assert forall|i: int, j: int|
            0 <= i < BUCKET_LIST_SIZE && 0 <= j
                < self.bucket_list.chains@[i].len() implies #[trigger] chain_entry_ok(
            h2,
            po,
            pe,
            self.bucket_list.chains@[i],
            j,
            i,
        ) by {
            let e = self.bucket_list.chains@[i][j];
            assert(chain_entry_ok(h1, po, pe, self.bucket_list.chains@[i], j, i));
            assert(code_block::agree_on(h1, h2, e.start, e.end()));
            crate::bucket_list::lemma_entry_ok_shift(
                h1,
                h2,
                po,
                pe,
                self.bucket_list.chains@[i],
                j,
                self.bucket_list.chains@[i],
                j,
                i,
            );
        }
    }

    /// Sets up a fresh page over `[page_memory, page_memory + page_size)`:
    /// one free block spanning the whole page, hanging in its bucket.
    pub fn init(heap: &mut Vec<u8>, page_memory: usize, page_size: usize) -> (page: Page)
        requires
            SMALLEST_POSSIBLE_FREE_SPACE <= page_size,
            page_size <= MAX_PAGE_SIZE,
            page_memory + page_size <= old(heap).len(),
        ensures
            page.wf(final(heap)@),
            page.start_of_page == page_memory,
            page.end_of_page == page_memory + page_size,
            page.next_page == 0,
            final(heap)@.len() == old(heap)@.len(),
            code_block::unchanged_except(
                old(heap)@,
                final(heap)@,
                page_memory as int,
                page_memory + page_size,
            ),
            page.blocks@.len() == 1,
            page.blocks@[0].free,
            page.blocks@[0].start == page_memory,
            code_block::spec_internal_tag_ok(page_size as int, page.blocks@[0].tag),
            page.blocks@[0].payload == page_size - 2 * page.blocks@[0].tag,
            page.bucket_list.bucket_list@[spec_lookup_bucket(page.blocks@[0].payload)] == Some(
                page.blocks@[0].ptr() as usize,
            ),
            forall|i: int|
                0 <= i < BUCKET_LIST_SIZE && i != spec_lookup_bucket(page.blocks@[0].payload)
                    ==> #[trigger] page.bucket_list.bucket_list@[i] is None,
    {
        let mut bucket_list = BucketList {
            bucket_list: Vec::new(),
            start_of_page: 0,
            end_of_page: 0,
            chains: Ghost(Seq::empty()),
        };
        bucket_list.init(page_memory, page_memory + page_size);
        let mut alloc_data = AllocationData::new();
        alloc_data.set_data_start(page_memory);
        alloc_data.set_data_end(page_memory + page_size - 1);
        alloc_data.space.set_next(None);
        alloc_data.write_data_size_code_blocks(heap, true, page_memory);
        let ghost n = alloc_data.code_block_size.unwrap() as int;
        let ghost b = Block {
            start: page_memory as int,
            tag: n,
            payload: page_size - 2 * n,
            free: true,
        };
        let ghost bs0: Seq<Block> = seq![b];
        let mut page = Page {
            start_of_page: page_memory,
            end_of_page: page_memory + page_size,
            next_page: 0,
            bucket_list,
            blocks: Ghost(bs0),
        };
        proof {
            assert(block_ok(heap@, b));
            crate::bucket_list::lemma_lookup_bucket_range(b.payload);
            assert(page.bucket_list.wf(heap@));
        }
        page.bucket_list.insert(heap, &mut alloc_data.space, Ghost(b));
        proof {
            let h2 = heap@;
            let bi = spec_lookup_bucket(b.payload);
            assert(chain_entry_ok(
                h2,
                page_memory as int,
                page_memory + page_size,
                page.bucket_list.chains@[bi],
                0,
                bi,
            ));
            assert(block_ok(h2, b));
            assert(page.bucket_list.chains@[bi] == seq![b] + Seq::<Block>::empty());
            assert(page.bucket_list.chains@[bi].len() == 1);
            assert(page.bucket_list.chains@[bi][0] == b);
            assert(page.bucket_list.chains@[bi].contains(b));
            assert forall|i: int, j: int|
                0 <= i < BUCKET_LIST_SIZE && 0 <= j
                    < page.bucket_list.chains@[i].len() implies page.blocks@.contains(
                #[trigger] page.bucket_list.chains@[i][j],
            ) by {
                assert(i == bi && j == 0);
                assert(page.blocks@[0] == b);
            }
            assert(page.blocks@[0] == b);
            assert(blocks_tile(page.blocks@, page_memory as int, page_memory + page_size));
        }
        page
    }

    /// Carves the requested block out of the free block `b`, which has
    /// already been unlinked from the bucket list, and restores the page
    /// invariant.
    #[verifier::rlimit(100)]
    #[verifier::spinoff_prover]
    fn finish_allocation(
        &mut self,
        heap: &mut Vec<u8>,
        alloc_data: &mut AllocationData,
        free_space: Space,
        Ghost(pre): Ghost<Page>,
        Ghost(h0): Ghost<Seq<u8>>,
        Ghost(b): Ghost<Block>,
        Ghost(k): Ghost<int>,
    )
        requires
            pre.wf(h0),
            pre.start_of_page == old(self).start_of_page,
            pre.end_of_page == old(self).end_of_page,
            pre.next_page == old(self).next_page,
            pre.blocks@ == old(self).blocks@,
            0 <= k < pre.blocks@.len(),
            b == pre.blocks@[k],
            b.free,
            old(self).bucket_list.wf(old(heap)@),
            old(self).bucket_list.start_of_page == pre.start_of_page,
            old(self).bucket_list.end_of_page == pre.end_of_page,
            old(heap)@.len() == h0.len(),
            blocks_all_ok(old(heap)@, pre.blocks@),
            code_block::unchanged_except(
                h0,
                old(heap)@,
                pre.start_of_page as int,
                pre.end_of_page as int,
            ),
            forall|i: int, j: int|
                0 <= i < BUCKET_LIST_SIZE && 0 <= j < old(self).bucket_list.chains@[i].len()
                    ==> pre.blocks@.contains(#[trigger] old(self).bucket_list.chains@[i][j])
                    && old(self).bucket_list.chains@[i][j].ptr() != b.ptr() && (old(
                    self,
                ).bucket_list.chains@[i][j].end() <= b.start || b.end() <= old(
                    self,
                ).bucket_list.chains@[i][j].start),
            forall|t: int|
                0 <= t < pre.blocks@.len() && t != k && (#[trigger] pre.blocks@[t]).free ==> old(
                    self,
                ).bucket_list.chains@[spec_lookup_bucket(pre.blocks@[t].payload)].contains(
                    pre.blocks@[t],
                ),
            old(alloc_data).space.size is Some,
            NEXT_POINTER_SIZE <= old(alloc_data).space.size.unwrap(),
            old(alloc_data).space.size.unwrap() <= b.payload,
            free_space.ptr == Some(b.ptr() as usize),
            free_space.size == Some(b.payload as usize),
        ensures
            final(self).wf(final(heap)@),
            final(self).start_of_page == old(self).start_of_page,
            final(self).end_of_page == old(self).end_of_page,
            final(self).next_page == old(self).next_page,
            final(heap)@.len() == old(heap)@.len(),
            code_block::unchanged_except(
                h0,
                final(heap)@,
                pre.start_of_page as int,
                pre.end_of_page as int,
            ),
            final(alloc_data).space.size == old(alloc_data).space.size,
            final(alloc_data).space.ptr is Some,
            alloc_success(
                pre.blocks@,
                final(self).blocks@,
                final(alloc_data).space.ptr.unwrap() as int,
                old(alloc_data).space.size.unwrap() as int,
            ),
    {
        let ghost hr = heap@;
        let ghost chains_r = self.bucket_list.chains@;
        let ghost bs = pre.blocks@;
        let ghost po = pre.start_of_page as int;
        let ghost pe = pre.end_of_page as int;
        let ghost req = old(alloc_data).space.size.unwrap() as int;
        let heap_len = heap.len();
        proof {
            assert forall|t: int|
                0 <= t < bs.len() implies (#[trigger] bs[t]).payload >= 1 && bs[t].tag >= 1 by {
                assert(block_ok(h0, bs[t]));
            }
            lemma_tiling_in_page(bs, po, pe, k);
            assert(block_ok(hr, b));
        }
                proof {
                    assert(block_ok(hr, b));
                    assert(code_block::is_tag(hr, b.start, b.tag));
                    assert(b.start + b.tag == free_space.ptr.unwrap() as int);
                    assert forall|s: int, n: int|
                        s + n == free_space.ptr.unwrap() as int && code_block::is_tag(
                            hr,
                            s,
                            n,
                        ) implies code_block::tag_value(hr, s, n) <= MAX_PAGE_SIZE as int by {
                        code_block::lemma_tag_end_unique(hr, s, n, b.start, b.tag);
                    }
                }
                let (_, data_start) = code_block::read_from_right(heap, free_space.ptr() - 1);
                proof {
                    assert(data_start as int == b.start);
                }
                alloc_data.set_data_start(data_start);
                proof {
                    assert(alloc_data.data_start == Some(b.start as usize));
                }
                let remaining = self.split_free_space(heap, alloc_data, free_space, Ghost(b));
                if remaining.space.size() != 0 {
                    let ghost h3 = heap@;
                    let ghost w = code_block::spec_needed_tag_size(req);
                    let ghost left = Block { start: b.start, tag: w, payload: req, free: false };
                    let ghost n2 = remaining.code_block_size.unwrap() as int;
                    let ghost right = Block {
                        start: left.end(),
                        tag: n2,
                        payload: b.end() - left.end() - 2 * n2,
                        free: true,
                    };
                    let ghost bs2 = bs.subrange(0, k).push(left).push(right) + bs.subrange(
                        k + 1,
                        bs.len() as int,
                    );
                    proof {
                        // the remaining entries lie outside the split block,
                        // so the bucket list survives the split writes
                        self.lemma_bucket_list_frame(hr, h3, b.start, b.end());
                    }
                    let mut rspace = remaining.space;
                    self.bucket_list.insert(heap, &mut rspace, Ghost(right));
                    proof {
                        self.blocks@ = bs2;
                    }
                    proof {
                        lemma_split_branch(
                            pre,
                            *self,
                            h0,
                            hr,
                            h3,
                            heap@,
                            chains_r,
                            k,
                            b,
                            left,
                            right,
                            bs2,
                            req,
                        );
                    }
                } else {
                    let cbs = code_block::get_block_size(heap, data_start);
                    proof {
                        code_block::lemma_tag_size_unique(heap@, b.start, cbs as int, b.tag);
                    }
                    code_block::set_free(heap, data_start, false);
                    let ghost h4 = heap@;
                    alloc_data.set_code_block_size(cbs);
                    alloc_data.set_data_end(data_start + 2 * cbs + free_space.size() - 1);
                    proof {
                        code_block::lemma_set_free_preserves_tag(hr, h4, b.start, b.tag);
                        assert(alloc_data.data_end.unwrap() as int == b.end() - 1);
                    }
                    alloc_data.copy_code_block_to_end(heap);
                    proof {
                        assert forall|t: int|
                            0 <= t < b.tag implies #[trigger] code_block::byte_shift_eq(
                            heap@,
                            b.start,
                            b.end() - b.tag,
                            t,
                        ) by {
                            assert(code_block::byte_shift_eq(
                                heap@,
                                alloc_data.data_start.unwrap() as int,
                                alloc_data.data_end.unwrap() + 1 - alloc_data.code_block_size.unwrap(),
                                t,
                            ));
                        }
                    }
                    alloc_data.space.set_ptr(free_space.ptr());
                    let ghost used = Block {
                        start: b.start,
                        tag: b.tag,
                        payload: b.payload,
                        free: false,
                    };
                    let ghost bs2 = bs.update(k, used);
                    proof {
                        self.blocks@ = bs2;
                    }
                    proof {
                        lemma_whole_branch(
                            pre,
                            *self,
                            h0,
                            hr,
                            h4,
                            heap@,
                            chains_r,
                            k,
                            b,
                            used,
                            bs2,
                            req,
                        );
                    }
                }
    }

    /// Tries to reserve a block with the payload size cached in
    /// `alloc_data.space`: picks a fitting free block from the bucket
    /// list, removes it from its chain, splits it, returns the remainder
    /// to its bucket and hands out the left part's payload start in
    /// `alloc_data.space.ptr`.  Fails exactly when no free block fits.
    #[verifier::rlimit(100)]
    #[verifier::spinoff_prover]
    pub fn get_dynamic_block(&mut self, heap: &mut Vec<u8>, alloc_data: &mut AllocationData)
        requires
            old(self).wf(old(heap)@),
            old(alloc_data).space.size is Some,
            NEXT_POINTER_SIZE <= old(alloc_data).space.size.unwrap(),
            old(alloc_data).space.size.unwrap() <= MAX_PAGE_SIZE,
            old(alloc_data).space.ptr is None,
            old(alloc_data).data_start is None,
        ensures
            final(self).wf(final(heap)@),
            final(self).start_of_page == old(self).start_of_page,
            final(self).end_of_page == old(self).end_of_page,
            final(self).next_page == old(self).next_page,
            final(heap)@.len() == old(heap)@.len(),
            code_block::unchanged_except(
                old(heap)@,
                final(heap)@,
                old(self).start_of_page as int,
                old(self).end_of_page as int,
            ),
            final(alloc_data).space.size == old(alloc_data).space.size,
            (final(alloc_data).space.ptr is Some) == old(self).bucket_list.has_fitting_space(
                old(alloc_data).space.size.unwrap() as int,
            ),
            final(alloc_data).space.ptr is Some ==> alloc_success(
                old(self).blocks@,
                final(self).blocks@,
                final(alloc_data).space.ptr.unwrap() as int,
                old(alloc_data).space.size.unwrap() as int,
            ),
            final(alloc_data).space.ptr is None ==> *final(self) == *old(self) && final(heap)@
                == old(heap)@ && *final(alloc_data) == *old(alloc_data),
    {
        let ghost h0 = heap@;
        let ghost bs = self.blocks@;
        let ghost po = self.start_of_page as int;
        let ghost pe = self.end_of_page as int;
        let ghost chains0 = self.bucket_list.chains@;
        let size = alloc_data.space.size();
        let ghost req = size as int;
        match self.bucket_list.get_free_space(heap, size) {
            None => {},
            Some(free_space) => {
                let ghost (ei, ej) = choose|i: int, j: int|
                    #[trigger] old(self).bucket_list.is_chain_entry_match(free_space, i, j);
                let ghost mut k: int = 0;
                proof {
                    k = lemma_pick_block(*old(self), h0, free_space, ei, ej);
                }
                let ghost b = bs[k];
                proof {
                    assert(ei == spec_lookup_bucket(free_space.size.unwrap() as int));
                    assert(old(self).bucket_list.has_fitting_space(req)) by {
                        assert(chains0[ei][ej].payload >= req);
                    }
                }
                let removed_at = self.bucket_list.remove(heap, &free_space);
                let ghost hr = heap@;
                let ghost chains_r = self.bucket_list.chains@;
                let ghost jr = removed_at@;
                proof {
                    lemma_after_remove(*old(self), h0, hr, chains_r, ei, jr, k);
                }
                self.finish_allocation(
                    heap,
                    alloc_data,
                    free_space,
                    Ghost(*old(self)),
                    Ghost(h0),
                    Ghost(b),
                    Ghost(k),
                );
            },
        }
    }

    /// Splits the free block `b` into a left used block of exactly the
    /// requested payload and a right free remainder carrying a sentinel
    /// next pointer, rewriting the boundary tags of both.  If the
    /// remainder would be smaller than the smallest possible free block,
    /// nothing is written and the returned record carries payload size 0.
    fn split_free_space(
        &self,
        heap: &mut Vec<u8>,
        alloc_data: &mut AllocationData,
        free_space: Space,
        Ghost(b): Ghost<Block>,
    ) -> (free_alloc: AllocationData)
        requires
            block_ok(old(heap)@, b),
            b.free,
            b.end() <= old(heap).len(),
            b.end() <= usize::MAX,
            b.end() - b.start <= MAX_PAGE_SIZE as int,
            free_space.ptr == Some(b.ptr() as usize),
            free_space.size == Some(b.payload as usize),
            old(alloc_data).data_start == Some(b.start as usize),
            old(alloc_data).space.size is Some,
            NEXT_POINTER_SIZE <= old(alloc_data).space.size.unwrap(),
            old(alloc_data).space.size.unwrap() <= b.payload,
        ensures
            final(heap)@.len() == old(heap)@.len(),
            final(alloc_data).data_start == old(alloc_data).data_start,
            final(alloc_data).space.size == old(alloc_data).space.size,
            final(alloc_data).space.next == old(alloc_data).space.next,
            final(alloc_data).page == old(alloc_data).page,
            free_alloc.page is None,
            ({
                let req = old(alloc_data).space.size.unwrap() as int;
                if b.payload - req < SMALLEST_POSSIBLE_FREE_SPACE as int {
                    &&& final(heap)@ == old(heap)@
                    &&& free_alloc.space.size == Some(0usize)
                    &&& *final(alloc_data) == *old(alloc_data)
                } else {
                    let w = code_block::spec_needed_tag_size(req);
                    let left = Block { start: b.start, tag: w, payload: req, free: false };
                    let rstart = left.end();
                    let rtotal = b.end() - rstart;
                    let n2 = free_alloc.code_block_size.unwrap() as int;
                    let right = Block {
                        start: rstart,
                        tag: n2,
                        payload: rtotal - 2 * n2,
                        free: true,
                    };
                    &&& free_alloc.code_block_size is Some
                    &&& code_block::unchanged_except(old(heap)@, final(heap)@, b.start, b.end())
                    &&& block_ok(final(heap)@, left)
                    &&& code_block::spec_internal_tag_ok(rtotal, n2)
                    &&& block_ok(final(heap)@, right)
                    &&& right.payload >= NEXT_POINTER_SIZE as int
                    &&& crate::space::next_at(final(heap)@, right.ptr())
                        == crate::globals::ERROR_NEXT_POINTER as int
                    &&& free_alloc.space.ptr == Some(right.ptr() as usize)
                    &&& free_alloc.space.size == Some(right.payload as usize)
                    &&& free_alloc.space.next == Some(None::<usize>)
                    &&& free_alloc.data_start == Some(rstart as usize)
                    &&& free_alloc.data_end == Some((b.end() - 1) as usize)
                    &&& final(alloc_data).code_block_size == Some(w as usize)
                    &&& final(alloc_data).space.ptr == Some(left.ptr() as usize)
                    &&& final(alloc_data).data_end == Some((left.end() - 1) as usize)
                    &&& free_alloc.space.size.unwrap() != 0
                }
            }),
    {
        let mut free_alloc = AllocationData::new();
        if free_space.size() - alloc_data.space.size() < SMALLEST_POSSIBLE_FREE_SPACE {
            free_alloc.space.set_size(0);
        } else {
            let ghost h0 = heap@;
            let ghost req = alloc_data.space.size.unwrap() as int;
            proof {
                code_block::lemma_tag_value_bound(h0, b.start, b.tag);
                code_block::lemma_needed_le_of_cap(b.payload, b.tag);
                code_block::lemma_needed_monotone(req, b.payload);
                code_block::lemma_needed_le_5(req);
            }
            let old_tag = code_block::get_block_size(heap, alloc_data.data_start());
            proof {
                code_block::lemma_tag_size_unique(h0, b.start, old_tag as int, b.tag);
            }
            let data_end_right = free_space.ptr() + free_space.size() + old_tag - 1;
            proof {
                assert(data_end_right as int == b.end() - 1);
            }
            free_alloc.set_data_end(data_end_right);
            alloc_data.write_space_size_code_blocks(heap, false);
            let ghost h2 = heap@;
            let ghost w = code_block::spec_needed_tag_size(req);
            let ghost left = Block { start: b.start, tag: w, payload: req, free: false };
            proof {
                assert(block_ok(h2, left));
                assert(left.end() <= b.end() - (SMALLEST_POSSIBLE_FREE_SPACE as int));
            }
            free_alloc.set_data_start(alloc_data.data_end() + 1);
            free_alloc.space.set_next(None);
            free_alloc.write_data_size_code_blocks(heap, true, self.start_of_page);
            proof {
                let h3 = heap@;
                assert(code_block::agree_on(h2, h3, left.start, left.end()));
                code_block::lemma_block_frame(h2, h3, left);
            }
        }
        free_alloc
    }

    /// Deletes a reserved block: reads its boundary tags back, merges it
    /// with any free neighbor and returns the result to the bucket list.
    pub fn delete_block(&mut self, heap: &mut Vec<u8>, alloc_data: &mut AllocationData)
        requires
            old(self).wf(old(heap)@),
            old(alloc_data).space.ptr is Some,
            old(alloc_data).data_start is None,
            old(alloc_data).page is Some,
            exists|k: int|
                0 <= k < old(self).blocks@.len() && !(#[trigger] old(self).blocks@[k]).free
                    && old(self).blocks@[k].ptr() == old(alloc_data).space.ptr.unwrap() as int,
        ensures
            final(self).wf(final(heap)@),
            final(self).start_of_page == old(self).start_of_page,
            final(self).end_of_page == old(self).end_of_page,
            final(self).next_page == old(self).next_page,
            final(heap)@.len() == old(heap)@.len(),
            code_block::unchanged_except(
                old(heap)@,
                final(heap)@,
                old(self).start_of_page as int,
                old(self).end_of_page as int,
            ),
            free_success(
                old(self).blocks@,
                final(self).blocks@,
                old(alloc_data).space.ptr.unwrap() as int,
            ),
    {
        let ghost bs = self.blocks@;
        let ghost k = choose|k0: int|
            0 <= k0 < bs.len() && !(#[trigger] bs[k0]).free && bs[k0].ptr() == old(
                alloc_data,
            ).space.ptr.unwrap() as int;
        proof {
            assert(block_ok(heap@, bs[k]));
            assert(is_block(heap@, bs[k].start, bs[k].tag, bs[k].payload) && bs[k].start
                + bs[k].tag == old(alloc_data).space.ptr.unwrap() as int && bs[k].payload
                <= MAX_PAGE_SIZE as int);
        }
        alloc_data.read_and_cache_code_blocks(heap);
        proof {
            assert(crate::allocation_data::matches_input(
                *old(alloc_data),
                bs[k].start,
                bs[k].tag,
                bs[k].payload,
            ));
            assert(alloc_data.data_start == Some(bs[k].start as usize));
            assert(alloc_data.data_end == Some((bs[k].end() - 1) as usize));
            assert(alloc_data.space.size == Some(bs[k].payload as usize));
        }
        self.merge_with_neighbors(heap, alloc_data, Ghost(k));
    }

    /// Unlinks the left neighbor of the cached block from its bucket when
    /// it is free, extending the cached span over it.
    #[verifier::rlimit(100)]
    #[verifier::spinoff_prover]
    fn unlink_left_neighbor(
        &mut self,
        heap: &mut Vec<u8>,
        alloc_data: &mut AllocationData,
        Ghost(k): Ghost<int>,
    ) -> (gl: Ghost<int>)
        requires
            old(self).wf(old(heap)@),
            0 <= k < old(self).blocks@.len(),
            !old(self).blocks@[k].free,
            old(alloc_data).data_start == Some(old(self).blocks@[k].start as usize),
            old(alloc_data).data_end == Some((old(self).blocks@[k].end() - 1) as usize),
            old(alloc_data).page is Some,
        ensures
            ({
                let bs = old(self).blocks@;
                let l = gl@;
                &&& l == (if k > 0 && bs[k - 1].free {
                    1int
                } else {
                    0int
                })
                &&& final(self).blocks == old(self).blocks
                &&& final(self).start_of_page == old(self).start_of_page
                &&& final(self).end_of_page == old(self).end_of_page
                &&& final(self).next_page == old(self).next_page
                &&& final(self).bucket_list.start_of_page == old(self).bucket_list.start_of_page
                &&& final(self).bucket_list.end_of_page == old(self).bucket_list.end_of_page
                &&& final(heap)@.len() == old(heap)@.len()
                &&& final(self).bucket_list.wf(final(heap)@)
                &&& blocks_all_ok(final(heap)@, bs)
                &&& code_block::unchanged_except(
                    old(heap)@,
                    final(heap)@,
                    old(self).start_of_page as int,
                    old(self).end_of_page as int,
                )
                &&& unlinked_state(bs, final(self).bucket_list.chains@, k, l, 0)
                &&& final(alloc_data).data_start == Some(bs[k - l].start as usize)
                &&& final(alloc_data).data_end == old(alloc_data).data_end
                &&& final(alloc_data).space == old(alloc_data).space
                &&& final(alloc_data).page == old(alloc_data).page
            }),
    {
        let ghost h0 = heap@;
        let ghost bs = self.blocks@;
        let ghost po = self.start_of_page as int;
        let ghost pe = self.end_of_page as int;
        let ghost b = bs[k];
        proof {
            assert forall|t: int|
                0 <= t < bs.len() implies (#[trigger] bs[t]).payload >= 1 && bs[t].tag >= 1 by {
                assert(block_ok(h0, bs[t]));
            }
            lemma_tiling_in_page(bs, po, pe, k);
            if b.start > po {
                if k == 0 {
                    assert(false);
                }
                lemma_tiling_in_page(bs, po, pe, k - 1);
                assert(block_ok(h0, bs[k - 1]));
                assert(is_block(h0, bs[k - 1].start, bs[k - 1].tag, bs[k - 1].payload) && bs[k
                    - 1].start + 2 * bs[k - 1].tag + bs[k - 1].payload
                    == alloc_data.data_start.unwrap() && bs[k - 1].payload
                    <= MAX_PAGE_SIZE as int);
            } else {
                if k > 0 {
                    lemma_tiling_ordered(bs, po, pe, 0, k);
                    assert(false);
                }
            }
        }
        let ghost mut l: int = 0;
        let ghost bl0 = self.bucket_list;
        let left_opt = alloc_data.left_neighbor(heap, self.start_of_page);
        match left_opt {
            None => {},
            Some(left_alloc) => {
                proof {
                    assert(k > 0);
                    assert(left_alloc.data_start == Some(bs[k - 1].start as usize));
                    assert(left_alloc.space.ptr == Some(bs[k - 1].ptr() as usize));
                    assert(left_alloc.space.size == Some(bs[k - 1].payload as usize));
                }
                if code_block::is_free(heap, left_alloc.data_start()) {
                    proof {
                        assert(code_block::tag_is_free(h0, bs[k - 1].start));
                        assert(bs[k - 1].free);
                        crate::bucket_list::lemma_lookup_bucket_range(bs[k - 1].payload);
                        let li = spec_lookup_bucket(bs[k - 1].payload);
                        assert(self.bucket_list.chains@[li].contains(bs[k - 1]));
                        let jw = choose|j2: int|
                            0 <= j2 < self.bucket_list.chains@[li].len()
                                && self.bucket_list.chains@[li][j2] == bs[k - 1];
                        assert(self.bucket_list.chains@[spec_lookup_bucket(
                            left_alloc.space.size.unwrap() as int,
                        )][jw].ptr() == left_alloc.space.ptr.unwrap() as int);
                    }
                    alloc_data.set_data_start(left_alloc.data_start());
                    let removed_at = self.bucket_list.remove(heap, &left_alloc.space);
                    proof {
                        l = 1;
                        let li = spec_lookup_bucket(bs[k - 1].payload);
                        let jr = removed_at@;
                        assert(bl0.chains@[li][jr].ptr() == bs[k - 1].ptr());
                        assert(bs.contains(bl0.chains@[li][jr]));
                        let t0 = choose|t: int|
                            0 <= t < bs.len() && bs[t] == bl0.chains@[li][jr];
                        lemma_tiling_index_unique(bs, po, pe, t0, k - 1);
                        assert(bl0.chains@[li][jr] == bs[k - 1]);
                        lemma_after_remove_gen(
                            bs,
                            po,
                            pe,
                            h0,
                            heap@,
                            bl0.chains@,
                            self.bucket_list.chains@,
                            li,
                            jr,
                            k - 1,
                        );
                        assert(unlinked_state(bs, self.bucket_list.chains@, k, 1, 0));
                    }
                }
            },
        }
        proof {
            if l == 0 {
                assert(unlinked_state(bs, self.bucket_list.chains@, k, 0, 0));
            }
        }
        Ghost(l)
    }

    /// Unlinks the right neighbor of the cached block from its bucket when
    /// it is free, extending the cached span over it.
    #[verifier::rlimit(100)]
    #[verifier::spinoff_prover]
    fn unlink_right_neighbor(
        &mut self,
        heap: &mut Vec<u8>,
        alloc_data: &mut AllocationData,
        Ghost(bs): Ghost<Seq<Block>>,
        Ghost(k): Ghost<int>,
        Ghost(l): Ghost<int>,
    ) -> (gr: Ghost<int>)
        requires
            blocks_tile(bs, old(self).start_of_page as int, old(self).end_of_page as int),
            blocks_all_ok(old(heap)@, bs),
            0 <= k < bs.len(),
            !bs[k].free,
            l == (if k > 0 && bs[k - 1].free {
                1int
            } else {
                0int
            }),
            old(self).start_of_page < old(self).end_of_page,
            old(self).end_of_page as int <= old(heap)@.len(),
            old(self).end_of_page - old(self).start_of_page <= MAX_PAGE_SIZE,
            old(self).bucket_list.start_of_page == old(self).start_of_page,
            old(self).bucket_list.end_of_page == old(self).end_of_page,
            old(self).bucket_list.wf(old(heap)@),
            unlinked_state(bs, old(self).bucket_list.chains@, k, l, 0),
            old(alloc_data).data_start == Some(bs[k - l].start as usize),
            old(alloc_data).data_end == Some((bs[k].end() - 1) as usize),
            old(alloc_data).page is Some,
        ensures
            ({
                let r = gr@;
                &&& r == (if k + 1 < bs.len() && bs[k + 1].free {
                    1int
                } else {
                    0int
                })
                &&& final(self).blocks == old(self).blocks
                &&& final(self).start_of_page == old(self).start_of_page
                &&& final(self).end_of_page == old(self).end_of_page
                &&& final(self).next_page == old(self).next_page
                &&& final(self).bucket_list.start_of_page == old(self).bucket_list.start_of_page
                &&& final(self).bucket_list.end_of_page == old(self).bucket_list.end_of_page
                &&& final(heap)@.len() == old(heap)@.len()
                &&& final(self).bucket_list.wf(final(heap)@)
                &&& blocks_all_ok(final(heap)@, bs)
                &&& code_block::unchanged_except(
                    old(heap)@,
                    final(heap)@,
                    old(self).start_of_page as int,
                    old(self).end_of_page as int,
                )
                &&& unlinked_state(bs, final(self).bucket_list.chains@, k, l, r)
                &&& final(alloc_data).data_start == old(alloc_data).data_start
                &&& final(alloc_data).data_end == Some((bs[k + r].end() - 1) as usize)
                &&& final(alloc_data).space == old(alloc_data).space
                &&& final(alloc_data).page == old(alloc_data).page
            }),
    {
        let ghost h1 = heap@;
        let ghost po = self.start_of_page as int;
        let ghost pe = self.end_of_page as int;
        proof {
            assert forall|t: int|
                0 <= t < bs.len() implies (#[trigger] bs[t]).payload >= 1 && bs[t].tag >= 1 by {
                assert(block_ok(h1, bs[t]));
            }
            lemma_tiling_in_page(bs, po, pe, k);
            if k + 1 < bs.len() {
                lemma_tiling_in_page(bs, po, pe, k + 1);
                assert(block_ok(h1, bs[k + 1]));
                assert(is_block(h1, bs[k + 1].start, bs[k + 1].tag, bs[k + 1].payload) && bs[k
                    + 1].start == alloc_data.data_end.unwrap() as int + 1 && bs[k + 1].payload
                    <= MAX_PAGE_SIZE as int);
            } else {
                assert(alloc_data.data_end.unwrap() as int + 1 == pe);
            }
        }
        let ghost mut r: int = 0;
        let ghost bl1 = self.bucket_list;
        let right_opt = alloc_data.right_neighbor(heap, self.end_of_page);
        match right_opt {
            None => {},
            Some(right_alloc) => {
                proof {
                    assert(k + 1 < bs.len());
                    assert(right_alloc.data_start == Some(bs[k + 1].start as usize));
                    assert(right_alloc.data_end == Some((bs[k + 1].end() - 1) as usize));
                    assert(right_alloc.space.ptr == Some(bs[k + 1].ptr() as usize));
                    assert(right_alloc.space.size == Some(bs[k + 1].payload as usize));
                }
                if code_block::is_free(heap, right_alloc.data_start()) {
                    proof {
                        assert(code_block::tag_is_free(h1, bs[k + 1].start));
                        assert(bs[k + 1].free);
                        crate::bucket_list::lemma_lookup_bucket_range(bs[k + 1].payload);
                        let ri = spec_lookup_bucket(bs[k + 1].payload);
                        assert(bl1.chains@[ri].contains(bs[k + 1]));
                        let jw = choose|j2: int|
                            0 <= j2 < bl1.chains@[ri].len() && bl1.chains@[ri][j2] == bs[k + 1];
                        assert(self.bucket_list.chains@[spec_lookup_bucket(
                            right_alloc.space.size.unwrap() as int,
                        )][jw].ptr() == right_alloc.space.ptr.unwrap() as int);
                    }
                    alloc_data.set_data_end(right_alloc.data_end());
                    let removed_at = self.bucket_list.remove(heap, &right_alloc.space);
                    proof {
                        r = 1;
                        let ri = spec_lookup_bucket(bs[k + 1].payload);
                        let jr = removed_at@;
                        assert(bl1.chains@[ri][jr].ptr() == bs[k + 1].ptr());
                        assert(bs.contains(bl1.chains@[ri][jr]));
                        let t0 = choose|t: int|
                            0 <= t < bs.len() && bs[t] == bl1.chains@[ri][jr];
                        lemma_tiling_index_unique(bs, po, pe, t0, k + 1);
                        assert(bl1.chains@[ri][jr] == bs[k + 1]);
                        lemma_after_remove_gen(
                            bs,
                            po,
                            pe,
                            h1,
                            heap@,
                            bl1.chains@,
                            self.bucket_list.chains@,
                            ri,
                            jr,
                            k + 1,
                        );
                        lemma_unlinked_extend(
                            bs,
                            bl1.chains@,
                            self.bucket_list.chains@,
                            k,
                            l,
                        );
                    }
                }
            },
        }
        proof {
            if r == 0 {
                assert(unlinked_state(bs, self.bucket_list.chains@, k, l, 0));
            }
        }
        Ghost(r)
    }

    /// Checks both neighbors of the cached block; free ones are unlinked
    /// from their buckets and merged with it, then the merged span is
    /// rewritten as one free block and inserted into the bucket list.
    #[verifier::rlimit(100)]
    #[verifier::spinoff_prover]
    fn merge_with_neighbors(
        &mut self,
        heap: &mut Vec<u8>,
        alloc_data: &mut AllocationData,
        Ghost(k): Ghost<int>,
    )
        requires
            old(self).wf(old(heap)@),
            0 <= k < old(self).blocks@.len(),
            !old(self).blocks@[k].free,
            old(alloc_data).data_start == Some(old(self).blocks@[k].start as usize),
            old(alloc_data).data_end == Some((old(self).blocks@[k].end() - 1) as usize),
            old(alloc_data).space.size == Some(old(self).blocks@[k].payload as usize),
            old(alloc_data).page is Some,
        ensures
            final(self).wf(final(heap)@),
            final(self).start_of_page == old(self).start_of_page,
            final(self).end_of_page == old(self).end_of_page,
            final(self).next_page == old(self).next_page,
            final(heap)@.len() == old(heap)@.len(),
            code_block::unchanged_except(
                old(heap)@,
                final(heap)@,
                old(self).start_of_page as int,
                old(self).end_of_page as int,
            ),
            free_success(old(self).blocks@, final(self).blocks@, old(self).blocks@[k].ptr()),
    {
        let ghost h0 = heap@;
        let ghost bs = self.blocks@;
        let ghost po = self.start_of_page as int;
        let ghost pe = self.end_of_page as int;
        let heap_len = heap.len();
        proof {
            assert forall|t: int|
                0 <= t < bs.len() implies (#[trigger] bs[t]).payload >= 1 && bs[t].tag >= 1 by {
                assert(block_ok(h0, bs[t]));
            }
        }
        let gl = self.unlink_left_neighbor(heap, alloc_data, Ghost(k));
        let ghost l = gl@;
        let gr = self.unlink_right_neighbor(heap, alloc_data, Ghost(bs), Ghost(k), Ghost(l));
        let ghost r = gr@;
        let ghost h2 = heap@;
        let ghost chains_r = self.bucket_list.chains@;
        proof {
            if l == 1 {
                lemma_tiling_ordered(bs, po, pe, k - 1, k);
            }
            if r == 1 {
                lemma_tiling_ordered(bs, po, pe, k, k + 1);
            }
            lemma_tiling_in_page(bs, po, pe, k - l);
            lemma_tiling_in_page(bs, po, pe, k + r);
            if l == 1 || r == 1 {
                lemma_tiling_ordered(bs, po, pe, k - l, k + r);
            }
            assert(block_ok(h2, bs[k - l]));
            assert(block_ok(h2, bs[k]));
        }
        alloc_data.space.set_next(None);
        alloc_data.write_data_size_code_blocks(heap, true, self.start_of_page);
        let ghost hm = heap@;
        let ghost nm = alloc_data.code_block_size.unwrap() as int;
        let ghost span = bs[k + r].end() - bs[k - l].start;
        let ghost m = Block { start: bs[k - l].start, tag: nm, payload: span - 2 * nm, free: true };
        let ghost bs2 = bs.subrange(0, k - l).push(m) + bs.subrange(k + r + 1, bs.len() as int);
        proof {
            assert(block_ok(hm, m));
            assert forall|i: int, j: int|
                0 <= i < BUCKET_LIST_SIZE && 0 <= j < chains_r[i].len() implies (
            #[trigger] chains_r[i][j]).free by {
                assert(chain_entry_ok(h2, po, pe, chains_r[i], j, i));
            }
            lemma_merge_entries_outside(bs, po, pe, h2, chains_r, k, l, r, m);
            self.lemma_bucket_list_frame(h2, hm, m.start, m.end());
        }
        let mut mspace = alloc_data.space;
        self.bucket_list.insert(heap, &mut mspace, Ghost(m));
        proof {
            self.blocks@ = bs2;
        }
        proof {
            lemma_merge_branch(*old(self), *self, h0, h2, hm, heap@, chains_r, k, l, r, m, bs2);
        }
    }

    /// A page is untouched by heap writes outside its byte range.
    pub proof fn lemma_page_frame(self, h1: Seq<u8>, h2: Seq<u8>, lo: int, hi: int)
        requires
            self.wf(h1),
            h1.len() == h2.len(),
            code_block::unchanged_except(h1, h2, lo, hi),
            hi <= self.start_of_page as int || self.end_of_page as int <= lo,
        ensures
            self.wf(h2),
    {
        let po = self.start_of_page as int;
        let pe = self.end_of_page as int;
        let bs = self.blocks@;
        assert forall|t: int|
            0 <= t < bs.len() implies (#[trigger] bs[t]).payload >= 1 && bs[t].tag >= 1 by {
            assert(block_ok(h1, bs[t]));
        }
        assert forall|t: int|
            0 <= t < bs.len() implies #[trigger] block_ok(h2, bs[t]) && bs[t].payload
            >= NEXT_POINTER_SIZE as int by {
            assert(block_ok(h1, bs[t]));
            lemma_tiling_in_page(bs, po, pe, t);
            assert(code_block::agree_on(h1, h2, bs[t].start, bs[t].end()));
            code_block::lemma_block_frame(h1, h2, bs[t]);
        }
        assert forall|i: int, j: int|
            0 <= i < BUCKET_LIST_SIZE && 0 <= j < self.bucket_list.chains@[i].len() implies (
        #[trigger] self.bucket_list.chains@[i][j]).end() <= lo || hi
            <= self.bucket_list.chains@[i][j].start by {
            assert(chain_entry_ok(h1, po, pe, self.bucket_list.chains@[i], j, i));
        }
        self.lemma_bucket_list_frame(h1, h2, lo, hi);
    }

    /// Writes into the payload of a used block leave the page invariant
    /// intact: the caller owns those bytes.
    pub proof fn lemma_used_payload_write(self, h1: Seq<u8>, h2: Seq<u8>, kb: int, lo: int, hi: int)
        requires
            self.wf(h1),
            0 <= kb < self.blocks@.len(),
            !self.blocks@[kb].free,
            self.blocks@[kb].ptr() <= lo,
            hi <= self.blocks@[kb].ptr() + self.blocks@[kb].payload,
            h1.len() == h2.len(),
            code_block::unchanged_except(h1, h2, lo, hi),
        ensures
            self.wf(h2),
    {
        let po = self.start_of_page as int;
        let pe = self.end_of_page as int;
        let bs = self.blocks@;
        assert forall|t: int|
            0 <= t < bs.len() implies (#[trigger] bs[t]).payload >= 1 && bs[t].tag >= 1 by {
            assert(block_ok(h1, bs[t]));
        }
        lemma_blocks_frame_payload(bs, h1, h2, po, pe, lo, hi, kb);
        assert forall|i: int, j: int|
            0 <= i < BUCKET_LIST_SIZE && 0 <= j < self.bucket_list.chains@[i].len() implies (
        #[trigger] self.bucket_list.chains@[i][j]).end() <= lo || hi
            <= self.bucket_list.chains@[i][j].start by {
            let e = self.bucket_list.chains@[i][j];
            assert(chain_entry_ok(h1, po, pe, self.bucket_list.chains@[i], j, i));
            assert(bs.contains(e));
            let t0 = choose|t: int| 0 <= t < bs.len() && bs[t] == e;
            assert(t0 != kb);
            if t0 < kb {
                lemma_tiling_ordered(bs, po, pe, t0, kb);
            } else {
                lemma_tiling_ordered(bs, po, pe, kb, t0);
            }
        }
        self.lemma_bucket_list_frame(h1, h2, lo, hi);
    }

    /// Total number of bytes this page manages.
    pub fn page_size(&self) -> (r: usize)
        requires
            self.start_of_page <= self.end_of_page,
        ensures
            r == self.end_of_page - self.start_of_page,
    {
        self.end_of_page - self.start_of_page
    }

    /// The next page in the ring.
    pub fn get_next_page(&self) -> (r: usize)
        ensures
            r == self.next_page,
    {
        self.next_page
    }

    /// Links this page to the given next page in the ring.
    pub fn set_next_page(&mut self, next_page: usize)
        ensures
            final(self).next_page == next_page,
            final(self).start_of_page == old(self).start_of_page,
            final(self).end_of_page == old(self).end_of_page,
            final(self).bucket_list == old(self).bucket_list,
            final(self).blocks == old(self).blocks,
    {
        self.next_page = next_page;
    }

    /// Whether `ptr` falls into this page's byte range.
    pub fn block_is_in_space(&self, ptr: usize) -> (r: bool)
        ensures
            r == (self.start_of_page <= ptr < self.end_of_page),
    {
        self.start_of_page <= ptr && ptr < self.end_of_page
    }

    pub fn start_of_page(&self) -> (r: usize)
        ensures
            r == self.start_of_page,
    {
        self.start_of_page
    }

    pub fn end_of_page(&self) -> (r: usize)
        ensures
            r == self.end_of_page,
    {
        self.end_of_page
    }

    pub fn bucket_list(&self) -> (r: &BucketList)
        ensures
            r == self.bucket_list,
    {
        &self.bucket_list
    }
}

/// Rebuilds the page invariant after a split allocation: block `k` was
/// free, got unlinked, and its bytes now hold a used left block and a free
/// right remainder that hangs at the head of its bucket.
#[verifier::rlimit(60)]
#[verifier::spinoff_prover]
proof fn lemma_alloc_split_wf(
    pre: Page,
    post: Page,
    h0: Seq<u8>,
    hf: Seq<u8>,
    bs: Seq<Block>,
    bs2: Seq<Block>,
    chains_r: Seq<Seq<Block>>,
    k: int,
    left: Block,
    right: Block,
)
    requires
        pre.wf(h0),
        bs == pre.blocks@,
        0 <= k < bs.len(),
        bs[k].free,
        left.start == bs[k].start,
        !left.free,
        right.free,
        right.start == left.end(),
        right.end() == bs[k].end(),
        left.payload >= NEXT_POINTER_SIZE as int,
        left.tag >= 1,
        right.payload >= NEXT_POINTER_SIZE as int,
        right.tag >= 1,
        bs2 == bs.subrange(0, k).push(left).push(right) + bs.subrange(k + 1, bs.len() as int),
        post.start_of_page == pre.start_of_page,
        post.end_of_page == pre.end_of_page,
        post.blocks@ == bs2,
        post.bucket_list.start_of_page == pre.start_of_page,
        post.bucket_list.end_of_page == pre.end_of_page,
        post.bucket_list.wf(hf),
        hf.len() == h0.len(),
        blocks_all_ok(hf, bs2),
        chains_r.len() == BUCKET_LIST_SIZE,
        post.bucket_list.chains@ == chains_r.update(
            spec_lookup_bucket(right.payload),
            seq![right] + chains_r[spec_lookup_bucket(right.payload)],
        ),
        forall|i: int, j: int|
            0 <= i < BUCKET_LIST_SIZE && 0 <= j < chains_r[i].len() ==> bs.contains(
                #[trigger] chains_r[i][j],
            ) && chains_r[i][j].ptr() != bs[k].ptr(),
        forall|t: int|
            0 <= t < bs.len() && t != k && (#[trigger] bs[t]).free ==> chains_r[spec_lookup_bucket(
                bs[t].payload,
            )].contains(bs[t]),
    ensures
        post.wf(hf),
{
    let po = pre.start_of_page as int;
    let pe = pre.end_of_page as int;
    let bi2 = spec_lookup_bucket(right.payload);
    let chains_f = post.bucket_list.chains@;
    crate::bucket_list::lemma_lookup_bucket_range(right.payload);
    assert forall|t: int|
        0 <= t < bs.len() implies (#[trigger] bs[t]).payload >= 1 && bs[t].tag >= 1 by {
        assert(block_ok(h0, bs[t]));
    }
    // index characterization of the new block sequence
    assert(bs2.len() == bs.len() + 1);
    assert(forall|t: int| 0 <= t < k ==> #[trigger] bs2[t] == bs[t]);
    assert(bs2[k] == left);
    assert(bs2[k + 1] == right);
    assert(forall|t: int| k + 1 < t < bs2.len() ==> #[trigger] bs2[t] == bs[t - 1]);
    // tiling
    assert(blocks_tile(bs2, po, pe)) by {
        assert(bs2[0].start == po);
        assert(bs2[bs2.len() - 1].end() == pe);
        assert forall|t: int| 0 < t < bs2.len() implies (#[trigger] bs2[t]).start == bs2[t
            - 1].end() by {
            if t < k {
            } else if t == k {
                if k > 0 {
                    assert(bs2[k - 1] == bs[k - 1]);
                }
            } else if t == k + 1 {
            } else if t == k + 2 {
                assert(bs2[t] == bs[k + 1]);
            } else {
                assert(bs2[t] == bs[t - 1] && bs2[t - 1] == bs[t - 2]);
            }
        }
    }
    // no two adjacent free blocks
    assert forall|t: int| 0 < t < bs2.len() implies !((#[trigger] bs2[t]).free && bs2[t
        - 1].free) by {
        if t == k + 2 && t < bs2.len() {
            assert(bs2[t] == bs[k + 1]);
            assert(!(bs[k + 1].free && bs[k].free));
        }
    }
    // every free block hangs in its bucket
    assert forall|t: int|
        0 <= t < bs2.len() && (#[trigger] bs2[t]).free implies chains_f[spec_lookup_bucket(
        bs2[t].payload,
    )].contains(bs2[t]) by {
        if t == k + 1 {
            assert(chains_f[bi2] == seq![right] + chains_r[bi2]);
            assert(chains_f[bi2][0] == right);
        } else if t != k {
            let t0: int = if t < k {
                t
            } else {
                t - 1
            };
            assert(bs2[t] == bs[t0]);
            assert(t0 != k);
            assert(chains_r[spec_lookup_bucket(bs[t0].payload)].contains(bs[t0]));
            crate::bucket_list::lemma_lookup_bucket_range(bs[t0].payload);
            if spec_lookup_bucket(bs[t0].payload) == bi2 {
                lemma_prepend_contains(chains_r[bi2], right, bs[t0]);
            }
        }
    }
    // every listed entry is a block of the page
    assert forall|i: int, j: int|
        0 <= i < BUCKET_LIST_SIZE && 0 <= j < chains_f[i].len() implies bs2.contains(
        #[trigger] chains_f[i][j],
    ) by {
        if i == bi2 && j == 0 {
            assert(chains_f[i][j] == right);
            assert(bs2[k + 1] == right);
        } else {
            let jx: int = if i == bi2 {
                j - 1
            } else {
                j
            };
            let e0 = chains_r[i][jx];
            assert(chains_f[i][j] == e0);
            assert(bs.contains(e0));
            assert(e0.ptr() != bs[k].ptr());
            let t0 = choose|t: int| 0 <= t < bs.len() && bs[t] == e0;
            if t0 == k {
                assert(false);
            } else if t0 < k {
                assert(bs2[t0] == e0);
            } else {
                assert(bs2[t0 + 1] == e0);
            }
        }
    }
}

/// Rebuilds the page invariant after a whole-block allocation: block `k`
/// was free, got unlinked, and only its free bit changed.
#[verifier::rlimit(100)]
#[verifier::spinoff_prover]
proof fn lemma_alloc_whole_wf(
    pre: Page,
    post: Page,
    h0: Seq<u8>,
    hf: Seq<u8>,
    bs: Seq<Block>,
    bs2: Seq<Block>,
    chains_r: Seq<Seq<Block>>,
    k: int,
    used: Block,
)
    requires
        pre.wf(h0),
        bs == pre.blocks@,
        0 <= k < bs.len(),
        bs[k].free,
        used == (Block { start: bs[k].start, tag: bs[k].tag, payload: bs[k].payload, free: false }),
        bs2 == bs.update(k, used),
        post.start_of_page == pre.start_of_page,
        post.end_of_page == pre.end_of_page,
        post.blocks@ == bs2,
        post.bucket_list.start_of_page == pre.start_of_page,
        post.bucket_list.end_of_page == pre.end_of_page,
        post.bucket_list.wf(hf),
        hf.len() == h0.len(),
        blocks_all_ok(hf, bs2),
        chains_r.len() == BUCKET_LIST_SIZE,
        post.bucket_list.chains@ == chains_r,
        forall|i: int, j: int|
            0 <= i < BUCKET_LIST_SIZE && 0 <= j < chains_r[i].len() ==> bs.contains(
                #[trigger] chains_r[i][j],
            ) && chains_r[i][j].ptr() != bs[k].ptr(),
        forall|t: int|
            0 <= t < bs.len() && t != k && (#[trigger] bs[t]).free ==> chains_r[spec_lookup_bucket(
                bs[t].payload,
            )].contains(bs[t]),
    ensures
        post.wf(hf),
{
    let po = pre.start_of_page as int;
    let pe = pre.end_of_page as int;
    assert forall|t: int|
        0 <= t < bs.len() implies (#[trigger] bs[t]).payload >= 1 && bs[t].tag >= 1 by {
        assert(block_ok(h0, bs[t]));
    }
    assert(blocks_tile(bs2, po, pe)) by {
        assert forall|t: int| 0 < t < bs2.len() implies (#[trigger] bs2[t]).start == bs2[t
            - 1].end() by {
            assert(bs[t].start == bs[t - 1].end());
        }
    }
    assert forall|t: int| 0 < t < bs2.len() implies !((#[trigger] bs2[t]).free && bs2[t
        - 1].free) by {
        assert(!(bs[t].free && bs[t - 1].free));
    }
    assert forall|t: int|
        0 <= t < bs2.len() && (#[trigger] bs2[t]).free implies post.bucket_list.chains@[
    spec_lookup_bucket(bs2[t].payload)].contains(bs2[t]) by {
        assert(t != k);
        assert(bs2[t] == bs[t]);
        assert(chains_r[spec_lookup_bucket(bs[t].payload)].contains(bs[t]));
    }
    assert forall|i: int, j: int|
        0 <= i < BUCKET_LIST_SIZE && 0 <= j < chains_r[i].len() implies bs2.contains(
        #[trigger] chains_r[i][j],
    ) by {
        let e0 = chains_r[i][j];
        assert(bs.contains(e0));
        let t0 = choose|t: int| 0 <= t < bs.len() && bs[t] == e0;
        if t0 == k {
            assert(e0.ptr() != bs[k].ptr());
            assert(false);
        }
        assert(bs2[t0] == e0);
    }
}

/// A block's payload start lies strictly inside its page.
pub proof fn lemma_block_ptr_in_page(pg: Page, h: Seq<u8>, kb: int)
    requires
        pg.wf(h),
        0 <= kb < pg.blocks@.len(),
    ensures
        pg.start_of_page as int <= pg.blocks@[kb].start,
        pg.blocks@[kb].end() <= pg.end_of_page as int,
        (pg.start_of_page as int) < pg.blocks@[kb].ptr(),
        pg.blocks@[kb].ptr() < pg.end_of_page as int,
{
    let bs = pg.blocks@;
    let po = pg.start_of_page as int;
    let pe = pg.end_of_page as int;
    assert forall|t: int|
        0 <= t < bs.len() implies (#[trigger] bs[t]).payload >= 1 && bs[t].tag >= 1 by {
        assert(block_ok(h, bs[t]));
    }
    lemma_tiling_in_page(bs, po, pe, kb);
}

/// A byte offset determines the page of the given size it lies in.
pub proof fn lemma_same_range(i: int, j: int, ps: int, a: int)
    requires
        ps >= 1,
        0 <= i,
        0 <= j,
        i * ps <= a < (i + 1) * ps,
        j * ps <= a < (j + 1) * ps,
    ensures
        i == j,
{
    if i < j {
        assert((i + 1) * ps <= j * ps) by (nonlinear_arith)
            requires
                i + 1 <= j,
                ps >= 1,
        ;
    }
    if j < i {
        assert((j + 1) * ps <= i * ps) by (nonlinear_arith)
            requires
                j + 1 <= i,
                ps >= 1,
        ;
    }
}

/// Symmetric wrapper over the ordering lemma.
proof fn lemma_tiling_ordered_any(bs: Seq<Block>, po: int, pe: int, k1: int, k2: int)
    requires
        blocks_tile(bs, po, pe),
        forall|k: int| 0 <= k < bs.len() ==> (#[trigger] bs[k]).payload >= 1 && bs[k].tag >= 1,
        0 <= k1 < bs.len(),
        0 <= k2 < bs.len(),
        k1 != k2,
    ensures
        blocks_disjoint(bs[k1], bs[k2]),
{
    if k1 < k2 {
        lemma_tiling_ordered(bs, po, pe, k1, k2);
    } else {
        lemma_tiling_ordered(bs, po, pe, k2, k1);
    }
}

} // verus!
