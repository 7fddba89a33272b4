//! The boundary tag ("code block") codec.
//!
//! A tag is a variable-length encoding of a payload size together with a
//! free bit.  A single-byte tag has its top bit set, carries the free bit in
//! bit 6 and the size (at most 63) in the low six bits.  A multi-byte tag
//! starts with a byte whose top bit is clear (free bit in bit 6, the six
//! most significant size bits below), continues with bytes whose top bit is
//! set carrying seven size bits each, and ends with a byte whose top bit is
//! clear carrying the seven least significant size bits.
//!
//! Every block stores the same tag byte sequence at its left and its right
//! end, so the tag can be decoded walking from either side.
use vstd::arithmetic::div_mod::{
    lemma_fundamental_div_mod, lemma_mod_bound, lemma_multiply_divide_lt,
};
use vstd::prelude::*;

use crate::allocation_data::AllocationData;
use crate::globals::{MAX_PAGE_SIZE, NEXT_POINTER_SIZE, SMALLEST_POSSIBLE_FREE_SPACE};

verus! {

/// 128 to the power of `e` (and 1 for any non-positive `e`).
pub open spec fn pow128(e: int) -> int
    decreases e,
{
    if e <= 0 {
        1
    } else {
        128 * pow128(e - 1)
    }
}

pub proof fn lemma_pow128_pos(e: int)
    ensures
        pow128(e) >= 1,
    decreases e,
{
    if e > 0 {
        lemma_pow128_pos(e - 1);
    }
}

/// How many base-128 digits a value needs (0 for the value 0).
pub open spec fn chunks(v: int) -> int
    decreases v,
{
    if v <= 0 {
        0
    } else {
        1 + chunks(v / 128)
    }
}

pub proof fn lemma_chunks_nonneg(v: int)
    ensures
        chunks(v) >= 0,
    decreases v,
{
    if v > 0 {
        lemma_chunks_nonneg(v / 128);
    }
}

pub proof fn lemma_chunks_le(v: int, k: int)
    requires
        0 <= k,
        v < pow128(k),
    ensures
        chunks(v) <= k,
    decreases k,
{
    if v > 0 {
        if k == 0 {
            assert(pow128(0) == 1);
        } else {
            lemma_chunks_le(v / 128, k - 1);
        }
    }
}

pub proof fn lemma_chunks_bound(v: int)
    requires
        1 <= v,
    ensures
        v < pow128(chunks(v)),
    decreases v,
{
    if v < 128 {
        assert(chunks(0) == 0);
        assert(chunks(v) == 1 + chunks(v / 128));
        assert(pow128(1) == 128 * pow128(0));
    } else {
        lemma_chunks_bound(v / 128);
        let c = chunks(v / 128);
        assert(chunks(v) == 1 + c);
        assert(pow128(1 + c) == 128 * pow128(c));
        assert(v == 128 * (v / 128) + v % 128) by {
            lemma_fundamental_div_mod(v, 128);
        }
        assert(v % 128 < 128) by {
            lemma_mod_bound(v, 128);
        }
        assert(128 * (v / 128) <= 128 * (pow128(c) - 1)) by (nonlinear_arith)
            requires
                v / 128 <= pow128(c) - 1,
        ;
    }
}

/// The concrete small powers of 128 that tag sizes can use.
pub proof fn lemma_pow128_values()
    ensures
        pow128(0) == 1,
        pow128(1) == 128,
        pow128(2) == 0x4000,
        pow128(3) == 0x20_0000,
        pow128(4) == 0x1000_0000,
{
    assert(pow128(0) == 1);
    assert(pow128(1) == 128);
    assert(pow128(2) == 0x4000);
    assert(pow128(3) == 0x20_0000);
    assert(pow128(4) == 0x1000_0000);
}

/// Number of bytes a tag needs to encode the given payload size.
pub open spec fn spec_needed_tag_size(size: int) -> int {
    if size < 64 {
        1
    } else {
        1 + chunks(size / 64)
    }
}

/// Strict upper bound on the sizes an `n`-byte tag can encode.
pub open spec fn tag_cap(n: int) -> int {
    64 * pow128(n - 1)
}

pub proof fn lemma_tag_cap_monotone(n1: int, n2: int)
    requires
        n1 <= n2,
    ensures
        tag_cap(n1) <= tag_cap(n2),
    decreases n2 - n1,
{
    if n1 < n2 {
        lemma_tag_cap_monotone(n1, n2 - 1);
        lemma_pow128_pos(n2 - 2);
    }
}

/// A payload size always fits in the tag size computed for it.
pub proof fn lemma_needed_fits(size: int)
    requires
        1 <= size,
    ensures
        1 <= spec_needed_tag_size(size),
        size < tag_cap(spec_needed_tag_size(size)),
{
    if size < 64 {
        assert(tag_cap(1) == 64);
    } else {
        lemma_chunks_nonneg(size / 64);
        lemma_chunks_bound(size / 64);
        let c = chunks(size / 64);
        assert(size / 64 <= pow128(c) - 1);
        assert(64 * (size / 64) + size % 64 == size) by {
            lemma_fundamental_div_mod(size, 64);
        }
        assert(size % 64 < 64) by {
            lemma_mod_bound(size, 64);
        }
        assert(64 * (size / 64) <= 64 * (pow128(c) - 1)) by (nonlinear_arith)
            requires
                size / 64 <= pow128(c) - 1,
        ;
    }
}

pub proof fn lemma_needed_le_5(size: int)
    requires
        1 <= size <= MAX_PAGE_SIZE as int,
    ensures
        1 <= spec_needed_tag_size(size) <= 5,
{
    if size >= 64 {
        lemma_pow128_values();
        assert(size / 64 < 0x1000_0000);
        lemma_chunks_le(size / 64, 4);
        lemma_chunks_nonneg(size / 64);
    }
}

/// The bytes `[i, i + n)` have the shape of one boundary tag.
pub open spec fn is_tag(h: Seq<u8>, i: int, n: int) -> bool {
    &&& 1 <= n
    &&& 0 <= i
    &&& i + n <= h.len()
    &&& if n == 1 {
        h[i] >= 128
    } else {
        &&& h[i] < 128
        &&& h[i + n - 1] < 128
        &&& forall|k: int| i < k < i + n - 1 ==> #[trigger] h[k] >= 128
    }
}

/// Value accumulated by reading continuation bytes left to right.
pub open spec fn tag_cont(h: Seq<u8>, j: int, m: int, acc: int) -> int
    decreases m,
{
    if m <= 1 {
        acc * 128 + (h[j] as int) % 128
    } else {
        tag_cont(h, j + 1, m - 1, acc * 128 + (h[j] as int) % 128)
    }
}

/// The payload size encoded by the tag at `[i, i + n)`.
pub open spec fn tag_value(h: Seq<u8>, i: int, n: int) -> int {
    if n <= 1 {
        (h[i] as int) % 64
    } else {
        tag_cont(h, i + 1, n - 1, (h[i] as int) % 64)
    }
}

/// The free bit of the tag whose first byte is at `i`.
pub open spec fn tag_is_free(h: Seq<u8>, i: int) -> bool {
    (h[i] as int) % 128 >= 64
}

/// Only one tag size can match a given first byte position.
pub proof fn lemma_tag_size_unique(h: Seq<u8>, i: int, n1: int, n2: int)
    requires
        is_tag(h, i, n1),
        is_tag(h, i, n2),
    ensures
        n1 == n2,
{
    if n1 < n2 {
        if n1 > 1 {
            assert(h[i + n1 - 1] >= 128);
        }
    }
    if n2 < n1 {
        if n2 > 1 {
            assert(h[i + n2 - 1] >= 128);
        }
    }
}

/// Only one tag can end at a given last byte position.
pub proof fn lemma_tag_end_unique(h: Seq<u8>, s1: int, n1: int, s2: int, n2: int)
    requires
        is_tag(h, s1, n1),
        is_tag(h, s2, n2),
        s1 + n1 == s2 + n2,
    ensures
        s1 == s2,
        n1 == n2,
{
    if s1 < s2 {
        if n2 == 1 {
            assert(h[s2] >= 128);
            assert(s1 < s2 < s1 + n1 - 1 || s2 == s1 + n1 - 1);
        } else {
            assert(h[s2] < 128);
            assert(s1 < s2 < s1 + n1 - 1);
        }
    }
    if s2 < s1 {
        if n1 == 1 {
            assert(h[s1] >= 128);
            assert(s2 < s1 < s2 + n2 - 1 || s1 == s2 + n2 - 1);
        } else {
            assert(h[s1] < 128);
            assert(s2 < s1 < s2 + n2 - 1);
        }
    }
}

/// No tag can encode a value at or above its capacity.
pub proof fn lemma_tag_value_bound(h: Seq<u8>, i: int, n: int)
    requires
        is_tag(h, i, n),
    ensures
        0 <= tag_value(h, i, n) < tag_cap(n),
{
    if n == 1 {
        assert(tag_cap(1) == 64 * pow128(0));
    } else {
        lemma_pow128_pos(n - 1);
        lemma_tag_cont_bound(h, i + 1, n - 1, (h[i] as int) % 64);
        assert(tag_cap(n) == 64 * pow128(n - 1));
        assert(((h[i] as int) % 64 + 1) * pow128(n - 1) <= 64 * pow128(n - 1)) by (nonlinear_arith)
            requires
                (h[i] as int) % 64 + 1 <= 64,
                pow128(n - 1) >= 0,
        ;
    }
}

proof fn lemma_tag_cont_bound(h: Seq<u8>, j: int, m: int, acc: int)
    requires
        acc >= 0,
        m >= 1,
    ensures
        0 <= tag_cont(h, j, m, acc) < (acc + 1) * pow128(m),
    decreases m,
{
    lemma_pow128_pos(m - 1);
    if m == 1 {
        assert(pow128(1) == 128);
        assert((acc + 1) * 128 == acc * 128 + 128);
    } else {
        let acc2 = acc * 128 + (h[j] as int) % 128;
        lemma_tag_cont_bound(h, j + 1, m - 1, acc2);
        assert((acc2 + 1) * pow128(m - 1) <= (acc + 1) * pow128(m)) by (nonlinear_arith)
            requires
                acc2 <= acc * 128 + 127,
                pow128(m) == 128 * pow128(m - 1),
                pow128(m - 1) >= 1,
                acc >= 0,
        ;
    }
}

/// The minimal tag size for a value that some `n`-byte tag can encode is
/// at most `n`.
pub proof fn lemma_needed_le_of_cap(size: int, n: int)
    requires
        1 <= size,
        1 <= n,
        size < tag_cap(n),
    ensures
        spec_needed_tag_size(size) <= n,
{
    if size >= 64 {
        assert(n >= 2) by {
            if n == 1 {
                assert(tag_cap(1) == 64 * pow128(0));
            }
        }
        assert(size / 64 < pow128(n - 1)) by {
            lemma_multiply_divide_lt(size, 64, pow128(n - 1));
        }
        lemma_chunks_le(size / 64, n - 1);
    }
}

/// A larger payload never needs a shorter tag.
pub proof fn lemma_needed_monotone(s1: int, s2: int)
    requires
        1 <= s1 <= s2,
    ensures
        spec_needed_tag_size(s1) <= spec_needed_tag_size(s2),
{
    if s1 >= 64 {
        lemma_chunks_monotone(s1 / 64, s2 / 64);
    } else {
        lemma_chunks_nonneg(s2 / 64);
    }
}

proof fn lemma_chunks_monotone(v1: int, v2: int)
    requires
        v1 <= v2,
    ensures
        chunks(v1) <= chunks(v2),
    decreases v2,
{
    if v1 > 0 {
        lemma_chunks_monotone(v1 / 128, v2 / 128);
    } else {
        lemma_chunks_nonneg(v2);
    }
}

/// The accumulated value never drops below the accumulator.
pub proof fn lemma_tag_cont_ge_acc(h: Seq<u8>, j: int, m: int, acc: int)
    requires
        acc >= 0,
    ensures
        tag_cont(h, j, m, acc) >= acc,
    decreases m,
{
    if m <= 1 {
    } else {
        lemma_tag_cont_ge_acc(h, j + 1, m - 1, acc * 128 + (h[j] as int) % 128);
    }
}

/// `h2` is `h1` with only the bytes `[lo, hi)` possibly rewritten.
pub open spec fn unchanged_except(h1: Seq<u8>, h2: Seq<u8>, lo: int, hi: int) -> bool {
    &&& h1.len() == h2.len()
    &&& forall|k: int| 0 <= k < h2.len() && !(lo <= k < hi) ==> #[trigger] h2[k] == h1[k]
}

/// Two heaps that agree on the bytes `[lo, hi)`.
pub open spec fn agree_on(h1: Seq<u8>, h2: Seq<u8>, lo: int, hi: int) -> bool {
    &&& h1.len() == h2.len()
    &&& forall|k: int| lo <= k < hi ==> #[trigger] h1[k] == #[trigger] h2[k]
}

pub proof fn lemma_tag_cont_agree(h1: Seq<u8>, h2: Seq<u8>, j: int, m: int, acc: int)
    requires
        m >= 1,
        agree_on(h1, h2, j, j + m),
    ensures
        tag_cont(h1, j, m, acc) == tag_cont(h2, j, m, acc),
    decreases m,
{
    assert(h1[j] == h2[j]);
    if m > 1 {
        lemma_tag_cont_agree(h1, h2, j + 1, m - 1, acc * 128 + (h1[j] as int) % 128);
    }
}

/// A tag is unaffected by writes outside its bytes.
pub proof fn lemma_tag_frame(h1: Seq<u8>, h2: Seq<u8>, i: int, n: int)
    requires
        is_tag(h1, i, n),
        agree_on(h1, h2, i, i + n),
    ensures
        is_tag(h2, i, n),
        tag_value(h2, i, n) == tag_value(h1, i, n),
        tag_is_free(h2, i) == tag_is_free(h1, i),
{
    assert(h1[i] == h2[i]);
    if n > 1 {
        assert(h1[i + n - 1] == h2[i + n - 1]);
        assert forall|k: int| i < k < i + n - 1 implies #[trigger] h2[k] >= 128 by {
            assert(h1[k] >= 128);
            assert(h1[k] == h2[k]);
        }
        lemma_tag_cont_agree(h1, h2, i + 1, n - 1, (h1[i] as int) % 64);
    }
}

/// The byte at offset `t` from `dst` equals the byte at offset `t` from
/// `src`; the shape a mirrored tag copy is stated in.
pub open spec fn byte_shift_eq(h: Seq<u8>, src: int, dst: int, t: int) -> bool {
    h[dst + t] == h[src + t]
}

/// A tag decodes to the same size and free bit wherever its bytes stand.
pub proof fn lemma_tag_translate(h: Seq<u8>, i1: int, i2: int, n: int)
    requires
        is_tag(h, i1, n),
        0 <= i2,
        i2 + n <= h.len(),
        forall|t: int| 0 <= t < n ==> #[trigger] byte_shift_eq(h, i1, i2, t),
    ensures
        is_tag(h, i2, n),
        tag_value(h, i2, n) == tag_value(h, i1, n),
        tag_is_free(h, i2) == tag_is_free(h, i1),
{
    assert(byte_shift_eq(h, i1, i2, 0));
    assert(h[i2] == h[i1]);
    if n > 1 {
        assert(byte_shift_eq(h, i1, i2, n - 1));
        assert(h[i2 + n - 1] == h[i1 + n - 1]);
        assert forall|k: int| i2 < k < i2 + n - 1 implies #[trigger] h[k] >= 128 by {
            assert(byte_shift_eq(h, i1, i2, k - i2));
            assert(h[i1 + (k - i2)] >= 128);
        }
        assert forall|t: int| 0 <= t < n - 1 implies #[trigger] byte_shift_eq(
            h,
            i1 + 1,
            i2 + 1,
            t,
        ) by {
            assert(byte_shift_eq(h, i1, i2, t + 1));
        }
        lemma_tag_cont_translate(h, i1 + 1, i2 + 1, n - 1, (h[i1] as int) % 64);
    }
}

proof fn lemma_tag_cont_translate(h: Seq<u8>, j1: int, j2: int, m: int, acc: int)
    requires
        m >= 1,
        0 <= j1,
        j1 + m <= h.len(),
        0 <= j2,
        j2 + m <= h.len(),
        forall|t: int| 0 <= t < m ==> #[trigger] byte_shift_eq(h, j1, j2, t),
    ensures
        tag_cont(h, j2, m, acc) == tag_cont(h, j1, m, acc),
    decreases m,
{
    assert(byte_shift_eq(h, j1, j2, 0));
    assert(h[j2 + 0] == h[j1 + 0]);
    if m > 1 {
        assert forall|t: int| 0 <= t < m - 1 implies #[trigger] byte_shift_eq(
            h,
            j1 + 1,
            j2 + 1,
            t,
        ) by {
            assert(byte_shift_eq(h, j1, j2, t + 1));
        }
        lemma_tag_cont_translate(h, j1 + 1, j2 + 1, m - 1, acc * 128 + (h[j1] as int) % 128);
    }
}

/// Reads the tag that starts at `i` and returns the encoded payload size.
pub fn read_from_left(heap: &Vec<u8>, i: usize) -> (size: usize)
    requires
        exists|n: int| is_tag(heap@, i as int, n),
        forall|n: int|
            is_tag(heap@, i as int, n) ==> tag_value(heap@, i as int, n) <= MAX_PAGE_SIZE as int,
    ensures
        forall|n: int| is_tag(heap@, i as int, n) ==> size as int == tag_value(heap@, i as int, n),
{
    let ghost n = choose|n: int| is_tag(heap@, i as int, n);
    if heap[i] >= 128 {
        proof {
            if n != 1 {
                assert(heap@[i as int] < 128);
            }
            assert forall|n2: int| is_tag(heap@, i as int, n2) implies (heap@[i as int] as int) % 64
                == tag_value(heap@, i as int, n2) by {
                lemma_tag_size_unique(heap@, i as int, n2, 1);
            }
        }
        (heap[i] % 64) as usize
    } else {
        let heap_len = heap.len();
        proof {
            if n == 1 {
                assert(heap@[i as int] >= 128);
            }
            assert(i + n <= heap_len);
        }
        let mut size: usize = (heap[i] % 64) as usize;
        let mut j: usize = i + 1;
        proof {
            lemma_tag_cont_ge_acc(heap@, j as int, n - 1, size as int);
        }
        while heap[j] >= 128
            invariant
                is_tag(heap@, i as int, n),
                n >= 2,
                tag_value(heap@, i as int, n) <= MAX_PAGE_SIZE as int,
                i + 1 <= j <= i + n - 1,
                j < heap@.len(),
                heap@.len() <= usize::MAX,
                tag_cont(heap@, j as int, i + n - j, size as int) == tag_value(
                    heap@,
                    i as int,
                    n,
                ),
                size as int <= tag_value(heap@, i as int, n),
                size >= 0,
            decreases i + n - j,
        {
            proof {
                if j == i + n - 1 {
                    assert(heap@[j as int] < 128);
                }
                assert(tag_cont(heap@, j as int, i + n - j, size as int) == tag_cont(
                    heap@,
                    j as int + 1,
                    i + n - j - 1,
                    size as int * 128 + (heap@[j as int] as int) % 128,
                ));
                lemma_tag_cont_ge_acc(
                    heap@,
                    j as int + 1,
                    i + n - j - 1,
                    size as int * 128 + (heap@[j as int] as int) % 128,
                );
            }
            size = size * 128 + (heap[j] - 128) as usize;
            j = j + 1;
        }
        proof {
            assert(j == i + n - 1);
            assert(tag_cont(heap@, j as int, 1, size as int) == size as int * 128 + (
            heap@[j as int] as int) % 128);
        }
        size = size * 128 + heap[j] as usize;
        proof {
            assert forall|n2: int| is_tag(heap@, i as int, n2) implies size as int == tag_value(
                heap@,
                i as int,
                n2,
            ) by {
                lemma_tag_size_unique(heap@, i as int, n2, n);
            }
        }
        size
    }
}

/// Reads the tag whose last byte is at `i`; returns the encoded payload
/// size and the position of the tag's first byte.
pub fn read_from_right(heap: &Vec<u8>, i: usize) -> (r: (usize, usize))
    requires
        exists|s: int, n: int| s + n == i + 1 && is_tag(heap@, s, n),
        forall|s: int, n: int|
            s + n == i + 1 && is_tag(heap@, s, n) ==> tag_value(heap@, s, n)
                <= MAX_PAGE_SIZE as int,
    ensures
        forall|s: int, n: int|
            s + n == i + 1 && is_tag(heap@, s, n) ==> r.0 as int == tag_value(heap@, s, n)
                && r.1 as int == s,
{
    let ghost (s0, n0) = choose|s: int, n: int| s + n == i + 1 && is_tag(heap@, s, n);
    if heap[i] >= 128 {
        proof {
            if n0 != 1 {
                assert(heap@[s0 + n0 - 1] < 128);
            }
            assert forall|s: int, n: int| s + n == i + 1 && is_tag(heap@, s, n) implies (
            heap@[i as int] as int) % 64 == tag_value(heap@, s, n) && i as int == s by {
                lemma_tag_end_unique(heap@, s, n, i as int, 1);
            }
        }
        ((heap[i] % 64) as usize, i)
    } else {
        proof {
            if n0 == 1 {
                assert(heap@[s0] >= 128);
            }
            assert(n0 >= 2);
            assert(s0 + 1 <= i);
        }
        let mut j: usize = i - 1;
        while heap[j] >= 128
            invariant
                is_tag(heap@, s0, n0),
                n0 >= 2,
                s0 + n0 == i + 1,
                i < heap@.len(),
                s0 <= j <= i - 1,
            decreases j,
        {
            proof {
                if j == s0 {
                    assert(heap@[s0] < 128);
                }
                assert(s0 < j - 1 + 1);
            }
            j = j - 1;
        }
        proof {
            // every byte strictly inside the tag has its top bit set, so the
            // scan stopped exactly on the tag's first byte
            if j != s0 {
                assert(s0 < j < s0 + n0 - 1);
                assert(heap@[j as int] >= 128);
            }
            assert(forall|n: int|
                is_tag(heap@, j as int, n) ==> tag_value(heap@, j as int, n)
                    <= MAX_PAGE_SIZE as int) by {
                assert forall|n: int| is_tag(heap@, j as int, n) implies tag_value(
                    heap@,
                    j as int,
                    n,
                ) <= MAX_PAGE_SIZE as int by {
                    lemma_tag_size_unique(heap@, j as int, n, n0);
                }
            }
        }
        let size = read_from_left(heap, j);
        proof {
            assert forall|s: int, n: int| s + n == i + 1 && is_tag(heap@, s, n) implies size as int
                == tag_value(heap@, s, n) && j as int == s by {
                lemma_tag_end_unique(heap@, s, n, s0, n0);
            }
        }
        (size, j)
    }
}

/// Reads whether the tag starting at `i` marks a free block.
pub fn is_free(heap: &Vec<u8>, i: usize) -> (r: bool)
    requires
        i < heap.len(),
    ensures
        r == tag_is_free(heap@, i as int),
{
    heap[i] % 128 >= 64
}

/// Length in bytes of the tag that starts at `i`.
pub fn get_block_size(heap: &Vec<u8>, i: usize) -> (n: usize)
    requires
        exists|n0: int| is_tag(heap@, i as int, n0),
    ensures
        is_tag(heap@, i as int, n as int),
{
    let ghost n0 = choose|n0: int| is_tag(heap@, i as int, n0);
    if heap[i] >= 128 {
        proof {
            if n0 != 1 {
                assert(heap@[i as int] < 128);
            }
        }
        1
    } else {
        let heap_len = heap.len();
        proof {
            if n0 == 1 {
                assert(heap@[i as int] >= 128);
            }
            assert(i + n0 <= heap_len);
        }
        let mut j: usize = i + 1;
        while heap[j] >= 128
            invariant
                is_tag(heap@, i as int, n0),
                n0 >= 2,
                i + 1 <= j <= i + n0 - 1,
                j < heap@.len(),
                heap@.len() <= usize::MAX,
            decreases i + n0 - j,
        {
            proof {
                if j == i + n0 - 1 {
                    assert(heap@[j as int] < 128);
                }
            }
            j = j + 1;
        }
        proof {
            if j != i + n0 - 1 {
                assert(heap@[j as int] >= 128);
            }
        }
        j - i + 1
    }
}

/// Flips the free bit of the tag starting at `i` without touching the
/// encoded size or the tag length.
pub fn set_free(heap: &mut Vec<u8>, i: usize, free: bool)
    requires
        i < old(heap).len(),
    ensures
        final(heap)@.len() == old(heap)@.len(),
        forall|k: int|
            0 <= k < final(heap)@.len() && k != i ==> final(heap)@[k] == old(heap)@[k],
        tag_is_free(final(heap)@, i as int) == free,
        (final(heap)@[i as int] as int) % 64 == (old(heap)@[i as int] as int) % 64,
        (final(heap)@[i as int] >= 128) == (old(heap)@[i as int] >= 128),
{
    let b = heap[i];
    if free {
        if b % 128 < 64 {
            heap.set(i, b + 64);
        }
    } else {
        if b % 128 >= 64 {
            heap.set(i, b - 64);
        }
    }
}

/// The free bit flip changes no tag size or value.
pub proof fn lemma_set_free_preserves_tag(h1: Seq<u8>, h2: Seq<u8>, i: int, n: int)
    requires
        is_tag(h1, i, n),
        h1.len() == h2.len(),
        forall|k: int| 0 <= k < h1.len() && k != i ==> h2[k] == h1[k],
        (h2[i] as int) % 64 == (h1[i] as int) % 64,
        (h2[i] >= 128) == (h1[i] >= 128),
    ensures
        is_tag(h2, i, n),
        tag_value(h2, i, n) == tag_value(h1, i, n),
{
    if n > 1 {
        assert(h2[i + n - 1] == h1[i + n - 1]);
        assert(forall|k: int| i < k < i + n - 1 ==> #[trigger] h2[k] >= 128);
        lemma_tag_cont_agree(h1, h2, i + 1, n - 1, (h1[i] as int) % 64);
    }
}

/// Writes the continuation part of a multi-byte tag: `m` base-128 digits of
/// `rem`, all but the last with their top bit set.
fn write_cont(heap: &mut Vec<u8>, j: usize, m: usize, rem: usize, div: usize)
    requires
        1 <= m <= 4,
        j + m <= old(heap).len(),
        div as int == pow128(m as int - 1),
        (rem as int) < (div as int) * 128,
    ensures
        final(heap)@.len() == old(heap)@.len(),
        forall|k: int|
            0 <= k < final(heap)@.len() && !(j <= k < j + m) ==> final(heap)@[k] == old(heap)@[k],
        forall|t: int| j <= t < j + m - 1 ==> #[trigger] final(heap)@[t] >= 128,
        final(heap)@[j + m - 1] < 128,
        forall|acc: int|
            acc >= 0 ==> #[trigger] tag_cont(final(heap)@, j as int, m as int, acc) == acc * pow128(
                m as int,
            ) + rem as int,
    decreases m,
{
    if m == 1 {
        proof {
            assert(div == 1);
        }
        heap.set(j, rem as u8);
        proof {
            assert forall|acc: int| acc >= 0 implies #[trigger] tag_cont(
                heap@,
                j as int,
                1,
                acc,
            ) == acc * pow128(1) + rem as int by {
                assert((heap@[j as int] as int) % 128 == rem as int);
            }
        }
    } else {
        proof {
            lemma_pow128_pos(m as int - 2);
            assert(div as int == 128 * pow128(m as int - 2));
            lemma_multiply_divide_lt(rem as int, div as int, 128);
        }
        let c: usize = rem / div;
        heap.set(j, 128 + c as u8);
        let ghost h_mid = heap@;
        write_cont(heap, j + 1, m - 1, rem % div, div / 128);
        proof {
            assert(heap@[j as int] == h_mid[j as int]);
            assert(heap@[j as int] as int == 128 + c);
            assert((heap@[j as int] as int) % 128 == c as int);
            assert(rem as int == div as int * (rem as int / div as int) + rem as int
                % div as int) by {
                lemma_fundamental_div_mod(rem as int, div as int);
            }
            assert forall|acc: int| acc >= 0 implies #[trigger] tag_cont(
                heap@,
                j as int,
                m as int,
                acc,
            ) == acc * pow128(m as int) + rem as int by {
                let acc2 = acc * 128 + c as int;
                assert(tag_cont(heap@, j as int, m as int, acc) == tag_cont(
                    heap@,
                    j as int + 1,
                    m as int - 1,
                    acc2,
                ));
                assert(tag_cont(heap@, j as int + 1, m as int - 1, acc2) == acc2 * pow128(
                    m as int - 1,
                ) + (rem as int % div as int));
                assert((acc * 128 + c as int) * pow128(m as int - 1) == acc * (128 * pow128(
                    m as int - 1,
                )) + (c as int) * pow128(m as int - 1)) by (nonlinear_arith);
                assert(pow128(m as int) == 128 * pow128(m as int - 1));
                assert(acc * (128 * pow128(m as int - 1)) == acc * pow128(m as int));
                assert(c as int * pow128(m as int - 1) == (rem as int / div as int) * div as int)
                    by (nonlinear_arith)
                    requires
                        c as int == rem as int / div as int,
                        div as int == pow128(m as int - 1),
                ;
                assert((rem as int / div as int) * div as int == div as int * (rem as int
                    / div as int)) by (nonlinear_arith);
                assert((c as int) * pow128(m as int - 1) + rem as int % div as int == rem as int);
                assert(tag_cont(heap@, j as int, m as int, acc) == acc * pow128(m as int) + (
                c as int) * pow128(m as int - 1) + rem as int % div as int);
            }
        }
    }
}

/// Writes an `n`-byte tag at `i` encoding `(memory_block_size, isfree)`.
fn generate_code_block_for_payload_size2(
    heap: &mut Vec<u8>,
    left_start_of_block: usize,
    memory_block_size: usize,
    isfree: bool,
    code_block_size: usize,
)
    requires
        1 <= code_block_size <= 5,
        left_start_of_block + code_block_size <= old(heap).len(),
        (memory_block_size as int) < tag_cap(code_block_size as int),
    ensures
        final(heap)@.len() == old(heap)@.len(),
        forall|k: int|
            0 <= k < final(heap)@.len() && !(left_start_of_block <= k < left_start_of_block
                + code_block_size) ==> final(heap)@[k] == old(heap)@[k],
        is_tag(final(heap)@, left_start_of_block as int, code_block_size as int),
        tag_value(final(heap)@, left_start_of_block as int, code_block_size as int)
            == memory_block_size as int,
        tag_is_free(final(heap)@, left_start_of_block as int) == isfree,
{
    let i = left_start_of_block;
    if code_block_size == 1 {
        let free_bit: u8 = if isfree {
            64
        } else {
            0
        };
        let b: u8 = 128 + free_bit + memory_block_size as u8;
        heap.set(i, b);
        proof {
            assert((heap@[i as int] as int) % 64 == memory_block_size as int);
            assert((heap@[i as int] as int) % 128 >= 64 <==> isfree);
        }
    } else {
        let n = code_block_size;
        // divisor for the leading six-bit digit: 128^(n-1)
        let mut div: usize = 1;
        let mut t: usize = 1;
        while t < n
            invariant
                1 <= t <= n,
                n <= 5,
                div as int == pow128(t as int - 1),
                div <= 0x1000_0000,
            decreases n - t,
        {
            proof {
                lemma_pow128_values();
                assert(pow128(t as int) == 128 * pow128(t as int - 1));
            }
            div = div * 128;
            t = t + 1;
        }
        proof {
            lemma_pow128_pos(n as int - 1);
            lemma_multiply_divide_lt(memory_block_size as int, div as int, 64);
        }
        let c0: usize = memory_block_size / div;
        let free_bit: u8 = if isfree {
            64
        } else {
            0
        };
        let b0: u8 = free_bit + c0 as u8;
        heap.set(i, b0);
        let ghost h_mid = heap@;
        write_cont(heap, i + 1, n - 1, memory_block_size % div, div / 128);
        proof {
            assert(heap@[i as int] == h_mid[i as int]);
            assert(heap@[i as int] < 128);
            assert((heap@[i as int] as int) % 64 == c0 as int);
            assert((heap@[i as int] as int) % 128 >= 64 <==> isfree);
            assert(tag_cont(heap@, i as int + 1, n as int - 1, c0 as int) == c0 as int * pow128(
                n as int - 1,
            ) + (memory_block_size as int % div as int));
            assert(memory_block_size as int == div as int * (memory_block_size as int
                / div as int) + memory_block_size as int % div as int) by {
                lemma_fundamental_div_mod(memory_block_size as int, div as int);
            }
            assert(c0 as int * pow128(n as int - 1) == (memory_block_size as int / div as int)
                * div as int) by (nonlinear_arith)
                requires
                    c0 as int == memory_block_size as int / div as int,
                    div as int == pow128(n as int - 1),
            ;
            assert((memory_block_size as int / div as int) * div as int == div as int * (
            memory_block_size as int / div as int)) by (nonlinear_arith);
            assert(c0 as int * pow128(n as int - 1) + memory_block_size as int % div as int
                == memory_block_size as int);
            assert(tag_value(heap@, i as int, n as int) == tag_cont(
                heap@,
                i as int + 1,
                n as int - 1,
                c0 as int,
            ));
            assert(is_tag(heap@, i as int, n as int));
        }
    }
}

/// How many bytes a tag needs to encode the given payload size.
pub fn get_needed_code_block_size(size_to_encode: usize) -> (n: usize)
    requires
        1 <= size_to_encode,
        size_to_encode <= MAX_PAGE_SIZE,
    ensures
        n as int == spec_needed_tag_size(size_to_encode as int),
        1 <= n <= 5,
{
    proof {
        lemma_needed_le_5(size_to_encode as int);
    }
    if size_to_encode < 64 {
        return 1;
    }
    let mut size: usize = 1;
    let mut t: usize = size_to_encode / 64;
    proof {
        lemma_chunks_nonneg(t as int);
    }
    while t != 0
        invariant
            size as int + chunks(t as int) == spec_needed_tag_size(size_to_encode as int),
            1 <= size,
            size as int <= spec_needed_tag_size(size_to_encode as int),
            spec_needed_tag_size(size_to_encode as int) <= 5,
        decreases t,
    {
        proof {
            assert(chunks(t as int) == 1 + chunks(t as int / 128));
            lemma_chunks_nonneg(t as int / 128);
        }
        size = size + 1;
        t = t / 128;
    }
    size
}

/// The tag size chosen for a block of `internal` total bytes: the smallest
/// tag size that can encode the payload remaining beside two such tags.
pub open spec fn spec_internal_tag_ok(internal: int, n: int) -> bool {
    &&& 1 <= n
    &&& spec_needed_tag_size(internal - 2 * n) <= n
    &&& forall|c: int| 1 <= c < n ==> #[trigger] spec_needed_tag_size(internal - 2 * c) > c
}

pub proof fn lemma_internal_tag_unique(internal: int, n1: int, n2: int)
    requires
        spec_internal_tag_ok(internal, n1),
        spec_internal_tag_ok(internal, n2),
    ensures
        n1 == n2,
{
    if n1 < n2 {
        assert(spec_needed_tag_size(internal - 2 * n1) > n1);
    }
    if n2 < n1 {
        assert(spec_needed_tag_size(internal - 2 * n2) > n2);
    }
}

/// Writes the left tag of a block that spans `internally_needed_size` bytes
/// in total, choosing the tag size by fixed-point iteration so that the two
/// tags plus the encoded payload exactly fill the block.
pub fn generate_code_block_for_internal_size(
    heap: &mut Vec<u8>,
    left_start_of_block: usize,
    internally_needed_size: usize,
    isfree: bool,
) -> (code_block_size: usize)
    requires
        SMALLEST_POSSIBLE_FREE_SPACE <= internally_needed_size,
        internally_needed_size <= MAX_PAGE_SIZE,
        left_start_of_block + internally_needed_size <= old(heap).len(),
    ensures
        final(heap)@.len() == old(heap)@.len(),
        forall|k: int|
            0 <= k < final(heap)@.len() && !(left_start_of_block <= k < left_start_of_block
                + code_block_size) ==> final(heap)@[k] == old(heap)@[k],
        spec_internal_tag_ok(internally_needed_size as int, code_block_size as int),
        1 <= code_block_size <= 5,
        NEXT_POINTER_SIZE <= internally_needed_size - 2 * code_block_size,
        is_tag(final(heap)@, left_start_of_block as int, code_block_size as int),
        tag_value(final(heap)@, left_start_of_block as int, code_block_size as int)
            == internally_needed_size as int - 2 * code_block_size as int,
        tag_is_free(final(heap)@, left_start_of_block as int) == isfree,
{
    let mut code_block_size: usize = 1;
    let mut needed: usize = get_needed_code_block_size(internally_needed_size - 2);
    while needed > code_block_size
        invariant
            1 <= code_block_size <= 5,
            SMALLEST_POSSIBLE_FREE_SPACE <= internally_needed_size <= MAX_PAGE_SIZE,
            2 * code_block_size < internally_needed_size,
            needed as int == spec_needed_tag_size(
                internally_needed_size as int - 2 * code_block_size as int,
            ),
            1 <= needed <= 5,
            code_block_size >= 2 ==> internally_needed_size as int - 2 * (code_block_size as int
                - 1) >= 64,
            forall|c: int|
                1 <= c < code_block_size ==> #[trigger] spec_needed_tag_size(
                    internally_needed_size as int - 2 * c,
                ) > c,
        decreases 5 - code_block_size,
    {
        proof {
            // the tag only grows while the payload still needs more than
            // one byte, which means the payload is at least 64 bytes
            assert(spec_needed_tag_size(
                internally_needed_size as int - 2 * code_block_size as int,
            ) >= 2);
            assert(internally_needed_size as int - 2 * code_block_size as int >= 64);
            lemma_needed_le_5(internally_needed_size as int - 2 * (code_block_size as int + 1));
        }
        code_block_size = code_block_size + 1;
        needed = get_needed_code_block_size(internally_needed_size - 2 * code_block_size);
    }
    proof {
        if code_block_size == 1 {
            assert(internally_needed_size - 2 * code_block_size >= 4);
        } else {
            assert(internally_needed_size as int - 2 * (code_block_size as int - 1) >= 64);
        }
        let payload = internally_needed_size as int - 2 * code_block_size as int;
        lemma_needed_fits(payload);
        lemma_tag_cap_monotone(spec_needed_tag_size(payload), code_block_size as int);
    }
    generate_code_block_for_payload_size2(
        heap,
        left_start_of_block,
        internally_needed_size - 2 * code_block_size,
        isfree,
        code_block_size,
    );
    code_block_size
}

/// Writes the left tag for the cached payload size of `alloc_data` and
/// refreshes its tag-size and payload-start caches.
pub fn generate_code_block_for_payload_size(
    heap: &mut Vec<u8>,
    alloc_data: &mut AllocationData,
    isfree: bool,
)
    requires
        old(alloc_data).data_start is Some,
        old(alloc_data).space.size is Some,
        1 <= old(alloc_data).space.size.unwrap(),
        old(alloc_data).space.size.unwrap() <= MAX_PAGE_SIZE,
        old(alloc_data).data_start.unwrap() + spec_needed_tag_size(
            old(alloc_data).space.size.unwrap() as int,
        ) <= old(heap).len(),
    ensures
        final(heap)@.len() == old(heap)@.len(),
        ({
            let s = old(alloc_data).data_start.unwrap() as int;
            let n = spec_needed_tag_size(old(alloc_data).space.size.unwrap() as int);
            &&& forall|k: int|
                0 <= k < final(heap)@.len() && !(s <= k < s + n) ==> final(heap)@[k] == old(
                    heap,
                )@[k]
            &&& is_tag(final(heap)@, s, n)
            &&& tag_value(final(heap)@, s, n) == old(alloc_data).space.size.unwrap() as int
            &&& tag_is_free(final(heap)@, s) == isfree
            &&& final(alloc_data).code_block_size == Some(n as usize)
            &&& final(alloc_data).space.ptr == Some((s + n) as usize)
        }),
        final(alloc_data).data_start == old(alloc_data).data_start,
        final(alloc_data).data_end == old(alloc_data).data_end,
        final(alloc_data).space.size == old(alloc_data).space.size,
        final(alloc_data).space.next == old(alloc_data).space.next,
        final(alloc_data).page == old(alloc_data).page,
{
    let size = alloc_data.space.size();
    let start = alloc_data.data_start();
    proof {
        lemma_needed_fits(size as int);
        lemma_needed_le_5(size as int);
    }
    let code_block_size = get_needed_code_block_size(size);
    generate_code_block_for_payload_size2(heap, start, size, isfree, code_block_size);
    alloc_data.set_code_block_size(code_block_size);
    alloc_data.space.set_ptr(start + code_block_size);
}

/// One block of the allocator's mathematical model: a byte region
/// `[start, start + 2 * tag + payload)` with a tag of `tag` bytes at each
/// end and a free bit.
pub ghost struct Block {
    pub start: int,
    pub tag: int,
    pub payload: int,
    pub free: bool,
}

impl Block {
    /// First byte past the block.
    pub open spec fn end(self) -> int {
        self.start + 2 * self.tag + self.payload
    }

    /// First byte of the payload; the address handed to callers and the
    /// place a free block keeps its next pointer.
    pub open spec fn ptr(self) -> int {
        self.start + self.tag
    }

    /// First byte of the right tag copy.
    pub open spec fn right_tag(self) -> int {
        self.start + self.tag + self.payload
    }
}

/// The bytes starting at `start` hold a block: a left tag encoding
/// `payload`, the payload itself, and a byte-identical right tag copy.
pub open spec fn is_block(h: Seq<u8>, start: int, n: int, payload: int) -> bool {
    &&& is_tag(h, start, n)
    &&& tag_value(h, start, n) == payload
    &&& 1 <= payload
    &&& start + 2 * n + payload <= h.len()
    &&& forall|t: int| 0 <= t < n ==> #[trigger] byte_shift_eq(h, start, start + n + payload, t)
}

/// The model block `b` is faithfully encoded in the heap bytes.
pub open spec fn block_ok(h: Seq<u8>, b: Block) -> bool {
    &&& is_block(h, b.start, b.tag, b.payload)
    &&& tag_is_free(h, b.start) == b.free
    &&& b.free ==> b.payload >= NEXT_POINTER_SIZE as int
    &&& b.payload <= MAX_PAGE_SIZE as int
}

/// The right tag copy of a block decodes exactly as its left tag does.
pub proof fn lemma_right_tag(h: Seq<u8>, start: int, n: int, payload: int)
    requires
        is_block(h, start, n, payload),
    ensures
        is_tag(h, start + n + payload, n),
        tag_value(h, start + n + payload, n) == payload,
        tag_is_free(h, start + n + payload) == tag_is_free(h, start),
{
    lemma_tag_translate(h, start, start + n + payload, n);
}

/// Left and right boundary tags of one block agree on size and free bit.
pub proof fn lemma_tag_symmetry(h: Seq<u8>, b: Block)
    requires
        block_ok(h, b),
    ensures
        is_tag(h, b.right_tag(), b.tag),
        tag_value(h, b.right_tag(), b.tag) == tag_value(h, b.start, b.tag),
        tag_value(h, b.right_tag(), b.tag) == b.payload,
        tag_is_free(h, b.right_tag()) == tag_is_free(h, b.start),
        tag_is_free(h, b.right_tag()) == b.free,
{
    lemma_right_tag(h, b.start, b.tag, b.payload);
}

/// A block's encoding only depends on its two tag regions: writes to its
/// payload interior or anywhere else in the heap do not disturb it.
pub proof fn lemma_block_tags_frame(h1: Seq<u8>, h2: Seq<u8>, b: Block)
    requires
        block_ok(h1, b),
        h1.len() == h2.len(),
        agree_on(h1, h2, b.start, b.ptr()),
        agree_on(h1, h2, b.right_tag(), b.end()),
    ensures
        block_ok(h2, b),
{
    lemma_tag_frame(h1, h2, b.start, b.tag);
    assert forall|t: int| 0 <= t < b.tag implies #[trigger] byte_shift_eq(
        h2,
        b.start,
        b.start + b.tag + b.payload,
        t,
    ) by {
        assert(byte_shift_eq(h1, b.start, b.start + b.tag + b.payload, t));
        assert(h1[b.start + t] == h2[b.start + t]);
        assert(h1[b.start + b.tag + b.payload + t] == h2[b.start + b.tag + b.payload + t]);
    }
}

/// A block's encoding only depends on its own bytes.
pub proof fn lemma_block_frame(h1: Seq<u8>, h2: Seq<u8>, b: Block)
    requires
        block_ok(h1, b),
        agree_on(h1, h2, b.start, b.end()),
    ensures
        block_ok(h2, b),
{
    lemma_block_tags_frame(h1, h2, b);
}

/// Two blocks that share their start are the same block.
pub proof fn lemma_block_start_unique(h: Seq<u8>, s: int, n1: int, p1: int, n2: int, p2: int)
    requires
        is_block(h, s, n1, p1),
        is_block(h, s, n2, p2),
    ensures
        n1 == n2,
        p1 == p2,
{
    lemma_tag_size_unique(h, s, n1, n2);
}

/// Two blocks that share their payload start are the same block.
pub proof fn lemma_block_ptr_unique(
    h: Seq<u8>,
    s1: int,
    n1: int,
    p1: int,
    s2: int,
    n2: int,
    p2: int,
)
    requires
        is_block(h, s1, n1, p1),
        is_block(h, s2, n2, p2),
        s1 + n1 == s2 + n2,
    ensures
        s1 == s2,
        n1 == n2,
        p1 == p2,
{
    lemma_tag_end_unique(h, s1, n1, s2, n2);
}

/// Two blocks that end at the same byte are the same block.
pub proof fn lemma_block_end_unique(
    h: Seq<u8>,
    s1: int,
    n1: int,
    p1: int,
    s2: int,
    n2: int,
    p2: int,
)
    requires
        is_block(h, s1, n1, p1),
        is_block(h, s2, n2, p2),
        s1 + 2 * n1 + p1 == s2 + 2 * n2 + p2,
    ensures
        s1 == s2,
        n1 == n2,
        p1 == p2,
{
    lemma_right_tag(h, s1, n1, p1);
    lemma_right_tag(h, s2, n2, p2);
    lemma_tag_end_unique(h, s1 + n1 + p1, n1, s2 + n2 + p2, n2);
}

} // verus!
