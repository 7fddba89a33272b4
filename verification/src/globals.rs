//! Build-time parameters of the allocator and the integer logarithm used by
//! the bucket-index computation.
use vstd::arithmetic::power2::{lemma2_to64, lemma_pow2_strictly_increases, pow2};
use vstd::prelude::*;

verus! {

/// Largest payload size that is still mapped to a stride-4 bucket.
pub const LAST_LINEAR_4_SCALING: usize = 32;

/// Largest payload size that is still mapped to a stride-16 bucket.
pub const LAST_LINEAR_16_SCALING: usize = 128;

/// Largest payload size that is mapped to a power-of-two bucket; anything
/// above lands in the final, unbounded bucket.
pub const LARGEST_BUCKET_SIZE: usize = 1024;

pub const LOG2_1024: usize = 10;

pub const LOG2_128: usize = 7;

/// Number of buckets in a page's bucket table.
pub const BUCKET_LIST_SIZE: usize = LAST_LINEAR_4_SCALING / 4 + (LAST_LINEAR_16_SCALING
    - LAST_LINEAR_4_SCALING + 4) / 16 + (LOG2_1024 - LOG2_128) + 1;

/// Width of an in-band next pointer in bytes.
pub const NEXT_POINTER_SIZE: usize = 4;

/// The all-ones next pointer, meaning "no successor".
pub const ERROR_NEXT_POINTER: u32 = 0xFFFF_FFFF;

/// Smallest total size of a free block: one boundary-tag byte on each side
/// plus a payload that can hold a next pointer.
pub const SMALLEST_POSSIBLE_FREE_SPACE: usize = 6;

/// Pages must keep every in-page offset strictly below the all-ones
/// sentinel, so a page may span at most this many bytes.
pub const MAX_PAGE_SIZE: usize = 0xFFFF_FFFE;

/// Floor of the base-two logarithm, with `spec_log2(x) == 0` for `x < 2`.
pub open spec fn spec_log2(x: int) -> int
    decreases x,
{
    if x < 2 {
        0
    } else {
        1 + spec_log2(x / 2)
    }
}

pub proof fn lemma_log2_nonneg(x: int)
    ensures
        spec_log2(x) >= 0,
    decreases x,
{
    if x >= 2 {
        lemma_log2_nonneg(x / 2);
    }
}

pub proof fn lemma_log2_monotone(a: int, b: int)
    requires
        a <= b,
    ensures
        spec_log2(a) <= spec_log2(b),
    decreases b,
{
    if a < 2 {
        lemma_log2_nonneg(b);
    } else {
        lemma_log2_monotone(a / 2, b / 2);
    }
}

/// The logarithm of the last value of each range used by the bucket table.
pub proof fn lemma_log2_values()
    ensures
        spec_log2(127) == 6,
        spec_log2(128) == 7,
        spec_log2(1023) == 9,
        spec_log2(1024) == 10,
{
    assert(spec_log2(1024) == 10) by {
        reveal_with_fuel(spec_log2, 12);
    }
    assert(spec_log2(1023) == 9) by {
        reveal_with_fuel(spec_log2, 12);
    }
    assert(spec_log2(128) == 7) by {
        reveal_with_fuel(spec_log2, 9);
    }
    assert(spec_log2(127) == 6) by {
        reveal_with_fuel(spec_log2, 8);
    }
}

/// Floor of the base-two logarithm of a 64-bit value.
pub fn log2_64(x: u64) -> (r: usize)
    requires
        x > 0,
    ensures
        r as int == spec_log2(x as int),
        r <= 63,
{
    let mut v: u64 = x;
    let mut r: usize = 0;
    proof {
        lemma2_to64();
    }
    while v >= 2
        invariant
            1 <= v,
            spec_log2(x as int) == r + spec_log2(v as int),
            v as int * pow2(r as nat) <= x as int,
            r <= 63,
        decreases v,
    {
        proof {
            assert(pow2((r + 1) as nat) == 2 * pow2(r as nat)) by {
                vstd::arithmetic::power2::lemma_pow2_adds(r as nat, 1);
                lemma2_to64();
            }
            assert((v as int / 2) * (2 * pow2(r as nat)) <= v as int * pow2(r as nat)) by (nonlinear_arith)
                requires
                    v >= 2,
                    pow2(r as nat) >= 0,
            ;
            // the logarithm can never reach 64 because x fits in 64 bits
            if r >= 63 {
                lemma2_to64();
                assert(pow2(64) <= (v as int / 2) * pow2(64)) by (nonlinear_arith)
                    requires
                        v >= 2,
                        pow2(64) >= 0,
                ;
                assert(false);
            }
        }
        v = v / 2;
        r = r + 1;
    }
    r
}

/// Floor of the base-two logarithm of a 32-bit value.
pub fn log2_32(x: u32) -> (r: usize)
    requires
        x > 0,
    ensures
        r as int == spec_log2(x as int),
        r <= 31,
{
    let r = log2_64(x as u64);
    proof {
        if r > 31 {
            lemma_log2_monotone(x as int, 0xFFFF_FFFF);
            assert(spec_log2(0xFFFF_FFFF) == 31) by {
                reveal_with_fuel(spec_log2, 33);
            }
        }
    }
    r
}

/// Floor of the base-two logarithm of a machine word.
pub fn log2(x: usize) -> (r: usize)
    requires
        x > 0,
    ensures
        r as int == spec_log2(x as int),
{
    log2_64(x as u64)
}

} // verus!
