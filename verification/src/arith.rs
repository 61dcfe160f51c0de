//! Small arithmetic helpers shared by the coordinate algebra and the store:
//! executable powers of two with their `pow2` specifications.

use vstd::prelude::*;
use vstd::arithmetic::power2::{
    pow2, lemma_pow2_adds, lemma_pow2_strictly_increases, lemma_pow2_pos, lemma2_to64,
    lemma2_to64_rest,
};

verus! {

/// `pow2(62)` fits in an `i64`, so every power up to it is exactly
/// representable as a (positive) signed machine integer.
pub proof fn lemma_pow2_le_max(e: nat)
    requires
        e <= 62,
    ensures
        pow2(e) < 0x8000_0000_0000_0000nat,
{
    if e < 63 {
        lemma_pow2_strictly_increases(e, 63);
    }
    lemma2_to64_rest();
}

pub proof fn lemma_pow2_le(e1: nat, e2: nat)
    requires
        e1 <= e2,
    ensures
        pow2(e1) <= pow2(e2),
{
    if e1 < e2 {
        lemma_pow2_strictly_increases(e1, e2);
    }
}

pub proof fn lemma_pow2_double(e: nat)
    ensures
        pow2(e + 1) == 2 * pow2(e),
{
    lemma_pow2_adds(e, 1);
    lemma2_to64();
}

pub proof fn lemma_pow2_pos_any(e: nat)
    ensures
        pow2(e) >= 1,
{
    lemma_pow2_pos(e);
}

/// `2^e` as a non-negative `i64`, for exponents small enough to fit.
pub fn pow2_i64(e: usize) -> (r: i64)
    requires
        e <= 62,
    ensures
        r == pow2(e as nat),
        r >= 1,
{
    let mut r: i64 = 1;
    let mut i: usize = 0;
    proof {
        lemma2_to64();
    }
    while i < e
        invariant
            i <= e,
            e <= 62,
            r == pow2(i as nat),
            r >= 1,
        decreases e - i,
    {
        proof {
            lemma_pow2_double(i as nat);
            lemma_pow2_le_max((i + 1) as nat);
        }
        r = r * 2;
        i = i + 1;
    }
    r
}

/// `2^e` as a `u64`, for exponents small enough to fit.
pub fn pow2_u64(e: usize) -> (r: u64)
    requires
        e <= 63,
    ensures
        r == pow2(e as nat),
        r >= 1,
{
    let mut r: u64 = 1;
    let mut i: usize = 0;
    proof {
        lemma2_to64();
        lemma2_to64_rest();
    }
    while i < e
        invariant
            i <= e,
            e <= 63,
            r == pow2(i as nat),
            r >= 1,
        decreases e - i,
    {
        proof {
            lemma_pow2_double(i as nat);
            if ((i + 1) as nat) < 63 {
                lemma_pow2_strictly_increases((i + 1) as nat, 63);
            }
            lemma2_to64_rest();
        }
        r = r * 2;
        i = i + 1;
    }
    r
}

} // verus!
