//! Bit primitives over 64-bit words.

use vstd::prelude::*;
use vstd::std_specs::bits::{u64_leading_zeros, u64_trailing_zeros};

verus! {

/// Number of set bits of `x`.
pub open spec fn pop_count(x: u64) -> nat
    decreases x,
{
    if x == 0 {
        0
    } else {
        (x % 2) as nat + pop_count(x / 2)
    }
}

/// Largest number that fits in `k` bits.
spec fn all_ones(k: nat) -> nat
    decreases k,
{
    if k == 0 {
        0
    } else {
        2 * all_ones((k - 1) as nat) + 1
    }
}

proof fn lemma_pop_count_bound(y: u64, k: nat)
    requires
        y <= all_ones(k),
    ensures
        pop_count(y) <= k,
    decreases k,
{
    if y != 0 {
        lemma_pop_count_bound(y / 2, (k - 1) as nat);
    }
}

/// Count trailing zeros in a 64-bit word (64 for zero).
pub fn trailing_zeros(x: u64) -> (r: u32)
    ensures
        r == u64_trailing_zeros(x),
{
    x.trailing_zeros()
}

/// Count leading zeros in a 64-bit word (64 for zero).
pub fn leading_zeros(x: u64) -> (r: u32)
    ensures
        r as int == u64_leading_zeros(x),
{
    x.leading_zeros()
}

/// Count the set bits of a 64-bit word (Hamming weight).
pub fn hamming(x: u64) -> (r: u32)
    ensures
        r as nat == pop_count(x),
{
    proof {
        reveal_with_fuel(all_ones, 65);
        assert(all_ones(64) == 0xffff_ffff_ffff_ffff);
        lemma_pop_count_bound(x, 64);
    }
    let mut y = x;
    let mut c: u32 = 0;
    while y != 0
        invariant
            c + pop_count(y) == pop_count(x),
            pop_count(x) <= 64,
        decreases y,
    {
        c = c + (y % 2) as u32;
        y = y / 2;
    }
    c
}

} // verus!
