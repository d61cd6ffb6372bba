//! Base-two logarithms and powers of two on machine integers.
use crate::bignum::{bit_len, lemma_bit_len_range};
use vstd::arithmetic::power2::{lemma2_to64, lemma_pow2_unfold, pow2};
use vstd::prelude::*;

verus! {

/// `x` is a power of two.
pub open spec fn is_pow2(x: nat) -> bool {
    x > 0 && x == pow2((bit_len(x) - 1) as nat)
}

/// `floor(log2 x)` for `x >= 1`.
pub open spec fn log2_floor(x: nat) -> nat {
    (bit_len(x) - 1) as nat
}

/// The smallest power of two at least `x` (one for `x <= 1`).
pub open spec fn next_pow2(x: nat) -> nat {
    if x <= 1 {
        1
    } else {
        pow2(bit_len((x - 1) as nat))
    }
}

/// The bit length of `x`.
pub fn usize_bit_len(x: usize) -> (r: u32)
    ensures
        r == bit_len(x as nat),
        r <= 64,
{
    let mut v: usize = x;
    let mut r: u32 = 0;
    proof {
        lemma_bit_len_range(x as nat);
        lemma2_to64();
        if bit_len(x as nat) > 64 {
            vstd::arithmetic::power2::lemma_pow2_strictly_increases(64, (bit_len(x as nat) - 1) as nat);
        }
    }
    while v > 0
        invariant
            bit_len(x as nat) == r + bit_len(v as nat),
            bit_len(x as nat) <= 64,
        decreases v,
    {
        v = v / 2;
        r = r + 1;
    }
    r
}

/// `2^k` as a 128-bit number.
pub(crate) fn pow2_u128(k: u32) -> (r: u128)
    requires
        k <= 64,
    ensures
        r == pow2(k as nat),
{
    let mut r: u128 = 1;
    let mut i: u32 = 0;
    proof {
        lemma2_to64();
    }
    while i < k
        invariant
            i <= k <= 64,
            r == pow2(i as nat),
        decreases k - i,
    {
        proof {
            lemma_pow2_unfold((i + 1) as nat);
            if i < 64 {
                vstd::arithmetic::power2::lemma_pow2_strictly_increases(i as nat, 64);
            }
            lemma2_to64();
            vstd::arithmetic::power2::lemma2_to64_rest();
        }
        r = r * 2;
        i = i + 1;
    }
    r
}

/// `floor(log2 x)` for `x >= 1`.
pub fn ilog2_usize(x: usize) -> (r: usize)
    requires
        x >= 1,
    ensures
        r == log2_floor(x as nat),
{
    let b = usize_bit_len(x);
    proof {
        lemma_bit_len_range(x as nat);
    }
    (b - 1) as usize
}

/// Whether `x` is a power of two.
pub fn is_power_of_two_usize(x: usize) -> (r: bool)
    ensures
        r == is_pow2(x as nat),
{
    if x == 0 {
        return false;
    }
    let b = usize_bit_len(x);
    proof {
        lemma_bit_len_range(x as nat);
    }
    let p = pow2_u128(b - 1);
    p == x as u128
}

/// The smallest power of two at least `x`; the result must fit in a `usize`.
pub fn next_power_of_two_usize(x: usize) -> (r: usize)
    requires
        next_pow2(x as nat) <= usize::MAX,
    ensures
        r == next_pow2(x as nat),
{
    if x <= 1 {
        return 1;
    }
    let b = usize_bit_len(x - 1);
    let p = pow2_u128(b);
    p as usize
}


/// The smallest power of two at least `x`, when it fits a `usize`.
pub fn checked_next_power_of_two_usize(x: usize) -> (r: Option<usize>)
    ensures
        r is Some <==> next_pow2(x as nat) <= usize::MAX,
        r matches Some(v) ==> v == next_pow2(x as nat),
{
    if x <= 1 {
        return Some(1);
    }
    let b = usize_bit_len(x - 1);
    let p = pow2_u128(b);
    if p <= usize::MAX as u128 {
        Some(p as usize)
    } else {
        None
    }
}

} // verus!
