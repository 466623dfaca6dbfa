//! Population count and low-bit masks on 64-bit words.

use vstd::arithmetic::power2::pow2;
use vstd::prelude::*;

verus! {

/// The number of bits set in `w`.
pub open spec fn popcount(w: u64) -> nat
    decreases w,
{
    if w == 0 {
        0
    } else {
        (w % 2) as nat + popcount(w / 2)
    }
}

/// `w` with every bit at position `k` or above cleared; `w` itself when `k >= 64`.
pub open spec fn low_bits(w: u64, k: u32) -> u64 {
    if k >= 64 {
        w
    } else {
        w & (((1u64 << k) - 1) as u64)
    }
}

/// A word below `2^k` has at most `k` bits set.
pub proof fn lemma_popcount_below_pow2(w: u64, k: nat)
    requires
        (w as nat) < pow2(k),
    ensures
        popcount(w) <= k,
    decreases k,
{
    if w != 0 {
        assert(k > 0) by {
            if k == 0 {
                vstd::arithmetic::power2::lemma2_to64();
            }
        }
        vstd::arithmetic::power2::lemma_pow2_unfold(k);
        lemma_popcount_below_pow2(w / 2, (k - 1) as nat);
    }
}

/// Every word has at most 64 bits set.
pub proof fn lemma_popcount_le_64(w: u64)
    ensures
        popcount(w) <= 64,
{
    vstd::arithmetic::power2::lemma2_to64_rest();
    lemma_popcount_below_pow2(w, 64);
}

/// What survives the mask lies below `2^k`.
pub proof fn lemma_low_bits_below(w: u64, k: u32)
    requires
        k < 64,
    ensures
        (low_bits(w, k) as nat) < pow2(k as nat),
{
    assert(w & (((1u64 << k) - 1) as u64) < (1u64 << k)) by (bit_vector)
        requires
            k < 64,
    ;
    vstd::bits::lemma_u64_pow2_no_overflow(k as nat);
    vstd::bits::lemma_u64_shl_is_mul(1, k as u64);
}

/// Relies on `u64::count_ones`: the number of ones in the binary representation.
#[verifier::external_body]
pub(crate) fn count_ones(w: u64) -> (r: u32)
    ensures
        r as nat == popcount(w),
{
    w.count_ones()
}

/// Keeps the low `k` bits of `w` (all of them when `k >= 64`).
pub fn keep_low_bits(w: u64, k: u32) -> (r: u64)
    ensures
        r == low_bits(w, k),
{
    if k >= 64 {
        w
    } else {
        assert(1u64 << k >= 1) by (bit_vector)
            requires
                k < 64,
        ;
        w & ((1u64 << k) - 1)
    }
}

} // verus!
