//! Bit-level model of a storage block: a `u64` of which only the low `w`
//! bits are in use, for a block width `w` between 1 and 64.

use vstd::prelude::*;

verus! {

/// Bit `j` of the 64-bit block `b`.
pub open spec fn nth_bit(b: u64, j: u64) -> bool
    recommends
        j < 64,
{
    (b >> j) & 1u64 == 1u64
}

/// `b` uses only its low `w` bits: every higher bit is clear.
pub open spec fn fits(b: u64, w: nat) -> bool {
    forall|j: u64| w <= j < 64 ==> !(#[trigger] nth_bit(b, j))
}

/// The all-zero block has no bit set.
pub proof fn lemma_zero_bit(j: u64)
    by (bit_vector)
    ensures
        !nth_bit(0u64, j),
{
}

/// Bitwise or sets exactly the bits set on either side.
pub proof fn lemma_or_bit(a: u64, b: u64, j: u64)
    by (bit_vector)
    ensures
        nth_bit(a | b, j) == (nth_bit(a, j) || nth_bit(b, j)),
{
}

/// Bitwise and sets exactly the bits set on both sides.
pub proof fn lemma_and_bit(a: u64, b: u64, j: u64)
    by (bit_vector)
    ensures
        nth_bit(a & b, j) == (nth_bit(a, j) && nth_bit(b, j)),
{
}

/// Bitwise xor sets exactly the bits set on one side only.
pub proof fn lemma_xor_bit(a: u64, b: u64, j: u64)
    by (bit_vector)
    ensures
        nth_bit(a ^ b, j) == (nth_bit(a, j) != nth_bit(b, j)),
{
}

/// Complement flips every bit.
pub proof fn lemma_not_bit(a: u64, j: u64)
    by (bit_vector)
    requires
        j < 64,
    ensures
        nth_bit(!a, j) == !nth_bit(a, j),
{
}

/// A left shift moves every bit up by `s` places and clears the low `s` bits.
pub proof fn lemma_shl_bit(b: u64, s: u64, j: u64)
    by (bit_vector)
    requires
        s < 64,
        j < 64,
    ensures
        j >= s ==> nth_bit(b << s, j) == nth_bit(b, (j - s) as u64),
        j < s ==> !nth_bit(b << s, j),
{
}

/// A right shift moves every bit down by `s` places and clears the high bits.
pub proof fn lemma_shr_bit(b: u64, s: u64, j: u64)
    by (bit_vector)
    requires
        s < 64,
        j < 64,
    ensures
        j + s < 64 ==> nth_bit(b >> s, j) == nth_bit(b, (j + s) as u64),
        j + s >= 64 ==> !nth_bit(b >> s, j),
{
}

/// `1 << k` has exactly bit `k` set.
pub proof fn lemma_single_bit(k: u64, j: u64)
    by (bit_vector)
    requires
        k < 64,
    ensures
        nth_bit(1u64 << k, j) == (j == k),
{
}

/// Characterizes the mask with exactly the low `w` bits set.
proof fn lemma_mask_bits(w: u64, m: u64, j: u64)
    by (bit_vector)
    requires
        1 <= w <= 64,
        w < 64 ==> m == (1u64 << w) - 1,
        w == 64 ==> m == 0xffff_ffff_ffff_ffffu64,
    ensures
        nth_bit(m, j) == (j < w),
{
}

/// The mask with exactly the low `w` bits set.
pub fn block_mask(w: usize) -> (m: u64)
    requires
        1 <= w <= 64,
    ensures
        forall|j: u64| #[trigger] nth_bit(m, j) == (j < w),
{
    let m: u64 = if w == 64 {
        u64::MAX
    } else {
        let one_high = 1u64 << (w as u64);
        proof {
            let wv = w as u64;
            assert(wv < 64 ==> 1u64 << wv >= 1) by (bit_vector);
        }
        one_high - 1
    };
    proof {
        assert forall|j: u64| #[trigger] nth_bit(m, j) == (j < w) by {
            lemma_mask_bits(w as u64, m, j);
        }
    }
    m
}

/// The number of set bits among the low `k` bits of `b`.
pub open spec fn count_bits(b: u64, k: nat) -> nat
    recommends
        k <= 64,
    decreases k,
{
    if k == 0 {
        0
    } else {
        count_bits(b, (k - 1) as nat) + if nth_bit(b, (k - 1) as u64) {
            1nat
        } else {
            0nat
        }
    }
}

/// When `b` fits in `w` bits, counting past bit `w` adds nothing.
pub proof fn lemma_count_bits_high_zero(b: u64, w: nat, k: nat)
    requires
        fits(b, w),
        w <= k <= 64,
    ensures
        count_bits(b, k) == count_bits(b, w),
    decreases k,
{
    if k > w {
        lemma_count_bits_high_zero(b, w, (k - 1) as nat);
    }
}

/// A bit count never exceeds the number of bits counted.
pub proof fn lemma_count_bits_le(b: u64, k: nat)
    ensures
        count_bits(b, k) <= k,
    decreases k,
{
    if k > 0 {
        lemma_count_bits_le(b, (k - 1) as nat);
    }
}

/// A block other than zero has at least one set bit.
pub proof fn lemma_nonzero_has_bit(b: u64)
    requires
        b != 0,
    ensures
        exists|j: u64| j < 64 && nth_bit(b, j),
    decreases b,
{
    if b & 1 == 1 {
        assert(nth_bit(b, 0)) by (bit_vector)
            requires
                b & 1 == 1,
        ;
        assert(0u64 < 64 && nth_bit(b, 0u64));
    } else {
        assert(b >> 1 != 0 && b >> 1 < b) by (bit_vector)
            requires
                b != 0 && b & 1 != 1,
        ;
        lemma_nonzero_has_bit(b >> 1);
        let j = choose|j: u64| j < 64 && nth_bit(b >> 1, j);
        if j < 63 {
            lemma_shr_bit(b, 1, j);
            assert(((j + 1) as u64) < 64 && nth_bit(b, (j + 1) as u64));
        } else {
            assert(!nth_bit(b >> 1, 63u64)) by (bit_vector);
        }
    }
}

/// Population count of one block.
pub fn popcount(b: u64) -> (c: usize)
    ensures
        c == count_bits(b, 64),
{
    let mut c: usize = 0;
    let mut j: usize = 0;
    while j < 64
        invariant
            j <= 64,
            c == count_bits(b, j as nat),
            c <= j,
        decreases 64 - j,
    {
        if (b >> (j as u64)) & 1 == 1 {
            c = c + 1;
        }
        j = j + 1;
    }
    c
}

} // verus!
