//! Storage sizing: how many blocks of a given width are needed to hold a
//! board's bits.

use vstd::arithmetic::div_mod::{
    lemma_fundamental_div_mod, lemma_fundamental_div_mod_converse,
};
use vstd::prelude::*;

verus! {

/// The ceiling of `a / b`: the least number of whole units of size `b` that
/// cover `a`.
pub open spec fn ceil_div(a: nat, b: nat) -> nat
    recommends
        b >= 1,
{
    (((a + b - 1) as int) / (b as int)) as nat
}

/// The ceiling of a division equals the floor plus one exactly when the
/// division has a remainder.
pub proof fn lemma_ceil_div(a: nat, b: nat)
    requires
        b >= 1,
    ensures
        ceil_div(a, b) == a / b + if a % b == 0 {
            0nat
        } else {
            1nat
        },
        a <= ceil_div(a, b) * b,
        ceil_div(a, b) * b < a + b,
{
    let q = (a / b) as int;
    let r = (a % b) as int;
    lemma_fundamental_div_mod(a as int, b as int);
    assert((q + 1) * b == q * b + b) by (nonlinear_arith);
    if r == 0 {
        lemma_fundamental_div_mod_converse(a + b - 1, b as int, q, b - 1);
        assert(ceil_div(a, b) * b == q * b);
    } else {
        lemma_fundamental_div_mod_converse(a + b - 1, b as int, q + 1, r - 1);
        assert(ceil_div(a, b) * b == (q + 1) * b);
    }
}

/// Rounds `board_size` (a bit count) up to the next multiple of
/// `block_size_bits`: the number of bits the block storage actually holds.
pub fn required_bits(board_size: usize, block_size_bits: usize) -> (r: usize)
    requires
        block_size_bits >= 1,
        board_size + block_size_bits <= usize::MAX,
    ensures
        r == ceil_div(board_size as nat, block_size_bits as nat) * block_size_bits,
{
    proof {
        let b = block_size_bits as int;
        let q = board_size as int / b;
        lemma_fundamental_div_mod(board_size as int, b);
        lemma_ceil_div(board_size as nat, block_size_bits as nat);
        assert((q + 1) * b == q * b + b) by (nonlinear_arith);
    }
    let remainder = board_size % block_size_bits;
    if remainder == 0 {
        board_size
    } else {
        board_size + (block_size_bits - remainder)
    }
}

/// The number of blocks of `block_size_bits` bits each needed to hold
/// `total_bits` bits: the ceiling of their quotient.
pub fn required_blocks(total_bits: usize, block_size_bits: usize) -> (r: usize)
    requires
        block_size_bits >= 1,
        total_bits + block_size_bits <= usize::MAX,
    ensures
        r == ceil_div(total_bits as nat, block_size_bits as nat),
{
    proof {
        lemma_ceil_div(total_bits as nat, block_size_bits as nat);
    }
    let t = total_bits % block_size_bits;
    if t == 0 {
        total_bits / block_size_bits
    } else {
        total_bits / block_size_bits + 1
    }
}

/// The number of whole bytes needed to hold `bits` bits.
pub fn required_bytes(bits: usize) -> (r: usize)
    requires
        bits + 8 <= usize::MAX,
    ensures
        r == ceil_div(bits as nat, 8),
{
    proof {
        lemma_ceil_div(bits as nat, 8);
    }
    let t = bits % 8;
    if t == 0 {
        bits / 8
    } else {
        bits / 8 + 1
    }
}

} // verus!
