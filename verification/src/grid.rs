//! Positions across a sequence of blocks: bit `p` of the packed storage
//! lives at bit `p % w` of block `p / w`, and counting set bits over
//! positions agrees with counting true cells of the board's view.

use crate::bits::{count_bits, fits, nth_bit};
use vstd::arithmetic::div_mod::{
    lemma_fundamental_div_mod, lemma_fundamental_div_mod_converse,
};
use vstd::prelude::*;

verus! {

/// Bit `p` of a sequence of `w`-bit blocks, counted from bit 0 of block 0.
pub open spec fn seq_bit(blocks: Seq<u64>, w: nat, p: nat) -> bool
    recommends
        1 <= w <= 64,
        p < blocks.len() * w,
{
    nth_bit(blocks[(p / w) as int], (p % w) as u64)
}

/// Position `i * w + j` with `j < w` decomposes into block `i`, offset `j`.
pub proof fn lemma_pos_parts(i: int, j: int, w: int)
    requires
        w >= 1,
        i >= 0,
        0 <= j < w,
    ensures
        (i * w + j) / w == i,
        (i * w + j) % w == j,
{
    lemma_fundamental_div_mod_converse(i * w + j, w, i, j);
}

/// Every position below `blocks.len() * w` falls in a block: its block index
/// is below `blocks.len()` and its offset below `w`.
pub proof fn lemma_pos_in_block(len: int, w: int, p: int)
    requires
        w >= 1,
        len >= 0,
        0 <= p < len * w,
    ensures
        0 <= p / w < len,
        0 <= p % w < w,
{
    lemma_fundamental_div_mod(p, w);
    assert(p / w < len) by (nonlinear_arith)
        requires
            w >= 1,
            0 <= p < len * w,
            p == w * (p / w) + p % w,
            0 <= p % w < w,
    ;
}

/// The number of set bits among positions `0 .. p`.
pub open spec fn count_seq_bits(blocks: Seq<u64>, w: nat, p: nat) -> nat
    decreases p,
{
    if p == 0 {
        0
    } else {
        count_seq_bits(blocks, w, (p - 1) as nat) + if seq_bit(blocks, w, (p - 1) as nat) {
            1nat
        } else {
            0nat
        }
    }
}

/// Counting the first `k` bits of block `i` continues the count of all
/// positions before block `i`.
pub proof fn lemma_count_seq_block(blocks: Seq<u64>, w: nat, i: nat, k: nat)
    requires
        1 <= w <= 64,
        i < blocks.len(),
        k <= w,
    ensures
        count_seq_bits(blocks, w, i * w + k) == count_seq_bits(blocks, w, i * w) + count_bits(
            blocks[i as int],
            k,
        ),
    decreases k,
{
    if k > 0 {
        lemma_count_seq_block(blocks, w, i, (k - 1) as nat);
        lemma_pos_parts(i as int, k - 1, w as int);
        assert(seq_bit(blocks, w, (i * w + k - 1) as nat) == nth_bit(
            blocks[i as int],
            (k - 1) as u64,
        ));
    }
}

/// A count does not change over a range of clear positions.
pub proof fn lemma_count_seq_zero_range(blocks: Seq<u64>, w: nat, a: nat, b: nat)
    requires
        a <= b,
        forall|p: nat| a <= p < b ==> !#[trigger] seq_bit(blocks, w, p),
    ensures
        count_seq_bits(blocks, w, b) == count_seq_bits(blocks, w, a),
    decreases b - a,
{
    if b > a {
        lemma_count_seq_zero_range(blocks, w, a, (b - 1) as nat);
    }
}

/// The number of true cells of a view.
pub open spec fn count_true(s: Seq<bool>) -> nat
    decreases s.len(),
{
    if s.len() == 0 {
        0
    } else {
        count_true(s.drop_last()) + if s.last() {
            1nat
        } else {
            0nat
        }
    }
}

/// A view that mirrors the packed bits position for position has the same
/// count as the packed storage.
pub proof fn lemma_count_true_as_seq_bits(s: Seq<bool>, blocks: Seq<u64>, w: nat)
    requires
        forall|p: int| 0 <= p < s.len() ==> s[p] == seq_bit(blocks, w, p as nat),
    ensures
        count_true(s) == count_seq_bits(blocks, w, s.len() as nat),
    decreases s.len(),
{
    if s.len() > 0 {
        lemma_count_true_as_seq_bits(s.drop_last(), blocks, w);
    }
}

/// Overwriting one cell moves the count by the difference between the new
/// and the old value of that cell.
pub proof fn lemma_count_true_update(s: Seq<bool>, i: int, v: bool)
    requires
        0 <= i < s.len(),
    ensures
        count_true(s.update(i, v)) + (if s[i] {
            1nat
        } else {
            0nat
        }) == count_true(s) + (if v {
            1nat
        } else {
            0nat
        }),
    decreases s.len(),
{
    let u = s.update(i, v);
    if i == s.len() - 1 {
        assert(u.drop_last() =~= s.drop_last());
    } else {
        assert(u.drop_last() =~= s.drop_last().update(i, v));
        lemma_count_true_update(s.drop_last(), i, v);
    }
}

/// A count is zero exactly when no cell is true.
pub proof fn lemma_count_true_zero(s: Seq<bool>)
    ensures
        (count_true(s) == 0) == (forall|p: int| 0 <= p < s.len() ==> !s[p]),
    decreases s.len(),
{
    if s.len() > 0 {
        lemma_count_true_zero(s.drop_last());
        if count_true(s) == 0 {
            assert forall|p: int| 0 <= p < s.len() implies !s[p] by {
                if p < s.len() - 1 {
                    assert(s.drop_last()[p] == s[p]);
                }
            }
        }
    }
}

} // verus!
