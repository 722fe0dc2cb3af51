//! Block-wise bitwise combination of two boards of identical shape.

use crate::bits::{fits, lemma_and_bit, lemma_or_bit, lemma_xor_bit, nth_bit};
use crate::board::BitBoard;
use crate::grid::{lemma_pos_in_block, lemma_pos_parts, seq_bit};
use vstd::prelude::*;

verus! {

/// One of the three block-wise combinations.
#[derive(Clone, Copy, PartialEq, Eq, Structural, Debug)]
enum BitOp {
    And,
    Or,
    Xor,
}

/// The cell-level meaning of a combination.
spec fn bit_op(op: BitOp, a: bool, b: bool) -> bool {
    match op {
        BitOp::And => a && b,
        BitOp::Or => a || b,
        BitOp::Xor => a != b,
    }
}

impl BitBoard {
    /// Combines the receiver block by block with a board of the same shape.
    fn combine_assign(&mut self, rhs: &BitBoard, op: BitOp)
        requires
            old(self).wf(),
            rhs.wf(),
            old(self).side() == rhs.side(),
            old(self).width() == rhs.width(),
        ensures
            final(self).wf(),
            final(self).side() == old(self).side(),
            final(self).width() == old(self).width(),
            final(self)@.len() == old(self)@.len(),
            forall|p: int|
                0 <= p < old(self)@.len() ==> #[trigger] final(self)@[p] == bit_op(
                    op,
                    old(self)@[p],
                    rhs@[p],
                ),
    {
        let w = self.w;
        let n = self.n;
        let len = self.blocks.len();
        let ghost g0 = self.blocks@;
        let ghost wn = w as nat;
        proof {
            crate::sizes::lemma_ceil_div((n * n) as nat, wn);
            assert(rhs.blocks@.len() == len);
        }
        let mut i: usize = 0;
        while i < len
            invariant
                self.storage_ok(),
                self.n == n,
                self.w == w,
                len == self.blocks@.len(),
                rhs.wf(),
                rhs.n == n,
                rhs.w == w,
                rhs.blocks@.len() == len,
                g0.len() == len,
                wn == w as nat,
                (len as int) * (w as int) <= usize::MAX,
                forall|k: int| 0 <= k < len ==> fits(#[trigger] g0[k], w as nat),
                forall|k: int| i <= k < len ==> self.blocks@[k] == g0[k],
                i <= len,
                forall|p: nat|
                    p < i * w ==> #[trigger] seq_bit(self.blocks@, w as nat, p) == bit_op(
                        op,
                        seq_bit(g0, w as nat, p),
                        seq_bit(rhs.blocks@, w as nat, p),
                    ),
            decreases len - i,
        {
            let a = self.blocks[i];
            let b = rhs.blocks[i];
            let nb: u64 = match op {
                BitOp::And => a & b,
                BitOp::Or => a | b,
                BitOp::Xor => a ^ b,
            };
            let ghost prev_blocks = self.blocks@;
            self.blocks.set(i, nb);
            proof {
                let wi = w as int;
                let ii = i as int;
                assert forall|j: u64| j < 64 implies #[trigger] nth_bit(nb, j) == bit_op(
                    op,
                    nth_bit(a, j),
                    nth_bit(b, j),
                ) by {
                    lemma_and_bit(a, b, j);
                    lemma_or_bit(a, b, j);
                    lemma_xor_bit(a, b, j);
                }
                assert(fits(g0[ii], wn) && fits(rhs.blocks@[ii], wn));
                assert forall|j: u64| wn <= j < 64 implies !nth_bit(nb, j) by {
                    assert(!nth_bit(a, j) && !nth_bit(b, j));
                }
                assert(((ii + 1) * wi) == ii * wi + wi) by (nonlinear_arith);
                assert forall|p: nat| p < (ii + 1) * wi implies #[trigger] seq_bit(
                    self.blocks@,
                    wn,
                    p,
                ) == bit_op(op, seq_bit(g0, wn, p), seq_bit(rhs.blocks@, wn, p)) by {
                    if p < ii * wi {
                        lemma_pos_in_block(ii, wi, p as int);
                        assert(self.blocks@[(p as int) / wi] == prev_blocks[(p as int) / wi]);
                        assert(seq_bit(self.blocks@, wn, p) == seq_bit(prev_blocks, wn, p));
                    } else {
                        let jj = (p - ii * wi) as int;
                        assert(0 <= jj < wi);
                        lemma_pos_parts(ii, jj, wi);
                        assert(seq_bit(self.blocks@, wn, p) == nth_bit(nb, jj as u64));
                        assert(seq_bit(g0, wn, p) == nth_bit(a, jj as u64));
                        assert(seq_bit(rhs.blocks@, wn, p) == nth_bit(b, jj as u64));
                    }
                }
            }
            i = i + 1;
        }
        proof {
            assert forall|p: nat|
                n * n <= p < self.blocks@.len() * self.width() implies !#[trigger] seq_bit(
                self.blocks@,
                self.width(),
                p,
            ) by {
                assert(seq_bit(self.blocks@, wn, p) == bit_op(
                    op,
                    seq_bit(g0, wn, p),
                    seq_bit(rhs.blocks@, wn, p),
                ));
                assert(!seq_bit(old(self).blocks@, old(self).width(), p));
                assert(!seq_bit(rhs.blocks@, rhs.width(), p));
            }
            assert(self.wf());
            assert forall|p: int| 0 <= p < old(self)@.len() implies #[trigger] self@[p] == bit_op(
                op,
                old(self)@[p],
                rhs@[p],
            ) by {
                assert(seq_bit(self.blocks@, wn, p as nat) == bit_op(
                    op,
                    seq_bit(g0, wn, p as nat),
                    seq_bit(rhs.blocks@, wn, p as nat),
                ));
            }
        }
    }

    /// In-place intersection: keeps exactly the cells set on both boards.
    pub fn bitand_assign(&mut self, rhs: &BitBoard)
        requires
            old(self).wf(),
            rhs.wf(),
            old(self).side() == rhs.side(),
            old(self).width() == rhs.width(),
        ensures
            final(self).wf(),
            final(self).side() == old(self).side(),
            final(self).width() == old(self).width(),
            final(self)@.len() == old(self)@.len(),
            forall|p: int|
                0 <= p < old(self)@.len() ==> #[trigger] final(self)@[p] == (old(self)@[p]
                    && rhs@[p]),
    {
        self.combine_assign(rhs, BitOp::And);
    }

    /// In-place union: keeps the cells set on either board.
    pub fn bitor_assign(&mut self, rhs: &BitBoard)
        requires
            old(self).wf(),
            rhs.wf(),
            old(self).side() == rhs.side(),
            old(self).width() == rhs.width(),
        ensures
            final(self).wf(),
            final(self).side() == old(self).side(),
            final(self).width() == old(self).width(),
            final(self)@.len() == old(self)@.len(),
            forall|p: int|
                0 <= p < old(self)@.len() ==> #[trigger] final(self)@[p] == (old(self)@[p]
                    || rhs@[p]),
    {
        self.combine_assign(rhs, BitOp::Or);
    }

    /// In-place symmetric difference: keeps the cells set on exactly one of
    /// the two boards.
    pub fn bitxor_assign(&mut self, rhs: &BitBoard)
        requires
            old(self).wf(),
            rhs.wf(),
            old(self).side() == rhs.side(),
            old(self).width() == rhs.width(),
        ensures
            final(self).wf(),
            final(self).side() == old(self).side(),
            final(self).width() == old(self).width(),
            final(self)@.len() == old(self)@.len(),
            forall|p: int|
                0 <= p < old(self)@.len() ==> #[trigger] final(self)@[p] == (old(self)@[p]
                    != rhs@[p]),
    {
        self.combine_assign(rhs, BitOp::Xor);
    }

    /// The intersection of two boards of the same shape, as a new board.
    pub fn bitand(&self, rhs: &BitBoard) -> (r: BitBoard)
        requires
            self.wf(),
            rhs.wf(),
            self.side() == rhs.side(),
            self.width() == rhs.width(),
        ensures
            r.wf(),
            r.side() == self.side(),
            r.width() == self.width(),
            r@.len() == self@.len(),
            forall|p: int| 0 <= p < self@.len() ==> #[trigger] r@[p] == (self@[p] && rhs@[p]),
    {
        let mut r = self.clone();
        r.bitand_assign(rhs);
        r
    }

    /// The union of two boards of the same shape, as a new board.
    pub fn bitor(&self, rhs: &BitBoard) -> (r: BitBoard)
        requires
            self.wf(),
            rhs.wf(),
            self.side() == rhs.side(),
            self.width() == rhs.width(),
        ensures
            r.wf(),
            r.side() == self.side(),
            r.width() == self.width(),
            r@.len() == self@.len(),
            forall|p: int| 0 <= p < self@.len() ==> #[trigger] r@[p] == (self@[p] || rhs@[p]),
    {
        let mut r = self.clone();
        r.bitor_assign(rhs);
        r
    }

    /// The symmetric difference of two boards of the same shape, as a new
    /// board.
    pub fn bitxor(&self, rhs: &BitBoard) -> (r: BitBoard)
        requires
            self.wf(),
            rhs.wf(),
            self.side() == rhs.side(),
            self.width() == rhs.width(),
        ensures
            r.wf(),
            r.side() == self.side(),
            r.width() == self.width(),
            r@.len() == self@.len(),
            forall|p: int| 0 <= p < self@.len() ==> #[trigger] r@[p] == (self@[p] != rhs@[p]),
    {
        let mut r = self.clone();
        r.bitxor_assign(rhs);
        r
    }
}

} // verus!
