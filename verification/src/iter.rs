//! Iteration over a board's coordinates: a restartable cursor that walks
//! the grid in row-major order and yields the coordinates whose cell value
//! matches a chosen polarity.

use crate::board::BitBoard;
use crate::grid::lemma_pos_parts;
use vstd::arithmetic::div_mod::lemma_fundamental_div_mod;
use vstd::prelude::*;

verus! {

/// A cursor over the cells of a board, yielding coordinates whose value
/// equals the chosen polarity, in row-major order.
pub struct BitBoardIter<'a> {
    pub(crate) board: &'a BitBoard,
    pub(crate) set: bool,
    pub(crate) current: usize,
}

impl<'a> BitBoardIter<'a> {
    /// The board being walked.
    pub open(crate) spec fn board_ref(&self) -> BitBoard {
        *self.board
    }

    /// The polarity the cursor matches against.
    pub open(crate) spec fn polarity(&self) -> bool {
        self.set
    }

    /// The next position the cursor will look at.
    pub open(crate) spec fn cursor(&self) -> nat {
        self.current as nat
    }

    /// The cursor is usable: its board satisfies the invariant and the
    /// cursor has not run past the grid.
    pub open spec fn wf(&self) -> bool {
        &&& self.board_ref().wf()
        &&& self.cursor() <= self.board_ref().side() * self.board_ref().side()
    }

    /// Yields the first coordinate at or after the cursor whose cell value
    /// equals the polarity, advancing the cursor past it; `None` once no
    /// cell at or after the cursor matches, leaving the cursor at the end.
    pub fn next(&mut self) -> (r: Option<(usize, usize)>)
        requires
            old(self).wf(),
        ensures
            final(self).wf(),
            final(self).board_ref() == old(self).board_ref(),
            final(self).polarity() == old(self).polarity(),
            match r {
                Some(c) => {
                    let p = final(self).cursor() - 1;
                    &&& old(self).cursor() <= p < old(self).board_ref().side() * old(
                        self,
                    ).board_ref().side()
                    &&& final(self).cursor() == p + 1
                    &&& c.0 == p % (old(self).board_ref().side() as int)
                    &&& c.1 == p / (old(self).board_ref().side() as int)
                    &&& old(self).board_ref()@[p as int] == old(self).polarity()
                    &&& forall|q: int|
                        old(self).cursor() <= q < p ==> old(self).board_ref()@[q] != old(
                            self,
                        ).polarity()
                },
                None => {
                    &&& final(self).cursor() == old(self).board_ref().side() * old(
                        self,
                    ).board_ref().side()
                    &&& forall|q: int|
                        old(self).cursor() <= q < old(self).board_ref().side() * old(
                            self,
                        ).board_ref().side() ==> old(self).board_ref()@[q] != old(self).polarity()
                },
            },
    {
        let n = self.board.side_len();
        let total = n * n;
        while self.current < total
            invariant
                self.board.wf(),
                self.board == old(self).board,
                self.set == old(self).set,
                n == self.board.side(),
                total == n * n,
                old(self).current <= self.current <= total,
                forall|q: int|
                    old(self).current <= q < self.current ==> self.board@[q] != self.set,
            decreases total - self.current,
        {
            let p = self.current;
            let x = p % n;
            let y = p / n;
            proof {
                lemma_fundamental_div_mod(p as int, n as int);
                assert(0 <= (p as int) / (n as int) < n as int) by (nonlinear_arith)
                    requires
                        0 <= (p as int) < (n as int) * (n as int),
                        (p as int) == (n as int) * ((p as int) / (n as int)) + (p as int) % (
                        n as int),
                        0 <= (p as int) % (n as int) < (n as int),
                        (n as int) >= 1,
                ;
                assert((x as int) + (y as int) * (n as int) == p as int) by (nonlinear_arith)
                    requires
                        (p as int) == (n as int) * ((p as int) / (n as int)) + (p as int) % (
                        n as int),
                        (x as int) == (p as int) % (n as int),
                        (y as int) == (p as int) / (n as int),
                ;
            }
            let matches_here = self.board.is_set(x, y) == self.set;
            self.current = p + 1;
            if matches_here {
                return Some((x, y));
            }
        }
        None
    }
}

impl BitBoard {
    /// The board's side length N.
    pub fn side_len(&self) -> (r: usize)
        ensures
            r == self.side(),
    {
        self.n
    }

    /// The board's block width in bits.
    pub fn block_width(&self) -> (r: usize)
        ensures
            r == self.width(),
    {
        self.w
    }

    /// A cursor over this board's cells that yields, in row-major order,
    /// the coordinates whose value equals `set`.
    pub fn positions(&self, set: bool) -> (r: BitBoardIter<'_>)
        requires
            self.wf(),
        ensures
            r.wf(),
            r.board_ref() == *self,
            r.polarity() == set,
            r.cursor() == 0,
    {
        BitBoardIter { board: self, set, current: 0 }
    }
}

} // verus!
