//! The fluent move builder: accumulates an ordered list of moves against a
//! source board, offers combinators that duplicate the list under a
//! transform (rotation, mirroring, scaled repetition), and reduces it in
//! one pass into a result board.

use crate::board::BitBoard;
use crate::moves::{lemma_scale_ok_mono, move_dx, move_dy, scale_ok, spec_mirror, spec_rotate,
    spec_scale, Move, Rotation};
use crate::shift::shift_grid;
use vstd::prelude::*;

verus! {

/// The union of two views of the same length, cell by cell.
pub open spec fn or_grid(a: Seq<bool>, b: Seq<bool>) -> Seq<bool> {
    Seq::new(a.len(), |i: int| a[i] || b[i])
}

/// The OR-accumulated reduction: every move shifts the frozen source board
/// and the shifted copies are unioned, starting from the all-clear grid.
pub open spec fn collect_combined(src: Seq<bool>, n: nat, ms: Seq<Move>) -> Seq<bool>
    decreases ms.len(),
{
    if ms.len() == 0 {
        Seq::new(src.len(), |i: int| false)
    } else {
        or_grid(
            collect_combined(src, n, ms.drop_last()),
            shift_grid(src, n, move_dx(ms.last()), move_dy(ms.last())),
        )
    }
}

/// The chained reduction: the moves displace one running board in turn.
pub open spec fn collect_chained(src: Seq<bool>, n: nat, ms: Seq<Move>) -> Seq<bool>
    decreases ms.len(),
{
    if ms.len() == 0 {
        src
    } else {
        shift_grid(
            collect_chained(src, n, ms.drop_last()),
            n,
            move_dx(ms.last()),
            move_dy(ms.last()),
        )
    }
}

/// The scaled copies of one move: magnitudes multiplied by 1 up to `i`.
pub open spec fn scaled_copies(m: Move, i: usize) -> Seq<Move> {
    Seq::new(i as nat, |k: int| spec_scale(m, (k + 1) as usize))
}

/// The scaled block that `repeat` prepends: for each move of the list in
/// order, its copies at every factor from 1 to `i`.
pub open spec fn repeat_block(ms: Seq<Move>, i: usize) -> Seq<Move>
    decreases ms.len(),
{
    if ms.len() == 0 {
        Seq::empty()
    } else {
        repeat_block(ms.drop_last(), i) + scaled_copies(ms.last(), i)
    }
}

/// An ordered list of moves held against a source board, waiting to be
/// reduced. In combine mode the reduction unions individually shifted
/// copies of the source; otherwise the moves chain on one running board.
pub struct Moves {
    pub(crate) from: BitBoard,
    pub(crate) moves: Vec<Move>,
    pub(crate) combine: bool,
}

impl Moves {
    /// The source board the moves will apply to.
    pub open(crate) spec fn src(&self) -> BitBoard {
        self.from
    }

    /// The accumulated moves, oldest first.
    pub open(crate) spec fn move_list(&self) -> Seq<Move> {
        self.moves@
    }

    /// Whether the reduction unions shifted copies of the frozen source.
    pub open(crate) spec fn combine_mode(&self) -> bool {
        self.combine
    }

    /// The builder is usable: its source board satisfies the invariant.
    pub open spec fn wf(&self) -> bool {
        self.src().wf()
    }

    /// A builder over `from` with no moves yet; `combine` picks the
    /// reduction mode of the eventual `collect`.
    pub fn new(from: BitBoard, combine: bool) -> (r: Moves)
        requires
            from.wf(),
        ensures
            r.wf(),
            r.src() == from,
            r.move_list() == Seq::<Move>::empty(),
            r.combine_mode() == combine,
    {
        let r = Moves { from, moves: Vec::new(), combine };
        proof {
            assert(r.move_list() =~= Seq::<Move>::empty());
        }
        r
    }

    /// Appends one move to the sequence.
    pub fn translate(self, m: Move) -> (r: Moves)
        ensures
            r.src() == self.src(),
            r.combine_mode() == self.combine_mode(),
            r.move_list() == self.move_list().push(m),
    {
        let mut s = self;
        s.moves.push(m);
        s
    }

    /// Appends an upward move of `i` cells.
    pub fn up(self, i: usize) -> (r: Moves)
        ensures
            r.src() == self.src(),
            r.combine_mode() == self.combine_mode(),
            r.move_list() == self.move_list().push(Move::Up(i)),
    {
        self.translate(Move::Up(i))
    }

    /// Appends a downward move of `i` cells.
    pub fn down(self, i: usize) -> (r: Moves)
        ensures
            r.src() == self.src(),
            r.combine_mode() == self.combine_mode(),
            r.move_list() == self.move_list().push(Move::Down(i)),
    {
        self.translate(Move::Down(i))
    }

    /// Appends a leftward move of `i` cells.
    pub fn left(self, i: usize) -> (r: Moves)
        ensures
            r.src() == self.src(),
            r.combine_mode() == self.combine_mode(),
            r.move_list() == self.move_list().push(Move::Left(i)),
    {
        self.translate(Move::Left(i))
    }

    /// Appends a rightward move of `i` cells.
    pub fn right(self, i: usize) -> (r: Moves)
        ensures
            r.src() == self.src(),
            r.combine_mode() == self.combine_mode(),
            r.move_list() == self.move_list().push(Move::Right(i)),
    {
        self.translate(Move::Right(i))
    }

    /// Appends a diagonal move of `i` cells up and `j` cells left.
    pub fn upleft(self, i: usize, j: usize) -> (r: Moves)
        ensures
            r.src() == self.src(),
            r.combine_mode() == self.combine_mode(),
            r.move_list() == self.move_list().push(Move::UpLeft(i, j)),
    {
        self.translate(Move::UpLeft(i, j))
    }

    /// Appends a diagonal move of `i` cells up and `j` cells right.
    pub fn upright(self, i: usize, j: usize) -> (r: Moves)
        ensures
            r.src() == self.src(),
            r.combine_mode() == self.combine_mode(),
            r.move_list() == self.move_list().push(Move::UpRight(i, j)),
    {
        self.translate(Move::UpRight(i, j))
    }

    /// Appends a diagonal move of `i` cells down and `j` cells left.
    pub fn downleft(self, i: usize, j: usize) -> (r: Moves)
        ensures
            r.src() == self.src(),
            r.combine_mode() == self.combine_mode(),
            r.move_list() == self.move_list().push(Move::DownLeft(i, j)),
    {
        self.translate(Move::DownLeft(i, j))
    }

    /// Appends a diagonal move of `i` cells down and `j` cells right.
    pub fn downright(self, i: usize, j: usize) -> (r: Moves)
        ensures
            r.src() == self.src(),
            r.combine_mode() == self.combine_mode(),
            r.move_list() == self.move_list().push(Move::DownRight(i, j)),
    {
        self.translate(Move::DownRight(i, j))
    }

    /// Appends the identity move, which keeps the source pattern itself in
    /// an OR-accumulated result.
    pub fn identity(self) -> (r: Moves)
        ensures
            r.src() == self.src(),
            r.combine_mode() == self.combine_mode(),
            r.move_list() == self.move_list().push(Move::Identity),
    {
        self.translate(Move::Identity)
    }

    /// For every move currently in the sequence, prepends its copies scaled
    /// by every factor from 1 to `i`, keeping the originals at the end.
    pub fn repeat(self, i: usize) -> (r: Moves)
        requires
            forall|k: int| 0 <= k < self.move_list().len() ==> scale_ok(#[trigger] self.move_list()[k], i),
        ensures
            r.src() == self.src(),
            r.combine_mode() == self.combine_mode(),
            r.move_list() == repeat_block(self.move_list(), i) + self.move_list(),
    {
        let ghost orig = self.moves@;
        let mut new: Vec<Move> = Vec::new();
        let mut a: usize = 0;
        proof {
            assert(new@ =~= repeat_block(orig.take(0), i));
            assert forall|k: int| 0 <= k < orig.len() implies scale_ok(#[trigger] orig[k], i) by {
                assert(scale_ok(self.move_list()[k], i));
            }
        }
        while a < self.moves.len()
            invariant
                a <= self.moves@.len(),
                self.moves@ == orig,
                forall|k: int| 0 <= k < orig.len() ==> scale_ok(#[trigger] orig[k], i),
                new@ == repeat_block(orig.take(a as int), i),
            decreases self.moves@.len() - a,
        {
            let m = self.moves[a];
            let ghost before = new@;
            let mut k: usize = 0;
            while k < i
                invariant
                    k <= i,
                    a < self.moves@.len(),
                    self.moves@ == orig,
                    m == orig[a as int],
                    forall|t: int| 0 <= t < orig.len() ==> scale_ok(#[trigger] orig[t], i),
                    new@ == before + scaled_copies(m, i).take(k as int),
                decreases i - k,
            {
                proof {
                    lemma_scale_ok_mono(m, (k + 1) as usize, i);
                }
                new.push(m.scale(k + 1));
                proof {
                    assert(scaled_copies(m, i)[k as int] == spec_scale(m, (k + 1) as usize));
                    assert(new@ =~= before + scaled_copies(m, i).take(k + 1 as int));
                }
                k = k + 1;
            }
            proof {
                assert(scaled_copies(m, i).take(i as int) =~= scaled_copies(m, i));
                assert(orig.take(a + 1 as int).drop_last() =~= orig.take(a as int));
                assert(orig.take(a + 1 as int).last() == orig[a as int]);
                assert(repeat_block(orig.take(a + 1 as int), i) == repeat_block(
                    orig.take(a as int),
                    i,
                ) + scaled_copies(m, i));
            }
            a = a + 1;
        }
        proof {
            assert(orig.take(orig.len() as int) =~= orig);
        }
        let mut s = self;
        let mut t: usize = 0;
        let orig_len = s.moves.len();
        while t < orig_len
            invariant
                t <= orig_len,
                orig_len == s.moves@.len(),
                s.from == self.src(),
                s.combine == self.combine_mode(),
                s.moves@ == orig,
                new@ == repeat_block(orig, i) + orig.take(t as int),
            decreases orig_len - t,
        {
            new.push(s.moves[t]);
            proof {
                assert(new@ =~= repeat_block(orig, i) + orig.take(t + 1 as int));
            }
            t = t + 1;
        }
        proof {
            assert(orig.take(orig.len() as int) =~= orig);
        }
        s.moves = new;
        s
    }

    /// For every move currently in the sequence, appends its quarter-turn
    /// under `r`, doubling the sequence and keeping the originals first.
    pub fn rotate(self, r: Rotation) -> (res: Moves)
        ensures
            res.src() == self.src(),
            res.combine_mode() == self.combine_mode(),
            res.move_list() == self.move_list() + Seq::new(
                self.move_list().len(),
                |k: int| spec_rotate(self.move_list()[k], r),
            ),
    {
        let ghost orig = self.moves@;
        let mut s = self;
        let len0 = s.moves.len();
        let mut k: usize = 0;
        while k < len0
            invariant
                k <= len0,
                len0 == orig.len(),
                s.from == self.src(),
                s.combine == self.combine_mode(),
                s.moves@.len() == orig.len() + k,
                forall|t: int| 0 <= t < orig.len() ==> s.moves@[t] == orig[t],
                forall|t: int|
                    0 <= t < k ==> s.moves@[orig.len() + t] == spec_rotate(#[trigger] orig[t], r),
            decreases len0 - k,
        {
            let m = s.moves[k];
            s.moves.push(m.rotate(r));
            k = k + 1;
        }
        proof {
            assert(s.moves@ =~= orig + Seq::new(orig.len(), |t: int| spec_rotate(orig[t], r)));
        }
        s
    }

    /// For every move currently in the sequence, appends its mirror image,
    /// doubling the sequence and keeping the originals first.
    pub fn mirror(self) -> (res: Moves)
        ensures
            res.src() == self.src(),
            res.combine_mode() == self.combine_mode(),
            res.move_list() == self.move_list() + Seq::new(
                self.move_list().len(),
                |k: int| spec_mirror(self.move_list()[k]),
            ),
    {
        let ghost orig = self.moves@;
        let mut s = self;
        let len0 = s.moves.len();
        let mut k: usize = 0;
        while k < len0
            invariant
                k <= len0,
                len0 == orig.len(),
                s.from == self.src(),
                s.combine == self.combine_mode(),
                s.moves@.len() == orig.len() + k,
                forall|t: int| 0 <= t < orig.len() ==> s.moves@[t] == orig[t],
                forall|t: int|
                    0 <= t < k ==> s.moves@[orig.len() + t] == spec_mirror(#[trigger] orig[t]),
            decreases len0 - k,
        {
            let m = s.moves[k];
            s.moves.push(m.mirror());
            k = k + 1;
        }
        proof {
            assert(s.moves@ =~= orig + Seq::new(orig.len(), |t: int| spec_mirror(orig[t])));
        }
        s
    }

    /// Reduces the builder: in combine mode, each accumulated move shifts
    /// the frozen source board and the shifted copies are OR-accumulated
    /// into one result; otherwise the moves displace a single running copy
    /// of the source in order. The builder is consumed.
    pub fn collect(self) -> (r: BitBoard)
        requires
            self.wf(),
        ensures
            r.wf(),
            r.side() == self.src().side(),
            r.width() == self.src().width(),
            self.combine_mode() ==> r@ == collect_combined(
                self.src()@,
                self.src().side(),
                self.move_list(),
            ),
            !self.combine_mode() ==> r@ == collect_chained(
                self.src()@,
                self.src().side(),
                self.move_list(),
            ),
    {
        let ghost ms = self.moves@;
        let ghost srcv = self.from@;
        let ghost n = self.from.side();
        if self.combine {
            let mut result = BitBoard::empty(self.from.n, self.from.w);
            proof {
                assert(result@ =~= collect_combined(srcv, n, ms.take(0)));
            }
            let mut k: usize = 0;
            while k < self.moves.len()
                invariant
                    k <= self.moves@.len(),
                    self.moves@ == ms,
                    self.from@ == srcv,
                    self.from.wf(),
                    n == self.from.side(),
                    result.wf(),
                    result.side() == self.from.side(),
                    result.width() == self.from.width(),
                    result@ == collect_combined(srcv, n, ms.take(k as int)),
                decreases self.moves@.len() - k,
            {
                let shifted = self.from.shl(self.moves[k]);
                let ghost prev = result@;
                result.bitor_assign(&shifted);
                proof {
                    assert(ms.take(k + 1 as int).drop_last() =~= ms.take(k as int));
                    assert(ms.take(k + 1 as int).last() == ms[k as int]);
                    assert(result@ =~= or_grid(prev, shifted@));
                    assert(result@ == collect_combined(srcv, n, ms.take(k + 1 as int)));
                }
                k = k + 1;
            }
            proof {
                assert(ms.take(ms.len() as int) =~= ms);
            }
            result
        } else {
            let mut result = self.from;
            let mut k: usize = 0;
            proof {
                assert(result@ == collect_chained(srcv, n, self.moves@.take(0)));
            }
            while k < self.moves.len()
                invariant
                    k <= self.moves@.len(),
                    self.moves@ == ms,
                    result.wf(),
                    result.side() == n,
                    result.width() == self.src().width(),
                    result@ == collect_chained(srcv, n, ms.take(k as int)),
                decreases self.moves@.len() - k,
            {
                result.shl_assign(self.moves[k]);
                proof {
                    assert(ms.take(k + 1 as int).drop_last() =~= ms.take(k as int));
                    assert(ms.take(k + 1 as int).last() == ms[k as int]);
                }
                k = k + 1;
            }
            proof {
                assert(ms.take(ms.len() as int) =~= ms);
            }
            result
        }
    }
}

impl BitBoard {
    /// A builder over a copy of this board, reducing by OR-accumulation:
    /// the typical way to generate every square a pattern can reach.
    pub fn moves(&self) -> (r: Moves)
        requires
            self.wf(),
        ensures
            r.wf(),
            r.src()@ == self@,
            r.src().side() == self.side(),
            r.src().width() == self.width(),
            r.move_list() == Seq::<Move>::empty(),
            r.combine_mode(),
    {
        Moves::new(self.clone(), true)
    }

    /// A builder over a fresh board of shape (`n`, `w`) with a single cell
    /// set at (x, y), reducing by OR-accumulation.
    pub fn make_moves_from(n: usize, w: usize, x: usize, y: usize) -> (r: Moves)
        requires
            crate::board::valid_shape(n, w),
        ensures
            r.wf(),
            r.src().side() == n,
            r.src().width() == w,
            forall|a: usize, b: usize|
                a < n && b < n ==> #[trigger] r.src().spec_is_set(a, b) == (a == x && b == y),
            r.move_list() == Seq::<Move>::empty(),
            r.combine_mode(),
    {
        let mut bb = BitBoard::empty(n, w);
        bb.set(x, y);
        proof {
            assert forall|a: usize, b: usize| a < n && b < n implies #[trigger] bb.spec_is_set(
                a,
                b,
            ) == (a == x && b == y) by {
                let ni = n as int;
                assert((a as int) + (b as int) * ni < ni * ni) by (nonlinear_arith)
                    requires
                        0 <= (a as int) < ni,
                        0 <= (b as int) < ni,
                ;
                if x < n && y < n {
                    assert((x as int) + (y as int) * ni < ni * ni) by (nonlinear_arith)
                        requires
                            0 <= (x as int) < ni,
                            0 <= (y as int) < ni,
                    ;
                    if a == x && b == y {
                    } else {
                        assert((a as int) + (b as int) * ni != (x as int) + (y as int) * ni) by {
                            if (a as int) + (b as int) * ni == (x as int) + (y as int) * ni {
                                crate::grid::lemma_pos_parts(b as int, a as int, ni);
                                crate::grid::lemma_pos_parts(y as int, x as int, ni);
                            }
                        }
                    }
                }
            }
        }
        Moves::new(bb, true)
    }
}

} // verus!
