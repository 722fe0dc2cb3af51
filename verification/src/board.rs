//! The bitboard itself: an N x N grid of cells packed into `w`-bit blocks,
//! with the invariant that every bit at a position at or beyond N * N in the
//! block storage stays clear.

use crate::bits::{fits, lemma_and_bit, lemma_not_bit, lemma_or_bit,
    lemma_single_bit, lemma_zero_bit, nth_bit, popcount};
use crate::grid::{count_seq_bits, count_true, lemma_count_seq_block,
    lemma_count_seq_zero_range, lemma_count_true_as_seq_bits,
    lemma_count_true_update, lemma_count_true_zero, lemma_pos_in_block,
    lemma_pos_parts, seq_bit};
use crate::sizes::{ceil_div, lemma_ceil_div, required_blocks};
use vstd::prelude::*;

verus! {

/// A block width the board supports: one of the fixed unsigned widths.
pub open spec fn width_ok(w: nat) -> bool {
    w == 8 || w == 16 || w == 32 || w == 64
}

/// A board shape the machine can hold: a positive side whose squared cell
/// count leaves room for one more block.
pub open spec fn valid_shape(n: usize, w: usize) -> bool {
    &&& 1 <= n
    &&& n * n + 64 <= usize::MAX
    &&& width_ok(w as nat)
}

/// A dense set of boolean cells on an N x N grid, packed row-major into
/// blocks of `w` bits each.
#[derive(Debug)]
pub struct BitBoard {
    pub(crate) n: usize,
    pub(crate) w: usize,
    pub(crate) blocks: Vec<u64>,
}

impl BitBoard {
    /// The side length N of the grid.
    pub open(crate) spec fn side(&self) -> nat {
        self.n as nat
    }

    /// The block width in bits.
    pub open(crate) spec fn width(&self) -> nat {
        self.w as nat
    }

    /// The storage shape: a valid board shape, exactly enough blocks for
    /// N * N bits, and every block confined to its low `w` bits.
    pub open(crate) spec fn storage_ok(&self) -> bool {
        &&& valid_shape(self.n, self.w)
        &&& self.blocks@.len() == ceil_div((self.n * self.n) as nat, self.w as nat)
        &&& forall|i: int|
            0 <= i < self.blocks@.len() ==> fits(#[trigger] self.blocks@[i], self.w as nat)
    }

    /// The full invariant: the storage shape holds and every bit at a
    /// position at or beyond N * N is clear (the last-block mask).
    pub open(crate) spec fn wf(&self) -> bool {
        &&& self.storage_ok()
        &&& forall|p: nat|
            self.n * self.n <= p < self.blocks@.len() * self.width() ==> !#[trigger] seq_bit(
                self.blocks@,
                self.width(),
                p,
            )
    }

    /// The board as a row-major sequence of N * N cells: cell (x, y) is
    /// entry x + y * N.
    pub open(crate) spec fn grid(&self) -> Seq<bool> {
        Seq::new((self.n * self.n) as nat, |p: int| seq_bit(self.blocks@, self.width(), p as nat))
    }

    /// Cell (x, y) lies on the board.
    pub open spec fn spec_in_bounds(&self, x: usize, y: usize) -> bool {
        x < self.side() && y < self.side()
    }

    /// Cell (x, y) is set; off-board coordinates count as clear.
    pub open spec fn spec_is_set(&self, x: usize, y: usize) -> bool {
        self.spec_in_bounds(x, y) && self@[x + y * self.side()]
    }
}

impl View for BitBoard {
    type V = Seq<bool>;

    open spec fn view(&self) -> Seq<bool> {
        self.grid()
    }
}

impl BitBoard {
    /// An all-clear board of side `n` with blocks of `w` bits.
    pub fn empty(n: usize, w: usize) -> (r: BitBoard)
        requires
            valid_shape(n, w),
        ensures
            r.wf(),
            r.side() == n,
            r.width() == w,
            r@.len() == n * n,
            forall|p: int| 0 <= p < r@.len() ==> !r@[p],
    {
        let total = n * n;
        let nblocks = required_blocks(total, w);
        let mut blocks: Vec<u64> = Vec::new();
        let mut i: usize = 0;
        while i < nblocks
            invariant
                blocks@.len() == i,
                i <= nblocks,
                forall|k: int| 0 <= k < i ==> blocks@[k] == 0u64,
            decreases nblocks - i,
        {
            blocks.push(0u64);
            i = i + 1;
        }
        let r = BitBoard { n, w, blocks };
        proof {
            lemma_ceil_div((n * n) as nat, w as nat);
            assert forall|j: u64| !nth_bit(0u64, j) by {
                lemma_zero_bit(j);
            }
            assert forall|p: nat| p < r.blocks@.len() * r.width() implies !#[trigger] seq_bit(
                r.blocks@,
                r.width(),
                p,
            ) by {
                lemma_pos_in_block(r.blocks@.len() as int, r.width() as int, p as int);
            }
            assert(r.wf());
            assert forall|p: int| 0 <= p < r@.len() implies !r@[p] by {
                lemma_pos_in_block(r.blocks@.len() as int, r.width() as int, p);
            }
        }
        r
    }

    /// Whether (x, y) lies on the board.
    pub fn in_bounds(&self, x: usize, y: usize) -> (r: bool)
        ensures
            r == self.spec_in_bounds(x, y),
    {
        x < self.n && y < self.n
    }

    /// Whether two boards share side and block width, making them valid
    /// operands for a bitwise combination.
    pub fn same_shape(&self, o: &BitBoard) -> (r: bool)
        ensures
            r == (self.side() == o.side() && self.width() == o.width()),
    {
        self.n == o.n && self.w == o.w
    }

    /// Tests cell (x, y); off-board coordinates read as clear.
    pub fn is_set(&self, x: usize, y: usize) -> (r: bool)
        requires
            self.wf(),
        ensures
            r == self.spec_is_set(x, y),
    {
        if x < self.n && y < self.n {
            let pos = self.linear_pos(x, y);
            let offset = pos / self.w;
            let bit = pos % self.w;
            proof {
                lemma_pos_in_block(self.blocks@.len() as int, self.w as int, pos as int);
            }
            let b = self.blocks[offset];
            (b >> (bit as u64)) & 1 == 1
        } else {
            false
        }
    }

    /// The row-major linearization of an in-bounds coordinate.
    fn linear_pos(&self, x: usize, y: usize) -> (pos: usize)
        requires
            self.wf(),
            self.spec_in_bounds(x, y),
        ensures
            pos == x + y * self.side(),
            pos < self.side() * self.side(),
            pos < self.blocks@.len() * self.width(),
    {
        proof {
            let n = self.n as int;
            let x = x as int;
            let y = y as int;
            assert(x + y * n < n * n) by (nonlinear_arith)
                requires
                    0 <= x < n,
                    0 <= y < n,
            ;
            lemma_ceil_div((self.n * self.n) as nat, self.w as nat);
        }
        x + y * self.n
    }

    /// Sets cell (x, y); off-board coordinates are ignored. A newly set cell
    /// raises the board's count of set cells by exactly one.
    pub fn set(&mut self, x: usize, y: usize)
        requires
            old(self).wf(),
        ensures
            final(self).wf(),
            final(self).side() == old(self).side(),
            final(self).width() == old(self).width(),
            old(self).spec_in_bounds(x, y) ==> final(self)@ == old(self)@.update(
                x + y * old(self).side(),
                true,
            ),
            !old(self).spec_in_bounds(x, y) ==> final(self)@ == old(self)@,
            old(self).spec_in_bounds(x, y) ==> final(self).spec_is_set(x, y),
            old(self).spec_in_bounds(x, y) ==> count_true(final(self)@) == count_true(old(self)@)
                + if old(self).spec_is_set(x, y) {
                0nat
            } else {
                1nat
            },
    {
        if x < self.n && y < self.n {
            let pos = self.linear_pos(x, y);
            let offset = pos / self.w;
            let bit = pos % self.w;
            proof {
                lemma_pos_in_block(self.blocks@.len() as int, self.w as int, pos as int);
            }
            let b = self.blocks[offset];
            let nb = b | (1u64 << (bit as u64));
            self.blocks.set(offset, nb);
            proof {
                assert forall|j: u64| j < 64 implies #[trigger] nth_bit(nb, j) == if j == (pos as int) % (
                self.w as int) {
                    true
                } else {
                    nth_bit(b, j)
                } by {
                    lemma_or_bit(b, 1u64 << (bit as u64), j);
                    lemma_single_bit(bit as u64, j);
                }
                self.lemma_one_block_changed(*old(self), offset as int, pos as int, true);
            }
        }
    }

    /// Clears cell (x, y); off-board coordinates are ignored. Clearing a set
    /// cell lowers the board's count of set cells by exactly one.
    pub fn unset(&mut self, x: usize, y: usize)
        requires
            old(self).wf(),
        ensures
            final(self).wf(),
            final(self).side() == old(self).side(),
            final(self).width() == old(self).width(),
            old(self).spec_in_bounds(x, y) ==> final(self)@ == old(self)@.update(
                x + y * old(self).side(),
                false,
            ),
            !old(self).spec_in_bounds(x, y) ==> final(self)@ == old(self)@,
            !final(self).spec_is_set(x, y),
            old(self).spec_in_bounds(x, y) ==> count_true(final(self)@)
                + if old(self).spec_is_set(x, y) {
                1nat
            } else {
                0nat
            } == count_true(old(self)@),
    {
        if x < self.n && y < self.n {
            let pos = self.linear_pos(x, y);
            let offset = pos / self.w;
            let bit = pos % self.w;
            proof {
                lemma_pos_in_block(self.blocks@.len() as int, self.w as int, pos as int);
            }
            let b = self.blocks[offset];
            let nb = b & !(1u64 << (bit as u64));
            self.blocks.set(offset, nb);
            proof {
                assert forall|j: u64| j < 64 implies #[trigger] nth_bit(nb, j) == if j == (pos as int) % (
                self.w as int) {
                    false
                } else {
                    nth_bit(b, j)
                } by {
                    lemma_and_bit(b, !(1u64 << (bit as u64)), j);
                    lemma_not_bit(1u64 << (bit as u64), j);
                    lemma_single_bit(bit as u64, j);
                }
                self.lemma_one_block_changed(*old(self), offset as int, pos as int, false);
            }
        }
    }

    /// After replacing block `offset` by its old value with bit `pos % w`
    /// forced to `v` and every other bit kept, the board is the old board
    /// with cell `pos` overwritten by `v`.
    proof fn lemma_one_block_changed(&self, prev: BitBoard, offset: int, pos: int, v: bool)
        requires
            prev.wf(),
            self.n == prev.n,
            self.w == prev.w,
            0 <= pos < prev.n * prev.n,
            offset == pos / (prev.w as int),
            self.blocks@.len() == prev.blocks@.len(),
            forall|k: int| 0 <= k < prev.blocks@.len() && k != offset ==> self.blocks@[k]
                == prev.blocks@[k],
            forall|j: u64|
                j < 64 ==> #[trigger] nth_bit(self.blocks@[offset], j) == if j == pos % (
                prev.w as int) {
                    v
                } else {
                    nth_bit(prev.blocks@[offset], j)
                },
        ensures
            self.wf(),
            self@ == prev@.update(pos, v),
            count_true(self@) + (if prev@[pos] {
                1nat
            } else {
                0nat
            }) == count_true(prev@) + (if v {
                1nat
            } else {
                0nat
            }),
    {
        let w = prev.w as nat;
        let wi = prev.w as int;
        let len = prev.blocks@.len() as int;
        lemma_ceil_div((prev.n * prev.n) as nat, w);
        lemma_pos_in_block(len, wi, pos);
        assert(nth_bit(self.blocks@[offset], (pos % wi) as u64) == v);
        assert(seq_bit(self.blocks@, w, pos as nat) == v);
        assert forall|p: nat| p < len * w && p != pos implies #[trigger] seq_bit(
            self.blocks@,
            w,
            p,
        ) == seq_bit(prev.blocks@, w, p) by {
            let pi = p as int;
            lemma_pos_in_block(len, wi, pi);
            if pi / wi == offset {
                lemma_fundamental_both(pi, pos, wi);
                assert(nth_bit(self.blocks@[offset], (pi % wi) as u64) == nth_bit(
                    prev.blocks@[offset],
                    (pi % wi) as u64,
                ));
            }
        }
        assert forall|i: int| 0 <= i < len implies fits(#[trigger] self.blocks@[i], w) by {
            if i == offset {
                assert forall|j: u64| w <= j < 64 implies !nth_bit(self.blocks@[i], j) by {
                    assert(nth_bit(self.blocks@[offset], j) == nth_bit(prev.blocks@[offset], j));
                    assert(fits(prev.blocks@[offset], w));
                }
            } else {
                assert(self.blocks@[i] == prev.blocks@[i]);
                assert(fits(prev.blocks@[i], w));
            }
        }
        assert(w == prev.width() && w == self.width());
        assert forall|p: nat|
            self.n * self.n <= p < len * w implies !#[trigger] seq_bit(self.blocks@, w, p) by {
            assert(seq_bit(self.blocks@, w, p) == seq_bit(prev.blocks@, w, p));
            assert(!seq_bit(prev.blocks@, prev.width(), p));
        }
        assert(self.wf());
        assert forall|p: int| 0 <= p < prev.n * prev.n implies self@[p] == prev@.update(pos, v)[p] by {
            if p != pos {
                assert(seq_bit(self.blocks@, w, p as nat) == seq_bit(prev.blocks@, w, p as nat));
            }
        }
        assert(self@ =~= prev@.update(pos, v));
        lemma_count_true_update(prev@, pos, v);
    }
}

impl BitBoard {
    /// A board of shape (`n`, `w`) with every listed in-bounds cell set;
    /// out-of-bounds entries are silently ignored.
    pub fn new(n: usize, w: usize, initial: Vec<(usize, usize)>) -> (r: BitBoard)
        requires
            valid_shape(n, w),
        ensures
            r.wf(),
            r.side() == n,
            r.width() == w,
            r@.len() == n * n,
            forall|x: usize, y: usize|
                x < n && y < n ==> #[trigger] r.spec_is_set(x, y) == exists|k: int|
                    0 <= k < initial@.len() && initial@[k] == (x, y),
    {
        let mut result = BitBoard::empty(n, w);
        proof {
            assert forall|x: usize, y: usize| x < n && y < n implies !#[trigger] result.spec_is_set(
                x,
                y,
            ) by {
                assert((x as int) + (y as int) * (n as int) < (n as int) * (n as int))
                    by (nonlinear_arith)
                    requires
                        0 <= (x as int) < (n as int),
                        0 <= (y as int) < (n as int),
                ;
            }
        }
        let mut i: usize = 0;
        while i < initial.len()
            invariant
                result.wf(),
                result.side() == n,
                result.width() == w,
                result@.len() == n * n,
                valid_shape(n, w),
                i <= initial@.len(),
                forall|x: usize, y: usize|
                    x < n && y < n ==> #[trigger] result.spec_is_set(x, y) == exists|k: int|
                        0 <= k < i && initial@[k] == (x, y),
            decreases initial@.len() - i,
        {
            let (x, y) = initial[i];
            let ghost prev = result;
            result.set(x, y);
            proof {
                let ni = n as int;
                assert forall|a: usize, b: usize| a < n && b < n implies #[trigger] result
                    .spec_is_set(a, b) == exists|k: int|
                    0 <= k < i + 1 && initial@[k] == (a, b) by {
                    assert((a as int) + (b as int) * ni < ni * ni) by (nonlinear_arith)
                        requires
                            0 <= (a as int) < ni,
                            0 <= (b as int) < ni,
                    ;
                    if x < n && y < n && a == x && b == y {
                        assert(result.spec_is_set(a, b));
                        assert(initial@[i as int] == (a, b));
                        assert(exists|k: int| 0 <= k < i + 1 && initial@[k] == (a, b));
                    } else {
                        let p = (a as int) + (b as int) * ni;
                        if x < n && y < n {
                            assert((a as int) + (b as int) * ni != (x as int) + (y as int) * ni)
                                by {
                                if (a as int) + (b as int) * ni == (x as int) + (y as int) * ni {
                                    lemma_coord_injective(
                                        a as int,
                                        b as int,
                                        x as int,
                                        y as int,
                                        ni,
                                    );
                                }
                            }
                            assert((x as int) + (y as int) * ni < ni * ni) by (nonlinear_arith)
                                requires
                                    0 <= (x as int) < ni,
                                    0 <= (y as int) < ni,
                            ;
                            assert(result@ == prev@.update(x + y * prev.side(), true));
                            assert(result@[p] == prev@[p]);
                        } else {
                            assert(result@ == prev@);
                        }
                        assert(result.spec_is_set(a, b) == prev.spec_is_set(a, b));
                        assert(initial@[i as int] == (x, y));
                        assert(initial@[i as int] != (a, b));
                        if exists|k: int| 0 <= k < i + 1 && initial@[k] == (a, b) {
                            let k = choose|k: int| 0 <= k < i + 1 && initial@[k] == (a, b);
                            assert(k != i);
                            assert(0 <= k < i && initial@[k] == (a, b));
                            assert(exists|k2: int| 0 <= k2 < i && initial@[k2] == (a, b));
                        }
                        if exists|k: int| 0 <= k < i && initial@[k] == (a, b) {
                            let k = choose|k: int| 0 <= k < i && initial@[k] == (a, b);
                            assert(0 <= k < i + 1 && initial@[k] == (a, b));
                            assert(exists|k2: int| 0 <= k2 < i + 1 && initial@[k2] == (a, b));
                        }
                    }
                }
            }
            i = i + 1;
        }
        result
    }

    /// The number of set cells on the board.
    pub fn count_ones(&self) -> (c: usize)
        requires
            self.wf(),
        ensures
            c == count_true(self@),
    {
        let len = self.blocks.len();
        proof {
            lemma_ceil_div((self.n * self.n) as nat, self.w as nat);
            assert(ceil_div((self.n * self.n) as nat, self.w as nat) * self.w as nat == (
            self.blocks@.len() as int) * (self.w as int)) by (nonlinear_arith)
                requires
                    self.blocks@.len() == ceil_div((self.n * self.n) as nat, self.w as nat),
            ;
        }
        let mut c: usize = 0;
        let mut i: usize = 0;
        while i < len
            invariant
                self.wf(),
                i <= len,
                len == self.blocks@.len(),
                len * self.width() <= usize::MAX,
                c == count_seq_bits(self.blocks@, self.width(), (i * self.width()) as nat),
                c <= i * self.width(),
            decreases len - i,
        {
            let pc = popcount(self.blocks[i]);
            proof {
                let w = self.width();
                crate::bits::lemma_count_bits_le(self.blocks@[i as int], w);
                crate::bits::lemma_count_bits_high_zero(self.blocks@[i as int], w, 64);
                lemma_count_seq_block(self.blocks@, w, i as nat, w);
                assert((i + 1) * w == i * w + w) by (nonlinear_arith);
                assert(i * w + w <= len * w) by (nonlinear_arith)
                    requires
                        i + 1 <= len,
                        w >= 0,
                ;
            }
            c = c + pc;
            i = i + 1;
        }
        proof {
            lemma_count_seq_zero_range(
                self.blocks@,
                self.width(),
                (self.n * self.n) as nat,
                (len * self.width()) as nat,
            );
            lemma_count_true_as_seq_bits(self@, self.blocks@, self.width());
        }
        c
    }

    /// Whether no cell of the board is set.
    pub fn is_empty(&self) -> (r: bool)
        requires
            self.wf(),
        ensures
            r == (count_true(self@) == 0),
            r == (forall|p: int| 0 <= p < self@.len() ==> !self@[p]),
    {
        let mut i: usize = 0;
        while i < self.blocks.len()
            invariant
                self.wf(),
                i <= self.blocks@.len(),
                forall|k: int| 0 <= k < i ==> self.blocks@[k] == 0u64,
            decreases self.blocks@.len() - i,
        {
            if self.blocks[i] != 0 {
                proof {
                    lemma_count_true_zero(self@);
                    crate::bits::lemma_nonzero_has_bit(self.blocks@[i as int]);
                    let j = choose|j: u64| j < 64 && nth_bit(self.blocks@[i as int], j);
                    assert(fits(self.blocks@[i as int], self.width()));
                    assert(j < self.width());
                    let p: nat = (i as nat) * self.width() + (j as nat);
                    lemma_pos_parts(i as int, j as int, self.width() as int);
                    assert(seq_bit(self.blocks@, self.width(), p));
                    assert(p < self.blocks@.len() * self.width()) by (nonlinear_arith)
                        requires
                            i < self.blocks@.len(),
                            j < self.width(),
                            p == i * self.width() + j,
                    ;
                    assert(p < self.n * self.n);
                    assert(self@[p as int]);
                }
                return false;
            }
            i = i + 1;
        }
        proof {
            lemma_count_true_zero(self@);
            lemma_ceil_div((self.n * self.n) as nat, self.w as nat);
            assert forall|p: int| 0 <= p < self@.len() implies !self@[p] by {
                lemma_pos_in_block(self.blocks@.len() as int, self.width() as int, p);
                crate::bits::lemma_zero_bit((p % (self.width() as int)) as u64);
            }
        }
        true
    }

    /// Every coordinate of the grid in the fixed traversal order: entry `k`
    /// is the coordinate (k / N, k % N).
    pub fn cells(&self) -> (r: Vec<(usize, usize)>)
        requires
            self.wf(),
        ensures
            r@.len() == self.side() * self.side(),
            forall|k: int|
                0 <= k < r@.len() ==> r@[k] == (
                    (k / (self.side() as int)) as usize,
                    (k % (self.side() as int)) as usize,
                ),
    {
        let n = self.n;
        let mut r: Vec<(usize, usize)> = Vec::new();
        let mut x: usize = 0;
        while x < n
            invariant
                x <= n,
                n == self.side(),
                n * n + 64 <= usize::MAX,
                r@.len() == x * n,
                forall|k: int|
                    0 <= k < r@.len() ==> r@[k] == (
                        (k / (n as int)) as usize,
                        (k % (n as int)) as usize,
                    ),
            decreases n - x,
        {
            let mut y: usize = 0;
            proof {
                assert(x * n + n <= n * n) by (nonlinear_arith)
                    requires
                        x < n,
                ;
            }
            while y < n
                invariant
                    y <= n,
                    x < n,
                    n == self.side(),
                    n * n + 64 <= usize::MAX,
                    x * n + n <= n * n,
                    r@.len() == x * n + y,
                    forall|k: int|
                        0 <= k < r@.len() ==> r@[k] == (
                            (k / (n as int)) as usize,
                            (k % (n as int)) as usize,
                        ),
                decreases n - y,
            {
                r.push((x, y));
                proof {
                    lemma_pos_parts(x as int, y as int, n as int);
                }
                y = y + 1;
            }
            x = x + 1;
            proof {
                assert((x - 1) * n + n == x * n) by (nonlinear_arith);
            }
        }
        proof {
            assert(x * n == n * n) by (nonlinear_arith)
                requires
                    x == n,
            ;
        }
        r
    }

    /// The packed block contents, for stating buffer equality.
    pub open(crate) spec fn repr_eq(&self, o: &BitBoard) -> bool {
        self.n == o.n && self.w == o.w && self.blocks@ == o.blocks@
    }
}

impl Clone for BitBoard {
    /// A deep copy: same shape, identical block contents, fully independent
    /// of the original.
    fn clone(&self) -> (r: Self)
        ensures
            r.side() == self.side(),
            r.width() == self.width(),
            r.repr_eq(self),
            r@ == self@,
            count_true(r@) == count_true(self@),
            self.wf() ==> r.wf(),
    {
        let mut blocks: Vec<u64> = Vec::new();
        let mut i: usize = 0;
        while i < self.blocks.len()
            invariant
                i <= self.blocks@.len(),
                blocks@.len() == i,
                forall|k: int| 0 <= k < i ==> blocks@[k] == self.blocks@[k],
            decreases self.blocks@.len() - i,
        {
            blocks.push(self.blocks[i]);
            i = i + 1;
        }
        let r = BitBoard { n: self.n, w: self.w, blocks };
        proof {
            assert(r.blocks@ =~= self.blocks@);
            assert(r@ =~= self@);
        }
        r
    }
}

impl PartialEq for BitBoard {
    /// Block-buffer equality: same side, same block width, same bits.
    fn eq(&self, other: &BitBoard) -> (r: bool) {
        if self.n != other.n || self.w != other.w || self.blocks.len() != other.blocks.len() {
            return false;
        }
        let mut i: usize = 0;
        while i < self.blocks.len()
            invariant
                i <= self.blocks@.len(),
                self.blocks@.len() == other.blocks@.len(),
                self.n == other.n,
                self.w == other.w,
                forall|k: int| 0 <= k < i ==> self.blocks@[k] == other.blocks@[k],
            decreases self.blocks@.len() - i,
        {
            if self.blocks[i] != other.blocks[i] {
                return false;
            }
            i = i + 1;
        }
        proof {
            assert(self.blocks@ =~= other.blocks@);
        }
        true
    }
}

impl vstd::std_specs::cmp::PartialEqSpecImpl for BitBoard {
    open spec fn obeys_eq_spec() -> bool {
        true
    }

    open spec fn eq_spec(&self, other: &BitBoard) -> bool {
        self.repr_eq(other)
    }
}

/// The row-major linearization is injective on in-bounds coordinates: two
/// distinct cells never share a position.
proof fn lemma_coord_injective(x1: int, y1: int, x2: int, y2: int, n: int)
    requires
        n >= 1,
        0 <= x1 < n,
        0 <= y1 < n,
        0 <= x2 < n,
        0 <= y2 < n,
        x1 + y1 * n == x2 + y2 * n,
    ensures
        x1 == x2 && y1 == y2,
{
    lemma_pos_parts(y1, x1, n);
    lemma_pos_parts(y2, x2, n);
}

/// Two positions with the same quotient by `w` but different values have
/// different remainders.
proof fn lemma_fundamental_both(p: int, q: int, w: int)
    requires
        w >= 1,
        p >= 0,
        q >= 0,
        p != q,
        p / w == q / w,
    ensures
        p % w != q % w,
{
    vstd::arithmetic::div_mod::lemma_fundamental_div_mod(p, w);
    vstd::arithmetic::div_mod::lemma_fundamental_div_mod(q, w);
}

} // verus!
