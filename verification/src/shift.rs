//! The shift engine: slides the whole bit pattern by a move's displacement.
//! The packed storage is shifted in carry-propagating passes of at most one
//! block each; an edge mask then clears any bit whose column shows it
//! wrapped around a row edge, and the last-block mask restores the board
//! invariant.

use crate::bits::{block_mask, fits, lemma_and_bit, lemma_or_bit, lemma_shl_bit,
    lemma_shr_bit, lemma_single_bit, lemma_zero_bit, nth_bit};
use crate::board::BitBoard;
use crate::grid::{lemma_pos_in_block, lemma_pos_parts, seq_bit};
use crate::moves::Move;
use vstd::arithmetic::div_mod::lemma_fundamental_div_mod;
use vstd::prelude::*;

verus! {

/// Which row edge a horizontal displacement could wrap bits around, with
/// the width of the forbidden band of columns.
#[derive(Clone, Copy, PartialEq, Eq, Structural, Debug)]
pub enum EdgeMask {
    Left(usize),
    Right(usize),
}

/// Whether the edge band `m` leaves a cell in column `col` alive on a board
/// of side `n`: a `Left` band forbids the lowest columns, a `Right` band
/// the highest.
pub open spec fn mask_allows(m: EdgeMask, n: nat, col: int) -> bool {
    match m {
        EdgeMask::Left(width) => col >= width,
        EdgeMask::Right(width) => n - col - 1 >= width,
    }
}

/// The grid translated by (dx, dy): cell (x, y) of the result holds what
/// cell (x - dx, y - dy) of the source held, and is clear when that source
/// cell lies off the board. Bits never wrap: content pushed past any edge
/// is dropped.
pub open spec fn shift_grid(g: Seq<bool>, n: nat, dx: int, dy: int) -> Seq<bool> {
    Seq::new(
        g.len(),
        |p: int|
            {
                let x = p % (n as int);
                let y = p / (n as int);
                &&& 0 <= x - dx < n
                &&& 0 <= y - dy < n
                &&& g[(x - dx) + (y - dy) * n]
            },
    )
}

/// One carry pass toward higher positions: every packed bit moves up by
/// `c` places (at most one block), bits leaving a block entering the next.
fn pass_up(blocks: &mut Vec<u64>, w: usize, c: usize, wm: u64)
    requires
        1 <= c <= w <= 64,
        forall|j: u64| #[trigger] nth_bit(wm, j) == (j < w),
        forall|k: int| 0 <= k < old(blocks)@.len() ==> fits(#[trigger] old(blocks)@[k], w as nat),
    ensures
        final(blocks)@.len() == old(blocks)@.len(),
        forall|k: int| 0 <= k < final(blocks)@.len() ==> fits(#[trigger] final(blocks)@[k], w as nat),
        forall|p: nat|
            p < final(blocks)@.len() * w ==> #[trigger] seq_bit(final(blocks)@, w as nat, p) == (p
                >= c && seq_bit(old(blocks)@, w as nat, (p - c) as nat)),
{
    let ghost g0 = blocks@;
    let len = blocks.len();
    let mut carry: u64 = 0;
    let mut i: usize = 0;
    proof {
        assert forall|j: u64| !nth_bit(0u64, j) by {
            lemma_zero_bit(j);
        }
    }
    while i < len
        invariant
            i <= len,
            len == blocks@.len(),
            1 <= c <= w <= 64,
            forall|j: u64| #[trigger] nth_bit(wm, j) == (j < w),
            g0.len() == len,
            forall|k: int| 0 <= k < len ==> fits(#[trigger] g0[k], w as nat),
            forall|k: int| i <= k < len ==> blocks@[k] == g0[k],
            forall|k: int| 0 <= k < i ==> fits(#[trigger] blocks@[k], w as nat),
            forall|p: nat|
                p < i * w ==> #[trigger] seq_bit(blocks@, w as nat, p) == (p >= c && seq_bit(
                    g0,
                    w as nat,
                    (p - c) as nat,
                )),
            forall|j: u64|
                j < 64 ==> (#[trigger] nth_bit(carry, j) == (j < c && i >= 1 && nth_bit(
                    g0[i - 1],
                    (w - c + j) as u64,
                ))),
        decreases len - i,
    {
        let ghost prev_blocks = blocks@;
        let ghost prev_carry = carry;
        let b = blocks[i];
        let nb: u64;
        let new_carry: u64;
        if c == w {
            nb = carry;
            new_carry = b;
        } else {
            new_carry = b >> ((w - c) as u64);
            nb = ((b << (c as u64)) & wm) | carry;
        }
        blocks.set(i, nb);
        carry = new_carry;
        proof {
            let wn = w as nat;
            let wi = w as int;
            let ii = i as int;
            assert(b == g0[ii]);
            // Bits of the freshly written block.
            assert forall|j: u64| j < 64 implies #[trigger] nth_bit(nb, j) == (j < w && (if j >= c {
                nth_bit(g0[ii], (j - c) as u64)
            } else {
                ii >= 1 && nth_bit(g0[ii - 1], (w - c + j) as u64)
            })) by {
                if c == w {
                    assert(nth_bit(nb, j) == nth_bit(prev_carry, j));
                } else {
                    lemma_or_bit((b << (c as u64)) & wm, prev_carry, j);
                    lemma_and_bit(b << (c as u64), wm, j);
                    if j < 64 {
                        lemma_shl_bit(b, c as u64, j);
                    }
                    if j >= w {
                        assert(!nth_bit(nb, j));
                    }
                }
            }
            // The new carry holds the bits pushed out of block i.
            assert forall|j: u64|
                j < 64 implies (#[trigger] nth_bit(new_carry, j) == (j < c && nth_bit(
                g0[ii],
                (w - c + j) as u64,
            ))) by {
                if c == w {
                    assert(fits(g0[ii], wn));
                } else {
                    lemma_shr_bit(b, (w - c) as u64, j);
                    if j < c {
                        assert(nth_bit(new_carry, j) == nth_bit(b, (j + w - c) as u64));
                    } else {
                        if j + w - c < 64 {
                            assert(!nth_bit(b, (j + w - c) as u64));
                        }
                    }
                }
            }
            assert(((ii + 1) * wi) == ii * wi + wi) by (nonlinear_arith);
            // Every position of the processed prefix now reads shifted.
            assert forall|p: nat| p < (ii + 1) * wi implies #[trigger] seq_bit(blocks@, wn, p) == (
            p >= c && seq_bit(g0, wn, (p - c) as nat)) by {
                if p < ii * wi {
                    assert(p < i * w);
                    lemma_pos_in_block(ii, wi, p as int);
                    assert(blocks@[(p as int) / wi] == prev_blocks[(p as int) / wi]);
                    assert(seq_bit(blocks@, wn, p) == seq_bit(prev_blocks, wn, p));
                    if p >= c {
                        lemma_pos_in_block(ii, wi, (p - c) as int);
                    }
                } else {
                    let jj = (p - ii * wi) as int;
                    assert(0 <= jj < wi);
                    lemma_pos_parts(ii, jj, wi);
                    assert(seq_bit(blocks@, wn, p) == nth_bit(nb, jj as u64));
                    if jj >= c {
                        // Same-block source bit.
                        lemma_pos_parts(ii, jj - c, wi);
                        assert(seq_bit(g0, wn, (p - c) as nat) == nth_bit(g0[ii], (jj - c) as u64));
                        assert(p >= c);
                    } else {
                        // Source bit lives in the previous block.
                        if ii >= 1 {
                            lemma_pos_parts(ii - 1, wi - c + jj, wi);
                            assert((ii - 1) * wi + (wi - c + jj) == p - c) by (nonlinear_arith)
                                requires
                                    p == ii * wi + jj,
                            ;
                            assert(seq_bit(g0, wn, (p - c) as nat) == nth_bit(
                                g0[ii - 1],
                                (w - c + jj) as u64,
                            ));
                            assert(p >= c);
                        } else {
                            assert(ii * wi == 0) by (nonlinear_arith)
                                requires
                                    ii == 0,
                            ;
                            assert(p == jj);
                            assert(p < c);
                        }
                    }
                }
            }
        }
        i = i + 1;
    }
    proof {
        // The loop ends past the last block, so the shifted region covers
        // every position of the storage.
        assert(i * w == blocks@.len() * w);
    }
}

/// One carry pass toward lower positions: every packed bit moves down by
/// `c` places (at most one block), bits leaving a block entering the one
/// before it.
fn pass_down(blocks: &mut Vec<u64>, w: usize, c: usize, wm: u64)
    requires
        1 <= c <= w <= 64,
        forall|j: u64| #[trigger] nth_bit(wm, j) == (j < w),
        forall|k: int| 0 <= k < old(blocks)@.len() ==> fits(#[trigger] old(blocks)@[k], w as nat),
    ensures
        final(blocks)@.len() == old(blocks)@.len(),
        forall|k: int| 0 <= k < final(blocks)@.len() ==> fits(#[trigger] final(blocks)@[k], w as nat),
        forall|p: nat|
            p < final(blocks)@.len() * w ==> #[trigger] seq_bit(final(blocks)@, w as nat, p) == (p
                + c < final(blocks)@.len() * w && seq_bit(old(blocks)@, w as nat, (p + c) as nat)),
{
    let ghost g0 = blocks@;
    let len = blocks.len();
    let mut carry: u64 = 0;
    let mut i: usize = len;
    proof {
        assert forall|j: u64| !nth_bit(0u64, j) by {
            lemma_zero_bit(j);
        }
    }
    while i > 0
        invariant
            i <= len,
            len == blocks@.len(),
            1 <= c <= w <= 64,
            forall|j: u64| #[trigger] nth_bit(wm, j) == (j < w),
            g0.len() == len,
            forall|k: int| 0 <= k < len ==> fits(#[trigger] g0[k], w as nat),
            forall|k: int| 0 <= k < i ==> blocks@[k] == g0[k],
            forall|k: int| i <= k < len ==> fits(#[trigger] blocks@[k], w as nat),
            forall|p: nat|
                i * w <= p < len * w ==> #[trigger] seq_bit(blocks@, w as nat, p) == (p + c < len
                    * w && seq_bit(g0, w as nat, (p + c) as nat)),
            forall|j: u64|
                j < 64 ==> (#[trigger] nth_bit(carry, j) == (w - c <= j < w && i < len && nth_bit(
                    g0[i as int],
                    (j - (w - c)) as u64,
                ))),
        decreases i,
    {
        let ghost prev_blocks = blocks@;
        let ghost prev_carry = carry;
        let b = blocks[i - 1];
        let nb: u64;
        let new_carry: u64;
        if c == w {
            nb = carry;
            new_carry = b;
        } else {
            new_carry = (b << ((w - c) as u64)) & wm;
            nb = (b >> (c as u64)) | carry;
        }
        blocks.set(i - 1, nb);
        carry = new_carry;
        proof {
            let wn = w as nat;
            let wi = w as int;
            let ii = (i - 1) as int;
            assert(b == g0[ii]);
            // Bits of the freshly written block: offsets below w - c read
            // from the same block c places up; offsets at or above w - c
            // read the incoming carry from the block after.
            assert forall|j: u64| j < 64 implies #[trigger] nth_bit(nb, j) == (j < w && (if j < w
                - c {
                nth_bit(g0[ii], (j + c) as u64)
            } else {
                ii + 1 < len && nth_bit(g0[ii + 1], (j - (w - c)) as u64)
            })) by {
                if c == w {
                    assert(nth_bit(nb, j) == nth_bit(prev_carry, j));
                } else {
                    lemma_or_bit(b >> (c as u64), prev_carry, j);
                    lemma_shr_bit(b, c as u64, j);
                    if j < w - c {
                        assert(nth_bit(b, (j + c) as u64) == nth_bit(g0[ii], (j + c) as u64));
                    } else {
                        if j + c < 64 {
                            assert(!nth_bit(b, (j + c) as u64));
                        }
                    }
                }
            }
            // The new carry holds the bits pushed out of block i - 1.
            assert forall|j: u64|
                j < 64 implies (#[trigger] nth_bit(new_carry, j) == (w - c <= j < w && nth_bit(
                g0[ii],
                (j - (w - c)) as u64,
            ))) by {
                if c == w {
                    assert(fits(g0[ii], wn));
                } else {
                    lemma_and_bit(b << ((w - c) as u64), wm, j);
                    if j < 64 {
                        lemma_shl_bit(b, (w - c) as u64, j);
                    }
                }
            }
            assert(((ii + 1) * wi) == ii * wi + wi) by (nonlinear_arith);
            // Every position of the processed suffix now reads shifted.
            assert forall|p: nat| ii * wi <= p < len * wi implies #[trigger] seq_bit(
                blocks@,
                wn,
                p,
            ) == (p + c < len * wi && seq_bit(g0, wn, (p + c) as nat)) by {
                lemma_pos_in_block(len as int, wi, p as int);
                if p >= (ii + 1) * wi {
                    lemma_fundamental_div_mod(p as int, wi);
                    assert((p as int) / wi > ii) by (nonlinear_arith)
                        requires
                            (p as int) >= (ii + 1) * wi,
                            wi >= 1,
                            (p as int) / wi * wi + (p as int) % wi == p as int,
                            0 <= (p as int) % wi < wi,
                    ;
                    assert(blocks@[(p as int) / wi] == prev_blocks[(p as int) / wi]);
                    assert(seq_bit(blocks@, wn, p) == seq_bit(prev_blocks, wn, p));
                } else {
                    let jj = (p - ii * wi) as int;
                    assert(0 <= jj < wi);
                    lemma_pos_parts(ii, jj, wi);
                    assert(seq_bit(blocks@, wn, p) == nth_bit(nb, jj as u64));
                    if jj < wi - c {
                        lemma_pos_parts(ii, jj + c, wi);
                        assert(p + c == ii * wi + (jj + c));
                        assert(seq_bit(g0, wn, (p + c) as nat) == nth_bit(g0[ii], (jj + c) as u64));
                        assert(p + c < (ii + 1) * wi);
                        assert((ii + 1) * wi <= len * wi) by (nonlinear_arith)
                            requires
                                ii + 1 <= len,
                                wi >= 1,
                        ;
                    } else {
                        lemma_pos_parts(ii + 1, jj - (wi - c), wi);
                        assert((ii + 1) * wi + (jj - (wi - c)) == p + c) by (nonlinear_arith)
                            requires
                                p == ii * wi + jj,
                        ;
                        if ii + 1 < len {
                            assert(seq_bit(g0, wn, (p + c) as nat) == nth_bit(
                                g0[ii + 1],
                                (jj - (wi - c)) as u64,
                            ));
                            assert((ii + 2) * wi == (ii + 1) * wi + wi) by (nonlinear_arith);
                            assert(p + c < (ii + 2) * wi);
                            assert(p + c < len * wi) by (nonlinear_arith)
                                requires
                                    p + c < (ii + 2) * wi,
                                    ii + 2 <= len,
                                    wi >= 1,
                            ;
                        } else {
                            assert(p + c >= len * wi);
                        }
                    }
                }
            }
        }
        i = i - 1;
    }
    proof {
        // The loop ends at block 0, so the shifted region covers every
        // position from 0 * w upward.
        assert(i * w == 0);
    }
}

/// The mask for one block under an edge band: bit `j` survives exactly when
/// the column of absolute position `idx * w + j` lies outside the band.
fn edge_mask_block(n: usize, w: usize, m: EdgeMask, idx: usize, start: usize) -> (r: u64)
    requires
        1 <= n,
        1 <= w <= 64,
        start == idx * w,
        start + w <= usize::MAX,
    ensures
        forall|j: u64|
            #[trigger] nth_bit(r, j) == (j < w && mask_allows(
                m,
                n as nat,
                ((idx * w + j) as int) % (n as int),
            )),
{
    let mut r: u64 = 0;
    let mut j: usize = 0;
    proof {
        assert forall|jb: u64| !nth_bit(0u64, jb) by {
            lemma_zero_bit(jb);
        }
    }
    while j < w
        invariant
            j <= w,
            1 <= n,
            1 <= w <= 64,
            start == idx * w,
            start + w <= usize::MAX,
            forall|jb: u64|
                #[trigger] nth_bit(r, jb) == (jb < j && mask_allows(
                    m,
                    n as nat,
                    ((idx * w + jb) as int) % (n as int),
                )),
        decreases w - j,
    {
        let pos = start + j;
        let col = pos % n;
        let allowed = match m {
            EdgeMask::Left(width) => col >= width,
            EdgeMask::Right(width) => n - col - 1 >= width,
        };
        if allowed {
            let nr = r | (1u64 << (j as u64));
            proof {
                assert forall|jb: u64| #[trigger] nth_bit(nr, jb) == (nth_bit(r, jb) || jb
                    == j) by {
                    lemma_or_bit(r, 1u64 << (j as u64), jb);
                    lemma_single_bit(j as u64, jb);
                }
            }
            r = nr;
        }
        j = j + 1;
    }
    r
}

impl BitBoard {
    /// Shifts the packed pattern toward higher positions by `s` bits, in
    /// carry passes of at most one block each; bits pushed past the end of
    /// the storage are dropped.
    fn shift_up(&mut self, s: usize)
        requires
            old(self).storage_ok(),
        ensures
            final(self).storage_ok(),
            final(self).n == old(self).n,
            final(self).w == old(self).w,
            final(self).blocks@.len() == old(self).blocks@.len(),
            forall|p: nat|
                p < final(self).blocks@.len() * final(self).width() ==> #[trigger] seq_bit(
                    final(self).blocks@,
                    final(self).width(),
                    p,
                ) == (p >= s && seq_bit(old(self).blocks@, old(self).width(), (p - s) as nat)),
    {
        let w = self.w;
        let wm = block_mask(w);
        let ghost g0 = self.blocks@;
        let mut rhs = s;
        while rhs > 0
            invariant
                self.storage_ok(),
                self.n == old(self).n,
                self.w == old(self).w,
                w == self.w,
                self.blocks@.len() == g0.len(),
                g0 == old(self).blocks@,
                forall|j: u64| #[trigger] nth_bit(wm, j) == (j < w),
                rhs <= s,
                forall|p: nat|
                    p < self.blocks@.len() * (w as nat) ==> #[trigger] seq_bit(
                        self.blocks@,
                        w as nat,
                        p,
                    ) == (p >= s - rhs && seq_bit(g0, w as nat, (p - (s - rhs)) as nat)),
            decreases rhs,
        {
            let c = if rhs < w {
                rhs
            } else {
                w
            };
            let ghost g1 = self.blocks@;
            let ghost done = s - rhs;
            pass_up(&mut self.blocks, w, c, wm);
            proof {
                assert forall|p: nat|
                    p < self.blocks@.len() * (w as nat) implies #[trigger] seq_bit(
                    self.blocks@,
                    w as nat,
                    p,
                ) == (p >= s - (rhs - c) && seq_bit(g0, w as nat, (p - (s - (rhs - c))) as nat)) by {
                    assert(seq_bit(self.blocks@, w as nat, p) == (p >= c && seq_bit(
                        g1,
                        w as nat,
                        (p - c) as nat,
                    )));
                    if p >= c {
                        assert(((p - c) as nat) < g1.len() * (w as nat));
                        assert(seq_bit(g1, w as nat, (p - c) as nat) == ((p - c) >= done
                            && seq_bit(g0, w as nat, ((p - c) - done) as nat)));
                    }
                }
            }
            rhs = rhs - c;
        }
        proof {
            assert(self.width() == w as nat);
        }
    }

    /// Shifts the packed pattern toward lower positions by `s` bits, in
    /// carry passes of at most one block each; bits pushed below position
    /// zero are dropped.
    fn shift_down(&mut self, s: usize)
        requires
            old(self).storage_ok(),
        ensures
            final(self).storage_ok(),
            final(self).n == old(self).n,
            final(self).w == old(self).w,
            final(self).blocks@.len() == old(self).blocks@.len(),
            forall|p: nat|
                p < final(self).blocks@.len() * final(self).width() ==> #[trigger] seq_bit(
                    final(self).blocks@,
                    final(self).width(),
                    p,
                ) == (p + s < final(self).blocks@.len() * final(self).width() && seq_bit(
                    old(self).blocks@,
                    old(self).width(),
                    (p + s) as nat,
                )),
    {
        let w = self.w;
        let wm = block_mask(w);
        let ghost g0 = self.blocks@;
        let mut rhs = s;
        while rhs > 0
            invariant
                self.storage_ok(),
                self.n == old(self).n,
                self.w == old(self).w,
                w == self.w,
                self.blocks@.len() == g0.len(),
                g0 == old(self).blocks@,
                forall|j: u64| #[trigger] nth_bit(wm, j) == (j < w),
                rhs <= s,
                forall|p: nat|
                    p < self.blocks@.len() * (w as nat) ==> #[trigger] seq_bit(
                        self.blocks@,
                        w as nat,
                        p,
                    ) == (p + (s - rhs) < self.blocks@.len() * (w as nat) && seq_bit(
                        g0,
                        w as nat,
                        (p + (s - rhs)) as nat,
                    )),
            decreases rhs,
        {
            let c = if rhs < w {
                rhs
            } else {
                w
            };
            let ghost g1 = self.blocks@;
            let ghost done = s - rhs;
            pass_down(&mut self.blocks, w, c, wm);
            proof {
                assert forall|p: nat|
                    p < self.blocks@.len() * (w as nat) implies #[trigger] seq_bit(
                    self.blocks@,
                    w as nat,
                    p,
                ) == (p + (s - (rhs - c)) < self.blocks@.len() * (w as nat) && seq_bit(
                    g0,
                    w as nat,
                    (p + (s - (rhs - c))) as nat,
                )) by {
                    assert(seq_bit(self.blocks@, w as nat, p) == (p + c < g1.len() * (w as nat)
                        && seq_bit(g1, w as nat, (p + c) as nat)));
                    if p + c < g1.len() * (w as nat) {
                        assert(seq_bit(g1, w as nat, (p + c) as nat) == ((p + c) + done < g1.len()
                            * (w as nat) && seq_bit(g0, w as nat, ((p + c) + done) as nat)));
                    }
                }
            }
            rhs = rhs - c;
        }
        proof {
            assert(self.width() == w as nat);
        }
    }

    /// Clears every bit whose column lies inside the forbidden band of `m`:
    /// exactly the bits a horizontal shift would otherwise have wrapped
    /// across a row edge.
    fn apply_edge_mask(&mut self, m: EdgeMask)
        requires
            old(self).storage_ok(),
        ensures
            final(self).storage_ok(),
            final(self).n == old(self).n,
            final(self).w == old(self).w,
            final(self).blocks@.len() == old(self).blocks@.len(),
            forall|p: nat|
                p < final(self).blocks@.len() * final(self).width() ==> #[trigger] seq_bit(
                    final(self).blocks@,
                    final(self).width(),
                    p,
                ) == (seq_bit(old(self).blocks@, old(self).width(), p) && mask_allows(
                    m,
                    old(self).n as nat,
                    (p as int) % (old(self).n as int),
                )),
    {
        let n = self.n;
        let w = self.w;
        let len = self.blocks.len();
        let ghost g0 = self.blocks@;
        proof {
            crate::sizes::lemma_ceil_div((n * n) as nat, w as nat);
            assert((len as int) * (w as int) <= usize::MAX);
        }
        let mut i: usize = 0;
        while i < len
            invariant
                self.storage_ok(),
                self.n == n,
                self.w == w,
                len == self.blocks@.len(),
                g0.len() == len,
                (len as int) * (w as int) <= usize::MAX,
                forall|k: int| 0 <= k < len ==> fits(#[trigger] g0[k], w as nat),
                forall|k: int| i <= k < len ==> self.blocks@[k] == g0[k],
                i <= len,
                forall|p: nat|
                    p < i * w ==> #[trigger] seq_bit(self.blocks@, w as nat, p) == (seq_bit(
                        g0,
                        w as nat,
                        p,
                    ) && mask_allows(m, n as nat, (p as int) % (n as int))),
            decreases len - i,
        {
            proof {
                assert((i as int) * (w as int) + (w as int) <= (len as int) * (w as int))
                    by (nonlinear_arith)
                    requires
                        i + 1 <= len,
                        w >= 1,
                ;
            }
            let start = i * w;
            let mb = edge_mask_block(n, w, m, i, start);
            let ghost prev_blocks = self.blocks@;
            let b = self.blocks[i];
            self.blocks.set(i, b & mb);
            proof {
                let wn = w as nat;
                let wi = w as int;
                let ii = i as int;
                assert forall|j: u64| j < 64 implies #[trigger] nth_bit(b & mb, j) == (nth_bit(
                    b,
                    j,
                ) && nth_bit(mb, j)) by {
                    lemma_and_bit(b, mb, j);
                }
                assert(((ii + 1) * wi) == ii * wi + wi) by (nonlinear_arith);
                assert forall|p: nat| p < (ii + 1) * wi implies #[trigger] seq_bit(
                    self.blocks@,
                    wn,
                    p,
                ) == (seq_bit(g0, wn, p) && mask_allows(m, n as nat, (p as int) % (n as int))) by {
                    if p < ii * wi {
                        lemma_pos_in_block(ii, wi, p as int);
                        assert(self.blocks@[(p as int) / wi] == prev_blocks[(p as int) / wi]);
                        assert(seq_bit(self.blocks@, wn, p) == seq_bit(prev_blocks, wn, p));
                    } else {
                        let jj = (p - ii * wi) as int;
                        assert(0 <= jj < wi);
                        lemma_pos_parts(ii, jj, wi);
                        assert(seq_bit(self.blocks@, wn, p) == nth_bit(b & mb, jj as u64));
                        assert(seq_bit(g0, wn, p) == nth_bit(g0[ii], jj as u64));
                        assert(nth_bit(mb, jj as u64) == (jj < w && mask_allows(
                            m,
                            n as nat,
                            ((i * w + (jj as u64)) as int) % (n as int),
                        )));
                        assert((i * w + (jj as u64)) as int == p as int);
                    }
                }
            }
            i = i + 1;
        }
    }

    /// Reapplies the last-block mask: clears every bit at a position at or
    /// beyond N * N, restoring the board invariant.
    fn apply_board_mask(&mut self)
        requires
            old(self).storage_ok(),
        ensures
            final(self).wf(),
            final(self).n == old(self).n,
            final(self).w == old(self).w,
            final(self).blocks@.len() == old(self).blocks@.len(),
            forall|p: nat|
                p < final(self).blocks@.len() * final(self).width() ==> #[trigger] seq_bit(
                    final(self).blocks@,
                    final(self).width(),
                    p,
                ) == (seq_bit(old(self).blocks@, old(self).width(), p) && p < old(self).n * old(
                    self,
                ).n),
    {
        let n = self.n;
        let w = self.w;
        let total = n * n;
        let rem = total % w;
        proof {
            lemma_fundamental_div_mod(total as int, w as int);
            crate::sizes::lemma_ceil_div(total as nat, w as nat);
        }
        if rem != 0 {
            let li = self.blocks.len() - 1;
            let lbm = block_mask(rem);
            let ghost g0 = self.blocks@;
            let b = self.blocks[li];
            self.blocks.set(li, b & lbm);
            proof {
                let wn = w as nat;
                let wi = w as int;
                let lii = li as int;
                let q = (total as int) / wi;
                assert(self.blocks@.len() == q + 1);
                assert(lii == q);
                assert(((lii + 1) * wi) == lii * wi + wi) by (nonlinear_arith);
                assert(lii * wi == total - rem) by (nonlinear_arith)
                    requires
                        lii == q,
                        (total as int) == wi * q + rem,
                ;
                assert forall|j: u64| j < 64 implies #[trigger] nth_bit(b & lbm, j) == (nth_bit(
                    b,
                    j,
                ) && j < rem) by {
                    lemma_and_bit(b, lbm, j);
                }
                assert forall|p: nat| p < self.blocks@.len() * wn implies #[trigger] seq_bit(
                    self.blocks@,
                    wn,
                    p,
                ) == (seq_bit(g0, wn, p) && p < total) by {
                    if p < lii * wi {
                        lemma_pos_in_block(lii, wi, p as int);
                        assert(self.blocks@[(p as int) / wi] == g0[(p as int) / wi]);
                        assert(seq_bit(self.blocks@, wn, p) == seq_bit(g0, wn, p));
                    } else {
                        let jj = (p - lii * wi) as int;
                        assert(0 <= jj < wi);
                        lemma_pos_parts(lii, jj, wi);
                        assert(seq_bit(self.blocks@, wn, p) == nth_bit(b & lbm, jj as u64));
                        assert(seq_bit(g0, wn, p) == nth_bit(g0[lii], jj as u64));
                        assert((p < total) == (jj < rem));
                    }
                }
            }
        } else {
            proof {
                let wi = w as int;
                let q = (total as int) / wi;
                assert(self.blocks@.len() == q);
                assert((self.blocks@.len() as int) * wi == total) by (nonlinear_arith)
                    requires
                        (self.blocks@.len() as int) == q,
                        (total as int) == wi * q,
                ;
            }
        }
    }

    /// Clears every block: the all-empty pattern of the same shape.
    fn clear_all(&mut self)
        requires
            old(self).storage_ok(),
        ensures
            final(self).wf(),
            final(self).n == old(self).n,
            final(self).w == old(self).w,
            final(self).blocks@.len() == old(self).blocks@.len(),
            forall|p: nat|
                p < final(self).blocks@.len() * final(self).width() ==> !#[trigger] seq_bit(
                    final(self).blocks@,
                    final(self).width(),
                    p,
                ),
    {
        let len = self.blocks.len();
        let mut i: usize = 0;
        while i < len
            invariant
                self.storage_ok(),
                self.n == old(self).n,
                self.w == old(self).w,
                len == self.blocks@.len(),
                i <= len,
                forall|k: int| 0 <= k < i ==> self.blocks@[k] == 0u64,
            decreases len - i,
        {
            self.blocks.set(i, 0u64);
            proof {
                assert forall|j: u64| !nth_bit(0u64, j) by {
                    lemma_zero_bit(j);
                }
            }
            i = i + 1;
        }
        proof {
            assert forall|p: nat|
                p < self.blocks@.len() * self.width() implies !#[trigger] seq_bit(
                self.blocks@,
                self.width(),
                p,
            ) by {
                lemma_pos_in_block(self.blocks@.len() as int, self.width() as int, p as int);
                lemma_zero_bit(((p as int) % (self.width() as int)) as u64);
            }
        }
    }
}

/// Bridges the packed characterization after shifting, edge masking and
/// re-masking to the grid level: the final view is exactly the source view
/// translated by (dx, dy).
proof fn lemma_shift_cells(g0: Seq<u64>, g3: Seq<u64>, n: nat, w: nat, dx: int, dy: int)
    requires
        1 <= n,
        1 <= w <= 64,
        g0.len() == g3.len(),
        n * n <= g0.len() * w,
        -(n as int) < dx < n as int,
        -(n as int) < dy < n as int,
        forall|p: nat| n * n <= p < g0.len() * w ==> !#[trigger] seq_bit(g0, w, p),
        forall|p: nat|
            p < g3.len() * w ==> #[trigger] seq_bit(g3, w, p) == ({
                let q = p - (dy * n + dx);
                &&& 0 <= q < g0.len() * w
                &&& seq_bit(g0, w, q as nat)
                &&& (dx > 0 ==> p % n >= dx)
                &&& (dx < 0 ==> (p % n) - dx < n)
                &&& p < n * n
            }),
    ensures
        Seq::new((n * n) as nat, |p: int| seq_bit(g3, w, p as nat)) == shift_grid(
            Seq::new((n * n) as nat, |p: int| seq_bit(g0, w, p as nat)),
            n,
            dx,
            dy,
        ),
{
    let ni = n as int;
    let lhs = Seq::new((n * n) as nat, |p: int| seq_bit(g3, w, p as nat));
    let src = Seq::new((n * n) as nat, |p: int| seq_bit(g0, w, p as nat));
    let rhs = shift_grid(src, n, dx, dy);
    assert forall|p: int| 0 <= p < n * n implies lhs[p] == rhs[p] by {
        lemma_fundamental_div_mod(p, ni);
        let x = p % ni;
        let y = p / ni;
        assert(0 <= x < ni);
        assert(0 <= y < ni) by (nonlinear_arith)
            requires
                0 <= p < ni * ni,
                p == ni * y + x,
                0 <= x < ni,
                ni >= 1,
        ;
        let sx = x - dx;
        let sy = y - dy;
        let q = p - (dy * ni + dx);
        assert(q == sx + sy * ni) by (nonlinear_arith)
            requires
                p == ni * y + x,
                q == p - (dy * ni + dx),
                sx == x - dx,
                sy == y - dy,
        ;
        assert((p as nat) < g3.len() * w);
        if !(0 <= sx < ni) {
            assert(!lhs[p]);
            assert(!rhs[p]);
        } else {
            if sy < 0 {
                assert(q < 0) by (nonlinear_arith)
                    requires
                        q == sx + sy * ni,
                        sx < ni,
                        sy <= -1,
                        ni >= 1,
                ;
                assert(!lhs[p]);
                assert(!rhs[p]);
            } else if sy >= ni {
                assert(q >= ni * ni) by (nonlinear_arith)
                    requires
                        q == sx + sy * ni,
                        sx >= 0,
                        sy >= ni,
                        ni >= 1,
                ;
                if q < g0.len() * w {
                    assert(!seq_bit(g0, w, q as nat));
                }
                assert(!lhs[p]);
                assert(!rhs[p]);
            } else {
                assert(0 <= q < ni * ni) by (nonlinear_arith)
                    requires
                        q == sx + sy * ni,
                        0 <= sx < ni,
                        0 <= sy < ni,
                        ni >= 1,
                ;
                assert(q < g0.len() * w);
                assert(src[q] == seq_bit(g0, w, q as nat));
                assert(rhs[p] == src[sx + sy * ni]);
                assert(lhs[p] == rhs[p]);
            }
        }
    }
    assert(lhs =~= rhs);
}

/// Round trip through a double mirror: mirroring a move twice gives the
/// move back, so a board shifted by mirror(mirror(m)) is bit-identical to
/// the same board shifted by m alone.
pub proof fn lemma_double_mirror_shift(g: Seq<bool>, n: nat, m: Move)
    ensures
        crate::moves::spec_mirror(crate::moves::spec_mirror(m)) == m,
        shift_grid(
            g,
            n,
            crate::moves::move_dx(crate::moves::spec_mirror(crate::moves::spec_mirror(m))),
            crate::moves::move_dy(crate::moves::spec_mirror(crate::moves::spec_mirror(m))),
        ) == shift_grid(g, n, crate::moves::move_dx(m), crate::moves::move_dy(m)),
{
    crate::moves::lemma_mirror_mirror(m);
}

/// Edge containment: a full-column pattern shifted left by more cells than
/// its column index empties the board entirely; bits pushed past an edge
/// are dropped, never wrapped to the opposite edge.
pub proof fn lemma_edge_containment(g: Seq<bool>, n: nat, c: usize, k: usize)
    requires
        n >= 1,
        g.len() == n * n,
        c < n,
        k > c,
        forall|p: int| 0 <= p < g.len() ==> (#[trigger] g[p] == ((p % (n as int)) == c)),
    ensures
        crate::grid::count_true(shift_grid(g, n, -(k as int), 0)) == 0,
{
    let ni = n as int;
    let res = shift_grid(g, n, -(k as int), 0);
    assert forall|p: int| 0 <= p < res.len() implies !res[p] by {
        lemma_fundamental_div_mod(p, ni);
        let x = p % ni;
        let y = p / ni;
        assert(0 <= x < ni);
        assert(0 <= y < ni) by (nonlinear_arith)
            requires
                0 <= p < ni * ni,
                p == ni * y + x,
                0 <= x < ni,
                ni >= 1,
        ;
        let sx = x + (k as int);
        if 0 <= sx < ni {
            assert(0 <= sx + y * ni < ni * ni) by (nonlinear_arith)
                requires
                    0 <= sx < ni,
                    0 <= y < ni,
                    ni >= 1,
            ;
            lemma_pos_parts(y, sx, ni);
            assert(g[sx + y * ni] == (((sx + y * ni) % ni) == c));
            assert(((sx + y * ni) % ni) == sx);
            assert(sx > c);
        }
    }
    crate::grid::lemma_count_true_zero(res);
}

/// A translation by (0, 0) leaves every cell in place.
proof fn lemma_shift_grid_identity(g: Seq<bool>, n: nat)
    requires
        n >= 1,
        g.len() == n * n,
    ensures
        shift_grid(g, n, 0, 0) == g,
{
    let ni = n as int;
    assert forall|p: int| 0 <= p < g.len() implies shift_grid(g, n, 0, 0)[p] == g[p] by {
        lemma_fundamental_div_mod(p, ni);
        let x = p % ni;
        let y = p / ni;
        assert(0 <= x < ni);
        assert(0 <= y < ni) by (nonlinear_arith)
            requires
                0 <= p < ni * ni,
                p == ni * y + x,
                0 <= x < ni,
                ni >= 1,
        ;
        assert(x + y * ni == p) by (nonlinear_arith)
            requires
                p == ni * y + x,
        ;
    }
    assert(shift_grid(g, n, 0, 0) =~= g);
}

/// A displacement of N or more cells in either axis pushes every source
/// cell off the board: the translated grid is all clear.
proof fn lemma_shift_grid_all_clear(g: Seq<bool>, n: nat, dx: int, dy: int)
    requires
        n >= 1,
        g.len() == n * n,
        dx <= -(n as int) || dx >= n || dy <= -(n as int) || dy >= n,
    ensures
        forall|p: int| 0 <= p < g.len() ==> !#[trigger] shift_grid(g, n, dx, dy)[p],
{
    let ni = n as int;
    assert forall|p: int| 0 <= p < g.len() implies !#[trigger] shift_grid(g, n, dx, dy)[p] by {
        lemma_fundamental_div_mod(p, ni);
        let x = p % ni;
        let y = p / ni;
        assert(0 <= x < ni);
        assert(0 <= y < ni) by (nonlinear_arith)
            requires
                0 <= p < ni * ni,
                p == ni * y + x,
                0 <= x < ni,
                ni >= 1,
        ;
    }
}

impl BitBoard {
    /// Translates the board by a vertical run of `v` cells (up or down) and
    /// a horizontal offset of `h` cells (right or left), both below N: the
    /// bit pattern is shifted across the blocks and the edge mask drops any
    /// bit that would have wrapped around a row edge.
    fn shift_parts(&mut self, up: bool, v: usize, right: bool, h: usize)
        requires
            old(self).wf(),
            v < old(self).n,
            h < old(self).n,
        ensures
            final(self).wf(),
            final(self).side() == old(self).side(),
            final(self).width() == old(self).width(),
            final(self)@ == shift_grid(
                old(self)@,
                old(self).side(),
                if right {
                    h as int
                } else {
                    -(h as int)
                },
                if up {
                    v as int
                } else {
                    -(v as int)
                },
            ),
    {
        let n = self.n;
        let w = self.w;
        let ghost ni = n as int;
        let ghost dxg: int = if right {
            h as int
        } else {
            -(h as int)
        };
        let ghost dyg: int = if up {
            v as int
        } else {
            -(v as int)
        };
        proof {
            assert((v as int) * ni + (h as int) < ni * ni) by (nonlinear_arith)
                requires
                    0 <= (v as int) < ni,
                    0 <= (h as int) < ni,
            ;
        }
        let vn = v * n;
        let up_dir: bool;
        let amount: usize;
        if up {
            if right {
                up_dir = true;
                amount = vn + h;
            } else if vn >= h {
                up_dir = true;
                amount = vn - h;
            } else {
                up_dir = false;
                amount = h - vn;
            }
        } else {
            if !right {
                up_dir = false;
                amount = vn + h;
            } else if vn >= h {
                up_dir = false;
                amount = vn - h;
            } else {
                up_dir = true;
                amount = h - vn;
            }
        }
        let ghost s: int = dyg * ni + dxg;
        proof {
            assert(dyg * ni == if up {
                (v as int) * ni
            } else {
                -((v as int) * ni)
            }) by (nonlinear_arith)
                requires
                    dyg == if up {
                        v as int
                    } else {
                        -(v as int)
                    },
            ;
            assert(s == if up_dir {
                amount as int
            } else {
                -(amount as int)
            });
        }
        let ghost g0 = self.blocks@;
        let ghost len = g0.len();
        let ghost wn = w as nat;
        proof {
            crate::sizes::lemma_ceil_div((n * n) as nat, wn);
        }
        if up_dir {
            self.shift_up(amount);
        } else {
            self.shift_down(amount);
        }
        proof {
            assert forall|p: nat|
                p < len * wn implies #[trigger] seq_bit(self.blocks@, wn, p) == (0 <= p - s < len
                * wn && seq_bit(g0, wn, (p - s) as nat)) by {
                assert(self.blocks@.len() == len);
                assert(self.width() == wn);
                assert(self.w == w);
                if up_dir {
                    assert(seq_bit(self.blocks@, wn, p) == (p >= amount && seq_bit(
                        g0,
                        wn,
                        (p - amount) as nat,
                    )));
                } else {
                    assert(seq_bit(self.blocks@, wn, p) == (p + amount < len * wn && seq_bit(
                        g0,
                        wn,
                        (p + amount) as nat,
                    )));
                }
            }
        }
        let ghost g1 = self.blocks@;
        if h > 0 {
            if right {
                self.apply_edge_mask(EdgeMask::Left(h));
            } else {
                self.apply_edge_mask(EdgeMask::Right(h));
            }
        }
        proof {
            assert forall|p: nat|
                p < len * wn implies #[trigger] seq_bit(self.blocks@, wn, p) == (0 <= p - s < len
                * wn && seq_bit(g0, wn, (p - s) as nat) && (dxg > 0 ==> (p % (n as nat)) >= dxg) && (
            dxg < 0 ==> ((p % (n as nat)) as int) - dxg < ni)) by {
                assert(self.blocks@.len() == len);
                assert(self.width() == wn);
                assert(self.w == w);
                assert(self.n == n);
                if h > 0 {
                    assert(seq_bit(self.blocks@, wn, p) == (seq_bit(g1, wn, p) && mask_allows(
                        if right {
                            EdgeMask::Left(h)
                        } else {
                            EdgeMask::Right(h)
                        },
                        n as nat,
                        (p as int) % ni,
                    )));
                }
            }
        }
        let ghost g2 = self.blocks@;
        self.apply_board_mask();
        proof {
            assert forall|p: nat|
                p < len * wn implies #[trigger] seq_bit(self.blocks@, wn, p) == ({
                let q = p - s;
                &&& 0 <= q < len * wn
                &&& seq_bit(g0, wn, q as nat)
                &&& (dxg > 0 ==> p % (n as nat) >= dxg)
                &&& (dxg < 0 ==> ((p % (n as nat)) as int) - dxg < ni)
                &&& p < (n as nat) * (n as nat)
            }) by {
                assert(self.blocks@.len() == len);
                assert(self.width() == wn);
                assert(self.w == w);
                assert(self.n == n);
                assert(seq_bit(self.blocks@, wn, p) == (seq_bit(g2, wn, p) && p < (n as int) * (
                n as int)));
            }
            assert forall|p: nat|
                (n as nat) * (n as nat) <= p < g0.len() * wn implies !#[trigger] seq_bit(
                g0,
                wn,
                p,
            ) by {
                assert(!seq_bit(old(self).blocks@, old(self).width(), p));
            }
            lemma_shift_cells(g0, self.blocks@, n as nat, wn, dxg, dyg);
            assert(self@ =~= Seq::new(
                ((n as nat) * (n as nat)) as nat,
                |p: int| seq_bit(self.blocks@, wn, p as nat),
            ));
            assert(old(self)@ =~= Seq::new(
                ((n as nat) * (n as nat)) as nat,
                |p: int| seq_bit(g0, wn, p as nat),
            ));
            assert(self@ == shift_grid(old(self)@, old(self).side(), dxg, dyg));
        }
    }

    /// Applies a move in place: the board becomes its own pattern translated
    /// by the move's displacement. Bits shifted past any edge are dropped,
    /// never wrapped, and a magnitude at or beyond N pushes all content off
    /// the board.
    pub fn shl_assign(&mut self, m: Move)
        requires
            old(self).wf(),
        ensures
            final(self).wf(),
            final(self).side() == old(self).side(),
            final(self).width() == old(self).width(),
            final(self)@ == shift_grid(
                old(self)@,
                old(self).side(),
                crate::moves::move_dx(m),
                crate::moves::move_dy(m),
            ),
    {
        let ghost n = self.side();
        match m {
            Move::Identity => {
                proof {
                    lemma_shift_grid_identity(self@, n);
                }
            },
            Move::Up(i) => {
                if i < self.n {
                    self.shift_parts(true, i, true, 0);
                } else {
                    self.shl_clear(m);
                }
            },
            Move::Down(i) => {
                if i < self.n {
                    self.shift_parts(false, i, true, 0);
                } else {
                    self.shl_clear(m);
                }
            },
            Move::Left(i) => {
                if i < self.n {
                    self.shift_parts(true, 0, false, i);
                } else {
                    self.shl_clear(m);
                }
            },
            Move::Right(i) => {
                if i < self.n {
                    self.shift_parts(true, 0, true, i);
                } else {
                    self.shl_clear(m);
                }
            },
            Move::UpLeft(u, l) => {
                if u < self.n && l < self.n {
                    self.shift_parts(true, u, false, l);
                } else {
                    self.shl_clear(m);
                }
            },
            Move::UpRight(u, r) => {
                if u < self.n && r < self.n {
                    self.shift_parts(true, u, true, r);
                } else {
                    self.shl_clear(m);
                }
            },
            Move::DownLeft(d, l) => {
                if d < self.n && l < self.n {
                    self.shift_parts(false, d, false, l);
                } else {
                    self.shl_clear(m);
                }
            },
            Move::DownRight(d, r) => {
                if d < self.n && r < self.n {
                    self.shift_parts(false, d, true, r);
                } else {
                    self.shl_clear(m);
                }
            },
        }
    }

    /// The degenerate shift: some magnitude reaches N, so every bit leaves
    /// the board and the whole storage is cleared.
    fn shl_clear(&mut self, m: Move)
        requires
            old(self).wf(),
            crate::moves::move_dx(m) <= -(old(self).n as int) || crate::moves::move_dx(m) >= old(
                self,
            ).n || crate::moves::move_dy(m) <= -(old(self).n as int) || crate::moves::move_dy(m)
                >= old(self).n,
        ensures
            final(self).wf(),
            final(self).side() == old(self).side(),
            final(self).width() == old(self).width(),
            final(self)@ == shift_grid(
                old(self)@,
                old(self).side(),
                crate::moves::move_dx(m),
                crate::moves::move_dy(m),
            ),
    {
        let ghost n = self.side();
        let ghost dx = crate::moves::move_dx(m);
        let ghost dy = crate::moves::move_dy(m);
        self.clear_all();
        proof {
            lemma_shift_grid_all_clear(old(self)@, n, dx, dy);
            crate::sizes::lemma_ceil_div((self.n * self.n) as nat, self.w as nat);
            assert forall|p: int| 0 <= p < self@.len() implies !self@[p] by {
                assert(!seq_bit(self.blocks@, self.width(), p as nat));
            }
            assert(self@ =~= shift_grid(old(self)@, n, dx, dy));
        }
    }

    /// Raw bit shift toward higher positions, for advanced use: slides the
    /// packed pattern by `s` bit positions with no edge masking, so a
    /// horizontal component wraps across row boundaries. The board
    /// invariant is still restored afterwards.
    pub fn shift_bits_up(&mut self, s: usize)
        requires
            old(self).wf(),
        ensures
            final(self).wf(),
            final(self).side() == old(self).side(),
            final(self).width() == old(self).width(),
            forall|p: int|
                0 <= p < final(self)@.len() ==> #[trigger] final(self)@[p] == (p >= s && old(
                    self,
                )@[p - s]),
    {
        let ghost g0 = self.blocks@;
        let ghost len = g0.len();
        let ghost wn = self.w as nat;
        let ghost nn = (self.n * self.n) as nat;
        proof {
            crate::sizes::lemma_ceil_div(nn, wn);
        }
        self.shift_up(s);
        self.apply_board_mask();
        proof {
            assert forall|p: int| 0 <= p < self@.len() implies #[trigger] self@[p] == (p >= s
                && old(self)@[p - s]) by {
                assert(seq_bit(self.blocks@, wn, p as nat) == (seq_bit(g0, wn, (p - s) as nat) && p
                    >= s && p < nn));
            }
        }
    }

    /// Raw bit shift toward lower positions, for advanced use: slides the
    /// packed pattern by `s` bit positions with no edge masking, so a
    /// horizontal component wraps across row boundaries. The board
    /// invariant is still restored afterwards.
    pub fn shift_bits_down(&mut self, s: usize)
        requires
            old(self).wf(),
        ensures
            final(self).wf(),
            final(self).side() == old(self).side(),
            final(self).width() == old(self).width(),
            forall|p: int|
                0 <= p < final(self)@.len() ==> #[trigger] final(self)@[p] == (p + s < old(
                    self,
                )@.len() && old(self)@[p + s]),
    {
        let ghost g0 = self.blocks@;
        let ghost len = g0.len();
        let ghost wn = self.w as nat;
        let ghost nn = (self.n * self.n) as nat;
        proof {
            crate::sizes::lemma_ceil_div(nn, wn);
        }
        self.shift_down(s);
        self.apply_board_mask();
        proof {
            assert forall|p: int| 0 <= p < self@.len() implies #[trigger] self@[p] == (p + s < nn
                && old(self)@[p + s]) by {
                assert(seq_bit(self.blocks@, wn, p as nat) == (p + s < len * wn && seq_bit(
                    g0,
                    wn,
                    (p + s) as nat,
                ) && p < nn));
                if nn <= p + s < len * wn {
                    assert(!seq_bit(old(self).blocks@, old(self).width(), (p + s) as nat));
                }
            }
        }
    }

    /// The board shifted by a move, leaving the receiver untouched.
    pub fn shl(&self, m: Move) -> (r: BitBoard)
        requires
            self.wf(),
        ensures
            r.wf(),
            r.side() == self.side(),
            r.width() == self.width(),
            r@ == shift_grid(
                self@,
                self.side(),
                crate::moves::move_dx(m),
                crate::moves::move_dy(m),
            ),
    {
        let mut r = self.clone();
        r.shl_assign(m);
        r
    }

    /// A board with exactly the cells whose column the edge band allows:
    /// the mask that a horizontal shift of the band's width applies,
    /// materialized as a board.
    pub fn edge_mask(n: usize, w: usize, m: EdgeMask) -> (r: BitBoard)
        requires
            crate::board::valid_shape(n, w),
        ensures
            r.wf(),
            r.side() == n,
            r.width() == w,
            forall|x: usize, y: usize|
                x < n && y < n ==> #[trigger] r.spec_is_set(x, y) == mask_allows(
                    m,
                    n as nat,
                    x as int,
                ),
    {
        let mut r = BitBoard::empty(n, w);
        let len = r.blocks.len();
        let ghost wn = w as nat;
        proof {
            crate::sizes::lemma_ceil_div((n * n) as nat, wn);
        }
        let mut i: usize = 0;
        while i < len
            invariant
                r.storage_ok(),
                r.n == n,
                r.w == w,
                len == r.blocks@.len(),
                (len as int) * (w as int) <= usize::MAX,
                i <= len,
                forall|p: nat|
                    p < i * w ==> #[trigger] seq_bit(r.blocks@, w as nat, p) == mask_allows(
                        m,
                        n as nat,
                        (p as int) % (n as int),
                    ),
            decreases len - i,
        {
            proof {
                assert((i as int) * (w as int) + (w as int) <= (len as int) * (w as int))
                    by (nonlinear_arith)
                    requires
                        i + 1 <= len,
                        w >= 1,
                ;
            }
            let start = i * w;
            let mb = edge_mask_block(n, w, m, i, start);
            let ghost prev_blocks = r.blocks@;
            r.blocks.set(i, mb);
            proof {
                let wi = w as int;
                let ii = i as int;
                assert(((ii + 1) * wi) == ii * wi + wi) by (nonlinear_arith);
                assert forall|p: nat| p < (ii + 1) * wi implies #[trigger] seq_bit(
                    r.blocks@,
                    w as nat,
                    p,
                ) == mask_allows(m, n as nat, (p as int) % (n as int)) by {
                    if p < ii * wi {
                        lemma_pos_in_block(ii, wi, p as int);
                        assert(r.blocks@[(p as int) / wi] == prev_blocks[(p as int) / wi]);
                        assert(seq_bit(r.blocks@, w as nat, p) == seq_bit(prev_blocks, w as nat, p));
                    } else {
                        let jj = (p - ii * wi) as int;
                        assert(0 <= jj < wi);
                        lemma_pos_parts(ii, jj, wi);
                        assert(seq_bit(r.blocks@, w as nat, p) == nth_bit(mb, jj as u64));
                        assert((i * w + (jj as u64)) as int == p as int);
                    }
                }
            }
            i = i + 1;
        }
        r.apply_board_mask();
        proof {
            let ni = n as int;
            assert forall|x: usize, y: usize| x < n && y < n implies #[trigger] r.spec_is_set(x, y)
                == mask_allows(m, n as nat, x as int) by {
                let p = (x as int) + (y as int) * ni;
                assert(0 <= p < ni * ni) by (nonlinear_arith)
                    requires
                        p == (x as int) + (y as int) * ni,
                        0 <= (x as int) < ni,
                        0 <= (y as int) < ni,
                ;
                lemma_pos_parts(y as int, x as int, ni);
                assert((p % ni) == x as int);
                assert(seq_bit(r.blocks@, r.width(), p as nat) == mask_allows(
                    m,
                    n as nat,
                    x as int,
                ));
            }
        }
        r
    }
}

} // verus!
