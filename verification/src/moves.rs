//! The move algebra: a closed set of symbolic directional displacements
//! (the eight compass directions plus the identity), each carrying
//! non-negative magnitudes in cells, with combination, mirroring, rotation
//! and scalar multiplication.

use vstd::prelude::*;

verus! {

/// A directional displacement to apply to a board. Diagonals carry two
/// independent magnitudes (vertical first, then horizontal), so non-square
/// leaps such as a knight's (2, 1) are representable.
#[derive(Clone, Copy, PartialEq, Eq, Structural, Debug)]
pub enum Move {
    Identity,
    Left(usize),
    Right(usize),
    Up(usize),
    Down(usize),
    UpLeft(usize, usize),
    UpRight(usize, usize),
    DownLeft(usize, usize),
    DownRight(usize, usize),
}

/// A quarter-turn sense for rotating moves around the compass.
#[derive(Clone, Copy, PartialEq, Eq, Structural, Debug)]
pub enum Rotation {
    Clockwise,
    AntiClockwise,
}

/// Net horizontal displacement of a move in cells, positive toward larger x.
pub open spec fn move_dx(m: Move) -> int {
    match m {
        Move::Identity => 0,
        Move::Left(i) => -(i as int),
        Move::Right(i) => i as int,
        Move::Up(_) => 0,
        Move::Down(_) => 0,
        Move::UpLeft(_, l) => -(l as int),
        Move::UpRight(_, r) => r as int,
        Move::DownLeft(_, l) => -(l as int),
        Move::DownRight(_, r) => r as int,
    }
}

/// Net vertical displacement of a move in cells, positive toward larger y.
pub open spec fn move_dy(m: Move) -> int {
    match m {
        Move::Identity => 0,
        Move::Left(_) => 0,
        Move::Right(_) => 0,
        Move::Up(i) => i as int,
        Move::Down(i) => -(i as int),
        Move::UpLeft(u, _) => u as int,
        Move::UpRight(u, _) => u as int,
        Move::DownLeft(d, _) => -(d as int),
        Move::DownRight(d, _) => -(d as int),
    }
}

/// The merge of two moves: an orthogonal pair becomes the matching diagonal,
/// same-axis moves add their magnitudes, the identity is neutral, and any
/// other pair collapses to the identity.
pub open spec fn spec_combine(a: Move, b: Move) -> Move {
    match (a, b) {
        (Move::Up(u), Move::Left(l)) => Move::UpLeft(u, l),
        (Move::Left(l), Move::Up(u)) => Move::UpLeft(u, l),
        (Move::Up(u), Move::Right(r)) => Move::UpRight(u, r),
        (Move::Right(r), Move::Up(u)) => Move::UpRight(u, r),
        (Move::Down(d), Move::Left(l)) => Move::DownLeft(d, l),
        (Move::Left(l), Move::Down(d)) => Move::DownLeft(d, l),
        (Move::Down(d), Move::Right(r)) => Move::DownRight(d, r),
        (Move::Right(r), Move::Down(d)) => Move::DownRight(d, r),
        (Move::Up(i1), Move::Up(i2)) => Move::Up((i1 + i2) as usize),
        (Move::Down(i1), Move::Down(i2)) => Move::Down((i1 + i2) as usize),
        (Move::Left(i1), Move::Left(i2)) => Move::Left((i1 + i2) as usize),
        (Move::Right(i1), Move::Right(i2)) => Move::Right((i1 + i2) as usize),
        (Move::Identity, _) => b,
        (_, Move::Identity) => a,
        _ => Move::Identity,
    }
}

/// The magnitudes a combination would add stay within the machine.
pub open spec fn combine_ok(a: Move, b: Move) -> bool {
    match (a, b) {
        (Move::Up(i1), Move::Up(i2)) => i1 + i2 <= usize::MAX,
        (Move::Down(i1), Move::Down(i2)) => i1 + i2 <= usize::MAX,
        (Move::Left(i1), Move::Left(i2)) => i1 + i2 <= usize::MAX,
        (Move::Right(i1), Move::Right(i2)) => i1 + i2 <= usize::MAX,
        _ => true,
    }
}

/// The move with every direction swapped for its opposite; the identity is
/// its own mirror image.
pub open spec fn spec_mirror(m: Move) -> Move {
    match m {
        Move::Identity => Move::Identity,
        Move::Up(i) => Move::Down(i),
        Move::Down(i) => Move::Up(i),
        Move::Left(i) => Move::Right(i),
        Move::Right(i) => Move::Left(i),
        Move::UpLeft(u, l) => Move::DownRight(u, l),
        Move::UpRight(u, r) => Move::DownLeft(u, r),
        Move::DownRight(d, r) => Move::UpLeft(d, r),
        Move::DownLeft(d, l) => Move::UpRight(d, l),
    }
}

/// The move turned one quarter around the compass: Up becomes Right under a
/// clockwise turn, and each diagonal becomes the next diagonal over.
pub open spec fn spec_rotate(m: Move, r: Rotation) -> Move {
    match (m, r) {
        (Move::Up(i), Rotation::Clockwise) => Move::Right(i),
        (Move::Down(i), Rotation::AntiClockwise) => Move::Right(i),
        (Move::Down(i), Rotation::Clockwise) => Move::Left(i),
        (Move::Up(i), Rotation::AntiClockwise) => Move::Left(i),
        (Move::Left(i), Rotation::Clockwise) => Move::Up(i),
        (Move::Right(i), Rotation::AntiClockwise) => Move::Up(i),
        (Move::Right(i), Rotation::Clockwise) => Move::Down(i),
        (Move::Left(i), Rotation::AntiClockwise) => Move::Down(i),
        (Move::UpLeft(i1, i2), Rotation::Clockwise) => Move::UpRight(i1, i2),
        (Move::DownRight(i1, i2), Rotation::AntiClockwise) => Move::UpRight(i1, i2),
        (Move::UpRight(i1, i2), Rotation::Clockwise) => Move::DownRight(i1, i2),
        (Move::DownLeft(i1, i2), Rotation::AntiClockwise) => Move::DownRight(i1, i2),
        (Move::DownLeft(i1, i2), Rotation::Clockwise) => Move::UpLeft(i1, i2),
        (Move::UpRight(i1, i2), Rotation::AntiClockwise) => Move::UpLeft(i1, i2),
        (Move::DownRight(i1, i2), Rotation::Clockwise) => Move::DownLeft(i1, i2),
        (Move::UpLeft(i1, i2), Rotation::AntiClockwise) => Move::DownLeft(i1, i2),
        (Move::Identity, _) => Move::Identity,
    }
}

/// The move with every magnitude multiplied by `k`; the identity absorbs
/// any scaling.
pub open spec fn spec_scale(m: Move, k: usize) -> Move {
    match m {
        Move::Identity => Move::Identity,
        Move::Up(i) => Move::Up((i * k) as usize),
        Move::Down(i) => Move::Down((i * k) as usize),
        Move::Left(i) => Move::Left((i * k) as usize),
        Move::Right(i) => Move::Right((i * k) as usize),
        Move::UpLeft(u, l) => Move::UpLeft((u * k) as usize, (l * k) as usize),
        Move::UpRight(u, r) => Move::UpRight((u * k) as usize, (r * k) as usize),
        Move::DownLeft(d, l) => Move::DownLeft((d * k) as usize, (l * k) as usize),
        Move::DownRight(d, r) => Move::DownRight((d * k) as usize, (r * k) as usize),
    }
}

/// The magnitudes a scaling would produce stay within the machine.
pub open spec fn scale_ok(m: Move, k: usize) -> bool {
    match m {
        Move::Identity => true,
        Move::Up(i) => i * k <= usize::MAX,
        Move::Down(i) => i * k <= usize::MAX,
        Move::Left(i) => i * k <= usize::MAX,
        Move::Right(i) => i * k <= usize::MAX,
        Move::UpLeft(u, l) => u * k <= usize::MAX && l * k <= usize::MAX,
        Move::UpRight(u, r) => u * k <= usize::MAX && r * k <= usize::MAX,
        Move::DownLeft(d, l) => d * k <= usize::MAX && l * k <= usize::MAX,
        Move::DownRight(d, r) => d * k <= usize::MAX && r * k <= usize::MAX,
    }
}

/// A diagonal taken apart into its vertical and horizontal components; a
/// non-diagonal pairs with the identity.
pub open spec fn spec_split(m: Move) -> (Move, Move) {
    match m {
        Move::UpLeft(i, j) => (Move::Up(i), Move::Left(j)),
        Move::UpRight(i, j) => (Move::Up(i), Move::Right(j)),
        Move::DownLeft(i, j) => (Move::Down(i), Move::Left(j)),
        Move::DownRight(i, j) => (Move::Down(i), Move::Right(j)),
        Move::Up(i) => (Move::Up(i), Move::Identity),
        Move::Down(i) => (Move::Down(i), Move::Identity),
        Move::Left(i) => (Move::Left(i), Move::Identity),
        Move::Right(i) => (Move::Right(i), Move::Identity),
        Move::Identity => (Move::Identity, Move::Identity),
    }
}

impl Move {
    /// Merges this move with another, as `spec_combine` lays down.
    pub fn combine(self, other: Move) -> (r: Move)
        requires
            combine_ok(self, other),
        ensures
            r == spec_combine(self, other),
    {
        match (self, other) {
            (Move::Up(u), Move::Left(l)) => Move::UpLeft(u, l),
            (Move::Left(l), Move::Up(u)) => Move::UpLeft(u, l),
            (Move::Up(u), Move::Right(r)) => Move::UpRight(u, r),
            (Move::Right(r), Move::Up(u)) => Move::UpRight(u, r),
            (Move::Down(d), Move::Left(l)) => Move::DownLeft(d, l),
            (Move::Left(l), Move::Down(d)) => Move::DownLeft(d, l),
            (Move::Down(d), Move::Right(r)) => Move::DownRight(d, r),
            (Move::Right(r), Move::Down(d)) => Move::DownRight(d, r),
            (Move::Up(i1), Move::Up(i2)) => Move::Up(i1 + i2),
            (Move::Down(i1), Move::Down(i2)) => Move::Down(i1 + i2),
            (Move::Left(i1), Move::Left(i2)) => Move::Left(i1 + i2),
            (Move::Right(i1), Move::Right(i2)) => Move::Right(i1 + i2),
            (Move::Identity, _) => other,
            (_, Move::Identity) => self,
            _ => Move::Identity,
        }
    }

    /// The move with every direction swapped for its opposite.
    pub fn mirror(self) -> (r: Move)
        ensures
            r == spec_mirror(self),
    {
        match self {
            Move::Identity => Move::Identity,
            Move::Up(i) => Move::Down(i),
            Move::Down(i) => Move::Up(i),
            Move::Left(i) => Move::Right(i),
            Move::Right(i) => Move::Left(i),
            Move::UpLeft(u, l) => Move::DownRight(u, l),
            Move::UpRight(u, r) => Move::DownLeft(u, r),
            Move::DownRight(d, r) => Move::UpLeft(d, r),
            Move::DownLeft(d, l) => Move::UpRight(d, l),
        }
    }

    /// The move turned one quarter around the compass.
    pub fn rotate(self, r: Rotation) -> (res: Move)
        ensures
            res == spec_rotate(self, r),
    {
        match (self, r) {
            (Move::Up(i), Rotation::Clockwise) => Move::Right(i),
            (Move::Down(i), Rotation::AntiClockwise) => Move::Right(i),
            (Move::Down(i), Rotation::Clockwise) => Move::Left(i),
            (Move::Up(i), Rotation::AntiClockwise) => Move::Left(i),
            (Move::Left(i), Rotation::Clockwise) => Move::Up(i),
            (Move::Right(i), Rotation::AntiClockwise) => Move::Up(i),
            (Move::Right(i), Rotation::Clockwise) => Move::Down(i),
            (Move::Left(i), Rotation::AntiClockwise) => Move::Down(i),
            (Move::UpLeft(i1, i2), Rotation::Clockwise) => Move::UpRight(i1, i2),
            (Move::DownRight(i1, i2), Rotation::AntiClockwise) => Move::UpRight(i1, i2),
            (Move::UpRight(i1, i2), Rotation::Clockwise) => Move::DownRight(i1, i2),
            (Move::DownLeft(i1, i2), Rotation::AntiClockwise) => Move::DownRight(i1, i2),
            (Move::DownLeft(i1, i2), Rotation::Clockwise) => Move::UpLeft(i1, i2),
            (Move::UpRight(i1, i2), Rotation::AntiClockwise) => Move::UpLeft(i1, i2),
            (Move::DownRight(i1, i2), Rotation::Clockwise) => Move::DownLeft(i1, i2),
            (Move::UpLeft(i1, i2), Rotation::AntiClockwise) => Move::DownLeft(i1, i2),
            (Move::Identity, _) => Move::Identity,
        }
    }

    /// The move with every magnitude multiplied by `k`.
    pub fn scale(self, k: usize) -> (r: Move)
        requires
            scale_ok(self, k),
        ensures
            r == spec_scale(self, k),
    {
        match self {
            Move::Identity => Move::Identity,
            Move::Up(i) => Move::Up(i * k),
            Move::Down(i) => Move::Down(i * k),
            Move::Left(i) => Move::Left(i * k),
            Move::Right(i) => Move::Right(i * k),
            Move::UpLeft(u, l) => Move::UpLeft(u * k, l * k),
            Move::UpRight(u, r) => Move::UpRight(u * k, r * k),
            Move::DownLeft(d, l) => Move::DownLeft(d * k, l * k),
            Move::DownRight(d, r) => Move::DownRight(d * k, r * k),
        }
    }

    /// Takes a move apart into its vertical and horizontal components; for a
    /// non-diagonal move the second component is the identity.
    pub fn split(self) -> (r: (Move, Move))
        ensures
            r == spec_split(self),
    {
        match self {
            Move::UpLeft(i, j) => (Move::Up(i), Move::Left(j)),
            Move::UpRight(i, j) => (Move::Up(i), Move::Right(j)),
            Move::DownLeft(i, j) => (Move::Down(i), Move::Left(j)),
            Move::DownRight(i, j) => (Move::Down(i), Move::Right(j)),
            Move::Up(i) => (Move::Up(i), Move::Identity),
            Move::Down(i) => (Move::Down(i), Move::Identity),
            Move::Left(i) => (Move::Left(i), Move::Identity),
            Move::Right(i) => (Move::Right(i), Move::Identity),
            Move::Identity => (Move::Identity, Move::Identity),
        }
    }
}

/// A scaling that fits the machine at factor `i` also fits at any smaller
/// factor.
pub proof fn lemma_scale_ok_mono(m: Move, k: usize, i: usize)
    requires
        k <= i,
        scale_ok(m, i),
    ensures
        scale_ok(m, k),
{
    let ki = k as int;
    let ii = i as int;
    match m {
        Move::Identity => {},
        Move::Up(a) => lemma_mul_le_factor(a as int, ki, ii),
        Move::Down(a) => lemma_mul_le_factor(a as int, ki, ii),
        Move::Left(a) => lemma_mul_le_factor(a as int, ki, ii),
        Move::Right(a) => lemma_mul_le_factor(a as int, ki, ii),
        Move::UpLeft(a, b) => {
            lemma_mul_le_factor(a as int, ki, ii);
            lemma_mul_le_factor(b as int, ki, ii);
        },
        Move::UpRight(a, b) => {
            lemma_mul_le_factor(a as int, ki, ii);
            lemma_mul_le_factor(b as int, ki, ii);
        },
        Move::DownLeft(a, b) => {
            lemma_mul_le_factor(a as int, ki, ii);
            lemma_mul_le_factor(b as int, ki, ii);
        },
        Move::DownRight(a, b) => {
            lemma_mul_le_factor(a as int, ki, ii);
            lemma_mul_le_factor(b as int, ki, ii);
        },
    }
}

/// A product does not grow when its factor shrinks.
proof fn lemma_mul_le_factor(a: int, k: int, i: int)
    requires
        0 <= a,
        0 <= k <= i,
    ensures
        a * k <= a * i,
{
    assert(a * k <= a * i) by (nonlinear_arith)
        requires
            0 <= a,
            0 <= k <= i,
    ;
}

/// Mirroring is an involution: mirroring any move twice gives the move back.
pub proof fn lemma_mirror_mirror(m: Move)
    ensures
        spec_mirror(spec_mirror(m)) == m,
{
}

/// Rotation closure: four clockwise quarter turns return any move to
/// itself.
pub proof fn lemma_rotate_four(m: Move)
    ensures
        spec_rotate(
            spec_rotate(
                spec_rotate(spec_rotate(m, Rotation::Clockwise), Rotation::Clockwise),
                Rotation::Clockwise,
            ),
            Rotation::Clockwise,
        ) == m,
{
}

/// The two halves of a split move carry exactly the displacement of the
/// whole: their displacements add up to the original's.
pub proof fn lemma_split_displacement(m: Move)
    ensures
        move_dx(spec_split(m).0) + move_dx(spec_split(m).1) == move_dx(m),
        move_dy(spec_split(m).0) + move_dy(spec_split(m).1) == move_dy(m),
{
}

} // verus!
