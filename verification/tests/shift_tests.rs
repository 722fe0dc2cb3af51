use bitboard::{BitBoard, EdgeMask, Move};

const SHAPES: [(usize, usize); 10] = [
    (2, 8),
    (3, 8),
    (5, 8),
    (8, 8),
    (20, 8),
    (3, 16),
    (5, 32),
    (7, 32),
    (8, 64),
    (20, 64),
];

#[test]
fn move_left_works() {
    for &(n, w) in SHAPES.iter() {
        let bb = BitBoard::new(n, w, vec![(n - 1, 0)]);
        let bb = bb.shl(Move::Left(n - 1));
        assert!(bb.is_set(0, 0));
        assert_eq!(bb.count_ones(), 1);
    }
}

#[test]
fn move_right_works() {
    for &(n, w) in SHAPES.iter() {
        let bb = BitBoard::new(n, w, vec![(0, 0)]);
        let bb = bb.shl(Move::Right(n - 1));
        assert!(bb.is_set(n - 1, 0));
        assert_eq!(bb.count_ones(), 1);
    }
}

#[test]
fn move_up_works() {
    for &(n, w) in SHAPES.iter() {
        let bb = BitBoard::new(n, w, vec![(0, 0)]);
        let bb = bb.shl(Move::Up(n - 1));
        assert!(bb.is_set(0, n - 1));
        assert_eq!(bb.count_ones(), 1);
    }
}

#[test]
fn move_down_works() {
    for &(n, w) in SHAPES.iter() {
        let bb = BitBoard::new(n, w, vec![(0, n - 1)]);
        let bb = bb.shl(Move::Down(n - 1));
        assert!(bb.is_set(0, 0));
        assert_eq!(bb.count_ones(), 1);
    }
}

#[test]
fn move_upright_works() {
    for &(n, w) in SHAPES.iter() {
        let bb = BitBoard::new(n, w, vec![(0, 0)]);
        let bb = bb.shl(Move::UpRight(n - 1, n - 1));
        assert!(bb.is_set(n - 1, n - 1));
        assert_eq!(bb.count_ones(), 1);
    }
}

#[test]
fn move_upleft_works() {
    for &(n, w) in SHAPES.iter() {
        let bb = BitBoard::new(n, w, vec![(n - 1, 0)]);
        let bb = bb.shl(Move::UpLeft(n - 1, n - 1));
        assert!(bb.is_set(0, n - 1));
        assert_eq!(bb.count_ones(), 1);
    }
}

#[test]
fn move_downright_works() {
    for &(n, w) in SHAPES.iter() {
        let bb = BitBoard::new(n, w, vec![(0, n - 1)]);
        let bb = bb.shl(Move::DownRight(n - 1, n - 1));
        assert!(bb.is_set(n - 1, 0));
        assert_eq!(bb.count_ones(), 1);
    }
}

#[test]
fn move_downleft_works() {
    for &(n, w) in SHAPES.iter() {
        let bb = BitBoard::new(n, w, vec![(n - 1, n - 1)]);
        let bb = bb.shl(Move::DownLeft(n - 1, n - 1));
        assert!(bb.is_set(0, 0));
        assert_eq!(bb.count_ones(), 1);
    }
}

#[test]
fn move_doesnt_add_bits() {
    for &(n, w) in SHAPES.iter() {
        let bb = BitBoard::new(n, w, vec![(n - 1, n - 1)]);
        let bb = bb.shl(Move::Right(1));
        assert_eq!(bb.count_ones(), 0);
        let bb = bb.shl(Move::Left(1));
        assert_eq!(bb.count_ones(), 0);
    }
}

#[test]
fn left_edge_mask_works() {
    for &(n, w) in SHAPES.iter() {
        for column in 0..n {
            let init: Vec<(usize, usize)> = (0..n).map(|i| (column, i)).collect();
            let bb = BitBoard::new(n, w, init);
            assert_eq!(bb.count_ones(), n);
            let bb = bb.shl(Move::Left(column + 1));
            assert_eq!(bb.count_ones(), 0);
        }
    }
}

#[test]
fn right_edge_mask_works() {
    for &(n, w) in SHAPES.iter() {
        for column in 0..n {
            let init: Vec<(usize, usize)> = (0..n).map(|i| (n - column - 1, i)).collect();
            let bb = BitBoard::new(n, w, init);
            assert_eq!(bb.count_ones(), n);
            let bb = bb.shl(Move::Right(column + 1));
            assert_eq!(bb.count_ones(), 0);
        }
    }
}

#[test]
fn single_bit_walks_one_step() {
    // A 5x5 board over 8-bit blocks: a bit at the origin moves up one row,
    // then right one column, keeping the count at one throughout.
    let bb = BitBoard::new(5, 8, vec![(0, 0)]);
    let up = bb.shl(Move::Up(1));
    assert!(up.is_set(0, 1));
    assert_eq!(up.count_ones(), 1);
    for x in 0..5 {
        for y in 0..5 {
            assert_eq!(up.is_set(x, y), x == 0 && y == 1);
        }
    }
    let right = up.shl(Move::Right(1));
    assert!(right.is_set(1, 1));
    assert_eq!(right.count_ones(), 1);
    for x in 0..5 {
        for y in 0..5 {
            assert_eq!(right.is_set(x, y), x == 1 && y == 1);
        }
    }
}

#[test]
fn shift_magnitude_equal_to_block_width() {
    // On an 8x8 board over 8-bit blocks, one row is exactly one block, so
    // Up(1) shifts by precisely the block width.
    let bb = BitBoard::new(8, 8, vec![(3, 2), (7, 0)]);
    let up = bb.shl(Move::Up(1));
    assert!(up.is_set(3, 3));
    assert!(up.is_set(7, 1));
    assert_eq!(up.count_ones(), 2);
    let down = up.shl(Move::Down(1));
    assert!(down.is_set(3, 2));
    assert!(down.is_set(7, 0));
    assert_eq!(down.count_ones(), 2);
}

#[test]
fn shift_magnitude_at_or_beyond_side_clears() {
    for &(n, w) in SHAPES.iter() {
        let full: Vec<(usize, usize)> =
            (0..n).flat_map(|x| (0..n).map(move |y| (x, y))).collect();
        let bb = BitBoard::new(n, w, full);
        assert_eq!(bb.count_ones(), n * n);
        assert_eq!(bb.shl(Move::Up(n)).count_ones(), 0);
        assert_eq!(bb.shl(Move::Down(n + 3)).count_ones(), 0);
        assert_eq!(bb.shl(Move::Left(n)).count_ones(), 0);
        assert_eq!(bb.shl(Move::Right(usize::MAX)).count_ones(), 0);
        assert_eq!(bb.shl(Move::UpRight(n, 0)).count_ones(), 0);
    }
}

#[test]
fn identity_move_changes_nothing() {
    let bb = BitBoard::new(5, 8, vec![(1, 2), (4, 4)]);
    let same = bb.shl(Move::Identity);
    assert_eq!(bb, same);
}

#[test]
fn shl_assign_matches_shl() {
    let bb = BitBoard::new(6, 64, vec![(2, 3)]);
    let shifted = bb.shl(Move::UpRight(1, 2));
    let mut in_place = bb.clone();
    in_place.shl_assign(Move::UpRight(1, 2));
    assert_eq!(shifted, in_place);
    assert!(in_place.is_set(4, 4));
    assert_eq!(in_place.count_ones(), 1);
}

#[test]
fn knight_leap_moves_are_representable() {
    let bb = BitBoard::new(8, 64, vec![(4, 4)]);
    let leap = bb.shl(Move::UpRight(2, 1));
    assert!(leap.is_set(5, 6));
    assert_eq!(leap.count_ones(), 1);
    let back = bb.shl(Move::DownLeft(2, 1));
    assert!(back.is_set(3, 2));
    assert_eq!(back.count_ones(), 1);
}

#[test]
fn double_mirror_shift_matches_plain_shift() {
    let moves = [
        Move::Up(2),
        Move::Left(1),
        Move::UpRight(1, 2),
        Move::DownLeft(2, 2),
        Move::Identity,
    ];
    for &(n, w) in SHAPES.iter() {
        let bb = BitBoard::new(n, w, vec![(n / 2, n / 2), (0, n - 1)]);
        for &m in moves.iter() {
            let twice = bb.shl(m.mirror().mirror());
            let once = bb.shl(m);
            assert_eq!(twice, once);
        }
    }
}

#[test]
fn edge_mask_board_left() {
    let bb = BitBoard::edge_mask(5, 8, EdgeMask::Left(2));
    for x in 0..5 {
        for y in 0..5 {
            assert_eq!(bb.is_set(x, y), x >= 2);
        }
    }
    assert_eq!(bb.count_ones(), 15);
}

#[test]
fn edge_mask_board_right() {
    let bb = BitBoard::edge_mask(5, 8, EdgeMask::Right(2));
    for x in 0..5 {
        for y in 0..5 {
            assert_eq!(bb.is_set(x, y), x < 3);
        }
    }
    assert_eq!(bb.count_ones(), 15);
}

#[test]
fn raw_bit_shifts_move_positions_without_edge_masking() {
    // On a 5x5 board, position 4 is (4, 0); one raw bit up lands on
    // position 5, which is (0, 1): raw shifts wrap across row boundaries.
    let mut bb = BitBoard::new(5, 8, vec![(4, 0)]);
    bb.shift_bits_up(1);
    assert!(bb.is_set(0, 1));
    assert_eq!(bb.count_ones(), 1);
    bb.shift_bits_down(1);
    assert!(bb.is_set(4, 0));
    assert_eq!(bb.count_ones(), 1);
    // A raw shift past the last cell drops the bit.
    bb.shift_bits_up(25);
    assert_eq!(bb.count_ones(), 0);
}

#[test]
fn same_shape_compares_side_and_width() {
    let a = BitBoard::empty(5, 8);
    let b = BitBoard::empty(5, 8);
    let c = BitBoard::empty(5, 16);
    let d = BitBoard::empty(6, 8);
    assert!(a.same_shape(&b));
    assert!(!a.same_shape(&c));
    assert!(!a.same_shape(&d));
}

#[test]
fn bitwise_ops_work() {
    let a = BitBoard::new(5, 8, vec![(0, 0), (1, 1), (2, 2)]);
    let b = BitBoard::new(5, 8, vec![(1, 1), (2, 2), (3, 3)]);
    let and = a.bitand(&b);
    assert_eq!(and.count_ones(), 2);
    assert!(and.is_set(1, 1) && and.is_set(2, 2));
    let or = a.bitor(&b);
    assert_eq!(or.count_ones(), 4);
    let xor = a.bitxor(&b);
    assert_eq!(xor.count_ones(), 2);
    assert!(xor.is_set(0, 0) && xor.is_set(3, 3));

    let mut c = a.clone();
    c.bitand_assign(&b);
    assert_eq!(c, and);
    let mut d = a.clone();
    d.bitor_assign(&b);
    assert_eq!(d, or);
    let mut e = a.clone();
    e.bitxor_assign(&b);
    assert_eq!(e, xor);
}

#[test]
fn shifts_preserve_trailing_invariant_observably() {
    // On shapes where N * N is not a multiple of the block width, content
    // shifted off the top must not leave phantom bits behind: every count
    // comes out exactly right afterwards.
    for &(n, w) in [(5usize, 8usize), (3, 16), (7, 32), (20, 64)].iter() {
        let full: Vec<(usize, usize)> =
            (0..n).flat_map(|x| (0..n).map(move |y| (x, y))).collect();
        let bb = BitBoard::new(n, w, full);
        let up = bb.shl(Move::Up(1));
        assert_eq!(up.count_ones(), n * (n - 1));
        let back = up.shl(Move::Down(1));
        assert_eq!(back.count_ones(), n * (n - 1));
        let left = bb.shl(Move::Left(1));
        assert_eq!(left.count_ones(), n * (n - 1));
    }
}
