use bitboard::{BitBoard, Move, Moves, Rotation};

#[test]
fn empty_builder_collects_to_empty_board() {
    let bb = BitBoard::new(5, 8, vec![(2, 2)]);
    let result = bb.moves().collect();
    assert_eq!(result.count_ones(), 0);
    assert_eq!(result.side_len(), 5);
    assert_eq!(result.block_width(), 8);
}

#[test]
fn translate_and_collect_unions_shifted_copies() {
    let bb = BitBoard::new(5, 8, vec![(2, 2)]);
    let result = bb
        .moves()
        .translate(Move::Up(1))
        .translate(Move::Right(2))
        .collect();
    assert_eq!(result.count_ones(), 2);
    assert!(result.is_set(2, 3));
    assert!(result.is_set(4, 2));
    assert!(!result.is_set(2, 2));
}

#[test]
fn identity_keeps_the_origin_square() {
    let bb = BitBoard::new(5, 8, vec![(2, 2)]);
    let result = bb.moves().translate(Move::Up(1)).identity().collect();
    assert_eq!(result.count_ones(), 2);
    assert!(result.is_set(2, 3));
    assert!(result.is_set(2, 2));
}

#[test]
fn directional_helpers_append_the_matching_moves() {
    let bb = BitBoard::new(7, 32, vec![(3, 3)]);
    let result = bb
        .moves()
        .up(1)
        .down(2)
        .left(3)
        .right(1)
        .upleft(1, 1)
        .upright(1, 2)
        .downleft(2, 1)
        .downright(2, 2)
        .collect();
    assert!(result.is_set(3, 4));
    assert!(result.is_set(3, 1));
    assert!(result.is_set(0, 3));
    assert!(result.is_set(4, 3));
    assert!(result.is_set(2, 4));
    assert!(result.is_set(5, 4));
    assert!(result.is_set(2, 1));
    assert!(result.is_set(5, 1));
    assert_eq!(result.count_ones(), 8);
}

#[test]
fn repeat_scales_each_move_up_to_the_factor() {
    let bb = BitBoard::new(8, 64, vec![(0, 0)]);
    let result = bb.moves().translate(Move::Up(1)).repeat(8).collect();
    // Factors 1 through 8 of Up(1): rows 1 through 7 stay on the board.
    for y in 0..8 {
        assert_eq!(result.is_set(0, y), y >= 1);
    }
    assert_eq!(result.count_ones(), 7);
}

#[test]
fn rotate_appends_rotated_copies() {
    let bb = BitBoard::new(5, 8, vec![(2, 2)]);
    let result = bb
        .moves()
        .translate(Move::Up(1))
        .rotate(Rotation::Clockwise)
        .collect();
    assert_eq!(result.count_ones(), 2);
    assert!(result.is_set(2, 3));
    assert!(result.is_set(3, 2));
}

#[test]
fn mirror_appends_mirrored_copies() {
    let bb = BitBoard::new(5, 8, vec![(2, 2)]);
    let result = bb
        .moves()
        .translate(Move::UpRight(1, 1))
        .mirror()
        .collect();
    assert_eq!(result.count_ones(), 2);
    assert!(result.is_set(3, 3));
    assert!(result.is_set(1, 1));
}

#[test]
fn chained_order_matters() {
    // In chained mode a bit pushed off the board is gone for good, so the
    // order of the calls is semantically significant.
    let bb = BitBoard::new(5, 8, vec![(0, 4)]);
    let a = Moves::new(bb.clone(), false).up(2).down(2).collect();
    assert_eq!(a.count_ones(), 0);
    let b = Moves::new(bb, false).down(2).up(2).collect();
    assert_eq!(b.count_ones(), 1);
    assert!(b.is_set(0, 4));
    assert_ne!(a, b);
}

#[test]
fn queen_attack_pattern_from_center() {
    // An 8x8 board over 64-bit blocks with a single piece at (4, 4); the
    // builder expands one upward step and one diagonal step into all eight
    // rays of a queen.
    let bb = BitBoard::new(8, 64, vec![(4, 4)]);
    let queen = bb
        .moves()
        .translate(Move::Up(1))
        .translate(Move::UpRight(1, 1))
        .rotate(Rotation::Clockwise)
        .mirror()
        .repeat(8)
        .collect();
    for x in 0..8i64 {
        for y in 0..8i64 {
            let dx = x - 4;
            let dy = y - 4;
            let on_ray = (dx == 0 || dy == 0 || dx.abs() == dy.abs()) && !(dx == 0 && dy == 0);
            assert_eq!(queen.is_set(x as usize, y as usize), on_ray);
        }
    }
    assert_eq!(queen.count_ones(), 27);
}

#[test]
fn knight_moves_from_center() {
    let moves = BitBoard::make_moves_from(8, 64, 4, 4)
        .upright(2, 1)
        .upright(1, 2)
        .rotate(Rotation::Clockwise)
        .mirror()
        .collect();
    let expected = [
        (5, 6),
        (6, 5),
        (6, 3),
        (5, 2),
        (3, 2),
        (2, 3),
        (2, 5),
        (3, 6),
    ];
    for &(x, y) in expected.iter() {
        assert!(moves.is_set(x, y));
    }
    assert_eq!(moves.count_ones(), 8);
}

#[test]
fn make_moves_from_starts_from_a_single_cell() {
    let result = BitBoard::make_moves_from(5, 8, 1, 1).identity().collect();
    assert_eq!(result.count_ones(), 1);
    assert!(result.is_set(1, 1));
}

#[test]
fn chained_mode_displaces_a_running_board() {
    let bb = BitBoard::new(5, 8, vec![(0, 0)]);
    let result = Moves::new(bb, false)
        .up(1)
        .right(2)
        .up(1)
        .collect();
    assert_eq!(result.count_ones(), 1);
    assert!(result.is_set(2, 2));
}

#[test]
fn chained_mode_without_moves_returns_the_source() {
    let bb = BitBoard::new(5, 8, vec![(3, 1), (0, 4)]);
    let result = Moves::new(bb.clone(), false).collect();
    assert_eq!(result, bb);
}

#[test]
fn combine_mode_freezes_the_source() {
    // In combine mode each move applies to the frozen source, so two
    // opposite unit moves land on both neighbours, not back on the start.
    let bb = BitBoard::new(5, 8, vec![(2, 2)]);
    let result = Moves::new(bb, true).up(1).down(1).collect();
    assert_eq!(result.count_ones(), 2);
    assert!(result.is_set(2, 3));
    assert!(result.is_set(2, 1));
}

#[test]
fn moves_that_leave_the_board_contribute_nothing() {
    let bb = BitBoard::new(3, 8, vec![(1, 1)]);
    let result = bb.moves().up(2).up(5).right(1).collect();
    assert_eq!(result.count_ones(), 1);
    assert!(result.is_set(2, 1));
}
