use bitboard::{Move, Rotation};

#[test]
fn combine_orthogonal_pairs_become_diagonals() {
    assert_eq!(Move::Up(2).combine(Move::Left(1)), Move::UpLeft(2, 1));
    assert_eq!(Move::Left(1).combine(Move::Up(2)), Move::UpLeft(2, 1));
    assert_eq!(Move::Up(1).combine(Move::Right(3)), Move::UpRight(1, 3));
    assert_eq!(Move::Down(2).combine(Move::Left(2)), Move::DownLeft(2, 2));
    assert_eq!(Move::Right(4).combine(Move::Down(1)), Move::DownRight(1, 4));
}

#[test]
fn combine_same_axis_adds() {
    assert_eq!(Move::Up(1).combine(Move::Up(2)), Move::Up(3));
    assert_eq!(Move::Down(3).combine(Move::Down(4)), Move::Down(7));
    assert_eq!(Move::Left(1).combine(Move::Left(1)), Move::Left(2));
    assert_eq!(Move::Right(5).combine(Move::Right(0)), Move::Right(5));
}

#[test]
fn combine_identity_is_neutral() {
    assert_eq!(Move::Identity.combine(Move::Up(2)), Move::Up(2));
    assert_eq!(Move::Left(3).combine(Move::Identity), Move::Left(3));
    assert_eq!(Move::Identity.combine(Move::Identity), Move::Identity);
}

#[test]
fn combine_incompatible_collapses_to_identity() {
    assert_eq!(Move::Up(1).combine(Move::Down(1)), Move::Identity);
    assert_eq!(Move::Left(2).combine(Move::Right(3)), Move::Identity);
    assert_eq!(Move::UpLeft(1, 1).combine(Move::Up(1)), Move::Identity);
}

#[test]
fn mirror_swaps_opposites() {
    assert_eq!(Move::Up(3).mirror(), Move::Down(3));
    assert_eq!(Move::Down(3).mirror(), Move::Up(3));
    assert_eq!(Move::Left(2).mirror(), Move::Right(2));
    assert_eq!(Move::Right(2).mirror(), Move::Left(2));
    assert_eq!(Move::UpLeft(2, 1).mirror(), Move::DownRight(2, 1));
    assert_eq!(Move::UpRight(2, 1).mirror(), Move::DownLeft(2, 1));
    assert_eq!(Move::DownLeft(2, 1).mirror(), Move::UpRight(2, 1));
    assert_eq!(Move::DownRight(2, 1).mirror(), Move::UpLeft(2, 1));
    assert_eq!(Move::Identity.mirror(), Move::Identity);
}

#[test]
fn double_mirror_is_identity() {
    let samples = [
        Move::Identity,
        Move::Up(3),
        Move::Down(1),
        Move::Left(7),
        Move::Right(0),
        Move::UpLeft(2, 1),
        Move::UpRight(1, 2),
        Move::DownLeft(5, 5),
        Move::DownRight(0, 9),
    ];
    for &m in samples.iter() {
        assert_eq!(m.mirror().mirror(), m);
    }
}

#[test]
fn rotate_clockwise_steps_around_the_compass() {
    assert_eq!(Move::Up(2).rotate(Rotation::Clockwise), Move::Right(2));
    assert_eq!(Move::Right(2).rotate(Rotation::Clockwise), Move::Down(2));
    assert_eq!(Move::Down(2).rotate(Rotation::Clockwise), Move::Left(2));
    assert_eq!(Move::Left(2).rotate(Rotation::Clockwise), Move::Up(2));
    assert_eq!(Move::UpLeft(2, 1).rotate(Rotation::Clockwise), Move::UpRight(2, 1));
    assert_eq!(Move::UpRight(2, 1).rotate(Rotation::Clockwise), Move::DownRight(2, 1));
    assert_eq!(Move::DownRight(2, 1).rotate(Rotation::Clockwise), Move::DownLeft(2, 1));
    assert_eq!(Move::DownLeft(2, 1).rotate(Rotation::Clockwise), Move::UpLeft(2, 1));
}

#[test]
fn rotate_anticlockwise_reverses_clockwise() {
    let samples = [
        Move::Identity,
        Move::Up(3),
        Move::Down(1),
        Move::Left(7),
        Move::Right(4),
        Move::UpLeft(2, 1),
        Move::UpRight(1, 2),
        Move::DownLeft(5, 5),
        Move::DownRight(3, 9),
    ];
    for &m in samples.iter() {
        assert_eq!(m.rotate(Rotation::Clockwise).rotate(Rotation::AntiClockwise), m);
    }
}

#[test]
fn four_clockwise_rotations_return_the_move() {
    let samples = [
        Move::Identity,
        Move::Up(3),
        Move::Down(1),
        Move::Left(7),
        Move::Right(0),
        Move::UpLeft(2, 1),
        Move::UpRight(1, 2),
        Move::DownLeft(5, 5),
        Move::DownRight(0, 9),
    ];
    for &m in samples.iter() {
        let r = m
            .rotate(Rotation::Clockwise)
            .rotate(Rotation::Clockwise)
            .rotate(Rotation::Clockwise)
            .rotate(Rotation::Clockwise);
        assert_eq!(r, m);
    }
}

#[test]
fn scale_multiplies_every_magnitude() {
    assert_eq!(Move::Up(2).scale(3), Move::Up(6));
    assert_eq!(Move::Left(1).scale(0), Move::Left(0));
    assert_eq!(Move::UpRight(2, 1).scale(4), Move::UpRight(8, 4));
    assert_eq!(Move::DownLeft(3, 2).scale(2), Move::DownLeft(6, 4));
    assert_eq!(Move::Identity.scale(9), Move::Identity);
}

#[test]
fn split_takes_a_move_apart() {
    assert_eq!(Move::UpLeft(2, 1).split(), (Move::Up(2), Move::Left(1)));
    assert_eq!(Move::UpRight(1, 3).split(), (Move::Up(1), Move::Right(3)));
    assert_eq!(Move::DownLeft(4, 2).split(), (Move::Down(4), Move::Left(2)));
    assert_eq!(Move::DownRight(2, 2).split(), (Move::Down(2), Move::Right(2)));
    assert_eq!(Move::Up(5).split(), (Move::Up(5), Move::Identity));
    assert_eq!(Move::Left(1).split(), (Move::Left(1), Move::Identity));
    assert_eq!(Move::Identity.split(), (Move::Identity, Move::Identity));
}

#[test]
fn split_then_combine_restores_diagonals() {
    let samples = [
        Move::UpLeft(2, 1),
        Move::UpRight(1, 2),
        Move::DownLeft(3, 3),
        Move::DownRight(1, 4),
    ];
    for &m in samples.iter() {
        let (a, b) = m.split();
        assert_eq!(a.combine(b), m);
    }
}
