use bitboard::BitBoard;

/// Shapes exercised throughout: sides both below and above one block,
/// non-power-of-two sides, and cell counts that do and do not divide the
/// block width evenly.
const SHAPES: [(usize, usize); 10] = [
    (2, 8),
    (3, 8),
    (5, 8),
    (8, 8),
    (20, 8),
    (3, 16),
    (5, 32),
    (7, 32),
    (8, 64),
    (20, 64),
];

#[test]
fn default_works() {
    for &(n, w) in SHAPES.iter() {
        let bb = BitBoard::empty(n, w);
        assert_eq!(bb.count_ones(), 0);
        assert!(bb.is_empty());
        for x in 0..n {
            for y in 0..n {
                assert!(!bb.is_set(x, y));
            }
        }
    }
}

#[test]
fn new_works() {
    for &(n, w) in SHAPES.iter() {
        let initial: Vec<(usize, usize)> = (0..n).map(|i| (i, i)).collect();
        let bb = BitBoard::new(n, w, initial);
        for i in 0..n {
            assert!(bb.is_set(i, i));
        }
        assert_eq!(bb.count_ones(), n);
    }
}

#[test]
fn new_ignores_out_of_bounds() {
    let bb = BitBoard::new(4, 8, vec![(0, 0), (4, 0), (0, 4), (100, 100)]);
    assert_eq!(bb.count_ones(), 1);
    assert!(bb.is_set(0, 0));
    assert!(!bb.is_set(4, 0));
}

#[test]
fn set_works() {
    for &(n, w) in SHAPES.iter() {
        let mut bb = BitBoard::empty(n, w);
        for i in 0..n {
            for j in 0..n {
                bb.set(i, j);
            }
        }
        assert_eq!(bb.count_ones(), n * n);
    }
}

#[test]
fn set_is_idempotent_for_count() {
    let mut bb = BitBoard::empty(5, 8);
    bb.set(2, 3);
    assert_eq!(bb.count_ones(), 1);
    bb.set(2, 3);
    assert_eq!(bb.count_ones(), 1);
}

#[test]
fn set_out_of_bounds_is_ignored() {
    let mut bb = BitBoard::empty(5, 8);
    bb.set(5, 0);
    bb.set(0, 5);
    bb.set(1000, 1000);
    assert_eq!(bb.count_ones(), 0);
}

#[test]
fn unset_works() {
    let mut bb = BitBoard::new(5, 8, vec![(1, 1), (2, 2)]);
    assert_eq!(bb.count_ones(), 2);
    bb.unset(1, 1);
    assert!(!bb.is_set(1, 1));
    assert!(bb.is_set(2, 2));
    assert_eq!(bb.count_ones(), 1);
    bb.unset(4, 4);
    assert_eq!(bb.count_ones(), 1);
    bb.unset(9, 9);
    assert_eq!(bb.count_ones(), 1);
}

#[test]
fn is_set_out_of_bounds_is_false() {
    let bb = BitBoard::new(3, 8, vec![(0, 0), (2, 2)]);
    assert!(!bb.is_set(3, 0));
    assert!(!bb.is_set(0, 3));
    assert!(!bb.is_set(100, 100));
}

#[test]
fn clone_preserves_count() {
    for &(n, w) in SHAPES.iter() {
        let bb = BitBoard::new(n, w, vec![(0, 0), (n - 1, n - 1), (n / 2, n / 2)]);
        let copy = bb.clone();
        assert_eq!(bb.count_ones(), copy.count_ones());
        assert_eq!(bb, copy);
    }
}

#[test]
fn clone_is_independent() {
    let bb = BitBoard::new(5, 8, vec![(1, 2), (3, 4)]);
    let before = bb.count_ones();
    let mut copy = bb.clone();
    copy.set(0, 0);
    copy.unset(1, 2);
    assert_eq!(bb.count_ones(), before);
    assert!(bb.is_set(1, 2));
    assert!(!bb.is_set(0, 0));
    assert!(copy.is_set(0, 0));
    assert!(!copy.is_set(1, 2));
    assert_ne!(bb, copy);
}

#[test]
fn equality_is_bit_for_bit() {
    let a = BitBoard::new(4, 8, vec![(1, 1), (2, 3)]);
    let b = BitBoard::new(4, 8, vec![(2, 3), (1, 1)]);
    assert_eq!(a, b);
    let c = BitBoard::new(4, 8, vec![(1, 1)]);
    assert_ne!(a, c);
    let other_width = BitBoard::new(4, 16, vec![(1, 1), (2, 3)]);
    assert_ne!(a, other_width);
}

#[test]
fn cells_lists_every_coordinate() {
    let bb = BitBoard::empty(3, 8);
    let cells = bb.cells();
    assert_eq!(cells.len(), 9);
    assert_eq!(cells[0], (0, 0));
    assert_eq!(cells[1], (0, 1));
    assert_eq!(cells[3], (1, 0));
    assert_eq!(cells[8], (2, 2));
}

#[test]
fn positions_yields_matching_cells_in_row_major_order() {
    let bb = BitBoard::new(3, 8, vec![(2, 0), (0, 1), (1, 2)]);
    let mut it = bb.positions(true);
    assert_eq!(it.next(), Some((2, 0)));
    assert_eq!(it.next(), Some((0, 1)));
    assert_eq!(it.next(), Some((1, 2)));
    assert_eq!(it.next(), None);
    assert_eq!(it.next(), None);

    let mut clear = bb.positions(false);
    let mut count: usize = 0;
    while let Some((x, y)) = clear.next() {
        assert!(!bb.is_set(x, y));
        count += 1;
    }
    assert_eq!(count, 6);
}

#[test]
fn count_ones_counts_exactly_the_set_coordinates() {
    for &(n, w) in SHAPES.iter() {
        let bb = BitBoard::new(
            n,
            w,
            vec![(0, 0), (n - 1, 0), (0, n - 1), (n - 1, n - 1), (n / 2, n / 3)],
        );
        let mut by_query: usize = 0;
        for x in 0..n {
            for y in 0..n {
                if bb.is_set(x, y) {
                    by_query += 1;
                }
            }
        }
        assert_eq!(bb.count_ones(), by_query);
    }
}

#[test]
fn side_and_width_accessors() {
    let bb = BitBoard::empty(7, 16);
    assert_eq!(bb.side_len(), 7);
    assert_eq!(bb.block_width(), 16);
}

#[test]
fn required_sizes() {
    assert_eq!(bitboard::required_bits(25, 8), 32);
    assert_eq!(bitboard::required_bits(64, 64), 64);
    assert_eq!(bitboard::required_bits(1, 8), 8);
    assert_eq!(bitboard::required_blocks(32, 8), 4);
    assert_eq!(bitboard::required_blocks(25, 8), 4);
    assert_eq!(bitboard::required_blocks(64, 64), 1);
    assert_eq!(bitboard::required_blocks(65, 64), 2);
    assert_eq!(bitboard::required_bytes(25), 4);
    assert_eq!(bitboard::required_bytes(24), 3);
}
