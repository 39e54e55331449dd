use puzla::direction::Direction;
use puzla::dissimilarity::{
    calculate_dissimilarity, calculate_dissimilarity_matrices, integer_sqrt, MAX_SCORE, SCORE_SCALE,
};
use puzla::piece::{is_uniform, Piece, Pixel};

fn flat(width: usize, height: usize, value: u8) -> Piece {
    let row = vec![Pixel { r: value, g: value, b: value }; width];
    Piece::new(vec![row; height]).unwrap()
}

/// A piece whose four edges have the given grey levels; the inside is black.
fn edged(size: usize, up: u8, down: u8, left: u8, right: u8) -> Piece {
    let mut rows = vec![vec![Pixel { r: 0, g: 0, b: 0 }; size]; size];
    for i in 1..size - 1 {
        rows[0][i] = Pixel { r: up, g: up, b: up };
        rows[size - 1][i] = Pixel { r: down, g: down, b: down };
        rows[i][0] = Pixel { r: left, g: left, b: left };
        rows[i][size - 1] = Pixel { r: right, g: right, b: right };
    }
    Piece::new(rows).unwrap()
}

#[test]
fn integer_sqrt_rounds_down() {
    assert_eq!(integer_sqrt(0), 0);
    assert_eq!(integer_sqrt(1), 1);
    assert_eq!(integer_sqrt(3), 1);
    assert_eq!(integer_sqrt(4), 2);
    assert_eq!(integer_sqrt(99), 9);
    assert_eq!(integer_sqrt(100), 10);
    assert_eq!(integer_sqrt(u128::MAX), u64::MAX);
}

#[test]
fn piece_rejects_bad_rasters() {
    assert!(Piece::new(Vec::new()).is_none());
    assert!(Piece::new(vec![Vec::new()]).is_none());
    let px = Pixel { r: 1, g: 2, b: 3 };
    assert!(Piece::new(vec![vec![px, px], vec![px]]).is_none());
    let piece = Piece::new(vec![vec![px, px], vec![px, px], vec![px, px]]).unwrap();
    assert_eq!(piece.width(), 2);
    assert_eq!(piece.height(), 3);
    assert_eq!(piece.pixel(1, 2), px);
}

#[test]
fn uniform_pieces_are_recognised() {
    assert!(is_uniform(&Vec::new()));
    assert!(is_uniform(&vec![flat(2, 3, 0), flat(2, 3, 9)]));
    assert!(!is_uniform(&vec![flat(2, 3, 0), flat(3, 2, 9)]));
}

#[test]
fn equal_edges_score_zero() {
    let a = flat(4, 4, 17);
    let b = flat(4, 4, 17);
    assert_eq!(calculate_dissimilarity(&a, &b, Direction::Right), 0);
    assert_eq!(calculate_dissimilarity(&a, &b, Direction::Up), 0);
}

#[test]
fn score_is_scaled_euclidean_distance() {
    // One sample per edge, off by 3 and 4 in two channels: distance 5.
    let a = Piece::new(vec![vec![Pixel { r: 10, g: 20, b: 30 }]]).unwrap();
    let b = Piece::new(vec![vec![Pixel { r: 13, g: 16, b: 30 }]]).unwrap();
    assert_eq!(calculate_dissimilarity(&a, &b, Direction::Right), 5 * SCORE_SCALE);
    assert_eq!(calculate_dissimilarity(&a, &b, Direction::Down), 5 * SCORE_SCALE);
    // Four samples per edge, each off by 1 in every channel: sqrt(12).
    let c = flat(4, 4, 100);
    let d = flat(4, 4, 101);
    let expected = integer_sqrt(12u128 * 65_536 * 65_536);
    assert_eq!(calculate_dissimilarity(&c, &d, Direction::Left), expected);
    assert_eq!(expected, 227_023);
}

#[test]
fn score_uses_the_touching_edges() {
    let a = edged(4, 10, 20, 30, 40);
    let b = edged(4, 50, 60, 70, 80);
    // Right of a (40) against left of b (70): two inner samples differ by 30
    // in three channels.
    let right = integer_sqrt((2 * 3 * 30 * 30) as u128 * 65_536 * 65_536);
    assert_eq!(calculate_dissimilarity(&a, &b, Direction::Right), right);
    // Bottom of a (20) against top of b (50).
    assert_eq!(calculate_dissimilarity(&a, &b, Direction::Down), right);
    // Left of a (30) against right of b (80).
    let left = integer_sqrt((2 * 3 * 50 * 50) as u128 * 65_536 * 65_536);
    assert_eq!(calculate_dissimilarity(&a, &b, Direction::Left), left);
    // Top of a (10) against bottom of b (60).
    assert_eq!(calculate_dissimilarity(&a, &b, Direction::Up), left);
}

#[test]
fn dissimilarity_is_symmetric_under_inverse() {
    let a = edged(5, 3, 99, 41, 200);
    let b = edged(5, 250, 7, 130, 66);
    for dir in [Direction::Up, Direction::Down, Direction::Left, Direction::Right] {
        assert_eq!(
            calculate_dissimilarity(&a, &b, dir),
            calculate_dissimilarity(&b, &a, dir.inverse())
        );
        assert_eq!(calculate_dissimilarity(&a, &b, dir), calculate_dissimilarity(&a, &b, dir));
    }
}

#[test]
fn inverse_is_an_involution() {
    assert_eq!(Direction::Up.inverse(), Direction::Down);
    assert_eq!(Direction::Down.inverse(), Direction::Up);
    assert_eq!(Direction::Left.inverse(), Direction::Right);
    assert_eq!(Direction::Right.inverse(), Direction::Left);
    assert_eq!(Direction::Up.index(), 0);
    assert_eq!(Direction::Right.index(), 3);
}

#[test]
fn largest_gap_stays_below_the_bound() {
    let a = flat(64, 64, 0);
    let b = flat(64, 64, 255);
    let score = calculate_dissimilarity(&a, &b, Direction::Right);
    assert_eq!(score, integer_sqrt(64u128 * 195_075 * 65_536 * 65_536));
    assert!(score <= MAX_SCORE);
}

#[test]
fn matrices_hold_every_pair_of_different_pieces() {
    let pieces = vec![edged(4, 10, 20, 30, 40), edged(4, 50, 60, 70, 80), edged(4, 1, 2, 3, 4)];
    let (right, down) = calculate_dissimilarity_matrices(&pieces);
    assert_eq!(right.len(), 3);
    assert_eq!(down.len(), 3);
    for a in 0..3 {
        assert_eq!(right[a].len(), 3);
        assert_eq!(down[a].len(), 3);
        for b in 0..3 {
            if a == b {
                assert_eq!(right[a][b], None);
                assert_eq!(down[a][b], None);
            } else {
                assert_eq!(
                    right[a][b],
                    Some(calculate_dissimilarity(&pieces[a], &pieces[b], Direction::Right))
                );
                assert_eq!(
                    down[a][b],
                    Some(calculate_dissimilarity(&pieces[a], &pieces[b], Direction::Down))
                );
            }
        }
    }
    let entries: usize = right.iter().map(|row| row.iter().filter(|e| e.is_some()).count()).sum();
    assert_eq!(entries, 3 * 2);
}

#[test]
fn matrices_of_few_pieces() {
    let none: Vec<Piece> = Vec::new();
    let (right, down) = calculate_dissimilarity_matrices(&none);
    assert!(right.is_empty() && down.is_empty());
    let (right, down) = calculate_dissimilarity_matrices(&vec![flat(2, 2, 5)]);
    assert_eq!(right, vec![vec![None]]);
    assert_eq!(down, vec![vec![None]]);
}
