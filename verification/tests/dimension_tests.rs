use puzla::dimensions::{calculate_dimensions_stats, plan_canvas};
use puzla::grid::is_complete_arrangement;

#[test]
fn stats_of_no_size() {
    assert_eq!(calculate_dimensions_stats(&Vec::new()), None);
}

#[test]
fn stats_of_sizes() {
    let sizes = vec![(10u32, 7u32), (13, 4), (12, 10)];
    // Averages 35 / 3 and 21 / 3, rounded down.
    assert_eq!(calculate_dimensions_stats(&sizes), Some((11, 7, 10, 4, 13, 10)));
    assert_eq!(calculate_dimensions_stats(&vec![(5, 9)]), Some((5, 9, 5, 9, 5, 9)));
}

#[test]
fn stats_do_not_overflow() {
    let sizes = vec![(u32::MAX, u32::MAX), (u32::MAX, u32::MAX - 2)];
    assert_eq!(
        calculate_dimensions_stats(&sizes),
        Some((u32::MAX, u32::MAX - 1, u32::MAX, u32::MAX - 2, u32::MAX, u32::MAX))
    );
}

#[test]
fn canvas_of_uniform_pictures() {
    let sizes = vec![vec![(4u32, 3u32); 3]; 2];
    let canvas = plan_canvas(&sizes).unwrap();
    assert_eq!(canvas.width, 12);
    assert_eq!(canvas.height, 6);
    assert_eq!(canvas.origins, vec![vec![(0, 0), (4, 0), (8, 0)], vec![(0, 3), (4, 3), (8, 3)]]);
}

#[test]
fn canvas_of_ragged_pictures() {
    let sizes = vec![vec![(4u32, 3u32), (1, 9)], vec![], vec![(7, 2)]];
    let canvas = plan_canvas(&sizes).unwrap();
    assert_eq!(canvas.width, 7);
    assert_eq!(canvas.height, 11);
    assert_eq!(canvas.origins, vec![vec![(0, 0), (4, 0)], vec![], vec![(0, 9)]]);
    let empty = plan_canvas(&Vec::new()).unwrap();
    assert_eq!((empty.width, empty.height), (0, 0));
    assert!(empty.origins.is_empty());
}

#[test]
fn canvas_too_large_is_refused() {
    assert!(plan_canvas(&vec![vec![(u32::MAX, 1), (1, 1)]]).is_none());
    assert!(plan_canvas(&vec![vec![(1, u32::MAX)], vec![(1, 1)]]).is_none());
    let fits = plan_canvas(&vec![vec![(u32::MAX - 1, 1), (1, 1)]]).unwrap();
    assert_eq!(fits.width, u32::MAX);
}

#[test]
fn complete_arrangements_are_recognised() {
    assert!(is_complete_arrangement(&vec![vec![2, 0], vec![1, 3]], 2, 2));
    assert!(is_complete_arrangement(&vec![vec![0]], 1, 1));
    assert!(is_complete_arrangement(&vec![vec![2, 0, 1]], 1, 3));
    // Wrong shape.
    assert!(!is_complete_arrangement(&vec![vec![2, 0], vec![1, 3]], 1, 4));
    assert!(!is_complete_arrangement(&vec![vec![2, 0], vec![1]], 2, 2));
    // A piece twice, a piece that does not exist.
    assert!(!is_complete_arrangement(&vec![vec![2, 0], vec![2, 3]], 2, 2));
    assert!(!is_complete_arrangement(&vec![vec![2, 0], vec![1, 4]], 2, 2));
    assert!(!is_complete_arrangement(&vec![vec![usize::MAX]], 1, 1));
}
