use puzla::direction::Direction;
use puzla::grid::{
    build_matrix, copy_matrix, empty_matrix, find_position_in_matrix, matrix_size,
    neighbor_piece, neighbor_position, EMPTY_CELL,
};
use puzla::population::{
    create_random_matrix, fill_matrix, generate_initial_population, identity_keys,
};

fn is_permutation_grid(g: &Vec<Vec<usize>>, rows: usize, cols: usize) -> bool {
    if g.len() != rows || g.iter().any(|row| row.len() != cols) {
        return false;
    }
    let mut seen = vec![false; rows * cols];
    for row in g {
        for &id in row {
            if id >= rows * cols || seen[id] {
                return false;
            }
            seen[id] = true;
        }
    }
    true
}

#[test]
fn matrix_size_of_grids() {
    let empty: Vec<Vec<usize>> = Vec::new();
    assert_eq!(matrix_size(&empty), (0, 0));
    assert_eq!(matrix_size(&vec![vec![1usize, 2, 3], vec![4, 5, 6]]), (2, 3));
    assert_eq!(matrix_size(&vec![Vec::<u8>::new()]), (1, 0));
}

#[test]
fn find_position_gives_first_occurrence() {
    let g = vec![vec![3usize, 1, 4], vec![1, 5, 9]];
    assert_eq!(find_position_in_matrix(&g, 3), Some((0, 0)));
    assert_eq!(find_position_in_matrix(&g, 1), Some((0, 1)));
    assert_eq!(find_position_in_matrix(&g, 9), Some((1, 2)));
    assert_eq!(find_position_in_matrix(&g, 7), None);
    assert_eq!(find_position_in_matrix(&Vec::new(), 0), None);
}

#[test]
fn neighbor_position_stops_at_borders() {
    assert_eq!(neighbor_position(2, 3, 0, 0, Direction::Up), None);
    assert_eq!(neighbor_position(2, 3, 0, 0, Direction::Left), None);
    assert_eq!(neighbor_position(2, 3, 0, 0, Direction::Right), Some((0, 1)));
    assert_eq!(neighbor_position(2, 3, 0, 0, Direction::Down), Some((1, 0)));
    assert_eq!(neighbor_position(2, 3, 1, 2, Direction::Right), None);
    assert_eq!(neighbor_position(2, 3, 1, 2, Direction::Down), None);
    assert_eq!(neighbor_position(2, 3, 1, 2, Direction::Up), Some((0, 2)));
    assert_eq!(neighbor_position(2, 3, 1, 2, Direction::Left), Some((1, 1)));
}

#[test]
fn neighbor_piece_reads_the_arrangement() {
    let g = vec![vec![4usize, 0, 2], vec![1, 5, 3]];
    assert_eq!(neighbor_piece(&g, 0, Direction::Left), Some(4));
    assert_eq!(neighbor_piece(&g, 0, Direction::Right), Some(2));
    assert_eq!(neighbor_piece(&g, 0, Direction::Down), Some(5));
    assert_eq!(neighbor_piece(&g, 0, Direction::Up), None);
    assert_eq!(neighbor_piece(&g, 3, Direction::Right), None);
    assert_eq!(neighbor_piece(&g, 3, Direction::Up), Some(2));
}

#[test]
fn build_matrix_renders_positions() {
    let positions = vec![Some((0, 0)), Some((-1, 0)), None, Some((0, 1)), Some((5, 5))];
    let g = build_matrix(&positions, 0, 1, -1, 0);
    assert_eq!(g, vec![vec![1, EMPTY_CELL], vec![0, 3]]);
}

#[test]
fn build_matrix_keeps_the_largest_id_on_a_shared_cell() {
    let positions = vec![Some((2, 2)), Some((2, 2)), Some((2, 3))];
    let g = build_matrix(&positions, 2, 3, 2, 2);
    assert_eq!(g, vec![vec![1, 2]]);
}

#[test]
fn empty_and_copied_matrices() {
    assert_eq!(empty_matrix(2, 2), vec![vec![EMPTY_CELL; 2]; 2]);
    assert_eq!(empty_matrix(0, 3), Vec::<Vec<usize>>::new());
    let g = vec![vec![2usize, 0], vec![1, 3]];
    assert_eq!(copy_matrix(&g), g);
}

#[test]
fn fill_matrix_lays_the_keys_out_row_by_row() {
    let keys = vec![7usize, 8, 9, 4, 5, 6];
    assert_eq!(fill_matrix(&keys, 2, 3), vec![vec![7, 8], vec![9, 4], vec![5, 6]]);
    assert_eq!(fill_matrix(&keys, 3, 2), vec![vec![7, 8, 9], vec![4, 5, 6]]);
    assert_eq!(fill_matrix(&keys, 6, 1), vec![vec![7, 8, 9, 4, 5, 6]]);
    assert_eq!(fill_matrix(&vec![3], 1, 1), vec![vec![3]]);
}

#[test]
fn identity_keys_count_up() {
    assert_eq!(identity_keys(0), Vec::<usize>::new());
    assert_eq!(identity_keys(4), vec![0, 1, 2, 3]);
}

#[test]
fn random_matrix_is_a_shuffled_fill() {
    let keys = identity_keys(12);
    let mut differs = false;
    for _ in 0..20 {
        let g = create_random_matrix(&keys, 4, 3);
        assert!(is_permutation_grid(&g, 3, 4));
        if g != fill_matrix(&keys, 4, 3) {
            differs = true;
        }
    }
    // 20 draws that all leave 12 keys in place would mean no shuffling.
    assert!(differs);
}

#[test]
fn random_matrix_of_one_piece() {
    assert_eq!(create_random_matrix(&identity_keys(1), 1, 1), vec![vec![0]]);
}

#[test]
fn initial_population_has_the_asked_size() {
    let population = generate_initial_population(identity_keys(6), 3, 2, 7);
    assert_eq!(population.len(), 7);
    for g in &population {
        assert!(is_permutation_grid(g, 2, 3));
    }
    assert!(generate_initial_population(identity_keys(6), 3, 2, 0).is_empty());
}
