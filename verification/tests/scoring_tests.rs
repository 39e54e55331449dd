use puzla::fitness::{calculate_fitness, evaluate_generation};
use puzla::grid::copy_matrix;
use puzla::selection::{pick_by_ticket, select_parents, total_weight_of, weight_of};

/// Rows of scores as a matrix of entries, with no entry for a piece and
/// itself.
fn off_diagonal(rows: [[u64; 4]; 4]) -> Vec<Vec<Option<u64>>> {
    (0..4)
        .map(|a| (0..4).map(|b| if a == b { None } else { Some(rows[a][b]) }).collect())
        .collect()
}

fn right_matrix() -> Vec<Vec<Option<u64>>> {
    off_diagonal([[0, 1, 2, 3], [10, 0, 20, 30], [100, 200, 0, 300], [1000, 2000, 3000, 0]])
}

fn down_matrix() -> Vec<Vec<Option<u64>>> {
    off_diagonal([[0, 5, 6, 7], [50, 0, 60, 70], [500, 600, 0, 700], [5000, 6000, 7000, 0]])
}

#[test]
fn fitness_sums_right_and_down_scores() {
    let right = right_matrix();
    let down = down_matrix();
    // right[0][1] + right[2][3] + down[0][2] + down[1][3]
    assert_eq!(calculate_fitness(&vec![vec![0, 1], vec![2, 3]], &right, &down), 1 + 300 + 6 + 70);
    // right[3][2] + right[1][0] + down[3][1] + down[2][0]
    assert_eq!(
        calculate_fitness(&vec![vec![3, 2], vec![1, 0]], &right, &down),
        3000 + 10 + 6000 + 500
    );
}

#[test]
fn fitness_of_a_single_row_and_a_single_column() {
    let right = right_matrix();
    let down = down_matrix();
    assert_eq!(calculate_fitness(&vec![vec![0, 1, 2, 3]], &right, &down), 1 + 20 + 300);
    assert_eq!(
        calculate_fitness(&vec![vec![0], vec![1], vec![2], vec![3]], &right, &down),
        5 + 60 + 700
    );
}

#[test]
fn fitness_of_a_single_cell_is_zero() {
    // One cell has no neighbour: no entry is read, so none is needed.
    let none: Vec<Vec<Option<u64>>> = Vec::new();
    assert_eq!(calculate_fitness(&vec![vec![0]], &none, &none), 0);
    assert_eq!(calculate_fitness(&vec![vec![7]], &vec![vec![None]], &vec![vec![None]]), 0);
}

#[test]
fn fitness_reads_only_the_entries_of_neighbours() {
    // Only the pairs (2, 0) side by side and none above each other.
    let mut right: Vec<Vec<Option<u64>>> = vec![vec![None; 3]; 3];
    right[2][0] = Some(41);
    let down: Vec<Vec<Option<u64>>> = Vec::new();
    assert_eq!(calculate_fitness(&vec![vec![2, 0]], &right, &down), 41);
}

#[test]
fn a_copy_costs_what_its_parent_costs() {
    let right = right_matrix();
    let down = down_matrix();
    let parent = vec![vec![2usize, 0], vec![3, 1]];
    let copy = copy_matrix(&parent);
    assert_eq!(
        calculate_fitness(&copy, &right, &down),
        calculate_fitness(&parent, &right, &down)
    );
    assert_eq!(calculate_fitness(&parent, &right, &down), 100 + 2000 + 700 + 5);
}

#[test]
fn generation_is_scored_in_order() {
    let right = right_matrix();
    let down = down_matrix();
    let generation = vec![vec![vec![0usize, 1], vec![2, 3]], vec![vec![3, 2], vec![1, 0]]];
    assert_eq!(evaluate_generation(&generation, &right, &down), vec![(0, 377), (1, 9510)]);
    assert!(evaluate_generation(&Vec::new(), &right, &down).is_empty());
}

#[test]
fn weights_are_inverse_costs() {
    assert_eq!(weight_of(1), u64::MAX);
    assert_eq!(weight_of(3), u64::MAX / 3);
    assert_eq!(weight_of(u64::MAX), 1);
    assert_eq!(weight_of(0), u64::MAX);
}

#[test]
fn total_weight_adds_up() {
    assert_eq!(total_weight_of(&Vec::new()), 0);
    let population = vec![(0usize, 1u64), (1, 3)];
    assert_eq!(total_weight_of(&population), u64::MAX as u128 + (u64::MAX / 3) as u128);
}

#[test]
fn ticket_picks_the_first_sum_that_meets_it() {
    let population = vec![(10usize, u64::MAX), (11, u64::MAX / 2), (12, u64::MAX / 3)];
    // Weights 1, 2, 3: sums 1, 3, 6.
    assert_eq!(total_weight_of(&population), 6);
    assert_eq!(pick_by_ticket(&population, 0), 10);
    assert_eq!(pick_by_ticket(&population, 1), 10);
    assert_eq!(pick_by_ticket(&population, 2), 11);
    assert_eq!(pick_by_ticket(&population, 3), 11);
    assert_eq!(pick_by_ticket(&population, 4), 12);
    assert_eq!(pick_by_ticket(&population, 5), 12);
}

#[test]
fn ticket_equal_to_the_first_weight_picks_the_first() {
    let population = vec![(0usize, 65_536u64), (1, 3 * 65_536)];
    let first_weight = (u64::MAX / 65_536) as u128;
    assert_eq!(first_weight, 281_474_976_710_655);
    assert_eq!(pick_by_ticket(&population, first_weight), 0);
    assert_eq!(pick_by_ticket(&population, first_weight + 1), 1);
    let equal = vec![(5usize, 9u64), (6, 9)];
    assert_eq!(pick_by_ticket(&equal, (u64::MAX / 9) as u128), 5);
    assert_eq!(pick_by_ticket(&equal, (u64::MAX / 9) as u128 + 1), 6);
}

#[test]
fn single_candidate_is_always_chosen() {
    let population = vec![(42usize, 17u64)];
    for _ in 0..10 {
        assert_eq!(select_parents(&population), (42, 42));
    }
}

#[test]
fn cheaper_candidate_is_drawn_three_times_as_often() {
    let population = vec![(0usize, 1u64), (1, 3)];
    let mut cheap = 0u32;
    let mut dear = 0u32;
    for _ in 0..20_000 {
        let (a, b) = select_parents(&population);
        for id in [a, b] {
            if id == 0 {
                cheap += 1;
            } else {
                assert_eq!(id, 1);
                dear += 1;
            }
        }
    }
    let ratio = cheap as f64 / dear as f64;
    assert!(ratio > 2.7 && ratio < 3.3, "ratio {}", ratio);
}

#[test]
fn zero_cost_is_drawn_like_the_smallest_cost() {
    let population = vec![(0usize, 0u64), (1, 2)];
    assert_eq!(weight_of(0), weight_of(1));
    assert_eq!(pick_by_ticket(&population, 0), 0);
    assert_eq!(pick_by_ticket(&population, u64::MAX as u128), 0);
    assert_eq!(pick_by_ticket(&population, u64::MAX as u128 + 1), 1);
}
