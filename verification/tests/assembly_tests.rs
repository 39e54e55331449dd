use puzla::adjacency::AdjacencyData;
use puzla::crossover::{breed, Crossover};
use puzla::direction::Direction;
use puzla::dissimilarity::{calculate_dissimilarity, calculate_dissimilarity_matrices};
use puzla::evolution::{
    best_of, evolve, fittest, next_generation, run_generations, solve, validate_configuration,
    ConfigError, EvolutionError, Settings, SolveError,
};
use puzla::fitness::calculate_fitness;
use puzla::grid::is_complete_arrangement;
use puzla::kernel::{Candidate, BUDDY_PRIORITY, MUTUALLY_AGREED_PRIORITY, RANKED_PRIORITY};
use puzla::piece::{Piece, Pixel};
use puzla::population::{generate_initial_population, identity_keys};

const ALL: [Direction; 4] = [Direction::Up, Direction::Down, Direction::Left, Direction::Right];

/// A piece whose four edges have the given grey levels; corners and the
/// inside are black.
fn edged(up: u8, down: u8, left: u8, right: u8) -> Piece {
    let size = 4;
    let mut rows = vec![vec![Pixel { r: 0, g: 0, b: 0 }; size]; size];
    for i in 1..size - 1 {
        rows[0][i] = Pixel { r: up, g: up, b: up };
        rows[size - 1][i] = Pixel { r: down, g: down, b: down };
        rows[i][0] = Pixel { r: left, g: left, b: left };
        rows[i][size - 1] = Pixel { r: right, g: right, b: right };
    }
    Piece::new(rows).unwrap()
}

/// Four pieces that fit as [[0, 1], [2, 3]] and in no other way.
fn quartet() -> Vec<Piece> {
    vec![
        edged(200, 20, 210, 10),
        edged(220, 30, 10, 230),
        edged(20, 250, 240, 40),
        edged(30, 110, 40, 100),
    ]
}

/// `count` pieces with edges spread over the grey levels.
fn assorted(count: usize) -> Vec<Piece> {
    (0..count)
        .map(|i| {
            let v = |k: usize| ((i * 37 + k * 61 + i * i * 13 + 5) % 251) as u8;
            edged(v(1), v(2), v(3), v(4))
        })
        .collect()
}

#[test]
fn ranked_lists_have_the_documented_shape() {
    let pieces = assorted(7);
    for limit in [0usize, 1, 3, 6, 100] {
        let index = AdjacencyData::with_limit(&pieces, limit);
        assert_eq!(index.number_of_pieces(), 7);
        assert_eq!(index.list_limit(), limit);
        for p in 0..7 {
            for dir in ALL {
                let list = index.get_most_compatible(p, dir);
                assert_eq!(list.len(), limit.min(6));
                for w in list.windows(2) {
                    assert!(w[0].0 < w[1].0 || (w[0].0 == w[1].0 && w[0].1 < w[1].1));
                }
                for &(score, q) in list.iter() {
                    assert_ne!(q, p);
                    assert_eq!(score, calculate_dissimilarity(&pieces[p], &pieces[q], dir));
                }
                // Nothing left out is better than the last one kept.
                if let Some(&(worst, worst_id)) = list.last() {
                    for q in 0..7 {
                        if q != p && !list.iter().any(|e| e.1 == q) {
                            let s = calculate_dissimilarity(&pieces[p], &pieces[q], dir);
                            assert!(worst < s || (worst == s && worst_id < q));
                        }
                    }
                }
            }
        }
    }
}

#[test]
fn default_index_keeps_one_hundred_neighbours() {
    let index = AdjacencyData::new(&assorted(3));
    assert_eq!(index.list_limit(), 100);
    assert_eq!(index.get_most_compatible(0, Direction::Up).len(), 2);
}

#[test]
fn equal_scores_are_ranked_by_id() {
    let pieces = vec![edged(1, 1, 1, 1), edged(9, 9, 9, 9), edged(9, 9, 9, 9), edged(9, 9, 9, 9)];
    let index = AdjacencyData::new(&pieces);
    let ids: Vec<usize> =
        index.get_most_compatible(0, Direction::Right).iter().map(|e| e.1).collect();
    assert_eq!(ids, vec![1, 2, 3]);
}

#[test]
fn single_piece_has_empty_lists_and_no_buddy() {
    let index = AdjacencyData::new(&assorted(1));
    for dir in ALL {
        assert!(index.get_most_compatible(0, dir).is_empty());
        assert_eq!(index.get_best_buddy_in_relation(0, dir), None);
    }
    assert!(index.best_buddies().is_empty());
}

#[test]
fn quartet_buddies_are_the_true_neighbours() {
    let index = AdjacencyData::new(&quartet());
    assert_eq!(index.get_best_buddy_in_relation(0, Direction::Right), Some(1));
    assert_eq!(index.get_best_buddy_in_relation(1, Direction::Left), Some(0));
    assert_eq!(index.get_best_buddy_in_relation(2, Direction::Right), Some(3));
    assert_eq!(index.get_best_buddy_in_relation(3, Direction::Left), Some(2));
    assert_eq!(index.get_best_buddy_in_relation(0, Direction::Down), Some(2));
    assert_eq!(index.get_best_buddy_in_relation(2, Direction::Up), Some(0));
    assert_eq!(index.get_best_buddy_in_relation(1, Direction::Down), Some(3));
    assert_eq!(index.get_best_buddy_in_relation(3, Direction::Up), Some(1));
    assert_eq!(index.get_most_compatible(0, Direction::Right)[0], (0, 1));
}

#[test]
fn recorded_buddies_are_mutual() {
    let index = AdjacencyData::new(&assorted(9));
    let pairs = index.best_buddies().clone();
    for &(a, b, dir) in &pairs {
        assert_eq!(index.get_best_buddy_in_relation(b, dir.inverse()), Some(a));
        assert!(pairs.contains(&(b, a, dir.inverse())));
        assert_eq!(index.get_most_compatible(a, dir)[0].1, b);
    }
    for a in 0..9 {
        for dir in ALL {
            let listed = pairs.iter().filter(|p| p.0 == a && p.2 == dir).count();
            match index.get_best_buddy_in_relation(a, dir) {
                Some(b) => {
                    assert_eq!(listed, 1);
                    assert!(pairs.contains(&(a, b, dir)));
                },
                None => assert_eq!(listed, 0),
            }
        }
    }
}

#[test]
fn priorities_order_the_three_classes() {
    assert!(MUTUALLY_AGREED_PRIORITY < BUDDY_PRIORITY);
    assert!(BUDDY_PRIORITY < RANKED_PRIORITY);
    let c = Candidate {
        piece: 1,
        position: (0, 1),
        anchor: 0,
        relation: Direction::Right,
        priority: RANKED_PRIORITY,
    };
    assert_eq!(c.position, (0, 1));
}

#[test]
fn child_of_equal_parents_grown_from_the_centre_is_the_parent() {
    let index = AdjacencyData::new(&assorted(9));
    let parent = vec![vec![4usize, 2, 0], vec![5, 1, 3], vec![8, 6, 7]];
    let mut assembler = Crossover::new(&parent, &parent, &index);
    assert_eq!(assembler.generate_child_from(1), Some(parent.clone()));
}

#[test]
fn footprint_is_claimed_upwards_and_rightwards_first() {
    // Two pieces side by side.  Grown from the left one, the right slot is
    // opened and takes the agreed piece.  Grown from the right one, the
    // right slot is opened as well, which leaves no room on the left: the
    // other piece comes in from the ranked list.
    let index = AdjacencyData::new(&assorted(2));
    let parent = vec![vec![0usize, 1]];
    assert_eq!(
        Crossover::new(&parent, &parent, &index).generate_child_from(0),
        Some(vec![vec![0, 1]])
    );
    assert_eq!(
        Crossover::new(&parent, &parent, &index).generate_child_from(1),
        Some(vec![vec![1, 0]])
    );
    // One above the other: the slot above is opened first.
    let column = vec![vec![0usize], vec![1]];
    assert_eq!(
        Crossover::new(&column, &column, &index).generate_child_from(0),
        Some(vec![vec![1], vec![0]])
    );
    assert_eq!(
        Crossover::new(&column, &column, &index).generate_child_from(1),
        Some(vec![vec![0], vec![1]])
    );
}

#[test]
fn child_from_a_root_is_reproducible() {
    let index = AdjacencyData::new(&assorted(12));
    let first = vec![vec![0usize, 1, 2, 3], vec![4, 5, 6, 7], vec![8, 9, 10, 11]];
    let second = vec![vec![11usize, 3, 7, 1], vec![0, 9, 5, 2], vec![6, 10, 4, 8]];
    for root in 0..12 {
        let a = Crossover::new(&first, &second, &index).generate_child_from(root);
        let b = Crossover::new(&first, &second, &index).generate_child_from(root);
        assert_eq!(a, b);
        assert!(is_complete_arrangement(&a.unwrap(), 3, 4));
    }
}

#[test]
fn random_children_are_complete_arrangements() {
    let index = AdjacencyData::new(&assorted(12));
    let first = vec![vec![0usize, 1, 2, 3], vec![4, 5, 6, 7], vec![8, 9, 10, 11]];
    let second = vec![vec![11usize, 3, 7, 1], vec![0, 9, 5, 2], vec![6, 10, 4, 8]];
    for _ in 0..25 {
        let child = Crossover::new(&first, &second, &index).generate_child().unwrap();
        assert!(is_complete_arrangement(&child, 3, 4));
    }
}

#[test]
fn agreement_beats_buddies_and_ranks() {
    // Both parents put 3 to the right of 2, though 3 fits there worst of
    // all; grown from 2, the child keeps 3 there.
    let pieces = vec![
        edged(1, 2, 3, 100),
        edged(5, 6, 100, 8),
        edged(9, 10, 11, 100),
        edged(13, 14, 250, 16),
    ];
    let index = AdjacencyData::new(&pieces);
    assert_eq!(index.get_most_compatible(2, Direction::Right)[0].1, 1);
    let first = vec![vec![0usize, 1], vec![2, 3]];
    let second = vec![vec![1usize, 0], vec![2, 3]];
    let child = Crossover::new(&first, &second, &index).generate_child_from(2).unwrap();
    assert_eq!(child[1], vec![2, 3]);
    assert!(is_complete_arrangement(&child, 2, 2));
}

#[test]
fn placed_buddy_beats_ranks() {
    // 0 and 1 are best buddies side by side, and the first parent has them
    // so; the parents disagree about what stands right of 0.
    let index = AdjacencyData::new(&quartet());
    let first = vec![vec![2usize, 3], vec![0, 1]];
    let second = vec![vec![1usize, 3], vec![0, 2]];
    let child = Crossover::new(&first, &second, &index).generate_child_from(0).unwrap();
    assert_eq!(child[1], vec![0, 1]);
    assert!(is_complete_arrangement(&child, 2, 2));
}

#[test]
fn assembly_fails_when_no_candidate_is_left() {
    // Without ranked lists only agreement can place a piece, and these
    // parents agree on nothing.
    let index = AdjacencyData::with_limit(&quartet(), 0);
    let first = vec![vec![0usize, 1], vec![2, 3]];
    let second = vec![vec![3usize, 2], vec![1, 0]];
    for root in 0..4 {
        assert_eq!(Crossover::new(&first, &second, &index).generate_child_from(root), None);
    }
    assert_eq!(Crossover::new(&first, &second, &index).generate_child(), None);
    assert_eq!(breed(&first, &second, &index, 5), None);
    assert_eq!(breed(&first, &first, &index, 0), None);
    // With equal parents, agreement alone rebuilds the parent from the
    // bottom left corner, and from no other root.
    assert_eq!(Crossover::new(&first, &first, &index).generate_child_from(2), Some(first.clone()));
    for root in [0, 1, 3] {
        assert_eq!(Crossover::new(&first, &first, &index).generate_child_from(root), None);
    }
    let full = AdjacencyData::new(&quartet());
    assert!(breed(&first, &second, &full, 1).is_some());
}

#[test]
fn single_cell_child() {
    let index = AdjacencyData::new(&assorted(1));
    let parent = vec![vec![0usize]];
    assert_eq!(Crossover::new(&parent, &parent, &index).generate_child(), Some(parent.clone()));
}

#[test]
fn configuration_is_checked_in_order() {
    assert_eq!(validate_configuration(0, 0, 0), Err(ConfigError::EmptyUniverse));
    assert_eq!(validate_configuration(4, 0, 4), Err(ConfigError::ZeroAreaGrid));
    assert_eq!(validate_configuration(4, 4, 0), Err(ConfigError::ZeroAreaGrid));
    assert_eq!(validate_configuration(4, 2, 3), Err(ConfigError::SizeMismatch));
    assert_eq!(validate_configuration(usize::MAX, usize::MAX, 2), Err(ConfigError::SizeMismatch));
    assert_eq!(validate_configuration(4_194_305, 5, 838_861), Err(ConfigError::TooManyPieces));
    assert_eq!(validate_configuration(4_194_304, 2048, 2048), Ok(()));
    assert_eq!(validate_configuration(6, 2, 3), Ok(()));
    assert_eq!(validate_configuration(1, 1, 1), Ok(()));
    assert!(!ConfigError::SizeMismatch.message().is_empty());
}

#[test]
fn best_of_ranks_by_cost_then_id() {
    let scores = vec![(0usize, 50u64), (1, 20), (2, 70), (3, 20), (4, 10)];
    assert_eq!(best_of(&scores, 0), Vec::new());
    assert_eq!(best_of(&scores, 1), vec![(10, 4)]);
    assert_eq!(best_of(&scores, 3), vec![(10, 4), (20, 1), (20, 3)]);
    assert_eq!(best_of(&scores, 9), vec![(10, 4), (20, 1), (20, 3), (50, 0), (70, 2)]);
}

#[test]
fn fittest_is_the_first_cheapest() {
    let (right, down) = calculate_dissimilarity_matrices(&quartet());
    let solved = vec![vec![0usize, 1], vec![2, 3]];
    let other = vec![vec![3usize, 1], vec![2, 0]];
    assert_eq!(calculate_fitness(&solved, &right, &down), 0);
    assert_eq!(fittest(&Vec::new(), &right, &down), None);
    assert_eq!(fittest(&vec![other.clone(), solved.clone(), solved.clone()], &right, &down), Some(1));
    assert_eq!(fittest(&vec![other.clone()], &right, &down), Some(0));
}

#[test]
fn next_generation_keeps_size_and_elite() {
    let pieces = quartet();
    let index = AdjacencyData::new(&pieces);
    let (right, down) = calculate_dissimilarity_matrices(&pieces);
    let solved = vec![vec![0usize, 1], vec![2, 3]];
    let mut population = generate_initial_population(identity_keys(4), 2, 2, 9);
    population.push(solved.clone());
    let next = next_generation(&population, &index, &right, &down, 2, 2, 3, 10).unwrap();
    assert_eq!(next.len(), 10);
    assert_eq!(next[0], solved);
    let mut costs: Vec<u64> =
        population.iter().map(|g| calculate_fitness(g, &right, &down)).collect();
    costs.sort();
    for k in 0..3 {
        assert_eq!(calculate_fitness(&next[k], &right, &down), costs[k]);
    }
    for g in &next {
        assert!(is_complete_arrangement(g, 2, 2));
    }
}

#[test]
fn next_generation_gives_up_when_breeding_fails() {
    let pieces = quartet();
    let index = AdjacencyData::with_limit(&pieces, 0);
    let (right, down) = calculate_dissimilarity_matrices(&pieces);
    let population = vec![vec![vec![0usize, 1], vec![2, 3]], vec![vec![3usize, 2], vec![1, 0]]];
    // All elite: nothing to breed.
    let kept = next_generation(&population, &index, &right, &down, 2, 2, 2, 3).unwrap();
    assert_eq!(kept, population);
    // No attempt allowed: the one child cannot be made.
    assert_eq!(next_generation(&population, &index, &right, &down, 2, 2, 1, 0), None);
    assert_eq!(
        evolve(population.clone(), &index, &right, &down, 2, 2, 1, 1, 0),
        Err(EvolutionError::AssemblyFailed)
    );
    assert_eq!(run_generations(population.clone(), &index, &right, &down, 2, 2, 0, 1, 0), Some(population));
}

#[test]
fn evolve_rejects_an_empty_population() {
    let pieces = quartet();
    let index = AdjacencyData::new(&pieces);
    let (right, down) = calculate_dissimilarity_matrices(&pieces);
    assert_eq!(
        evolve(Vec::new(), &index, &right, &down, 2, 2, 3, 4, 10),
        Err(EvolutionError::EmptyPopulation)
    );
}

#[test]
fn evolution_solves_the_quartet() {
    let pieces = quartet();
    let settings =
        Settings { population_size: 60, generations: 8, limit: 100, elite: 4, max_attempts: 50 };
    for _ in 0..3 {
        assert_eq!(solve(&pieces, 2, 2, &settings), Ok(vec![vec![0, 1], vec![2, 3]]));
    }
}

#[test]
fn single_piece_is_solved_without_evolution() {
    let pieces = assorted(1);
    // No chromosome and no attempt: evolution could not run.
    let settings =
        Settings { population_size: 0, generations: 5, limit: 100, elite: 4, max_attempts: 0 };
    let solved = solve(&pieces, 1, 1, &settings).unwrap();
    assert_eq!(solved, vec![vec![0]]);
    let (right, down) = calculate_dissimilarity_matrices(&pieces);
    assert_eq!(calculate_fitness(&solved, &right, &down), 0);
}

#[test]
fn solve_turns_down_bad_puzzles() {
    let settings = Settings::standard();
    assert_eq!(settings.population_size, 500);
    assert_eq!(settings.generations, 30);
    assert_eq!(settings.limit, 100);
    assert_eq!(settings.elite, 4);
    let none: Vec<Piece> = Vec::new();
    assert_eq!(solve(&none, 0, 0, &settings), Err(SolveError::Config(ConfigError::EmptyUniverse)));
    assert_eq!(
        solve(&quartet(), 0, 4, &settings),
        Err(SolveError::Config(ConfigError::ZeroAreaGrid))
    );
    assert_eq!(
        solve(&quartet(), 3, 2, &settings),
        Err(SolveError::Config(ConfigError::SizeMismatch))
    );
    let px = Pixel { r: 0, g: 0, b: 0 };
    let uneven = vec![
        Piece::new(vec![vec![px, px]]).unwrap(),
        Piece::new(vec![vec![px], vec![px]]).unwrap(),
    ];
    assert_eq!(
        solve(&uneven, 1, 2, &settings),
        Err(SolveError::Config(ConfigError::UnevenPieces))
    );
    let empty = Settings { population_size: 0, ..settings };
    assert_eq!(
        solve(&quartet(), 2, 2, &empty),
        Err(SolveError::Evolution(EvolutionError::EmptyPopulation))
    );
}

/// Pieces cut from a picture whose colours change smoothly, so that true
/// neighbours fit well: `rows` by `cols` pieces of 6 by 6 samples, numbered
/// row by row.
fn cut_picture(rows: usize, cols: usize) -> Vec<Piece> {
    let size = 6;
    let mut pieces = Vec::new();
    for pr in 0..rows {
        for pc in 0..cols {
            let mut raster = Vec::new();
            for y in 0..size {
                let mut row = Vec::new();
                for x in 0..size {
                    let gy = pr * size + y;
                    let gx = pc * size + x;
                    row.push(Pixel {
                        r: ((gx * gx * 3 + gy * 5) % 256) as u8,
                        g: ((gy * gy * 2 + gx * 7) % 256) as u8,
                        b: ((gx * gy + 11 * gx + 3 * gy) % 256) as u8,
                    });
                }
                raster.push(row);
            }
            pieces.push(Piece::new(raster).unwrap());
        }
    }
    pieces
}

#[test]
fn elite_keeps_the_best_cost_from_rising() {
    let pieces = cut_picture(4, 4);
    let index = AdjacencyData::new(&pieces);
    let (right, down) = calculate_dissimilarity_matrices(&pieces);
    let population = generate_initial_population(identity_keys(16), 4, 4, 40);
    let best_before =
        population.iter().map(|g| calculate_fitness(g, &right, &down)).min().unwrap();
    let last = run_generations(population, &index, &right, &down, 4, 4, 6, 4, 1).unwrap();
    assert_eq!(last.len(), 40);
    for g in &last {
        assert!(is_complete_arrangement(g, 4, 4));
    }
    let best_after = last.iter().map(|g| calculate_fitness(g, &right, &down)).min().unwrap();
    assert!(best_after <= best_before);
    let winner = fittest(&last, &right, &down).unwrap();
    assert_eq!(calculate_fitness(&last[winner], &right, &down), best_after);
}

#[test]
fn complete_lists_never_need_a_second_attempt() {
    let pieces = cut_picture(3, 5);
    let index = AdjacencyData::with_limit(&pieces, 14);
    let population = generate_initial_population(identity_keys(15), 5, 3, 6);
    for a in &population {
        for b in &population {
            for root in 0..15 {
                let child = Crossover::new(a, b, &index).generate_child_from(root);
                assert!(is_complete_arrangement(&child.unwrap(), 3, 5));
            }
            assert!(breed(a, b, &index, 1).is_some());
        }
    }
}

#[test]
fn solve_fails_only_where_a_child_is_needed_and_cannot_be_made() {
    let pieces = quartet();
    // No attempt allowed, and children needed: the run gives up.
    let stuck =
        Settings { population_size: 6, generations: 2, limit: 100, elite: 2, max_attempts: 0 };
    assert_eq!(
        solve(&pieces, 2, 2, &stuck),
        Err(SolveError::Evolution(EvolutionError::AssemblyFailed))
    );
    // No generation to run: the cheapest of the first generation comes out.
    let still = Settings { generations: 0, ..stuck };
    assert!(is_complete_arrangement(&solve(&pieces, 2, 2, &still).unwrap(), 2, 2));
    // All chromosomes are elite: no child is needed.
    let kept = Settings { elite: 6, ..stuck };
    assert!(is_complete_arrangement(&solve(&pieces, 2, 2, &kept).unwrap(), 2, 2));
    // Lists that hold every other piece: one attempt per child is enough.
    let sure = Settings { max_attempts: 1, limit: 3, ..stuck };
    assert!(is_complete_arrangement(&solve(&pieces, 2, 2, &sure).unwrap(), 2, 2));
}
