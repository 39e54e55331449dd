//! The evolution loop: scoring, elitism, breeding, generation after
//! generation.

use vstd::prelude::*;
use crate::adjacency::{AdjacencyData, DEFAULT_LIMIT};
use crate::crossover::{breed, can_fail, is_child_of};
use crate::direction::Direction;
use crate::dissimilarity::{
    calculate_dissimilarity_matrices, covers_all_pairs, is_pairwise_matrix,
    lemma_pairwise_covers, matrix_view,
};
use crate::fitness::{evaluate_generation, fitness_spec, is_scorable, lemma_arrangement_scorable};
use crate::grid::{copy_matrix, grid_view, is_arrangement, MAX_CELLS};
use crate::kernel::Puzzle;
use crate::piece::{is_piece_set, is_uniform, rasters, Piece};
use crate::population::{
    fill_matrix, generate_initial_population, identity_keys, is_shuffled_fill,
    lemma_filled_is_arrangement,
};
use crate::ranking::{insert_ranked, is_ranked, ranks_before};
use crate::selection::{is_drawn_from, select_parents};

verus! {

/// Why a puzzle cannot be set up.
#[derive(Clone, Copy, Debug, PartialEq, Eq, Structural)]
pub enum ConfigError {
    /// There is no piece.
    EmptyUniverse,
    /// The grid has no row or no column.
    ZeroAreaGrid,
    /// The grid has more or fewer cells than there are pieces.
    SizeMismatch,
    /// There are more pieces than [`MAX_CELLS`].
    TooManyPieces,
    /// The pieces differ in size.
    UnevenPieces,
}

impl ConfigError {
    /// The sentence that [`ConfigError::message`] returns.
    pub open spec fn message_spec(&self) -> Seq<char> {
        match self {
            ConfigError::EmptyUniverse => "there are no pieces to arrange"@,
            ConfigError::ZeroAreaGrid => "the grid needs at least one row and one column"@,
            ConfigError::SizeMismatch => "rows times columns differs from the number of pieces"@,
            ConfigError::TooManyPieces => "there are more pieces than the solver can hold"@,
            ConfigError::UnevenPieces => "the pieces do not all have the same size"@,
        }
    }

    /// A sentence that says what is wrong.
    pub fn message(&self) -> (text: &'static str)
        ensures
            text@ == self.message_spec(),
    {
        match self {
            ConfigError::EmptyUniverse => "there are no pieces to arrange",
            ConfigError::ZeroAreaGrid => "the grid needs at least one row and one column",
            ConfigError::SizeMismatch => "rows times columns differs from the number of pieces",
            ConfigError::TooManyPieces => "there are more pieces than the solver can hold",
            ConfigError::UnevenPieces => "the pieces do not all have the same size",
        }
    }
}

/// What [`validate_configuration`] answers for a universe of `piece_count`
/// pieces and a grid of `rows` rows and `cols` columns.
pub open spec fn configuration_verdict(piece_count: nat, rows: nat, cols: nat) -> Result<
    (),
    ConfigError,
> {
    if piece_count == 0 {
        Err(ConfigError::EmptyUniverse)
    } else if rows == 0 || cols == 0 {
        Err(ConfigError::ZeroAreaGrid)
    } else if rows * cols != piece_count {
        Err(ConfigError::SizeMismatch)
    } else if piece_count > MAX_CELLS {
        Err(ConfigError::TooManyPieces)
    } else {
        Ok(())
    }
}

/// Checks that the grid fits the universe of pieces: there is a piece, the
/// grid has a cell, it has exactly one cell per piece, and no more than
/// [`MAX_CELLS`].
pub fn validate_configuration(piece_count: usize, rows: usize, cols: usize) -> (verdict: Result<
    (),
    ConfigError,
>)
    ensures
        verdict == configuration_verdict(piece_count as nat, rows as nat, cols as nat),
{
    if piece_count == 0 {
        return Err(ConfigError::EmptyUniverse);
    }
    if rows == 0 || cols == 0 {
        return Err(ConfigError::ZeroAreaGrid);
    }
    assert(rows * cols <= 0xFFFF_FFFF_FFFF_FFFF * 0xFFFF_FFFF_FFFF_FFFF) by (nonlinear_arith)
        requires
            rows <= 0xFFFF_FFFF_FFFF_FFFF,
            cols <= 0xFFFF_FFFF_FFFF_FFFF,
    ;
    if (rows as u128) * (cols as u128) != piece_count as u128 {
        return Err(ConfigError::SizeMismatch);
    }
    if piece_count > MAX_CELLS {
        return Err(ConfigError::TooManyPieces);
    }
    Ok(())
}

/// Every entry of `scores` carries its own place as its id.
pub open spec fn is_indexed(scores: Seq<(usize, u64)>) -> bool {
    forall|i: int| 0 <= i < scores.len() ==> (#[trigger] scores[i]).0 == i
}

/// `list` holds the best `count` of the first `upto` entries of `scores`,
/// as pairs of cost and id, in ascending order of cost, and of id among
/// equal costs.
pub open spec fn is_best_of(
    list: Seq<(u64, usize)>,
    scores: Seq<(usize, u64)>,
    count: nat,
    upto: nat,
) -> bool {
    &&& list.len() == if upto <= count {
        upto
    } else {
        count
    }
    &&& is_ranked(list)
    &&& forall|k: int|
        0 <= k < list.len() ==> (#[trigger] list[k]).1 < upto && list[k].0 == scores[list[k].1 as int].1
    &&& forall|i: int|
        0 <= i < upto ==> {
            ||| list.contains((scores[i].1, #[trigger] scores[i].0))
            ||| upto > count && (count == 0 || ranks_before(list.last(), (scores[i].1, scores[i].0)))
        }
}

/// The `count` cheapest chromosomes of a scored generation, cheapest first,
/// as pairs of cost and id.  Among equal costs the smaller id comes first.
pub fn best_of(scores: &Vec<(usize, u64)>, count: usize) -> (best: Vec<(u64, usize)>)
    requires
        is_indexed(scores@),
    ensures
        is_best_of(best@, scores@, count as nat, scores@.len()),
{
    let mut best: Vec<(u64, usize)> = Vec::new();
    let mut i: usize = 0;
    while i < scores.len()
        invariant
            i <= scores@.len(),
            is_indexed(scores@),
            is_best_of(best@, scores@, count as nat, i as nat),
        decreases scores@.len() - i,
    {
        let entry = (scores[i].1, scores[i].0);
        let ghost before = best@;
        proof {
            assert(scores@[i as int].0 == i);
            if before.contains(entry) {
                let k = choose|k: int| 0 <= k < before.len() && before[k] == entry;
                assert(before[k].1 < i);
            }
        }
        insert_ranked(&mut best, entry, count);
        proof {
            let after = best@;
            assert forall|k: int| 0 <= k < after.len() implies (#[trigger] after[k]).1 < i + 1
                && after[k].0 == scores@[after[k].1 as int].1 by {
                assert(after.contains(after[k]));
                if after[k] != entry {
                    assert(before.contains(after[k]));
                    let j = choose|j: int| 0 <= j < before.len() && before[j] == after[k];
                    assert(before[j].1 < i);
                }
            }
            assert forall|j: int| 0 <= j < i + 1 implies {
                ||| after.contains((scores@[j].1, #[trigger] scores@[j].0))
                ||| i + 1 > count && (count == 0 || ranks_before(
                    after.last(),
                    (scores@[j].1, scores@[j].0),
                ))
            } by {
                let e = (scores@[j].1, scores@[j].0);
                if j == i || before.contains(e) {
                    if !after.contains(e) {
                        assert(before.len() == count);
                    }
                } else {
                    assert(before.len() == count);
                    if count > 0 {
                        assert(ranks_before(before.last(), e));
                        assert(ranks_before(after.last(), e));
                    }
                }
            }
        }
        i += 1;
    }
    best
}

/// Why an evolution gave no arrangement.
#[derive(Clone, Copy, Debug, PartialEq, Eq, Structural)]
pub enum EvolutionError {
    /// The population holds no chromosome.
    EmptyPopulation,
    /// A child could not be assembled within the attempts allowed.
    AssemblyFailed,
}

/// Every chromosome is a complete arrangement in a grid of `rows` rows and
/// `cols` columns.
pub open spec fn is_population(population: Seq<Vec<Vec<usize>>>, rows: nat, cols: nat) -> bool {
    forall|i: int|
        0 <= i < population.len() ==> is_arrangement(
            grid_view((#[trigger] population[i])@),
            rows,
            cols,
        )
}

/// The index and the two score matrices cover the pieces of a grid of
/// `rows` rows and `cols` columns, which has at least one and at most
/// [`MAX_CELLS`] cells.
pub open spec fn is_setting(
    adjacency: &AdjacencyData,
    right: Seq<Seq<Option<u64>>>,
    down: Seq<Seq<Option<u64>>>,
    rows: nat,
    cols: nat,
) -> bool {
    &&& rows >= 1
    &&& cols >= 1
    &&& rows * cols <= MAX_CELLS
    &&& adjacency.wf()
    &&& adjacency.piece_count() == rows * cols
    &&& covers_all_pairs(right, rows * cols)
    &&& covers_all_pairs(down, rows * cols)
}

/// The costs of a population, each with the place of its chromosome.
pub open spec fn scores_of(
    population: Seq<Vec<Vec<usize>>>,
    right: Seq<Seq<Option<u64>>>,
    down: Seq<Seq<Option<u64>>>,
) -> Seq<(usize, u64)> {
    Seq::new(
        population.len(),
        |i: int| (i as usize, fitness_spec(grid_view(population[i]@), right, down) as u64),
    )
}

/// Every arrangement of a population can be scored against matrices that
/// hold every pair of different pieces.
pub proof fn lemma_population_scorable(
    population: Seq<Vec<Vec<usize>>>,
    rows: nat,
    cols: nat,
    right: Seq<Seq<Option<u64>>>,
    down: Seq<Seq<Option<u64>>>,
)
    requires
        rows >= 1,
        cols >= 1,
        rows * cols <= MAX_CELLS,
        is_population(population, rows, cols),
        covers_all_pairs(right, rows * cols),
        covers_all_pairs(down, rows * cols),
    ensures
        forall|i: int|
            0 <= i < population.len() ==> is_scorable(
                grid_view((#[trigger] population[i])@),
                right,
                down,
            ),
{
    assert forall|i: int| 0 <= i < population.len() implies is_scorable(
        grid_view((#[trigger] population[i])@),
        right,
        down,
    ) by {
        lemma_arrangement_scorable(grid_view(population[i]@), rows, cols, right, down);
    }
}

/// The place of the cheapest chromosome, the first of them among equals;
/// `None` for an empty population.
pub fn fittest(
    population: &Vec<Vec<Vec<usize>>>,
    dissimilarities_r: &Vec<Vec<Option<u64>>>,
    dissimilarities_d: &Vec<Vec<Option<u64>>>,
) -> (best: Option<usize>)
    requires
        forall|i: int|
            0 <= i < population@.len() ==> is_scorable(
                grid_view((#[trigger] population@[i])@),
                matrix_view(dissimilarities_r@),
                matrix_view(dissimilarities_d@),
            ),
    ensures
        best is None <==> population@.len() == 0,
        best matches Some(b) ==> {
            let scores = scores_of(
                population@,
                matrix_view(dissimilarities_r@),
                matrix_view(dissimilarities_d@),
            );
            &&& b < population@.len()
            &&& forall|i: int|
                0 <= i < population@.len() ==> scores[b as int].1 <= (#[trigger] scores[i]).1
            &&& forall|i: int| 0 <= i < b ==> scores[b as int].1 < (#[trigger] scores[i]).1
        },
{
    let fitness_scores = evaluate_generation(population, dissimilarities_r, dissimilarities_d);
    let ghost scores = scores_of(
        population@,
        matrix_view(dissimilarities_r@),
        matrix_view(dissimilarities_d@),
    );
    assert(fitness_scores@ =~= scores);
    let best = best_of(&fitness_scores, 1);
    if best.len() == 0 {
        return None;
    }
    let winner = best[0].1;
    proof {
        assert forall|i: int| 0 <= i < population@.len() implies scores[winner as int].1 <= (
        #[trigger] scores[i]).1 && (i < winner ==> scores[winner as int].1 < scores[i].1) by {
            let e = (scores[i].1, scores[i].0);
            if best@.contains(e) {
                let k = choose|k: int| 0 <= k < best@.len() && best@[k] == e;
                assert(k == 0);
            } else {
                assert(ranks_before(best@.last(), e));
            }
        }
    }
    Some(winner)
}

/// `next` is a generation that can follow `previous`: it is as large, it
/// starts with copies of the `elite` cheapest chromosomes of `previous`,
/// cheapest first, and every other chromosome is a child of two
/// chromosomes of `previous` that selection can draw.
pub open spec fn is_next_generation(
    previous: Seq<Vec<Vec<usize>>>,
    next: Seq<Vec<Vec<usize>>>,
    adjacency: &AdjacencyData,
    right: Seq<Seq<Option<u64>>>,
    down: Seq<Seq<Option<u64>>>,
    rows: nat,
    cols: nat,
    elite: nat,
) -> bool {
    let scores = scores_of(previous, right, down);
    &&& next.len() == previous.len()
    &&& is_population(next, rows, cols)
    &&& exists|best: Seq<(u64, usize)>| #[trigger]
        is_best_of(best, scores, elite, scores.len()) && forall|k: int|
            0 <= k < best.len() ==> grid_view((#[trigger] next[k])@) == grid_view(
                previous[best[k].1 as int]@,
            )
    &&& forall|k: int|
        elite <= k < next.len() ==> is_bred_from(
            previous,
            adjacency,
            scores,
            grid_view((#[trigger] next[k])@),
        )
}

/// `last` can come from `first` by `generations` generations.
pub open spec fn evolves_to(
    first: Seq<Vec<Vec<usize>>>,
    last: Seq<Vec<Vec<usize>>>,
    generations: nat,
    adjacency: &AdjacencyData,
    right: Seq<Seq<Option<u64>>>,
    down: Seq<Seq<Option<u64>>>,
    rows: nat,
    cols: nat,
    elite: nat,
) -> bool
    decreases generations,
{
    if generations == 0 {
        last == first
    } else {
        exists|before: Seq<Vec<Vec<usize>>>|
            evolves_to(
                first,
                before,
                (generations - 1) as nat,
                adjacency,
                right,
                down,
                rows,
                cols,
                elite,
            ) && #[trigger] is_next_generation(
                before,
                last,
                adjacency,
                right,
                down,
                rows,
                cols,
                elite,
            )
    }
}

/// Elitism never loses the best: when at least one chromosome is carried
/// over, the next generation holds a chromosome that costs no more than any
/// chromosome of the one before.
pub proof fn lemma_elite_keeps_best(
    previous: Seq<Vec<Vec<usize>>>,
    next: Seq<Vec<Vec<usize>>>,
    adjacency: &AdjacencyData,
    right: Seq<Seq<Option<u64>>>,
    down: Seq<Seq<Option<u64>>>,
    rows: nat,
    cols: nat,
    elite: nat,
)
    requires
        is_next_generation(previous, next, adjacency, right, down, rows, cols, elite),
        elite >= 1,
        previous.len() >= 1,
    ensures
        forall|i: int|
            0 <= i < previous.len() ==> scores_of(next, right, down)[0].1 <= (#[trigger] scores_of(
                previous,
                right,
                down,
            )[i]).1,
{
    let scores = scores_of(previous, right, down);
    let best = choose|best: Seq<(u64, usize)>| #[trigger]
        is_best_of(best, scores, elite, scores.len()) && forall|k: int|
            0 <= k < best.len() ==> grid_view((#[trigger] next[k])@) == grid_view(
                previous[best[k].1 as int]@,
            );
    let top = best[0];
    assert(top.1 < scores.len() && top.0 == scores[top.1 as int].1);
    assert(grid_view(next[0]@) == grid_view(previous[top.1 as int]@));
    assert(scores_of(next, right, down)[0].1 == top.0);
    assert forall|i: int| 0 <= i < previous.len() implies top.0 <= (#[trigger] scores[i]).1 by {
        let e = (scores[i].1, scores[i].0);
        if best.contains(e) {
            let k = choose|k: int| 0 <= k < best.len() && best[k] == e;
            if k > 0 {
                assert(ranks_before(best[0], best[k]));
            }
        } else {
            assert(ranks_before(best.last(), e));
            if best.len() > 1 {
                assert(ranks_before(best[0], best[best.len() - 1]));
            }
        }
    }
}

/// Two chromosomes of `population` that selection can draw have an
/// assembly that comes to rest before every piece is placed.
pub open spec fn can_fail_to_breed(
    population: Seq<Vec<Vec<usize>>>,
    adjacency: &AdjacencyData,
    scores: Seq<(usize, u64)>,
) -> bool {
    exists|first: usize, second: usize|
        first < population.len() && second < population.len() && is_drawn_from(scores, first)
            && is_drawn_from(scores, second) && #[trigger] can_fail(
            Puzzle {
                first: grid_view(population[first as int]@),
                second: grid_view(population[second as int]@),
                index: *adjacency,
            },
        )
}

/// Within fewer than `generations` generations from `first`, a generation
/// can come up in which breeding can fail.
pub open spec fn can_get_stuck(
    first: Seq<Vec<Vec<usize>>>,
    generations: nat,
    adjacency: &AdjacencyData,
    right: Seq<Seq<Option<u64>>>,
    down: Seq<Seq<Option<u64>>>,
    rows: nat,
    cols: nat,
    elite: nat,
) -> bool {
    exists|stuck: Seq<Vec<Vec<usize>>>, done: nat|
        done < generations && #[trigger] evolves_to(
            first,
            stuck,
            done,
            adjacency,
            right,
            down,
            rows,
            cols,
            elite,
        ) && can_fail_to_breed(stuck, adjacency, scores_of(stuck, right, down))
}

/// A generation that follows one evolved in some number of generations is
/// evolved in one generation more.
pub proof fn lemma_one_more_generation(
    first: Seq<Vec<Vec<usize>>>,
    before: Seq<Vec<Vec<usize>>>,
    last: Seq<Vec<Vec<usize>>>,
    generations: nat,
    adjacency: &AdjacencyData,
    right: Seq<Seq<Option<u64>>>,
    down: Seq<Seq<Option<u64>>>,
    rows: nat,
    cols: nat,
    elite: nat,
)
    requires
        evolves_to(first, before, generations, adjacency, right, down, rows, cols, elite),
        is_next_generation(before, last, adjacency, right, down, rows, cols, elite),
    ensures
        evolves_to(first, last, generations + 1, adjacency, right, down, rows, cols, elite),
{
    let more = generations + 1;
    assert((more - 1) as nat == generations);
    assert(evolves_to(
        first,
        before,
        (more - 1) as nat,
        adjacency,
        right,
        down,
        rows,
        cols,
        elite,
    ));
}

/// The next generation: the `elite` cheapest chromosomes, copied, and for
/// every other place a child of two parents drawn by inverse cost.
///
/// Returns `None` when a child could not be assembled within
/// `max_attempts` attempts.
pub fn next_generation(
    population: &Vec<Vec<Vec<usize>>>,
    adjacency: &AdjacencyData,
    dissimilarities_r: &Vec<Vec<Option<u64>>>,
    dissimilarities_d: &Vec<Vec<Option<u64>>>,
    rows: usize,
    cols: usize,
    elite: usize,
    max_attempts: usize,
) -> (next: Option<Vec<Vec<Vec<usize>>>>)
    requires
        is_setting(
            adjacency,
            matrix_view(dissimilarities_r@),
            matrix_view(dissimilarities_d@),
            rows as nat,
            cols as nat,
        ),
        is_population(population@, rows as nat, cols as nat),
    ensures
        next matches Some(grown) ==> is_next_generation(
            population@,
            grown@,
            adjacency,
            matrix_view(dissimilarities_r@),
            matrix_view(dissimilarities_d@),
            rows as nat,
            cols as nat,
            elite as nat,
        ),
        next is None ==> population@.len() > elite && (max_attempts == 0 || can_fail_to_breed(
            population@,
            adjacency,
            scores_of(
                population@,
                matrix_view(dissimilarities_r@),
                matrix_view(dissimilarities_d@),
            ),
        )),
        max_attempts > 0 && adjacency.piece_count() <= adjacency.limit() + 1 ==> next is Some,
        max_attempts == 0 && population@.len() > elite ==> next is None,
{
    let ghost right = matrix_view(dissimilarities_r@);
    let ghost down = matrix_view(dissimilarities_d@);
    let ghost scores = scores_of(population@, right, down);
    proof {
        lemma_population_scorable(population@, rows as nat, cols as nat, right, down);
    }
    let fitness_scores = evaluate_generation(population, dissimilarities_r, dissimilarities_d);
    assert(fitness_scores@ =~= scores);
    let best = best_of(&fitness_scores, elite);
    let size = population.len();
    let mut grown: Vec<Vec<Vec<usize>>> = Vec::new();
    let mut k: usize = 0;
    while k < best.len()
        invariant
            k <= best@.len(),
            best@.len() <= size,
            size == population@.len(),
            grown@.len() == k,
            is_best_of(best@, scores, elite as nat, scores.len()),
            scores.len() == size,
            is_population(population@, rows as nat, cols as nat),
            is_population(grown@, rows as nat, cols as nat),
            forall|j: int|
                0 <= j < k ==> grid_view((#[trigger] grown@[j])@) == grid_view(
                    population@[best@[j].1 as int]@,
                ),
        decreases best@.len() - k,
    {
        let id = best[k].1;
        assert(best@[k as int].1 < scores.len());
        let copy = copy_matrix(&population[id]);
        let ghost before = grown@;
        grown.push(copy);
        proof {
            assert forall|i: int| 0 <= i < grown@.len() implies is_arrangement(
                grid_view((#[trigger] grown@[i])@),
                rows as nat,
                cols as nat,
            ) by {
                if i < k {
                    assert(grown@[i] == before[i]);
                } else {
                    assert(is_arrangement(
                        grid_view(population@[id as int]@),
                        rows as nat,
                        cols as nat,
                    ));
                }
            }
        }
        k += 1;
    }
    let ghost elites = grown@;
    while grown.len() < size
        invariant
            best@.len() <= grown@.len() <= size,
            best@.len() == (if size <= elite {
                size
            } else {
                elite
            }),
            size == population@.len(),
            scores == scores_of(population@, right, down),
            fitness_scores@ == scores,
            right == matrix_view(dissimilarities_r@),
            down == matrix_view(dissimilarities_d@),
            is_setting(adjacency, right, down, rows as nat, cols as nat),
            is_population(population@, rows as nat, cols as nat),
            is_population(grown@, rows as nat, cols as nat),
            max_attempts == 0 ==> grown@.len() == best@.len(),
            forall|j: int|
                0 <= j < best@.len() ==> grid_view((#[trigger] grown@[j])@) == grid_view(
                    population@[best@[j].1 as int]@,
                ),
            forall|j: int|
                elite <= j < grown@.len() ==> is_bred_from(
                    population@,
                    adjacency,
                    scores,
                    grid_view((#[trigger] grown@[j])@),
                ),
        decreases size - grown@.len(),
    {
        let (parent1_idx, parent2_idx) = select_parents(&fitness_scores);
        proof {
            lemma_drawn_is_index(scores, parent1_idx);
            lemma_drawn_is_index(scores, parent2_idx);
            assert(is_arrangement(
                grid_view(population@[parent1_idx as int]@),
                rows as nat,
                cols as nat,
            ));
            assert(is_arrangement(
                grid_view(population@[parent2_idx as int]@),
                rows as nat,
                cols as nat,
            ));
            assert(grid_view(population@[parent1_idx as int]@)[0].len() == cols);
        }
        let child = match breed(
            &population[parent1_idx],
            &population[parent2_idx],
            adjacency,
            max_attempts,
        ) {
            Some(child) => child,
            None => {
                return None;
            },
        };
        let ghost before = grown@;
        proof {
            assert(is_bred_from(population@, adjacency, scores, grid_view(child@)));
        }
        grown.push(child);
        proof {
            assert forall|i: int| 0 <= i < grown@.len() implies is_arrangement(
                grid_view((#[trigger] grown@[i])@),
                rows as nat,
                cols as nat,
            ) by {
                if i < before.len() {
                    assert(grown@[i] == before[i]);
                }
            }
            assert forall|j: int| 0 <= j < best@.len() implies grid_view((#[trigger] grown@[j])@)
                == grid_view(population@[best@[j].1 as int]@) by {
                assert(grown@[j] == before[j]);
            }
            assert forall|j: int| elite <= j < grown@.len() implies is_bred_from(
                population@,
                adjacency,
                scores,
                grid_view((#[trigger] grown@[j])@),
            ) by {
                if j < before.len() {
                    assert(grown@[j] == before[j]);
                }
            }
        }
    }
    Some(grown)
}

/// `g` is a child of two chromosomes of `population` that selection can
/// draw.
pub open spec fn is_bred_from(
    population: Seq<Vec<Vec<usize>>>,
    adjacency: &AdjacencyData,
    scores: Seq<(usize, u64)>,
    g: Seq<Seq<usize>>,
) -> bool {
    exists|first: usize, second: usize|
        first < population.len() && second < population.len() && is_drawn_from(scores, first)
            && is_drawn_from(scores, second) && #[trigger] is_child_of(
            Puzzle {
                first: grid_view(population[first as int]@),
                second: grid_view(population[second as int]@),
                index: *adjacency,
            },
            g,
        )
}

/// Whatever selection draws from indexed scores is the place of a
/// chromosome.
pub proof fn lemma_drawn_is_index(scores: Seq<(usize, u64)>, id: usize)
    requires
        is_indexed(scores),
        is_drawn_from(scores, id),
    ensures
        id < scores.len(),
{
}

/// Runs `generations` generations, each made from the one before by
/// [`next_generation`].  Returns `None` when a child could not be assembled
/// within `max_attempts` attempts.
pub fn run_generations(
    population: Vec<Vec<Vec<usize>>>,
    adjacency: &AdjacencyData,
    dissimilarities_r: &Vec<Vec<Option<u64>>>,
    dissimilarities_d: &Vec<Vec<Option<u64>>>,
    rows: usize,
    cols: usize,
    generations: usize,
    elite: usize,
    max_attempts: usize,
) -> (last: Option<Vec<Vec<Vec<usize>>>>)
    requires
        is_setting(
            adjacency,
            matrix_view(dissimilarities_r@),
            matrix_view(dissimilarities_d@),
            rows as nat,
            cols as nat,
        ),
        is_population(population@, rows as nat, cols as nat),
    ensures
        last matches Some(grown) ==> grown@.len() == population@.len() && is_population(
            grown@,
            rows as nat,
            cols as nat,
        ) && evolves_to(
            population@,
            grown@,
            generations as nat,
            adjacency,
            matrix_view(dissimilarities_r@),
            matrix_view(dissimilarities_d@),
            rows as nat,
            cols as nat,
            elite as nat,
        ),
        generations == 0 ==> last == Some(population),
        last is None ==> generations > 0 && population@.len() > elite && (max_attempts == 0
            || can_get_stuck(
            population@,
            generations as nat,
            adjacency,
            matrix_view(dissimilarities_r@),
            matrix_view(dissimilarities_d@),
            rows as nat,
            cols as nat,
            elite as nat,
        )),
        max_attempts > 0 && adjacency.piece_count() <= adjacency.limit() + 1 ==> last is Some,
        max_attempts == 0 && generations > 0 && population@.len() > elite ==> last is None,
{
    let ghost size = population@.len();
    let mut current_population = population;
    let mut done: usize = 0;
    while done < generations
        invariant
            done <= generations,
            is_setting(
                adjacency,
                matrix_view(dissimilarities_r@),
                matrix_view(dissimilarities_d@),
                rows as nat,
                cols as nat,
            ),
            size == population@.len(),
            current_population@.len() == size,
            is_population(current_population@, rows as nat, cols as nat),
            done == 0 ==> current_population == population,
            max_attempts == 0 && size > elite ==> done == 0,
            evolves_to(
                population@,
                current_population@,
                done as nat,
                adjacency,
                matrix_view(dissimilarities_r@),
                matrix_view(dissimilarities_d@),
                rows as nat,
                cols as nat,
                elite as nat,
            ),
        decreases generations - done,
    {
        let ghost before = current_population@;
        current_population = match next_generation(
            &current_population,
            adjacency,
            dissimilarities_r,
            dissimilarities_d,
            rows,
            cols,
            elite,
            max_attempts,
        ) {
            Some(grown) => grown,
            None => {
                return None;
            },
        };
        proof {
            lemma_one_more_generation(
                population@,
                before,
                current_population@,
                done as nat,
                adjacency,
                matrix_view(dissimilarities_r@),
                matrix_view(dissimilarities_d@),
                rows as nat,
                cols as nat,
                elite as nat,
            );
        }
        done += 1;
    }
    Some(current_population)
}

/// `g` is the cheapest chromosome of `population`, the first of them among
/// equals.
pub open spec fn is_fittest_of(
    g: Seq<Seq<usize>>,
    population: Seq<Vec<Vec<usize>>>,
    right: Seq<Seq<Option<u64>>>,
    down: Seq<Seq<Option<u64>>>,
) -> bool {
    let scores = scores_of(population, right, down);
    exists|b: int|
        {
            &&& 0 <= b < population.len()
            &&& g == grid_view((#[trigger] population[b])@)
            &&& forall|i: int| 0 <= i < population.len() ==> scores[b].1 <= (#[trigger] scores[i]).1
            &&& forall|i: int| 0 <= i < b ==> scores[b].1 < (#[trigger] scores[i]).1
        }
}

/// Evolves `population` for `generations` generations and returns the
/// cheapest chromosome of the last one.
pub fn evolve(
    population: Vec<Vec<Vec<usize>>>,
    adjacency: &AdjacencyData,
    dissimilarities_r: &Vec<Vec<Option<u64>>>,
    dissimilarities_d: &Vec<Vec<Option<u64>>>,
    rows: usize,
    cols: usize,
    generations: usize,
    elite: usize,
    max_attempts: usize,
) -> (outcome: Result<Vec<Vec<usize>>, EvolutionError>)
    requires
        is_setting(
            adjacency,
            matrix_view(dissimilarities_r@),
            matrix_view(dissimilarities_d@),
            rows as nat,
            cols as nat,
        ),
        is_population(population@, rows as nat, cols as nat),
    ensures
        outcome matches Ok(g) ==> is_arrangement(grid_view(g@), rows as nat, cols as nat),
        outcome matches Ok(g) ==> exists|last: Seq<Vec<Vec<usize>>>| #[trigger]
            evolves_to(
                population@,
                last,
                generations as nat,
                adjacency,
                matrix_view(dissimilarities_r@),
                matrix_view(dissimilarities_d@),
                rows as nat,
                cols as nat,
                elite as nat,
            ) && is_fittest_of(
                grid_view(g@),
                last,
                matrix_view(dissimilarities_r@),
                matrix_view(dissimilarities_d@),
            ),
        outcome == Err::<Vec<Vec<usize>>, EvolutionError>(EvolutionError::EmptyPopulation)
            <==> population@.len() == 0,
        outcome is Err && population@.len() > 0 ==> generations > 0 && population@.len() > elite
            && (max_attempts == 0 || can_get_stuck(
            population@,
            generations as nat,
            adjacency,
            matrix_view(dissimilarities_r@),
            matrix_view(dissimilarities_d@),
            rows as nat,
            cols as nat,
            elite as nat,
        )),
        population@.len() > 0 && max_attempts > 0 && adjacency.piece_count() <= adjacency.limit()
            + 1 ==> outcome is Ok,
        max_attempts == 0 && generations > 0 && population@.len() > elite ==> outcome == Err::<
            Vec<Vec<usize>>,
            EvolutionError,
        >(EvolutionError::AssemblyFailed),
{
    if population.len() == 0 {
        return Err(EvolutionError::EmptyPopulation);
    }
    let last = match run_generations(
        population,
        adjacency,
        dissimilarities_r,
        dissimilarities_d,
        rows,
        cols,
        generations,
        elite,
        max_attempts,
    ) {
        Some(last) => last,
        None => {
            return Err(EvolutionError::AssemblyFailed);
        },
    };
    proof {
        lemma_population_scorable(
            last@,
            rows as nat,
            cols as nat,
            matrix_view(dissimilarities_r@),
            matrix_view(dissimilarities_d@),
        );
    }
    match fittest(&last, dissimilarities_r, dissimilarities_d) {
        Some(best) => {
            assert(is_arrangement(grid_view(last@[best as int]@), rows as nat, cols as nat));
            let winner = copy_matrix(&last[best]);
            assert(is_fittest_of(
                grid_view(winner@),
                last@,
                matrix_view(dissimilarities_r@),
                matrix_view(dissimilarities_d@),
            )) by {
                assert(grid_view(winner@) == grid_view(last@[best as int]@));
            }
            Ok(winner)
        },
        None => Err(EvolutionError::EmptyPopulation),
    }
}

/// What steers a run.
#[derive(Clone, Copy, Debug)]
pub struct Settings {
    /// Number of chromosomes in every generation.
    pub population_size: u32,
    /// Number of generations to run.
    pub generations: usize,
    /// Length at which the ranked neighbour lists are cut off.
    pub limit: usize,
    /// Number of chromosomes carried over unchanged.
    pub elite: usize,
    /// Number of attempts to assemble one child before the run gives up.
    pub max_attempts: usize,
}

impl Settings {
    /// The usual settings: 500 chromosomes, 30 generations, lists of
    /// 100 neighbours, 4 elite chromosomes, and no limit worth the name on
    /// the attempts per child.
    pub fn standard() -> (settings: Settings)
        ensures
            settings.population_size == 500,
            settings.generations == 30,
            settings.limit == DEFAULT_LIMIT,
            settings.elite == 4,
            settings.max_attempts == usize::MAX,
    {
        Settings {
            population_size: 500,
            generations: 30,
            limit: DEFAULT_LIMIT,
            elite: 4,
            max_attempts: usize::MAX,
        }
    }
}

/// Why [`solve`] gave no arrangement.
#[derive(Clone, Copy, Debug, PartialEq, Eq, Structural)]
pub enum SolveError {
    /// The puzzle was turned down before the evolution started.
    Config(ConfigError),
    /// The evolution gave up.
    Evolution(EvolutionError),
}

/// What [`solve`] checks before it starts: the verdict on the grid, then
/// that all pieces have one size.
pub open spec fn setup_verdict(pieces: Seq<Piece>, rows: nat, cols: nat) -> Result<(), ConfigError> {
    match configuration_verdict(pieces.len(), rows, cols) {
        Err(e) => Err(e),
        Ok(_) => if is_piece_set(pieces) {
            Ok(())
        } else {
            Err(ConfigError::UnevenPieces)
        },
    }
}

/// What a run over `pieces` with `settings` starts from: the compatibility
/// index of the pieces with lists cut off at `settings.limit`, the two
/// matrices of their scores, and a first generation of
/// `settings.population_size` random arrangements.
pub open spec fn is_start_of(
    pieces: Seq<Piece>,
    rows: nat,
    cols: nat,
    settings: Settings,
    adjacency: AdjacencyData,
    right: Seq<Seq<Option<u64>>>,
    down: Seq<Seq<Option<u64>>>,
    first: Seq<Vec<Vec<usize>>>,
) -> bool {
    &&& adjacency.wf()
    &&& adjacency.rasters() == rasters(pieces)
    &&& adjacency.limit() == settings.limit
    &&& is_pairwise_matrix(right, rasters(pieces), Direction::Right)
    &&& is_pairwise_matrix(down, rasters(pieces), Direction::Down)
    &&& first.len() == settings.population_size
    &&& forall|k: int|
        0 <= k < first.len() ==> is_shuffled_fill(
            grid_view((#[trigger] first[k])@),
            Seq::new(pieces.len(), |id: int| id as usize),
            cols,
            rows,
        )
}

/// `g` can come out of a run over `pieces` with `settings`: it is the
/// cheapest chromosome of the last of `settings.generations` generations
/// evolved from a start of the run.
pub open spec fn is_solution_of(
    g: Seq<Seq<usize>>,
    pieces: Seq<Piece>,
    rows: nat,
    cols: nat,
    settings: Settings,
) -> bool {
    exists|
        adjacency: AdjacencyData,
        right: Seq<Seq<Option<u64>>>,
        down: Seq<Seq<Option<u64>>>,
        first: Seq<Vec<Vec<usize>>>,
        last: Seq<Vec<Vec<usize>>>,
    |
        {
            &&& is_start_of(pieces, rows, cols, settings, adjacency, right, down, first)
            &&& #[trigger] evolves_to(
                first,
                last,
                settings.generations as nat,
                &adjacency,
                right,
                down,
                rows,
                cols,
                settings.elite as nat,
            )
            &&& is_fittest_of(g, last, right, down)
        }
}

/// A run over `pieces` with `settings` can get stuck: from some start of
/// the run, within fewer generations than asked for, a generation can come
/// up in which two parents that selection can draw have an assembly that
/// fails.
pub open spec fn can_stall(pieces: Seq<Piece>, rows: nat, cols: nat, settings: Settings) -> bool {
    exists|
        adjacency: AdjacencyData,
        right: Seq<Seq<Option<u64>>>,
        down: Seq<Seq<Option<u64>>>,
        first: Seq<Vec<Vec<usize>>>,
    |
        {
            &&& is_start_of(pieces, rows, cols, settings, adjacency, right, down, first)
            &&& #[trigger] can_get_stuck(
                first,
                settings.generations as nat,
                &adjacency,
                right,
                down,
                rows,
                cols,
                settings.elite as nat,
            )
        }
}

/// Arranges `pieces` in a grid of `rows` rows and `cols` columns.
///
/// A puzzle that fails the checks of [`setup_verdict`] is turned down.  A
/// single piece is its own solution, found without any crossover.
/// Otherwise a random population is evolved and its cheapest chromosome
/// returned.
pub fn solve(pieces: &Vec<Piece>, rows: usize, cols: usize, settings: &Settings) -> (outcome: Result<
    Vec<Vec<usize>>,
    SolveError,
>)
    ensures
        setup_verdict(pieces@, rows as nat, cols as nat) matches Err(e) ==> outcome == Err::<
            Vec<Vec<usize>>,
            SolveError,
        >(SolveError::Config(e)),
        setup_verdict(pieces@, rows as nat, cols as nat) is Ok ==> !(outcome matches Err(
            SolveError::Config(_),
        )),
        outcome matches Ok(g) ==> is_arrangement(grid_view(g@), rows as nat, cols as nat),
        setup_verdict(pieces@, rows as nat, cols as nat) is Ok && pieces@.len() == 1
            ==> (outcome matches Ok(g) && g@.len() == 1 && g@[0]@ == seq![0usize]),
        pieces@.len() > 1 ==> (outcome matches Ok(g) ==> is_solution_of(
            grid_view(g@),
            pieces@,
            rows as nat,
            cols as nat,
            *settings,
        )),
        setup_verdict(pieces@, rows as nat, cols as nat) is Ok && pieces@.len() > 1 ==> (outcome
            == Err::<Vec<Vec<usize>>, SolveError>(
            SolveError::Evolution(EvolutionError::EmptyPopulation),
        ) <==> settings.population_size == 0),
        setup_verdict(pieces@, rows as nat, cols as nat) is Ok && settings.population_size > 0
            && settings.max_attempts > 0 && pieces@.len() <= settings.limit + 1
            ==> outcome is Ok,
        setup_verdict(pieces@, rows as nat, cols as nat) is Ok && settings.population_size > 0
            && (settings.generations == 0 || settings.population_size <= settings.elite)
            ==> outcome is Ok,
        setup_verdict(pieces@, rows as nat, cols as nat) is Ok && pieces@.len() > 1
            && settings.max_attempts == 0 && settings.generations > 0 && settings.population_size
            > settings.elite ==> outcome == Err::<Vec<Vec<usize>>, SolveError>(
            SolveError::Evolution(EvolutionError::AssemblyFailed),
        ),
        outcome == Err::<Vec<Vec<usize>>, SolveError>(
            SolveError::Evolution(EvolutionError::AssemblyFailed),
        ) ==> {
            &&& pieces@.len() > 1
            &&& settings.generations > 0
            &&& settings.population_size > settings.elite
            &&& settings.max_attempts == 0 || can_stall(
                pieces@,
                rows as nat,
                cols as nat,
                *settings,
            )
        },
{
    let count = pieces.len();
    match validate_configuration(count, rows, cols) {
        Err(e) => {
            return Err(SolveError::Config(e));
        },
        Ok(_) => {},
    }
    if !is_uniform(pieces) {
        return Err(SolveError::Config(ConfigError::UnevenPieces));
    }
    let keys = identity_keys(count);
    if count == 1 {
        assert(rows == 1 && cols == 1) by (nonlinear_arith)
            requires
                rows * cols == 1,
                rows >= 1,
                cols >= 1,
        ;
        let only = fill_matrix(&keys, cols, rows);
        proof {
            lemma_filled_is_arrangement(grid_view(only@), keys@, cols as nat, rows as nat);
            let g = grid_view(only@);
            assert(g[0].len() == 1);
            assert(g[0][0] < 1);
            assert(only@[0]@ =~= seq![0usize]);
        }
        return Ok(only);
    }
    let adjacency = AdjacencyData::with_limit(pieces, settings.limit);
    let (dissimilarity_r, dissimilarity_d) = calculate_dissimilarity_matrices(pieces);
    proof {
        lemma_pairwise_covers(matrix_view(dissimilarity_r@), rasters(pieces@), Direction::Right);
        lemma_pairwise_covers(matrix_view(dissimilarity_d@), rasters(pieces@), Direction::Down);
    }
    assert(keys@ =~= Seq::new(pieces@.len(), |id: int| id as usize));
    let init_pop = generate_initial_population(keys, cols, rows, settings.population_size);
    match evolve(
        init_pop,
        &adjacency,
        &dissimilarity_r,
        &dissimilarity_d,
        rows,
        cols,
        settings.generations,
        settings.elite,
        settings.max_attempts,
    ) {
        Ok(g) => Ok(g),
        Err(e) => Err(SolveError::Evolution(e)),
    }
}

} // verus!
