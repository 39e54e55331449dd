//! The cost of an arrangement: the summed scores of all touching edges.

use vstd::prelude::*;
use crate::dissimilarity::{covers_all_pairs, entry, matrix_view, MAX_SCORE};
use crate::grid::{grid_view, is_arrangement, is_grid, lemma_cell_number, MAX_CELLS};

verus! {

/// `m` holds a score for piece `b` next to piece `a`, and it is not above
/// [`MAX_SCORE`].
pub open spec fn has_score(m: Seq<Seq<Option<u64>>>, a: usize, b: usize) -> bool {
    entry(m, a as int, b as int) is Some && entry(m, a as int, b as int).unwrap() <= MAX_SCORE
}

/// The score that `m` holds for piece `b` next to piece `a`.
pub open spec fn score_at(m: Seq<Seq<Option<u64>>>, a: usize, b: usize) -> nat {
    match entry(m, a as int, b as int) {
        Some(score) => score as nat,
        None => 0,
    }
}

/// Scores of the first `upto` side-by-side pairs of row `r`.
pub open spec fn row_cost(g: Seq<Seq<usize>>, right: Seq<Seq<Option<u64>>>, r: int, upto: nat) -> nat
    decreases upto,
{
    if upto == 0 {
        0
    } else {
        row_cost(g, right, r, (upto - 1) as nat) + score_at(right, g[r][upto - 1], g[r][upto as int])
    }
}

/// Scores of all side-by-side pairs in the first `upto` rows.
pub open spec fn horizontal_cost(g: Seq<Seq<usize>>, right: Seq<Seq<Option<u64>>>, upto: nat) -> nat
    decreases upto,
{
    if upto == 0 {
        0
    } else {
        horizontal_cost(g, right, (upto - 1) as nat) + row_cost(
            g,
            right,
            upto - 1,
            (g[upto - 1].len() - 1) as nat,
        )
    }
}

/// Scores of the first `upto` pairs made of a cell of row `r` and the cell
/// below it.
pub open spec fn seam_cost(g: Seq<Seq<usize>>, down: Seq<Seq<Option<u64>>>, r: int, upto: nat) -> nat
    decreases upto,
{
    if upto == 0 {
        0
    } else {
        seam_cost(g, down, r, (upto - 1) as nat) + score_at(down, g[r][upto - 1], g[r + 1][upto - 1])
    }
}

/// Scores of all one-above-the-other pairs whose upper cell lies in the
/// first `upto` rows.
pub open spec fn vertical_cost(g: Seq<Seq<usize>>, down: Seq<Seq<Option<u64>>>, upto: nat) -> nat
    decreases upto,
{
    if upto == 0 {
        0
    } else {
        vertical_cost(g, down, (upto - 1) as nat) + seam_cost(g, down, upto - 1, g[upto - 1].len())
    }
}

/// The cost of `g`: the `right` score of every cell and its right
/// neighbour, plus the `down` score of every cell and the cell below.
pub open spec fn fitness_spec(
    g: Seq<Seq<usize>>,
    right: Seq<Seq<Option<u64>>>,
    down: Seq<Seq<Option<u64>>>,
) -> nat {
    horizontal_cost(g, right, g.len()) + vertical_cost(g, down, (g.len() - 1) as nat)
}

/// `g` can be scored: it is a grid with at least one and at most
/// [`MAX_CELLS`] cells, `right` holds a score for every cell and its right
/// neighbour, and `down` for every cell and the cell below.  No other entry
/// is asked for.
pub open spec fn is_scorable(
    g: Seq<Seq<usize>>,
    right: Seq<Seq<Option<u64>>>,
    down: Seq<Seq<Option<u64>>>,
) -> bool {
    &&& g.len() >= 1
    &&& g[0].len() >= 1
    &&& is_grid(g, g.len(), g[0].len())
    &&& g.len() * g[0].len() <= MAX_CELLS
    &&& forall|r: int, c: int|
        0 <= r < g.len() && 0 <= c < g[0].len() - 1 ==> has_score(
            right,
            #[trigger] g[r][c],
            g[r][c + 1],
        )
    &&& forall|r: int, c: int|
        0 <= r < g.len() - 1 && 0 <= c < g[0].len() ==> has_score(
            down,
            #[trigger] g[r][c],
            g[r + 1][c],
        )
}

/// A complete arrangement can be scored against matrices that hold every
/// pair of different pieces: cells next to each other hold different
/// pieces.
pub proof fn lemma_arrangement_scorable(
    g: Seq<Seq<usize>>,
    rows: nat,
    cols: nat,
    right: Seq<Seq<Option<u64>>>,
    down: Seq<Seq<Option<u64>>>,
)
    requires
        rows >= 1,
        cols >= 1,
        rows * cols <= MAX_CELLS,
        is_arrangement(g, rows, cols),
        covers_all_pairs(right, rows * cols),
        covers_all_pairs(down, rows * cols),
    ensures
        is_scorable(g, right, down),
{
    assert(g[0].len() == cols);
    assert forall|r: int, c: int| 0 <= r < g.len() && 0 <= c < g[0].len() - 1 implies has_score(
        right,
        #[trigger] g[r][c],
        g[r][c + 1],
    ) by {
        assert(g[r][c] < rows * cols && g[r][c + 1] < rows * cols);
        assert(g[r][c] != g[r][c + 1]);
        assert(entry(right, g[r][c] as int, g[r][c + 1] as int) is Some);
    }
    assert forall|r: int, c: int| 0 <= r < g.len() - 1 && 0 <= c < g[0].len() implies has_score(
        down,
        #[trigger] g[r][c],
        g[r + 1][c],
    ) by {
        assert(g[r][c] < rows * cols && g[r + 1][c] < rows * cols);
        assert(g[r][c] != g[r + 1][c]);
        assert(entry(down, g[r][c] as int, g[r + 1][c] as int) is Some);
    }
}

/// A copy of an arrangement costs what the arrangement costs.
pub proof fn lemma_copy_costs_the_same(
    copy: Seq<Seq<usize>>,
    parent: Seq<Seq<usize>>,
    right: Seq<Seq<Option<u64>>>,
    down: Seq<Seq<Option<u64>>>,
)
    requires
        copy.len() == parent.len(),
        forall|r: int| 0 <= r < parent.len() ==> (#[trigger] copy[r]).len() == parent[r].len(),
        forall|r: int, c: int|
            0 <= r < parent.len() && 0 <= c < parent[r].len() ==> #[trigger] copy[r][c]
                == parent[r][c],
    ensures
        fitness_spec(copy, right, down) == fitness_spec(parent, right, down),
{
    assert forall|r: int| 0 <= r < parent.len() implies #[trigger] copy[r] == parent[r] by {
        assert(copy[r] =~= parent[r]);
    }
    assert(copy =~= parent);
}

/// Reads the score of piece `b` next to piece `a`.
fn read_score(matrix: &Vec<Vec<Option<u64>>>, a: usize, b: usize) -> (score: u64)
    requires
        has_score(matrix_view(matrix@), a, b),
    ensures
        score == score_at(matrix_view(matrix@), a, b),
        score <= MAX_SCORE,
{
    assert(matrix_view(matrix@)[a as int] == matrix@[a as int]@);
    matrix[a][b].unwrap()
}

/// Sums the `right` scores of the side-by-side pairs of one row.
fn score_row(
    chromosome: &Vec<Vec<usize>>,
    dissimilarities_r: &Vec<Vec<Option<u64>>>,
    dissimilarities_d: &Vec<Vec<Option<u64>>>,
    i: usize,
) -> (total: u64)
    requires
        is_scorable(
            grid_view(chromosome@),
            matrix_view(dissimilarities_r@),
            matrix_view(dissimilarities_d@),
        ),
        i < chromosome@.len(),
    ensures
        total == row_cost(
            grid_view(chromosome@),
            matrix_view(dissimilarities_r@),
            i as int,
            (chromosome@[0]@.len() - 1) as nat,
        ),
        total <= (chromosome@[0]@.len() - 1) * MAX_SCORE,
{
    let ghost g = grid_view(chromosome@);
    let ghost m = matrix_view(dissimilarities_r@);
    let ghost d = matrix_view(dissimilarities_d@);
    assert(g[i as int].len() == g[0].len());
    let cols = chromosome[i].len();
    let mut total: u64 = 0;
    let mut j: usize = 0;
    while j < cols - 1
        invariant
            j <= cols - 1,
            i < chromosome@.len(),
            cols == chromosome@[i as int]@.len(),
            cols == g[0].len(),
            g == grid_view(chromosome@),
            m == matrix_view(dissimilarities_r@),
            is_scorable(g, m, d),
            total == row_cost(g, m, i as int, j as nat),
            total <= j * MAX_SCORE,
        decreases cols - 1 - j,
    {
        let key1 = chromosome[i][j];
        let key2 = chromosome[i][j + 1];
        proof {
            assert(has_score(m, g[i as int][j as int], g[i as int][j + 1]));
            lemma_cell_number(i as int, j + 1, cols as int, chromosome@.len() as int);
            assert((j + 1) * MAX_SCORE <= MAX_CELLS * MAX_SCORE) by (nonlinear_arith)
                requires
                    j + 1 <= MAX_CELLS,
            ;
        }
        total = total + read_score(dissimilarities_r, key1, key2);
        j += 1;
    }
    total
}

/// Sums the `down` scores of the pairs made of a cell of row `i` and the
/// cell below it.
fn score_seam(
    chromosome: &Vec<Vec<usize>>,
    dissimilarities_r: &Vec<Vec<Option<u64>>>,
    dissimilarities_d: &Vec<Vec<Option<u64>>>,
    i: usize,
) -> (total: u64)
    requires
        is_scorable(
            grid_view(chromosome@),
            matrix_view(dissimilarities_r@),
            matrix_view(dissimilarities_d@),
        ),
        i + 1 < chromosome@.len(),
    ensures
        total == seam_cost(
            grid_view(chromosome@),
            matrix_view(dissimilarities_d@),
            i as int,
            chromosome@[0]@.len() as nat,
        ),
        total <= chromosome@[0]@.len() * MAX_SCORE,
{
    let ghost g = grid_view(chromosome@);
    let ghost m = matrix_view(dissimilarities_d@);
    let ghost right = matrix_view(dissimilarities_r@);
    assert(g[i as int].len() == g[0].len());
    assert(g[i + 1].len() == g[0].len());
    let cols = chromosome[i].len();
    let rows = chromosome.len();
    let mut total: u64 = 0;
    let mut j: usize = 0;
    while j < cols
        invariant
            j <= cols,
            rows == chromosome@.len(),
            i + 1 < rows,
            cols == chromosome@[i as int]@.len(),
            cols == chromosome@[i + 1]@.len(),
            cols == g[0].len(),
            g == grid_view(chromosome@),
            m == matrix_view(dissimilarities_d@),
            is_scorable(g, right, m),
            total == seam_cost(g, m, i as int, j as nat),
            total <= j * MAX_SCORE,
        decreases cols - j,
    {
        let key1 = chromosome[i][j];
        let key2 = chromosome[i + 1][j];
        proof {
            assert(has_score(m, g[i as int][j as int], g[i + 1][j as int]));
            lemma_cell_number(i as int, j as int, cols as int, chromosome@.len() as int);
            assert((j + 1) * MAX_SCORE <= MAX_CELLS * MAX_SCORE) by (nonlinear_arith)
                requires
                    j + 1 <= MAX_CELLS,
            ;
        }
        total = total + read_score(dissimilarities_d, key1, key2);
        j += 1;
    }
    total
}

/// The cost of `chromosome`: the score of every cell with its right
/// neighbour, taken from `dissimilarities_r`, plus the score of every cell
/// with the cell below it, taken from `dissimilarities_d`.
///
/// Every pair of cells next to each other must have its entry.  A grid of
/// one cell has no such pair and costs 0.
pub fn calculate_fitness(
    chromosome: &Vec<Vec<usize>>,
    dissimilarities_r: &Vec<Vec<Option<u64>>>,
    dissimilarities_d: &Vec<Vec<Option<u64>>>,
) -> (cost: u64)
    requires
        is_scorable(
            grid_view(chromosome@),
            matrix_view(dissimilarities_r@),
            matrix_view(dissimilarities_d@),
        ),
    ensures
        cost == fitness_spec(
            grid_view(chromosome@),
            matrix_view(dissimilarities_r@),
            matrix_view(dissimilarities_d@),
        ),
{
    let ghost g = grid_view(chromosome@);
    let ghost right = matrix_view(dissimilarities_r@);
    let ghost down = matrix_view(dissimilarities_d@);
    let rows = chromosome.len();
    let ghost cols = g[0].len();
    let mut horizontal_dissimilarity: u64 = 0;
    let mut i: usize = 0;
    while i < rows
        invariant
            i <= rows,
            rows == chromosome@.len(),
            g == grid_view(chromosome@),
            right == matrix_view(dissimilarities_r@),
            down == matrix_view(dissimilarities_d@),
            cols == g[0].len(),
            is_scorable(g, right, down),
            horizontal_dissimilarity == horizontal_cost(g, right, i as nat),
            horizontal_dissimilarity <= i * cols * MAX_SCORE,
        decreases rows - i,
    {
        let row_total = score_row(chromosome, dissimilarities_r, dissimilarities_d, i);
        proof {
            assert(g[i as int].len() == cols);
            lemma_rows_bound(i as int, rows as int, cols as int);
        }
        horizontal_dissimilarity = horizontal_dissimilarity + row_total;
        i += 1;
    }
    let mut vertical_dissimilarity: u64 = 0;
    let mut i: usize = 0;
    while i < rows - 1
        invariant
            i <= rows - 1,
            rows == chromosome@.len(),
            g == grid_view(chromosome@),
            right == matrix_view(dissimilarities_r@),
            down == matrix_view(dissimilarities_d@),
            cols == g[0].len(),
            is_scorable(g, right, down),
            vertical_dissimilarity == vertical_cost(g, down, i as nat),
            vertical_dissimilarity <= i * cols * MAX_SCORE,
        decreases rows - 1 - i,
    {
        let seam_total = score_seam(chromosome, dissimilarities_r, dissimilarities_d, i);
        proof {
            assert(g[i as int].len() == cols);
            lemma_rows_bound(i as int, rows as int, cols as int);
        }
        vertical_dissimilarity = vertical_dissimilarity + seam_total;
        i += 1;
    }
    proof {
        lemma_rows_bound(rows - 1, rows as int, cols as int);
    }
    horizontal_dissimilarity + vertical_dissimilarity
}

/// The scores of `i + 1` rows stay below the bound for the whole grid.
proof fn lemma_rows_bound(i: int, rows: int, cols: int)
    requires
        0 <= i < rows,
        0 <= cols,
        rows * cols <= MAX_CELLS,
    ensures
        i * cols * MAX_SCORE + cols * MAX_SCORE == (i + 1) * cols * MAX_SCORE,
        (i + 1) * cols * MAX_SCORE <= MAX_CELLS * MAX_SCORE,
        0 <= i * cols * MAX_SCORE,
{
    assert((i + 1) * cols <= rows * cols) by (nonlinear_arith)
        requires
            0 <= i < rows,
            0 <= cols,
    ;
    assert(0 <= i * cols) by (nonlinear_arith)
        requires
            0 <= i,
            0 <= cols,
    ;
    assert(i * cols * MAX_SCORE + cols * MAX_SCORE == (i + 1) * cols * MAX_SCORE)
        by (nonlinear_arith);
    assert((i + 1) * cols * MAX_SCORE <= MAX_CELLS * MAX_SCORE) by (nonlinear_arith)
        requires
            (i + 1) * cols <= MAX_CELLS,
    ;
    assert(0 <= i * cols * MAX_SCORE) by (nonlinear_arith)
        requires
            0 <= i * cols,
    ;
}

/// Scores every chromosome of a generation.  Entry `i` of the result is
/// `(i, cost of generation[i])`.
pub fn evaluate_generation(
    generation: &Vec<Vec<Vec<usize>>>,
    dissimilarities_r: &Vec<Vec<Option<u64>>>,
    dissimilarities_d: &Vec<Vec<Option<u64>>>,
) -> (fitness_scores: Vec<(usize, u64)>)
    requires
        forall|i: int|
            0 <= i < generation@.len() ==> is_scorable(
                grid_view((#[trigger] generation@[i])@),
                matrix_view(dissimilarities_r@),
                matrix_view(dissimilarities_d@),
            ),
    ensures
        fitness_scores@.len() == generation@.len(),
        forall|i: int|
            0 <= i < generation@.len() ==> (#[trigger] fitness_scores@[i]).0 == i
                && fitness_scores@[i].1 == fitness_spec(
                grid_view(generation@[i]@),
                matrix_view(dissimilarities_r@),
                matrix_view(dissimilarities_d@),
            ),
{
    let mut fitness_scores: Vec<(usize, u64)> = Vec::new();
    let mut i: usize = 0;
    while i < generation.len()
        invariant
            i <= generation@.len(),
            forall|k: int|
                0 <= k < generation@.len() ==> is_scorable(
                    grid_view((#[trigger] generation@[k])@),
                    matrix_view(dissimilarities_r@),
                    matrix_view(dissimilarities_d@),
                ),
            fitness_scores@.len() == i,
            forall|k: int|
                0 <= k < i ==> (#[trigger] fitness_scores@[k]).0 == k && fitness_scores@[k].1
                    == fitness_spec(
                    grid_view(generation@[k]@),
                    matrix_view(dissimilarities_r@),
                    matrix_view(dissimilarities_d@),
                ),
        decreases generation@.len() - i,
    {
        let current_fitness = calculate_fitness(
            &generation[i],
            dissimilarities_r,
            dissimilarities_d,
        );
        fitness_scores.push((i, current_fitness));
        i += 1;
    }
    fitness_scores
}

} // verus!
