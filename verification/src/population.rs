//! Random arrangements, and the first generation made of them.

use vstd::prelude::*;
use crate::grid::{
    grid_view, is_arrangement, is_grid, lemma_cell_number, lemma_cell_of_number, occurs,
};
use crate::random::shuffle;

verus! {

/// `keys` lists the piece ids `0 .. n`, each once, in some order.
pub open spec fn is_id_permutation(keys: Seq<usize>, n: nat) -> bool {
    &&& keys.len() == n
    &&& keys.no_duplicates()
    &&& forall|k: int| 0 <= k < n ==> #[trigger] keys[k] < n
    &&& forall|id: usize| id < n ==> #[trigger] keys.contains(id)
}

/// The id that filling a grid of `width` columns from `keys` puts into the
/// cell `(row, col)`: the keys are laid out row by row.
pub open spec fn filled_cell(keys: Seq<usize>, width: nat, row: int, col: int) -> usize {
    keys[row * width + col]
}

/// `g` is the grid of `height` rows and `width` columns filled from `keys`.
pub open spec fn is_filled_from(g: Seq<Seq<usize>>, keys: Seq<usize>, width: nat, height: nat) -> bool {
    &&& is_grid(g, height, width)
    &&& forall|r: int, c: int|
        0 <= r < height && 0 <= c < width ==> #[trigger] g[r][c] == filled_cell(keys, width, r, c)
}

/// `g` is the grid filled from some reordering of `keys`.
pub open spec fn is_shuffled_fill(g: Seq<Seq<usize>>, keys: Seq<usize>, width: nat, height: nat) -> bool {
    exists|order: Seq<usize>|
        order.to_multiset() == keys.to_multiset() && #[trigger] is_filled_from(
            g,
            order,
            width,
            height,
        )
}

/// A grid with as many cells as there are pieces, filled from a permutation
/// of the ids, is a complete arrangement.
pub proof fn lemma_filled_is_arrangement(
    g: Seq<Seq<usize>>,
    keys: Seq<usize>,
    width: nat,
    height: nat,
)
    requires
        is_filled_from(g, keys, width, height),
        is_id_permutation(keys, height * width),
    ensures
        is_arrangement(g, height, width),
{
    assert forall|r: int, c: int| 0 <= r < height && 0 <= c < width implies #[trigger] g[r][c]
        < height * width by {
        lemma_cell_number(r, c, width as int, height as int);
        assert(g[r][c] == filled_cell(keys, width, r, c));
    }
    assert forall|r1: int, c1: int, r2: int, c2: int|
        0 <= r1 < height && 0 <= c1 < width && 0 <= r2 < height && 0 <= c2 < width
            && #[trigger] g[r1][c1] == #[trigger] g[r2][c2] implies r1 == r2 && c1 == c2 by {
        lemma_cell_number(r1, c1, width as int, height as int);
        lemma_cell_number(r2, c2, width as int, height as int);
        assert(g[r1][c1] == filled_cell(keys, width, r1, c1));
        assert(g[r2][c2] == filled_cell(keys, width, r2, c2));
    }
    assert forall|id: usize| id < height * width implies #[trigger] occurs(g, id) by {
        assert(keys.contains(id));
        let k = choose|k: int| 0 <= k < keys.len() && keys[k] == id;
        lemma_cell_of_number(k, width as int, height as int);
        let r = k / (width as int);
        let c = k % (width as int);
        assert(g[r][c] == filled_cell(keys, width, r, c));
        assert(g[r][c] == id);
    }
}

/// Sequences with the same elements, each as often, are permutations of the
/// ids together.
pub proof fn lemma_permutation_of_same_elements(a: Seq<usize>, b: Seq<usize>, n: nat)
    requires
        is_id_permutation(a, n),
        a.to_multiset() == b.to_multiset(),
    ensures
        is_id_permutation(b, n),
{
    vstd::seq_lib::to_multiset_len(a);
    vstd::seq_lib::to_multiset_len(b);
    a.lemma_multiset_has_no_duplicates();
    b.lemma_multiset_has_no_duplicates_conv();
    assert forall|k: int| 0 <= k < n implies #[trigger] b[k] < n by {
        assert(b.contains(b[k]));
        vstd::seq_lib::to_multiset_contains(b, b[k]);
        vstd::seq_lib::to_multiset_contains(a, b[k]);
        let j = choose|j: int| 0 <= j < a.len() && a[j] == b[k];
        assert(a[j] < n);
    }
    assert forall|id: usize| id < n implies #[trigger] b.contains(id) by {
        assert(a.contains(id));
        vstd::seq_lib::to_multiset_contains(a, id);
        vstd::seq_lib::to_multiset_contains(b, id);
    }
}

/// Lays `keys` out row by row into a grid of `matrix_height` rows and
/// `matrix_width` columns.  There must be one key for every cell.
pub fn fill_matrix(keys: &Vec<usize>, matrix_width: usize, matrix_height: usize) -> (matrix: Vec<
    Vec<usize>,
>)
    requires
        keys@.len() == matrix_height * matrix_width,
    ensures
        is_filled_from(grid_view(matrix@), keys@, matrix_width as nat, matrix_height as nat),
{
    let count = keys.len();
    let mut matrix: Vec<Vec<usize>> = Vec::new();
    let mut next: usize = 0;
    let mut i: usize = 0;
    assert(0 * matrix_width == 0);
    while i < matrix_height
        invariant
            i <= matrix_height,
            count == keys@.len(),
            count == matrix_height * matrix_width,
            matrix@.len() == i,
            next == i * matrix_width,
            forall|r: int| 0 <= r < i ==> (#[trigger] matrix@[r])@.len() == matrix_width,
            forall|r: int, c: int|
                0 <= r < i && 0 <= c < matrix_width ==> #[trigger] matrix@[r]@[c] == filled_cell(
                    keys@,
                    matrix_width as nat,
                    r,
                    c,
                ),
        decreases matrix_height - i,
    {
        let mut row: Vec<usize> = Vec::new();
        let mut j: usize = 0;
        while j < matrix_width
            invariant
                i < matrix_height,
                j <= matrix_width,
                count == keys@.len(),
                count == matrix_height * matrix_width,
                row@.len() == j,
                next == i * matrix_width + j,
                forall|c: int|
                    0 <= c < j ==> #[trigger] row@[c] == filled_cell(
                        keys@,
                        matrix_width as nat,
                        i as int,
                        c,
                    ),
            decreases matrix_width - j,
        {
            proof {
                lemma_cell_number(i as int, j as int, matrix_width as int, matrix_height as int);
            }
            row.push(keys[next]);
            next = next + 1;
            j += 1;
        }
        assert((i + 1) * matrix_width == i * matrix_width + matrix_width) by (nonlinear_arith);
        matrix.push(row);
        i += 1;
    }
    matrix
}

/// A random arrangement: the grid of `matrix_height` rows and
/// `matrix_width` columns filled row by row from a random reordering of
/// `loaded_piece_keys`.
///
/// The keys must be the ids of the pieces, each once, and there must be at
/// least one piece and one cell for each.
pub fn create_random_matrix(
    loaded_piece_keys: &Vec<usize>,
    matrix_width: usize,
    matrix_height: usize,
) -> (matrix: Vec<Vec<usize>>)
    requires
        loaded_piece_keys@.len() > 0,
        is_id_permutation(loaded_piece_keys@, matrix_height as nat * matrix_width as nat),
    ensures
        is_shuffled_fill(
            grid_view(matrix@),
            loaded_piece_keys@,
            matrix_width as nat,
            matrix_height as nat,
        ),
        is_arrangement(grid_view(matrix@), matrix_height as nat, matrix_width as nat),
{
    let mut shuffled_keys = loaded_piece_keys.clone();
    assert(shuffled_keys@ == loaded_piece_keys@);
    shuffle(&mut shuffled_keys);
    proof {
        lemma_permutation_of_same_elements(
            loaded_piece_keys@,
            shuffled_keys@,
            matrix_height as nat * matrix_width as nat,
        );
    }
    let matrix = fill_matrix(&shuffled_keys, matrix_width, matrix_height);
    proof {
        lemma_filled_is_arrangement(
            grid_view(matrix@),
            shuffled_keys@,
            matrix_width as nat,
            matrix_height as nat,
        );
    }
    matrix
}

/// The first generation: `size` random arrangements, each made by
/// [`create_random_matrix`].
///
/// `pieces` must be the ids of the pieces, each once, and there must be at
/// least one piece and one cell of the grid for each.
pub fn generate_initial_population(pieces: Vec<usize>, width: usize, height: usize, size: u32) -> (population:
    Vec<Vec<Vec<usize>>>)
    requires
        pieces@.len() > 0,
        is_id_permutation(pieces@, height as nat * width as nat),
    ensures
        population@.len() == size,
        forall|k: int|
            0 <= k < size ==> is_shuffled_fill(
                grid_view((#[trigger] population@[k])@),
                pieces@,
                width as nat,
                height as nat,
            ) && is_arrangement(grid_view(population@[k]@), height as nat, width as nat),
{
    let mut population: Vec<Vec<Vec<usize>>> = Vec::new();
    let mut made: u32 = 0;
    while made < size
        invariant
            made <= size,
            pieces@.len() > 0,
            is_id_permutation(pieces@, height as nat * width as nat),
            population@.len() == made,
            forall|k: int|
                0 <= k < made ==> is_shuffled_fill(
                    grid_view((#[trigger] population@[k])@),
                    pieces@,
                    width as nat,
                    height as nat,
                ) && is_arrangement(grid_view(population@[k]@), height as nat, width as nat),
        decreases size - made,
    {
        let current = create_random_matrix(&pieces, width, height);
        population.push(current);
        made += 1;
    }
    population
}

/// The ids `0 .. count` in ascending order.
pub fn identity_keys(count: usize) -> (keys: Vec<usize>)
    ensures
        is_id_permutation(keys@, count as nat),
        forall|k: int| 0 <= k < count ==> #[trigger] keys@[k] == k,
{
    let mut keys: Vec<usize> = Vec::new();
    let mut id: usize = 0;
    while id < count
        invariant
            id <= count,
            keys@.len() == id,
            forall|k: int| 0 <= k < id ==> #[trigger] keys@[k] == k,
        decreases count - id,
    {
        keys.push(id);
        id += 1;
    }
    proof {
        assert forall|wanted: usize| wanted < count implies #[trigger] keys@.contains(wanted) by {
            assert(keys@[wanted as int] == wanted);
        }
    }
    keys
}

} // verus!
