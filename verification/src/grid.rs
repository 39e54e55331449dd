//! Grids of piece ids: shape, lookup, and rendering from placed positions.

use vstd::prelude::*;
use vstd::arithmetic::div_mod::{lemma_fundamental_div_mod, lemma_fundamental_div_mod_converse};
use vstd::set_lib::{lemma_int_range, lemma_len_subset, lemma_subset_equality, set_int_range};
use crate::direction::Direction;

verus! {

/// Marks a cell that holds no piece.
pub const EMPTY_CELL: usize = usize::MAX;

/// The largest number of cells that a grid to be scored or assembled may
/// have: with more, the cost of an arrangement, which sums two scores of up
/// to `MAX_SCORE` per cell, might not fit 64 bits.
pub const MAX_CELLS: usize = 4_194_304;

/// The rows of `raw` as sequences of ids.
pub open spec fn grid_view(raw: Seq<Vec<usize>>) -> Seq<Seq<usize>> {
    Seq::new(raw.len(), |r: int| raw[r]@)
}

/// `g` has `rows` rows of `cols` cells each.
pub open spec fn is_grid(g: Seq<Seq<usize>>, rows: nat, cols: nat) -> bool {
    &&& g.len() == rows
    &&& forall|r: int| 0 <= r < rows ==> (#[trigger] g[r]).len() == cols
}

/// The id `id` stands in some cell of `g`.
pub open spec fn occurs(g: Seq<Seq<usize>>, id: usize) -> bool {
    exists|r: int, c: int| 0 <= r < g.len() && 0 <= c < g[r].len() && #[trigger] g[r][c] == id
}

/// `g` is a complete arrangement of the pieces `0 .. rows * cols`: a grid of
/// that shape in which every id below `rows * cols` stands in exactly one cell.
pub open spec fn is_arrangement(g: Seq<Seq<usize>>, rows: nat, cols: nat) -> bool {
    &&& is_grid(g, rows, cols)
    &&& forall|r: int, c: int| 0 <= r < rows && 0 <= c < cols ==> #[trigger] g[r][c] < rows * cols
    &&& forall|r1: int, c1: int, r2: int, c2: int|
        0 <= r1 < rows && 0 <= c1 < cols && 0 <= r2 < rows && 0 <= c2 < cols && #[trigger] g[r1][c1]
            == #[trigger] g[r2][c2] ==> r1 == r2 && c1 == c2
    &&& forall|id: usize| id < rows * cols ==> #[trigger] occurs(g, id)
}

/// A cell of `g` that holds `id`.  In a complete arrangement there is
/// exactly one for every id that the arrangement covers.
pub open spec fn position_of(g: Seq<Seq<usize>>, id: usize) -> (int, int) {
    choose|r: int, c: int| 0 <= r < g.len() && 0 <= c < g[r].len() && #[trigger] g[r][c] == id
}

/// The piece next to `id` on the side `dir` in `g`, or `None` where `id`
/// stands at that border of the grid.
pub open spec fn neighbor_in(g: Seq<Seq<usize>>, id: usize, dir: Direction) -> Option<usize> {
    let (r, c) = position_of(g, id);
    match neighbor_spec(g.len(), g[0].len(), r, c, dir) {
        Some((r2, c2)) => Some(g[r2][c2]),
        None => None,
    }
}

/// In a complete arrangement, the cell that holds an id is the only one.
pub proof fn lemma_position_unique(g: Seq<Seq<usize>>, rows: nat, cols: nat, r: int, c: int)
    requires
        is_arrangement(g, rows, cols),
        0 <= r < rows,
        0 <= c < cols,
    ensures
        position_of(g, g[r][c]) == (r, c),
{
    let id = g[r][c];
    assert(g[r].len() == cols);
    let (r2, c2) = position_of(g, id);
    assert(0 <= r2 < g.len() && 0 <= c2 < g[r2].len() && g[r2][c2] == id);
    assert(g[r2].len() == cols);
}

/// Position `(r1, c1)` comes before `(r2, c2)` when reading row by row.
pub open spec fn reads_before(r1: int, c1: int, r2: int, c2: int) -> bool {
    r1 < r2 || (r1 == r2 && c1 < c2)
}

/// The cell next to `(row, col)` on the side `dir`, if the grid has one.
pub open spec fn neighbor_spec(rows: nat, cols: nat, row: int, col: int, dir: Direction) -> Option<
    (int, int),
> {
    match dir {
        Direction::Up => if row > 0 {
            Some((row - 1, col))
        } else {
            None
        },
        Direction::Left => if col > 0 {
            Some((row, col - 1))
        } else {
            None
        },
        Direction::Right => if col < cols - 1 {
            Some((row, col + 1))
        } else {
            None
        },
        Direction::Down => if row < rows - 1 {
            Some((row + 1, col))
        } else {
            None
        },
    }
}

/// Row-major numbering of the cells of a grid: the number of a cell is
/// below the number of cells, and tells the cell.
pub proof fn lemma_cell_number(row: int, col: int, width: int, height: int)
    requires
        0 <= row < height,
        0 <= col < width,
    ensures
        0 <= row * width + col < height * width,
        (row * width + col) / width == row,
        (row * width + col) % width == col,
{
    assert(0 <= row * width && row * width + width <= height * width) by (nonlinear_arith)
        requires
            0 <= row < height,
            0 < width,
    ;
    lemma_fundamental_div_mod_converse(row * width + col, width, row, col);
}

/// Every number below the number of cells is the number of a cell.
pub proof fn lemma_cell_of_number(k: int, width: int, height: int)
    requires
        0 <= k < height * width,
        0 < width,
    ensures
        0 <= k / width < height,
        0 <= k % width < width,
        (k / width) * width + k % width == k,
{
    lemma_fundamental_div_mod(k, width);
    let q = k / width;
    let r = k % width;
    assert(0 <= q < height) by (nonlinear_arith)
        requires
            k == width * q + r,
            0 <= r < width,
            0 <= k < height * width,
    ;
    assert(q * width == width * q) by (nonlinear_arith);
}

/// Number of rows, and the length of the first row (0 when there is none).
pub fn matrix_size<T>(matrix: &Vec<Vec<T>>) -> (size: (usize, usize))
    ensures
        size.0 == matrix@.len(),
        size.1 == (if matrix@.len() == 0 {
            0
        } else {
            matrix@[0]@.len()
        }),
{
    let num_rows = matrix.len();
    let num_columns = if num_rows == 0 {
        0
    } else {
        matrix[0].len()
    };
    (num_rows, num_columns)
}

/// Finds the first cell, reading row by row, that holds `target`.
pub fn find_position_in_matrix(parent1: &Vec<Vec<usize>>, target: usize) -> (found: Option<
    (usize, usize),
>)
    ensures
        found is Some <==> occurs(grid_view(parent1@), target),
        found matches Some((row, col)) ==> {
            &&& row < parent1@.len()
            &&& col < parent1@[row as int]@.len()
            &&& parent1@[row as int]@[col as int] == target
            &&& forall|r: int, c: int|
                0 <= r < parent1@.len() && 0 <= c < parent1@[r]@.len() && reads_before(
                    r,
                    c,
                    row as int,
                    col as int,
                ) ==> #[trigger] parent1@[r]@[c] != target
        },
{
    let ghost g = grid_view(parent1@);
    let mut row_idx: usize = 0;
    while row_idx < parent1.len()
        invariant
            row_idx <= parent1@.len(),
            g == grid_view(parent1@),
            forall|r: int, c: int|
                0 <= r < row_idx && 0 <= c < parent1@[r]@.len() ==> #[trigger] parent1@[r]@[c]
                    != target,
        decreases parent1@.len() - row_idx,
    {
        let row = &parent1[row_idx];
        let mut col_idx: usize = 0;
        while col_idx < row.len()
            invariant
                row_idx < parent1@.len(),
                *row == parent1@[row_idx as int],
                col_idx <= row@.len(),
                g == grid_view(parent1@),
                forall|r: int, c: int|
                    0 <= r < row_idx && 0 <= c < parent1@[r]@.len() ==> #[trigger] parent1@[r]@[c]
                        != target,
                forall|c: int| 0 <= c < col_idx ==> #[trigger] row@[c] != target,
            decreases row@.len() - col_idx,
        {
            if row[col_idx] == target {
                assert(g[row_idx as int][col_idx as int] == target);
                return Some((row_idx, col_idx));
            }
            col_idx += 1;
        }
        row_idx += 1;
    }
    assert(!occurs(g, target)) by {
        if occurs(g, target) {
            let (r, c) = choose|r: int, c: int|
                0 <= r < g.len() && 0 <= c < g[r].len() && #[trigger] g[r][c] == target;
            assert(parent1@[r]@[c] != target);
        }
    }
    None
}

/// The cell of a `rows` by `cols` grid next to `(row, col)` on the side
/// `dir`, or `None` at the border.
pub fn neighbor_position(rows: usize, cols: usize, row: usize, col: usize, dir: Direction) -> (next:
    Option<(usize, usize)>)
    requires
        row < rows,
        col < cols,
    ensures
        match neighbor_spec(rows as nat, cols as nat, row as int, col as int, dir) {
            Some((r, c)) => next == Some((r as usize, c as usize)) && 0 <= r < rows && 0 <= c
                < cols,
            None => next is None,
        },
{
    match dir {
        Direction::Up => if row > 0 {
            Some((row - 1, col))
        } else {
            None
        },
        Direction::Left => if col > 0 {
            Some((row, col - 1))
        } else {
            None
        },
        Direction::Right => if col < cols - 1 {
            Some((row, col + 1))
        } else {
            None
        },
        Direction::Down => if row < rows - 1 {
            Some((row + 1, col))
        } else {
            None
        },
    }
}

/// The piece next to `piece` on the side `dir` in the arrangement `g`, or
/// `None` where `piece` stands at that border.
pub fn neighbor_piece(g: &Vec<Vec<usize>>, piece: usize, dir: Direction) -> (next: Option<usize>)
    requires
        g@.len() >= 1,
        is_arrangement(grid_view(g@), g@.len(), g@[0]@.len()),
        piece < g@.len() * g@[0]@.len(),
    ensures
        next == neighbor_in(grid_view(g@), piece, dir),
        next matches Some(id) ==> id < g@.len() * g@[0]@.len() && id != piece,
{
    let ghost view = grid_view(g@);
    let (rows, cols) = matrix_size(g);
    assert(occurs(view, piece));
    match find_position_in_matrix(g, piece) {
        Some((row, col)) => {
            proof {
                assert(view[row as int].len() == cols);
                assert(view[row as int][col as int] == piece);
                lemma_position_unique(view, rows as nat, cols as nat, row as int, col as int);
            }
            match neighbor_position(rows, cols, row, col, dir) {
                Some((r, c)) => {
                    assert(view[r as int].len() == cols);
                    assert(view[r as int][c as int] < rows * cols);
                    Some(g[r][c])
                },
                None => None,
            }
        },
        None => None,
    }
}

/// The ids of the first `upto` cells of `g`, read row by row, where every
/// row has `cols` cells.
pub open spec fn cells_read(g: Seq<Seq<usize>>, cols: int, upto: int) -> Seq<int> {
    Seq::new(upto as nat, |k: int| g[k / cols][k % cols] as int)
}

/// Tells whether `g` is a complete arrangement of the pieces
/// `0 .. rows * cols` in a grid of `rows` rows and `cols` columns with at
/// most [`MAX_CELLS`] cells.
pub fn is_complete_arrangement(g: &Vec<Vec<usize>>, rows: usize, cols: usize) -> (complete: bool)
    ensures
        complete == (rows * cols <= MAX_CELLS && is_arrangement(
            grid_view(g@),
            rows as nat,
            cols as nat,
        )),
{
    let ghost view = grid_view(g@);
    if g.len() != rows {
        return false;
    }
    let mut r: usize = 0;
    while r < rows
        invariant
            r <= rows,
            rows == g@.len(),
            view == grid_view(g@),
            forall|k: int| 0 <= k < r ==> (#[trigger] view[k]).len() == cols,
        decreases rows - r,
    {
        if g[r].len() != cols {
            assert(view[r as int].len() != cols);
            return false;
        }
        r += 1;
    }
    if rows > MAX_CELLS || cols > MAX_CELLS {
        assert(rows * cols > MAX_CELLS || rows * cols == 0) by (nonlinear_arith)
            requires
                rows > MAX_CELLS || cols > MAX_CELLS,
                rows >= 0,
                cols >= 0,
        ;
        if rows == 0 || cols == 0 {
            assert(rows * cols == 0) by (nonlinear_arith)
                requires
                    rows == 0 || cols == 0,
            ;
            return true;
        }
        assert(rows * cols > MAX_CELLS) by (nonlinear_arith)
            requires
                rows > MAX_CELLS || cols > MAX_CELLS,
                rows >= 1,
                cols >= 1,
        ;
        return false;
    }
    assert(rows * cols <= MAX_CELLS * MAX_CELLS) by (nonlinear_arith)
        requires
            rows <= MAX_CELLS,
            cols <= MAX_CELLS,
    ;
    let wide_count = (rows as u64) * (cols as u64);
    if wide_count > MAX_CELLS as u64 {
        return false;
    }
    let count = wide_count as usize;
    let mut seen: Vec<bool> = Vec::new();
    let mut id: usize = 0;
    while id < count
        invariant
            id <= count,
            seen@.len() == id,
            forall|k: int| 0 <= k < id ==> !(#[trigger] seen@[k]),
        decreases count - id,
    {
        seen.push(false);
        id += 1;
    }
    let mut r: usize = 0;
    while r < rows
        invariant
            r <= rows,
            rows == g@.len(),
            count == rows * cols,
            view == grid_view(g@),
            is_grid(view, rows as nat, cols as nat),
            seen@.len() == count,
            forall|k: int| 0 <= k < r * cols ==> 0 <= #[trigger] cells_read(view, cols as int, r * cols)[k] < count,
            cells_read(view, cols as int, r * cols).no_duplicates(),
            forall|x: int|
                0 <= x < count ==> (#[trigger] seen@[x] <==> cells_read(
                    view,
                    cols as int,
                    r * cols,
                ).contains(x)),
        decreases rows - r,
    {
        let mut c: usize = 0;
        assert(r * cols + 0 == r * cols);
        while c < cols
            invariant
                r < rows,
                c <= cols,
                rows == g@.len(),
                count == rows * cols,
                view == grid_view(g@),
                is_grid(view, rows as nat, cols as nat),
                seen@.len() == count,
                forall|k: int|
                    0 <= k < r * cols + c ==> 0 <= #[trigger] cells_read(
                        view,
                        cols as int,
                        r * cols + c,
                    )[k] < count,
                cells_read(view, cols as int, r * cols + c).no_duplicates(),
                forall|x: int|
                    0 <= x < count ==> (#[trigger] seen@[x] <==> cells_read(
                        view,
                        cols as int,
                        r * cols + c,
                    ).contains(x)),
            decreases cols - c,
        {
            let ghost before = cells_read(view, cols as int, r * cols + c);
            let ghost after = cells_read(view, cols as int, r * cols + c + 1);
            proof {
                lemma_cell_number(r as int, c as int, cols as int, rows as int);
                assert(view[r as int].len() == cols);
                assert(after =~= before.push(view[r as int][c as int] as int));
            }
            let id = g[r][c];
            if id >= count {
                assert(!(view[r as int][c as int] < rows * cols));
                return false;
            }
            if seen[id] {
                proof {
                    assert(before.contains(id as int));
                    let k = choose|k: int| 0 <= k < before.len() && before[k] == id as int;
                    lemma_cell_of_number(k, cols as int, rows as int);
                    let r0 = k / (cols as int);
                    let c0 = k % (cols as int);
                    assert(view[r0][c0] == view[r as int][c as int]);
                    assert(!(r0 == r && c0 == c));
                }
                return false;
            }
            seen[id] = true;
            proof {
                assert forall|x: int| 0 <= x < count implies (#[trigger] seen@[x] <==> after.contains(
                    x,
                )) by {
                    if x == id {
                        assert(after[before.len() as int] == x);
                    } else {
                        if before.contains(x) {
                            let k = choose|k: int| 0 <= k < before.len() && before[k] == x;
                            assert(after[k] == x);
                        }
                        if after.contains(x) {
                            let k = choose|k: int| 0 <= k < after.len() && after[k] == x;
                            assert(before[k] == x);
                        }
                    }
                }
                assert forall|k: int| 0 <= k < r * cols + c + 1 implies 0 <= #[trigger] after[k]
                    < count by {
                    if k < before.len() {
                        assert(before[k] == after[k]);
                    }
                }
                assert(after.no_duplicates()) by {
                    assert forall|i: int, j: int|
                        0 <= i < after.len() && 0 <= j < after.len() && i != j implies after[i]
                        != after[j] by {
                        if i < before.len() {
                            assert(before[i] == after[i]);
                            assert(before.contains(before[i]));
                        }
                        if j < before.len() {
                            assert(before[j] == after[j]);
                            assert(before.contains(before[j]));
                        }
                    }
                }
            }
            c += 1;
        }
        assert((r + 1) * cols == r * cols + cols) by (nonlinear_arith);
        r += 1;
    }
    proof {
        let all = cells_read(view, cols as int, rows * cols);
        lemma_pigeonhole(all, count as nat);
        assert forall|r0: int, c0: int| 0 <= r0 < rows && 0 <= c0 < cols implies #[trigger] view[r0][c0]
            < rows * cols by {
            lemma_cell_number(r0, c0, cols as int, rows as int);
            assert(all[r0 * cols + c0] == view[r0][c0]);
        }
        assert forall|r1: int, c1: int, r2: int, c2: int|
            0 <= r1 < rows && 0 <= c1 < cols && 0 <= r2 < rows && 0 <= c2 < cols
                && #[trigger] view[r1][c1] == #[trigger] view[r2][c2] implies r1 == r2 && c1
            == c2 by {
            lemma_cell_number(r1, c1, cols as int, rows as int);
            lemma_cell_number(r2, c2, cols as int, rows as int);
            assert(all[r1 * cols + c1] == view[r1][c1]);
            assert(all[r2 * cols + c2] == view[r2][c2]);
        }
        assert forall|id: usize| id < rows * cols implies #[trigger] occurs(view, id) by {
            assert(all.contains(id as int));
            let k = choose|k: int| 0 <= k < all.len() && all[k] == id as int;
            lemma_cell_of_number(k, cols as int, rows as int);
            let r0 = k / (cols as int);
            let c0 = k % (cols as int);
            assert(view[r0].len() == cols);
            assert(view[r0][c0] == id);
        }
    }
    true
}

/// A copy of `g`, cell by cell.
pub fn copy_matrix(g: &Vec<Vec<usize>>) -> (copy: Vec<Vec<usize>>)
    ensures
        grid_view(copy@) == grid_view(g@),
{
    let mut copy: Vec<Vec<usize>> = Vec::new();
    let mut r: usize = 0;
    while r < g.len()
        invariant
            r <= g@.len(),
            copy@.len() == r,
            forall|k: int| 0 <= k < r ==> (#[trigger] copy@[k])@ == g@[k]@,
        decreases g@.len() - r,
    {
        let source = &g[r];
        let mut row: Vec<usize> = Vec::new();
        let mut c: usize = 0;
        while c < source.len()
            invariant
                c <= source@.len(),
                row@.len() == c,
                forall|k: int| 0 <= k < c ==> #[trigger] row@[k] == source@[k],
            decreases source@.len() - c,
        {
            row.push(source[c]);
            c += 1;
        }
        assert(row@ =~= source@);
        copy.push(row);
        r += 1;
    }
    assert(grid_view(copy@) =~= grid_view(g@));
    copy
}

/// Pigeonhole: a sequence of different numbers below `m` has at most `m`
/// entries, and with `m` entries it holds every number below `m`.
pub proof fn lemma_pigeonhole(s: Seq<int>, m: nat)
    requires
        s.no_duplicates(),
        forall|i: int| 0 <= i < s.len() ==> 0 <= #[trigger] s[i] < m,
    ensures
        s.len() <= m,
        s.len() == m ==> forall|x: int| 0 <= x < m ==> #[trigger] s.contains(x),
{
    let range = set_int_range(0, m as int);
    lemma_int_range(0, m as int);
    s.unique_seq_to_set();
    vstd::seq_lib::seq_to_set_is_finite(s);
    assert(s.to_set().subset_of(range)) by {
        assert forall|x: int| s.to_set().contains(x) implies range.contains(x) by {
            let i = choose|i: int| 0 <= i < s.len() && s[i] == x;
        }
    }
    lemma_len_subset(s.to_set(), range);
    if s.len() == m {
        lemma_subset_equality(s.to_set(), range);
        assert forall|x: int| 0 <= x < m implies #[trigger] s.contains(x) by {
            assert(range.contains(x));
            assert(s.to_set().contains(x));
        }
    }
}

/// A piece that alone claims a cell owns it in the rendering.
pub proof fn lemma_sole_owner(positions: Seq<Option<(i32, i32)>>, piece: int, pos: (i32, i32), upto: nat)
    requires
        0 <= piece < positions.len(),
        upto <= positions.len(),
        positions[piece] == Some(pos),
        forall|q: int| 0 <= q < positions.len() && q != piece ==> positions[q] != Some(pos),
    ensures
        owner_of(positions, pos.0 as int, pos.1 as int, upto) == (if piece < upto {
            piece as usize
        } else {
            EMPTY_CELL
        }),
    decreases upto,
{
    if upto > 0 {
        lemma_sole_owner(positions, piece, pos, (upto - 1) as nat);
        assert(((pos.0 as int) as i32, (pos.1 as int) as i32) == pos);
    }
}

/// The cell value that rendering the first `upto` entries of `positions`
/// leaves at `(row, col)`: the last piece placed there, or [`EMPTY_CELL`].
pub open spec fn owner_of(positions: Seq<Option<(i32, i32)>>, row: int, col: int, upto: nat) -> usize
    decreases upto,
{
    if upto == 0 {
        EMPTY_CELL
    } else if positions[upto - 1] == Some((row as i32, col as i32)) {
        (upto - 1) as usize
    } else {
        owner_of(positions, row, col, (upto - 1) as nat)
    }
}

/// A grid of `rows` rows and `cols` columns with every cell empty.
pub fn empty_matrix(rows: usize, cols: usize) -> (matrix: Vec<Vec<usize>>)
    ensures
        is_grid(grid_view(matrix@), rows as nat, cols as nat),
        forall|r: int, c: int|
            0 <= r < rows && 0 <= c < cols ==> #[trigger] matrix@[r]@[c] == EMPTY_CELL,
{
    let mut matrix: Vec<Vec<usize>> = Vec::new();
    let mut r: usize = 0;
    while r < rows
        invariant
            r <= rows,
            matrix@.len() == r,
            forall|k: int| 0 <= k < r ==> (#[trigger] matrix@[k])@.len() == cols,
            forall|k: int, c: int|
                0 <= k < r && 0 <= c < cols ==> #[trigger] matrix@[k]@[c] == EMPTY_CELL,
        decreases rows - r,
    {
        let mut row: Vec<usize> = Vec::new();
        let mut c: usize = 0;
        while c < cols
            invariant
                c <= cols,
                row@.len() == c,
                forall|k: int| 0 <= k < c ==> #[trigger] row@[k] == EMPTY_CELL,
            decreases cols - c,
        {
            row.push(EMPTY_CELL);
            c += 1;
        }
        matrix.push(row);
        r += 1;
    }
    matrix
}

/// Renders placed pieces into a dense grid.
///
/// `positions[id]` is where piece `id` was placed, if it was.  The grid
/// covers rows `min_row ..= max_row` and columns `min_col ..= max_col`; a
/// position outside of it is skipped, a cell that no piece claims stays
/// [`EMPTY_CELL`], and of several pieces on one cell the one with the
/// largest id stays.
pub fn build_matrix(
    positions: &Vec<Option<(i32, i32)>>,
    min_col: i32,
    max_col: i32,
    min_row: i32,
    max_row: i32,
) -> (matrix: Vec<Vec<usize>>)
    requires
        min_row <= max_row,
        min_col <= max_col,
        max_row - min_row < i32::MAX,
        max_col - min_col < i32::MAX,
    ensures
        is_grid(
            grid_view(matrix@),
            (max_row - min_row + 1) as nat,
            (max_col - min_col + 1) as nat,
        ),
        forall|r: int, c: int|
            0 <= r <= max_row - min_row && 0 <= c <= max_col - min_col ==> #[trigger] matrix@[r]@[c]
                == owner_of(positions@, min_row + r, min_col + c, positions@.len()),
{
    let rows = (max_row as i64 - min_row as i64 + 1) as usize;
    let cols = (max_col as i64 - min_col as i64 + 1) as usize;
    let mut matrix = empty_matrix(rows, cols);
    let mut id: usize = 0;
    while id < positions.len()
        invariant
            id <= positions@.len(),
            rows == max_row - min_row + 1,
            cols == max_col - min_col + 1,
            is_grid(grid_view(matrix@), rows as nat, cols as nat),
            forall|r: int, c: int|
                0 <= r < rows && 0 <= c < cols ==> #[trigger] matrix@[r]@[c] == owner_of(
                    positions@,
                    min_row + r,
                    min_col + c,
                    id as nat,
                ),
        decreases positions@.len() - id,
    {
        match positions[id] {
            Some((row, col)) => {
                if min_row <= row && row <= max_row && min_col <= col && col <= max_col {
                    let adjusted_row = (row as i64 - min_row as i64) as usize;
                    let adjusted_col = (col as i64 - min_col as i64) as usize;
                    assert(grid_view(matrix@)[adjusted_row as int].len() == cols);
                    let ghost before = matrix@;
                    matrix[adjusted_row][adjusted_col] = id;
                    assert forall|r: int| 0 <= r < rows implies (#[trigger] grid_view(
                        matrix@,
                    )[r]).len() == cols by {
                        assert(grid_view(before)[r].len() == cols);
                    }
                }
            },
            None => {},
        }
        id += 1;
    }
    matrix
}

} // verus!
