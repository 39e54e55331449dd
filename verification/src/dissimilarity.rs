//! Edge dissimilarity: how badly two pieces fit when placed side by side.
//!
//! The score of a pair is the Euclidean distance between the two touching
//! edges, in fixed point: the distance times [`SCORE_SCALE`], rounded down.

use vstd::prelude::*;
use crate::direction::Direction;
use crate::piece::{is_piece_set, is_raster, rasters, Piece, Pixel, MAX_EDGE};

verus! {

/// Scores count in units of `1 / SCORE_SCALE`.
pub const SCORE_SCALE: u64 = 65_536;

/// No score between two pieces exceeds this bound.
pub const MAX_SCORE: u64 = 0x200_0000_0000;

/// The largest squared difference between two samples: three channels, each
/// off by 255.
pub const MAX_PIXEL_GAP: u64 = 195_075;

/// `x` squared.
pub open spec fn square(x: int) -> nat {
    (x * x) as nat
}

/// Sum over the three channels of the squared difference.
pub open spec fn pixel_gap(p: Pixel, q: Pixel) -> nat {
    square(p.r - q.r) + square(p.g - q.g) + square(p.b - q.b)
}

/// The samples on the side of `raster` that faces `dir`: a row read from the
/// left for `Up` and `Down`, a column read from the top for `Left` and `Right`.
pub open spec fn edge(raster: Seq<Seq<Pixel>>, dir: Direction) -> Seq<Pixel> {
    match dir {
        Direction::Up => raster[0],
        Direction::Down => raster[raster.len() - 1],
        Direction::Left => Seq::new(raster.len(), |y: int| raster[y][0]),
        Direction::Right => Seq::new(raster.len(), |y: int| raster[y][raster[0].len() - 1]),
    }
}

/// Sum of `pixel_gap` over the first `n` positions of two edges.
pub open spec fn gap_prefix(a: Seq<Pixel>, b: Seq<Pixel>, n: nat) -> nat
    decreases n,
{
    if n == 0 {
        0
    } else {
        gap_prefix(a, b, (n - 1) as nat) + pixel_gap(a[n - 1], b[n - 1])
    }
}

/// Summed squared per-channel difference between the side of `first` that
/// faces `dir` and the side of `second` that touches it.
pub open spec fn squared_distance(
    first: Seq<Seq<Pixel>>,
    second: Seq<Seq<Pixel>>,
    dir: Direction,
) -> nat {
    let a = edge(first, dir);
    gap_prefix(a, edge(second, dir.inverse_spec()), a.len())
}

/// `r` is the square root of `x`, rounded down.
pub open spec fn is_int_sqrt(x: nat, r: nat) -> bool {
    r * r <= x < (r + 1) * (r + 1)
}

/// The square root of `x`, rounded down.
pub open spec fn int_sqrt(x: nat) -> nat {
    choose|r: nat| is_int_sqrt(x, r)
}

/// The score of placing `second` next to `first` on the side `dir`:
/// `SCORE_SCALE` times the Euclidean distance of the touching edges, rounded
/// down.
pub open spec fn dissimilarity_spec(
    first: Seq<Seq<Pixel>>,
    second: Seq<Seq<Pixel>>,
    dir: Direction,
) -> nat {
    int_sqrt((squared_distance(first, second, dir) * SCORE_SCALE * SCORE_SCALE) as nat)
}

/// Two rasters have the same width and the same height.
pub open spec fn same_size(first: Seq<Seq<Pixel>>, second: Seq<Seq<Pixel>>) -> bool {
    first.len() == second.len() && first[0].len() == second[0].len()
}

/// Only one number is the rounded-down square root of `x`.
pub proof fn lemma_int_sqrt_unique(x: nat, r: nat)
    requires
        is_int_sqrt(x, r),
    ensures
        int_sqrt(x) == r,
{
    let c = int_sqrt(x);
    assert(is_int_sqrt(x, c));
    if c < r {
        assert((c + 1) * (c + 1) <= r * r) by (nonlinear_arith)
            requires
                c + 1 <= r,
        ;
    } else if r < c {
        assert((r + 1) * (r + 1) <= c * c) by (nonlinear_arith)
            requires
                r + 1 <= c,
        ;
    }
}

/// Every number has a rounded-down square root.
pub proof fn lemma_int_sqrt_exists(x: nat)
    ensures
        is_int_sqrt(x, int_sqrt(x)),
    decreases x,
{
    if x == 0 {
        assert(is_int_sqrt(0, 0)) by (nonlinear_arith);
    } else {
        lemma_int_sqrt_exists((x - 1) as nat);
        let r = int_sqrt((x - 1) as nat);
        if (r + 1) * (r + 1) <= x {
            assert((r + 1) * (r + 1) < (r + 2) * (r + 2)) by (nonlinear_arith);
            assert(is_int_sqrt(x, r + 1));
        } else {
            assert(is_int_sqrt(x, r));
        }
    }
}

/// The score follows the distance: of two pairs of edges, the pair that
/// lies further apart scores no less, and edges score 0 exactly when they
/// are equal sample by sample.
pub proof fn lemma_score_follows_distance(near: nat, far: nat)
    requires
        near <= far,
    ensures
        int_sqrt((near * SCORE_SCALE * SCORE_SCALE) as nat) <= int_sqrt(
            (far * SCORE_SCALE * SCORE_SCALE) as nat,
        ),
        int_sqrt((near * SCORE_SCALE * SCORE_SCALE) as nat) == 0 <==> near == 0,
{
    let a = (near * SCORE_SCALE * SCORE_SCALE) as nat;
    let b = (far * SCORE_SCALE * SCORE_SCALE) as nat;
    assert(a <= b) by (nonlinear_arith)
        requires
            near <= far,
            a == near * SCORE_SCALE * SCORE_SCALE,
            b == far * SCORE_SCALE * SCORE_SCALE,
    ;
    lemma_int_sqrt_exists(a);
    lemma_int_sqrt_exists(b);
    let ra = int_sqrt(a);
    let rb = int_sqrt(b);
    if rb < ra {
        assert((rb + 1) * (rb + 1) <= ra * ra) by (nonlinear_arith)
            requires
                rb + 1 <= ra,
        ;
    }
    if near == 0 {
        assert(a == 0);
        assert(is_int_sqrt(0, 0)) by (nonlinear_arith);
        lemma_int_sqrt_unique(0, 0);
    } else {
        assert(a >= 1) by (nonlinear_arith)
            requires
                near >= 1,
                a == near * SCORE_SCALE * SCORE_SCALE,
        ;
    }
}

/// The sum of the gaps does not depend on which edge is named first.
pub proof fn lemma_gap_prefix_symmetric(a: Seq<Pixel>, b: Seq<Pixel>, n: nat)
    ensures
        gap_prefix(a, b, n) == gap_prefix(b, a, n),
    decreases n,
{
    if n > 0 {
        lemma_gap_prefix_symmetric(a, b, (n - 1) as nat);
        let p = a[n - 1];
        let q = b[n - 1];
        assert(square(p.r - q.r) == square(q.r - p.r)) by (nonlinear_arith);
        assert(square(p.g - q.g) == square(q.g - p.g)) by (nonlinear_arith);
        assert(square(p.b - q.b) == square(q.b - p.b)) by (nonlinear_arith);
    }
}

/// The squared difference of two bytes is at most 255 squared.
pub proof fn lemma_square_of_byte_gap(x: u8, y: u8)
    ensures
        square(x - y) <= 65_025,
{
    let d: int = x - y;
    assert(0 <= d * d <= 65_025) by (nonlinear_arith)
        requires
            -255 <= d <= 255,
    ;
}

/// Symmetry of the metric: `second` on side `dir` of `first` scores the same
/// as `first` on the opposite side of `second`.
pub proof fn lemma_dissimilarity_symmetric(
    first: Seq<Seq<Pixel>>,
    second: Seq<Seq<Pixel>>,
    dir: Direction,
)
    requires
        is_raster(first),
        is_raster(second),
        same_size(first, second),
    ensures
        dissimilarity_spec(first, second, dir) == dissimilarity_spec(
            second,
            first,
            dir.inverse_spec(),
        ),
{
    let a = edge(first, dir);
    let b = edge(second, dir.inverse_spec());
    assert(dir.inverse_spec().inverse_spec() == dir);
    assert(a.len() == b.len()) by {
        assert(first[first.len() - 1].len() == first[0].len());
        assert(second[second.len() - 1].len() == second[0].len());
    }
    lemma_gap_prefix_symmetric(a, b, a.len());
}

/// Squared difference of two channel values.
fn channel_gap(x: u8, y: u8) -> (gap: u64)
    ensures
        gap == square(x - y),
        gap <= 65_025,
{
    let d: u64 = if x >= y {
        (x - y) as u64
    } else {
        (y - x) as u64
    };
    proof {
        lemma_square_of_byte_gap(x, y);
        assert(d * d == (x - y) * (x - y)) by (nonlinear_arith)
            requires
                d == x - y || d == y - x,
        ;
    }
    d * d
}

/// The sample at position `i` of the side of `piece` that faces `dir`.
fn edge_pixel(piece: &Piece, dir: Direction, i: usize) -> (p: Pixel)
    requires
        i < edge(piece@, dir).len(),
    ensures
        p == edge(piece@, dir)[i as int],
{
    let height = piece.height();
    let width = piece.width();
    assert(piece@[height - 1].len() == width);
    match dir {
        Direction::Up => piece.pixel(i, 0),
        Direction::Down => piece.pixel(i, height - 1),
        Direction::Left => piece.pixel(0, i),
        Direction::Right => piece.pixel(width - 1, i),
    }
}

/// Length of the side of `piece` that faces `dir`.
fn edge_length(piece: &Piece, dir: Direction) -> (n: usize)
    ensures
        piece.wf(),
        n == edge(piece@, dir).len(),
        n <= MAX_EDGE,
{
    match dir {
        Direction::Up | Direction::Down => {
            let w = piece.width();
            assert(piece@[piece@.len() - 1].len() == piece@[0].len());
            w
        },
        Direction::Left | Direction::Right => piece.height(),
    }
}

/// The square root of `x`, rounded down.
pub fn integer_sqrt(x: u128) -> (r: u64)
    ensures
        is_int_sqrt(x as nat, r as nat),
        r == int_sqrt(x as nat),
{
    let mut low: u128 = 0;
    let mut high: u128 = 0x1_0000_0000_0000_0000;
    assert(x < high * high) by (nonlinear_arith)
        requires
            high == 0x1_0000_0000_0000_0000,
            x <= u128::MAX,
    ;
    while high - low > 1
        invariant
            low < high <= 0x1_0000_0000_0000_0000,
            low * low <= x < high * high,
        decreases high - low,
    {
        let mid: u128 = low + (high - low) / 2;
        assert(mid * mid <= 0xFFFF_FFFF_FFFF_FFFF * 0xFFFF_FFFF_FFFF_FFFF) by (nonlinear_arith)
            requires
                0 <= mid <= 0xFFFF_FFFF_FFFF_FFFF,
        ;
        if mid * mid <= x {
            low = mid;
        } else {
            high = mid;
        }
    }
    proof {
        lemma_int_sqrt_unique(x as nat, low as nat);
    }
    low as u64
}

/// Scores how badly `piece2` fits on the side `relation` of `piece1`.
///
/// The two pieces must have the same size.  The result is the Euclidean
/// distance between the touching edges in units of `1 / SCORE_SCALE`,
/// rounded down.
pub fn calculate_dissimilarity(piece1: &Piece, piece2: &Piece, relation: Direction) -> (score: u64)
    requires
        same_size(piece1@, piece2@),
    ensures
        score == dissimilarity_spec(piece1@, piece2@, relation),
        is_int_sqrt(
            (squared_distance(piece1@, piece2@, relation) * SCORE_SCALE * SCORE_SCALE) as nat,
            score as nat,
        ),
        score <= MAX_SCORE,
{
    let facing = relation.inverse();
    let n = edge_length(piece1, relation);
    let m = edge_length(piece2, facing);
    let ghost a = edge(piece1@, relation);
    let ghost b = edge(piece2@, facing);
    assert(b.len() == n) by {
        assert(piece2@[piece2@.len() - 1].len() == piece2@[0].len());
        assert(piece1@[piece1@.len() - 1].len() == piece1@[0].len());
    }
    let mut total: u64 = 0;
    let mut i: usize = 0;
    while i < n
        invariant
            i <= n <= MAX_EDGE,
            a == edge(piece1@, relation),
            b == edge(piece2@, facing),
            a.len() == n,
            b.len() == n,
            total == gap_prefix(a, b, i as nat),
            total <= MAX_PIXEL_GAP * i,
        decreases n - i,
    {
        let p = edge_pixel(piece1, relation, i);
        let q = edge_pixel(piece2, facing, i);
        let gap = channel_gap(p.r, q.r) + channel_gap(p.g, q.g) + channel_gap(p.b, q.b);
        assert(MAX_PIXEL_GAP * (i + 1) <= MAX_PIXEL_GAP * MAX_EDGE) by (nonlinear_arith)
            requires
                i + 1 <= MAX_EDGE,
        ;
        total = total + gap;
        i += 1;
    }
    assert(total * SCORE_SCALE * SCORE_SCALE <= MAX_PIXEL_GAP * MAX_EDGE * SCORE_SCALE
        * SCORE_SCALE) by (nonlinear_arith)
        requires
            total <= MAX_PIXEL_GAP * n,
            n <= MAX_EDGE,
    ;
    let scaled: u128 = (total as u128) * (SCORE_SCALE as u128) * (SCORE_SCALE as u128);
    let score = integer_sqrt(scaled);
    proof {
        if score > MAX_SCORE {
            assert(MAX_SCORE * MAX_SCORE < score * score) by (nonlinear_arith)
                requires
                    MAX_SCORE < score,
            ;
        }
    }
    score
}

/// The rows of `raw` as sequences of entries.
pub open spec fn matrix_view(raw: Seq<Vec<Option<u64>>>) -> Seq<Seq<Option<u64>>> {
    Seq::new(raw.len(), |a: int| raw[a]@)
}

/// The score that `m` holds for piece `b` next to piece `a`, if it holds
/// one.
pub open spec fn entry(m: Seq<Seq<Option<u64>>>, a: int, b: int) -> Option<u64> {
    if 0 <= a < m.len() && 0 <= b < m[a].len() {
        m[a][b]
    } else {
        None
    }
}

/// `m` holds a score, none above [`MAX_SCORE`], for every pair of different
/// pieces below `n`.
pub open spec fn covers_all_pairs(m: Seq<Seq<Option<u64>>>, n: nat) -> bool {
    forall|a: int, b: int|
        0 <= a < n && 0 <= b < n && a != b ==> (#[trigger] entry(m, a, b)) is Some && entry(
            m,
            a,
            b,
        ).unwrap() <= MAX_SCORE
}

/// `m` holds exactly the pairs of different pieces: for `a != b`, the entry
/// `m[a][b]` is the score of piece `b` on side `dir` of piece `a`; for a
/// piece and itself there is no entry.
pub open spec fn is_pairwise_matrix(
    m: Seq<Seq<Option<u64>>>,
    rasters: Seq<Seq<Seq<Pixel>>>,
    dir: Direction,
) -> bool {
    &&& m.len() == rasters.len()
    &&& forall|a: int| 0 <= a < rasters.len() ==> (#[trigger] m[a]).len() == rasters.len()
    &&& forall|a: int, b: int|
        0 <= a < rasters.len() && 0 <= b < rasters.len() ==> #[trigger] m[a][b] == (if a != b {
            Some(dissimilarity_spec(rasters[a], rasters[b], dir) as u64)
        } else {
            None
        })
    &&& forall|a: int, b: int|
        0 <= a < rasters.len() && 0 <= b < rasters.len() && a != b ==> #[trigger] dissimilarity_spec(
            rasters[a],
            rasters[b],
            dir,
        ) <= MAX_SCORE
}

/// A matrix of all pairs covers all pairs.
pub proof fn lemma_pairwise_covers(
    m: Seq<Seq<Option<u64>>>,
    rasters: Seq<Seq<Seq<Pixel>>>,
    dir: Direction,
)
    requires
        is_pairwise_matrix(m, rasters, dir),
    ensures
        covers_all_pairs(m, rasters.len()),
{
    assert forall|a: int, b: int| 0 <= a < rasters.len() && 0 <= b < rasters.len() && a
        != b implies (#[trigger] entry(m, a, b)) is Some && entry(m, a, b).unwrap()
        <= MAX_SCORE by {
        assert(m[a].len() == rasters.len());
        assert(m[a][b] == Some(dissimilarity_spec(rasters[a], rasters[b], dir) as u64));
        assert(dissimilarity_spec(rasters[a], rasters[b], dir) <= MAX_SCORE);
    }
}

/// Scores every piece on side `dir` of every other piece.
pub fn pairwise_matrix(pieces: &Vec<Piece>, dir: Direction) -> (matrix: Vec<Vec<Option<u64>>>)
    requires
        is_piece_set(pieces@),
    ensures
        is_pairwise_matrix(matrix_view(matrix@), rasters(pieces@), dir),
{
    let n = pieces.len();
    let ghost rs = rasters(pieces@);
    let mut matrix: Vec<Vec<Option<u64>>> = Vec::new();
    let mut a: usize = 0;
    while a < n
        invariant
            a <= n,
            n == pieces@.len(),
            is_piece_set(pieces@),
            rs == rasters(pieces@),
            matrix@.len() == a,
            forall|i: int| 0 <= i < a ==> (#[trigger] matrix@[i])@.len() == n,
            forall|i: int, j: int|
                0 <= i < a && 0 <= j < n ==> #[trigger] matrix@[i]@[j] == (if i != j {
                    Some(dissimilarity_spec(rs[i], rs[j], dir) as u64)
                } else {
                    None
                }),
            forall|i: int, j: int|
                0 <= i < a && 0 <= j < n && i != j ==> #[trigger] dissimilarity_spec(
                    rs[i],
                    rs[j],
                    dir,
                ) <= MAX_SCORE,
        decreases n - a,
    {
        let mut row: Vec<Option<u64>> = Vec::new();
        let mut b: usize = 0;
        while b < n
            invariant
                a < n,
                b <= n,
                n == pieces@.len(),
                is_piece_set(pieces@),
                rs == rasters(pieces@),
                row@.len() == b,
                forall|j: int|
                    0 <= j < b ==> #[trigger] row@[j] == (if a != j {
                        Some(dissimilarity_spec(rs[a as int], rs[j], dir) as u64)
                    } else {
                        None
                    }),
                forall|j: int|
                    0 <= j < b && a != j ==> #[trigger] dissimilarity_spec(
                        rs[a as int],
                        rs[j],
                        dir,
                    ) <= MAX_SCORE,
            decreases n - b,
        {
            if a != b {
                assert(pieces@[a as int].wf() && pieces@[b as int].wf());
                row.push(Some(calculate_dissimilarity(&pieces[a], &pieces[b], dir)));
            } else {
                row.push(None);
            }
            b += 1;
        }
        matrix.push(row);
        a += 1;
    }
    matrix
}

/// Scores all pairs of different pieces side by side and one above the
/// other.
///
/// In the first matrix, entry `[a][b]` is the score of `b` to the right of
/// `a`; in the second, that of `b` below `a`.  Neither holds an entry for a
/// piece and itself.
pub fn calculate_dissimilarity_matrices(loaded_pieces: &Vec<Piece>) -> (matrices: (
    Vec<Vec<Option<u64>>>,
    Vec<Vec<Option<u64>>>,
))
    requires
        is_piece_set(loaded_pieces@),
    ensures
        is_pairwise_matrix(matrix_view(matrices.0@), rasters(loaded_pieces@), Direction::Right),
        is_pairwise_matrix(matrix_view(matrices.1@), rasters(loaded_pieces@), Direction::Down),
{
    let dissimilarity_matrix_r = pairwise_matrix(loaded_pieces, Direction::Right);
    let dissimilarity_matrix_d = pairwise_matrix(loaded_pieces, Direction::Down);
    (dissimilarity_matrix_r, dissimilarity_matrix_d)
}

} // verus!
