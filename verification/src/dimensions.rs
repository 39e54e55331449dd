//! Statistics over the sizes of the pieces, from which a common size is
//! chosen.

use vstd::prelude::*;

verus! {

/// The summed widths of the first `upto` sizes.
pub open spec fn total_width(sizes: Seq<(u32, u32)>, upto: nat) -> nat
    decreases upto,
{
    if upto == 0 {
        0
    } else {
        total_width(sizes, (upto - 1) as nat) + sizes[upto - 1].0 as nat
    }
}

/// The summed heights of the first `upto` sizes.
pub open spec fn total_height(sizes: Seq<(u32, u32)>, upto: nat) -> nat
    decreases upto,
{
    if upto == 0 {
        0
    } else {
        total_height(sizes, (upto - 1) as nat) + sizes[upto - 1].1 as nat
    }
}

/// `stats` holds, for the widths and heights in `sizes`: the two averages,
/// rounded down, the two smallest values, and the two largest.
pub open spec fn is_stats_of(stats: (u32, u32, u32, u32, u32, u32), sizes: Seq<(u32, u32)>) -> bool {
    let n = sizes.len();
    &&& n > 0
    &&& stats.0 == total_width(sizes, n) / n
    &&& stats.1 == total_height(sizes, n) / n
    &&& forall|i: int| 0 <= i < n ==> stats.2 <= (#[trigger] sizes[i]).0 <= stats.4
    &&& forall|i: int| 0 <= i < n ==> stats.3 <= (#[trigger] sizes[i]).1 <= stats.5
    &&& exists|i: int| 0 <= i < n && (#[trigger] sizes[i]).0 == stats.2
    &&& exists|i: int| 0 <= i < n && (#[trigger] sizes[i]).1 == stats.3
    &&& exists|i: int| 0 <= i < n && (#[trigger] sizes[i]).0 == stats.4
    &&& exists|i: int| 0 <= i < n && (#[trigger] sizes[i]).1 == stats.5
}

/// The sums stay below the count times the largest 32-bit number.
proof fn lemma_totals_bounded(sizes: Seq<(u32, u32)>, upto: nat)
    ensures
        total_width(sizes, upto) <= upto * u32::MAX,
        total_height(sizes, upto) <= upto * u32::MAX,
    decreases upto,
{
    if upto > 0 {
        lemma_totals_bounded(sizes, (upto - 1) as nat);
        assert((upto - 1) * u32::MAX + u32::MAX == upto * u32::MAX) by (nonlinear_arith);
    }
}

/// The average of values that fit 32 bits fits 32 bits.
proof fn lemma_average_bounded(total: int, n: int)
    requires
        0 <= total <= n * u32::MAX,
        n > 0,
    ensures
        0 <= total / n <= u32::MAX,
{
    vstd::arithmetic::div_mod::lemma_div_is_ordered(total, n * u32::MAX, n);
    vstd::arithmetic::div_mod::lemma_div_multiples_vanish(u32::MAX as int, n);
    vstd::arithmetic::div_mod::lemma_div_is_ordered(0, total, n);
}

/// Average width, average height, smallest width, smallest height, largest
/// width and largest height of the given sizes `(width, height)`; `None`
/// when there is no size.  The averages are rounded down.
pub fn calculate_dimensions_stats(images: &Vec<(u32, u32)>) -> (stats: Option<
    (u32, u32, u32, u32, u32, u32),
>)
    ensures
        stats is None <==> images@.len() == 0,
        stats matches Some(s) ==> is_stats_of(s, images@),
{
    let total_images = images.len();
    if total_images == 0 {
        return None;
    }
    let mut total_w: u128 = 0;
    let mut total_h: u128 = 0;
    let mut smallest_width: u32 = images[0].0;
    let mut smallest_height: u32 = images[0].1;
    let mut largest_width: u32 = images[0].0;
    let mut largest_height: u32 = images[0].1;
    let ghost mut at_sw: int = 0;
    let ghost mut at_sh: int = 0;
    let ghost mut at_lw: int = 0;
    let ghost mut at_lh: int = 0;
    let mut i: usize = 0;
    while i < total_images
        invariant
            i <= total_images,
            total_images == images@.len(),
            total_images > 0,
            total_w == total_width(images@, i as nat),
            total_h == total_height(images@, i as nat),
            forall|k: int| 0 <= k < i ==> smallest_width <= (#[trigger] images@[k]).0 <= largest_width,
            forall|k: int|
                0 <= k < i ==> smallest_height <= (#[trigger] images@[k]).1 <= largest_height,
            0 <= at_sw < total_images && images@[at_sw].0 == smallest_width,
            0 <= at_sh < total_images && images@[at_sh].1 == smallest_height,
            0 <= at_lw < total_images && images@[at_lw].0 == largest_width,
            0 <= at_lh < total_images && images@[at_lh].1 == largest_height,
        decreases total_images - i,
    {
        let (width, height) = images[i];
        proof {
            lemma_totals_bounded(images@, (i + 1) as nat);
            assert((i + 1) * u32::MAX <= usize::MAX * u32::MAX) by (nonlinear_arith)
                requires
                    i + 1 <= usize::MAX,
            ;
        }
        total_w = total_w + width as u128;
        total_h = total_h + height as u128;
        if width < smallest_width {
            smallest_width = width;
            proof {
                at_sw = i as int;
            }
        }
        if height < smallest_height {
            smallest_height = height;
            proof {
                at_sh = i as int;
            }
        }
        if width > largest_width {
            largest_width = width;
            proof {
                at_lw = i as int;
            }
        }
        if height > largest_height {
            largest_height = height;
            proof {
                at_lh = i as int;
            }
        }
        i += 1;
    }
    proof {
        lemma_totals_bounded(images@, total_images as nat);
        lemma_average_bounded(total_w as int, total_images as int);
        lemma_average_bounded(total_h as int, total_images as int);
    }
    let average_width = (total_w / total_images as u128) as u32;
    let average_height = (total_h / total_images as u128) as u32;
    Some(
        (
            average_width,
            average_height,
            smallest_width,
            smallest_height,
            largest_width,
            largest_height,
        ),
    )
}

/// The sizes of a grid of pictures, row by row.
pub open spec fn sizes_view(raw: Seq<Vec<(u32, u32)>>) -> Seq<Seq<(u32, u32)>> {
    Seq::new(raw.len(), |r: int| raw[r]@)
}

/// The summed widths of the first `upto` pictures of a row.
pub open spec fn row_width(row: Seq<(u32, u32)>, upto: nat) -> nat
    decreases upto,
{
    if upto == 0 {
        0
    } else {
        row_width(row, (upto - 1) as nat) + row[upto - 1].0 as nat
    }
}

/// The largest height among the first `upto` pictures of a row; 0 for
/// none.
pub open spec fn row_height(row: Seq<(u32, u32)>, upto: nat) -> nat
    decreases upto,
{
    if upto == 0 {
        0
    } else if row[upto - 1].1 > row_height(row, (upto - 1) as nat) {
        row[upto - 1].1 as nat
    } else {
        row_height(row, (upto - 1) as nat)
    }
}

/// The summed heights of the first `upto` rows.
pub open spec fn stacked_height(sizes: Seq<Seq<(u32, u32)>>, upto: nat) -> nat
    decreases upto,
{
    if upto == 0 {
        0
    } else {
        stacked_height(sizes, (upto - 1) as nat) + row_height(sizes[upto - 1], sizes[upto - 1].len())
    }
}

/// The width of the widest of the first `upto` rows; 0 for none.
pub open spec fn widest_row(sizes: Seq<Seq<(u32, u32)>>, upto: nat) -> nat
    decreases upto,
{
    if upto == 0 {
        0
    } else if row_width(sizes[upto - 1], sizes[upto - 1].len()) > widest_row(
        sizes,
        (upto - 1) as nat,
    ) {
        row_width(sizes[upto - 1], sizes[upto - 1].len())
    } else {
        widest_row(sizes, (upto - 1) as nat)
    }
}

/// Where the pictures of a grid go on a common canvas.
pub struct Canvas {
    /// Width of the canvas: that of the widest row.
    pub width: u32,
    /// Height of the canvas: the summed heights of the rows.
    pub height: u32,
    /// The top left corner `(x, y)` of every picture.
    pub origins: Vec<Vec<(u32, u32)>>,
}

/// `canvas` lays the pictures out row below row, each row from the left
/// without gaps, each row as high as its highest picture.
pub open spec fn is_layout_of(canvas: Canvas, sizes: Seq<Seq<(u32, u32)>>) -> bool {
    &&& canvas.width == widest_row(sizes, sizes.len())
    &&& canvas.height == stacked_height(sizes, sizes.len())
    &&& canvas.origins@.len() == sizes.len()
    &&& forall|r: int|
        0 <= r < sizes.len() ==> (#[trigger] canvas.origins@[r])@.len() == sizes[r].len()
    &&& forall|r: int, c: int|
        0 <= r < sizes.len() && 0 <= c < sizes[r].len() ==> #[trigger] canvas.origins@[r]@[c] == (
            row_width(sizes[r], c as nat) as u32,
            stacked_height(sizes, r as nat) as u32,
        )
}

/// A longer part of a row is no narrower.
pub proof fn lemma_row_width_grows(row: Seq<(u32, u32)>, a: nat, b: nat)
    requires
        a <= b,
    ensures
        row_width(row, a) <= row_width(row, b),
    decreases b,
{
    if a < b {
        lemma_row_width_grows(row, a, (b - 1) as nat);
    }
}

/// More rows stack no lower, and the widest of more rows is no narrower.
pub proof fn lemma_canvas_grows(sizes: Seq<Seq<(u32, u32)>>, a: nat, b: nat)
    requires
        a <= b,
    ensures
        stacked_height(sizes, a) <= stacked_height(sizes, b),
        widest_row(sizes, a) <= widest_row(sizes, b),
    decreases b,
{
    if a < b {
        lemma_canvas_grows(sizes, a, (b - 1) as nat);
    }
}

/// Plans the canvas for a grid of pictures of the given sizes
/// `(width, height)`.  Returns `None` exactly when the canvas would be
/// wider or higher than 32 bits can say.
pub fn plan_canvas(sizes: &Vec<Vec<(u32, u32)>>) -> (plan: Option<Canvas>)
    ensures
        plan is Some <==> widest_row(sizes_view(sizes@), sizes@.len()) <= u32::MAX
            && stacked_height(sizes_view(sizes@), sizes@.len()) <= u32::MAX,
        plan matches Some(canvas) ==> is_layout_of(canvas, sizes_view(sizes@)),
{
    let ghost view = sizes_view(sizes@);
    let count = sizes.len();
    let mut origins: Vec<Vec<(u32, u32)>> = Vec::new();
    let mut image_width: u32 = 0;
    let mut current_y: u64 = 0;
    let mut r: usize = 0;
    while r < count
        invariant
            r <= count,
            count == sizes@.len(),
            view == sizes_view(sizes@),
            image_width == widest_row(view, r as nat),
            current_y == stacked_height(view, r as nat),
            current_y <= u32::MAX,
            origins@.len() == r,
            forall|k: int| 0 <= k < r ==> (#[trigger] origins@[k])@.len() == view[k].len(),
            forall|k: int, c: int|
                0 <= k < r && 0 <= c < view[k].len() ==> #[trigger] origins@[k]@[c] == (
                    row_width(view[k], c as nat) as u32,
                    stacked_height(view, k as nat) as u32,
                ),
        decreases count - r,
    {
        let row = &sizes[r];
        let ghost line = view[r as int];
        assert(line == row@);
        let mut placed: Vec<(u32, u32)> = Vec::new();
        let mut current_x: u64 = 0;
        let mut row_tall: u32 = 0;
        let mut c: usize = 0;
        while c < row.len()
            invariant
                c <= row@.len(),
                line == row@,
                r < count,
                count == sizes@.len(),
                view == sizes_view(sizes@),
                line == view[r as int],
                current_x == row_width(line, c as nat),
                current_x <= u32::MAX,
                row_tall == row_height(line, c as nat),
                current_y == stacked_height(view, r as nat),
                current_y <= u32::MAX,
                placed@.len() == c,
                forall|k: int|
                    0 <= k < c ==> #[trigger] placed@[k] == (
                        row_width(line, k as nat) as u32,
                        stacked_height(view, r as nat) as u32,
                    ),
            decreases row@.len() - c,
        {
            let (width, height) = row[c];
            placed.push((current_x as u32, current_y as u32));
            current_x = current_x + width as u64;
            if height > row_tall {
                row_tall = height;
            }
            c += 1;
            if current_x > u32::MAX as u64 {
                proof {
                    lemma_row_width_grows(line, c as nat, line.len());
                    lemma_canvas_grows(view, (r + 1) as nat, count as nat);
                }
                return None;
            }
        }
        let ghost before = origins@;
        origins.push(placed);
        if current_x as u32 > image_width {
            image_width = current_x as u32;
        }
        current_y = current_y + row_tall as u64;
        r += 1;
        if current_y > u32::MAX as u64 {
            proof {
                lemma_canvas_grows(view, r as nat, count as nat);
            }
            return None;
        }
        proof {
            assert forall|k: int, c: int|
                0 <= k < r && 0 <= c < view[k].len() implies #[trigger] origins@[k]@[c] == (
                row_width(view[k], c as nat) as u32,
                stacked_height(view, k as nat) as u32,
            ) by {
                if k < r - 1 {
                    assert(origins@[k] == before[k]);
                }
            }
            assert forall|k: int| 0 <= k < r implies (#[trigger] origins@[k])@.len()
                == view[k].len() by {
                if k < r - 1 {
                    assert(origins@[k] == before[k]);
                }
            }
        }
    }
    Some(Canvas { width: image_width, height: current_y as u32, origins })
}

} // verus!
