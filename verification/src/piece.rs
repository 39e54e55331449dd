//! Pieces: fixed-size rasters of colour samples.

use vstd::prelude::*;

verus! {

/// The largest width or height, in samples, that a piece may have.
pub const MAX_EDGE: usize = 0xFFFF_FFFF;

/// One colour sample.
#[derive(Clone, Copy, Debug, PartialEq, Eq, Structural)]
pub struct Pixel {
    pub r: u8,
    pub g: u8,
    pub b: u8,
}

/// A raster given as rows of samples is usable as a piece when it has at
/// least one row, every row has the same non-zero length, and neither side
/// exceeds [`MAX_EDGE`].
pub open spec fn is_raster(rows: Seq<Seq<Pixel>>) -> bool {
    &&& 1 <= rows.len() <= MAX_EDGE
    &&& 1 <= rows[0].len() <= MAX_EDGE
    &&& forall|y: int| 0 <= y < rows.len() ==> (#[trigger] rows[y]).len() == rows[0].len()
}

/// The rows of `raw` as sequences of samples.
pub open spec fn raster_view(raw: Seq<Vec<Pixel>>) -> Seq<Seq<Pixel>> {
    Seq::new(raw.len(), |y: int| raw[y]@)
}

/// An immutable rectangular raster.
pub struct Piece {
    rows: Vec<Vec<Pixel>>,
}

impl View for Piece {
    type V = Seq<Seq<Pixel>>;

    /// The raster, row by row from the top, each row from the left.
    closed spec fn view(&self) -> Seq<Seq<Pixel>> {
        raster_view(self.rows@)
    }
}

impl Piece {
    #[verifier::type_invariant]
    closed spec fn raster_invariant(&self) -> bool {
        is_raster(raster_view(self.rows@))
    }

    /// Holds of every piece that exists at run time.
    pub open spec fn wf(&self) -> bool {
        is_raster(self@)
    }


    /// Number of rows.
    pub open spec fn spec_height(&self) -> nat {
        self@.len()
    }

    /// Number of samples per row.
    pub open spec fn spec_width(&self) -> nat {
        self@[0].len()
    }

    /// Wraps `rows` as a piece, or returns `None` when `rows` is not a
    /// raster in the sense of [`is_raster`].
    pub fn new(rows: Vec<Vec<Pixel>>) -> (piece: Option<Piece>)
        ensures
            piece is Some <==> is_raster(raster_view(rows@)),
            piece matches Some(p) ==> p.wf() && p@ == raster_view(rows@),
    {
        let height = rows.len();
        if height == 0 || height > MAX_EDGE {
            return None;
        }
        let width = rows[0].len();
        if width == 0 || width > MAX_EDGE {
            return None;
        }
        let mut y: usize = 1;
        while y < height
            invariant
                1 <= y <= height,
                height == rows.len(),
                width == rows[0].len(),
                forall|k: int| 0 <= k < y ==> (#[trigger] rows[k]).len() == width,
            decreases height - y,
        {
            if rows[y].len() != width {
                assert(raster_view(rows@)[y as int].len() != raster_view(rows@)[0].len());
                return None;
            }
            y += 1;
        }
        assert forall|k: int| 0 <= k < height implies (#[trigger] raster_view(rows@)[k]).len()
            == raster_view(rows@)[0].len() by {
            assert(rows[k].len() == width);
        }
        Some(Piece { rows })
    }

    /// Number of rows.
    pub fn height(&self) -> (h: usize)
        ensures
            self.wf(),
            h == self.spec_height(),
            1 <= h <= MAX_EDGE,
    {
        proof {
            use_type_invariant(self);
        }
        self.rows.len()
    }

    /// Number of samples per row.
    pub fn width(&self) -> (w: usize)
        ensures
            self.wf(),
            w == self.spec_width(),
            1 <= w <= MAX_EDGE,
    {
        proof {
            use_type_invariant(self);
        }
        self.rows[0].len()
    }

    /// The sample in column `x` of row `y`.
    pub fn pixel(&self, x: usize, y: usize) -> (p: Pixel)
        requires
            x < self.spec_width(),
            y < self.spec_height(),
        ensures
            p == self@[y as int][x as int],
    {
        proof {
            use_type_invariant(self);
        }
        assert(self@[y as int].len() == self@[0].len());
        self.rows[y][x]
    }
}

/// A piece universe: every piece is a raster, and all have the size of the
/// first.
pub open spec fn is_piece_set(pieces: Seq<Piece>) -> bool {
    forall|i: int|
        0 <= i < pieces.len() ==> {
            &&& (#[trigger] pieces[i]).wf()
            &&& pieces[i]@.len() == pieces[0]@.len()
            &&& pieces[i]@[0].len() == pieces[0]@[0].len()
        }
}

/// The rasters of `pieces`.
pub open spec fn rasters(pieces: Seq<Piece>) -> Seq<Seq<Seq<Pixel>>> {
    Seq::new(pieces.len(), |i: int| pieces[i]@)
}

/// Every raster is well formed and has the size of the first.
pub open spec fn is_raster_set(rasters: Seq<Seq<Seq<Pixel>>>) -> bool {
    forall|i: int|
        0 <= i < rasters.len() ==> {
            &&& is_raster(#[trigger] rasters[i])
            &&& rasters[i].len() == rasters[0].len()
            &&& rasters[i][0].len() == rasters[0][0].len()
        }
}

/// Tells whether all pieces have the same width and the same height.
pub fn is_uniform(pieces: &Vec<Piece>) -> (uniform: bool)
    ensures
        uniform == is_piece_set(pieces@),
{
    let n = pieces.len();
    if n == 0 {
        return true;
    }
    let height = pieces[0].height();
    let width = pieces[0].width();
    let mut i: usize = 0;
    while i < n
        invariant
            i <= n,
            n == pieces.len(),
            height == pieces[0]@.len(),
            width == pieces[0]@[0].len(),
            forall|k: int|
                0 <= k < i ==> {
                    &&& (#[trigger] pieces[k]).wf()
                    &&& pieces[k]@.len() == height
                    &&& pieces[k]@[0].len() == width
                },
        decreases n - i,
    {
        if pieces[i].height() != height || pieces[i].width() != width {
            return false;
        }
        i += 1;
    }
    true
}

} // verus!
