//! Jigsaw reconstruction by a genetic algorithm with kernel-growing
//! crossover.
//!
//! Pieces are equally sized, unrotated rasters, known by their number.  An
//! arrangement (a chromosome) is a grid of piece numbers that holds every
//! piece once.  Scores are Euclidean edge distances in fixed point, so that
//! every result of the library is a function of its inputs and of the
//! random draws alone.
//!
//! - [`piece`], [`direction`]: rasters and the four sides.
//! - [`dissimilarity`]: the score of two pieces side by side.
//! - [`ranking`], [`adjacency`]: ranked neighbour lists and best buddies.
//! - [`grid`], [`population`]: grids of piece numbers, random arrangements.
//! - [`fitness`], [`selection`]: the cost of an arrangement, and the draw
//!   of parents by inverse cost.
//! - [`kernel`], [`crossover`], [`completeness`]: the assembly of a child,
//!   its model, and the proof that it succeeds when no ranked list is cut
//!   off.
//! - [`evolution`]: generations, and the run from pieces to arrangement.
//! - [`dimensions`]: statistics over picture sizes, and the canvas of the
//!   composed picture.

pub mod direction;
pub mod piece;
pub mod dissimilarity;
pub mod grid;
pub mod ranking;
pub mod adjacency;
pub mod fitness;
pub mod selection;
pub mod population;
pub mod kernel;
pub mod completeness;
pub mod crossover;
pub mod evolution;
pub mod dimensions;
mod random;
