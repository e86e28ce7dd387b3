//! Window-layout search core for a tiling compositor.
//!
//! Given a rectangular container and a number of items to place, this crate
//! provides the pieces a stochastic search loop needs to find a good
//! arrangement of rectangles: geometry primitives, a codec from bit vectors
//! to rectangle fields, a weighted multi-objective fitness evaluator, and a
//! deterministic geometric post-processor that removes gaps and overlaps
//! borders. All "real-valued" quantities are exact integer fractions; the
//! configuration scalars (weights and ratios) are fixed-point numbers.

pub mod binary;
pub mod encoding;
pub mod frac;
pub mod objective;
pub mod post_processing;
pub mod rect;

pub use crate::encoding::Decoder;
pub use crate::frac::{Frac, InvalidScalarError, UNIT};
pub use crate::objective::area_ratios::AreaRatio;
pub use crate::objective::aspect_ratios::AspectRatio;
pub use crate::objective::{Problem, Weight, Weights};
pub use crate::rect::{Pos, Rect, Size};
