//! Exact fractions and the fixed-point scale for configuration scalars.
//!
//! Objective scores are exact integer fractions in `[0, 1]`. Configuration
//! scalars (weights, area ratios, aspect ratios) are fixed-point numbers: an
//! integer numerator over the constant denominator [`UNIT`], so a scalar
//! written as the decimal `1.5` is stored as `150_000`.

use vstd::prelude::*;

verus! {

/// The fixed-point denominator of configuration scalars: a scalar with
/// numerator `n` has value `n / UNIT`.
pub const UNIT: usize = 100_000;

/// An exact non-negative fraction `num / den`.
///
/// Objective scores use the objective's worst case as the denominator, so a
/// score of `1` (worst) has `num == den` and a score of `0` (best) has
/// `num == 0`.
#[derive(Clone, Copy, Debug, PartialEq, Eq, Hash, Structural)]
pub struct Frac {
    pub num: usize,
    pub den: usize,
}

impl Frac {
    pub fn new(num: usize, den: usize) -> (r: Frac)
        ensures
            r == (Frac { num, den }),
    {
        Frac { num, den }
    }

    /// The fraction `0 / 1`.
    pub fn zero() -> (r: Frac)
        ensures
            r == (Frac { num: 0, den: 1 }),
    {
        Frac { num: 0, den: 1 }
    }

    /// The fraction `1 / 1`.
    pub fn one() -> (r: Frac)
        ensures
            r == (Frac { num: 1, den: 1 }),
    {
        Frac { num: 1, den: 1 }
    }

    /// The fraction's value is zero.
    pub fn is_zero(&self) -> (r: bool)
        ensures
            r == (self.num == 0),
    {
        self.num == 0
    }

    /// The fraction's value is one (for a fraction with `num <= den`,
    /// `den > 0`).
    pub fn is_one(&self) -> (r: bool)
        ensures
            r == (self.num == self.den),
    {
        self.num == self.den
    }
}

/// Why a configuration scalar was rejected at construction.
#[derive(Clone, Copy, Debug, PartialEq, Eq, Structural)]
pub enum InvalidScalarError {
    /// The fixed-point numerator is below the scalar's lower bound.
    TooLow { value: usize, lower: usize },
}

} // verus!
