//! Error type of the tick conversions.

use vstd::prelude::*;

verus! {

/// Failures of the tick conversions.
#[derive(Debug, Clone, Copy, PartialEq, Eq, Structural)]
pub enum TickMathError {
    /// The tick lies outside `[-887272, 887272]`; the value is the tick given.
    InvalidTick(i32),
    /// The square-root price lies outside `[MIN_SQRT_RATIO, MAX_SQRT_RATIO)`,
    /// or its representation is wider than 160 bits.
    SqrtRatioOutOfBounds,
}

} // verus!
