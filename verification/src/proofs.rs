//! The lemmas behind the laws of the tick conversion.
//!
//! The laws themselves are stated in `tick_laws`. What they rest on is proved
//! here.
//!
//! - `powers` holds the ratios of the ticks against the exact powers of 1.0001,
//!   with `closeness` for the algebra of relative errors.
//! - `fine_ratio` continues the table of the ratios to sixteen bits below the
//!   tick; `fine_product` and `fine_shift` show that the fine ratios multiply,
//!   halve and square as powers do, up to a few units of the finest bit.
//! - `logarithm` holds the fraction of the logarithm against exact powers of
//!   two.
//! - `ratios` derives from them that the ratios of the ticks fall strictly.
//! - `refinements` follows a mantissa that two fine ratios bracket through the
//!   refinements of the logarithm; `window` applies that to the square-root
//!   price of a tick and finds its logarithm within what the two offsets of the
//!   conversion allow; `candidates` bounds the two candidate ticks.

pub mod arith;
pub mod candidates;
pub mod closeness;
pub mod fine_product;
pub mod fine_ratio;
pub mod fine_shift;
pub mod logarithm;
pub mod powers;
pub mod ratios;
pub mod refinements;
pub mod window;
