//! Conversions between ticks and Q64.96 square-root prices for
//! concentrated-liquidity pools, carried out in exact integer arithmetic.
//!
//! `tick_math` holds the two conversions and their model, `log2` the
//! fixed-point logarithm that the second conversion is built on, and `wide`
//! the wide integers. `tick_laws` holds what is proved of the conversions: that
//! the ratio of a tick is the power of 1.0001 that it stands for, that prices
//! grow strictly with the tick, that the tick of a price is its floor, and that
//! a tick comes back from its own price; `log2_laws` holds what is proved of
//! the logarithm. `address_utils` formats checksummed addresses.

pub mod address_utils;
pub mod bigint;
pub mod errors;
pub mod log2;
pub mod log2_laws;
mod proofs;
pub mod tick_laws;
pub mod tick_math;
pub mod wide;

pub use address_utils::to_checksum_address_native;
pub use tick_math::{get_sqrt_ratio_at_tick_alloy, get_tick_at_sqrt_ratio_alloy};
