//! The two candidate ticks of a valid price.

use crate::log2::{
    lemma_fraction_bounds, lemma_mantissa_bounds, lemma_msb_brackets, spec_log2, spec_mantissa,
    spec_msb,
};
use crate::tick_laws::is_floor_tick;
use crate::tick_math::{
    price_in_domain, spec_log_sqrt10001, spec_tick_at_sqrt_ratio, spec_tick_high, spec_tick_low,
    MAX_TICK, MIN_TICK,
};
use crate::wide::{lemma_pow2_values, pow2_128, pow2_32, pow2_64};
use vstd::arithmetic::power2::lemma_pow2_strictly_increases;
use vstd::prelude::*;

verus! {

/// The binary logarithm of a valid price lies between -64 and 64 at scale
/// 2^64.
pub proof fn lemma_log2_bounds(price: nat)
    requires
        price_in_domain(price),
    ensures
        64 <= spec_msb(price * pow2_32()) < 192,
        -64 * pow2_64() <= spec_log2(price * pow2_32()) <= 64 * pow2_64() - 0x4_0000_0000_0000,
{
    let ratio = price * pow2_32();
    let m = spec_msb(ratio);
    lemma_pow2_values();
    lemma_msb_brackets(ratio);
    lemma_mantissa_bounds(ratio);
    if m < 64 {
        if m + 1 < 64 {
            lemma_pow2_strictly_increases(m + 1, 64);
        }
    }
    if m >= 192 {
        if m > 192 {
            lemma_pow2_strictly_increases(192, m);
        }
    }
    lemma_fraction_bounds(spec_mantissa(ratio), 14);
    vstd::arithmetic::power2::lemma2_to64_rest();
    assert((m - 128) * pow2_64() >= -64 * pow2_64()) by (nonlinear_arith)
        requires
            m >= 64,
    ;
    assert((m - 128) * pow2_64() <= 63 * pow2_64()) by (nonlinear_arith)
        requires
            m <= 191,
    ;
}

/// The two candidate ticks of a valid price are at most one apart, the upper
/// one is a tick of the domain, and the lower one is below the largest tick.
pub proof fn lemma_candidate_bounds(price: nat)
    requires
        price_in_domain(price),
    ensures
        spec_tick_low(price) <= spec_tick_high(price) <= spec_tick_low(price) + 1,
        MIN_TICK <= spec_tick_high(price) <= MAX_TICK,
        spec_tick_low(price) < MAX_TICK,
        -pow2_64() * pow2_128() < spec_log_sqrt10001(price) < pow2_64() * pow2_128(),
{
    lemma_log2_bounds(price);
}

/// Where the floor of a valid price lies between its two candidate ticks, the
/// conversion returns that floor.
pub proof fn lemma_floor_between_candidates(price: nat, tick: int)
    requires
        price_in_domain(price),
        MIN_TICK <= tick < MAX_TICK,
        is_floor_tick(price, tick),
        spec_tick_low(price) <= tick <= spec_tick_high(price),
    ensures
        spec_tick_at_sqrt_ratio(price) == tick,
{
    lemma_candidate_bounds(price);
}

} // verus!
