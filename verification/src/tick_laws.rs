//! Laws of the tick conversion, stated over its model.

use crate::proofs::candidates::lemma_floor_between_candidates;
use crate::proofs::closeness::lemma_close_widens;
use crate::proofs::powers::{lemma_ratio_against_power, lemma_reciprocal_against_power};
use crate::proofs::ratios::{
    lemma_narrow_round_up_ordered, lemma_ratio_at_least_min, lemma_ratio_at_max_tick,
    lemma_ratio_strictly_decreasing, lemma_ratio_upto_le_one, lemma_reciprocal_gap,
};
use crate::proofs::window::{
    lemma_floor_tick_exists, lemma_logarithm_monotone, lemma_tick_in_window,
};
use crate::tick_math::{
    max_sqrt_ratio, min_sqrt_ratio, narrow_round_up, price_in_domain, ratio_upto, spec_abs,
    spec_ratio, spec_ratio_of_tick, spec_sqrt_ratio_at_tick, spec_tick_at_sqrt_ratio,
    spec_tick_high, spec_tick_low, MAX_TICK, MIN_TICK,
};
use crate::wide::{lemma_pow2_values, pow2_128, pow2_256, pow2_96};
use vstd::arithmetic::power::{lemma_pow0, lemma_pow_positive, pow};
use vstd::prelude::*;

verus! {

/// The square-root price of tick zero is one, that is 2^96.
pub proof fn lemma_sqrt_ratio_at_zero()
    ensures
        spec_sqrt_ratio_at_tick(0) == pow2_96(),
{
    reveal_with_fuel(ratio_upto, 21);
    vstd::arithmetic::power2::lemma2_to64();
}

/// The square-root prices of the smallest and of the largest tick are the two
/// ends of the price domain.
pub proof fn lemma_sqrt_ratio_at_bounds()
    ensures
        spec_sqrt_ratio_at_tick(MIN_TICK as int) == min_sqrt_ratio(),
        spec_sqrt_ratio_at_tick(MAX_TICK as int) == max_sqrt_ratio(),
{
    lemma_ratio_at_max_tick();
    assert(spec_ratio_of_tick(MIN_TICK as int) == 0x1000276a221a17501nat);
    assert(spec_ratio_of_tick(MAX_TICK as int)
        == 0xfffd8963efd1fc6a506488495d951d5263988d25fa78259anat);
}

/// Strict monotonicity: of two ticks of the domain, the greater has the
/// greater square-root price.
pub proof fn lemma_sqrt_ratio_strictly_increasing(a: int, b: int)
    requires
        MIN_TICK <= a < b <= MAX_TICK,
    ensures
        spec_sqrt_ratio_at_tick(a) < spec_sqrt_ratio_at_tick(b),
{
    let ra = spec_ratio(spec_abs(a));
    let rb = spec_ratio(spec_abs(b));
    if b <= 0 {
        lemma_ratio_strictly_decreasing(spec_abs(b), spec_abs(a));
        lemma_narrow_round_up_ordered(ra, rb);
    } else if a >= 1 {
        lemma_ratio_strictly_decreasing(spec_abs(a), spec_abs(b));
        lemma_ratio_upto_le_one(spec_abs(a), 20);
        lemma_reciprocal_gap(ra, rb);
        lemma_narrow_round_up_ordered(spec_ratio_of_tick(a), spec_ratio_of_tick(b));
    } else {
        lemma_sqrt_ratio_at_zero();
        lemma_ratio_upto_le_one(spec_abs(a), 20);
        lemma_narrow_round_up_ordered(ra, pow2_128());
        assert(spec_ratio(0) == pow2_128()) by {
            reveal_with_fuel(ratio_upto, 21);
            vstd::arithmetic::power2::lemma2_to64();
        }
        lemma_ratio_strictly_decreasing(0, spec_abs(b));
        lemma_reciprocal_gap(pow2_128(), rb);
        assert((pow2_256() - 1) / (pow2_128() as int) == pow2_128() - 1);
        lemma_narrow_round_up_ordered(pow2_128(), spec_ratio_of_tick(b));
    }
}

/// Every tick of the domain has its square-root price between the two ends of
/// the price domain.
pub proof fn lemma_sqrt_ratio_in_bounds(tick: int)
    requires
        MIN_TICK <= tick <= MAX_TICK,
    ensures
        min_sqrt_ratio() <= spec_sqrt_ratio_at_tick(tick) <= max_sqrt_ratio(),
{
    lemma_sqrt_ratio_at_bounds();
    if MIN_TICK < tick {
        lemma_sqrt_ratio_strictly_increasing(MIN_TICK as int, tick);
    }
    if tick < MAX_TICK {
        lemma_sqrt_ratio_strictly_increasing(tick, MAX_TICK as int);
    }
}

/// Whether `tick` is the floor of `price`: the tick whose square-root price
/// does not exceed `price`, while that of the next tick does.
pub open spec fn is_floor_tick(price: nat, tick: int) -> bool {
    spec_sqrt_ratio_at_tick(tick) <= price < spec_sqrt_ratio_at_tick(tick + 1)
}

/// Of the ticks below the largest one, at most one is the floor of a price.
pub proof fn lemma_floor_tick_unique(price: nat, a: int, b: int)
    requires
        MIN_TICK <= a < MAX_TICK,
        MIN_TICK <= b < MAX_TICK,
        is_floor_tick(price, a),
        is_floor_tick(price, b),
    ensures
        a == b,
{
    if a < b {
        if a + 1 < b {
            lemma_sqrt_ratio_strictly_increasing(a + 1, b);
        }
    } else if b < a {
        if b + 1 < a {
            lemma_sqrt_ratio_strictly_increasing(b + 1, a);
        }
    }
}

/// Floor: the tick of a valid price is the tick whose square-root price does
/// not exceed the price, while that of the next tick does.
pub proof fn lemma_tick_is_floor(price: nat)
    requires
        price_in_domain(price),
    ensures
        MIN_TICK <= spec_tick_at_sqrt_ratio(price) < MAX_TICK,
        is_floor_tick(price, spec_tick_at_sqrt_ratio(price)),
{
    lemma_sqrt_ratio_at_bounds();
    lemma_pow2_values();
    let tick = lemma_floor_tick_exists(price, MIN_TICK as int);
    lemma_sqrt_ratio_in_bounds(tick);
    lemma_sqrt_ratio_in_bounds(tick + 1);
    lemma_tick_in_window(tick);
    lemma_logarithm_monotone(spec_sqrt_ratio_at_tick(tick), price);
    lemma_tick_in_window(tick + 1);
    lemma_logarithm_monotone(price, spec_sqrt_ratio_at_tick(tick + 1));
    assert(spec_tick_low(price) <= tick <= spec_tick_high(price));
    lemma_floor_between_candidates(price, tick);
}

/// Round trip: for every tick below the largest one, the tick of its
/// square-root price is the tick itself. (The square-root price of the largest
/// tick is the bound of the valid prices, and is no valid price.)
pub proof fn lemma_round_trip(tick: int)
    requires
        MIN_TICK <= tick < MAX_TICK,
    ensures
        price_in_domain(spec_sqrt_ratio_at_tick(tick)),
        spec_tick_at_sqrt_ratio(spec_sqrt_ratio_at_tick(tick)) == tick,
{
    let price = spec_sqrt_ratio_at_tick(tick);
    lemma_sqrt_ratio_in_bounds(tick);
    lemma_sqrt_ratio_at_bounds();
    lemma_sqrt_ratio_strictly_increasing(tick, tick + 1);
    if tick + 1 < MAX_TICK {
        lemma_sqrt_ratio_strictly_increasing(tick + 1, MAX_TICK as int);
    }
    lemma_tick_is_floor(price);
    lemma_floor_tick_unique(price, tick, spec_tick_at_sqrt_ratio(price));
}

/// Whether `x` is the fraction `numerator / denominator` up to one part in
/// 2^55 of it.
pub open spec fn is_nearly(x: int, numerator: int, denominator: int) -> bool {
    (0x10_0000_0000_0000_0000_0000_0000 - 0x2000_0000_0000) * numerator
        <= 0x10_0000_0000_0000_0000_0000_0000 * (x * denominator) <= (
    0x10_0000_0000_0000_0000_0000_0000 + 0x2000_0000_0000) * numerator
}

/// Whether `ratio` stands for `sqrt(1.0001^tick)` at scale 2^128: whether its
/// square is `1.0001^tick` at scale 2^256, up to one part in 2^55.
pub open spec fn is_ratio_of_tick(ratio: nat, tick: int) -> bool {
    let square = ratio as int * ratio as int;
    let one = pow2_128() as int * pow2_128() as int;
    if tick >= 0 {
        is_nearly(square, one * pow(10001, tick as nat), pow(10000, tick as nat))
    } else {
        is_nearly(square, one * pow(10000, (-tick) as nat), pow(10001, (-tick) as nat))
    }
}

/// What the model stands for: the ratio of every tick of the domain is
/// `sqrt(1.0001^tick)` at scale 2^128, up to half a part in 2^55. The
/// square-root price of the tick is that ratio, narrowed to scale 2^96 and
/// rounded up.
pub proof fn lemma_ratio_is_power(tick: int)
    requires
        MIN_TICK <= tick <= MAX_TICK,
    ensures
        is_ratio_of_tick(spec_ratio_of_tick(tick), tick),
        spec_sqrt_ratio_at_tick(tick) == narrow_round_up(spec_ratio_of_tick(tick)),
{
    let n = spec_abs(tick);
    let q = pow2_128() as int;
    let one = q * q;
    let ratio = spec_ratio_of_tick(tick);
    let square = ratio as int * ratio as int;
    if tick > 0 {
        let inverse = (pow2_256() - 1) / (spec_ratio(n) as int);
        lemma_reciprocal_against_power(n);
        lemma_ratio_at_least_min(n);
        assert(inverse >= 0) by (nonlinear_arith)
            requires
                inverse == (pow2_256() - 1) / (spec_ratio(n) as int),
                spec_ratio(n) > 0,
                pow2_256() - 1 >= 0,
        ;
        assert(ratio as int == inverse);
        assert(is_nearly(square, one * pow(10001, n), pow(10000, n)));
    } else {
        lemma_ratio_against_power(n);
        let r = spec_ratio(n) as int;
        lemma_pow_positive(10000, n);
        assert(one * pow(10000, n) >= 0) by (nonlinear_arith)
            requires
                pow(10000, n) > 0,
                one >= 0,
        ;
        lemma_close_widens(
            (r * r) * pow(10001, n),
            one * pow(10000, n),
            0x1000_0000_0000,
            0x2000_0000_0000,
        );
        assert(is_nearly(square, one * pow(10000, n), pow(10001, n)));
        if tick == 0 {
            lemma_pow0(10001);
            lemma_pow0(10000);
            assert(is_nearly(square, one * pow(10001, 0), pow(10000, 0)));
        }
    }
}

} // verus!
