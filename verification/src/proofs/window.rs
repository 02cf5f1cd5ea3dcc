//! The window of a tick: the logarithm of the square-root price of a tick
//! misses the tick by less than the two offsets of the conversion allow.
//!
//! The square-root price of a tick is measured against the fine ratios, which
//! brackets the mantissa of its logarithm; the refinements keep it bracketed;
//! and the two offsets are wide enough for what the brackets leave open.

use crate::log2::{
    lemma_mantissa_bounds, lemma_msb_brackets, lemma_msb_unique, log2_fraction, mantissa_after,
    mantissa_square, next_mantissa, spec_log2, spec_mantissa, spec_msb, square_bit,
};
use crate::proofs::fine_product::{lemma_mul_q128_brackets, mul_q128};
use crate::proofs::fine_ratio::{
    fine_ratio, lemma_fine_at_zero, lemma_fine_decreasing, lemma_fine_limit, lemma_fine_of_ticks,
    lemma_fine_successor,
};
use crate::proofs::fine_shift::{halving_span, lemma_fine_halvings, lemma_fine_sum_brackets};
use crate::proofs::ratios::{lemma_ratio_at_least_min, lemma_ratio_strictly_decreasing};
use crate::proofs::refinements::{
    above_fine, below_fine, lemma_fraction_brackets, lemma_log2_monotone,
};
use crate::tick_laws::{
    is_floor_tick, lemma_sqrt_ratio_at_bounds, lemma_sqrt_ratio_at_zero, lemma_sqrt_ratio_in_bounds,
};
use crate::tick_math::{
    log_sqrt10001_factor, max_sqrt_ratio, price_in_domain, spec_abs, spec_log_sqrt10001, spec_ratio,
    spec_ratio_of_tick, spec_sqrt_ratio_at_tick, tick_high_offset, tick_low_offset, MAX_TICK,
    MIN_TICK,
};
use crate::wide::{lemma_pow2_values, pow2_127, pow2_128, pow2_256, pow2_32, pow2_64};
use vstd::arithmetic::div_mod::lemma_fundamental_div_mod;
use vstd::arithmetic::power2::{
    lemma2_to64, lemma_pow2_adds, lemma_pow2_pos, lemma_pow2_strictly_increases, pow2,
};
use vstd::prelude::*;

verus! {

/// The square-root price of `tick`, shifted into Q128: what the logarithm is
/// taken of.
pub open spec fn shifted_price(tick: int) -> nat {
    spec_sqrt_ratio_at_tick(tick) * pow2_32()
}

/// The highest set bit of a number between 2^64 and 2^192 lies between 64 and
/// 191.
pub proof fn lemma_msb_range(x: nat)
    requires
        pow2_64() <= x < pow2(192),
    ensures
        64 <= spec_msb(x) <= 191,
        pow2(spec_msb(x)) <= x < pow2(spec_msb(x) + 1),
{
    let m = spec_msb(x);
    lemma_pow2_values();
    lemma_msb_brackets(x);
    if m < 64 {
        if m + 1 < 64 {
            lemma_pow2_strictly_increases(m + 1, 64);
        }
    }
    if m > 191 {
        if m > 192 {
            lemma_pow2_strictly_increases(192, m);
        }
    }
}

/// The shifted price of a tick below zero lies between the fine ratio of the
/// tick's magnitude and that of the exponent before it.
pub proof fn lemma_negative_price_brackets(tick: int)
    requires
        MIN_TICK <= tick < 0,
    ensures
        fine_ratio((-tick * 65536) as nat) <= shifted_price(tick) < fine_ratio(
            (-tick * 65536 - 1) as nat,
        ),
        pow2_64() <= shifted_price(tick) < pow2_128(),
{
    let n = (-tick) as nat;
    let exponent = (n * 65536) as nat;
    let ratio = spec_ratio(n);
    lemma_fine_of_ticks(n, 36);
    assert(fine_ratio(exponent) == ratio);
    lemma_ratio_at_least_min(n);
    lemma_fine_limit();
    lemma_fine_successor((exponent - 1) as nat);
    lemma_fine_decreasing(0, (exponent - 1) as nat);
    lemma_fine_at_zero();
    lemma_pow2_values();
    assert(spec_ratio_of_tick(tick) == ratio);
    assert(spec_abs(tick) == n);
}

/// The mantissa of the shifted price of a tick below zero is bracketed by the
/// fine ratios of the tick's magnitude, moved by one halving span for each bit
/// that the price lies below one.
pub proof fn lemma_negative_mantissa_brackets(tick: int)
    requires
        MIN_TICK <= tick < 0,
    ensures
        64 <= spec_msb(shifted_price(tick)) <= 127,
        ({
            let j = 127 - spec_msb(shifted_price(tick));
            let r0 = spec_mantissa(shifted_price(tick));
            &&& pow2_127() <= r0 < pow2_128()
            &&& below_fine(r0, -tick * 65536 - 1 - j * (halving_span() + 1))
            &&& above_fine(r0, -tick * 65536 - j * (halving_span() - 2))
        }),
{
    let x = shifted_price(tick);
    let m = spec_msb(x);
    let span = halving_span() as int;
    let exponent = (-tick * 65536) as nat;
    lemma_negative_price_brackets(tick);
    lemma_pow2_values();
    lemma_pow2_strictly_increases(128, 192);
    lemma_msb_range(x);
    if m >= 128 {
        if m > 128 {
            lemma_pow2_strictly_increases(128, m);
        }
    }
    let j = (127 - m) as nat;
    let w = pow2(j) as int;
    lemma_pow2_pos(j);
    lemma_mantissa_bounds(x);
    let r0 = spec_mantissa(x);
    assert(r0 == x * pow2(j));
    lemma_fine_limit();
    lemma_fine_at_zero();
    assert(j * (span + 1) <= 63 * (span + 1)) by (nonlinear_arith)
        requires
            0 <= j <= 63,
            span >= 0,
    ;
    assert(0 <= j * (span - 2) <= j * (span + 1)) by (nonlinear_arith)
        requires
            0 <= j,
            span >= 2,
    ;
    let lo = exponent - 1 - j * (span + 1);
    let hi = exponent - j * (span - 2);
    // From above: the ratio before the magnitude, doubled `j` times.
    if lo >= 0 {
        lemma_fine_halvings(lo as nat, j);
        let top = fine_ratio((exponent - 1) as nat) as int;
        assert(lo + j * (span + 1) == exponent - 1);
        assert(x * w <= top * w) by (nonlinear_arith)
            requires
                x <= top,
                w >= 0,
        ;
        assert(w * top == top * w) by (nonlinear_arith);
    }
    // From below: the ratio of the magnitude, doubled `j` times.
    lemma_fine_halvings(0, j);
    if hi < 0 {
        // The ratio of the magnitude would exceed the ratio that doubles to one.
        lemma_fine_decreasing(exponent, (j * (span - 2)) as nat);
        let small = fine_ratio((j * (span - 2)) as nat) as int;
        let at = fine_ratio(exponent) as int;
        assert(w * small < x * w) by (nonlinear_arith)
            requires
                small < at,
                at <= x,
                w > 0,
        ;
        assert(false);
    }
    lemma_fine_halvings(hi as nat, j);
    let at = fine_ratio(exponent) as int;
    assert(hi + j * (span - 2) == exponent);
    assert(w * at <= x * w) by (nonlinear_arith)
        requires
            at <= x,
            w >= 0,
    ;
}

/// Whether the logarithm of the square-root price of `tick` lies in the window
/// that the two offsets of the conversion leave around the tick.
pub open spec fn logarithm_in_window(tick: int) -> bool {
    let log = spec_log_sqrt10001(spec_sqrt_ratio_at_tick(tick));
    tick * pow2_128() - tick_high_offset() <= log < tick * pow2_128()
        + tick_low_offset()
}

/// The window from bounds on the binary logarithm: where the binary logarithm
/// of a shifted price, times the halving span, lies within `2^64 * 200` above
/// and one span at scale 2^50 plus `2^64 * 200` below `2^80` times the tick,
/// the logarithm to base `sqrt(1.0001)` lies in the window of the tick.
pub proof fn lemma_window_from_bounds(tick: int, log2: int)
    requires
        MIN_TICK <= tick <= MAX_TICK,
        log2 * halving_span() <= 0x1_0000_0000_0000_0000_0000 * tick + pow2_64() * 200,
        log2 * halving_span() >= 0x1_0000_0000_0000_0000_0000 * tick - pow2_64() * 200
            - 0x4_0000_0000_0000 * halving_span(),
    ensures
        tick * pow2_128() - tick_high_offset() <= log2
            * log_sqrt10001_factor() < tick * pow2_128()
            + tick_low_offset(),
{
    let span = halving_span() as int;
    let factor = log_sqrt10001_factor();
    let log = log2 * factor;
    let scaled = log2 * span;
    assert(log * span == scaled * factor) by (nonlinear_arith)
        requires
            log == log2 * factor,
            scaled == log2 * span,
    ;
    let upper = 0x1_0000_0000_0000_0000_0000 * tick + pow2_64() * 200;
    let lower = 0x1_0000_0000_0000_0000_0000 * tick - pow2_64() * 200 - 0x4_0000_0000_0000
        * span;
    assert(scaled * factor <= upper * factor) by (nonlinear_arith)
        requires
            scaled <= upper,
            factor >= 0,
    ;
    assert(scaled * factor >= lower * factor) by (nonlinear_arith)
        requires
            scaled >= lower,
            factor >= 0,
    ;
    let top = tick * pow2_128() + tick_low_offset();
    let bottom = tick * pow2_128() - tick_high_offset();
    assert(upper * factor < top * span);
    assert(lower * factor >= bottom * span);
    assert(log < top) by (nonlinear_arith)
        requires
            log * span < top * span,
            span > 0,
    ;
    assert(log >= bottom) by (nonlinear_arith)
        requires
            log * span >= bottom * span,
            span > 0,
    ;
}

/// The logarithm of the square-root price of a tick below zero lies in the
/// window of the tick.
pub proof fn lemma_negative_tick_in_window(tick: int)
    requires
        MIN_TICK <= tick < 0,
    ensures
        logarithm_in_window(tick),
{
    let x = shifted_price(tick);
    let m = spec_msb(x) as int;
    let j = 127 - m;
    let r0 = spec_mantissa(x);
    let span = halving_span() as int;
    let lo = -tick * 65536 - 1 - j * (span + 1);
    let hi = -tick * 65536 - j * (span - 2);
    lemma_negative_mantissa_brackets(tick);
    let js = j * span;
    assert(j * (span + 1) == js + j && j * (span - 2) == js - 2 * j) by (nonlinear_arith)
        requires
            js == j * span,
    ;
    lemma_fraction_brackets(r0, lo, hi);
    lemma_pow2_values();
    let fraction = log2_fraction(r0, 14) as int;
    let log2 = spec_log2(x);
    let one = pow2_64() as int;
    assert(log2 == (m - 128) * one + fraction);
    assert(log2 * span == fraction * span - one * js - one * span) by (nonlinear_arith)
        requires
            log2 == (m - 128) * one + fraction,
            m - 128 == -j - 1,
            js == j * span,
    ;
    assert(one * (span - lo) == one * span - one * lo) by (nonlinear_arith);
    assert(one * (span - hi) == one * span - one * hi) by (nonlinear_arith);
    lemma_window_from_bounds(tick, log2);
}

/// The reciprocal of the ratio of a tick above zero, and the shifted price
/// that comes of it: the price lies between the reciprocal and 2^32 above it,
/// and between 2^128 and 2^192.
pub proof fn lemma_positive_price_brackets(tick: int)
    requires
        0 < tick <= MAX_TICK,
    ensures
        ({
            let ratio = spec_ratio(tick as nat) as int;
            let inverse = (pow2_256() - 1) / ratio;
            &&& ratio == fine_ratio((tick * 65536) as nat)
            &&& pow2_64() < ratio < pow2_128()
            &&& inverse <= shifted_price(tick) < inverse + pow2_32()
            &&& pow2_256() - ratio <= inverse * ratio < pow2_256()
            &&& pow2_128() <= shifted_price(tick) < pow2(192)
        }),
{
    let n = tick as nat;
    let ratio = spec_ratio(n) as int;
    let total = pow2_256() - 1;
    let inverse = total / ratio;
    lemma_fine_of_ticks(n, 36);
    lemma_ratio_at_least_min(n);
    lemma_ratio_strictly_decreasing(0, n);
    lemma_fine_of_ticks(0, 36);
    lemma_fine_at_zero();
    lemma_pow2_values();
    assert(spec_abs(tick) == n);
    assert(spec_ratio_of_tick(tick) == inverse);
    lemma_fundamental_div_mod(total, ratio);
    assert(inverse * ratio == ratio * inverse) by (nonlinear_arith);
    lemma_sqrt_ratio_in_bounds(tick);
    let q = pow2_128() as int;
    assert(inverse >= q) by (nonlinear_arith)
        requires
            total == ratio * inverse + total % ratio,
            0 <= total % ratio < ratio,
            0 < ratio < q,
            total == q * q - 1,
    ;
}

/// The mantissa of the shifted price of a tick above zero is bracketed by the
/// fine ratios of the halving spans that the price lies above one, less the
/// tick.
pub proof fn lemma_positive_mantissa_brackets(tick: int)
    requires
        0 < tick <= MAX_TICK,
    ensures
        128 <= spec_msb(shifted_price(tick)) <= 191,
        ({
            let j = spec_msb(shifted_price(tick)) - 127;
            let r0 = spec_mantissa(shifted_price(tick));
            &&& pow2_127() <= r0 < pow2_128()
            &&& below_fine(r0, j * (halving_span() - 2) - 2 - tick * 65536)
            &&& above_fine(r0, j * (halving_span() + 1) + 2 - tick * 65536)
        }),
{
    let x = shifted_price(tick) as int;
    let m = spec_msb(shifted_price(tick));
    let span = halving_span() as int;
    let exponent = (tick * 65536) as nat;
    let ratio = spec_ratio(tick as nat) as int;
    let inverse = (pow2_256() - 1) / ratio;
    let q = pow2_128() as int;
    lemma_positive_price_brackets(tick);
    lemma_pow2_values();
    lemma_msb_range(shifted_price(tick));
    if m < 128 {
        lemma_pow2_strictly_increases(m + 1, 128 + 1);
        lemma_pow2_adds(128, 1);
        if m + 1 < 128 {
            lemma_pow2_strictly_increases(m + 1, 128);
        }
    }
    let j = (m - 127) as nat;
    let w = pow2(j) as int;
    lemma_pow2_pos(j);
    if j < 64 {
        lemma_pow2_strictly_increases(j, 64);
    }
    lemma_pow2_adds(127, j);
    lemma_pow2_adds(128, j);
    lemma_mantissa_bounds(shifted_price(tick));
    let r0 = spec_mantissa(shifted_price(tick)) as int;
    assert(r0 == x / w);
    lemma_fundamental_div_mod(x, w);
    assert(r0 * w <= x < r0 * w + w) by (nonlinear_arith)
        requires
            x == w * r0 + x % w,
            0 <= x % w < w,
    ;
    assert(x < q * w);
    lemma_fine_limit();
    lemma_fine_at_zero();
    assert(j * (span + 1) <= 64 * (span + 1)) by (nonlinear_arith)
        requires
            0 <= j <= 64,
            span >= 0,
    ;
    assert(span - 2 <= j * (span - 2) <= j * (span + 1)) by (nonlinear_arith)
        requires
            1 <= j,
            span >= 2,
    ;
    lemma_fine_halvings(0, j);
    let above_one = fine_ratio((j * (span - 2)) as nat) as int;
    let below_one = fine_ratio((j * (span + 1)) as nat) as int;
    assert(w * below_one <= q);
    assert(q <= w * above_one);
    let lo = j * (span - 2) - 2 - exponent;
    let hi = j * (span + 1) + 2 - exponent;
    // From above.
    if lo >= 0 {
        let c = (j * (span - 2) - 1) as nat;
        lemma_fine_sum_brackets(lo as nat, exponent);
        assert(lo + exponent + 1 == c);
        lemma_fine_successor(c);
        let at = fine_ratio(lo as nat) as int;
        let product = mul_q128(fine_ratio(lo as nat), fine_ratio(exponent)) as int;
        let fc = fine_ratio(c) as int;
        lemma_mul_q128_brackets(fine_ratio(lo as nat), fine_ratio(exponent));
        let gap = fc - above_one;
        assert(w * gap >= 0x1_0000_0000_0000_0000_0000_0000) by (nonlinear_arith)
            requires
                0x8000_0000 * gap + 0x8000_0000 * 36 >= fc,
                fc >= above_one,
                gap == fc - above_one,
                q <= w * above_one,
                1 <= w <= 0x1_0000_0000_0000_0000,
                q == 0x1_0000_0000_0000_0000_0000_0000_0000_0000,
        ;
        if at < r0 {
            assert(at * w + w <= x) by (nonlinear_arith)
                requires
                    at + 1 <= r0,
                    r0 * w <= x,
                    w > 0,
            ;
            assert(at * w * ratio < q * q + pow2_32() * q) by (nonlinear_arith)
                requires
                    at * w + w <= x,
                    x < inverse + pow2_32(),
                    inverse * ratio < q * q,
                    0 < ratio < q,
                    w > 0,
            ;
            assert(at * w * ratio >= q * q + 0x1_0000_0000_0000_0000_0000_0000 * q)
                by (nonlinear_arith)
                requires
                    product * q <= at * ratio,
                    fc <= product,
                    fc == above_one + gap,
                    q <= w * above_one,
                    w * gap >= 0x1_0000_0000_0000_0000_0000_0000,
                    w > 0,
                    q > 0,
            ;
            assert(false);
        }
    }
    // From below.
    if hi < 0 {
        lemma_fine_decreasing((j * (span + 1)) as nat, exponent);
        assert(ratio + 0x10_0000 <= below_one);
        assert(w * ratio + 0x10_0000 * w <= q) by (nonlinear_arith)
            requires
                ratio + 0x10_0000 <= below_one,
                w * below_one <= q,
                w > 0,
        ;
        assert(inverse * ratio < q * q - q) by (nonlinear_arith)
            requires
                inverse <= x,
                x < q * w,
                w * ratio + 0x10_0000 * w <= q,
                w >= 1,
                ratio > 0,
                q > 0,
        ;
        assert(false);
    }
    let c = (j * (span + 1) + 1) as nat;
    lemma_fine_sum_brackets(hi as nat, exponent);
    assert(hi + exponent - 1 == c);
    lemma_fine_successor((c - 1) as nat);
    let at = fine_ratio(hi as nat) as int;
    let product = mul_q128(fine_ratio(hi as nat), fine_ratio(exponent)) as int;
    let fc = fine_ratio(c) as int;
    lemma_mul_q128_brackets(fine_ratio(hi as nat), fine_ratio(exponent));
    if at > r0 {
        assert(x < at * w) by (nonlinear_arith)
            requires
                x < r0 * w + w,
                r0 + 1 <= at,
                w > 0,
        ;
        assert(at * ratio * w < q * q - q) by (nonlinear_arith)
            requires
                at * ratio < product * q + q,
                product <= fc,
                fc + 0x10_0000 <= below_one,
                w * below_one <= q,
                w >= 1,
                q > 0,
        ;
        assert(inverse * ratio < q * q - q) by (nonlinear_arith)
            requires
                inverse <= x,
                x < at * w,
                at * ratio * w < q * q - q,
                ratio > 0,
        ;
        assert(false);
    }
}

/// The logarithm of the square-root price of a tick above zero lies in the
/// window of the tick.
pub proof fn lemma_positive_tick_in_window(tick: int)
    requires
        0 < tick <= MAX_TICK,
    ensures
        logarithm_in_window(tick),
{
    let x = shifted_price(tick);
    let m = spec_msb(x) as int;
    let j = m - 127;
    let r0 = spec_mantissa(x);
    let span = halving_span() as int;
    let lo = j * (span - 2) - 2 - tick * 65536;
    let hi = j * (span + 1) + 2 - tick * 65536;
    lemma_positive_mantissa_brackets(tick);
    let js = j * span;
    assert(j * (span + 1) == js + j && j * (span - 2) == js - 2 * j) by (nonlinear_arith)
        requires
            js == j * span,
    ;
    lemma_fraction_brackets(r0, lo, hi);
    lemma_pow2_values();
    let fraction = log2_fraction(r0, 14) as int;
    let log2 = spec_log2(x);
    let one = pow2_64() as int;
    assert(log2 == (m - 128) * one + fraction);
    assert(log2 * span == fraction * span + one * js - one * span) by (nonlinear_arith)
        requires
            log2 == (m - 128) * one + fraction,
            m - 128 == j - 1,
            js == j * span,
    ;
    assert(one * (span - lo) == one * span - one * lo) by (nonlinear_arith);
    assert(one * (span - hi) == one * span - one * hi) by (nonlinear_arith);
    lemma_window_from_bounds(tick, log2);
}

/// A mantissa of exactly one stays one under refinement, and all its bits are
/// clear.
pub proof fn lemma_fraction_of_one(n: nat)
    ensures
        mantissa_after(pow2_127(), n) == pow2_127(),
        log2_fraction(pow2_127(), n) == 0,
    decreases n,
{
    lemma2_to64();
    if n > 0 {
        lemma_fraction_of_one((n - 1) as nat);
        let one = pow2_127();
        assert(one * one / one == one) by (nonlinear_arith)
            requires
                one > 0,
        ;
        assert(mantissa_square(one) == one);
        assert(square_bit(one) == 0);
        assert(next_mantissa(one) == one);
        assert(0 * pow2((64 - n) as nat) == 0) by (nonlinear_arith);
    }
}

/// The logarithm of the square-root price of tick zero is zero.
pub proof fn lemma_zero_tick_in_window()
    ensures
        spec_log_sqrt10001(spec_sqrt_ratio_at_tick(0)) == 0,
        logarithm_in_window(0),
{
    lemma_sqrt_ratio_at_zero();
    lemma_pow2_values();
    lemma_pow2_adds(128, 1);
    lemma2_to64();
    lemma_msb_unique(pow2_128(), 128);
    lemma_fraction_of_one(14);
    assert(shifted_price(0) == pow2_128());
    assert(spec_msb(pow2_128()) == 128);
    assert(pow2(1) == 2);
    assert(pow2_128() / 2 == pow2_127());
    assert(spec_mantissa(pow2_128()) == pow2_128() / pow2(1));
    assert(spec_mantissa(pow2_128()) == pow2_127());
    assert(spec_log2(pow2_128()) == 0);
}

/// The logarithm of the square-root price of every tick of the domain lies in
/// the window that the two offsets of the conversion leave around the tick.
pub proof fn lemma_tick_in_window(tick: int)
    requires
        MIN_TICK <= tick <= MAX_TICK,
    ensures
        logarithm_in_window(tick),
{
    if tick < 0 {
        lemma_negative_tick_in_window(tick);
    } else if tick == 0 {
        lemma_zero_tick_in_window();
    } else {
        lemma_positive_tick_in_window(tick);
    }
}

/// The logarithm to base `sqrt(1.0001)` is monotone in the price.
pub proof fn lemma_logarithm_monotone(low: nat, high: nat)
    requires
        1 <= low <= high <= max_sqrt_ratio(),
    ensures
        spec_log_sqrt10001(low) <= spec_log_sqrt10001(high),
{
    lemma_pow2_values();
    lemma_log2_monotone(low * pow2_32(), high * pow2_32());
    let a = spec_log2(low * pow2_32());
    let b = spec_log2(high * pow2_32());
    let factor = log_sqrt10001_factor();
    assert(a * factor <= b * factor) by (nonlinear_arith)
        requires
            a <= b,
            factor >= 0,
    ;
}

/// Every valid price has a floor tick: from a tick whose square-root price does
/// not exceed the price, the ticks are walked upwards until the next one
/// exceeds it.
pub proof fn lemma_floor_tick_exists(price: nat, from: int) -> (tick: int)
    requires
        price_in_domain(price),
        MIN_TICK <= from < MAX_TICK,
        spec_sqrt_ratio_at_tick(from) <= price,
    ensures
        from <= tick < MAX_TICK,
        is_floor_tick(price, tick),
    decreases MAX_TICK - from,
{
    lemma_sqrt_ratio_at_bounds();
    if price < spec_sqrt_ratio_at_tick(from + 1) {
        from
    } else {
        lemma_floor_tick_exists(price, from + 1)
    }
}

} // verus!
