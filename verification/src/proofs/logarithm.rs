//! The fraction of the logarithm against exact powers: after `n` refinements,
//! the mantissa at scale 2^127 raised to the power `2^n` is the latest mantissa
//! times two to the power of the bits found so far.

use crate::log2::{
    lemma_fraction_bounds, lemma_refinement_bounds, log2_fraction, mantissa_after, mantissa_square,
    next_mantissa, square_bit,
};
use crate::log2_laws::fraction_bits;
use crate::proofs::closeness::{
    close, lemma_close_chains, lemma_close_products, lemma_close_scaled, lemma_products_regroup,
    parts,
};
use crate::wide::{pow2_127, pow2_128};
use vstd::arithmetic::div_mod::lemma_fundamental_div_mod;
use vstd::arithmetic::power2::{
    lemma2_to64, lemma_pow2_adds, lemma_pow2_pos, lemma_pow2_unfold, pow2,
};
use vstd::arithmetic::power::{lemma_pow1, lemma_pow_adds, pow};
use vstd::prelude::*;

verus! {

/// The fraction at scale 2^64 is its bits, shifted to their place.
pub proof fn lemma_fraction_in_bits(r0: nat, n: nat)
    requires
        pow2_127() <= r0 < pow2_128(),
        n <= 64,
    ensures
        log2_fraction(r0, n) == fraction_bits(r0, n) * pow2((64 - n) as nat),
        fraction_bits(r0, n) < pow2(n),
    decreases n,
{
    lemma2_to64();
    if n > 0 {
        let prev = (n - 1) as nat;
        lemma_fraction_in_bits(r0, prev);
        lemma_fraction_bounds(r0, prev);
        lemma_refinement_bounds(mantissa_after(r0, prev));
        lemma_pow2_unfold((64 - prev) as nat);
        lemma_pow2_unfold(n);
        let w = pow2((64 - n) as nat);
        let b = fraction_bits(r0, prev);
        let bit = square_bit(mantissa_after(r0, prev));
        assert((2 * b + bit) * w == b * (2 * w) + bit * w) by (nonlinear_arith);
    } else {
        assert(0 * pow2(64) == 0) by (nonlinear_arith);
    }
}

/// What the mantissa is multiplied by after `n` refinements: two to the power
/// of the bits, and one scale of 2^127 for each squaring and each factor but
/// the last.
pub open spec fn power_scale(r0: nat, n: nat) -> int
    decreases n,
{
    if n == 0 {
        1
    } else {
        let prev = power_scale(r0, (n - 1) as nat);
        (prev * prev) * (pow2_127() * pow2(square_bit(mantissa_after(r0, (n - 1) as nat))))
    }
}

/// The error of the power after `n` refinements, in parts of 2^100.
pub open spec fn power_error(n: nat) -> int
    decreases n,
{
    if n == 0 {
        0
    } else {
        2 * power_error((n - 1) as nat) + 3
    }
}

/// The error of the power stays below 2^17 parts for fourteen refinements.
pub proof fn lemma_power_error_bounded(n: nat)
    requires
        n <= 14,
    ensures
        0 <= power_error(n) <= 4 * pow2(n) - 3,
        power_error(n) <= 0x1_0000,
    decreases n,
{
    lemma2_to64();
    if n > 0 {
        lemma_power_error_bounded((n - 1) as nat);
        lemma_pow2_unfold(n);
    }
    if n < 14 {
        vstd::arithmetic::power2::lemma_pow2_strictly_increases(n, 14);
    }
}

/// The square of a mantissa against the next one: the next mantissa at the
/// scale of the squaring does not exceed the square, and is it up to one part.
pub proof fn lemma_square_against_next(r: nat)
    requires
        pow2_127() <= r < pow2_128(),
    ensures
        ({
            let scaled = next_mantissa(r) as int * (pow2_127() * pow2(square_bit(r))) as int;
            &&& scaled <= r * r
            &&& close(r as int * r as int, scaled, 1)
        }),
{
    let h = pow2_127() as int;
    let sq = (r * r) as int;
    let s = mantissa_square(r) as int;
    let bit = square_bit(r);
    let next = next_mantissa(r) as int;
    let m = parts();
    lemma_refinement_bounds(r);
    lemma2_to64();
    lemma_fundamental_div_mod(sq, h);
    assert(s * h <= sq < s * h + h) by (nonlinear_arith)
        requires
            sq == h * s + sq % h,
            0 <= sq % h < h,
    ;
    let w = pow2(bit) as int;
    assert(w == 1 || w == 2);
    lemma_fundamental_div_mod(s, w);
    assert(next * w <= s < next * w + w) by (nonlinear_arith)
        requires
            s == w * next + s % w,
            0 <= s % w < w,
    ;
    let scaled = next * (h * w);
    assert(scaled <= sq && sq < scaled + 3 * h) by (nonlinear_arith)
        requires
            scaled == next * (h * w),
            s * h <= sq < s * h + h,
            next * w <= s < next * w + w,
            1 <= w <= 2,
            h > 0,
    ;
    assert(m * (3 * h) <= scaled) by (nonlinear_arith)
        requires
            scaled == next * (h * w),
            next >= h,
            w >= 1,
            h == 0x8000_0000_0000_0000_0000_0000_0000_0000,
            m == 0x10_0000_0000_0000_0000_0000_0000,
    ;
}

/// After `n` refinements, the mantissa raised to the power `2^n` is the latest
/// mantissa times the scale of the power, from above exactly and from below up
/// to the error of the power.
pub proof fn lemma_mantissa_power_upto(r0: nat, n: nat)
    requires
        pow2_127() <= r0 < pow2_128(),
        n <= 14,
    ensures
        ({
            let power = pow(r0 as int, pow2(n));
            let latest = mantissa_after(r0, n) as int * power_scale(r0, n);
            &&& power_scale(r0, n) > 0
            &&& latest <= power
            &&& close(power, latest, power_error(n))
        }),
    decreases n,
{
    lemma2_to64();
    if n == 0 {
        lemma_pow1(r0 as int);
    } else {
        let prev = (n - 1) as nat;
        lemma_mantissa_power_upto(r0, prev);
        lemma_power_error_bounded(prev);
        lemma_fraction_bounds(r0, prev);
        lemma_fraction_bounds(r0, n);
        let r = mantissa_after(r0, prev);
        let next = mantissa_after(r0, n) as int;
        let k = power_scale(r0, prev);
        let p = pow(r0 as int, pow2(prev));
        let e = power_error(prev);
        let step = (pow2_127() * pow2(square_bit(r))) as int;
        lemma_pow2_unfold(n);
        lemma_pow_adds(r0 as int, pow2(prev), pow2(prev));
        lemma_square_against_next(r);
        lemma_pow2_pos(square_bit(r));
        let ri = r as int;
        let latest = ri * k;
        assert(step > 0) by (nonlinear_arith)
            requires
                step == (pow2_127() * pow2(square_bit(r))) as int,
                pow2_127() > 0,
                pow2(square_bit(r)) > 0,
        ;
        assert((k * k) * step > 0) by (nonlinear_arith)
            requires
                k > 0,
                step > 0,
        ;
        // From above: the squares, and the next mantissa below the square.
        assert(latest * latest <= p * p) by (nonlinear_arith)
            requires
                0 <= latest <= p,
        ;
        lemma_products_regroup(ri, k, ri, k);
        assert((next * step) * (k * k) <= (ri * ri) * (k * k)) by (nonlinear_arith)
            requires
                next * step <= ri * ri,
                k * k >= 0,
        ;
        assert((next * step) * (k * k) == next * ((k * k) * step)) by (nonlinear_arith);
        // From below: the power against the square of what it was close to.
        assert(latest >= 0 && p >= 0);
        lemma_close_products(p, latest, e, p, latest, e);
        lemma_close_scaled(ri * ri, next * step, 1, k * k);
        assert(next * ((k * k) * step) >= 0) by (nonlinear_arith)
            requires
                next >= 0,
                (k * k) * step > 0,
        ;
        lemma_close_chains(
            p * p,
            (ri * ri) * (k * k),
            2 * e + 1,
            next * ((k * k) * step),
            1,
        );
    }
}

/// The scale of the power after `n` refinements is two to the power of the
/// bits, times 2^127 to the power `2^n - 1`.
pub proof fn lemma_power_scale(r0: nat, n: nat)
    requires
        pow2_127() <= r0 < pow2_128(),
        n <= 14,
    ensures
        power_scale(r0, n) * pow2_127() == pow2(fraction_bits(r0, n)) * pow(
            pow2_127() as int,
            pow2(n),
        ),
    decreases n,
{
    let h = pow2_127() as int;
    lemma2_to64();
    if n == 0 {
        lemma_pow1(h);
    } else {
        let prev = (n - 1) as nat;
        lemma_power_scale(r0, prev);
        lemma_fraction_bounds(r0, prev);
        lemma_refinement_bounds(mantissa_after(r0, prev));
        let k = power_scale(r0, prev);
        let b = fraction_bits(r0, prev);
        let bit = square_bit(mantissa_after(r0, prev));
        let u = pow(h, pow2(prev));
        lemma_pow2_unfold(n);
        lemma_pow_adds(h, pow2(prev), pow2(prev));
        lemma_pow2_adds(b, b);
        lemma_pow2_adds(2 * b, bit);
        let w = pow2(b) as int;
        let v = pow2(bit) as int;
        // (k h)^2 = (w u)^2, and the scale of the step is h v.
        lemma_products_regroup(k, h, k, h);
        lemma_products_regroup(w, u, w, u);
        assert(((k * k) * (h * v)) * h == ((k * k) * (h * h)) * v) by (nonlinear_arith);
        assert(((w * w) * (u * u)) * v == ((w * w) * v) * (u * u)) by (nonlinear_arith);
    }
}

/// The mantissa at scale 2^127, raised to the power 2^14, lies between two to
/// the power of the fourteen bits and two to the power of the bits and one,
/// the latter up to 2^17 parts.
pub proof fn lemma_mantissa_power(r0: nat)
    requires
        pow2_127() <= r0 < pow2_128(),
    ensures
        ({
            let bits = fraction_bits(r0, 14);
            let unit = pow(pow2_127() as int, 16384);
            &&& pow2(bits) * unit <= pow(r0 as int, 16384)
            &&& parts() * pow(r0 as int, 16384) <= (parts() + 0x2_0000) * (pow2(bits + 1) * unit)
        }),
{
    let h = pow2_127() as int;
    let bits = fraction_bits(r0, 14);
    let unit = pow(h, 16384);
    let power = pow(r0 as int, 16384);
    let k = power_scale(r0, 14);
    let last = mantissa_after(r0, 14) as int;
    let m = parts();
    lemma2_to64();
    lemma_mantissa_power_upto(r0, 14);
    lemma_power_scale(r0, 14);
    lemma_power_error_bounded(14);
    lemma_fraction_bounds(r0, 14);
    lemma_pow2_unfold(bits + 1);
    let w = pow2(bits) as int;
    assert(k * h == w * unit);
    // From below: the last mantissa is at least one.
    assert(k * h <= last * k) by (nonlinear_arith)
        requires
            h <= last,
            k > 0,
    ;
    // From above: the last mantissa is below two.
    let e = power_error(14);
    assert(last * k <= 2 * (k * h)) by (nonlinear_arith)
        requires
            last < 2 * h,
            k > 0,
    ;
    assert((m + e) * (last * k) <= (m + 0x2_0000) * (2 * (k * h))) by (nonlinear_arith)
        requires
            0 <= last * k <= 2 * (k * h),
            0 <= e <= 0x1_0000,
            m > 0,
    ;
    assert((2 * w) * unit == 2 * (w * unit)) by (nonlinear_arith);
}

} // verus!
