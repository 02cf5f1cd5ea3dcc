//! What the refinements of the logarithm do to a mantissa that is bracketed by
//! two fine ratios: each refinement doubles the two exponents, takes the
//! halving span from them where the bit is clear, and widens them by 3.

use crate::log2::{
    lemma_fraction_bounds, lemma_mantissa_bounds, lemma_msb_brackets, lemma_refinement_bounds,
    log2_fraction, mantissa_after, mantissa_square, next_mantissa, spec_log2, spec_mantissa,
    spec_msb, square_bit,
};
use crate::proofs::fine_product::{lemma_mul_q128_commutes, lemma_mul_q128_monotone, mul_q128};
use crate::proofs::fine_ratio::{
    fine_limit, fine_ratio, lemma_fine_at_zero, lemma_fine_decreasing, lemma_fine_limit,
    lemma_fine_order, lemma_fine_successor,
};
use crate::proofs::fine_shift::{
    halving_span, lemma_fine_halving, lemma_fine_squaring, lemma_half_at_span,
};
use crate::wide::{lemma_pow2_values, pow2_127, pow2_128, pow2_256, pow2_64};
use vstd::arithmetic::div_mod::lemma_fundamental_div_mod;
use vstd::arithmetic::power2::{
    lemma2_to64, lemma2_to64_rest, lemma_pow2_pos, lemma_pow2_strictly_increases, lemma_pow2_unfold,
    pow2,
};
use vstd::prelude::*;

verus! {

/// Whether `r` is at most the fine ratio of the exponent `lo`. An exponent
/// below zero stands for a ratio above one, which bounds every mantissa.
pub open spec fn below_fine(r: nat, lo: int) -> bool {
    lo < 0 || (lo < fine_limit() && r <= fine_ratio(lo as nat))
}

/// Whether `r` is at least the fine ratio of the exponent `hi`. An exponent
/// beyond the table stands for a ratio of zero.
pub open spec fn above_fine(r: nat, hi: int) -> bool {
    hi >= 0 && (hi >= fine_limit() || fine_ratio(hi as nat) <= r)
}

/// The lower exponent after one refinement with the bit `bit`.
pub open spec fn next_lower(lo: int, bit: nat) -> int {
    2 * lo - (1 - bit) * halving_span() - 3
}

/// The upper exponent after one refinement with the bit `bit`.
pub open spec fn next_upper(hi: int, bit: nat) -> int {
    2 * hi - (1 - bit) * halving_span() + 3
}

/// A mantissa that a fine ratio bounds from above has an exponent of at most
/// the halving span.
pub proof fn lemma_lower_exponent_bounded(r: nat, lo: int)
    requires
        pow2_127() <= r,
        below_fine(r, lo),
    ensures
        lo <= halving_span(),
{
    if lo >= 0 {
        lemma_half_at_span();
        lemma_fine_limit();
        lemma_fine_order(halving_span(), lo as nat);
    }
}

/// The square of a mantissa at scale 2^127 is twice its square at scale 2^128,
/// or one more.
pub proof fn lemma_square_doubles(r: nat)
    ensures
        2 * mul_q128(r, r) <= mantissa_square(r) <= 2 * mul_q128(r, r) + 1,
{
    let sq = (r * r) as int;
    let q = pow2_128() as int;
    let h = pow2_127() as int;
    lemma_fundamental_div_mod(sq, q);
    lemma_fundamental_div_mod(sq, h);
    let m = sq / q;
    let s = sq / h;
    assert(2 * m <= s <= 2 * m + 1) by (nonlinear_arith)
        requires
            sq == q * m + sq % q,
            0 <= sq % q < q,
            sq == h * s + sq % h,
            0 <= sq % h < h,
            q == 2 * h,
            h > 0,
    ;
}

/// The two outcomes of a refinement: with the bit set, the next mantissa is the
/// square at scale 2^128, which then is at least a half; with the bit clear, it
/// is twice that square or one more, and below one.
pub proof fn lemma_refinement_cases(r: nat)
    requires
        pow2_127() <= r < pow2_128(),
    ensures
        square_bit(r) == 0 || square_bit(r) == 1,
        square_bit(r) == 1 ==> next_mantissa(r) == mul_q128(r, r) && mul_q128(r, r)
            >= pow2_127(),
        square_bit(r) == 0 ==> 2 * mul_q128(r, r) <= next_mantissa(r) <= 2 * mul_q128(r, r) + 1
            && mul_q128(r, r) < pow2_127(),
{
    lemma_refinement_bounds(r);
    lemma_square_doubles(r);
    lemma2_to64();
    let s = mantissa_square(r);
    if s >= pow2_128() {
        assert(square_bit(r) == 1);
        assert(next_mantissa(r) == s / 2);
    } else {
        assert(square_bit(r) == 0);
        assert(next_mantissa(r) == s / 1);
    }
}

/// The square of a mantissa below a fine ratio is below the fine ratio of
/// twice the exponent, less one.
pub proof fn lemma_square_below(r: nat, e: nat)
    requires
        1 <= e,
        2 * e + 1 < fine_limit(),
        r <= fine_ratio(e),
    ensures
        mul_q128(r, r) <= fine_ratio((2 * e - 1) as nat),
{
    lemma_mul_q128_monotone(r, fine_ratio(e), r);
    lemma_mul_q128_commutes(fine_ratio(e), r);
    lemma_mul_q128_monotone(r, fine_ratio(e), fine_ratio(e));
    lemma_fine_squaring(e);
}

/// The square of a mantissa above a fine ratio is above the fine ratio of
/// twice the exponent, plus one.
pub proof fn lemma_square_above(r: nat, e: nat)
    requires
        1 <= e,
        2 * e + 1 < fine_limit(),
        fine_ratio(e) <= r,
    ensures
        fine_ratio(2 * e + 1) <= mul_q128(r, r),
{
    lemma_mul_q128_monotone(fine_ratio(e), r, fine_ratio(e));
    lemma_mul_q128_commutes(fine_ratio(e), r);
    lemma_mul_q128_monotone(fine_ratio(e), r, r);
    lemma_fine_squaring(e);
}

/// One refinement of a mantissa that a fine ratio bounds from above: the next
/// mantissa is bounded by the fine ratio of the next lower exponent.
pub proof fn lemma_refinement_below(r: nat, lo: int)
    requires
        pow2_127() <= r < pow2_128(),
        below_fine(r, lo),
    ensures
        below_fine(next_mantissa(r), next_lower(lo, square_bit(r))),
{
    let span = halving_span() as int;
    let bit = square_bit(r);
    lemma_fine_limit();
    lemma_refinement_cases(r);
    lemma_lower_exponent_bounded(r, lo);
    if lo >= 1 {
        let e = lo as nat;
        lemma_square_below(r, e);
        if bit == 1 {
            if 2 * lo - 3 >= 0 {
                lemma_fine_decreasing((2 * e - 3) as nat, (2 * e - 1) as nat);
            }
        } else {
            if 2 * lo - span - 3 >= 0 {
                let base = (2 * e - span - 2) as nat;
                lemma_fine_halving(base);
                lemma_fine_successor((base - 1) as nat);
                assert(base + span + 1 == 2 * e - 1);
            }
        }
    }
}

/// One refinement of a mantissa that a fine ratio bounds from below: the next
/// mantissa is bounded by the fine ratio of the next upper exponent.
pub proof fn lemma_refinement_above(r: nat, hi: int)
    requires
        pow2_127() <= r < pow2_128(),
        above_fine(r, hi),
        hi <= 0x5000_0000,
    ensures
        above_fine(next_mantissa(r), next_upper(hi, square_bit(r))),
{
    let span = halving_span() as int;
    let bit = square_bit(r);
    lemma_fine_limit();
    lemma_refinement_cases(r);
    lemma_half_at_span();
    lemma_fine_at_zero();
    let e = hi as nat;
    assert(e >= 1);
    lemma_square_above(r, e);
    if bit == 1 {
        lemma_fine_decreasing(2 * e + 1, 2 * e + 3);
    } else {
        lemma_fine_order(2 * e + 1, (span - 1) as nat);
        let base = (2 * e + 3 - span) as nat;
        lemma_fine_halving(base);
        assert(base + span - 2 == 2 * e + 1);
    }
}

/// One refinement of a mantissa that two fine ratios bracket: the next mantissa
/// is bracketed by the fine ratios of the next exponents.
pub proof fn lemma_refinement_brackets(r: nat, lo: int, hi: int)
    requires
        pow2_127() <= r < pow2_128(),
        below_fine(r, lo),
        above_fine(r, hi),
        hi <= lo + 0x1000_0000,
    ensures
        below_fine(next_mantissa(r), next_lower(lo, square_bit(r))),
        above_fine(next_mantissa(r), next_upper(hi, square_bit(r))),
{
    lemma_lower_exponent_bounded(r, lo);
    lemma_refinement_below(r, lo);
    lemma_refinement_above(r, hi);
}

/// The lower exponent after `n` refinements of the mantissa `r0`.
pub open spec fn lower_after(r0: nat, lo: int, n: nat) -> int
    decreases n,
{
    if n == 0 {
        lo
    } else {
        next_lower(
            lower_after(r0, lo, (n - 1) as nat),
            square_bit(mantissa_after(r0, (n - 1) as nat)),
        )
    }
}

/// The upper exponent after `n` refinements of the mantissa `r0`.
pub open spec fn upper_after(r0: nat, hi: int, n: nat) -> int
    decreases n,
{
    if n == 0 {
        hi
    } else {
        next_upper(
            upper_after(r0, hi, (n - 1) as nat),
            square_bit(mantissa_after(r0, (n - 1) as nat)),
        )
    }
}

/// After `n` refinements the two exponents lie `6 (2^n - 1)` further apart than
/// `2^n` times their first distance.
pub proof fn lemma_exponents_apart(r0: nat, lo: int, hi: int, n: nat)
    ensures
        upper_after(r0, hi, n) - lower_after(r0, lo, n) == pow2(n) * (hi - lo) + 6 * (pow2(n) - 1),
    decreases n,
{
    lemma2_to64();
    if n > 0 {
        lemma_exponents_apart(r0, lo, hi, (n - 1) as nat);
        lemma_pow2_unfold(n);
        let w = pow2((n - 1) as nat) as int;
        assert((2 * w) * (hi - lo) == 2 * (w * (hi - lo))) by (nonlinear_arith);
    } else {
        assert(pow2(0) * (hi - lo) == hi - lo) by (nonlinear_arith)
            requires
                pow2(0) == 1,
        ;
    }
}

/// Up to fourteen refinements of a mantissa that two fine ratios bracket, less
/// than 4096 apart: every later mantissa is bracketed by the fine ratios of the
/// later exponents.
pub proof fn lemma_refinements_bracket(r0: nat, lo: int, hi: int, n: nat)
    requires
        pow2_127() <= r0 < pow2_128(),
        below_fine(r0, lo),
        above_fine(r0, hi),
        lo <= hi <= lo + 4096,
        n <= 14,
    ensures
        pow2_127() <= mantissa_after(r0, n) < pow2_128(),
        below_fine(mantissa_after(r0, n), lower_after(r0, lo, n)),
        above_fine(mantissa_after(r0, n), upper_after(r0, hi, n)),
    decreases n,
{
    lemma_fraction_bounds(r0, n);
    if n > 0 {
        let prev = (n - 1) as nat;
        lemma_refinements_bracket(r0, lo, hi, prev);
        lemma_exponents_apart(r0, lo, hi, prev);
        lemma2_to64();
        let w = pow2(prev) as int;
        assert(w * (hi - lo) <= 8192 * 4096) by (nonlinear_arith)
            requires
                0 <= w <= 8192,
                0 <= hi - lo <= 4096,
        ;
        lemma_refinement_brackets(
            mantissa_after(r0, prev),
            lower_after(r0, lo, prev),
            upper_after(r0, hi, prev),
        );
    }
}

/// The fraction of the logarithm and the lower exponent after `n` refinements
/// are bound to each other: what the refinements take from the exponent, they
/// add to the fraction.
pub proof fn lemma_fraction_and_lower(r0: nat, lo: int, n: nat)
    requires
        n <= 64,
    ensures
        log2_fraction(r0, n) * halving_span() + pow2((64 - n) as nat) * (halving_span()
            - lower_after(r0, lo, n)) == pow2_64() * (halving_span() - lo) + 3 * (pow2_64() - pow2(
            (64 - n) as nat,
        )),
    decreases n,
{
    lemma_pow2_values();
    let span = halving_span() as int;
    if n > 0 {
        let prev = (n - 1) as nat;
        lemma_fraction_and_lower(r0, lo, prev);
        lemma_pow2_unfold((64 - prev) as nat);
        let w = pow2((64 - n) as nat) as int;
        let bit = square_bit(mantissa_after(r0, prev)) as int;
        let f = log2_fraction(r0, prev) as int;
        let l = lower_after(r0, lo, prev);
        let l2 = lower_after(r0, lo, n);
        assert(l2 == 2 * l - (1 - bit) * span - 3);
        assert(log2_fraction(r0, n) == f + bit * w);
        assert((f + bit * w) * span + w * (span - l2) == f * span + (2 * w) * (span - l) + 3 * w)
            by (nonlinear_arith)
            requires
                l2 == 2 * l - (1 - bit) * span - 3,
        ;
    } else {
        assert(log2_fraction(r0, 0) * span == 0) by (nonlinear_arith)
            requires
                log2_fraction(r0, 0) == 0,
        ;
    }
}

/// The fraction of the logarithm and the upper exponent after `n` refinements
/// are bound to each other in the same way.
pub proof fn lemma_fraction_and_upper(r0: nat, hi: int, n: nat)
    requires
        n <= 64,
    ensures
        log2_fraction(r0, n) * halving_span() + pow2((64 - n) as nat) * (halving_span()
            - upper_after(r0, hi, n)) == pow2_64() * (halving_span() - hi) - 3 * (pow2_64() - pow2(
            (64 - n) as nat,
        )),
    decreases n,
{
    lemma_pow2_values();
    let span = halving_span() as int;
    if n > 0 {
        let prev = (n - 1) as nat;
        lemma_fraction_and_upper(r0, hi, prev);
        lemma_pow2_unfold((64 - prev) as nat);
        let w = pow2((64 - n) as nat) as int;
        let bit = square_bit(mantissa_after(r0, prev)) as int;
        let f = log2_fraction(r0, prev) as int;
        let l = upper_after(r0, hi, prev);
        let l2 = upper_after(r0, hi, n);
        assert(l2 == 2 * l - (1 - bit) * span + 3);
        assert(log2_fraction(r0, n) == f + bit * w);
        assert((f + bit * w) * span + w * (span - l2) == f * span + (2 * w) * (span - l) - 3 * w)
            by (nonlinear_arith)
            requires
                l2 == 2 * l - (1 - bit) * span + 3,
        ;
    } else {
        assert(log2_fraction(r0, 0) * span == 0) by (nonlinear_arith)
            requires
                log2_fraction(r0, 0) == 0,
        ;
    }
}

/// The fourteen bits of the logarithm of a mantissa that two fine ratios
/// bracket, less than 4096 apart: times the halving span, the fraction is the
/// distance of the exponents from the span at scale 2^64, up to 3 at that scale
/// and one span at scale 2^50.
pub proof fn lemma_fraction_brackets(r0: nat, lo: int, hi: int)
    requires
        pow2_127() <= r0 < pow2_128(),
        below_fine(r0, lo),
        above_fine(r0, hi),
        lo <= hi <= lo + 4096,
    ensures
        log2_fraction(r0, 14) * halving_span() <= pow2_64() * (halving_span() - lo) + 3
            * pow2_64(),
        log2_fraction(r0, 14) * halving_span() >= pow2_64() * (halving_span() - hi) - 3
            * pow2_64() - 0x4_0000_0000_0000 * halving_span(),
{
    let span = halving_span() as int;
    lemma_refinements_bracket(r0, lo, hi, 14);
    lemma_fraction_and_lower(r0, lo, 14);
    lemma_fraction_and_upper(r0, hi, 14);
    lemma_lower_exponent_bounded(mantissa_after(r0, 14), lower_after(r0, lo, 14));
    lemma_pow2_values();
    lemma2_to64_rest();
    let w = pow2(50) as int;
    let l = lower_after(r0, lo, 14);
    let h = upper_after(r0, hi, 14);
    assert(w * (span - l) >= 0) by (nonlinear_arith)
        requires
            w >= 0,
            span - l >= 0,
    ;
    assert(w * (span - h) <= w * span) by (nonlinear_arith)
        requires
            w >= 0,
            h >= 0,
    ;
}

/// Of two mantissas, the greater has the greater square, bit and next
/// mantissa: the bit is greater, or it is the same and the next mantissa is
/// not smaller.
pub proof fn lemma_refinement_ordered(r: nat, z: nat)
    requires
        pow2_127() <= r <= z < pow2_128(),
    ensures
        square_bit(r) < square_bit(z) || (square_bit(r) == square_bit(z) && next_mantissa(r)
            <= next_mantissa(z)),
{
    lemma_refinement_bounds(r);
    lemma_refinement_bounds(z);
    lemma2_to64();
    let a = (r * r) as int;
    let b = (z * z) as int;
    assert(a <= b) by (nonlinear_arith)
        requires
            a == r * r,
            b == z * z,
            r <= z,
    ;
    let h = pow2_127() as int;
    lemma_fundamental_div_mod(a, h);
    lemma_fundamental_div_mod(b, h);
    assert(a / h <= b / h) by (nonlinear_arith)
        requires
            a <= b,
            a == h * (a / h) + a % h,
            b == h * (b / h) + b % h,
            0 <= a % h < h,
            0 <= b % h < h,
    ;
    let s = mantissa_square(r);
    let t = mantissa_square(z);
    assert(s <= t);
    assert(pow2_127() <= s < 2 * pow2_128());
    assert(pow2_127() <= t < 2 * pow2_128());
    if s >= pow2_128() {
        assert(square_bit(r) == 1);
        assert(square_bit(z) == 1);
        assert(next_mantissa(r) == s / 2);
        assert(next_mantissa(z) == t / 2);
    } else if t >= pow2_128() {
        assert(square_bit(r) == 0);
        assert(square_bit(z) == 1);
    } else {
        assert(square_bit(r) == 0);
        assert(square_bit(z) == 0);
        assert(next_mantissa(r) == s / 1);
        assert(next_mantissa(z) == t / 1);
    }
}

/// The fraction of the logarithm is monotone in the mantissa: after `n`
/// refinements of two mantissas, that of the greater is ahead by a whole bit, or
/// both fractions are the same and the greater still has the greater mantissa.
pub proof fn lemma_fraction_ordered(r: nat, z: nat, n: nat)
    requires
        pow2_127() <= r <= z < pow2_128(),
        n <= 64,
    ensures
        log2_fraction(r, n) + pow2((64 - n) as nat) <= log2_fraction(z, n) || (log2_fraction(r, n)
            == log2_fraction(z, n) && mantissa_after(r, n) <= mantissa_after(z, n)),
    decreases n,
{
    if n > 0 {
        let prev = (n - 1) as nat;
        lemma_fraction_ordered(r, z, prev);
        lemma_fraction_bounds(r, prev);
        lemma_fraction_bounds(z, prev);
        lemma_pow2_unfold((64 - prev) as nat);
        let w = pow2((64 - n) as nat);
        let rb = square_bit(mantissa_after(r, prev));
        let zb = square_bit(mantissa_after(z, prev));
        lemma_refinement_bounds(mantissa_after(r, prev));
        lemma_refinement_bounds(mantissa_after(z, prev));
        assert(rb * w <= w && zb * w <= w) by (nonlinear_arith)
            requires
                rb <= 1,
                zb <= 1,
        ;
        if log2_fraction(r, prev) == log2_fraction(z, prev) && mantissa_after(r, prev)
            <= mantissa_after(z, prev) {
            lemma_refinement_ordered(mantissa_after(r, prev), mantissa_after(z, prev));
            if rb < zb {
                assert(rb * w == 0 && zb * w == w) by (nonlinear_arith)
                    requires
                        rb == 0,
                        zb == 1,
                ;
            }
        }
    }
}

/// The binary logarithm is monotone.
pub proof fn lemma_log2_monotone(x: nat, y: nat)
    requires
        1 <= x <= y < pow2_256(),
    ensures
        spec_log2(x) <= spec_log2(y),
{
    let mx = spec_msb(x);
    let my = spec_msb(y);
    lemma_msb_brackets(x);
    lemma_msb_brackets(y);
    lemma_mantissa_bounds(x);
    lemma_mantissa_bounds(y);
    lemma_fraction_bounds(spec_mantissa(x), 14);
    lemma_fraction_bounds(spec_mantissa(y), 14);
    lemma_pow2_values();
    lemma2_to64_rest();
    if mx > my {
        if mx > my + 1 {
            lemma_pow2_strictly_increases(my + 1, mx);
        }
        assert(false);
    }
    if mx < my {
        assert((mx - 128) * pow2_64() + pow2_64() <= (my - 128) * pow2_64()) by (nonlinear_arith)
            requires
                mx + 1 <= my,
        ;
    } else {
        let rx = spec_mantissa(x);
        let ry = spec_mantissa(y);
        if mx >= 128 {
            let d = pow2((mx - 127) as nat) as int;
            lemma_pow2_pos((mx - 127) as nat);
            lemma_fundamental_div_mod(x as int, d);
            lemma_fundamental_div_mod(y as int, d);
            assert(x as int / d <= y as int / d) by (nonlinear_arith)
                requires
                    x <= y,
                    x == d * (x as int / d) + x as int % d,
                    y == d * (y as int / d) + y as int % d,
                    0 <= x as int % d < d,
                    0 <= y as int % d < d,
            ;
        } else {
            let d = pow2((127 - mx) as nat);
            assert(x * d <= y * d) by (nonlinear_arith)
                requires
                    x <= y,
            ;
        }
        assert(rx <= ry);
        lemma_fraction_ordered(rx, ry, 14);
    }
}

} // verus!
