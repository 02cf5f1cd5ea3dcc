//! The ratio of a magnitude against the exact power of 1.0001 that it stands
//! for: the square of the ratio is `(10000 / 10001)^n` at scale 2^256, up to a
//! relative error of less than one part in 2^56.

use crate::proofs::arith::lemma_mod_double;
use crate::proofs::closeness::{
    close, lemma_close_cancels, lemma_close_chains, lemma_close_flips, lemma_close_products,
    lemma_close_scaled, lemma_close_widens, lemma_products_regroup, parts,
};
use crate::proofs::fine_product::{lemma_fine_table_consistent, lemma_mul_q128_brackets, mul_q128};
use crate::proofs::fine_ratio::fine_multiplier;
use crate::proofs::ratios::{
    lemma_ratio_at_least_min, lemma_ratio_upto_le_one, lemma_ratio_upto_nonincreasing,
};
use crate::tick_math::{ratio_multiplier, ratio_upto, spec_ratio, tick_bit};
use crate::wide::{pow2_128, pow2_256};
use vstd::arithmetic::div_mod::{lemma_fundamental_div_mod, lemma_small_mod};
use vstd::arithmetic::power2::{
    lemma2_to64, lemma_pow2_pos, lemma_pow2_strictly_increases, lemma_pow2_unfold, pow2,
};
use vstd::arithmetic::power::{lemma_pow0, lemma_pow1, lemma_pow_adds, lemma_pow_positive, pow};
use vstd::prelude::*;

verus! {

/// `10001^(2^k)`.
pub open spec fn upper_power(k: nat) -> int {
    pow(10001, pow2(k))
}

/// `10000^(2^k)`.
pub open spec fn lower_power(k: nat) -> int {
    pow(10000, pow2(k))
}

/// The relative error of the multiplier of bit `k`, in parts of 2^100.
pub open spec fn table_error(k: nat) -> int
    decreases k,
{
    if k == 0 {
        8
    } else {
        2 * table_error((k - 1) as nat) + 0x4000
    }
}

/// The error of the multipliers stays below 2^34 parts.
pub proof fn lemma_table_error_bounded(k: nat)
    requires
        k <= 19,
    ensures
        0 <= table_error(k) <= 0x4_0000_0000,
        table_error(k) + 0x4000 <= pow2(k) * 0x8000,
    decreases k,
{
    lemma2_to64();
    if k > 0 {
        lemma_table_error_bounded((k - 1) as nat);
        lemma_pow2_unfold(k);
    }
    if k < 19 {
        lemma_pow2_strictly_increases(k, 19);
    }
}

/// The powers of one step are the squares of those of the step before.
pub proof fn lemma_powers_square(k: nat)
    ensures
        upper_power(k + 1) == upper_power(k) * upper_power(k),
        lower_power(k + 1) == lower_power(k) * lower_power(k),
        upper_power(k) > 0,
        lower_power(k) > 0,
{
    lemma_pow2_unfold(k + 1);
    lemma_pow_adds(10001, pow2(k), pow2(k));
    lemma_pow_adds(10000, pow2(k), pow2(k));
    lemma_pow_positive(10001, pow2(k));
    lemma_pow_positive(10000, pow2(k));
}

/// The square of a multiplier is the next multiplier at scale 2^128, up to
/// 2^12 parts.
pub proof fn lemma_multiplier_squares(k: nat)
    requires
        k < 19,
    ensures
        close(
            ratio_multiplier(k + 1) as int * pow2_128() as int,
            ratio_multiplier(k) as int * ratio_multiplier(k) as int,
            0x1000,
        ),
{
    let c = ratio_multiplier(k) as int;
    let next = ratio_multiplier(k + 1) as int;
    let q = pow2_128() as int;
    let m = parts();
    lemma_fine_table_consistent(16 + k);
    assert(fine_multiplier(16 + k) == ratio_multiplier(k));
    assert(fine_multiplier(16 + k + 1) == ratio_multiplier(k + 1));
    lemma_mul_q128_brackets(ratio_multiplier(k), ratio_multiplier(k));
    let floor = mul_q128(ratio_multiplier(k), ratio_multiplier(k)) as int;
    let sq = c * c;
    assert((next - 2) * q <= sq && sq < (next + 3) * q) by (nonlinear_arith)
        requires
            floor * q <= sq < floor * q + q,
            next - 2 <= floor <= next + 2,
            q > 0,
    ;
    assert(next >= 0x400_0000_0000_0000_0000_0000);
    assert(m * next <= (m + 0x1000) * (next - 2)) by (nonlinear_arith)
        requires
            next >= 0x400_0000_0000_0000_0000_0000,
            m == 0x10_0000_0000_0000_0000_0000_0000,
    ;
    assert((m - 0x1000) * (next + 3) <= m * next) by (nonlinear_arith)
        requires
            next >= 0x400_0000_0000_0000_0000_0000,
            m == 0x10_0000_0000_0000_0000_0000_0000,
    ;
    assert(m * (next * q) <= (m + 0x1000) * sq) by (nonlinear_arith)
        requires
            m * next <= (m + 0x1000) * (next - 2),
            (next - 2) * q <= sq,
            q > 0,
            m > 0,
    ;
    assert((m - 0x1000) * sq <= m * (next * q)) by (nonlinear_arith)
        requires
            (m - 0x1000) * (next + 3) <= m * next,
            sq < (next + 3) * q,
            q > 0,
            m > 0x1000,
    ;
}

/// The square of the multiplier of bit `k` is `(10000 / 10001)^(2^k)` at scale
/// 2^256, up to its error.
pub proof fn lemma_multiplier_is_power(k: nat)
    requires
        k <= 19,
    ensures
        close(
            (ratio_multiplier(k) as int * ratio_multiplier(k) as int) * upper_power(k),
            (pow2_128() as int * pow2_128() as int) * lower_power(k),
            table_error(k),
        ),
    decreases k,
{
    let q = pow2_128() as int;
    let qq = q * q;
    if k == 0 {
        lemma2_to64();
        lemma_pow1(10001);
        lemma_pow1(10000);
        let c = ratio_multiplier(0) as int;
        assert(upper_power(0) == 10001);
        assert(lower_power(0) == 10000);
        assert(c * c == 0xfff97272373d413259a46990580e2138d285faafa27e6f497170ec77c4b28001int);
        assert(qq == 0x10000000000000000000000000000000000000000000000000000000000000000int);
        assert((c * c) * 10001 == 0x270fffffffffffffffffffffffffffffdcd86416676b0d599428bc85f2eb415aa711int);
        assert(qq * 10000 == 0x27100000000000000000000000000000000000000000000000000000000000000000int);
    } else {
        let j = (k - 1) as nat;
        lemma_multiplier_is_power(j);
        lemma_table_error_bounded(j);
        lemma_powers_square(j);
        lemma_multiplier_squares(j);
        let c = ratio_multiplier(j) as int;
        let next = ratio_multiplier(k) as int;
        let u = upper_power(j);
        let l = lower_power(j);
        let t = table_error(j);
        let cc = c * c;
        // The claim of the step before, squared.
        lemma_close_products(cc * u, qq * l, t, cc * u, qq * l, t);
        lemma_products_regroup(cc, u, cc, u);
        lemma_products_regroup(qq, l, qq, l);
        assert(close((cc * cc) * (u * u), (qq * qq) * (l * l), 2 * t + 1));
        // The next multiplier against the square of this one, squared.
        lemma_close_products(next * q, cc, 0x1000, next * q, cc, 0x1000);
        lemma_products_regroup(next, q, next, q);
        assert(close((next * next) * qq, cc * cc, 0x2001));
        lemma_close_scaled((next * next) * qq, cc * cc, 0x2001, u * u);
        assert(u * u > 0) by (nonlinear_arith)
            requires
                u > 0,
        ;
        assert(l * l > 0) by (nonlinear_arith)
            requires
                l > 0,
        ;
        assert((qq * qq) * (l * l) >= 0) by (nonlinear_arith)
            requires
                l * l > 0,
        ;
        lemma_close_chains(
            ((next * next) * qq) * (u * u),
            (cc * cc) * (u * u),
            0x2001,
            (qq * qq) * (l * l),
            2 * t + 1,
        );
        // One scale of 2^256 is taken off both sides.
        assert(((next * next) * qq) * (u * u) == ((next * next) * (u * u)) * qq)
            by (nonlinear_arith);
        assert((qq * qq) * (l * l) == (qq * (l * l)) * qq) by (nonlinear_arith);
        lemma_close_cancels((next * next) * (u * u), qq * (l * l), 2 * t + 0x2003, qq);
        lemma_close_widens((next * next) * (u * u), qq * (l * l), 2 * t + 0x2003, table_error(k));
    }
}

/// The relative error of the ratio after the lowest `k` bits, in parts of
/// 2^100.
pub open spec fn ratio_error(k: nat) -> int {
    k as int * 0x80_0000_0000
}

/// Rounding a product down costs its square less than 2^38 parts, where the
/// product is at least 2^64.
pub proof fn lemma_floor_square(r: nat, c: nat)
    requires
        r * c / pow2_128() >= 0x1_0000_0000_0000_0000,
    ensures
        ({
            let floor = (r * c / pow2_128()) as int;
            close(
                (floor * floor) * (pow2_128() as int * pow2_128() as int),
                (r as int * r as int) * (c as int * c as int),
                0x40_0000_0000,
            )
        }),
{
    let q = pow2_128() as int;
    let floor = (r * c / pow2_128()) as int;
    let p = (r * c) as int;
    let m = parts();
    let e: int = 0x40_0000_0000;
    lemma_mul_q128_brackets(r, c);
    let fq = floor * q;
    assert(fq <= p < fq + q);
    lemma_products_regroup(floor, q, floor, q);
    lemma_products_regroup(r as int, c as int, r as int, c as int);
    let x = (floor * floor) * (q * q);
    let y = (r as int * r as int) * (c as int * c as int);
    assert(x == fq * fq);
    assert(y == p * p);
    assert(fq * fq <= p * p) by (nonlinear_arith)
        requires
            0 <= fq <= p,
    ;
    assert(m * x <= (m + e) * y) by (nonlinear_arith)
        requires
            0 <= x <= y,
            m >= 0,
            e >= 0,
    ;
    let up = (floor + 1) * q;
    assert(p * p <= up * up) by (nonlinear_arith)
        requires
            0 <= p <= up,
    ;
    lemma_products_regroup(floor + 1, q, floor + 1, q);
    assert((m - e) * ((floor + 1) * (floor + 1)) <= m * (floor * floor)) by (nonlinear_arith)
        requires
            floor >= 0x1_0000_0000_0000_0000,
            m == 0x10_0000_0000_0000_0000_0000_0000,
            e == 0x40_0000_0000,
    ;
    assert((m - e) * (up * up) <= m * x) by (nonlinear_arith)
        requires
            up * up == ((floor + 1) * (floor + 1)) * (q * q),
            x == (floor * floor) * (q * q),
            (m - e) * ((floor + 1) * (floor + 1)) <= m * (floor * floor),
            q * q >= 0,
    ;
    assert((m - e) * y <= (m - e) * (up * up)) by (nonlinear_arith)
        requires
            y <= up * up,
            m - e >= 0,
    ;
}

/// After the lowest `k` bits of a magnitude of the domain, the square of the
/// ratio is `(10000 / 10001)` to the power of those bits at scale 2^256, up to
/// `k * 2^39` parts.
pub proof fn lemma_ratio_upto_is_power(n: nat, k: nat)
    requires
        n <= 887272,
        k <= 20,
    ensures
        ({
            let r = ratio_upto(n, k) as int;
            let low = n % pow2(k);
            close(
                (r * r) * pow(10001, low),
                (pow2_128() as int * pow2_128() as int) * pow(10000, low),
                ratio_error(k),
            )
        }),
    decreases k,
{
    let q = pow2_128() as int;
    let qq = q * q;
    lemma2_to64();
    if k == 0 {
        lemma_pow0(10001);
        lemma_pow0(10000);
        assert(n % 1 == 0);
    } else {
        let j = (k - 1) as nat;
        lemma_ratio_upto_is_power(n, j);
        let low = n % pow2(j);
        let r = ratio_upto(n, j) as int;
        let a = pow(10001, low);
        let b = pow(10000, low);
        lemma_pow_positive(10001, low);
        lemma_pow_positive(10000, low);
        lemma_pow2_pos(j);
        lemma_pow2_unfold(k);
        lemma_mod_double(n, pow2(j));
        let e = ratio_error(j);
        assert(qq * b >= 0) by (nonlinear_arith)
            requires
                qq >= 0,
                b > 0,
        ;
        if tick_bit(n, j) {
            let c = ratio_multiplier(j) as int;
            let rn = ratio_upto(n, k) as int;
            let u = upper_power(j);
            let l = lower_power(j);
            let t = table_error(j);
            assert(n % pow2(k) == low + pow2(j)) by (nonlinear_arith)
                requires
                    n % pow2(k) == low + pow2(j) * ((n / pow2(j)) % 2),
                    (n / pow2(j)) % 2 == 1,
            ;
            lemma_pow_adds(10001, low, pow2(j));
            lemma_pow_adds(10000, low, pow2(j));
            lemma_powers_square(j);
            lemma_multiplier_is_power(j);
            lemma_table_error_bounded(j);
            lemma_ratio_upto_nonincreasing(n, k, 20);
            lemma_ratio_at_least_min(n);
            lemma_floor_square(ratio_upto(n, j), ratio_multiplier(j));
            let au = a * u;
            let bl = b * l;
            assert(au > 0 && bl > 0) by (nonlinear_arith)
                requires
                    au == a * u,
                    bl == b * l,
                    a > 0,
                    u > 0,
                    b > 0,
                    l > 0,
            ;
            // The ratio so far and the multiplier, each against its power.
            assert((r * r) * a >= 0 && (c * c) * u >= 0 && qq * l >= 0) by (nonlinear_arith)
                requires
                    a > 0,
                    u > 0,
                    l > 0,
                    qq >= 0,
            ;
            lemma_close_products((r * r) * a, qq * b, e, (c * c) * u, qq * l, t);
            lemma_products_regroup(r * r, a, c * c, u);
            lemma_products_regroup(qq, b, qq, l);
            // The rounded product against the exact one.
            lemma_close_scaled((rn * rn) * qq, (r * r) * (c * c), 0x40_0000_0000, au);
            assert((qq * qq) * bl >= 0) by (nonlinear_arith)
                requires
                    bl > 0,
            ;
            lemma_close_chains(
                ((rn * rn) * qq) * au,
                ((r * r) * (c * c)) * au,
                0x40_0000_0000,
                (qq * qq) * bl,
                e + t + 1,
            );
            // One scale of 2^256 is taken off both sides.
            assert(((rn * rn) * qq) * au == ((rn * rn) * au) * qq) by (nonlinear_arith);
            assert((qq * qq) * bl == (qq * bl) * qq) by (nonlinear_arith);
            lemma_close_cancels((rn * rn) * au, qq * bl, 0x40_0000_0000 + e + t + 2, qq);
            assert(qq * bl >= 0) by (nonlinear_arith)
                requires
                    bl > 0,
                    qq >= 0,
            ;
            lemma_close_widens(
                (rn * rn) * au,
                qq * bl,
                0x40_0000_0000 + e + t + 2,
                ratio_error(k),
            );
        } else {
            assert(n % pow2(k) == low) by (nonlinear_arith)
                requires
                    n % pow2(k) == low + pow2(j) * ((n / pow2(j)) % 2),
                    (n / pow2(j)) % 2 == 0,
            ;
            lemma_close_widens((r * r) * a, qq * b, e, ratio_error(k));
        }
    }
}

/// The square of the ratio of a magnitude of the domain is `(10000 / 10001)^n`
/// at scale 2^256, up to 2^44 parts.
pub proof fn lemma_ratio_against_power(n: nat)
    requires
        n <= 887272,
    ensures
        ({
            let r = spec_ratio(n) as int;
            close(
                (r * r) * pow(10001, n),
                (pow2_128() as int * pow2_128() as int) * pow(10000, n),
                0x1000_0000_0000,
            )
        }),
{
    let r = spec_ratio(n) as int;
    let q = pow2_128() as int;
    lemma_ratio_upto_is_power(n, 20);
    lemma2_to64();
    lemma_small_mod(n, pow2(20));
    lemma_pow_positive(10000, n);
    assert((q * q) * pow(10000, n) >= 0) by (nonlinear_arith)
        requires
            pow(10000, n) > 0,
    ;
    lemma_close_widens(
        (r * r) * pow(10001, n),
        (q * q) * pow(10000, n),
        ratio_error(20),
        0x1000_0000_0000,
    );
}

/// The square of the reciprocal of the ratio of a magnitude of the domain is
/// `(10001 / 10000)^n` at scale 2^256, up to 2^45 parts.
pub proof fn lemma_reciprocal_against_power(n: nat)
    requires
        n <= 887272,
    ensures
        ({
            let inverse = (pow2_256() - 1) / (spec_ratio(n) as int);
            close(
                (inverse * inverse) * pow(10000, n),
                (pow2_128() as int * pow2_128() as int) * pow(10001, n),
                0x2000_0000_0000,
            )
        }),
{
    let r = spec_ratio(n) as int;
    let q = pow2_128() as int;
    let qq = q * q;
    let total = pow2_256() - 1;
    let inverse = total / r;
    let a = pow(10001, n);
    let b = pow(10000, n);
    let m = parts();
    let e: int = 0x1000_0000_0000;
    lemma_ratio_against_power(n);
    lemma_ratio_at_least_min(n);
    lemma_ratio_upto_le_one(n, 20);
    lemma_pow_positive(10001, n);
    lemma_pow_positive(10000, n);
    lemma_fundamental_div_mod(total, r);
    let ir = inverse * r;
    assert(ir == r * inverse) by (nonlinear_arith)
        requires
            ir == inverse * r,
    ;
    assert(inverse >= 0) by (nonlinear_arith)
        requires
            total == r * inverse + total % r,
            0 <= total % r < r,
            total >= 0,
            r > 0,
    ;
    // The reciprocal times the ratio is one at scale 2^256, up to one part.
    assert(qq - r <= ir <= qq);
    assert(m * r <= qq) by (nonlinear_arith)
        requires
            r <= q,
            qq == q * q,
            m <= q,
            q > 0,
            r >= 0,
    ;
    assert(close(ir, qq, 1));
    lemma_close_products(ir, qq, 1, ir, qq, 1);
    lemma_products_regroup(inverse, r, inverse, r);
    let ii = inverse * inverse;
    let rr = r * r;
    assert(close(ii * rr, qq * qq, 3));
    // The ratio against its power, scaled by the square of the reciprocal.
    lemma_close_scaled(rr * a, qq * b, e, ii);
    assert(ii >= 0 && rr >= 0) by (nonlinear_arith)
        requires
            ii == inverse * inverse,
            rr == r * r,
    ;
    assert((rr * a) * ii >= 0 && (qq * b) * ii >= 0 && (qq * qq) * a >= 0) by (nonlinear_arith)
        requires
            ii >= 0,
            rr >= 0,
            a > 0,
            b > 0,
            qq >= 0,
    ;
    lemma_close_flips((rr * a) * ii, (qq * b) * ii, e);
    lemma_close_scaled(ii * rr, qq * qq, 3, a);
    assert((rr * a) * ii == (ii * rr) * a) by (nonlinear_arith);
    lemma_close_chains((qq * b) * ii, (ii * rr) * a, e + 1, (qq * qq) * a, 3);
    // One scale of 2^256 is taken off both sides.
    assert((qq * b) * ii == (ii * b) * qq) by (nonlinear_arith);
    assert((qq * qq) * a == (qq * a) * qq) by (nonlinear_arith);
    lemma_close_cancels(ii * b, qq * a, e + 5, qq);
    assert(qq * a >= 0) by (nonlinear_arith)
        requires
            qq >= 0,
            a > 0,
    ;
    lemma_close_widens(ii * b, qq * a, e + 5, 0x2000_0000_0000);
}

} // verus!
