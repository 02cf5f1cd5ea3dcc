//! Products of fine ratios: multiplying the ratios of two exponents gives the
//! ratio of the sum of the exponents, up to a small absolute error.

use crate::proofs::arith::{lemma_mod_double, lemma_scale_le};
use crate::proofs::fine_ratio::{
    fine_limit, fine_multiplier, fine_ratio, fine_upto, lemma_fine_limit,
    lemma_fine_multiplier_bounds, lemma_fine_upto_le_one,
};
use crate::tick_math::tick_bit;
use crate::wide::pow2_128;
use vstd::arithmetic::div_mod::{
    lemma_add_mod_noop, lemma_fundamental_div_mod, lemma_fundamental_div_mod_converse,
    lemma_mod_bound, lemma_small_mod,
};
use vstd::arithmetic::power2::{lemma_pow2_pos, lemma_pow2_unfold, pow2};
use vstd::prelude::*;

verus! {

/// The product of two numbers at scale 2^128, rounded down.
pub open spec fn mul_q128(x: nat, y: nat) -> nat {
    x * y / pow2_128()
}

/// Whether two numbers differ by at most `d`.
pub open spec fn near(x: nat, y: nat, d: nat) -> bool {
    x <= y + d && y <= x + d
}

/// The rounded product brackets the exact one.
pub proof fn lemma_mul_q128_brackets(x: nat, y: nat)
    ensures
        mul_q128(x, y) * pow2_128() <= x * y < mul_q128(x, y) * pow2_128() + pow2_128(),
{
    let q = pow2_128() as int;
    let xy = (x * y) as int;
    lemma_fundamental_div_mod(xy, q);
    assert((xy / q) * q == q * (xy / q)) by (nonlinear_arith);
}

/// The rounded product does not depend on the order of its factors.
pub proof fn lemma_mul_q128_commutes(x: nat, y: nat)
    ensures
        mul_q128(x, y) == mul_q128(y, x),
{
    assert(x * y == y * x) by (nonlinear_arith);
}

/// Multiplying by one, that is 2^128, changes nothing.
pub proof fn lemma_mul_q128_one(x: nat)
    ensures
        mul_q128(x, pow2_128()) == x,
        mul_q128(pow2_128(), x) == x,
{
    assert(x * pow2_128() / pow2_128() == x) by (nonlinear_arith);
    lemma_mul_q128_commutes(x, pow2_128());
}

/// The rounded product is monotone in its first factor.
pub proof fn lemma_mul_q128_monotone(x: nat, z: nat, y: nat)
    requires
        x <= z,
    ensures
        mul_q128(x, y) <= mul_q128(z, y),
{
    lemma_mul_q128_brackets(x, y);
    lemma_mul_q128_brackets(z, y);
    let q = pow2_128() as int;
    let a = mul_q128(x, y) as int;
    let b = mul_q128(z, y) as int;
    assert(x * y <= z * y) by (nonlinear_arith)
        requires
            x <= z,
    ;
    assert(a <= b) by (nonlinear_arith)
        requires
            a * q <= x * y,
            x * y <= z * y,
            z * y < b * q + q,
            q > 0,
    ;
}

/// Factors that are near each other have products with a factor of at most one
/// that are as near.
pub proof fn lemma_mul_q128_near(x: nat, z: nat, y: nat, d: nat)
    requires
        near(x, z, d),
        y <= pow2_128(),
    ensures
        near(mul_q128(x, y), mul_q128(z, y), d),
        near(mul_q128(y, x), mul_q128(y, z), d),
{
    lemma_mul_q128_brackets(x, y);
    lemma_mul_q128_brackets(z, y);
    lemma_mul_q128_commutes(x, y);
    lemma_mul_q128_commutes(z, y);
    let q = pow2_128() as int;
    let a = mul_q128(x, y) as int;
    let b = mul_q128(z, y) as int;
    let xy = (x * y) as int;
    let zy = (z * y) as int;
    assert(xy <= zy + d * q && zy <= xy + d * q) by (nonlinear_arith)
        requires
            x <= z + d,
            z <= x + d,
            0 <= y <= q,
            xy == x * y,
            zy == z * y,
    ;
    assert(a <= b + d && b <= a + d) by (nonlinear_arith)
        requires
            a * q <= xy < a * q + q,
            b * q <= zy < b * q + q,
            xy <= zy + d * q,
            zy <= xy + d * q,
            q > 0,
    ;
}

/// Rounded products of three factors of at most one differ by at most 1 between
/// the two ways of bracketing them.
pub proof fn lemma_mul_q128_associates(x: nat, y: nat, z: nat)
    requires
        x <= pow2_128(),
        y <= pow2_128(),
        z <= pow2_128(),
    ensures
        near(mul_q128(mul_q128(x, y), z), mul_q128(x, mul_q128(y, z)), 1),
{
    let q = pow2_128() as int;
    let p = mul_q128(x, y) as int;
    let r = mul_q128(y, z) as int;
    let q1 = mul_q128(mul_q128(x, y), z) as int;
    let q2 = mul_q128(x, mul_q128(y, z)) as int;
    lemma_mul_q128_brackets(x, y);
    lemma_mul_q128_brackets(y, z);
    lemma_mul_q128_brackets(mul_q128(x, y), z);
    lemma_mul_q128_brackets(x, mul_q128(y, z));
    let xy = (x * y) as int;
    let yz = (y * z) as int;
    let pz = (p * z) as int;
    let xr = (x * r) as int;
    let t = xy * z;
    assert(t == x * yz) by (nonlinear_arith)
        requires
            t == xy * z,
            xy == x * y,
            yz == y * z,
    ;
    assert(pz * q <= t && t <= pz * q + q * z) by (nonlinear_arith)
        requires
            p * q <= xy < p * q + q,
            pz == p * z,
            t == xy * z,
            0 <= z,
    ;
    assert(q1 * q * q <= pz * q && pz * q < q1 * q * q + q * q) by (nonlinear_arith)
        requires
            q1 * q <= pz < q1 * q + q,
            q > 0,
    ;
    assert(q * z <= q * q) by (nonlinear_arith)
        requires
            0 <= z <= q,
            q > 0,
    ;
    assert(xr * q <= t && t <= xr * q + q * x) by (nonlinear_arith)
        requires
            r * q <= yz < r * q + q,
            xr == x * r,
            t == x * yz,
            0 <= x,
    ;
    assert(q2 * q * q <= xr * q && xr * q < q2 * q * q + q * q) by (nonlinear_arith)
        requires
            q2 * q <= xr < q2 * q + q,
            q > 0,
    ;
    assert(q * x <= q * q) by (nonlinear_arith)
        requires
            0 <= x <= q,
            q > 0,
    ;
    let qq = q * q;
    assert(q1 * q * q == q1 * qq && q2 * q * q == q2 * qq) by (nonlinear_arith)
        requires
            qq == q * q,
    ;
    assert(q1 <= q2 + 1 && q2 <= q1 + 1) by (nonlinear_arith)
        requires
            q1 * qq <= t,
            t < q1 * qq + 2 * qq,
            q2 * qq <= t,
            t < q2 * qq + 2 * qq,
            qq > 0,
    ;
}

/// Squaring a fine multiplier gives the next one, up to 2.
pub proof fn lemma_fine_table_consistent(k: nat)
    requires
        k < 35,
    ensures
        near(
            mul_q128(fine_multiplier(k), fine_multiplier(k)),
            fine_multiplier(k + 1),
            2,
        ),
{
    assert(0xfffffffcb92e5f3a5e4073f5b9614280 * 0xfffffffcb92e5f3a5e4073f5b9614280 / pow2_128() == 0xfffffff9725cbe7f7901fc21395e4b57);
    assert(0xfffffff9725cbe7f7901fc21395e4b58 * 0xfffffff9725cbe7f7901fc21395e4b58 / pow2_128() == 0xfffffff2e4b97d29e408488cd5c701f1);
    assert(0xfffffff2e4b97d29e408488cd5c701f2 * 0xfffffff2e4b97d29e408488cd5c701f2 / pow2_128() == 0xffffffe5c972faff9021cddd7c92593b);
    assert(0xffffffe5c972faff9021cddd7c92593b * 0xffffffe5c972faff9021cddd7c92593b / pow2_128() == 0xffffffcb92e5f8ae40886b9c640cddc1);
    assert(0xffffffcb92e5f8ae40886b9c640cddc2 * 0xffffffcb92e5f8ae40886b9c640cddc2 / pow2_128() == 0xffffff9725cbfc190222fd4faa8a4f35);
    assert(0xffffff9725cbfc190222fd4faa8a4f37 * 0xffffff9725cbfc190222fd4faa8a4f37 / pow2_128() == 0xffffff2e4b9823240885c78496e99271);
    assert(0xffffff2e4b9823240885c78496e99272 * 0xffffff2e4b9823240885c78496e99272 / pow2_128() == 0xfffffe5c9730f21021c466ec0ef33088);
    assert(0xfffffe5c9730f21021c466ec0ef33088 * 0xfffffe5c9730f21021c466ec0ef33088 / pow2_128() == 0xfffffcb92e64934084394fd40439866b);
    assert(0xfffffcb92e64934084394fd40439866c * 0xfffffcb92e64934084394fd40439866c / pow2_128() == 0xfffff9725cd3e301f99dbb33e768dab7);
    assert(0xfffff9725cd3e301f99dbb33e768dab8 * 0xfffff9725cd3e301f99dbb33e768dab8 / pow2_128() == 0xfffff2e4b9d2b8072b30830ce906f243);
    assert(0xfffff2e4b9d2b8072b30830ce906f245 * 0xfffff2e4b9d2b8072b30830ce906f245 / pow2_128() == 0xffffe5c974513816d07a45923e9b3155);
    assert(0xffffe5c974513816d07a45923e9b3155 * 0xffffe5c974513816d07a45923e9b3155 / pow2_128() == 0xffffcb92eb51902c5b8383974a3382c6);
    assert(0xffffcb92eb51902c5b8383974a3382c8 * 0xffffcb92eb51902c5b8383974a3382c8 / pow2_128() == 0xffff9725e15f9f3a32abf4907f33c4db);
    assert(0xffff9725e15f9f3a32abf4907f33c4db * 0xffff9725e15f9f3a32abf4907f33c4db / pow2_128() == 0xffff2e4bedb1312ee0c76bfe72caead4);
    assert(0xffff2e4bedb1312ee0c76bfe72caead6 * 0xffff2e4bedb1312ee0c76bfe72caead6 / pow2_128() == 0xfffe5c988729e6ec2f62506345b8b4c8);
    assert(0xfffe5c988729e6ec2f62506345b8b4c9 * 0xfffe5c988729e6ec2f62506345b8b4c9 / pow2_128() == 0xfffcb933bd6fad37aa2d162d1a594001);
    assert(0xfffcb933bd6fad37aa2d162d1a594001 * 0xfffcb933bd6fad37aa2d162d1a594001 / pow2_128() == 0xfff97272373d413259a46990580e2138);
    assert(0xfff97272373d413259a46990580e213a * 0xfff97272373d413259a46990580e213a / pow2_128() == 0xfff2e50f5f656932ef12357cf3c7fdcc);
    assert(0xfff2e50f5f656932ef12357cf3c7fdcc * 0xfff2e50f5f656932ef12357cf3c7fdcc / pow2_128() == 0xffe5caca7e10e4e61c3624eaa0941cd0);
    assert(0xffe5caca7e10e4e61c3624eaa0941cd0 * 0xffe5caca7e10e4e61c3624eaa0941cd0 / pow2_128() == 0xffcb9843d60f6159c9db58835c926643);
    assert(0xffcb9843d60f6159c9db58835c926644 * 0xffcb9843d60f6159c9db58835c926644 / pow2_128() == 0xff973b41fa98c081472e6896dfb254c0);
    assert(0xff973b41fa98c081472e6896dfb254c0 * 0xff973b41fa98c081472e6896dfb254c0 / pow2_128() == 0xff2ea16466c96a3843ec78b326b52861);
    assert(0xff2ea16466c96a3843ec78b326b52861 * 0xff2ea16466c96a3843ec78b326b52861 / pow2_128() == 0xfe5dee046a99a2a811c461f1969c3053);
    assert(0xfe5dee046a99a2a811c461f1969c3053 * 0xfe5dee046a99a2a811c461f1969c3053 / pow2_128() == 0xfcbe86c7900a88aedcffc83b479aa3a3);
    assert(0xfcbe86c7900a88aedcffc83b479aa3a4 * 0xfcbe86c7900a88aedcffc83b479aa3a4 / pow2_128() == 0xf987a7253ac413176f2b074cf7815e54);
    assert(0xf987a7253ac413176f2b074cf7815e54 * 0xf987a7253ac413176f2b074cf7815e54 / pow2_128() == 0xf3392b0822b70005940c7a398e4b70f2);
    assert(0xf3392b0822b70005940c7a398e4b70f3 * 0xf3392b0822b70005940c7a398e4b70f3 / pow2_128() == 0xe7159475a2c29b7443b29c7fa6e889d9);
    assert(0xe7159475a2c29b7443b29c7fa6e889d9 * 0xe7159475a2c29b7443b29c7fa6e889d9 / pow2_128() == 0xd097f3bdfd2022b8845ad8f792aa5826);
    assert(0xd097f3bdfd2022b8845ad8f792aa5825 * 0xd097f3bdfd2022b8845ad8f792aa5825 / pow2_128() == 0xa9f746462d870fdf8a65dc1f90e061e4);
    assert(0xa9f746462d870fdf8a65dc1f90e061e5 * 0xa9f746462d870fdf8a65dc1f90e061e5 / pow2_128() == 0x70d869a156d2a1b890bb3df62baf32f6);
    assert(0x70d869a156d2a1b890bb3df62baf32f7 * 0x70d869a156d2a1b890bb3df62baf32f7 / pow2_128() == 0x31be135f97d08fd981231505542fcfa5);
    assert(0x31be135f97d08fd981231505542fcfa6 * 0x31be135f97d08fd981231505542fcfa6 / pow2_128() == 0x9aa508b5b7a84e1c677de54f3e99bc9);
    assert(0x9aa508b5b7a84e1c677de54f3e99bc9 * 0x9aa508b5b7a84e1c677de54f3e99bc9 / pow2_128() == 0x5d6af8dedb81196699c329225ee604);
    assert(0x5d6af8dedb81196699c329225ee604 * 0x5d6af8dedb81196699c329225ee604 / pow2_128() == 0x2216e584f5fa1ea926041bedfe97);
    assert(0x2216e584f5fa1ea926041bedfe98 * 0x2216e584f5fa1ea926041bedfe98 / pow2_128() == 0x48a170391f7dc42444e8fa2);
}

/// `x`, multiplied `t` times by `d` at scale 2^128.
pub open spec fn scaled_times(x: nat, d: nat, t: nat) -> nat
    decreases t,
{
    if t == 0 {
        x
    } else {
        mul_q128(scaled_times(x, d, (t - 1) as nat), d)
    }
}

/// `x`, multiplied by `d` at scale 2^128 where `bit` is set.
pub open spec fn scaled_if(x: nat, d: nat, bit: bool) -> nat {
    if bit {
        mul_q128(x, d)
    } else {
        x
    }
}

/// 1 for a set bit, 0 for a clear one.
pub open spec fn bit_value(bit: bool) -> nat {
    if bit {
        1
    } else {
        0
    }
}

/// Numbers that are near each other stay as near under scaling.
pub proof fn lemma_scaled_times_near(x: nat, y: nat, d: nat, t: nat, e: nat)
    requires
        near(x, y, e),
        d <= pow2_128(),
    ensures
        near(scaled_times(x, d, t), scaled_times(y, d, t), e),
    decreases t,
{
    if t > 0 {
        lemma_scaled_times_near(x, y, d, (t - 1) as nat, e);
        lemma_mul_q128_near(
            scaled_times(x, d, (t - 1) as nat),
            scaled_times(y, d, (t - 1) as nat),
            d,
            e,
        );
    }
}

/// Scaling each of two factors where its bit is set is, up to 3, scaling their
/// product once for each set bit.
pub proof fn lemma_scaled_factors(x: nat, y: nat, d: nat, first: bool, second: bool)
    requires
        x <= pow2_128(),
        y <= pow2_128(),
        d <= pow2_128(),
    ensures
        near(
            mul_q128(scaled_if(x, d, first), scaled_if(y, d, second)),
            scaled_times(mul_q128(x, y), d, bit_value(first) + bit_value(second)),
            3,
        ),
{
    let z = mul_q128(x, y);
    lemma_scale_le(x, d);
    lemma_scale_le(y, d);
    lemma_scale_le(x, y);
    assert(scaled_times(z, d, 0) == z);
    assert(scaled_times(z, d, 1) == mul_q128(z, d));
    assert(scaled_times(z, d, 2) == mul_q128(mul_q128(z, d), d));
    // (x d) y is near (x y) d.
    lemma_mul_q128_commutes(x, d);
    lemma_mul_q128_associates(d, x, y);
    lemma_mul_q128_commutes(d, z);
    assert(near(mul_q128(mul_q128(x, d), y), mul_q128(z, d), 1));
    // x (y d) is near (x y) d.
    lemma_mul_q128_associates(x, y, d);
    assert(near(mul_q128(x, mul_q128(y, d)), mul_q128(z, d), 1));
    if first && second {
        let xd = mul_q128(x, d);
        // (x d) (y d) is near ((x d) y) d, which is near ((x y) d) d.
        lemma_mul_q128_associates(xd, y, d);
        lemma_scale_le(xd, y);
        lemma_scale_le(z, d);
        lemma_mul_q128_near(mul_q128(xd, y), mul_q128(z, d), d, 1);
    }
}

/// Scaling a number as the bits of a sum say, with the next multiplier for the
/// carry, is up to 3 scaling it once for each of the units that were added.
pub proof fn lemma_scaled_carry(x: nat, d: nat, next: nat, t: nat)
    requires
        x <= pow2_128(),
        d <= pow2_128(),
        next <= pow2_128(),
        t <= 3,
        t >= 2 ==> near(mul_q128(d, d), next, 2),
    ensures
        near(
            mul_q128(
                scaled_if(x, d, t % 2 == 1),
                if t >= 2 {
                    next
                } else {
                    pow2_128()
                },
            ),
            scaled_times(x, d, t),
            3,
        ),
{
    assert(scaled_times(x, d, 0) == x);
    assert(scaled_times(x, d, 1) == mul_q128(x, d));
    assert(scaled_times(x, d, 2) == mul_q128(mul_q128(x, d), d));
    assert(scaled_times(x, d, 3) == mul_q128(mul_q128(mul_q128(x, d), d), d));
    lemma_mul_q128_one(x);
    lemma_mul_q128_one(mul_q128(x, d));
    lemma_scale_le(x, d);
    lemma_scale_le(d, d);
    if t >= 2 {
        let base = scaled_if(x, d, t % 2 == 1);
        // (base d) d is near base (d d), which is near base next.
        lemma_mul_q128_associates(base, d, d);
        lemma_mul_q128_near(mul_q128(d, d), next, base, 2);
    }
}

/// Whether the lowest `k` bits of `a` and of `b` add up to a carry out of
/// them.
pub open spec fn carries(a: nat, b: nat, k: nat) -> bool {
    a % pow2(k) + b % pow2(k) >= pow2(k)
}

/// Bit `k` of a sum is the sum of the two bits and the carry into them, modulo
/// two; what exceeds it is the carry out.
pub proof fn lemma_sum_bits(a: nat, b: nat, k: nat)
    ensures
        tick_bit(a + b, k) == ((bit_value(tick_bit(a, k)) + bit_value(tick_bit(b, k))
            + bit_value(carries(a, b, k))) % 2 == 1),
        carries(a, b, k + 1) == (bit_value(tick_bit(a, k)) + bit_value(tick_bit(b, k))
            + bit_value(carries(a, b, k)) >= 2),
{
    let p = pow2(k);
    lemma_pow2_pos(k);
    lemma_pow2_unfold(k + 1);
    let al = a % p;
    let bl = b % p;
    let sl = (a + b) % p;
    lemma_mod_bound(a as int, p as int);
    lemma_mod_bound(b as int, p as int);
    lemma_mod_bound((a + b) as int, p as int);
    lemma_add_mod_noop(a as int, b as int, p as int);
    let carry = bit_value(carries(a, b, k));
    if al + bl >= p {
        lemma_fundamental_div_mod_converse((al + bl) as int, p as int, 1, al + bl - p);
    } else {
        lemma_small_mod(al + bl, p);
    }
    assert(al + bl == sl + p * carry) by (nonlinear_arith)
        requires
            carry == 0 && al + bl == sl || carry == 1 && al + bl == sl + p,
    ;
    lemma_mod_double(a, p);
    lemma_mod_double(b, p);
    lemma_mod_double(a + b, p);
    let abit = (a / p) % 2;
    let bbit = (b / p) % 2;
    let sbit = ((a + b) / p) % 2;
    assert(abit == bit_value(tick_bit(a, k)));
    assert(bbit == bit_value(tick_bit(b, k)));
    assert(sbit == bit_value(tick_bit(a + b, k)));
    let t = abit + bbit + carry;
    lemma_add_mod_noop(a as int, b as int, (2 * p) as int);
    let total = a % (2 * p) + b % (2 * p);
    assert(total == sl + p * t) by (nonlinear_arith)
        requires
            total == (al + p * abit) + (bl + p * bbit),
            al + bl == sl + p * carry,
            t == abit + bbit + carry,
    ;
    let half = t / 2;
    let odd = t % 2;
    assert(total == half * (2 * p) + (sl + p * odd)) by (nonlinear_arith)
        requires
            total == sl + p * t,
            t == 2 * half + odd,
    ;
    assert(0 <= sl + p * odd < 2 * p) by (nonlinear_arith)
        requires
            0 <= sl < p,
            0 <= odd <= 1,
    ;
    lemma_fundamental_div_mod_converse(total as int, (2 * p) as int, half as int, (sl + p * odd) as int);
    assert(p * sbit == p * odd);
    assert(sbit == odd) by (nonlinear_arith)
        requires
            p * sbit == p * odd,
            p > 0,
    ;
    assert((total >= 2 * p) == (t >= 2)) by (nonlinear_arith)
        requires
            total == sl + p * t,
            0 <= sl < p,
            0 <= t <= 3,
    ;
}

/// The factor that stands for a carry into bit `k`: the multiplier of that bit,
/// or one where there is no carry.
pub open spec fn carry_factor(k: nat, carry: bool) -> nat {
    if carry {
        fine_multiplier(k)
    } else {
        pow2_128()
    }
}

/// After the lowest `k` bits, the product of the fine ratios of two exponents
/// is, up to `10 k`, the fine ratio of their sum, scaled for the carry.
pub proof fn lemma_fine_product_upto(a: nat, b: nat, k: nat)
    requires
        a + b < fine_limit(),
        k <= 36,
    ensures
        near(
            mul_q128(fine_upto(a, k), fine_upto(b, k)),
            mul_q128(fine_upto(a + b, k), carry_factor(k, carries(a, b, k))),
            10 * k,
        ),
    decreases k,
{
    if k == 0 {
        vstd::arithmetic::power2::lemma2_to64();
        lemma_mul_q128_one(pow2_128());
    } else {
        let j = (k - 1) as nat;
        lemma_fine_product_upto(a, b, j);
        lemma_sum_bits(a, b, j);
        let x = fine_upto(a, j);
        let y = fine_upto(b, j);
        let s = fine_upto(a + b, j);
        let d = fine_multiplier(j);
        let next = fine_multiplier(k);
        let first = tick_bit(a, j);
        let second = tick_bit(b, j);
        let carry_in = carries(a, b, j);
        let carry_out = carries(a, b, k);
        let t = bit_value(first) + bit_value(second) + bit_value(carry_in);
        lemma_fine_upto_le_one(a, j);
        lemma_fine_upto_le_one(b, j);
        lemma_fine_upto_le_one(a + b, j);
        lemma_fine_multiplier_bounds(j);
        lemma_fine_multiplier_bounds(k);
        if k == 36 {
            lemma_fine_limit();
            lemma_small_mod(a, pow2(36));
            lemma_small_mod(b, pow2(36));
            assert(!carry_out);
        } else {
            lemma_fine_table_consistent(j);
        }
        // The left side: both factors, each scaled where its bit is set.
        lemma_scaled_factors(x, y, d, first, second);
        // The induction hypothesis, scaled once for each of the two bits.
        let z = mul_q128(x, y);
        let w = mul_q128(s, carry_factor(j, carry_in));
        lemma_scaled_times_near(z, w, d, bit_value(first) + bit_value(second), 10 * j);
        lemma_mul_q128_one(s);
        assert(w == scaled_times(s, d, bit_value(carry_in))) by {
            assert(scaled_times(s, d, 0) == s);
            assert(scaled_times(s, d, 1) == mul_q128(s, d));
        }
        lemma_scaled_times_joins(s, d, bit_value(carry_in), bit_value(first) + bit_value(second));
        // The right side: the sum's bit and the carry out.
        lemma_scaled_carry(s, d, next, t);
        assert(fine_upto(a, k) == scaled_if(x, d, first));
        assert(fine_upto(b, k) == scaled_if(y, d, second));
        assert(fine_upto(a + b, k) == scaled_if(s, d, t % 2 == 1));
        assert(carry_factor(k, carry_out) == if t >= 2 {
            next
        } else {
            pow2_128()
        });
    }
}

/// Scaling `u` times and then `t` times is scaling `u + t` times.
pub proof fn lemma_scaled_times_joins(x: nat, d: nat, u: nat, t: nat)
    ensures
        scaled_times(scaled_times(x, d, u), d, t) == scaled_times(x, d, u + t),
    decreases t,
{
    if t > 0 {
        lemma_scaled_times_joins(x, d, u, (t - 1) as nat);
    }
}

/// The product of the fine ratios of two exponents is the fine ratio of their
/// sum, up to 360.
pub proof fn lemma_fine_product(a: nat, b: nat)
    requires
        a + b < fine_limit(),
    ensures
        near(mul_q128(fine_ratio(a), fine_ratio(b)), fine_ratio(a + b), 360),
{
    lemma_fine_product_upto(a, b, 36);
    lemma_fine_limit();
    lemma_small_mod(a, pow2(36));
    lemma_small_mod(b, pow2(36));
    lemma_mul_q128_one(fine_ratio(a + b));
}

} // verus!
