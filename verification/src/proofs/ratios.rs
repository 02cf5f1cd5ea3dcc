//! What holds of the ratio model: its bounds, and that it falls strictly as
//! the magnitude of the tick grows.

use crate::proofs::arith::lemma_scale_le;
use crate::proofs::fine_ratio::{lemma_fine_decreasing, lemma_fine_of_ticks};
use crate::tick_math::{narrow_round_up, ratio_multiplier, ratio_upto, spec_ratio, tick_bit};
use crate::wide::{pow2_128, pow2_256, pow2_32};
use vstd::arithmetic::div_mod::lemma_fundamental_div_mod;
use vstd::arithmetic::power2::lemma2_to64;
use vstd::prelude::*;

verus! {

/// Every multiplier is positive and below 2^128.
pub proof fn lemma_multiplier_bounds(k: nat)
    ensures
        0 < ratio_multiplier(k) < pow2_128(),
{
}

/// A ratio never exceeds one, that is 2^128.
pub proof fn lemma_ratio_upto_le_one(abs_tick: nat, k: nat)
    ensures
        ratio_upto(abs_tick, k) <= pow2_128(),
    decreases k,
{
    if k > 0 {
        lemma_ratio_upto_le_one(abs_tick, (k - 1) as nat);
        lemma_multiplier_bounds((k - 1) as nat);
        lemma_scale_le(ratio_upto(abs_tick, (k - 1) as nat), ratio_multiplier((k - 1) as nat));
    }
}

/// One step of the ratio model.
proof fn lemma_ratio_step(n: nat, k: nat, bit: bool, prev: nat, next: nat)
    requires
        ratio_upto(n, k) == prev,
        tick_bit(n, k) == bit,
        bit ==> prev * ratio_multiplier(k) / pow2_128() == next,
        !bit ==> prev == next,
    ensures
        ratio_upto(n, k + 1) == next,
{
}

/// The ratio of the largest magnitude, written out.
pub proof fn lemma_ratio_at_max_tick()
    ensures
        spec_ratio(887272) == 0x1000276a221a17501nat,
{
    lemma2_to64();
    assert(ratio_upto(887272, 0) == pow2_128());
    assert(tick_bit(887272, 0) == false);
    lemma_ratio_step(887272, 0, false, 0x100000000000000000000000000000000nat, 0x100000000000000000000000000000000nat);
    assert(tick_bit(887272, 1) == false);
    lemma_ratio_step(887272, 1, false, 0x100000000000000000000000000000000nat, 0x100000000000000000000000000000000nat);
    assert(tick_bit(887272, 2) == false);
    lemma_ratio_step(887272, 2, false, 0x100000000000000000000000000000000nat, 0x100000000000000000000000000000000nat);
    assert(tick_bit(887272, 3) == true);
    assert(0x100000000000000000000000000000000nat * 0xffe5caca7e10e4e61c3624eaa0941cd0 / pow2_128() == 0xffe5caca7e10e4e61c3624eaa0941cd0);
    lemma_ratio_step(887272, 3, true, 0x100000000000000000000000000000000nat, 0xffe5caca7e10e4e61c3624eaa0941cd0);
    assert(tick_bit(887272, 4) == false);
    lemma_ratio_step(887272, 4, false, 0xffe5caca7e10e4e61c3624eaa0941cd0, 0xffe5caca7e10e4e61c3624eaa0941cd0);
    assert(tick_bit(887272, 5) == true);
    assert(0xffe5caca7e10e4e61c3624eaa0941cd0 * 0xff973b41fa98c081472e6896dfb254c0 / pow2_128() == 0xff7d10c63a977157da4140deb6f31a7b);
    lemma_ratio_step(887272, 5, true, 0xffe5caca7e10e4e61c3624eaa0941cd0, 0xff7d10c63a977157da4140deb6f31a7b);
    assert(tick_bit(887272, 6) == true);
    assert(0xff7d10c63a977157da4140deb6f31a7b * 0xff2ea16466c96a3843ec78b326b52861 / pow2_128() == 0xfeac1d4052f7714818b490c1138ea058);
    lemma_ratio_step(887272, 6, true, 0xff7d10c63a977157da4140deb6f31a7b, 0xfeac1d4052f7714818b490c1138ea058);
    assert(tick_bit(887272, 7) == true);
    assert(0xfeac1d4052f7714818b490c1138ea058 * 0xfe5dee046a99a2a811c461f1969c3053 / pow2_128() == 0xfd0c3654da9e033741d1a9f93707f6f6);
    lemma_ratio_step(887272, 7, true, 0xfeac1d4052f7714818b490c1138ea058, 0xfd0c3654da9e033741d1a9f93707f6f6);
    assert(tick_bit(887272, 8) == true);
    assert(0xfd0c3654da9e033741d1a9f93707f6f6 * 0xfcbe86c7900a88aedcffc83b479aa3a4 / pow2_128() == 0xf9d459c5817dbafa9e376ae84dcfeb8b);
    lemma_ratio_step(887272, 8, true, 0xfd0c3654da9e033741d1a9f93707f6f6, 0xf9d459c5817dbafa9e376ae84dcfeb8b);
    assert(tick_bit(887272, 9) == false);
    lemma_ratio_step(887272, 9, false, 0xf9d459c5817dbafa9e376ae84dcfeb8b, 0xf9d459c5817dbafa9e376ae84dcfeb8b);
    assert(tick_bit(887272, 10) == false);
    lemma_ratio_step(887272, 10, false, 0xf9d459c5817dbafa9e376ae84dcfeb8b, 0xf9d459c5817dbafa9e376ae84dcfeb8b);
    assert(tick_bit(887272, 11) == true);
    assert(0xf9d459c5817dbafa9e376ae84dcfeb8b * 0xe7159475a2c29b7443b29c7fa6e889d9 / pow2_128() == 0xe183ac4e25d5949966242a64e9c80e2f);
    lemma_ratio_step(887272, 11, true, 0xf9d459c5817dbafa9e376ae84dcfeb8b, 0xe183ac4e25d5949966242a64e9c80e2f);
    assert(tick_bit(887272, 12) == false);
    lemma_ratio_step(887272, 12, false, 0xe183ac4e25d5949966242a64e9c80e2f, 0xe183ac4e25d5949966242a64e9c80e2f);
    assert(tick_bit(887272, 13) == false);
    lemma_ratio_step(887272, 13, false, 0xe183ac4e25d5949966242a64e9c80e2f, 0xe183ac4e25d5949966242a64e9c80e2f);
    assert(tick_bit(887272, 14) == false);
    lemma_ratio_step(887272, 14, false, 0xe183ac4e25d5949966242a64e9c80e2f, 0xe183ac4e25d5949966242a64e9c80e2f);
    assert(tick_bit(887272, 15) == true);
    assert(0xe183ac4e25d5949966242a64e9c80e2f * 0x31be135f97d08fd981231505542fcfa6 / pow2_128() == 0x2bd1a4c5d2a1181aca1ef15e64c2e3cf);
    lemma_ratio_step(887272, 15, true, 0xe183ac4e25d5949966242a64e9c80e2f, 0x2bd1a4c5d2a1181aca1ef15e64c2e3cf);
    assert(tick_bit(887272, 16) == true);
    assert(0x2bd1a4c5d2a1181aca1ef15e64c2e3cf * 0x9aa508b5b7a84e1c677de54f3e99bc9 / pow2_128() == 0x1a785cbbdc050483e3be5812760be73);
    lemma_ratio_step(887272, 16, true, 0x2bd1a4c5d2a1181aca1ef15e64c2e3cf, 0x1a785cbbdc050483e3be5812760be73);
    assert(tick_bit(887272, 17) == false);
    lemma_ratio_step(887272, 17, false, 0x1a785cbbdc050483e3be5812760be73, 0x1a785cbbdc050483e3be5812760be73);
    assert(tick_bit(887272, 18) == true);
    assert(0x1a785cbbdc050483e3be5812760be73 * 0x2216e584f5fa1ea926041bedfe98 / pow2_128() == 0x3865a6455d07d2bc87c5956d2e);
    lemma_ratio_step(887272, 18, true, 0x1a785cbbdc050483e3be5812760be73, 0x3865a6455d07d2bc87c5956d2e);
    assert(tick_bit(887272, 19) == true);
    assert(0x3865a6455d07d2bc87c5956d2e * 0x48a170391f7dc42444e8fa2 / pow2_128() == 0x1000276a221a17501);
    lemma_ratio_step(887272, 19, true, 0x3865a6455d07d2bc87c5956d2e, 0x1000276a221a17501);
}

/// The smallest ratio of a tick in the domain: that of the largest magnitude.
pub open spec fn min_ratio() -> nat {
    0x1000276a221a17501nat
}

/// No ratio of the domain lies below that of the largest magnitude.
pub proof fn lemma_ratio_at_least_min(n: nat)
    requires
        n <= 887272,
    ensures
        spec_ratio(n) >= min_ratio(),
{
    lemma_fine_of_ticks(n, 36);
    lemma_fine_of_ticks(887272, 36);
    lemma_ratio_at_max_tick();
    lemma_fine_decreasing(n * 65536, 887272 * 65536);
}

/// The ratio falls strictly as the magnitude grows, by at least 2^36 a step.
pub proof fn lemma_ratio_strictly_decreasing(a: nat, b: nat)
    requires
        a < b <= 887272,
    ensures
        spec_ratio(a) >= spec_ratio(b) + 0x10_0000_0000,
        spec_ratio(b) >= min_ratio(),
{
    lemma_fine_of_ticks(a, 36);
    lemma_fine_of_ticks(b, 36);
    lemma_ratio_at_least_min(b);
    lemma_fine_decreasing(a * 65536, b * 65536);
}

/// Rounding up to scale 2^96 keeps the order of two ratios, and keeps them
/// apart where they differ by 2^32 or more.
pub proof fn lemma_narrow_round_up_ordered(x: nat, y: nat)
    ensures
        x <= y ==> narrow_round_up(x) <= narrow_round_up(y),
        x + pow2_32() <= y ==> narrow_round_up(x) < narrow_round_up(y),
{
}

/// The reciprocal of the smaller of two ratios that lie 2^36 apart exceeds that
/// of the larger by 2^32 or more.
pub proof fn lemma_reciprocal_gap(x: nat, y: nat)
    requires
        0 < y,
        y + 0x10_0000_0000 <= x <= pow2_128(),
    ensures
        (pow2_256() - 1) / (y as int) >= (pow2_256() - 1) / (x as int) + pow2_32(),
{
    let m = pow2_256() - 1;
    let xi = x as int;
    let yi = y as int;
    let q = m / xi;
    let d = pow2_32() as int;
    lemma_fundamental_div_mod(m, xi);
    assert(q * xi <= m) by (nonlinear_arith)
        requires
            m == xi * q + m % xi,
            0 <= m % xi,
    ;
    assert(q >= pow2_128() - 1) by (nonlinear_arith)
        requires
            m == xi * q + m % xi,
            m % xi < xi,
            0 < xi <= pow2_128(),
            m == pow2_128() * pow2_128() - 1,
    ;
    assert((q + d) * yi <= m) by (nonlinear_arith)
        requires
            q * xi <= m,
            q >= pow2_128() - 1,
            0 < yi,
            yi + 0x10_0000_0000 <= xi,
            xi <= pow2_128(),
            d == 0x1_0000_0000,
            pow2_128() == 0x1_0000_0000_0000_0000_0000_0000_0000_0000,
    ;
    lemma_fundamental_div_mod(m, yi);
    assert(m / yi >= q + d) by (nonlinear_arith)
        requires
            (q + d) * yi <= m,
            m == yi * (m / yi) + m % yi,
            0 <= m % yi < yi,
    ;
}

/// Taking in more bits does not increase the ratio.
pub proof fn lemma_ratio_upto_nonincreasing(n: nat, k: nat, j: nat)
    requires
        k <= j,
    ensures
        ratio_upto(n, j) <= ratio_upto(n, k),
    decreases j,
{
    if k < j {
        lemma_ratio_upto_nonincreasing(n, k, (j - 1) as nat);
        lemma_multiplier_bounds((j - 1) as nat);
        lemma_scale_le(ratio_upto(n, (j - 1) as nat), ratio_multiplier((j - 1) as nat));
    }
}

} // verus!
