//! How fine ratios behave under halving and squaring: halving a ratio adds the
//! halving span to its exponent, squaring doubles the exponent, each up to a
//! few units.

use crate::proofs::fine_product::{lemma_fine_product, lemma_mul_q128_brackets, mul_q128};
use crate::proofs::fine_ratio::{
    fine_limit, fine_multiplier, fine_ratio, fine_upto, lemma_fine_successor,
    lemma_fine_upto_le_one,
};
use crate::tick_math::tick_bit;
use crate::wide::{pow2_127, pow2_128};
use vstd::arithmetic::power2::{
    lemma2_to64, lemma2_to64_rest, lemma_pow2_pos, lemma_pow2_unfold, pow2,
};
use vstd::prelude::*;

verus! {

/// The fine exponent over which the ratio halves: 65536 times the number of
/// half-ticks in a doubling of the price, rounded.
pub open spec fn halving_span() -> nat {
    908567298
}

/// One step of the fine ratio model.
proof fn lemma_fine_step(n: nat, k: nat, bit: bool, prev: nat, next: nat)
    requires
        fine_upto(n, k) == prev,
        tick_bit(n, k) == bit,
        bit ==> prev * fine_multiplier(k) / pow2_128() == next,
        !bit ==> prev == next,
    ensures
        fine_upto(n, k + 1) == next,
{
}

/// The fine ratio of the halving span after its lowest 18 bits.
proof fn lemma_fine_at_span_low()
    ensures
        fine_upto(908567298, 18) == 0xfff415b41548f77f02c9d5914793fcc2,
{
    lemma2_to64();
    lemma2_to64_rest();
    assert(fine_upto(908567298, 0) == pow2_128());
    assert(tick_bit(908567298, 0) == false);
    lemma_fine_step(908567298, 0, false, 0x100000000000000000000000000000000nat, 0x100000000000000000000000000000000nat);
    assert(tick_bit(908567298, 1) == true);
    assert(0x100000000000000000000000000000000nat * 0xfffffff9725cbe7f7901fc21395e4b58 / pow2_128() == 0xfffffff9725cbe7f7901fc21395e4b58);
    lemma_fine_step(908567298, 1, true, 0x100000000000000000000000000000000nat, 0xfffffff9725cbe7f7901fc21395e4b58);
    assert(tick_bit(908567298, 2) == false);
    lemma_fine_step(908567298, 2, false, 0xfffffff9725cbe7f7901fc21395e4b58, 0xfffffff9725cbe7f7901fc21395e4b58);
    assert(tick_bit(908567298, 3) == false);
    lemma_fine_step(908567298, 3, false, 0xfffffff9725cbe7f7901fc21395e4b58, 0xfffffff9725cbe7f7901fc21395e4b58);
    assert(tick_bit(908567298, 4) == false);
    lemma_fine_step(908567298, 4, false, 0xfffffff9725cbe7f7901fc21395e4b58, 0xfffffff9725cbe7f7901fc21395e4b58);
    assert(tick_bit(908567298, 5) == false);
    lemma_fine_step(908567298, 5, false, 0xfffffff9725cbe7f7901fc21395e4b58, 0xfffffff9725cbe7f7901fc21395e4b58);
    assert(tick_bit(908567298, 6) == false);
    lemma_fine_step(908567298, 6, false, 0xfffffff9725cbe7f7901fc21395e4b58, 0xfffffff9725cbe7f7901fc21395e4b58);
    assert(tick_bit(908567298, 7) == false);
    lemma_fine_step(908567298, 7, false, 0xfffffff9725cbe7f7901fc21395e4b58, 0xfffffff9725cbe7f7901fc21395e4b58);
    assert(tick_bit(908567298, 8) == true);
    assert(0xfffffff9725cbe7f7901fc21395e4b58 * 0xfffffcb92e64934084394fd40439866c / pow2_128() == 0xfffffcb2a0c16738ff4089a96fb3310d);
    lemma_fine_step(908567298, 8, true, 0xfffffff9725cbe7f7901fc21395e4b58, 0xfffffcb2a0c16738ff4089a96fb3310d);
    assert(tick_bit(908567298, 9) == true);
    assert(0xfffffcb2a0c16738ff4089a96fb3310d * 0xfffff9725cd3e301f99dbb33e768dab8 / pow2_128() == 0xfffff624fdaaee2ebb3e0bcaa292c06e);
    lemma_fine_step(908567298, 9, true, 0xfffffcb2a0c16738ff4089a96fb3310d, 0xfffff624fdaaee2ebb3e0bcaa292c06e);
    assert(tick_bit(908567298, 10) == false);
    lemma_fine_step(908567298, 10, false, 0xfffff624fdaaee2ebb3e0bcaa292c06e, 0xfffff624fdaaee2ebb3e0bcaa292c06e);
    assert(tick_bit(908567298, 11) == false);
    lemma_fine_step(908567298, 11, false, 0xfffff624fdaaee2ebb3e0bcaa292c06e, 0xfffff624fdaaee2ebb3e0bcaa292c06e);
    assert(tick_bit(908567298, 12) == false);
    lemma_fine_step(908567298, 12, false, 0xfffff624fdaaee2ebb3e0bcaa292c06e, 0xfffff624fdaaee2ebb3e0bcaa292c06e);
    assert(tick_bit(908567298, 13) == true);
    assert(0xfffff624fdaaee2ebb3e0bcaa292c06e * 0xffff9725e15f9f3a32abf4907f33c4db / pow2_128() == 0xffff8d4ae313ec0950795c107250a38b);
    lemma_fine_step(908567298, 13, true, 0xfffff624fdaaee2ebb3e0bcaa292c06e, 0xffff8d4ae313ec0950795c107250a38b);
    assert(tick_bit(908567298, 14) == false);
    lemma_fine_step(908567298, 14, false, 0xffff8d4ae313ec0950795c107250a38b, 0xffff8d4ae313ec0950795c107250a38b);
    assert(tick_bit(908567298, 15) == true);
    assert(0xffff8d4ae313ec0950795c107250a38b * 0xfffe5c988729e6ec2f62506345b8b4c9 / pow2_128() == 0xfffde9e4262a9e4f5bb5dd700abf620f);
    lemma_fine_step(908567298, 15, true, 0xffff8d4ae313ec0950795c107250a38b, 0xfffde9e4262a9e4f5bb5dd700abf620f);
    assert(tick_bit(908567298, 16) == true);
    assert(0xfffde9e4262a9e4f5bb5dd700abf620f * 0xfffcb933bd6fad37aa2d162d1a594001 / pow2_128() == 0xfffaa31eb9a39fa9643f75f90d09bc8e);
    lemma_fine_step(908567298, 16, true, 0xfffde9e4262a9e4f5bb5dd700abf620f, 0xfffaa31eb9a39fa9643f75f90d09bc8e);
    assert(tick_bit(908567298, 17) == true);
    assert(0xfffaa31eb9a39fa9643f75f90d09bc8e * 0xfff97272373d413259a46990580e213a / pow2_128() == 0xfff415b41548f77f02c9d5914793fcc2);
    lemma_fine_step(908567298, 17, true, 0xfffaa31eb9a39fa9643f75f90d09bc8e, 0xfff415b41548f77f02c9d5914793fcc2);
}

/// The fine ratio of the halving span after all its bits.
proof fn lemma_fine_at_span_high()
    requires
        fine_upto(908567298, 18) == 0xfff415b41548f77f02c9d5914793fcc2,
    ensures
        fine_upto(908567298, 36) == 0x7fffffffbceef93216b12ab95a8f239f,
{
    lemma2_to64();
    lemma2_to64_rest();
    assert(tick_bit(908567298, 18) == true);
    assert(0xfff415b41548f77f02c9d5914793fcc2 * 0xfff2e50f5f656932ef12357cf3c7fdcc / pow2_128() == 0xffe6fb5f9b8822a16c0f74e7496708f4);
    lemma_fine_step(908567298, 18, true, 0xfff415b41548f77f02c9d5914793fcc2, 0xffe6fb5f9b8822a16c0f74e7496708f4);
    assert(tick_bit(908567298, 19) == false);
    lemma_fine_step(908567298, 19, false, 0xffe6fb5f9b8822a16c0f74e7496708f4, 0xffe6fb5f9b8822a16c0f74e7496708f4);
    assert(tick_bit(908567298, 20) == false);
    lemma_fine_step(908567298, 20, false, 0xffe6fb5f9b8822a16c0f74e7496708f4, 0xffe6fb5f9b8822a16c0f74e7496708f4);
    assert(tick_bit(908567298, 21) == true);
    assert(0xffe6fb5f9b8822a16c0f74e7496708f4 * 0xff973b41fa98c081472e6896dfb254c0 / pow2_128() == 0xff7e40deb16676f92b213fb359bcfda0);
    lemma_fine_step(908567298, 21, true, 0xffe6fb5f9b8822a16c0f74e7496708f4, 0xff7e40deb16676f92b213fb359bcfda0);
    assert(tick_bit(908567298, 22) == false);
    lemma_fine_step(908567298, 22, false, 0xff7e40deb16676f92b213fb359bcfda0, 0xff7e40deb16676f92b213fb359bcfda0);
    assert(tick_bit(908567298, 23) == false);
    lemma_fine_step(908567298, 23, false, 0xff7e40deb16676f92b213fb359bcfda0, 0xff7e40deb16676f92b213fb359bcfda0);
    assert(tick_bit(908567298, 24) == false);
    lemma_fine_step(908567298, 24, false, 0xff7e40deb16676f92b213fb359bcfda0, 0xff7e40deb16676f92b213fb359bcfda0);
    assert(tick_bit(908567298, 25) == true);
    assert(0xff7e40deb16676f92b213fb359bcfda0 * 0xf987a7253ac413176f2b074cf7815e54 / pow2_128() == 0xf9092f7d543327147490e6d6c4659666);
    lemma_fine_step(908567298, 25, true, 0xff7e40deb16676f92b213fb359bcfda0, 0xf9092f7d543327147490e6d6c4659666);
    assert(tick_bit(908567298, 26) == true);
    assert(0xf9092f7d543327147490e6d6c4659666 * 0xf3392b0822b70005940c7a398e4b70f3 / pow2_128() == 0xec9b54fbfedd14705c568396964d15a6);
    lemma_fine_step(908567298, 26, true, 0xf9092f7d543327147490e6d6c4659666, 0xec9b54fbfedd14705c568396964d15a6);
    assert(tick_bit(908567298, 27) == false);
    lemma_fine_step(908567298, 27, false, 0xec9b54fbfedd14705c568396964d15a6, 0xec9b54fbfedd14705c568396964d15a6);
    assert(tick_bit(908567298, 28) == true);
    assert(0xec9b54fbfedd14705c568396964d15a6 * 0xd097f3bdfd2022b8845ad8f792aa5825 / pow2_128() == 0xc0caa5f2ea031c78328e755018c6454f);
    lemma_fine_step(908567298, 28, true, 0xec9b54fbfedd14705c568396964d15a6, 0xc0caa5f2ea031c78328e755018c6454f);
    assert(tick_bit(908567298, 29) == true);
    assert(0xc0caa5f2ea031c78328e755018c6454f * 0xa9f746462d870fdf8a65dc1f90e061e5 / pow2_128() == 0x7fffffffbceef93216b12ab95a8f239f);
    lemma_fine_step(908567298, 29, true, 0xc0caa5f2ea031c78328e755018c6454f, 0x7fffffffbceef93216b12ab95a8f239f);
    assert(tick_bit(908567298, 30) == false);
    lemma_fine_step(908567298, 30, false, 0x7fffffffbceef93216b12ab95a8f239f, 0x7fffffffbceef93216b12ab95a8f239f);
    assert(tick_bit(908567298, 31) == false);
    lemma_fine_step(908567298, 31, false, 0x7fffffffbceef93216b12ab95a8f239f, 0x7fffffffbceef93216b12ab95a8f239f);
    assert(tick_bit(908567298, 32) == false);
    lemma_fine_step(908567298, 32, false, 0x7fffffffbceef93216b12ab95a8f239f, 0x7fffffffbceef93216b12ab95a8f239f);
    assert(tick_bit(908567298, 33) == false);
    lemma_fine_step(908567298, 33, false, 0x7fffffffbceef93216b12ab95a8f239f, 0x7fffffffbceef93216b12ab95a8f239f);
    assert(tick_bit(908567298, 34) == false);
    lemma_fine_step(908567298, 34, false, 0x7fffffffbceef93216b12ab95a8f239f, 0x7fffffffbceef93216b12ab95a8f239f);
    assert(tick_bit(908567298, 35) == false);
    lemma_fine_step(908567298, 35, false, 0x7fffffffbceef93216b12ab95a8f239f, 0x7fffffffbceef93216b12ab95a8f239f);
}

/// The fine ratio of the halving span, written out: just below one half.
pub proof fn lemma_fine_at_span()
    ensures
        fine_ratio(halving_span()) == 0x7fffffffbceef93216b12ab95a8f239f,
{
    lemma_fine_at_span_low();
    lemma_fine_at_span_high();
}

/// One half lies between the fine ratios of the halving span and of the
/// exponent before it.
pub proof fn lemma_half_at_span()
    ensures
        fine_ratio(halving_span()) <= pow2_127(),
        pow2_127() <= fine_ratio((halving_span() - 1) as nat),
{
    lemma_fine_at_span();
    lemma_fine_successor((halving_span() - 1) as nat);
}

/// The product of the fine ratios of two exponents lies between the fine
/// ratios of the exponents next to their sum.
pub proof fn lemma_fine_sum_brackets(a: nat, b: nat)
    requires
        a + b + 1 < fine_limit(),
    ensures
        fine_ratio(a + b + 1) <= mul_q128(fine_ratio(a), fine_ratio(b)),
        a + b >= 1 ==> mul_q128(fine_ratio(a), fine_ratio(b)) <= fine_ratio((a + b - 1) as nat),
{
    lemma_fine_product(a, b);
    lemma_fine_successor(a + b);
    if a + b >= 1 {
        lemma_fine_successor((a + b - 1) as nat);
    }
}

/// Halving a fine ratio adds the halving span to its exponent, up to two
/// units.
pub proof fn lemma_fine_halving(e: nat)
    requires
        e + halving_span() + 1 < fine_limit(),
    ensures
        2 * fine_ratio(e + halving_span() + 1) <= fine_ratio(e),
        fine_ratio(e) <= 2 * fine_ratio((e + halving_span() - 2) as nat),
{
    let span = halving_span();
    let x = fine_ratio(e) as int;
    let q = pow2_128() as int;
    lemma_half_at_span();
    lemma_fine_upto_le_one(e, 36);
    // From below: the product with the ratio of the span is at most a half.
    let h = fine_ratio(span) as int;
    let p = mul_q128(fine_ratio(e), fine_ratio(span)) as int;
    lemma_fine_product(e, span);
    lemma_mul_q128_brackets(fine_ratio(e), fine_ratio(span));
    lemma_fine_successor(e + span);
    assert(2 * p <= x) by (nonlinear_arith)
        requires
            p * q <= x * h,
            0 <= h,
            2 * h <= q,
            0 <= x,
            q > 0,
    ;
    // From above: the product with the ratio before the span is at least a half.
    let g = fine_ratio((span - 1) as nat) as int;
    let r = mul_q128(fine_ratio(e), fine_ratio((span - 1) as nat)) as int;
    lemma_fine_product(e, (span - 1) as nat);
    lemma_mul_q128_brackets(fine_ratio(e), fine_ratio((span - 1) as nat));
    lemma_fine_successor((e + span - 2) as nat);
    assert(x <= 2 * r + 1) by (nonlinear_arith)
        requires
            x * g < r * q + q,
            2 * g >= q,
            0 <= x,
            q > 0,
    ;
}

/// Squaring a fine ratio doubles its exponent, up to one unit.
pub proof fn lemma_fine_squaring(e: nat)
    requires
        1 <= e,
        2 * e + 1 < fine_limit(),
    ensures
        fine_ratio(2 * e + 1) <= mul_q128(fine_ratio(e), fine_ratio(e)),
        mul_q128(fine_ratio(e), fine_ratio(e)) <= fine_ratio((2 * e - 1) as nat),
{
    lemma_fine_sum_brackets(e, e);
}

/// Halving a fine ratio `j` times adds `j` halving spans to its exponent, up to
/// two units for each.
pub proof fn lemma_fine_halvings(e: nat, j: nat)
    requires
        e + j * (halving_span() + 1) < fine_limit(),
    ensures
        pow2(j) * fine_ratio(e + j * (halving_span() + 1)) <= fine_ratio(e),
        fine_ratio(e) <= pow2(j) * fine_ratio((e + j * (halving_span() - 2)) as nat),
    decreases j,
{
    let span = halving_span();
    lemma2_to64();
    if j == 0 {
        assert(e + 0 * (span + 1) == e) by (nonlinear_arith);
        assert(e + 0 * (span - 2) == e) by (nonlinear_arith);
    } else {
        let i = (j - 1) as nat;
        assert(j * (span + 1) == i * (span + 1) + (span + 1)) by (nonlinear_arith)
            requires
                j == i + 1,
        ;
        assert(j * (span - 2) == i * (span - 2) + (span - 2)) by (nonlinear_arith)
            requires
                j == i + 1,
        ;
        assert(i * (span - 2) <= i * (span + 1)) by (nonlinear_arith)
            requires
                span >= 2,
                i >= 0,
        ;
        lemma_fine_halvings(e, i);
        lemma_pow2_unfold(j);
        lemma_pow2_pos(i);
        let low = e + i * (span + 1);
        let high = (e + i * (span - 2)) as nat;
        lemma_fine_halving(low);
        lemma_fine_halving(high);
        let a = fine_ratio(low) as int;
        let a2 = fine_ratio(low + span + 1) as int;
        let b = fine_ratio(high) as int;
        let b2 = fine_ratio((high + span - 2) as nat) as int;
        let w = pow2(i) as int;
        assert((2 * w) * a2 <= w * a) by (nonlinear_arith)
            requires
                2 * a2 <= a,
                w > 0,
        ;
        assert(w * b <= (2 * w) * b2) by (nonlinear_arith)
            requires
                b <= 2 * b2,
                w > 0,
        ;
    }
}

} // verus!
