//! Conversion between ticks and Q64.96 square-root prices.
//!
//! A tick `t` stands for the price `1.0001^t`. Its square-root price is
//! `sqrt(1.0001^t) * 2^96`, rounded up, as the fixed-point computation below
//! defines it: the model functions of this file are that definition, and the
//! executable functions are proved to compute exactly them. How close the
//! model is to the power, and what else holds of it, is stated in `tick_laws`.

use crate::bigint::{biguint_value, u160_from_biguint};
use crate::errors::TickMathError;
use crate::log2::{log2_fixed, most_significant_bit, spec_log2};
use crate::proofs::candidates::lemma_candidate_bounds;
use crate::proofs::ratios::{
    lemma_multiplier_bounds, lemma_ratio_at_least_min, lemma_ratio_upto_le_one,
};
use crate::tick_laws::{lemma_sqrt_ratio_at_bounds, lemma_sqrt_ratio_in_bounds, lemma_tick_is_floor};
use crate::wide::{
    be_value, lemma_pow2_values, pow2_128, pow2_160, pow2_256, pow2_32, I256, U160, U256,
};
use vstd::arithmetic::power2::pow2;
use vstd::bits::lemma_u32_shr_is_div;
use vstd::prelude::*;

verus! {

/// The smallest tick.
pub const MIN_TICK: i32 = -887272;

/// The largest tick.
pub const MAX_TICK: i32 = 887272;

/// The square-root price of `MIN_TICK`, the smallest valid price.
pub open spec fn min_sqrt_ratio() -> nat {
    4295128739
}

/// The square-root price of `MAX_TICK`; valid prices lie below it.
pub open spec fn max_sqrt_ratio() -> nat {
    1461446703485210103287273052203988822378723970342nat
}

/// Whether `tick` lies in the domain of the conversion.
pub open spec fn tick_in_domain(tick: int) -> bool {
    MIN_TICK <= tick <= MAX_TICK
}

/// Whether `price` is a valid square-root price.
pub open spec fn price_in_domain(price: nat) -> bool {
    min_sqrt_ratio() <= price < max_sqrt_ratio()
}

/// The multiplier of bit `k` of a tick's magnitude: `sqrt(1.0001)^(-2^k)` at
/// scale 2^128.
pub open spec fn ratio_multiplier(k: nat) -> nat {
    if k == 0 {
        0xfffcb933bd6fad37aa2d162d1a594001
    } else if k == 1 {
        0xfff97272373d413259a46990580e213a
    } else if k == 2 {
        0xfff2e50f5f656932ef12357cf3c7fdcc
    } else if k == 3 {
        0xffe5caca7e10e4e61c3624eaa0941cd0
    } else if k == 4 {
        0xffcb9843d60f6159c9db58835c926644
    } else if k == 5 {
        0xff973b41fa98c081472e6896dfb254c0
    } else if k == 6 {
        0xff2ea16466c96a3843ec78b326b52861
    } else if k == 7 {
        0xfe5dee046a99a2a811c461f1969c3053
    } else if k == 8 {
        0xfcbe86c7900a88aedcffc83b479aa3a4
    } else if k == 9 {
        0xf987a7253ac413176f2b074cf7815e54
    } else if k == 10 {
        0xf3392b0822b70005940c7a398e4b70f3
    } else if k == 11 {
        0xe7159475a2c29b7443b29c7fa6e889d9
    } else if k == 12 {
        0xd097f3bdfd2022b8845ad8f792aa5825
    } else if k == 13 {
        0xa9f746462d870fdf8a65dc1f90e061e5
    } else if k == 14 {
        0x70d869a156d2a1b890bb3df62baf32f7
    } else if k == 15 {
        0x31be135f97d08fd981231505542fcfa6
    } else if k == 16 {
        0x9aa508b5b7a84e1c677de54f3e99bc9
    } else if k == 17 {
        0x5d6af8dedb81196699c329225ee604
    } else if k == 18 {
        0x2216e584f5fa1ea926041bedfe98
    } else {
        0x48a170391f7dc42444e8fa2
    }
}

/// Whether bit `k` of `abs_tick` is set.
pub open spec fn tick_bit(abs_tick: nat, k: nat) -> bool {
    (abs_tick / pow2(k)) % 2 == 1
}

/// The ratio at scale 2^128 after the lowest `k` bits of `abs_tick` have been
/// taken in: it starts at one, and each set bit multiplies it by that bit's
/// multiplier, rounding down.
pub open spec fn ratio_upto(abs_tick: nat, k: nat) -> nat
    decreases k,
{
    if k == 0 {
        pow2_128()
    } else {
        let prev = ratio_upto(abs_tick, (k - 1) as nat);
        if tick_bit(abs_tick, (k - 1) as nat) {
            prev * ratio_multiplier((k - 1) as nat) / pow2_128()
        } else {
            prev
        }
    }
}

/// `sqrt(1.0001)^(-abs_tick)` at scale 2^128, as twenty bits of `abs_tick`
/// give it.
pub open spec fn spec_ratio(abs_tick: nat) -> nat {
    ratio_upto(abs_tick, 20)
}

/// The magnitude of a tick.
pub open spec fn spec_abs(tick: int) -> nat {
    if tick < 0 {
        (-tick) as nat
    } else {
        tick as nat
    }
}

/// The ratio of `tick` at scale 2^128: the reciprocal is taken for a positive
/// tick.
pub open spec fn spec_ratio_of_tick(tick: int) -> nat {
    let r = spec_ratio(spec_abs(tick));
    if tick > 0 {
        ((pow2_256() - 1) / (r as int)) as nat
    } else {
        r
    }
}

/// `x / 2^32`, rounded up.
pub open spec fn narrow_round_up(x: nat) -> nat {
    if x % pow2_32() != 0 {
        x / pow2_32() + 1
    } else {
        x / pow2_32()
    }
}

/// The square-root price of `tick` in Q64.96.
pub open spec fn spec_sqrt_ratio_at_tick(tick: int) -> nat {
    narrow_round_up(spec_ratio_of_tick(tick))
}

/// The multiplier of bit `k`, for the executable code.
fn multiplier(k: u32) -> (m: u128)
    requires
        k < 20,
    ensures
        m == ratio_multiplier(k as nat),
{
    if k == 0 {
        0xfffcb933bd6fad37aa2d162d1a594001
    } else if k == 1 {
        0xfff97272373d413259a46990580e213a
    } else if k == 2 {
        0xfff2e50f5f656932ef12357cf3c7fdcc
    } else if k == 3 {
        0xffe5caca7e10e4e61c3624eaa0941cd0
    } else if k == 4 {
        0xffcb9843d60f6159c9db58835c926644
    } else if k == 5 {
        0xff973b41fa98c081472e6896dfb254c0
    } else if k == 6 {
        0xff2ea16466c96a3843ec78b326b52861
    } else if k == 7 {
        0xfe5dee046a99a2a811c461f1969c3053
    } else if k == 8 {
        0xfcbe86c7900a88aedcffc83b479aa3a4
    } else if k == 9 {
        0xf987a7253ac413176f2b074cf7815e54
    } else if k == 10 {
        0xf3392b0822b70005940c7a398e4b70f3
    } else if k == 11 {
        0xe7159475a2c29b7443b29c7fa6e889d9
    } else if k == 12 {
        0xd097f3bdfd2022b8845ad8f792aa5825
    } else if k == 13 {
        0xa9f746462d870fdf8a65dc1f90e061e5
    } else if k == 14 {
        0x70d869a156d2a1b890bb3df62baf32f7
    } else if k == 15 {
        0x31be135f97d08fd981231505542fcfa6
    } else if k == 16 {
        0x9aa508b5b7a84e1c677de54f3e99bc9
    } else if k == 17 {
        0x5d6af8dedb81196699c329225ee604
    } else if k == 18 {
        0x2216e584f5fa1ea926041bedfe98
    } else {
        0x48a170391f7dc42444e8fa2
    }
}

/// Masking with a single bit tests that bit.
proof fn lemma_bit_test(a: u32, k: u32)
    requires
        k < 32,
    ensures
        (a & (1u32 << k) != 0) == tick_bit(a as nat, k as nat),
{
    assert((a & (1u32 << k) != 0) == ((a >> k) % 2 == 1)) by (bit_vector)
        requires
            k < 32,
    ;
    lemma_u32_shr_is_div(a, k);
}

/// `ratio * m / 2^128`, for a ratio of at most one and a multiplier below one
/// in Q128.
fn scale_by(ratio: U256, m: u128) -> (r: U256)
    requires
        ratio@ <= pow2_128(),
    ensures
        r@ == ratio@ * (m as nat) / pow2_128(),
{
    let factor = U256::from_u128(m);
    proof {
        lemma_pow2_values();
        assert(ratio@ * factor@ < pow2_256()) by (nonlinear_arith)
            requires
                ratio@ <= pow2_128(),
                factor@ < pow2_128(),
                pow2_256() == pow2_128() * pow2_128(),
        ;
    }
    ratio.wrapping_mul(factor).wrapping_shr(128)
}

/// `ratio / 2^32`, rounded up.
fn narrow(ratio: U256) -> (r: U256)
    ensures
        r@ == narrow_round_up(ratio@),
{
    proof {
        lemma_pow2_values();
    }
    let shifted = ratio.wrapping_shr(32);
    let rest = ratio.wrapping_rem(U256::from_u128(0x1_0000_0000));
    if !rest.is_zero() {
        shifted.wrapping_add(U256::from_u128(1))
    } else {
        shifted
    }
}

/// The ratio of a magnitude in Q128.
fn ratio_of_magnitude(abs_tick: u32) -> (ratio: U256)
    ensures
        ratio@ == spec_ratio(abs_tick as nat),
{
    proof {
        lemma_bit_test(abs_tick, 0);
        lemma_multiplier_bounds(0);
        assert(ratio_upto(abs_tick as nat, 0) == pow2_128());
        assert(pow2_128() * ratio_multiplier(0) / pow2_128() == ratio_multiplier(0))
            by (nonlinear_arith);
    }
    let mut ratio: U256 = if abs_tick & (1u32 << 0u32) != 0 {
        U256::from_u128(multiplier(0))
    } else {
        U256::from_limbs([0, 0, 1, 0])
    };
    let mut k: u32 = 1;
    while k < 20
        invariant
            1 <= k <= 20,
            ratio@ == ratio_upto(abs_tick as nat, k as nat),
        decreases 20 - k,
    {
        proof {
            lemma_bit_test(abs_tick, k);
            lemma_ratio_upto_le_one(abs_tick as nat, k as nat);
        }
        if abs_tick & (1u32 << k) != 0 {
            ratio = scale_by(ratio, multiplier(k));
        }
        k += 1;
    }
    ratio
}

/// The square-root price of a tick of the domain.
///
/// The ratio starts at one in Q128 and is multiplied, for each set bit of the
/// tick's magnitude, by that bit's multiplier; for a positive tick the
/// reciprocal is taken; the result is narrowed to Q96, rounding up.
pub fn get_sqrt_ratio_at_tick_alloy(tick: i32) -> (price: U160)
    requires
        MIN_TICK <= tick <= MAX_TICK,
    ensures
        price@ == spec_sqrt_ratio_at_tick(tick as int),
        min_sqrt_ratio() <= price@ <= max_sqrt_ratio(),
{
    let abs_tick: u32 = if tick < 0 {
        (-tick) as u32
    } else {
        tick as u32
    };
    assert(abs_tick as nat == spec_abs(tick as int));
    let mut ratio = ratio_of_magnitude(abs_tick);
    if tick > 0 {
        proof {
            lemma_ratio_at_least_min(abs_tick as nat);
        }
        ratio = U256::max_value().wrapping_div(ratio);
    }
    assert(ratio@ == spec_ratio_of_tick(tick as int));
    let rounded = narrow(ratio);
    proof {
        lemma_sqrt_ratio_in_bounds(tick as int);
    }
    U160::from_u256(rounded).unwrap()
}

/// The square-root price of `tick`, or `InvalidTick` for a tick outside the
/// domain.
pub fn get_sqrt_ratio_at_tick_internal(tick: i32) -> (r: Result<U160, TickMathError>)
    ensures
        match r {
            Ok(price) => tick_in_domain(tick as int) && price@ == spec_sqrt_ratio_at_tick(
                tick as int,
            ) && min_sqrt_ratio() <= price@ <= max_sqrt_ratio(),
            Err(e) => !tick_in_domain(tick as int) && e == TickMathError::InvalidTick(tick),
        },
{
    if tick < MIN_TICK || tick > MAX_TICK {
        return Err(TickMathError::InvalidTick(tick));
    }
    Ok(get_sqrt_ratio_at_tick_alloy(tick))
}

/// The factor that turns a binary logarithm at scale 2^64 into a logarithm to
/// base `sqrt(1.0001)` at scale 2^128.
pub open spec fn log_sqrt10001_factor() -> int {
    255738958999603826347141
}

/// What is taken from the logarithm for the lower candidate tick: the bound of
/// the approximation's error from above.
pub open spec fn tick_low_offset() -> int {
    3402992956809132418596140100660247210
}

/// What is added to the logarithm for the upper candidate tick: the bound of
/// the approximation's error from below.
pub open spec fn tick_high_offset() -> int {
    291339464771989622907027621153398088495
}

/// The approximate logarithm of `price / 2^96` to base `sqrt(1.0001)`, at scale
/// 2^128.
pub open spec fn spec_log_sqrt10001(price: nat) -> int {
    spec_log2(price * pow2_32()) * log_sqrt10001_factor()
}

/// The lower candidate tick of `price`.
pub open spec fn spec_tick_low(price: nat) -> int {
    (spec_log_sqrt10001(price) - tick_low_offset()) / (pow2_128() as int)
}

/// The upper candidate tick of `price`.
pub open spec fn spec_tick_high(price: nat) -> int {
    (spec_log_sqrt10001(price) + tick_high_offset()) / (pow2_128() as int)
}

/// The tick of `price`: the one candidate where both agree, else the upper
/// candidate where its square-root price does not exceed `price`, else the
/// lower one.
pub open spec fn spec_tick_at_sqrt_ratio(price: nat) -> int {
    let low = spec_tick_low(price);
    let high = spec_tick_high(price);
    if low == high {
        low
    } else if spec_sqrt_ratio_at_tick(high) <= price {
        high
    } else {
        low
    }
}

/// The two ends of the domain of square-root prices.
pub struct SqrtRatio;

impl SqrtRatio {
    /// The smallest valid square-root price, that of `MIN_TICK`.
    pub fn min() -> (r: U160)
        ensures
            r@ == min_sqrt_ratio(),
    {
        U160::from_limbs([4295128739, 0, 0]).unwrap()
    }

    /// The bound of the valid square-root prices from above, that of
    /// `MAX_TICK`.
    pub fn max() -> (r: U160)
        ensures
            r@ == max_sqrt_ratio(),
    {
        U160::from_limbs([0x5d951d5263988d26, 0xefd1fc6a50648849, 0xfffd8963]).unwrap()
    }
}

/// The approximate logarithm of a valid price to base `sqrt(1.0001)`, at scale
/// 2^128.
fn log_sqrt10001(price: U256) -> (log: I256)
    requires
        price_in_domain(price@),
    ensures
        log@ == spec_log_sqrt10001(price@),
{
    proof {
        lemma_pow2_values();
        lemma_candidate_bounds(price@);
    }
    let ratio = price.wrapping_shl(32);
    assert(ratio@ == price@ * pow2_32());
    let msb = most_significant_bit(ratio);
    let log_2 = log2_fixed(ratio, msb);
    I256::from_i128(log_2).mul_exact(I256::from_u128(255738958999603826347141))
}

/// The lower and the upper candidate tick of a valid price.
fn candidate_ticks(price: U256) -> (c: (i32, i32))
    requires
        price_in_domain(price@),
    ensures
        c.0 == spec_tick_low(price@),
        c.1 == spec_tick_high(price@),
{
    proof {
        lemma_pow2_values();
        lemma_candidate_bounds(price@);
    }
    let log = log_sqrt10001(price);
    let low = log.sub_exact(I256::from_u128(3402992956809132418596140100660247210));
    let high = log.add_exact(I256::from_u128(291339464771989622907027621153398088495));
    (low.asr(128).to_i32(), high.asr(128).to_i32())
}

/// The tick of a valid square-root price: the greatest tick whose square-root
/// price does not exceed it.
///
/// The binary logarithm of the price is approximated and scaled to base
/// `sqrt(1.0001)`. The error bounds of the approximation give two candidate
/// ticks, at most one apart; where they differ, the square-root price of the
/// upper one decides.
pub fn get_tick_at_sqrt_ratio_alloy(sqrt_price_x96: U160) -> (tick: i32)
    requires
        price_in_domain(sqrt_price_x96@),
    ensures
        MIN_TICK <= tick < MAX_TICK,
        spec_sqrt_ratio_at_tick(tick as int) <= sqrt_price_x96@ < spec_sqrt_ratio_at_tick(
            tick + 1,
        ),
        tick == spec_tick_at_sqrt_ratio(sqrt_price_x96@),
{
    let price = sqrt_price_x96.to_u256();
    proof {
        lemma_candidate_bounds(price@);
        lemma_sqrt_ratio_at_bounds();
        lemma_tick_is_floor(price@);
    }
    let (tick_low, tick_high) = candidate_ticks(price);
    if tick_low == tick_high {
        tick_low
    } else {
        let high_ratio = get_sqrt_ratio_at_tick_alloy(tick_high).to_u256();
        if !price.lt(&high_ratio) {
            tick_high
        } else {
            tick_low
        }
    }
}

/// The tick of `sqrt_price_x96`, the greatest tick whose square-root price does
/// not exceed it, or `SqrtRatioOutOfBounds` for a price that is not valid.
pub fn get_tick_at_sqrt_ratio_internal(sqrt_price_x96: U160) -> (r: Result<i32, TickMathError>)
    ensures
        match r {
            Ok(tick) => price_in_domain(sqrt_price_x96@) && MIN_TICK <= tick < MAX_TICK
                && spec_sqrt_ratio_at_tick(tick as int) <= sqrt_price_x96@
                < spec_sqrt_ratio_at_tick(tick + 1) && tick == spec_tick_at_sqrt_ratio(
                sqrt_price_x96@,
            ),
            Err(e) => !price_in_domain(sqrt_price_x96@) && e
                == TickMathError::SqrtRatioOutOfBounds,
        },
{
    let price = sqrt_price_x96.to_u256();
    let lowest = SqrtRatio::min().to_u256();
    let bound = SqrtRatio::max().to_u256();
    if price.lt(&lowest) || !price.lt(&bound) {
        return Err(TickMathError::SqrtRatioOutOfBounds);
    }
    Ok(get_tick_at_sqrt_ratio_alloy(sqrt_price_x96))
}

/// A square-root price as it arrives from outside, in one of its two
/// encodings.
pub enum SqrtPriceInput {
    /// Bytes, most significant first.
    Bytes(Vec<u8>),
    /// An arbitrary-precision integer.
    Integer(num_bigint::BigUint),
}

impl SqrtPriceInput {
    /// The number that the input stands for.
    pub open spec fn value(&self) -> nat {
        match self {
            SqrtPriceInput::Bytes(bytes) => be_value(bytes@),
            SqrtPriceInput::Integer(n) => biguint_value(*n),
        }
    }

    /// Whether the input is no wider than a square-root price: at most twenty
    /// bytes, or an integer of at most 160 bits.
    pub open spec fn fits(&self) -> bool {
        match self {
            SqrtPriceInput::Bytes(bytes) => bytes@.len() <= 20,
            SqrtPriceInput::Integer(n) => biguint_value(*n) < pow2_160(),
        }
    }
}

/// The 160-bit integer that `input` stands for, or `SqrtRatioOutOfBounds`
/// where the input is wider than that.
pub fn extract_u160(input: &SqrtPriceInput) -> (r: Result<U160, TickMathError>)
    ensures
        match r {
            Ok(price) => input.fits() && price@ == input.value(),
            Err(e) => !input.fits() && e == TickMathError::SqrtRatioOutOfBounds,
        },
{
    let parsed = match input {
        SqrtPriceInput::Bytes(bytes) => U160::try_from_be_slice(bytes.as_slice()),
        SqrtPriceInput::Integer(n) => u160_from_biguint(n),
    };
    match parsed {
        Some(price) => Ok(price),
        None => Err(TickMathError::SqrtRatioOutOfBounds),
    }
}

/// The square-root price of `tick` as twenty bytes, most significant first, or
/// `InvalidTick` for a tick outside the domain.
pub fn get_sqrt_ratio_at_tick(tick: i32) -> (r: Result<[u8; 20], TickMathError>)
    ensures
        match r {
            Ok(bytes) => tick_in_domain(tick as int) && be_value(bytes@)
                == spec_sqrt_ratio_at_tick(tick as int),
            Err(e) => !tick_in_domain(tick as int) && e == TickMathError::InvalidTick(tick),
        },
{
    match get_sqrt_ratio_at_tick_internal(tick) {
        Ok(price) => Ok(price.to_be_bytes()),
        Err(e) => Err(e),
    }
}

/// The tick of the square-root price that `input` stands for, the greatest
/// tick whose square-root price does not exceed it, or `SqrtRatioOutOfBounds`
/// for an input that is too wide or stands for no valid price.
pub fn get_tick_at_sqrt_ratio(input: &SqrtPriceInput) -> (r: Result<i32, TickMathError>)
    ensures
        match r {
            Ok(tick) => input.fits() && price_in_domain(input.value()) && MIN_TICK <= tick
                < MAX_TICK && spec_sqrt_ratio_at_tick(tick as int) <= input.value()
                < spec_sqrt_ratio_at_tick(tick + 1),
            Err(e) => !(input.fits() && price_in_domain(input.value())) && e
                == TickMathError::SqrtRatioOutOfBounds,
        },
{
    match extract_u160(input) {
        Ok(price) => get_tick_at_sqrt_ratio_internal(price),
        Err(e) => Err(e),
    }
}

} // verus!
