use degenbot_rs::errors::TickMathError;
use degenbot_rs::tick_math::{
    extract_u160, get_sqrt_ratio_at_tick, get_sqrt_ratio_at_tick_alloy,
    get_sqrt_ratio_at_tick_internal, get_tick_at_sqrt_ratio, get_tick_at_sqrt_ratio_alloy,
    get_tick_at_sqrt_ratio_internal, SqrtPriceInput, SqrtRatio, MAX_TICK, MIN_TICK,
};
use num_bigint::BigUint;
use degenbot_rs::wide::U160;
use std::str::FromStr;

fn price(decimal: &str) -> U160 {
    let parsed = alloy_primitives::aliases::U160::from_str(decimal).unwrap();
    U160::from_limbs(parsed.into_limbs()).unwrap()
}

fn decimal(price: U160) -> String {
    alloy_primitives::aliases::U160::from_limbs(price.into_limbs()).to_string()
}

#[test]
fn lib_test_tickmath() {
    assert_eq!(
        degenbot_rs::get_sqrt_ratio_at_tick_alloy(MIN_TICK),
        price("4295128739")
    );
    assert_eq!(
        degenbot_rs::get_sqrt_ratio_at_tick_alloy(MIN_TICK + 1),
        price("4295343490")
    );
    assert_eq!(
        degenbot_rs::get_sqrt_ratio_at_tick_alloy(MAX_TICK - 1),
        price("1461373636630004318706518188784493106690254656249")
    );
    assert_eq!(
        degenbot_rs::get_sqrt_ratio_at_tick_alloy(MAX_TICK),
        price("1461446703485210103287273052203988822378723970342"),
    );
}

#[test]
fn test_tick_bounds_validation() {
    if let Err(TickMathError::InvalidTick(tick)) = get_sqrt_ratio_at_tick_internal(MIN_TICK - 1) {
        if tick == MIN_TICK - 1 {
            // pass
        } else {
            panic!("Wrong tick value returned");
        }
    } else {
        panic!("Should have rejected tick below MIN_TICK");
    }

    if let Err(TickMathError::InvalidTick(tick)) = get_sqrt_ratio_at_tick_internal(MAX_TICK + 1) {
        if tick == MAX_TICK + 1 {
            // pass
        } else {
            panic!("Wrong tick value returned");
        }
    } else {
        panic!("Should have rejected tick above MAX_TICK");
    }

    if let Err(TickMathError::InvalidTick(tick)) = get_sqrt_ratio_at_tick_internal(i32::MIN) {
        if tick == i32::MIN {
            // pass
        } else {
            panic!("Wrong tick value returned");
        }
    } else {
        panic!("Should have rejected i32::MIN");
    }

    if let Err(TickMathError::InvalidTick(tick)) = get_sqrt_ratio_at_tick_internal(i32::MAX) {
        if tick == i32::MAX {
            // pass
        } else {
            panic!("Wrong tick value returned");
        }
    } else {
        panic!("Should have rejected i32::MAX");
    }
}

#[test]
fn tick_math_test_tickmath() {
    assert_eq!(
        get_sqrt_ratio_at_tick_internal(MIN_TICK).unwrap(),
        price("4295128739")
    );
    assert_eq!(
        get_sqrt_ratio_at_tick_internal(MIN_TICK + 1).unwrap(),
        price("4295343490")
    );
    assert_eq!(
        get_sqrt_ratio_at_tick_internal(MAX_TICK - 1).unwrap(),
        price("1461373636630004318706518188784493106690254656249")
    );
    assert_eq!(
        get_sqrt_ratio_at_tick_internal(MAX_TICK).unwrap(),
        price("1461446703485210103287273052203988822378723970342"),
    );
}

#[test]
fn test_tickmath_mid_values() {
    assert_eq!(
        get_sqrt_ratio_at_tick_internal(0).unwrap(),
        price("79228162514264337593543950336")
    );
    assert_eq!(
        get_sqrt_ratio_at_tick_internal(1).unwrap(),
        price("79232123823359799118286999568")
    );
    assert_eq!(
        get_sqrt_ratio_at_tick_internal(-1).unwrap(),
        price("79224201403219477170569942574")
    );
}

#[test]
fn test_tickmath_negative_values() {
    assert_eq!(
        get_sqrt_ratio_at_tick_internal(-100000).unwrap(),
        price("533968626430936354154228408")
    );
    assert_eq!(
        get_sqrt_ratio_at_tick_internal(-500000).unwrap(),
        price("1101692437043807371")
    );
}

#[test]
fn test_tickmath_positive_values() {
    assert_eq!(
        get_sqrt_ratio_at_tick_internal(100000).unwrap(),
        price("11755562826496067164730007768450")
    );
    assert_eq!(
        get_sqrt_ratio_at_tick_internal(500000).unwrap(),
        price("5697689776495288729098254600827762987878")
    );
}

#[test]
fn test_tickmath_additional_values() {
    assert_eq!(
        get_sqrt_ratio_at_tick_internal(10000).unwrap(),
        price("130621891405341611593710811006")
    );
    assert_eq!(
        get_sqrt_ratio_at_tick_internal(-10000).unwrap(),
        price("48055510970269007215549348797")
    );
    assert_eq!(
        get_sqrt_ratio_at_tick_internal(1000).unwrap(),
        price("83290069058676223003182343270")
    );
    assert_eq!(
        get_sqrt_ratio_at_tick_internal(-1000).unwrap(),
        price("75364347830767020784054125655")
    );
    assert_eq!(
        get_sqrt_ratio_at_tick_internal(100).unwrap(),
        price("79625275426524748796330556128")
    );
    assert_eq!(
        get_sqrt_ratio_at_tick_internal(-100).unwrap(),
        price("78833030112140176575862854579")
    );
    assert_eq!(
        get_sqrt_ratio_at_tick_internal(10).unwrap(),
        price("79267784519130042428790663799")
    );
    assert_eq!(
        get_sqrt_ratio_at_tick_internal(-10).unwrap(),
        price("79188560314459151373725315960")
    );
}

#[test]
fn test_tickmath_roundtrip() {
    let ticks = [
        -500000, -100000, -10000, -1000, -100, -10, -1, 0, 1, 10, 100, 1000, 10000, 100000,
        500000,
    ];

    for tick in ticks {
        let ratio = get_sqrt_ratio_at_tick_internal(tick).unwrap();
        let tick_back = get_tick_at_sqrt_ratio_internal(ratio).unwrap();
        assert_eq!(tick_back, tick);
    }
}

#[test]
fn test_tickmath_boundary_roundtrip() {
    let min_ratio = get_sqrt_ratio_at_tick_internal(-887272).unwrap();
    assert_eq!(get_tick_at_sqrt_ratio_internal(min_ratio).unwrap(), -887272);

    let max_ratio = get_sqrt_ratio_at_tick_internal(887272).unwrap();
    let max_ratio_minus_one = alloy_primitives::aliases::U160::from_limbs(max_ratio.into_limbs())
        - alloy_primitives::aliases::U160::from(1u8);
    assert_eq!(
        get_tick_at_sqrt_ratio_internal(
            U160::from_limbs(max_ratio_minus_one.into_limbs()).unwrap()
        )
        .unwrap(),
        887271
    );
}

#[test]
fn tick_zero_is_the_fixed_point() {
    let one = get_sqrt_ratio_at_tick_internal(0).unwrap();
    assert_eq!(one.into_limbs(), [0, 1u64 << 32, 0]);
    assert_eq!(decimal(one), "79228162514264337593543950336");
}

#[test]
fn domain_ends_are_the_extreme_prices() {
    assert_eq!(get_sqrt_ratio_at_tick_internal(MIN_TICK).unwrap(), SqrtRatio::min());
    assert_eq!(get_sqrt_ratio_at_tick_internal(MAX_TICK).unwrap(), SqrtRatio::max());
    assert_eq!(decimal(SqrtRatio::min()), "4295128739");
    assert_eq!(
        decimal(SqrtRatio::max()),
        "1461446703485210103287273052203988822378723970342"
    );
}

#[test]
fn round_trip_over_a_sweep_of_ticks() {
    let mut tick = MIN_TICK;
    while tick < MAX_TICK {
        let ratio = get_sqrt_ratio_at_tick_internal(tick).unwrap();
        assert_eq!(get_tick_at_sqrt_ratio_internal(ratio), Ok(tick));
        tick += 997;
    }
    let last = get_sqrt_ratio_at_tick_internal(MAX_TICK - 1).unwrap();
    assert_eq!(get_tick_at_sqrt_ratio_internal(last), Ok(MAX_TICK - 1));
}

#[test]
fn price_of_the_largest_tick_is_outside_the_price_domain() {
    let top = get_sqrt_ratio_at_tick_internal(MAX_TICK).unwrap();
    assert_eq!(
        get_tick_at_sqrt_ratio_internal(top),
        Err(TickMathError::SqrtRatioOutOfBounds)
    );
}

#[test]
fn prices_increase_strictly_with_the_tick() {
    let mut previous = alloy_primitives::aliases::U160::from_limbs(
        get_sqrt_ratio_at_tick_internal(MIN_TICK).unwrap().into_limbs(),
    );
    let mut tick = MIN_TICK + 1;
    while tick <= MAX_TICK {
        let current = alloy_primitives::aliases::U160::from_limbs(
            get_sqrt_ratio_at_tick_internal(tick).unwrap().into_limbs(),
        );
        assert!(previous < current, "price must grow at tick {}", tick);
        previous = current;
        tick += 1013;
    }
    for tick in [-3, -2, -1, 0, 1, 2, 3] {
        let below = decimal(get_sqrt_ratio_at_tick_internal(tick - 1).unwrap());
        let above = decimal(get_sqrt_ratio_at_tick_internal(tick).unwrap());
        assert!(
            alloy_primitives::aliases::U160::from_str(&below).unwrap()
                < alloy_primitives::aliases::U160::from_str(&above).unwrap()
        );
    }
}

#[test]
fn ticks_outside_the_domain_are_rejected() {
    assert_eq!(
        get_sqrt_ratio_at_tick_internal(-887273),
        Err(TickMathError::InvalidTick(-887273))
    );
    assert_eq!(
        get_sqrt_ratio_at_tick_internal(887273),
        Err(TickMathError::InvalidTick(887273))
    );
    assert_eq!(
        get_sqrt_ratio_at_tick_internal(i32::MIN),
        Err(TickMathError::InvalidTick(i32::MIN))
    );
    assert_eq!(
        get_sqrt_ratio_at_tick_internal(i32::MAX),
        Err(TickMathError::InvalidTick(i32::MAX))
    );
}

#[test]
fn prices_outside_the_domain_are_rejected() {
    assert_eq!(
        get_tick_at_sqrt_ratio_internal(price("4295128738")),
        Err(TickMathError::SqrtRatioOutOfBounds)
    );
    assert_eq!(
        get_tick_at_sqrt_ratio_internal(price("0")),
        Err(TickMathError::SqrtRatioOutOfBounds)
    );
    assert_eq!(
        get_tick_at_sqrt_ratio_internal(price(
            "1461446703485210103287273052203988822378723970342"
        )),
        Err(TickMathError::SqrtRatioOutOfBounds)
    );
    assert_eq!(
        get_tick_at_sqrt_ratio_internal(price(
            "1461501637330902918203684832716283019655932542975"
        )),
        Err(TickMathError::SqrtRatioOutOfBounds)
    );
    assert_eq!(get_tick_at_sqrt_ratio_internal(price("4295128739")), Ok(-887272));
    assert_eq!(
        get_tick_at_sqrt_ratio_internal(price(
            "1461446703485210103287273052203988822378723970341"
        )),
        Ok(887271)
    );
}

#[test]
fn tick_of_a_price_is_the_floor() {
    // One below the price of a tick belongs to the tick before it.
    for tick in [-887271, -500000, -1, 0, 1, 100000, 887271] {
        let at = alloy_primitives::aliases::U160::from_limbs(
            get_sqrt_ratio_at_tick_internal(tick).unwrap().into_limbs(),
        );
        let before = at - alloy_primitives::aliases::U160::from(1u8);
        assert_eq!(
            get_tick_at_sqrt_ratio_alloy(U160::from_limbs(at.into_limbs()).unwrap()),
            tick
        );
        assert_eq!(
            get_tick_at_sqrt_ratio_alloy(U160::from_limbs(before.into_limbs()).unwrap()),
            tick - 1
        );
    }
}

#[test]
fn known_prices() {
    assert_eq!(
        decimal(get_sqrt_ratio_at_tick_alloy(100000)),
        "11755562826496067164730007768450"
    );
    assert_eq!(
        decimal(get_sqrt_ratio_at_tick_alloy(-100000)),
        "533968626430936354154228408"
    );
    assert_eq!(
        decimal(get_sqrt_ratio_at_tick_alloy(500000)),
        "5697689776495288729098254600827762987878"
    );
    assert_eq!(
        decimal(get_sqrt_ratio_at_tick_alloy(-500000)),
        "1101692437043807371"
    );
}

#[test]
fn price_of_a_tick_as_bytes() {
    let mut one = [0u8; 20];
    one[7] = 1;
    assert_eq!(get_sqrt_ratio_at_tick(0), Ok(one));
    let mut smallest = [0u8; 20];
    smallest[15] = 0x01;
    smallest[16] = 0x00;
    smallest[17] = 0x02;
    smallest[18] = 0x76;
    smallest[19] = 0xa3;
    assert_eq!(get_sqrt_ratio_at_tick(MIN_TICK), Ok(smallest));
    assert_eq!(
        get_sqrt_ratio_at_tick(MAX_TICK).map(|bytes| BigUint::from_bytes_be(&bytes).to_string()),
        Ok("1461446703485210103287273052203988822378723970342".to_string())
    );
    assert_eq!(
        get_sqrt_ratio_at_tick(MAX_TICK + 1),
        Err(TickMathError::InvalidTick(MAX_TICK + 1))
    );
}

#[test]
fn tick_of_a_price_in_either_encoding() {
    let as_integer = SqrtPriceInput::Integer(
        BigUint::parse_bytes(b"79228162514264337593543950336", 10).unwrap(),
    );
    assert_eq!(get_tick_at_sqrt_ratio(&as_integer), Ok(0));
    let mut one = vec![0u8; 20];
    one[7] = 1;
    assert_eq!(get_tick_at_sqrt_ratio(&SqrtPriceInput::Bytes(one.clone())), Ok(0));
    // Shorter slices are padded on the left.
    assert_eq!(
        get_tick_at_sqrt_ratio(&SqrtPriceInput::Bytes(one[7..].to_vec())),
        Ok(0)
    );
    assert_eq!(
        get_tick_at_sqrt_ratio(&SqrtPriceInput::Bytes(vec![0x01, 0x00, 0x02, 0x76, 0xa3])),
        Ok(MIN_TICK)
    );
    let known = SqrtPriceInput::Integer(
        BigUint::parse_bytes(b"11755562826496067164730007768450", 10).unwrap(),
    );
    assert_eq!(get_tick_at_sqrt_ratio(&known), Ok(100000));
}

#[test]
fn inputs_that_are_too_wide_are_rejected() {
    assert_eq!(
        get_tick_at_sqrt_ratio(&SqrtPriceInput::Bytes(vec![0u8; 21])),
        Err(TickMathError::SqrtRatioOutOfBounds)
    );
    let mut padded = vec![0u8; 32];
    padded[19] = 1;
    assert_eq!(
        extract_u160(&SqrtPriceInput::Bytes(padded)),
        Err(TickMathError::SqrtRatioOutOfBounds)
    );
    assert_eq!(
        get_tick_at_sqrt_ratio(&SqrtPriceInput::Integer(BigUint::from(1u8) << 160usize)),
        Err(TickMathError::SqrtRatioOutOfBounds)
    );
    assert_eq!(
        get_tick_at_sqrt_ratio(&SqrtPriceInput::Integer(BigUint::from(1u8) << 300usize)),
        Err(TickMathError::SqrtRatioOutOfBounds)
    );
    // Narrow enough, but no valid price.
    assert_eq!(
        get_tick_at_sqrt_ratio(&SqrtPriceInput::Integer(BigUint::from(4295128738u64))),
        Err(TickMathError::SqrtRatioOutOfBounds)
    );
    assert_eq!(
        get_tick_at_sqrt_ratio(&SqrtPriceInput::Bytes(vec![0xFFu8; 20])),
        Err(TickMathError::SqrtRatioOutOfBounds)
    );
    assert_eq!(
        extract_u160(&SqrtPriceInput::Bytes(vec![0xFFu8; 20])).map(|price| price.into_limbs()),
        Ok([u64::MAX, u64::MAX, 0xFFFF_FFFF])
    );
    assert_eq!(
        extract_u160(&SqrtPriceInput::Integer(BigUint::from(7u8))).map(|price| price.into_limbs()),
        Ok([7, 0, 0])
    );
}

#[test]
fn squared_price_is_the_power_of_the_tick() {
    // The square of the price, at scale 2^192, against 1.0001^tick as a
    // fraction of two integers: they agree to better than one part in 2^29.
    for tick in [1i32, 2, 100, 5000, 60000, -1, -100, -5000, -60000] {
        let price = BigUint::from_bytes_be(&get_sqrt_ratio_at_tick(tick).unwrap());
        let n = tick.unsigned_abs();
        let (numerator, denominator) = if tick > 0 {
            (BigUint::from(10001u32).pow(n), BigUint::from(10000u32).pow(n))
        } else {
            (BigUint::from(10000u32).pow(n), BigUint::from(10001u32).pow(n))
        };
        let left = &price * &price * &denominator;
        let right = numerator << 192usize;
        let difference = if left > right { &left - &right } else { &right - &left };
        assert!(
            (difference << 29usize) < right,
            "price of tick {} misses its power",
            tick
        );
    }
}
