use degenbot_rs::bigint::u160_from_biguint;
use degenbot_rs::log2::{log2_fixed, most_significant_bit};
use degenbot_rs::wide::{I256, U160, U256};
use num_bigint::BigUint;

#[test]
fn highest_bit_of_single_bits() {
    assert_eq!(most_significant_bit(U256::from_u128(1)), 0);
    assert_eq!(most_significant_bit(U256::from_u128(2)), 1);
    assert_eq!(most_significant_bit(U256::from_u128(3)), 1);
    assert_eq!(most_significant_bit(U256::from_u128(u128::MAX)), 127);
    assert_eq!(most_significant_bit(U256::from_limbs([0, 0, 1, 0])), 128);
    assert_eq!(most_significant_bit(U256::from_limbs([0, 0, 0, 1 << 63])), 255);
    assert_eq!(most_significant_bit(U256::max_value()), 255);
    assert_eq!(most_significant_bit(U256::from_limbs([7, 0, 0, 1])), 192);
}

#[test]
fn highest_bit_at_every_position() {
    for position in 0..256u32 {
        let mut limbs = [0u64; 4];
        limbs[(position / 64) as usize] = 1u64 << (position % 64);
        assert_eq!(most_significant_bit(U256::from_limbs(limbs)), position);
        if position > 0 {
            limbs[0] |= 1;
            assert_eq!(most_significant_bit(U256::from_limbs(limbs)), position);
        }
    }
}

#[test]
fn logarithm_of_exact_values() {
    // One, at scale 2^128, has logarithm zero.
    assert_eq!(log2_fixed(U256::from_limbs([0, 0, 1, 0]), 128), 0);
    // One and a half: 0.584962... to fourteen bits.
    assert_eq!(
        log2_fixed(U256::from_limbs([0, 1 << 63, 1, 0]), 128),
        10790624707179708416
    );
    // The smallest word.
    assert_eq!(log2_fixed(U256::from_u128(1), 0), -2361183241434822606848);
    // The largest word.
    assert_eq!(log2_fixed(U256::max_value(), 255), 2361182115534915764224);
    // The smallest valid price, shifted into Q128.
    assert_eq!(
        log2_fixed(U256::from_u128(4295128739u128 << 32), 64),
        -1180591620717411303424
    );
    assert_eq!(
        log2_fixed(U256::from_u128(5u128 << 100), 102),
        -473677349807760343040
    );
}

#[test]
fn words_from_machine_integers() {
    assert_eq!(U256::from_u128(0).into_limbs(), [0, 0, 0, 0]);
    assert_eq!(
        U256::from_u128(u128::MAX).into_limbs(),
        [u64::MAX, u64::MAX, 0, 0]
    );
    assert_eq!(
        U256::from_u128((7u128 << 64) + 9).into_limbs(),
        [9, 7, 0, 0]
    );
    assert_eq!(U256::from_u128((7u128 << 64) + 9).to_u128(), (7u128 << 64) + 9);
    assert_eq!(I256::from_i128(-1).limbs, [u64::MAX; 4]);
    assert_eq!(I256::from_i128(i128::MIN).limbs, [0, 1 << 63, u64::MAX, u64::MAX]);
    assert_eq!(I256::from_i128(5).limbs, [5, 0, 0, 0]);
    assert_eq!(I256::from_u128(u128::MAX).limbs, [u64::MAX, u64::MAX, 0, 0]);
    assert_eq!(I256::from_i128(-887273).to_i32(), -887273);
    assert_eq!(I256::from_i128(887272).to_i32(), 887272);
    assert_eq!(I256::from_i128(i32::MIN as i128).to_i32(), i32::MIN);
    assert_eq!(I256::from_i128(i32::MAX as i128).to_i32(), i32::MAX);
    assert_eq!(I256::from_i128(0).to_i32(), 0);
}

#[test]
fn words_compare_by_value() {
    let small = U256::from_limbs([u64::MAX, u64::MAX, u64::MAX, 0]);
    let large = U256::from_limbs([0, 0, 0, 1]);
    assert!(small.lt(&large));
    assert!(!large.lt(&small));
    assert!(!small.lt(&small));
    assert!(U256::from_u128(4).lt(&U256::from_u128(5)));
    assert!(U256::from_limbs([9, 1, 0, 0]).lt(&U256::from_limbs([0, 2, 0, 0])));
    assert!(U256::from_u128(0).is_zero());
    assert!(!U256::from_limbs([0, 0, 0, 1]).is_zero());
}

#[test]
fn price_from_limbs_checks_the_width() {
    assert!(U160::from_limbs([0, 0, 0xFFFF_FFFF]).is_some());
    assert!(U160::from_limbs([0, 0, 0x1_0000_0000]).is_none());
    assert!(U160::from_limbs([u64::MAX, u64::MAX, u64::MAX]).is_none());
    assert_eq!(
        U160::from_limbs([1, 2, 3]).unwrap().into_limbs(),
        [1, 2, 3]
    );
    assert_eq!(
        U160::from_limbs([1, 2, 3]).unwrap().to_u256().into_limbs(),
        [1, 2, 3, 0]
    );
    assert_eq!(
        U160::from_u256(U256::from_limbs([1, 2, 3, 0])),
        U160::from_limbs([1, 2, 3])
    );
    assert_eq!(U160::from_u256(U256::from_limbs([1, 2, 3, 1])), None);
    assert_eq!(U160::from_u256(U256::from_limbs([1, 2, 1 << 32, 0])), None);
}

#[test]
fn price_from_big_endian_bytes() {
    assert_eq!(U160::try_from_be_slice(&[]), U160::from_limbs([0, 0, 0]));
    assert_eq!(U160::try_from_be_slice(&[1, 2]), U160::from_limbs([258, 0, 0]));
    let mut twenty = [0u8; 20];
    twenty[0] = 0xAB;
    twenty[19] = 0x01;
    assert_eq!(
        U160::try_from_be_slice(&twenty),
        U160::from_limbs([1, 0, 0xAB00_0000])
    );
    assert_eq!(U160::try_from_be_slice(&[0u8; 21]), None);
    assert_eq!(U160::try_from_be_slice(&[0xFFu8; 32]), None);
    assert_eq!(
        U160::try_from_be_slice(&[0xFFu8; 20]),
        U160::from_limbs([u64::MAX, u64::MAX, 0xFFFF_FFFF])
    );
}

#[test]
fn price_to_big_endian_bytes() {
    let value = U160::from_limbs([0x0807_0605_0403_0201, 0x100F_0E0D_0C0B_0A09, 0x1413_1211])
        .unwrap();
    assert_eq!(
        value.to_be_bytes(),
        [
            0x14, 0x13, 0x12, 0x11, 0x10, 0x0F, 0x0E, 0x0D, 0x0C, 0x0B, 0x0A, 0x09, 0x08, 0x07,
            0x06, 0x05, 0x04, 0x03, 0x02, 0x01
        ]
    );
    assert_eq!(U160::try_from_be_slice(&value.to_be_bytes()), Some(value));
    let mut expected = [0u8; 20];
    expected[15] = 1;
    expected[19] = 0x23;
    assert_eq!(
        U160::from_limbs([4294967331, 0, 0]).unwrap().to_be_bytes(),
        expected
    );
}

#[test]
fn price_from_digits() {
    assert_eq!(U160::try_from_digits(&[]), U160::from_limbs([0, 0, 0]));
    assert_eq!(U160::try_from_digits(&[5]), U160::from_limbs([5, 0, 0]));
    assert_eq!(U160::try_from_digits(&[5, 6, 7]), U160::from_limbs([5, 6, 7]));
    assert_eq!(
        U160::try_from_digits(&[5, 6, 7, 0, 0]),
        U160::from_limbs([5, 6, 7])
    );
    assert_eq!(U160::try_from_digits(&[5, 6, 1 << 32]), None);
    assert_eq!(U160::try_from_digits(&[5, 6, 7, 1]), None);
    assert_eq!(U160::try_from_digits(&[0, 0, 0, 0, 1]), None);
}

#[test]
fn price_from_big_integer() {
    assert_eq!(
        u160_from_biguint(&BigUint::from(0u8)),
        U160::from_limbs([0, 0, 0])
    );
    assert_eq!(
        u160_from_biguint(&BigUint::from(4295128739u64)),
        U160::from_limbs([4295128739, 0, 0])
    );
    let top = (BigUint::from(1u8) << 160usize) - BigUint::from(1u8);
    assert_eq!(
        u160_from_biguint(&top),
        U160::from_limbs([u64::MAX, u64::MAX, 0xFFFF_FFFF])
    );
    assert_eq!(u160_from_biguint(&(BigUint::from(1u8) << 160usize)), None);
    assert_eq!(u160_from_biguint(&(BigUint::from(1u8) << 4000usize)), None);
    let mixed = (BigUint::from(3u8) << 128usize) + (BigUint::from(2u8) << 64usize)
        + BigUint::from(1u8);
    assert_eq!(u160_from_biguint(&mixed), U160::from_limbs([1, 2, 3]));
}

#[test]
fn fraction_is_the_logarithm_of_the_mantissa() {
    // The fourteen bits of the logarithm of one and a half: 1.5^16384 lies
    // between 2 to the power of the bits and twice that.
    let log = log2_fixed(U256::from_limbs([0, 1 << 63, 1, 0]), 128);
    let bits = (log >> 50) as u32;
    assert_eq!(bits, 9584);
    assert_eq!(log, (bits as i128) << 50);
    let power = BigUint::from(3u8).pow(16384);
    let low = BigUint::from(1u8) << (16384 + bits as usize);
    assert!(low <= power);
    assert!(power < (low << 1usize));
}
