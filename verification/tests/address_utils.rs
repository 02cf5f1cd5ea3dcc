use degenbot_rs::address_utils::{
    checksum_case, to_checksum_address, to_checksum_address_native, AddressError, AddressInput,
};

const VECTORS: [&str; 6] = [
    "0x5aAeb6053F3E94C9b9A09f33669435E7Ef1BeAed",
    "0xfB6916095ca1df60bB79Ce92cE3Ea74c37c5d359",
    "0xdbF03B407c01E7cD3CBea99509d93f8DDDC8C6FB",
    "0xD1220A0cf47c7B9Be7A2E6BA89F429762e7b9aDb",
    "0x52908400098527886E0F7030069857D2E4169EE7",
    "0xde709f2102306220921060314715629080e2fb77",
];

fn bytes_of(address: &str) -> Vec<u8> {
    let digits = &address[2..];
    (0..20)
        .map(|i| u8::from_str_radix(&digits[2 * i..2 * i + 2], 16).unwrap())
        .collect()
}

#[test]
fn checksum_of_text_in_any_case() {
    for expected in VECTORS {
        assert_eq!(
            to_checksum_address(&AddressInput::Text(expected.to_lowercase())),
            Ok(expected.to_string())
        );
        assert_eq!(
            to_checksum_address(&AddressInput::Text(expected.to_string())),
            Ok(expected.to_string())
        );
        assert_eq!(
            to_checksum_address(&AddressInput::Text(expected[2..].to_lowercase())),
            Ok(expected.to_string())
        );
    }
}

#[test]
fn checksum_of_bytes() {
    for expected in VECTORS {
        assert_eq!(
            to_checksum_address(&AddressInput::Bytes(bytes_of(expected))),
            Ok(expected.to_string())
        );
    }
    assert_eq!(
        to_checksum_address(&AddressInput::Bytes(vec![0u8; 20])),
        Ok("0x0000000000000000000000000000000000000000".to_string())
    );
}

#[test]
fn bytes_of_another_length_are_no_address() {
    assert_eq!(
        to_checksum_address(&AddressInput::Bytes(vec![0u8; 19])),
        Err(AddressError::WrongLength)
    );
    assert_eq!(
        to_checksum_address(&AddressInput::Bytes(vec![0u8; 21])),
        Err(AddressError::WrongLength)
    );
    assert_eq!(
        to_checksum_address(&AddressInput::Bytes(Vec::new())),
        Err(AddressError::WrongLength)
    );
}

#[test]
fn text_that_is_no_address_is_rejected() {
    for text in ["", "0x", "xyz", "0x5aAeb6053F3E94C9b9A09f33669435E7Ef1BeAe", "0xzz"] {
        assert!(matches!(
            to_checksum_address(&AddressInput::Text(text.to_string())),
            Err(AddressError::InvalidText(_))
        ));
    }
}

#[test]
fn native_checksum_agrees_with_the_vectors() {
    for expected in VECTORS {
        assert_eq!(to_checksum_address_native(&expected.to_lowercase()), expected);
        assert_eq!(to_checksum_address_native(expected), expected);
        assert_eq!(to_checksum_address_native(&expected[2..]), expected);
        assert_eq!(
            to_checksum_address_native(&expected[2..].to_uppercase()),
            expected
        );
    }
}

#[test]
fn native_checksum_of_other_text() {
    // Nothing is checked: the text is cased as far as the digest reaches.
    assert_eq!(to_checksum_address_native(""), "0x");
    assert_eq!(to_checksum_address_native("0x"), "0x");
    // An upper-case prefix is no prefix: it is kept, in lower case, and cased.
    assert_eq!(to_checksum_address_native("0X12").to_lowercase(), "0x0x12");
    let long = "1".repeat(100);
    assert_eq!(to_checksum_address_native(&long), format!("0x{}", "1".repeat(64)));
}

#[test]
fn casing_follows_the_digits_of_the_digest() {
    let mut hash = [0u8; 32];
    hash[0] = 0x80;
    hash[1] = 0x08;
    hash[2] = 0x7f;
    hash[3] = 0xf7;
    assert_eq!(checksum_case("abcdefab", &hash), "0xAbcDeFAb");
    assert_eq!(checksum_case("12345678", &hash), "0x12345678");
    assert_eq!(checksum_case("", &hash), "0x");
    assert_eq!(checksum_case("ABCD", &hash), "0xABCD");
    let all = [0xffu8; 32];
    assert_eq!(
        checksum_case(&"a".repeat(70), &all),
        format!("0x{}", "A".repeat(64))
    );
    assert_eq!(checksum_case("\u{e9}z", &all), "0x\u{e9}Z");
}
