//! EIP-55 checksummed addresses.
//!
//! An address is twenty bytes; its checksummed text is `0x` and forty
//! hexadecimal digits, of which the letters are in upper case where the
//! Keccak-256 hash of the lower-case text says so. Hashing, parsing and the
//! case rules of Unicode are left to `alloy_primitives` and to the standard
//! library, behind functions whose contracts are taken on trust; what is
//! decided here is verified.

use vstd::prelude::*;

verus! {

/// `FromHexError` of `alloy_primitives`, which says why a text is no
/// hexadecimal address; carried through as it is.
#[verifier::external_type_specification]
#[verifier::external_body]
pub struct ExFromHexError(alloy_primitives::hex::FromHexError);

/// The twenty bytes that a text parses to as an address, where it does.
pub uninterp spec fn parsed_address(text: Seq<char>) -> Option<Seq<u8>>;

/// The checksummed text of an address of twenty bytes.
pub uninterp spec fn eip55_text(address: Seq<u8>) -> Seq<char>;

/// The Keccak-256 digest of the UTF-8 encoding of a text.
pub uninterp spec fn keccak256_of_text(text: Seq<char>) -> Seq<u8>;

/// The lower-case form of a text, as Unicode defines it.
pub uninterp spec fn lowercase_of(text: Seq<char>) -> Seq<char>;

/// Whether a character is alphabetic, as Unicode defines it.
pub uninterp spec fn is_alphabetic_char(c: char) -> bool;

/// The upper-case form of an ASCII letter; any other character itself.
pub open spec fn ascii_uppercase(c: char) -> char {
    if 'a' <= c && c <= 'z' {
        ((c as int) - 32) as char
    } else {
        c
    }
}

/// The address that `text` parses to.
///
/// Trusted: calls `str::parse` for `Address` of `alloy_primitives`, which
/// reads hexadecimal text into twenty bytes or fails; the result is a function
/// of the text alone.
#[verifier::external_body]
fn parse_address(text: &str) -> (r: Result<Vec<u8>, alloy_primitives::hex::FromHexError>)
    ensures
        match r {
            Ok(bytes) => parsed_address(text@) == Some(bytes@) && bytes@.len() == 20,
            Err(_) => parsed_address(text@).is_none(),
        },
{
    match text.parse::<alloy_primitives::Address>() {
        Ok(address) => Ok(address.to_vec()),
        Err(e) => Err(e),
    }
}

/// The checksummed text of an address.
///
/// Trusted: calls `Address::to_checksum` of `alloy_primitives` without a chain
/// id, documented to encode the address to its EIP-55 checksum; the result is
/// a function of the twenty bytes alone. `Address::from_slice` panics on a
/// slice of another length, which the precondition rules out.
#[verifier::external_body]
fn checksum_of_bytes(address: &[u8]) -> (r: String)
    requires
        address@.len() == 20,
    ensures
        r@ == eip55_text(address@),
{
    alloy_primitives::Address::from_slice(address).to_checksum(None)
}

/// The Keccak-256 digest of a text.
///
/// Trusted: calls `keccak256` of `alloy_primitives` on the bytes of the text;
/// the digest is a function of the text alone.
#[verifier::external_body]
fn keccak256_text(text: &str) -> (r: [u8; 32])
    ensures
        r@ == keccak256_of_text(text@),
{
    alloy_primitives::keccak256(text.as_bytes()).0
}

/// The lower-case form of a text.
///
/// Trusted: calls `str::to_lowercase`, documented to return the lowercase
/// equivalent of the string slice, as Unicode defines it.
#[verifier::external_body]
fn to_lowercase(text: &str) -> (r: String)
    ensures
        r@ == lowercase_of(text@),
{
    text.to_lowercase()
}

/// Whether a character is alphabetic.
///
/// Trusted: calls `char::is_alphabetic`, documented to tell whether the
/// character has the Unicode property `Alphabetic`.
#[verifier::external_body]
fn is_alphabetic(c: char) -> (r: bool)
    ensures
        r == is_alphabetic_char(c),
{
    c.is_alphabetic()
}

/// The ASCII upper-case form of a character.
///
/// Trusted: calls `char::to_ascii_uppercase`, documented to map the ASCII
/// letters `a` to `z` to `A` to `Z` and to leave every other character
/// unchanged.
#[verifier::external_body]
fn to_ascii_uppercase(c: char) -> (r: char)
    ensures
        r == ascii_uppercase(c),
{
    c.to_ascii_uppercase()
}

/// Appends a character to a string.
///
/// Trusted: calls `String::push`, documented to append the given character to
/// the end of the string.
#[verifier::external_body]
fn push_char(text: &mut String, c: char)
    ensures
        final(text)@ == old(text)@.push(c),
{
    text.push(c)
}

/// A text without its prefix `0x`, where it has one.
pub open spec fn strip_0x(text: Seq<char>) -> Seq<char> {
    if text.len() >= 2 && text[0] == '0' && text[1] == 'x' {
        text.subrange(2, text.len() as int)
    } else {
        text
    }
}

/// Hexadecimal digit `i` of a digest: the high half of a byte at an even
/// place, the low half at an odd one.
pub open spec fn hash_nibble(hash: Seq<u8>, i: int) -> int {
    if i % 2 == 0 {
        hash[i / 2] as int / 16
    } else {
        hash[i / 2] as int % 16
    }
}

/// A character of an address in the case that its digit of the digest asks
/// for: a letter is set in upper case where the digit exceeds 7.
pub open spec fn cased_char(c: char, nibble: int) -> char {
    if is_alphabetic_char(c) && nibble > 7 {
        ascii_uppercase(c)
    } else {
        c
    }
}

/// The checksummed text for a lower-case text and its digest: `0x`, then the
/// characters of the text, as far as the 64 digits of the digest reach, each in
/// the case that its digit asks for.
pub open spec fn checksum_case_spec(text: Seq<char>, hash: Seq<u8>) -> Seq<char> {
    seq!['0', 'x'] + Seq::new(
        if text.len() < 64 {
            text.len()
        } else {
            64
        },
        |i: int| cased_char(text[i], hash_nibble(hash, i)),
    )
}

/// The checksummed text for a lower-case text and its digest.
pub fn checksum_case(text: &str, hash: &[u8; 32]) -> (r: String)
    ensures
        r@ == checksum_case_spec(text@, hash@),
{
    let len = text.unicode_len();
    let count: usize = if len < 64 {
        len
    } else {
        64
    };
    let mut out = String::from_str("0x");
    proof {
        reveal_strlit("0x");
    }
    let mut i: usize = 0;
    while i < count
        invariant
            i <= count <= 64,
            count <= text@.len(),
            out@ == seq!['0', 'x'] + Seq::new(
                i as nat,
                |k: int| cased_char(text@[k], hash_nibble(hash@, k)),
            ),
        decreases count - i,
    {
        let c = text.get_char(i);
        let byte = hash[i / 2];
        let nibble: u8 = if i % 2 == 0 {
            byte / 16
        } else {
            byte % 16
        };
        let cased = if is_alphabetic(c) && nibble > 7 {
            to_ascii_uppercase(c)
        } else {
            c
        };
        let ghost before = out@;
        push_char(&mut out, cased);
        proof {
            assert(out@ =~= seq!['0', 'x'] + Seq::new(
                (i + 1) as nat,
                |k: int| cased_char(text@[k], hash_nibble(hash@, k)),
            ));
        }
        i += 1;
    }
    out
}

/// The checksummed form of a hexadecimal address: its prefix `0x` is taken
/// off, the rest is set in lower case and hashed, and each letter is set in
/// upper case where its digit of the hash exceeds 7.
pub fn to_checksum_address_native(address: &str) -> (r: String)
    ensures
        r@ == checksum_case_spec(
            lowercase_of(strip_0x(address@)),
            keccak256_of_text(lowercase_of(strip_0x(address@))),
        ),
{
    let len = address.unicode_len();
    let stripped = if len >= 2 && address.get_char(0) == '0' && address.get_char(1) == 'x' {
        address.substring_char(2, len)
    } else {
        address
    };
    let lowered = to_lowercase(stripped);
    let hash = keccak256_text(lowered.as_str());
    checksum_case(lowered.as_str(), &hash)
}

/// An address as it arrives from outside: hexadecimal text, or bytes.
pub enum AddressInput {
    /// Hexadecimal text.
    Text(String),
    /// Bytes, of which an address has twenty.
    Bytes(Vec<u8>),
}

/// Why an input gives no address.
#[derive(Debug, PartialEq, Eq)]
pub enum AddressError {
    /// The text is no hexadecimal address; the value says why.
    InvalidText(alloy_primitives::hex::FromHexError),
    /// The bytes are not twenty.
    WrongLength,
}

/// The checksummed text of the address that `input` stands for.
pub fn to_checksum_address(input: &AddressInput) -> (r: Result<String, AddressError>)
    ensures
        match *input {
            AddressInput::Text(text) => match r {
                Ok(checksummed) => parsed_address(text@).is_some() && checksummed@ == eip55_text(
                    parsed_address(text@).unwrap(),
                ),
                Err(e) => parsed_address(text@).is_none() && e is InvalidText,
            },
            AddressInput::Bytes(bytes) => match r {
                Ok(checksummed) => bytes@.len() == 20 && checksummed@ == eip55_text(bytes@),
                Err(e) => bytes@.len() != 20 && e == AddressError::WrongLength,
            },
        },
{
    match input {
        AddressInput::Text(text) => match parse_address(text.as_str()) {
            Ok(address) => Ok(checksum_of_bytes(address.as_slice())),
            Err(e) => Err(AddressError::InvalidText(e)),
        },
        AddressInput::Bytes(bytes) => {
            if bytes.len() != 20 {
                return Err(AddressError::WrongLength);
            }
            Ok(checksum_of_bytes(bytes.as_slice()))
        },
    }
}

} // verus!
