//! Square-root prices that arrive as arbitrary-precision integers of
//! `num_bigint`.
//!
//! A `BigUint` is opaque here. What it holds is named by `biguint_digits`; the
//! two methods that are called on it stand behind functions whose contracts
//! are taken on trust from that crate's documentation.

use crate::log2::{lemma_msb_brackets, spec_msb};
use crate::wide::{digits_value, lemma_pow2_values, pow2_160, U160};
use vstd::arithmetic::power2::lemma_pow2_strictly_increases;
use vstd::prelude::*;

verus! {

/// `BigUint` of `num_bigint`, carried through as it is.
#[verifier::external_type_specification]
#[verifier::external_body]
pub struct ExBigUint(num_bigint::BigUint);

/// The 64-bit digits of a `BigUint`, least significant first.
pub uninterp spec fn biguint_digits(n: num_bigint::BigUint) -> Seq<u64>;

/// The number that a `BigUint` holds.
pub open spec fn biguint_value(n: num_bigint::BigUint) -> nat {
    digits_value(biguint_digits(n))
}

/// The fewest bits that express `v`.
pub open spec fn bit_length(v: nat) -> nat {
    if v == 0 {
        0
    } else {
        spec_msb(v) + 1
    }
}

/// The number of bits of a `BigUint`.
///
/// Trusted: calls `BigUint::bits` of `num_bigint`, documented to determine the
/// fewest bits necessary to express the number.
#[verifier::external_body]
fn biguint_bits(n: &num_bigint::BigUint) -> (bits: u64)
    ensures
        bits == bit_length(biguint_value(*n)),
{
    n.bits()
}

/// The 64-bit digits of a `BigUint`.
///
/// Trusted: calls `BigUint::to_u64_digits` of `num_bigint`, documented to
/// return the `u64` digits of the number, least significant digit first.
#[verifier::external_body]
fn biguint_to_u64_digits(n: &num_bigint::BigUint) -> (digits: Vec<u64>)
    ensures
        digits@ == biguint_digits(*n),
{
    n.to_u64_digits()
}

/// The 160-bit integer that `n` holds; `None` where `n` takes more than 160
/// bits.
pub fn u160_from_biguint(n: &num_bigint::BigUint) -> (r: Option<U160>)
    ensures
        r.is_some() <==> biguint_value(*n) < pow2_160(),
        r.is_some() ==> r.unwrap()@ == biguint_value(*n),
{
    if biguint_bits(n) > 160 {
        proof {
            let v = biguint_value(*n);
            lemma_pow2_values();
            lemma_msb_brackets(v);
            if spec_msb(v) > 160 {
                lemma_pow2_strictly_increases(160, spec_msb(v));
            }
        }
        return None;
    }
    let digits = biguint_to_u64_digits(n);
    U160::try_from_digits(digits.as_slice())
}

} // verus!
