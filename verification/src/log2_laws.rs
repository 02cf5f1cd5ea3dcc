//! Laws of the fixed-point logarithm, stated over its model.

use crate::log2::{log2_fraction, mantissa_after, spec_log2, square_bit};
use crate::proofs::logarithm::{lemma_fraction_in_bits, lemma_mantissa_power};
use crate::proofs::refinements::lemma_log2_monotone;
use crate::wide::{pow2_127, pow2_128, pow2_256};
use vstd::arithmetic::power2::{lemma2_to64, lemma2_to64_rest, pow2};
use vstd::arithmetic::power::pow;
use vstd::prelude::*;

verus! {

/// The first `n` bits of the logarithm of the mantissa `r0` as a number:
/// refinement `i` gives the bit of weight `2^(n - 1 - i)`.
pub open spec fn fraction_bits(r0: nat, n: nat) -> nat
    decreases n,
{
    if n == 0 {
        0
    } else {
        2 * fraction_bits(r0, (n - 1) as nat) + square_bit(mantissa_after(r0, (n - 1) as nat))
    }
}

/// What the fraction stands for: the fourteen bits of the fraction are the
/// binary logarithm of the mantissa, rounded down to a multiple of 2^-14. That
/// is, the mantissa at scale 2^127, raised to the power 2^14, lies between 2 to
/// the power of the bits and 2 to the power of the bits and one, the latter up
/// to 2^17 parts in 2^100.
pub proof fn lemma_fraction_is_logarithm(r0: nat)
    requires
        pow2_127() <= r0 < pow2_128(),
    ensures
        ({
            let bits = fraction_bits(r0, 14);
            let unit = pow(pow2_127() as int, 16384);
            &&& log2_fraction(r0, 14) == bits * 0x4_0000_0000_0000
            &&& bits < 16384
            &&& pow2(bits) * unit <= pow(r0 as int, 16384)
            &&& 0x10_0000_0000_0000_0000_0000_0000 * pow(r0 as int, 16384) <= (
            0x10_0000_0000_0000_0000_0000_0000 + 0x2_0000) * (pow2(bits + 1) * unit)
        }),
{
    lemma_fraction_in_bits(r0, 14);
    lemma_mantissa_power(r0);
    lemma2_to64();
    lemma2_to64_rest();
}

/// The binary logarithm is monotone.
pub proof fn lemma_log2_is_monotone(x: nat, y: nat)
    requires
        1 <= x <= y < pow2_256(),
    ensures
        spec_log2(x) <= spec_log2(y),
{
    lemma_log2_monotone(x, y);
}

} // verus!
