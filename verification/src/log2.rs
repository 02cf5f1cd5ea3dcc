//! The binary logarithm of a wide integer in fixed point: the index of its
//! highest set bit, and fourteen fractional bits found by repeated squaring.

use crate::wide::{lemma_pow2_values, pow2_127, pow2_128, pow2_256, pow2_64, U256};
use vstd::arithmetic::div_mod::{lemma_div_denominator, lemma_fundamental_div_mod};
use vstd::arithmetic::power2::{
    lemma2_to64, lemma2_to64_rest, lemma_pow2_adds, lemma_pow2_pos, lemma_pow2_strictly_increases,
    lemma_pow2_unfold, pow2,
};
use vstd::prelude::*;

verus! {

/// The index of the highest set bit of `x`: the floor of its binary logarithm.
pub open spec fn spec_msb(x: nat) -> nat
    decreases x,
{
    if x < 2 {
        0
    } else {
        1 + spec_msb(x / 2)
    }
}

/// The highest set bit of a positive number brackets it between two powers of
/// two.
pub proof fn lemma_msb_brackets(x: nat)
    requires
        x >= 1,
    ensures
        pow2(spec_msb(x)) <= x < pow2(spec_msb(x) + 1),
    decreases x,
{
    lemma2_to64();
    if x >= 2 {
        lemma_msb_brackets(x / 2);
        lemma_pow2_unfold(spec_msb(x));
        lemma_pow2_unfold(spec_msb(x) + 1);
    }
}

/// The exponent of the power of two that brackets a number from below is its
/// highest set bit.
pub proof fn lemma_msb_unique(x: nat, m: nat)
    requires
        pow2(m) <= x < pow2(m + 1),
    ensures
        spec_msb(x) == m,
    decreases m,
{
    lemma2_to64();
    if m == 0 {
    } else {
        lemma_pow2_unfold(m);
        lemma_pow2_unfold(m + 1);
        lemma_pow2_pos((m - 1) as nat);
        lemma_msb_unique(x / 2, (m - 1) as nat);
    }
}

/// The window of step `i` of the search: the all-ones mask of `2^i` bits, and
/// that number of bits.
fn window(i: u32) -> (w: (u128, u32))
    requires
        i < 8,
    ensures
        w.1 == pow2(i as nat),
        w.0 + 1 == pow2(w.1 as nat),
{
    proof {
        lemma2_to64();
        lemma_pow2_values();
    }
    if i == 7 {
        (0xFFFF_FFFF_FFFF_FFFF_FFFF_FFFF_FFFF_FFFF, 128)
    } else if i == 6 {
        (0xFFFF_FFFF_FFFF_FFFF, 64)
    } else if i == 5 {
        (0xFFFF_FFFF, 32)
    } else if i == 4 {
        (0xFFFF, 16)
    } else if i == 3 {
        (0xFF, 8)
    } else if i == 2 {
        (0xF, 4)
    } else if i == 1 {
        (0x3, 2)
    } else {
        (0x1, 1)
    }
}

/// The index of the highest set bit of a word that is not zero.
///
/// Eight windows are tried, of 128 bits down to one: where the rest exceeds
/// the window's mask, the window's width is taken into the index and the rest
/// is shifted right by it.
pub fn most_significant_bit(x: U256) -> (msb: u32)
    requires
        x@ != 0,
    ensures
        msb < 256,
        msb == spec_msb(x@),
        pow2(msb as nat) <= x@ < pow2(msb as nat + 1),
{
    let mut r = x;
    let mut msb: u32 = 0;
    let mut i: u32 = 8;
    proof {
        lemma_pow2_values();
        lemma2_to64();
    }
    while i > 0
        invariant
            i <= 8,
            r@ == x@ / pow2(msb as nat),
            1 <= r@ < pow2(pow2(i as nat)),
            msb + pow2(i as nat) <= 256,
        decreases i,
    {
        i -= 1;
        let (mask, width) = window(i);
        let mask = U256::from_u128(mask);
        proof {
            lemma_pow2_unfold((i + 1) as nat);
            lemma_pow2_adds(width as nat, width as nat);
            lemma_pow2_pos(width as nat);
            lemma_pow2_pos(msb as nat);
        }
        if mask.lt(&r) {
            proof {
                lemma_div_denominator(x@ as int, pow2(msb as nat) as int, pow2(width as nat) as int);
                lemma_pow2_adds(msb as nat, width as nat);
                lemma_fundamental_div_mod(r@ as int, pow2(width as nat) as int);
                assert(r@ / pow2(width as nat) < pow2(width as nat)) by (nonlinear_arith)
                    requires
                        r@ < pow2(width as nat) * pow2(width as nat),
                        pow2(width as nat) > 0,
                ;
                assert(r@ / pow2(width as nat) >= 1) by (nonlinear_arith)
                    requires
                        r@ >= pow2(width as nat),
                        pow2(width as nat) > 0,
                ;
            }
            msb = msb + width;
            r = r.wrapping_shr(width as usize);
        }
    }
    proof {
        lemma_pow2_pos(msb as nat);
        lemma_fundamental_div_mod(x@ as int, pow2(msb as nat) as int);
        lemma_pow2_unfold(msb as nat + 1);
        assert(pow2(msb as nat) <= x@ < 2 * pow2(msb as nat)) by (nonlinear_arith)
            requires
                x@ == pow2(msb as nat) * 1 + x@ % pow2(msb as nat),
                0 <= x@ % pow2(msb as nat) < pow2(msb as nat),
        ;
        lemma_msb_unique(x@, msb as nat);
    }
    msb
}

/// The mantissa of `ratio`: the number scaled by a power of two so that its
/// highest set bit stands at position 127, a value in `[1, 2)` at scale 2^127.
pub open spec fn spec_mantissa(ratio: nat) -> nat {
    let m = spec_msb(ratio);
    if m >= 128 {
        ratio / pow2((m - 127) as nat)
    } else {
        ratio * pow2((127 - m) as nat)
    }
}

/// The square of a mantissa at scale 2^127, a value in `[1, 4)`.
pub open spec fn mantissa_square(r: nat) -> nat {
    r * r / pow2_127()
}

/// The next bit of the logarithm: 1 where the square of the mantissa reaches
/// two, else 0.
pub open spec fn square_bit(r: nat) -> nat {
    mantissa_square(r) / pow2_128()
}

/// The mantissa after one refinement: its square, halved where that reaches
/// two.
pub open spec fn next_mantissa(r: nat) -> nat {
    mantissa_square(r) / pow2(square_bit(r))
}

/// The mantissa after `n` refinements of `r0`.
pub open spec fn mantissa_after(r0: nat, n: nat) -> nat
    decreases n,
{
    if n == 0 {
        r0
    } else {
        next_mantissa(mantissa_after(r0, (n - 1) as nat))
    }
}

/// The first `n` fractional bits of the binary logarithm of the mantissa `r0`,
/// at scale 2^64: refinement `i` gives the bit at position `63 - i`.
pub open spec fn log2_fraction(r0: nat, n: nat) -> nat
    decreases n,
{
    if n == 0 {
        0
    } else {
        log2_fraction(r0, (n - 1) as nat) + square_bit(mantissa_after(r0, (n - 1) as nat)) * pow2(
            (64 - n) as nat,
        )
    }
}

/// The binary logarithm of `ratio / 2^128` at scale 2^64, to fourteen
/// fractional bits.
pub open spec fn spec_log2(ratio: nat) -> int {
    (spec_msb(ratio) - 128) * pow2_64() + log2_fraction(spec_mantissa(ratio), 14)
}

/// The mantissa lies in `[2^127, 2^128)`.
pub proof fn lemma_mantissa_bounds(ratio: nat)
    requires
        1 <= ratio < pow2_256(),
    ensures
        pow2_127() <= spec_mantissa(ratio) < pow2_128(),
        spec_msb(ratio) < 256,
{
    let m = spec_msb(ratio);
    lemma_msb_brackets(ratio);
    lemma_pow2_values();
    if m >= 256 {
        if m > 256 {
            lemma_pow2_strictly_increases(256, m);
        }
    }
    if m >= 128 {
        let e = (m - 127) as nat;
        let d = pow2(e) as int;
        lemma_pow2_pos(e);
        lemma_pow2_adds(127, e);
        lemma_pow2_adds(128, e);
        lemma_fundamental_div_mod(ratio as int, d);
        let q = ratio as int / d;
        assert(pow2_127() <= q < pow2_128()) by (nonlinear_arith)
            requires
                ratio == d * q + ratio as int % d,
                0 <= ratio as int % d < d,
                pow2_127() * d <= ratio,
                ratio < pow2_128() * d,
                d > 0,
        ;
    } else {
        let e = (127 - m) as nat;
        lemma_pow2_pos(e);
        lemma_pow2_adds(m, e);
        lemma_pow2_adds(m + 1, e);
        assert(pow2_127() <= ratio * pow2(e) < pow2_128()) by (nonlinear_arith)
            requires
                pow2(m) <= ratio < pow2(m + 1),
                pow2(m) * pow2(e) == pow2_127(),
                pow2(m + 1) * pow2(e) == pow2_128(),
                pow2(e) > 0,
        ;
    }
}

/// One refinement keeps a mantissa in `[2^127, 2^128)`, and its bit is 0 or 1.
pub proof fn lemma_refinement_bounds(r: nat)
    requires
        pow2_127() <= r < pow2_128(),
    ensures
        r * r < pow2_256(),
        pow2_127() <= mantissa_square(r) < 2 * pow2_128(),
        square_bit(r) <= 1,
        pow2_127() <= next_mantissa(r) < pow2_128(),
{
    let sq = (r * r) as int;
    assert(pow2_127() * pow2_127() <= sq < pow2_128() * pow2_128()) by (nonlinear_arith)
        requires
            pow2_127() <= r < pow2_128(),
            sq == r * r,
    ;
    lemma2_to64();
    let s = mantissa_square(r);
    assert(pow2_127() <= s < 2 * pow2_128());
    if s >= pow2_128() {
        assert(square_bit(r) == 1);
        assert(next_mantissa(r) == s / 2);
    } else {
        assert(square_bit(r) == 0);
        assert(next_mantissa(r) == s / 1);
    }
}

/// The mantissa of every refinement lies in `[2^127, 2^128)`, and the fraction
/// gathered so far leaves room for the bits to come.
pub proof fn lemma_fraction_bounds(r0: nat, n: nat)
    requires
        pow2_127() <= r0 < pow2_128(),
        n <= 64,
    ensures
        pow2_127() <= mantissa_after(r0, n) < pow2_128(),
        log2_fraction(r0, n) + pow2((64 - n) as nat) <= pow2_64(),
    decreases n,
{
    lemma_pow2_values();
    if n > 0 {
        let prev = (n - 1) as nat;
        lemma_fraction_bounds(r0, prev);
        lemma_refinement_bounds(mantissa_after(r0, prev));
        lemma_pow2_unfold((64 - prev) as nat);
        let bit = square_bit(mantissa_after(r0, prev));
        assert(bit * pow2((64 - n) as nat) <= pow2((64 - n) as nat)) by (nonlinear_arith)
            requires
                bit <= 1,
        ;
    }
}

/// The binary logarithm of `ratio / 2^128` at scale 2^64, to fourteen
/// fractional bits, for a word that is not zero and the index `msb` of its
/// highest set bit.
///
/// The word is shifted so that its highest bit stands at position 127. Then,
/// fourteen times, it is squared and the square brought back to scale 2^127:
/// where the square reaches two, the next bit of the logarithm is set and the
/// square is halved.
pub fn log2_fixed(ratio: U256, msb: u32) -> (log_2: i128)
    requires
        ratio@ != 0,
        msb == spec_msb(ratio@),
    ensures
        log_2 == spec_log2(ratio@),
{
    proof {
        lemma_mantissa_bounds(ratio@);
        lemma_pow2_values();
    }
    let mut r = if msb >= 128 {
        ratio.wrapping_shr((msb - 127) as usize)
    } else {
        ratio.wrapping_shl((127 - msb) as usize)
    };
    let ghost r0 = r@;
    assert(r0 == spec_mantissa(ratio@));
    let mut log_2: i128 = (msb as i128 - 128) * 0x1_0000_0000_0000_0000;
    let mut weight: i128 = 0x8000_0000_0000_0000;
    let mut n: u32 = 0;
    proof {
        lemma2_to64_rest();
    }
    while n < 14
        invariant
            n <= 14,
            msb < 256,
            pow2_127() <= r0 < pow2_128(),
            r@ == mantissa_after(r0, n as nat),
            weight == pow2((63 - n) as nat),
            log_2 == (msb - 128) * pow2_64() + log2_fraction(r0, n as nat),
        decreases 14 - n,
    {
        proof {
            lemma_fraction_bounds(r0, n as nat);
            lemma_fraction_bounds(r0, (n + 1) as nat);
            lemma_refinement_bounds(r@);
            lemma_pow2_values();
            lemma2_to64();
        }
        let square = r.wrapping_mul(r).wrapping_shr(127);
        let f: u128 = square.wrapping_shr(128).to_u128();
        assert(f == square_bit(r@));
        proof {
            assert(f * weight == (if f == 1 { weight as int } else { 0 })) by (nonlinear_arith)
                requires
                    f <= 1,
            ;
            lemma_pow2_unfold((63 - n) as nat);
        }
        log_2 = log_2 + (f as i128) * weight;
        r = square.wrapping_shr(f as usize);
        weight = weight / 2;
        n += 1;
    }
    log_2
}

} // verus!
