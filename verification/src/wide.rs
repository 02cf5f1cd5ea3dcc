//! Fixed-width wide integers held as 64-bit limbs, least significant first.
//!
//! The values are plain data. Multiplication, division and shifts on 256-bit
//! words are carried out by `alloy_primitives`; each such call stands behind a
//! function whose contract is taken on trust from that crate's documentation.
//! Everything else in this file is verified.

use vstd::arithmetic::power2::{
    lemma2_to64, lemma2_to64_rest, lemma_pow2_adds, lemma_pow2_pos, lemma_pow2_strictly_increases,
    pow2,
};
use vstd::prelude::*;

verus! {

/// 2^32.
pub open spec fn pow2_32() -> nat {
    0x1_0000_0000
}

/// 2^64.
pub open spec fn pow2_64() -> nat {
    0x1_0000_0000_0000_0000
}

/// 2^96.
pub open spec fn pow2_96() -> nat {
    0x1_0000_0000_0000_0000_0000_0000
}

/// 2^127.
pub open spec fn pow2_127() -> nat {
    0x8000_0000_0000_0000_0000_0000_0000_0000
}

/// 2^128.
pub open spec fn pow2_128() -> nat {
    0x1_0000_0000_0000_0000_0000_0000_0000_0000nat
}

/// 2^160.
pub open spec fn pow2_160() -> nat {
    0x1_0000_0000_0000_0000_0000_0000_0000_0000_0000_0000nat
}

/// 2^192.
pub open spec fn pow2_192() -> nat {
    0x1_0000_0000_0000_0000_0000_0000_0000_0000_0000_0000_0000_0000nat
}

/// 2^255.
pub open spec fn pow2_255() -> nat {
    0x8000_0000_0000_0000_0000_0000_0000_0000_0000_0000_0000_0000_0000_0000_0000_0000nat
}

/// 2^256.
pub open spec fn pow2_256() -> nat {
    0x1_0000_0000_0000_0000_0000_0000_0000_0000_0000_0000_0000_0000_0000_0000_0000_0000nat
}

/// The named powers of two are the values of `pow2` at their exponents.
pub proof fn lemma_pow2_values()
    ensures
        pow2(0) == 1,
        pow2(1) == 2,
        pow2(2) == 4,
        pow2(4) == 16,
        pow2(8) == 256,
        pow2(16) == 65536,
        pow2(32) == pow2_32(),
        pow2(64) == pow2_64(),
        pow2(96) == pow2_96(),
        pow2(127) == pow2_127(),
        pow2(128) == pow2_128(),
        pow2(160) == pow2_160(),
        pow2(192) == pow2_192(),
        pow2(255) == pow2_255(),
        pow2(256) == pow2_256(),
{
    lemma2_to64();
    lemma2_to64_rest();
    lemma_pow2_adds(64, 32);
    lemma_pow2_adds(64, 63);
    lemma_pow2_adds(64, 64);
    lemma_pow2_adds(96, 64);
    lemma_pow2_adds(128, 64);
    lemma_pow2_adds(192, 63);
    lemma_pow2_adds(192, 64);
}

/// The number that four limbs stand for.
pub open spec fn limbs4_value(l: [u64; 4]) -> nat {
    (l[0] as nat) + (l[1] as nat) * pow2_64() + (l[2] as nat) * pow2_128() + (l[3] as nat)
        * pow2_192()
}

/// The number that three limbs stand for.
pub open spec fn limbs3_value(l: [u64; 3]) -> nat {
    (l[0] as nat) + (l[1] as nat) * pow2_64() + (l[2] as nat) * pow2_128()
}

/// An unsigned 256-bit integer.
#[derive(Clone, Copy, Debug)]
pub struct U256 {
    pub limbs: [u64; 4],
}

impl View for U256 {
    type V = nat;

    open spec fn view(&self) -> nat {
        limbs4_value(self.limbs)
    }
}

impl U256 {
    /// Builds the word from its limbs, least significant first.
    pub fn from_limbs(limbs: [u64; 4]) -> (r: U256)
        ensures
            r.limbs == limbs,
    {
        U256 { limbs }
    }

    /// The limbs of the word, least significant first.
    pub fn into_limbs(self) -> (l: [u64; 4])
        ensures
            l == self.limbs,
    {
        self.limbs
    }

    /// The word that holds `x`.
    pub fn from_u128(x: u128) -> (r: U256)
        ensures
            r@ == x,
    {
        let lo: u128 = x % 0x1_0000_0000_0000_0000u128;
        let hi: u128 = x / 0x1_0000_0000_0000_0000u128;
        U256 { limbs: [lo as u64, hi as u64, 0, 0] }
    }

    /// The largest word, 2^256 - 1.
    pub fn max_value() -> (r: U256)
        ensures
            r@ == pow2_256() - 1,
    {
        U256 { limbs: [u64::MAX, u64::MAX, u64::MAX, u64::MAX] }
    }

    /// Whether `self` is smaller than `other`.
    pub fn lt(&self, other: &U256) -> (b: bool)
        ensures
            b == (self@ < other@),
    {
        if self.limbs[3] != other.limbs[3] {
            self.limbs[3] < other.limbs[3]
        } else if self.limbs[2] != other.limbs[2] {
            self.limbs[2] < other.limbs[2]
        } else if self.limbs[1] != other.limbs[1] {
            self.limbs[1] < other.limbs[1]
        } else {
            self.limbs[0] < other.limbs[0]
        }
    }

    /// Whether `self` is zero.
    pub fn is_zero(&self) -> (b: bool)
        ensures
            b == (self@ == 0),
    {
        self.limbs[0] == 0 && self.limbs[1] == 0 && self.limbs[2] == 0 && self.limbs[3] == 0
    }

    /// The low 128 bits, for a word that has no others.
    pub fn to_u128(&self) -> (x: u128)
        requires
            self@ < pow2_128(),
        ensures
            x == self@,
    {
        let lo: u128 = self.limbs[0] as u128;
        let hi: u128 = self.limbs[1] as u128;
        hi * 0x1_0000_0000_0000_0000u128 + lo
    }

    /// Product of two words, reduced modulo 2^256.
    ///
    /// Trusted: calls `Uint::wrapping_mul` of `alloy_primitives`, documented to
    /// compute `self * rhs`, wrapping around at the boundary of the type.
    #[verifier::external_body]
    pub(crate) fn wrapping_mul(self, rhs: U256) -> (r: U256)
        ensures
            r@ == (self@ * rhs@) % pow2_256(),
    {
        let x = alloy_primitives::U256::from_limbs(self.limbs);
        let y = alloy_primitives::U256::from_limbs(rhs.limbs);
        U256 { limbs: x.wrapping_mul(y).into_limbs() }
    }

    /// Sum of two words, reduced modulo 2^256.
    ///
    /// Trusted: calls `Uint::wrapping_add` of `alloy_primitives`, documented to
    /// compute `self + rhs`, wrapping around at the boundary of the type.
    #[verifier::external_body]
    pub(crate) fn wrapping_add(self, rhs: U256) -> (r: U256)
        ensures
            r@ == (self@ + rhs@) % pow2_256(),
    {
        let x = alloy_primitives::U256::from_limbs(self.limbs);
        let y = alloy_primitives::U256::from_limbs(rhs.limbs);
        U256 { limbs: x.wrapping_add(y).into_limbs() }
    }

    /// Quotient of two words, rounded down.
    ///
    /// Trusted: calls `Uint::wrapping_div` of `alloy_primitives`, documented to
    /// compute `self / rhs` rounding down and to panic when `rhs` is zero,
    /// which the precondition rules out.
    #[verifier::external_body]
    pub(crate) fn wrapping_div(self, rhs: U256) -> (r: U256)
        requires
            rhs@ != 0,
        ensures
            r@ == self@ / rhs@,
    {
        let x = alloy_primitives::U256::from_limbs(self.limbs);
        let y = alloy_primitives::U256::from_limbs(rhs.limbs);
        U256 { limbs: x.wrapping_div(y).into_limbs() }
    }

    /// Remainder of the division of two words.
    ///
    /// Trusted: calls `Uint::wrapping_rem` of `alloy_primitives`, documented to
    /// compute `self % rhs` and to panic when `rhs` is zero, which the
    /// precondition rules out.
    #[verifier::external_body]
    pub(crate) fn wrapping_rem(self, rhs: U256) -> (r: U256)
        requires
            rhs@ != 0,
        ensures
            r@ == self@ % rhs@,
    {
        let x = alloy_primitives::U256::from_limbs(self.limbs);
        let y = alloy_primitives::U256::from_limbs(rhs.limbs);
        U256 { limbs: x.wrapping_rem(y).into_limbs() }
    }

    /// The word shifted right by `n` bits.
    ///
    /// Trusted: calls `Uint::wrapping_shr` of `alloy_primitives`, documented to
    /// return the floor of `self / 2^n` for every `n`.
    #[verifier::external_body]
    pub(crate) fn wrapping_shr(self, n: usize) -> (r: U256)
        ensures
            r@ == self@ / pow2(n as nat),
    {
        let x = alloy_primitives::U256::from_limbs(self.limbs);
        U256 { limbs: x.wrapping_shr(n).into_limbs() }
    }

    /// The word shifted left by `n` bits, reduced modulo 2^256.
    ///
    /// Trusted: calls `Uint::wrapping_shl` of `alloy_primitives`, documented to
    /// return `self * 2^n` modulo 2^256 for every `n`.
    #[verifier::external_body]
    pub(crate) fn wrapping_shl(self, n: usize) -> (r: U256)
        ensures
            r@ == (self@ * pow2(n as nat)) % pow2_256(),
    {
        let x = alloy_primitives::U256::from_limbs(self.limbs);
        U256 { limbs: x.wrapping_shl(n).into_limbs() }
    }
}

/// The number that a sequence of bytes stands for, most significant byte
/// first.
pub open spec fn be_value(bytes: Seq<u8>) -> nat
    decreases bytes.len(),
{
    if bytes.len() == 0 {
        0
    } else {
        be_value(bytes.drop_last()) * 256 + bytes.last() as nat
    }
}

/// The number that a sequence of 64-bit digits stands for, least significant
/// digit first.
pub open spec fn digits_value(digits: Seq<u64>) -> nat
    decreases digits.len(),
{
    if digits.len() == 0 {
        0
    } else {
        digits_value(digits.drop_last()) + (digits.last() as nat) * pow2(
            (64 * (digits.len() - 1)) as nat,
        )
    }
}

/// Taking one more digit adds that digit at its place.
pub proof fn lemma_digits_value_step(digits: Seq<u64>, i: int)
    requires
        0 <= i < digits.len(),
    ensures
        digits_value(digits.take(i + 1)) == digits_value(digits.take(i)) + (digits[i] as nat)
            * pow2((64 * i) as nat),
{
    assert(digits.take(i + 1).drop_last() =~= digits.take(i));
}

/// An unsigned 160-bit integer: three limbs, of which the last holds 32 bits.
#[derive(Clone, Copy, Debug, PartialEq, Eq)]
pub struct U160 {
    limbs: [u64; 3],
}

impl View for U160 {
    type V = nat;

    closed spec fn view(&self) -> nat {
        limbs3_value(self.limbs)
    }
}

impl U160 {
    #[verifier::type_invariant]
    spec fn well_formed(self) -> bool {
        self.limbs[2] < 0x1_0000_0000
    }

    /// Builds the integer from its limbs, least significant first; `None`
    /// where they hold more than 160 bits.
    pub fn from_limbs(limbs: [u64; 3]) -> (r: Option<U160>)
        ensures
            r.is_some() <==> limbs3_value(limbs) < pow2_160(),
            r.is_some() ==> r.unwrap()@ == limbs3_value(limbs),
    {
        if limbs[2] < 0x1_0000_0000 {
            Some(U160 { limbs })
        } else {
            None
        }
    }

    /// The limbs of the integer, least significant first.
    pub fn into_limbs(self) -> (l: [u64; 3])
        ensures
            limbs3_value(l) == self@,
            self@ < pow2_160(),
    {
        proof {
            use_type_invariant(&self);
        }
        self.limbs
    }

    /// The integer as a 256-bit word.
    pub fn to_u256(&self) -> (r: U256)
        ensures
            r@ == self@,
            self@ < pow2_160(),
    {
        proof {
            use_type_invariant(self);
        }
        let l0 = self.limbs[0];
        let l1 = self.limbs[1];
        let l2 = self.limbs[2];
        U256 { limbs: [l0, l1, l2, 0] }
    }

    /// The 256-bit word `x` as a 160-bit integer; `None` where it does not
    /// fit.
    pub fn from_u256(x: U256) -> (r: Option<U160>)
        ensures
            r.is_some() <==> x@ < pow2_160(),
            r.is_some() ==> r.unwrap()@ == x@,
    {
        if x.limbs[3] == 0 && x.limbs[2] < 0x1_0000_0000 {
            Some(U160 { limbs: [x.limbs[0], x.limbs[1], x.limbs[2]] })
        } else {
            None
        }
    }
}

/// A signed 256-bit integer in two's complement.
#[derive(Clone, Copy, Debug)]
pub struct I256 {
    pub limbs: [u64; 4],
}

impl View for I256 {
    type V = int;

    open spec fn view(&self) -> int {
        let raw = limbs4_value(self.limbs);
        if raw >= pow2_255() {
            raw - pow2_256()
        } else {
            raw as int
        }
    }
}

impl I256 {
    /// The word that holds `x`.
    pub fn from_i128(x: i128) -> (r: I256)
        ensures
            r@ == x,
    {
        if x >= 0 {
            let u: u128 = x as u128;
            let lo: u128 = u % 0x1_0000_0000_0000_0000u128;
            let hi: u128 = u / 0x1_0000_0000_0000_0000u128;
            I256 { limbs: [lo as u64, hi as u64, 0, 0] }
        } else {
            let below: u128 = (-(x + 1)) as u128;
            let u: u128 = u128::MAX - below;
            let lo: u128 = u % 0x1_0000_0000_0000_0000u128;
            let hi: u128 = u / 0x1_0000_0000_0000_0000u128;
            I256 { limbs: [lo as u64, hi as u64, u64::MAX, u64::MAX] }
        }
    }

    /// The word that holds `x`.
    pub fn from_u128(x: u128) -> (r: I256)
        ensures
            r@ == x,
    {
        let lo: u128 = x % 0x1_0000_0000_0000_0000u128;
        let hi: u128 = x / 0x1_0000_0000_0000_0000u128;
        I256 { limbs: [lo as u64, hi as u64, 0, 0] }
    }

    /// The value as an `i32`, for a word that holds one.
    pub fn to_i32(&self) -> (x: i32)
        requires
            i32::MIN <= self@ <= i32::MAX,
        ensures
            x == self@,
    {
        let l0 = self.limbs[0];
        let l1 = self.limbs[1];
        let l2 = self.limbs[2];
        let l3 = self.limbs[3];
        if l3 == 0 {
            l0 as i32
        } else {
            let below: u64 = u64::MAX - l0;
            -(below as i32) - 1
        }
    }

    /// Product of two words.
    ///
    /// Trusted: calls the multiplication operator of `Signed` of
    /// `alloy_primitives`, which returns the product where it fits the type and
    /// panics in debug builds where it does not; the precondition rules that
    /// out.
    #[verifier::external_body]
    pub(crate) fn mul_exact(self, rhs: I256) -> (r: I256)
        requires
            -pow2_255() < self@ * rhs@ < pow2_255(),
        ensures
            r@ == self@ * rhs@,
    {
        let x = alloy_primitives::I256::from_raw(alloy_primitives::U256::from_limbs(self.limbs));
        let y = alloy_primitives::I256::from_raw(alloy_primitives::U256::from_limbs(rhs.limbs));
        I256 { limbs: (x * y).into_raw().into_limbs() }
    }

    /// Sum of two words.
    ///
    /// Trusted: calls the addition operator of `Signed` of `alloy_primitives`,
    /// which returns the sum where it fits the type and panics in debug builds
    /// where it does not; the precondition rules that out.
    #[verifier::external_body]
    pub(crate) fn add_exact(self, rhs: I256) -> (r: I256)
        requires
            -pow2_255() <= self@ + rhs@ < pow2_255(),
        ensures
            r@ == self@ + rhs@,
    {
        let x = alloy_primitives::I256::from_raw(alloy_primitives::U256::from_limbs(self.limbs));
        let y = alloy_primitives::I256::from_raw(alloy_primitives::U256::from_limbs(rhs.limbs));
        I256 { limbs: (x + y).into_raw().into_limbs() }
    }

    /// Difference of two words.
    ///
    /// Trusted: calls the subtraction operator of `Signed` of
    /// `alloy_primitives`, which returns the difference where it fits the type
    /// and panics in debug builds where it does not; the precondition rules
    /// that out.
    #[verifier::external_body]
    pub(crate) fn sub_exact(self, rhs: I256) -> (r: I256)
        requires
            -pow2_255() <= self@ - rhs@ < pow2_255(),
        ensures
            r@ == self@ - rhs@,
    {
        let x = alloy_primitives::I256::from_raw(alloy_primitives::U256::from_limbs(self.limbs));
        let y = alloy_primitives::I256::from_raw(alloy_primitives::U256::from_limbs(rhs.limbs));
        I256 { limbs: (x - y).into_raw().into_limbs() }
    }

    /// The word shifted right by `n` bits, keeping its sign: the floor of
    /// `self / 2^n`.
    ///
    /// Trusted: calls `Signed::asr` of `alloy_primitives`, documented as the
    /// arithmetic shift right, which computes `self >> n` and keeps the sign.
    #[verifier::external_body]
    pub(crate) fn asr(self, n: usize) -> (r: I256)
        requires
            0 < n < 255,
        ensures
            r@ == self@ / (pow2(n as nat) as int),
    {
        let x = alloy_primitives::I256::from_raw(alloy_primitives::U256::from_limbs(self.limbs));
        I256 { limbs: x.asr(n).into_raw().into_limbs() }
    }
}

impl U160 {
    /// The integer that at most twenty bytes stand for, most significant byte
    /// first; `None` for a longer slice.
    pub fn try_from_be_slice(bytes: &[u8]) -> (r: Option<U160>)
        ensures
            r.is_some() <==> bytes@.len() <= 20,
            r.is_some() ==> r.unwrap()@ == be_value(bytes@),
    {
        match be_slice_to_limbs(bytes) {
            Some(limbs) => Some(U160 { limbs }),
            None => None,
        }
    }

    /// The twenty bytes of the integer, most significant byte first.
    pub fn to_be_bytes(&self) -> (bytes: [u8; 20])
        ensures
            be_value(bytes@) == self@,
    {
        proof {
            use_type_invariant(self);
        }
        limbs_to_be_bytes(self.limbs)
    }

    /// The integer that a sequence of 64-bit digits stands for, least
    /// significant digit first; `None` where it takes more than 160 bits.
    pub fn try_from_digits(digits: &[u64]) -> (r: Option<U160>)
        ensures
            r.is_some() <==> digits_value(digits@) < pow2_160(),
            r.is_some() ==> r.unwrap()@ == digits_value(digits@),
    {
        let n = digits.len();
        let mut limbs: [u64; 3] = [0, 0, 0];
        let mut i: usize = 0;
        proof {
            lemma_pow2_values();
            assert(digits@.take(0) =~= Seq::<u64>::empty());
        }
        while i < n
            invariant
                i <= n,
                n == digits@.len(),
                limbs3_value(limbs) == digits_value(digits@.take(i as int)),
                i < 3 ==> limbs[2] == 0,
                i < 2 ==> limbs[1] == 0,
                i < 1 ==> limbs[0] == 0,
            decreases n - i,
        {
            let d = digits[i];
            proof {
                lemma_digits_value_step(digits@, i as int);
                lemma_pow2_pos((64 * i) as nat);
                lemma_pow2_values();
            }
            if i < 3 {
                let ghost before = limbs;
                let ghost place = pow2((64 * i) as nat);
                limbs[i] = d;
                proof {
                    assert(place == if i == 0 {
                        1
                    } else if i == 1 {
                        pow2_64()
                    } else {
                        pow2_128()
                    });
                    assert((d as nat) * place == if i == 0 {
                        d as nat
                    } else if i == 1 {
                        d as nat * pow2_64()
                    } else {
                        d as nat * pow2_128()
                    }) by (nonlinear_arith)
                        requires
                            place == if i == 0 {
                                1
                            } else if i == 1 {
                                pow2_64()
                            } else {
                                pow2_128()
                            },
                    ;
                    assert(before[i as int] == 0);
                    assert(limbs3_value(limbs) == limbs3_value(before) + (d as nat) * place);
                }
            } else if d != 0 {
                proof {
                    lemma_pow2_strictly_increases(160, (64 * i) as nat);
                    assert((d as nat) * pow2((64 * i) as nat) >= pow2((64 * i) as nat))
                        by (nonlinear_arith)
                        requires
                            d >= 1,
                    ;
                    lemma_digits_value_prefix(digits@, i as int + 1);
                }
                return None;
            } else {
                assert((d as nat) * pow2((64 * i) as nat) == 0) by (nonlinear_arith)
                    requires
                        d == 0,
                ;
            }
            i += 1;
        }
        assert(digits@.take(n as int) =~= digits@);
        U160::from_limbs(limbs)
    }
}

/// The value of a prefix of the digits does not exceed that of them all.
pub proof fn lemma_digits_value_prefix(digits: Seq<u64>, i: int)
    requires
        0 <= i <= digits.len(),
    ensures
        digits_value(digits.take(i)) <= digits_value(digits),
    decreases digits.len() - i,
{
    if i == digits.len() {
        assert(digits.take(i) =~= digits);
    } else {
        lemma_digits_value_step(digits, i);
        lemma_digits_value_prefix(digits, i + 1);
    }
}

/// The limbs of the 160-bit integer that at most twenty bytes stand for, most
/// significant byte first.
///
/// Trusted: calls `Uint::try_from_be_slice` of `alloy_primitives` at 160 bits,
/// documented to read the slice as a big-endian number and to return `None`
/// where the slice is longer than the type; the limbs come from
/// `Uint::into_limbs`, least significant first.
#[verifier::external_body]
fn be_slice_to_limbs(bytes: &[u8]) -> (r: Option<[u64; 3]>)
    ensures
        r.is_some() <==> bytes@.len() <= 20,
        r.is_some() ==> limbs3_value(r.unwrap()) == be_value(bytes@) && r.unwrap()[2]
            < 0x1_0000_0000,
{
    match alloy_primitives::aliases::U160::try_from_be_slice(bytes) {
        Some(x) => Some(x.into_limbs()),
        None => None,
    }
}

/// The twenty big-endian bytes of the 160-bit integer with the given limbs.
///
/// Trusted: calls `Uint::to_be_bytes` of `alloy_primitives` at 160 bits,
/// documented to give the big-endian byte array of the integer. The
/// precondition keeps `Uint::from_limbs` from panicking on a value that is too
/// large.
#[verifier::external_body]
fn limbs_to_be_bytes(limbs: [u64; 3]) -> (bytes: [u8; 20])
    requires
        limbs[2] < 0x1_0000_0000,
    ensures
        be_value(bytes@) == limbs3_value(limbs),
{
    alloy_primitives::aliases::U160::from_limbs(limbs).to_be_bytes::<20>()
}

} // verus!
