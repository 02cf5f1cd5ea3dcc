//! Facts of integer arithmetic that the lemmas about ratios share.

use crate::wide::pow2_128;
use vstd::arithmetic::div_mod::{lemma_fundamental_div_mod, lemma_fundamental_div_mod_converse};
use vstd::prelude::*;

verus! {

/// Multiplying by a multiplier and rounding down does not increase a ratio.
pub proof fn lemma_scale_le(x: nat, c: nat)
    requires
        c <= pow2_128(),
    ensures
        x * c / pow2_128() <= x,
{
    assert(x * c <= x * pow2_128()) by (nonlinear_arith)
        requires
            c <= pow2_128(),
    ;
    assert(x * c / pow2_128() <= x) by (nonlinear_arith)
        requires
            x * c <= x * pow2_128(),
            pow2_128() > 0,
    ;
}

/// The low part of `n` under twice a modulus is its low part under the
/// modulus, plus the modulus where the next bit is set.
pub proof fn lemma_mod_double(n: nat, p: nat)
    requires
        p > 0,
    ensures
        n % (2 * p) == n % p + p * ((n / p) % 2),
{
    let q = (n / p) as int;
    let r = (n % p) as int;
    let q2 = q / 2;
    let b = q % 2;
    lemma_fundamental_div_mod(n as int, p as int);
    assert(n == q2 * (2 * p) + (p * b + r)) by (nonlinear_arith)
        requires
            n == p * q + r,
            q == 2 * q2 + b,
    ;
    assert(0 <= p * b + r < 2 * p) by (nonlinear_arith)
        requires
            0 <= r < p,
            0 <= b < 2,
    ;
    lemma_fundamental_div_mod_converse(n as int, (2 * p) as int, q2, p * b + r);
}

/// How quotient and remainder change from `n` to `n + 1`.
pub proof fn lemma_successor_div_mod(n: nat, p: nat)
    requires
        p > 0,
    ensures
        n % p + 1 < p ==> (n + 1) / p == n / p && (n + 1) % p == n % p + 1,
        n % p + 1 == p ==> (n + 1) / p == n / p + 1 && (n + 1) % p == 0,
{
    let q = (n / p) as int;
    let r = (n % p) as int;
    lemma_fundamental_div_mod(n as int, p as int);
    if r + 1 < p {
        assert(n + 1 == q * p + (r + 1)) by (nonlinear_arith)
            requires
                n == p * q + r,
        ;
        lemma_fundamental_div_mod_converse((n + 1) as int, p as int, q, r + 1);
    } else {
        assert(n + 1 == (q + 1) * p + 0) by (nonlinear_arith)
            requires
                n == p * q + r,
                r + 1 == p,
        ;
        lemma_fundamental_div_mod_converse((n + 1) as int, p as int, q + 1, 0);
    }
}

} // verus!
