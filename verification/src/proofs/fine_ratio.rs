//! A finer table of powers of `sqrt(1.0001)`: the ratio model continued to
//! exponents that are multiples of 1/65536 of a tick. Nothing executable uses
//! it; it is the yardstick against which the logarithm of a price is measured.

use crate::proofs::arith::{lemma_mod_double, lemma_scale_le, lemma_successor_div_mod};
use crate::tick_math::{ratio_multiplier, ratio_upto, tick_bit};
use crate::wide::{lemma_pow2_values, pow2_128};
use vstd::arithmetic::div_mod::{
    lemma_div_denominator, lemma_fundamental_div_mod, lemma_fundamental_div_mod_converse,
    lemma_small_mod,
};
use vstd::arithmetic::power2::{
    lemma2_to64, lemma2_to64_rest, lemma_pow2_adds, lemma_pow2_pos, lemma_pow2_unfold, pow2,
};
use vstd::prelude::*;

verus! {

/// The bound of the fine exponents, 2^36.
pub open spec fn fine_limit() -> nat {
    0x10_0000_0000
}

/// The multiplier of bit `j` of a fine exponent: `sqrt(1.0001)^(-2^(j-16))` at
/// scale 2^128. From bit 16 on these are the multipliers of the ticks.
pub open spec fn fine_multiplier(j: nat) -> nat {
    if j == 0 {
        0xfffffffcb92e5f3a5e4073f5b9614280
    } else     if j == 1 {
        0xfffffff9725cbe7f7901fc21395e4b58
    } else     if j == 2 {
        0xfffffff2e4b97d29e408488cd5c701f2
    } else     if j == 3 {
        0xffffffe5c972faff9021cddd7c92593b
    } else     if j == 4 {
        0xffffffcb92e5f8ae40886b9c640cddc2
    } else     if j == 5 {
        0xffffff9725cbfc190222fd4faa8a4f37
    } else     if j == 6 {
        0xffffff2e4b9823240885c78496e99272
    } else     if j == 7 {
        0xfffffe5c9730f21021c466ec0ef33088
    } else     if j == 8 {
        0xfffffcb92e64934084394fd40439866c
    } else     if j == 9 {
        0xfffff9725cd3e301f99dbb33e768dab8
    } else     if j == 10 {
        0xfffff2e4b9d2b8072b30830ce906f245
    } else     if j == 11 {
        0xffffe5c974513816d07a45923e9b3155
    } else     if j == 12 {
        0xffffcb92eb51902c5b8383974a3382c8
    } else     if j == 13 {
        0xffff9725e15f9f3a32abf4907f33c4db
    } else     if j == 14 {
        0xffff2e4bedb1312ee0c76bfe72caead6
    } else     if j == 15 {
        0xfffe5c988729e6ec2f62506345b8b4c9
    } else {
        ratio_multiplier((j - 16) as nat)
    }
}

/// The fine ratio after the lowest `k` bits of the exponent `e` have been
/// taken in, as `ratio_upto` does it for ticks.
pub open spec fn fine_upto(e: nat, k: nat) -> nat
    decreases k,
{
    if k == 0 {
        pow2_128()
    } else {
        let prev = fine_upto(e, (k - 1) as nat);
        if tick_bit(e, (k - 1) as nat) {
            prev * fine_multiplier((k - 1) as nat) / pow2_128()
        } else {
            prev
        }
    }
}

/// `sqrt(1.0001)^(-e / 65536)` at scale 2^128, as the 36 bits of `e` give it.
pub open spec fn fine_ratio(e: nat) -> nat {
    fine_upto(e, 36)
}

/// The fine ratio of the exponent zero is one.
pub proof fn lemma_fine_at_zero()
    ensures
        fine_ratio(0) == pow2_128(),
{
    reveal_with_fuel(fine_upto, 37);
    lemma2_to64();
    lemma2_to64_rest();
}

/// Every fine multiplier is positive and below 2^128.
pub proof fn lemma_fine_multiplier_bounds(j: nat)
    ensures
        0 < fine_multiplier(j) < pow2_128(),
{
}

/// A fine ratio never exceeds one, that is 2^128.
pub proof fn lemma_fine_upto_le_one(e: nat, k: nat)
    ensures
        fine_upto(e, k) <= pow2_128(),
    decreases k,
{
    if k > 0 {
        lemma_fine_upto_le_one(e, (k - 1) as nat);
        lemma_fine_multiplier_bounds((k - 1) as nat);
        lemma_scale_le(fine_upto(e, (k - 1) as nat), fine_multiplier((k - 1) as nat));
    }
}

/// The fine ratio of an exponent whose lowest `k` bits are all set.
pub open spec fn fine_all_ones(k: nat) -> nat
    decreases k,
{
    if k == 0 {
        pow2_128()
    } else {
        fine_all_ones((k - 1) as nat) * fine_multiplier((k - 1) as nat) / pow2_128()
    }
}

/// One step of the chain of all-ones fine ratios.
proof fn lemma_fine_all_ones_step(k: nat, prev: nat, c: nat, next: nat)
    requires
        fine_all_ones(k) == prev,
        fine_multiplier(k) == c,
        prev * c / pow2_128() == next,
    ensures
        fine_all_ones(k + 1) == next,
{
}

/// The all-ones fine ratios of up to 12 bits, written out.
proof fn lemma_fine_all_ones_low()
    ensures
        fine_all_ones(0) == 0x100000000000000000000000000000000nat,
        fine_all_ones(1) == 0xfffffffcb92e5f3a5e4073f5b9614280,
        fine_all_ones(2) == 0xfffffff62b8b1dcf5044985f521deee3,
        fine_all_ones(3) == 0xffffffe910449b7a0a59cf5217bf2f07,
        fine_all_ones(4) == 0xffffffced9b798d2d6b7d6edd59d1586,
        fine_all_ones(5) == 0xffffff9a6c9d9b91d04156bd2bbc6518,
        fine_all_ones(6) == 0xffffff319269c145468266b3c2b29630,
        fine_all_ones(7) == 0xfffffe5fde028d823f7f37c4bc6d1df3,
        fine_all_ones(8) == 0xfffffcbc7536295461771c9860d3ba8f,
        fine_all_ones(9) == 0xfffff975a3a56e5955fbe2321ecf46dd,
        fine_all_ones(10) == 0xfffff2e800a42de58638e80734c36665,
        fine_all_ones(11) == 0xffffe5ccbb2283032a7d4c999271d014,
        fine_all_ones(12) == 0xffffcb9632228534ba1466a74fb98f26,
{
    assert(fine_all_ones(0) == 0x100000000000000000000000000000000nat);
    assert(0x100000000000000000000000000000000nat * 0xfffffffcb92e5f3a5e4073f5b9614280 / pow2_128() == 0xfffffffcb92e5f3a5e4073f5b9614280);
    lemma_fine_all_ones_step(0, 0x100000000000000000000000000000000nat, 0xfffffffcb92e5f3a5e4073f5b9614280, 0xfffffffcb92e5f3a5e4073f5b9614280);
    assert(0xfffffffcb92e5f3a5e4073f5b9614280 * 0xfffffff9725cbe7f7901fc21395e4b58 / pow2_128() == 0xfffffff62b8b1dcf5044985f521deee3);
    lemma_fine_all_ones_step(1, 0xfffffffcb92e5f3a5e4073f5b9614280, 0xfffffff9725cbe7f7901fc21395e4b58, 0xfffffff62b8b1dcf5044985f521deee3);
    assert(0xfffffff62b8b1dcf5044985f521deee3 * 0xfffffff2e4b97d29e408488cd5c701f2 / pow2_128() == 0xffffffe910449b7a0a59cf5217bf2f07);
    lemma_fine_all_ones_step(2, 0xfffffff62b8b1dcf5044985f521deee3, 0xfffffff2e4b97d29e408488cd5c701f2, 0xffffffe910449b7a0a59cf5217bf2f07);
    assert(0xffffffe910449b7a0a59cf5217bf2f07 * 0xffffffe5c972faff9021cddd7c92593b / pow2_128() == 0xffffffced9b798d2d6b7d6edd59d1586);
    lemma_fine_all_ones_step(3, 0xffffffe910449b7a0a59cf5217bf2f07, 0xffffffe5c972faff9021cddd7c92593b, 0xffffffced9b798d2d6b7d6edd59d1586);
    assert(0xffffffced9b798d2d6b7d6edd59d1586 * 0xffffffcb92e5f8ae40886b9c640cddc2 / pow2_128() == 0xffffff9a6c9d9b91d04156bd2bbc6518);
    lemma_fine_all_ones_step(4, 0xffffffced9b798d2d6b7d6edd59d1586, 0xffffffcb92e5f8ae40886b9c640cddc2, 0xffffff9a6c9d9b91d04156bd2bbc6518);
    assert(0xffffff9a6c9d9b91d04156bd2bbc6518 * 0xffffff9725cbfc190222fd4faa8a4f37 / pow2_128() == 0xffffff319269c145468266b3c2b29630);
    lemma_fine_all_ones_step(5, 0xffffff9a6c9d9b91d04156bd2bbc6518, 0xffffff9725cbfc190222fd4faa8a4f37, 0xffffff319269c145468266b3c2b29630);
    assert(0xffffff319269c145468266b3c2b29630 * 0xffffff2e4b9823240885c78496e99272 / pow2_128() == 0xfffffe5fde028d823f7f37c4bc6d1df3);
    lemma_fine_all_ones_step(6, 0xffffff319269c145468266b3c2b29630, 0xffffff2e4b9823240885c78496e99272, 0xfffffe5fde028d823f7f37c4bc6d1df3);
    assert(0xfffffe5fde028d823f7f37c4bc6d1df3 * 0xfffffe5c9730f21021c466ec0ef33088 / pow2_128() == 0xfffffcbc7536295461771c9860d3ba8f);
    lemma_fine_all_ones_step(7, 0xfffffe5fde028d823f7f37c4bc6d1df3, 0xfffffe5c9730f21021c466ec0ef33088, 0xfffffcbc7536295461771c9860d3ba8f);
    assert(0xfffffcbc7536295461771c9860d3ba8f * 0xfffffcb92e64934084394fd40439866c / pow2_128() == 0xfffff975a3a56e5955fbe2321ecf46dd);
    lemma_fine_all_ones_step(8, 0xfffffcbc7536295461771c9860d3ba8f, 0xfffffcb92e64934084394fd40439866c, 0xfffff975a3a56e5955fbe2321ecf46dd);
    assert(0xfffff975a3a56e5955fbe2321ecf46dd * 0xfffff9725cd3e301f99dbb33e768dab8 / pow2_128() == 0xfffff2e800a42de58638e80734c36665);
    lemma_fine_all_ones_step(9, 0xfffff975a3a56e5955fbe2321ecf46dd, 0xfffff9725cd3e301f99dbb33e768dab8, 0xfffff2e800a42de58638e80734c36665);
    assert(0xfffff2e800a42de58638e80734c36665 * 0xfffff2e4b9d2b8072b30830ce906f245 / pow2_128() == 0xffffe5ccbb2283032a7d4c999271d014);
    lemma_fine_all_ones_step(10, 0xfffff2e800a42de58638e80734c36665, 0xfffff2e4b9d2b8072b30830ce906f245, 0xffffe5ccbb2283032a7d4c999271d014);
    assert(0xffffe5ccbb2283032a7d4c999271d014 * 0xffffe5c974513816d07a45923e9b3155 / pow2_128() == 0xffffcb9632228534ba1466a74fb98f26);
    lemma_fine_all_ones_step(11, 0xffffe5ccbb2283032a7d4c999271d014, 0xffffe5c974513816d07a45923e9b3155, 0xffffcb9632228534ba1466a74fb98f26);
}

/// The all-ones fine ratios of 13 to 24 bits, written out.
proof fn lemma_fine_all_ones_mid()
    requires
        fine_all_ones(12) == 0xffffcb9632228534ba1466a74fb98f26,
    ensures
        fine_all_ones(13) == 0xffff9729282fe87ab4baec458c67f155,
        fine_all_ones(14) == 0xffff2e4f348022e0135be6151886d37f,
        fine_all_ones(15) == 0xfffe5c9bcdf62980692669e34e1a1488,
        fine_all_ones(16) == 0xfffcb937043691988adc8b5dece78e3b,
        fine_all_ones(17) == 0xfff972757df96946ea289c123b0511a3,
        fine_all_ones(18) == 0xfff2e512a60c191865a492f1632005c2,
        fine_all_ones(19) == 0xffe5cacdc48ca6136bdcab8b9a27856c,
        fine_all_ones(20) == 0xffcb98471c354bae9ab6e5b6aa7876be,
        fine_all_ones(21) == 0xff973b4540131781305f7560eeaff803,
        fine_all_ones(22) == 0xff2ea167aaed03e588112173b8a85818,
        fine_all_ones(23) == 0xfe5dee07ac116643970d2e469c80d1f7,
        fine_all_ones(24) == 0xfcbe86cacc312c30f386dbe4e8ccc4f6,
{
    assert(0xffffcb9632228534ba1466a74fb98f26 * 0xffffcb92eb51902c5b8383974a3382c8 / pow2_128() == 0xffff9729282fe87ab4baec458c67f155);
    lemma_fine_all_ones_step(12, 0xffffcb9632228534ba1466a74fb98f26, 0xffffcb92eb51902c5b8383974a3382c8, 0xffff9729282fe87ab4baec458c67f155);
    assert(0xffff9729282fe87ab4baec458c67f155 * 0xffff9725e15f9f3a32abf4907f33c4db / pow2_128() == 0xffff2e4f348022e0135be6151886d37f);
    lemma_fine_all_ones_step(13, 0xffff9729282fe87ab4baec458c67f155, 0xffff9725e15f9f3a32abf4907f33c4db, 0xffff2e4f348022e0135be6151886d37f);
    assert(0xffff2e4f348022e0135be6151886d37f * 0xffff2e4bedb1312ee0c76bfe72caead6 / pow2_128() == 0xfffe5c9bcdf62980692669e34e1a1488);
    lemma_fine_all_ones_step(14, 0xffff2e4f348022e0135be6151886d37f, 0xffff2e4bedb1312ee0c76bfe72caead6, 0xfffe5c9bcdf62980692669e34e1a1488);
    assert(0xfffe5c9bcdf62980692669e34e1a1488 * 0xfffe5c988729e6ec2f62506345b8b4c9 / pow2_128() == 0xfffcb937043691988adc8b5dece78e3b);
    lemma_fine_all_ones_step(15, 0xfffe5c9bcdf62980692669e34e1a1488, 0xfffe5c988729e6ec2f62506345b8b4c9, 0xfffcb937043691988adc8b5dece78e3b);
    assert(0xfffcb937043691988adc8b5dece78e3b * 0xfffcb933bd6fad37aa2d162d1a594001 / pow2_128() == 0xfff972757df96946ea289c123b0511a3);
    lemma_fine_all_ones_step(16, 0xfffcb937043691988adc8b5dece78e3b, 0xfffcb933bd6fad37aa2d162d1a594001, 0xfff972757df96946ea289c123b0511a3);
    assert(0xfff972757df96946ea289c123b0511a3 * 0xfff97272373d413259a46990580e213a / pow2_128() == 0xfff2e512a60c191865a492f1632005c2);
    lemma_fine_all_ones_step(17, 0xfff972757df96946ea289c123b0511a3, 0xfff97272373d413259a46990580e213a, 0xfff2e512a60c191865a492f1632005c2);
    assert(0xfff2e512a60c191865a492f1632005c2 * 0xfff2e50f5f656932ef12357cf3c7fdcc / pow2_128() == 0xffe5cacdc48ca6136bdcab8b9a27856c);
    lemma_fine_all_ones_step(18, 0xfff2e512a60c191865a492f1632005c2, 0xfff2e50f5f656932ef12357cf3c7fdcc, 0xffe5cacdc48ca6136bdcab8b9a27856c);
    assert(0xffe5cacdc48ca6136bdcab8b9a27856c * 0xffe5caca7e10e4e61c3624eaa0941cd0 / pow2_128() == 0xffcb98471c354bae9ab6e5b6aa7876be);
    lemma_fine_all_ones_step(19, 0xffe5cacdc48ca6136bdcab8b9a27856c, 0xffe5caca7e10e4e61c3624eaa0941cd0, 0xffcb98471c354bae9ab6e5b6aa7876be);
    assert(0xffcb98471c354bae9ab6e5b6aa7876be * 0xffcb9843d60f6159c9db58835c926644 / pow2_128() == 0xff973b4540131781305f7560eeaff803);
    lemma_fine_all_ones_step(20, 0xffcb98471c354bae9ab6e5b6aa7876be, 0xffcb9843d60f6159c9db58835c926644, 0xff973b4540131781305f7560eeaff803);
    assert(0xff973b4540131781305f7560eeaff803 * 0xff973b41fa98c081472e6896dfb254c0 / pow2_128() == 0xff2ea167aaed03e588112173b8a85818);
    lemma_fine_all_ones_step(21, 0xff973b4540131781305f7560eeaff803, 0xff973b41fa98c081472e6896dfb254c0, 0xff2ea167aaed03e588112173b8a85818);
    assert(0xff2ea167aaed03e588112173b8a85818 * 0xff2ea16466c96a3843ec78b326b52861 / pow2_128() == 0xfe5dee07ac116643970d2e469c80d1f7);
    lemma_fine_all_ones_step(22, 0xff2ea167aaed03e588112173b8a85818, 0xff2ea16466c96a3843ec78b326b52861, 0xfe5dee07ac116643970d2e469c80d1f7);
    assert(0xfe5dee07ac116643970d2e469c80d1f7 * 0xfe5dee046a99a2a811c461f1969c3053 / pow2_128() == 0xfcbe86cacc312c30f386dbe4e8ccc4f6);
    lemma_fine_all_ones_step(23, 0xfe5dee07ac116643970d2e469c80d1f7, 0xfe5dee046a99a2a811c461f1969c3053, 0xfcbe86cacc312c30f386dbe4e8ccc4f6);
}

/// The all-ones fine ratios of 25 to 36 bits, written out.
proof fn lemma_fine_all_ones_high()
    requires
        fine_all_ones(24) == 0xfcbe86cacc312c30f386dbe4e8ccc4f6,
    ensures
        fine_all_ones(25) == 0xf987a7286c6274baa57bb878852d2f0a,
        fine_all_ones(26) == 0xf3392b0b3fab4d580a384c7b2b172324,
        fine_all_ones(27) == 0xe715947897f079351debee3c6457473e,
        fine_all_ones(28) == 0xd097f3c0a89c59af2da6ee9a320d7664,
        fine_all_ones(29) == 0xa9f746485a71ad8e8621ceee711a7c3b,
        fine_all_ones(30) == 0x70d869a2c89373100b0f3a3f335052b1,
        fine_all_ones(31) == 0x31be13603acd7eb185fe93867a944d15,
        fine_all_ones(32) == 0x9aa508b7b25f2a805f820f2e65f3240,
        fine_all_ones(33) == 0x5d6af8e00d99c3142f1751981d8bce,
        fine_all_ones(34) == 0x2216e58565acfc15d35c469ea13e,
        fine_all_ones(35) == 0x48a1703a0d79b2ebe4addf0,
        fine_all_ones(36) == 0x149b34eebe4751,
{
    assert(0xfcbe86cacc312c30f386dbe4e8ccc4f6 * 0xfcbe86c7900a88aedcffc83b479aa3a4 / pow2_128() == 0xf987a7286c6274baa57bb878852d2f0a);
    lemma_fine_all_ones_step(24, 0xfcbe86cacc312c30f386dbe4e8ccc4f6, 0xfcbe86c7900a88aedcffc83b479aa3a4, 0xf987a7286c6274baa57bb878852d2f0a);
    assert(0xf987a7286c6274baa57bb878852d2f0a * 0xf987a7253ac413176f2b074cf7815e54 / pow2_128() == 0xf3392b0b3fab4d580a384c7b2b172324);
    lemma_fine_all_ones_step(25, 0xf987a7286c6274baa57bb878852d2f0a, 0xf987a7253ac413176f2b074cf7815e54, 0xf3392b0b3fab4d580a384c7b2b172324);
    assert(0xf3392b0b3fab4d580a384c7b2b172324 * 0xf3392b0822b70005940c7a398e4b70f3 / pow2_128() == 0xe715947897f079351debee3c6457473e);
    lemma_fine_all_ones_step(26, 0xf3392b0b3fab4d580a384c7b2b172324, 0xf3392b0822b70005940c7a398e4b70f3, 0xe715947897f079351debee3c6457473e);
    assert(0xe715947897f079351debee3c6457473e * 0xe7159475a2c29b7443b29c7fa6e889d9 / pow2_128() == 0xd097f3c0a89c59af2da6ee9a320d7664);
    lemma_fine_all_ones_step(27, 0xe715947897f079351debee3c6457473e, 0xe7159475a2c29b7443b29c7fa6e889d9, 0xd097f3c0a89c59af2da6ee9a320d7664);
    assert(0xd097f3c0a89c59af2da6ee9a320d7664 * 0xd097f3bdfd2022b8845ad8f792aa5825 / pow2_128() == 0xa9f746485a71ad8e8621ceee711a7c3b);
    lemma_fine_all_ones_step(28, 0xd097f3c0a89c59af2da6ee9a320d7664, 0xd097f3bdfd2022b8845ad8f792aa5825, 0xa9f746485a71ad8e8621ceee711a7c3b);
    assert(0xa9f746485a71ad8e8621ceee711a7c3b * 0xa9f746462d870fdf8a65dc1f90e061e5 / pow2_128() == 0x70d869a2c89373100b0f3a3f335052b1);
    lemma_fine_all_ones_step(29, 0xa9f746485a71ad8e8621ceee711a7c3b, 0xa9f746462d870fdf8a65dc1f90e061e5, 0x70d869a2c89373100b0f3a3f335052b1);
    assert(0x70d869a2c89373100b0f3a3f335052b1 * 0x70d869a156d2a1b890bb3df62baf32f7 / pow2_128() == 0x31be13603acd7eb185fe93867a944d15);
    lemma_fine_all_ones_step(30, 0x70d869a2c89373100b0f3a3f335052b1, 0x70d869a156d2a1b890bb3df62baf32f7, 0x31be13603acd7eb185fe93867a944d15);
    assert(0x31be13603acd7eb185fe93867a944d15 * 0x31be135f97d08fd981231505542fcfa6 / pow2_128() == 0x9aa508b7b25f2a805f820f2e65f3240);
    lemma_fine_all_ones_step(31, 0x31be13603acd7eb185fe93867a944d15, 0x31be135f97d08fd981231505542fcfa6, 0x9aa508b7b25f2a805f820f2e65f3240);
    assert(0x9aa508b7b25f2a805f820f2e65f3240 * 0x9aa508b5b7a84e1c677de54f3e99bc9 / pow2_128() == 0x5d6af8e00d99c3142f1751981d8bce);
    lemma_fine_all_ones_step(32, 0x9aa508b7b25f2a805f820f2e65f3240, 0x9aa508b5b7a84e1c677de54f3e99bc9, 0x5d6af8e00d99c3142f1751981d8bce);
    assert(0x5d6af8e00d99c3142f1751981d8bce * 0x5d6af8dedb81196699c329225ee604 / pow2_128() == 0x2216e58565acfc15d35c469ea13e);
    lemma_fine_all_ones_step(33, 0x5d6af8e00d99c3142f1751981d8bce, 0x5d6af8dedb81196699c329225ee604, 0x2216e58565acfc15d35c469ea13e);
    assert(0x2216e58565acfc15d35c469ea13e * 0x2216e584f5fa1ea926041bedfe98 / pow2_128() == 0x48a1703a0d79b2ebe4addf0);
    lemma_fine_all_ones_step(34, 0x2216e58565acfc15d35c469ea13e, 0x2216e584f5fa1ea926041bedfe98, 0x48a1703a0d79b2ebe4addf0);
    assert(0x48a1703a0d79b2ebe4addf0 * 0x48a170391f7dc42444e8fa2 / pow2_128() == 0x149b34eebe4751);
    lemma_fine_all_ones_step(35, 0x48a1703a0d79b2ebe4addf0, 0x48a170391f7dc42444e8fa2, 0x149b34eebe4751);
}

/// The all-ones fine ratios, written out.
pub proof fn lemma_fine_all_ones_values()
    ensures
        fine_all_ones(0) == 0x100000000000000000000000000000000nat,
        fine_all_ones(1) == 0xfffffffcb92e5f3a5e4073f5b9614280,
        fine_all_ones(2) == 0xfffffff62b8b1dcf5044985f521deee3,
        fine_all_ones(3) == 0xffffffe910449b7a0a59cf5217bf2f07,
        fine_all_ones(4) == 0xffffffced9b798d2d6b7d6edd59d1586,
        fine_all_ones(5) == 0xffffff9a6c9d9b91d04156bd2bbc6518,
        fine_all_ones(6) == 0xffffff319269c145468266b3c2b29630,
        fine_all_ones(7) == 0xfffffe5fde028d823f7f37c4bc6d1df3,
        fine_all_ones(8) == 0xfffffcbc7536295461771c9860d3ba8f,
        fine_all_ones(9) == 0xfffff975a3a56e5955fbe2321ecf46dd,
        fine_all_ones(10) == 0xfffff2e800a42de58638e80734c36665,
        fine_all_ones(11) == 0xffffe5ccbb2283032a7d4c999271d014,
        fine_all_ones(12) == 0xffffcb9632228534ba1466a74fb98f26,
        fine_all_ones(13) == 0xffff9729282fe87ab4baec458c67f155,
        fine_all_ones(14) == 0xffff2e4f348022e0135be6151886d37f,
        fine_all_ones(15) == 0xfffe5c9bcdf62980692669e34e1a1488,
        fine_all_ones(16) == 0xfffcb937043691988adc8b5dece78e3b,
        fine_all_ones(17) == 0xfff972757df96946ea289c123b0511a3,
        fine_all_ones(18) == 0xfff2e512a60c191865a492f1632005c2,
        fine_all_ones(19) == 0xffe5cacdc48ca6136bdcab8b9a27856c,
        fine_all_ones(20) == 0xffcb98471c354bae9ab6e5b6aa7876be,
        fine_all_ones(21) == 0xff973b4540131781305f7560eeaff803,
        fine_all_ones(22) == 0xff2ea167aaed03e588112173b8a85818,
        fine_all_ones(23) == 0xfe5dee07ac116643970d2e469c80d1f7,
        fine_all_ones(24) == 0xfcbe86cacc312c30f386dbe4e8ccc4f6,
        fine_all_ones(25) == 0xf987a7286c6274baa57bb878852d2f0a,
        fine_all_ones(26) == 0xf3392b0b3fab4d580a384c7b2b172324,
        fine_all_ones(27) == 0xe715947897f079351debee3c6457473e,
        fine_all_ones(28) == 0xd097f3c0a89c59af2da6ee9a320d7664,
        fine_all_ones(29) == 0xa9f746485a71ad8e8621ceee711a7c3b,
        fine_all_ones(30) == 0x70d869a2c89373100b0f3a3f335052b1,
        fine_all_ones(31) == 0x31be13603acd7eb185fe93867a944d15,
        fine_all_ones(32) == 0x9aa508b7b25f2a805f820f2e65f3240,
        fine_all_ones(33) == 0x5d6af8e00d99c3142f1751981d8bce,
        fine_all_ones(34) == 0x2216e58565acfc15d35c469ea13e,
        fine_all_ones(35) == 0x48a1703a0d79b2ebe4addf0,
        fine_all_ones(36) == 0x149b34eebe4751,
{
    lemma_fine_all_ones_low();
    lemma_fine_all_ones_mid();
    lemma_fine_all_ones_high();
}

/// Whether `y` lies below `x` by at least `x / 2^31 - slack`.
pub open spec fn falls_finely(x: nat, y: nat, slack: nat) -> bool {
    0x8000_0000 * (x - y) + 0x8000_0000 * slack >= x
}

/// Scaling both of two ratios by one multiplier keeps the relative gap between
/// them; rounding costs one unit of slack.
pub proof fn lemma_fine_gap_step(x: nat, y: nat, c: nat, slack: nat)
    requires
        c <= pow2_128(),
        falls_finely(x, y, slack),
    ensures
        falls_finely(x * c / pow2_128(), y * c / pow2_128(), slack + 1),
{
    let q = pow2_128() as int;
    let xs = (x * c / pow2_128()) as int;
    let ys = (y * c / pow2_128()) as int;
    let xc = (x * c) as int;
    let yc = (y * c) as int;
    let k: int = 0x8000_0000;
    lemma_fundamental_div_mod(xc, q);
    lemma_fundamental_div_mod(yc, q);
    assert(xs * q <= xc && xc < xs * q + q) by (nonlinear_arith)
        requires
            xc == q * xs + xc % q,
            0 <= xc % q < q,
    ;
    assert(ys * q <= yc) by (nonlinear_arith)
        requires
            yc == q * ys + yc % q,
            0 <= yc % q < q,
    ;
    assert(k * (xc - yc) + k * slack * c >= xc) by (nonlinear_arith)
        requires
            k * (x - y) + k * slack >= x,
            xc == x * c,
            yc == y * c,
    ;
    assert(k * slack * c <= k * slack * q) by (nonlinear_arith)
        requires
            c <= q,
            k > 0,
    ;
    assert((k * (xs - ys) + k * (slack + 1)) * q >= xs * q) by (nonlinear_arith)
        requires
            xs * q <= xc,
            xc < xs * q + q,
            ys * q <= yc,
            k * (xc - yc) + k * slack * c >= xc,
            k * slack * c <= k * slack * q,
            k == 0x8000_0000,
    ;
    assert(k * (xs - ys) + k * (slack + 1) >= xs) by (nonlinear_arith)
        requires
            (k * (xs - ys) + k * (slack + 1)) * q >= xs * q,
            q > 0,
    ;
}

/// The fine ratio of 2^k - 1 exceeds the multiplier of bit `k` by more than one
/// part in 2^31.
pub proof fn lemma_fine_all_ones_gap(k: nat)
    requires
        k < 36,
    ensures
        falls_finely(fine_all_ones(k), fine_multiplier(k), 0),
{
    lemma_fine_all_ones_values();
}

/// From a fine exponent to the next one, after the lowest `k` bits: where the
/// step stays inside those bits, the ratio falls by one part in 2^31, less a
/// slack of `k`; where it carries out of them, the first ratio is that of `k`
/// set bits and the second is one.
pub proof fn lemma_fine_successor_gap(n: nat, k: nat)
    requires
        k <= 36,
    ensures
        n % pow2(k) + 1 < pow2(k) ==> falls_finely(fine_upto(n, k), fine_upto(n + 1, k), k),
        n % pow2(k) + 1 >= pow2(k) ==> fine_upto(n, k) == fine_all_ones(k) && fine_upto(n + 1, k)
            == pow2_128(),
    decreases k,
{
    if k == 0 {
        lemma_pow2_values();
    } else {
        let j = (k - 1) as nat;
        let p = pow2(j);
        lemma_fine_successor_gap(n, j);
        lemma_pow2_pos(j);
        lemma_pow2_unfold(k);
        lemma_mod_double(n, p);
        lemma_successor_div_mod(n, p);
        lemma_fundamental_div_mod(n as int, p as int);
        let x = fine_upto(n, j);
        let y = fine_upto(n + 1, j);
        let c = fine_multiplier(j);
        lemma_fine_multiplier_bounds(j);
        let b = (n / p) % 2;
        assert(p * b == if b == 1 { p } else { 0 }) by (nonlinear_arith)
            requires
                b == 0 || b == 1,
        ;
        assert(n % pow2(k) == n % p + p * b);
        if n % p + 1 < p {
            assert(tick_bit(n + 1, j) == tick_bit(n, j));
            if tick_bit(n, j) {
                lemma_fine_gap_step(x, y, c, j);
                assert(fine_upto(n, k) == x * c / pow2_128());
                assert(fine_upto(n + 1, k) == y * c / pow2_128());
            } else {
                assert(fine_upto(n, k) == x);
                assert(fine_upto(n + 1, k) == y);
            }
            assert(falls_finely(fine_upto(n, k), fine_upto(n + 1, k), k));
        } else {
            assert(x == fine_all_ones(j));
            assert(y == pow2_128());
            assert((n + 1) / p == n / p + 1);
            if !tick_bit(n, j) {
                assert(tick_bit(n + 1, j));
                lemma_fine_all_ones_gap(j);
                assert(pow2_128() * c / pow2_128() == c) by (nonlinear_arith);
                assert(fine_upto(n, k) == x);
                assert(fine_upto(n + 1, k) == c);
                assert(falls_finely(fine_upto(n, k), fine_upto(n + 1, k), k));
            } else {
                assert(!tick_bit(n + 1, j));
                assert(fine_upto(n, k) == fine_all_ones(k));
                assert(fine_upto(n + 1, k) == pow2_128());
                assert(n % pow2(k) + 1 >= pow2(k));
            }
        }
    }
}

/// The smallest fine ratio: that of the exponent with all 36 bits set.
pub open spec fn fine_floor() -> nat {
    0x149b34eebe4751
}

/// 2^36 as a power of two.
pub proof fn lemma_fine_limit()
    ensures
        pow2(36) == fine_limit(),
        pow2(16) == 65536,
{
    lemma2_to64();
    lemma2_to64_rest();
}

/// From one fine exponent to the next the ratio falls by more than 2^20, and by
/// one part in 2^31 less 36; no fine ratio lies below that of the largest
/// exponent.
pub proof fn lemma_fine_successor(e: nat)
    requires
        e < fine_limit(),
    ensures
        fine_ratio(e) >= fine_floor(),
        e + 1 < fine_limit() ==> fine_ratio(e) >= fine_ratio(e + 1) + 0x10_0000,
        e + 1 < fine_limit() ==> falls_finely(fine_ratio(e), fine_ratio(e + 1), 36),
    decreases fine_limit() - e,
{
    lemma_fine_limit();
    lemma_small_mod(e, pow2(36));
    lemma_fine_successor_gap(e, 36);
    if e + 1 == fine_limit() {
        lemma_fine_all_ones_values();
    } else {
        lemma_fine_successor(e + 1);
    }
}

/// The fine ratio falls strictly as the exponent grows.
pub proof fn lemma_fine_decreasing(a: nat, b: nat)
    requires
        a <= b < fine_limit(),
    ensures
        fine_ratio(a) >= fine_ratio(b) + 0x10_0000 * (b - a),
        fine_ratio(b) >= fine_floor(),
    decreases b - a,
{
    lemma_fine_successor(b);
    if a < b {
        lemma_fine_successor(a);
        lemma_fine_decreasing(a + 1, b);
    }
}

/// Of two fine exponents, the one with the smaller ratio is the greater.
pub proof fn lemma_fine_order(a: nat, b: nat)
    requires
        a < fine_limit(),
        b < fine_limit(),
        fine_ratio(a) < fine_ratio(b) + 0x10_0000,
    ensures
        b <= a,
{
    if a < b {
        lemma_fine_decreasing(a, b);
    }
}

/// A whole number of ticks, as a fine exponent, has none of its lowest sixteen
/// bits set, and above them the bits of the number of ticks.
pub proof fn lemma_tick_exponent_bits(n: nat, j: nat)
    ensures
        j < 16 ==> !tick_bit(n * 65536, j),
        j >= 16 ==> tick_bit(n * 65536, j) == tick_bit(n, (j - 16) as nat),
{
    lemma_fine_limit();
    lemma_pow2_pos(j);
    if j < 16 {
        let rest = (15 - j) as nat;
        lemma_pow2_adds(j, rest + 1);
        lemma_pow2_unfold(rest + 1);
        lemma_pow2_pos(rest);
        let half = n * pow2(rest);
        assert(n * 65536 == (2 * half) * pow2(j)) by (nonlinear_arith)
            requires
                65536 == pow2(j) * pow2(rest + 1),
                pow2(rest + 1) == 2 * pow2(rest),
                half == n * pow2(rest),
        ;
        lemma_fundamental_div_mod_converse(
            (n * 65536) as int,
            pow2(j) as int,
            (2 * half) as int,
            0,
        );
        assert((n * 65536) / pow2(j) == 2 * half);
    } else {
        let k = (j - 16) as nat;
        lemma_pow2_adds(16, k);
        lemma_pow2_pos(k);
        lemma_div_denominator((n * 65536) as int, 65536, pow2(k) as int);
        assert((n * 65536) / 65536 == n);
        assert(pow2(j) == 65536 * pow2(k));
    }
}

/// On whole numbers of ticks the fine ratio is the ratio of the ticks.
pub proof fn lemma_fine_of_ticks(n: nat, k: nat)
    ensures
        k <= 16 ==> fine_upto(n * 65536, k) == pow2_128(),
        k >= 16 ==> fine_upto(n * 65536, k) == ratio_upto(n, (k - 16) as nat),
    decreases k,
{
    if k > 0 {
        lemma_fine_of_ticks(n, (k - 1) as nat);
        lemma_tick_exponent_bits(n, (k - 1) as nat);
    }
}

} // verus!
