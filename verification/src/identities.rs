//! Identities of binary64 arithmetic: operations that are exact.
use crate::arith::{finite_quotient, normal_shift, product, quotient};
use crate::binary64::{Value, TWO52};
use crate::convert::{lemma_small_constants, of_nat};
use crate::powers::{lemma_div_mod_sum, lemma_pow2_values};
use crate::rounding::{
    half_even, lemma_bit_length_unique, lemma_round_fixed, lemma_round_scale, quantum, round,
    scaled,
};
use vstd::arithmetic::power2::{lemma_pow2_adds, pow2};
use vstd::prelude::*;

verus! {

/// Multiplying by one changes nothing.
pub proof fn lemma_times_one(v: Value)
    requires
        v.well_formed(),
    ensures
        product(v, of_nat(1)) == v,
{
    lemma_small_constants();
    match v {
        Value::Fin { neg, mant, exp } => {
            lemma_pow2_values();
            lemma_round_scale(neg, mant, exp, 52);
            lemma_round_fixed(neg, mant, exp);
        },
        _ => {},
    }
}

/// One divided by one is one.
pub proof fn lemma_one_over_one()
    ensures
        quotient(of_nat(1), of_nat(1)) == of_nat(1),
{
    reveal(round);
    lemma_small_constants();
    lemma_pow2_values();
    vstd::arithmetic::power2::lemma2_to64();
    lemma_bit_length_unique(TWO52 as nat, 52);
    assert(normal_shift(TWO52 as nat) == 0);
    let one: nat = TWO52 as nat;
    let wide = pow2(64);
    let n = one * pow2(0) * wide;
    let d = one * pow2(0);
    assert(d == one);
    assert(n == wide * one) by (nonlinear_arith)
        requires
            n == one * pow2(0) * wide,
            pow2(0) == 1,
    ;
    lemma_div_mod_sum(wide as int, one as int, 0);
    assert(n / d == wide);
    assert(n % d == 0);
    let twice: nat = 2 * wide;
    lemma_pow2_adds(64, 1);
    lemma_pow2_adds(64, 2);
    lemma_bit_length_unique(twice, 65);
    assert(quantum(twice, -65) == -52);
    lemma_pow2_adds(52, 13);
    lemma_div_mod_sum(one as int, pow2(13) as int, 0);
    assert(twice == one * pow2(13)) by (nonlinear_arith)
        requires
            twice == 2 * 0x1_0000_0000_0000_0000,
            one == 0x10_0000_0000_0000,
            pow2(13) == 0x2000,
    ;
    assert(half_even(twice, 13) == one);
    assert(scaled(twice, -65, -52) == one);
    assert(finite_quotient(false, one, -52, one, -52) == of_nat(1));
}

} // verus!
