//! Conversions between binary64 numbers and unsigned integers.
use crate::binary64::{decode, encode, Double, Parts, Value, TWO52, TWO53};
use crate::powers::{
    lemma_div_lt, lemma_div_mod_sum, lemma_mul_le, lemma_mul_lt, lemma_pow2_le,
    lemma_pow2_lt_exponent, lemma_pow2_values, pow2_u128,
};
use crate::rounding::{
    bit_length, lemma_bit_length_bounds, lemma_scaled_bounds, quantum, round, round_pack, scaled,
};
use vstd::arithmetic::power2::{lemma_pow2_pos, pow2};
use vstd::prelude::*;

verus! {

/// The binary64 value of a natural number: the number itself where it has at
/// most 53 digits, else the nearest value.
pub open spec fn of_nat(x: nat) -> Value {
    round(false, x, 0)
}

/// The integer part of the magnitude `mant * 2^exp`.
pub open spec fn truncated(mant: nat, exp: int) -> nat {
    if exp >= 0 {
        mant * pow2(exp as nat)
    } else {
        mant / pow2((-exp) as nat)
    }
}

/// A value cut down to an integer between zero and `max`: the fraction is
/// dropped, what lies outside goes to the nearer end, and not-a-number goes
/// to zero.
pub open spec fn saturating(v: Value, max: nat) -> nat {
    match v {
        Value::Nan => 0,
        Value::Inf { neg } => if neg {
            0
        } else {
            max
        },
        Value::Fin { neg, mant, exp } => if neg {
            0
        } else if truncated(mant, exp) > max {
            max
        } else {
            truncated(mant, exp)
        },
    }
}

/// A natural number of at most 53 digits converts exactly.
pub proof fn lemma_of_nat_exact(x: nat)
    requires
        x < TWO53,
    ensures
        of_nat(x) is Fin,
        !of_nat(x).negative(),
        of_nat(x) matches Value::Fin { mant, exp, .. } && truncated(mant, exp) == x && exp <= 0
            && mant == x * pow2((-exp) as nat),
{
    reveal(round);
    lemma_pow2_values();
    if x == 0 {
        lemma_pow2_pos(1074);
        assert(0nat / pow2(1074) == 0) by (nonlinear_arith)
            requires
                pow2(1074) > 0,
        ;
        assert(0 * pow2(1074) == 0);
    } else {
        lemma_bit_length_bounds(x);
        let l = bit_length(x);
        lemma_pow2_lt_exponent((l - 1) as nat, 53);
        lemma_scaled_bounds(x, 0);
        let q = quantum(x, 0);
        assert(q == l - 53);
        let p = pow2((-q) as nat);
        lemma_pow2_pos((-q) as nat);
        assert(scaled(x, 0, q) == x * p);
        assert(of_nat(x) == (Value::Fin { neg: false, mant: x * p, exp: q }));
        if q < 0 {
            lemma_div_mod_sum(x as int, p as int, 0);
            assert(truncated(x * p, q) == x);
        } else {
            assert(x * p == x) by (nonlinear_arith)
                requires
                    p == 1,
            ;
            assert(x * pow2(0) == x) by (nonlinear_arith)
                requires
                    pow2(0) == 1,
            ;
            assert(truncated(x * p, q) == x);
        }
    }
}

/// Cutting a converted number of at most 53 digits down to `0..=max` gives
/// the smaller of the number and `max`.
pub proof fn lemma_saturating_of_nat(x: nat, max: nat)
    requires
        x < TWO53,
    ensures
        saturating(of_nat(x), max) == if x > max {
            max
        } else {
            x
        },
{
    lemma_of_nat_exact(x);
}

/// The pattern of one.
pub const ONE_BITS: u64 = 0x3ff0_0000_0000_0000;

/// The pattern of two.
pub const TWO_BITS: u64 = 0x4000_0000_0000_0000;

/// The pattern of 255.
pub const BYTE_MAX_BITS: u64 = 0x406f_e000_0000_0000;

/// The patterns of one, two and 255 decode to those numbers.
pub proof fn lemma_small_constants()
    ensures
        of_nat(1) == (Value::Fin { neg: false, mant: TWO52 as nat, exp: -52 }),
        of_nat(2) == (Value::Fin { neg: false, mant: TWO52 as nat, exp: -51 }),
        of_nat(255) == (Value::Fin { neg: false, mant: 0x1f_e000_0000_0000, exp: -45 }),
        decode(ONE_BITS) == of_nat(1),
        decode(TWO_BITS) == of_nat(2),
        decode(BYTE_MAX_BITS) == of_nat(255),
        encode(of_nat(1)) == ONE_BITS,
        encode(of_nat(2)) == TWO_BITS,
        encode(of_nat(255)) == BYTE_MAX_BITS,
{
    reveal(round);
    lemma_pow2_values();
    vstd::arithmetic::power2::lemma2_to64();
    vstd::arithmetic::power2::lemma2_to64_rest();
    lemma_of_nat_exact(1);
    lemma_of_nat_exact(2);
    lemma_of_nat_exact(255);
    crate::rounding::lemma_bit_length_unique(1, 0);
    crate::rounding::lemma_bit_length_unique(2, 1);
    crate::rounding::lemma_bit_length_unique(255, 7);
    assert(quantum(1, 0) == -52);
    assert(quantum(2, 0) == -51);
    assert(quantum(255, 0) == -45);
}

impl Double {
    /// The number with the value of `x`.
    pub fn from_u32(x: u32) -> (r: Double)
        ensures
            r@ == of_nat(x as nat),
            r == Double::of(of_nat(x as nat)),
    {
        round_pack(false, x as u128, 0)
    }

    /// The number one.
    pub fn one() -> (r: Double)
        ensures
            r@ == of_nat(1),
            r == Double::of(of_nat(1)),
    {
        proof {
            lemma_small_constants();
        }
        Double { bits: ONE_BITS }
    }

    /// The number two.
    pub fn two() -> (r: Double)
        ensures
            r@ == of_nat(2),
            r == Double::of(of_nat(2)),
    {
        proof {
            lemma_small_constants();
        }
        Double { bits: TWO_BITS }
    }

    /// The number 255, the brightest intensity.
    pub fn byte_max() -> (r: Double)
        ensures
            r@ == of_nat(255),
            r == Double::of(of_nat(255)),
    {
        proof {
            lemma_small_constants();
        }
        Double { bits: BYTE_MAX_BITS }
    }

    /// The integer part of the number, kept within `0..=max`.
    pub fn to_limit(self, max: u32) -> (r: u32)
        ensures
            r == saturating(self@, max as nat),
            r <= max,
    {
        match self.unpack() {
            Parts::Nan => 0,
            Parts::Inf { neg } => if neg {
                0
            } else {
                max
            },
            Parts::Fin { neg, mant, exp } => {
                proof {
                    lemma_pow2_values();
                }
                if neg {
                    0
                } else if exp >= 0 {
                    if mant == 0 {
                        assert(0 * pow2(exp as nat) == 0);
                        0
                    } else if exp >= 32 {
                        proof {
                            lemma_pow2_le(32, exp as nat);
                            lemma_mul_le(1, mant as int, pow2(exp as nat) as int);
                        }
                        max
                    } else {
                        let p = pow2_u128(exp as u32);
                        proof {
                            lemma_pow2_le(exp as nat, 32);
                            lemma_mul_lt(mant as int, TWO53 as int, p as int);
                            lemma_mul_le(p as int, 0x1_0000_0000, TWO53 as int);
                        }
                        let t: u128 = (mant as u128) * p;
                        if t > max as u128 {
                            max
                        } else {
                            t as u32
                        }
                    }
                } else {
                    let s: i64 = -exp;
                    if s >= 64 {
                        proof {
                            lemma_pow2_le(64, s as nat);
                            lemma_div_lt(mant as int, pow2(s as nat) as int, 1);
                        }
                        0
                    } else {
                        let p = pow2_u128(s as u32);
                        let t: u128 = (mant as u128) / p;
                        if t > max as u128 {
                            max
                        } else {
                            t as u32
                        }
                    }
                }
            },
        }
    }

    /// The number as a `u32`: truncated toward zero, saturating at the ends
    /// of the range, zero for not-a-number.
    pub fn to_u32(self) -> (r: u32)
        ensures
            r == saturating(self@, u32::MAX as nat),
    {
        self.to_limit(u32::MAX)
    }

    /// The number as a `u8`: truncated toward zero, saturating at the ends of
    /// the range, zero for not-a-number.
    pub fn to_u8(self) -> (r: u8)
        ensures
            r == saturating(self@, 255),
    {
        self.to_limit(255) as u8
    }
}

} // verus!
