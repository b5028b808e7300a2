//! The order of binary64 numbers. Not-a-number is in no relation to
//! anything; the two zeros are equal.
use crate::arith::signed;
use crate::binary64::{Double, Value, MIN_EXP, SIGN_BIT, TWO52};
use crate::powers::{lemma_mul_le, lemma_mul_lt, lemma_pow2_le, lemma_pow2_values};
use vstd::arithmetic::power2::{
    lemma_pow2_adds, lemma_pow2_pos, lemma_pow2_strictly_increases, pow2,
};
use vstd::prelude::*;

verus! {

/// The magnitude of a value counted in units of the smallest positive
/// number; an infinity counts as more than every finite magnitude.
pub open spec fn weight(v: Value) -> nat {
    match v {
        Value::Nan => 0,
        Value::Inf { .. } => pow2(2100),
        Value::Fin { mant, exp, .. } => mant * pow2((exp - MIN_EXP) as nat),
    }
}

/// An integer that orders numbers and infinities as their values do.
pub open spec fn ordinal(v: Value) -> int {
    signed(v.negative(), weight(v))
}

/// `a < b`: both are numbers or infinities, and `a` is the smaller.
#[verifier::opaque]
pub open spec fn less(a: Value, b: Value) -> bool {
    a.is_number() && b.is_number() && ordinal(a) < ordinal(b)
}

/// `a >= b`: both are numbers or infinities, and `a` is not the smaller.
#[verifier::opaque]
pub open spec fn at_least(a: Value, b: Value) -> bool {
    a.is_number() && b.is_number() && ordinal(a) >= ordinal(b)
}

/// The pattern of a value without its sign bit, read as an integer.
pub open spec fn rank(v: Value) -> nat {
    match v {
        Value::Nan => 0,
        Value::Inf { .. } => (2047 * TWO52) as nat,
        Value::Fin { mant, exp, .. } => ((exp - MIN_EXP) * TWO52 + mant) as nat,
    }
}

/// Patterns order magnitudes: the smaller pattern is the smaller magnitude.
pub proof fn lemma_rank_monotone(u: Value, v: Value)
    requires
        u.well_formed(),
        v.well_formed(),
        u.is_number(),
        v.is_number(),
        rank(u) < rank(v),
    ensures
        weight(u) < weight(v),
{
    lemma_pow2_values();
    match u {
        Value::Fin { mant: m, exp: e, .. } => {
            let k = (e - MIN_EXP) as nat;
            lemma_pow2_pos(k);
            lemma_mul_lt(m as int, pow2(53) as int, pow2(k) as int);
            lemma_pow2_adds(53, k);
            match v {
                Value::Fin { mant: m2, exp: e2, .. } => {
                    let k2 = (e2 - MIN_EXP) as nat;
                    lemma_pow2_pos(k2);
                    if e == e2 {
                        lemma_mul_lt(m as int, m2 as int, pow2(k) as int);
                    } else if e < e2 {
                        lemma_pow2_le(53 + k, 52 + k2);
                        lemma_pow2_adds(52, k2);
                        lemma_mul_le(pow2(52) as int, m2 as int, pow2(k2) as int);
                    } else {
                        assert(m >= TWO52);
                        assert(false);
                    }
                },
                _ => {
                    lemma_pow2_le(53 + k, 2098);
                    lemma_pow2_strictly_increases(2098, 2100);
                },
            }
        },
        _ => {},
    }
}

/// Equal patterns are equal magnitudes.
pub proof fn lemma_rank_equal(u: Value, v: Value)
    requires
        u.well_formed(),
        v.well_formed(),
        u.is_number(),
        v.is_number(),
        rank(u) == rank(v),
    ensures
        weight(u) == weight(v),
{
}

/// Comparing sign-and-magnitude patterns compares values.
pub proof fn lemma_key_order(u: Value, v: Value)
    requires
        u.well_formed(),
        v.well_formed(),
        u.is_number(),
        v.is_number(),
    ensures
        (signed(u.negative(), rank(u)) < signed(v.negative(), rank(v))) == (ordinal(u) < ordinal(v)),
{
    if rank(u) < rank(v) {
        lemma_rank_monotone(u, v);
    } else if rank(v) < rank(u) {
        lemma_rank_monotone(v, u);
    } else {
        lemma_rank_equal(u, v);
    }
    lemma_zero_rank(u);
    lemma_zero_rank(v);
}

/// Zero, and only zero, has the all-zero magnitude pattern.
proof fn lemma_zero_rank(u: Value)
    requires
        u.well_formed(),
        u.is_number(),
    ensures
        (rank(u) == 0) == (weight(u) == 0),
{
    match u {
        Value::Fin { mant, exp, .. } => {
            let p = pow2((exp - MIN_EXP) as nat);
            lemma_pow2_pos((exp - MIN_EXP) as nat);
            if mant == 0 {
                assert(0 * p == 0);
            } else {
                lemma_mul_le(1, mant as int, p as int);
            }
        },
        _ => {
            lemma_pow2_pos(2100);
        },
    }
}

/// Of two numbers or infinities, the first is below the second or at least
/// the second, and never both.
pub proof fn lemma_order_total(a: Value, b: Value)
    requires
        a.is_number(),
        b.is_number(),
    ensures
        less(a, b) != at_least(a, b),
{
    reveal(less);
    reveal(at_least);
}

impl Double {
    /// The pattern as a signed magnitude.
    fn key(self) -> (k: i128)
        requires
            self@.is_number(),
        ensures
            k == signed(self@.negative(), rank(self@)),
    {
        if self.bits >= SIGN_BIT {
            -((self.bits - SIGN_BIT) as i128)
        } else {
            self.bits as i128
        }
    }

    /// Whether `self < other`.
    pub fn lt(self, other: Double) -> (b: bool)
        ensures
            b == less(self@, other@),
    {
        proof {
            reveal(less);
        }
        if self.is_nan() || other.is_nan() {
            false
        } else {
            proof {
                crate::binary64::lemma_decode_well_formed(self.bits);
                crate::binary64::lemma_decode_well_formed(other.bits);
                lemma_key_order(self@, other@);
            }
            self.key() < other.key()
        }
    }

    /// Whether `self > other`.
    pub fn gt(self, other: Double) -> (b: bool)
        ensures
            b == less(other@, self@),
    {
        other.lt(self)
    }

    /// Whether `self >= other`.
    pub fn ge(self, other: Double) -> (b: bool)
        ensures
            b == at_least(self@, other@),
    {
        proof {
            reveal(at_least);
        }
        if self.is_nan() || other.is_nan() {
            false
        } else {
            proof {
                crate::binary64::lemma_decode_well_formed(self.bits);
                crate::binary64::lemma_decode_well_formed(other.bits);
                lemma_key_order(self@, other@);
            }
            !(self.key() < other.key())
        }
    }
}

} // verus!
