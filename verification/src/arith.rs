//! Addition, subtraction, multiplication and division of binary64 numbers,
//! each the exact result rounded to nearest-even.
use crate::binary64::{representable, Double, Parts, Value, MAX_EXP, MIN_EXP, TWO52, TWO53};
use crate::powers::{
    lemma_div_lt, lemma_div_mod_sum, lemma_mul_le, lemma_mul_lt, lemma_pow2_le, lemma_pow2_values,
    pow2_u128, TWO120,
};
use crate::rounding::{
    bit_len, bit_length, half_even, lemma_bit_length_unique, lemma_scaled_bounds, quantum, round,
    round_pack, scaled,
};
use vstd::arithmetic::power2::{lemma_pow2_adds, lemma_pow2_pos, lemma_pow2_unfold, pow2};
use vstd::prelude::*;

verus! {

/// The integer `m` with the sign that `neg` tells.
pub open spec fn signed(neg: bool, m: nat) -> int {
    if neg {
        -(m as int)
    } else {
        m as int
    }
}

/// The absolute value.
pub open spec fn magnitude(x: int) -> nat {
    if x < 0 {
        (-x) as nat
    } else {
        x as nat
    }
}

/// The smaller of two exponents.
pub open spec fn lower(e1: int, e2: int) -> int {
    if e1 <= e2 {
        e1
    } else {
        e2
    }
}

/// The product of two values: the exact product of two numbers, rounded;
/// zero times infinity is not a number.
pub open spec fn product(a: Value, b: Value) -> Value {
    match a {
        Value::Nan => Value::Nan,
        Value::Inf { neg: n1 } => match b {
            Value::Nan => Value::Nan,
            Value::Inf { neg: n2 } => Value::Inf { neg: n1 != n2 },
            Value::Fin { neg: n2, mant: m2, .. } => if m2 == 0 {
                Value::Nan
            } else {
                Value::Inf { neg: n1 != n2 }
            },
        },
        Value::Fin { neg: n1, mant: m1, exp: e1 } => match b {
            Value::Nan => Value::Nan,
            Value::Inf { neg: n2 } => if m1 == 0 {
                Value::Nan
            } else {
                Value::Inf { neg: n1 != n2 }
            },
            Value::Fin { neg: n2, mant: m2, exp: e2 } => round(n1 != n2, m1 * m2, e1 + e2),
        },
    }
}

/// The sum of two finite numbers: both are counted in units of the smaller
/// exponent, added exactly, and the total is rounded. An exact zero is
/// negative only when both terms are negative.
pub open spec fn finite_sum(n1: bool, m1: nat, e1: int, n2: bool, m2: nat, e2: int) -> Value {
    let e = lower(e1, e2);
    let total = signed(n1, m1 * pow2((e1 - e) as nat)) + signed(n2, m2 * pow2((e2 - e) as nat));
    if total == 0 {
        Value::zero(n1 && n2)
    } else {
        round(total < 0, magnitude(total), e)
    }
}

/// The sum of two values; infinities of opposite sign do not add up to a
/// number.
pub open spec fn sum(a: Value, b: Value) -> Value {
    match a {
        Value::Nan => Value::Nan,
        Value::Inf { neg: n1 } => match b {
            Value::Nan => Value::Nan,
            Value::Inf { neg: n2 } => if n1 == n2 {
                Value::Inf { neg: n1 }
            } else {
                Value::Nan
            },
            Value::Fin { .. } => Value::Inf { neg: n1 },
        },
        Value::Fin { neg: n1, mant: m1, exp: e1 } => match b {
            Value::Nan => Value::Nan,
            Value::Inf { neg: n2 } => Value::Inf { neg: n2 },
            Value::Fin { neg: n2, mant: m2, exp: e2 } => finite_sum(n1, m1, e1, n2, m2, e2),
        },
    }
}

/// The difference of two values: the sum of the first and the negated second.
pub open spec fn difference(a: Value, b: Value) -> Value {
    sum(a, b.negated())
}

/// Sums, products and quotients are values that some pattern decodes to.
pub proof fn lemma_results_well_formed(a: Value, b: Value)
    ensures
        sum(a, b).well_formed(),
        difference(a, b).well_formed(),
        product(a, b).well_formed(),
        quotient(a, b).well_formed(),
{
    match (a, b) {
        (Value::Fin { neg: n1, mant: m1, exp: e1 }, Value::Fin { neg: n2, mant: m2, exp: e2 }) => {
            crate::rounding::lemma_round_well_formed(n1 != n2, m1 * m2, e1 + e2);
            lemma_finite_sum_well_formed(n1, m1, e1, n2, m2, e2);
            lemma_finite_sum_well_formed(n1, m1, e1, !n2, m2, e2);
            let z1 = normal_shift(m1);
            let z2 = normal_shift(m2);
            let n = m1 * pow2(z1) * pow2(64);
            let d = m2 * pow2(z2);
            let sticky: nat = if n % d == 0 {
                0
            } else {
                1
            };
            crate::rounding::lemma_round_well_formed(
                n1 != n2,
                2 * (n / d) + sticky,
                (e1 - z1) - (e2 - z2) - 65,
            );
        },
        _ => {},
    }
}

/// The sum of two finite numbers is a value that some pattern decodes to.
proof fn lemma_finite_sum_well_formed(n1: bool, m1: nat, e1: int, n2: bool, m2: nat, e2: int)
    ensures
        finite_sum(n1, m1, e1, n2, m2, e2).well_formed(),
{
    let e = lower(e1, e2);
    let total = signed(n1, m1 * pow2((e1 - e) as nat)) + signed(n2, m2 * pow2((e2 - e) as nat));
    crate::rounding::lemma_round_well_formed(total < 0, magnitude(total), e);
}

/// The order of the factors does not matter.
pub proof fn lemma_product_commutes(a: Value, b: Value)
    ensures
        product(a, b) == product(b, a),
{
    match (a, b) {
        (Value::Fin { mant: m1, .. }, Value::Fin { mant: m2, .. }) => {
            assert(m1 * m2 == m2 * m1) by (nonlinear_arith);
        },
        _ => {},
    }
}

/// The order of the terms does not matter.
pub proof fn lemma_sum_commutes(a: Value, b: Value)
    ensures
        sum(a, b) == sum(b, a),
{
}

/// A term more than 64 binades under a normal number cannot move it: the
/// exact total differs from the number by far less than half a unit in its
/// last place. Same signs.
proof fn lemma_far_same(neg: bool, m1: nat, m2: nat, d: nat, e2: int)
    requires
        TWO52 <= m1 < TWO53,
        m2 < TWO53,
        d >= 56,
        MIN_EXP <= e2 + d <= MAX_EXP,
    ensures
        round(neg, m1 * pow2(d) + m2, e2) == (Value::Fin { neg, mant: m1, exp: e2 + d }),
{
    reveal(round);
    lemma_pow2_values();
    let p = pow2(d);
    lemma_pow2_adds(53, 3);
    vstd::arithmetic::power2::lemma2_to64();
    lemma_pow2_le(56, d);
    let big = m1 * p + m2;
    lemma_pow2_adds(52, d);
    lemma_pow2_adds(53, d);
    lemma_mul_le(pow2(52) as int, m1 as int, p as int);
    lemma_mul_le((m1 + 1) as int, pow2(53) as int, p as int);
    assert((m1 + 1) * p == m1 * p + p) by (nonlinear_arith);
    lemma_bit_length_unique(big, 52 + d);
    assert(quantum(big, e2) == e2 + d);
    lemma_div_mod_sum(m1 as int, p as int, m2 as int);
    assert(half_even(big, d) == m1);
}

/// The same for opposite signs, where the number is not a power of two.
proof fn lemma_far_opposite(neg: bool, m1: nat, m2: nat, d: nat, e2: int)
    requires
        TWO52 < m1 < TWO53,
        0 < m2 < TWO53,
        d >= 56,
        MIN_EXP <= e2 + d <= MAX_EXP,
    ensures
        m1 * pow2(d) > m2,
        round(neg, (m1 * pow2(d) - m2) as nat, e2) == (Value::Fin { neg, mant: m1, exp: e2 + d }),
{
    reveal(round);
    lemma_pow2_values();
    let p = pow2(d);
    lemma_pow2_adds(53, 3);
    vstd::arithmetic::power2::lemma2_to64();
    lemma_pow2_le(56, d);
    lemma_pow2_adds(52, d);
    lemma_pow2_adds(53, d);
    lemma_mul_le(pow2(52) as int, m1 - 1, p as int);
    lemma_mul_le(m1 as int, pow2(53) as int, p as int);
    assert((m1 - 1) * p == m1 * p - p) by (nonlinear_arith);
    let big = (m1 * p - m2) as nat;
    assert(big == (m1 - 1) * p + (p - m2));
    lemma_bit_length_unique(big, 52 + d);
    assert(quantum(big, e2) == e2 + d);
    lemma_div_mod_sum(m1 - 1, p as int, p - m2);
    assert(half_even(big, d) == m1);
}

/// The same for opposite signs, where the number is a power of two and the
/// total falls into the binade below it.
proof fn lemma_far_opposite_edge(neg: bool, m2: nat, d: nat, e2: int)
    requires
        0 < m2 < TWO53,
        d >= 56,
        MIN_EXP <= e2 + d - 1,
        e2 + d <= MAX_EXP,
    ensures
        TWO52 * pow2(d) > m2,
        round(neg, (TWO52 * pow2(d) - m2) as nat, e2) == (Value::Fin {
            neg,
            mant: TWO52 as nat,
            exp: e2 + d,
        }),
{
    reveal(round);
    lemma_pow2_values();
    let p = pow2(d);
    let h = pow2((d - 1) as nat);
    lemma_pow2_unfold(d);
    lemma_pow2_adds(53, 2);
    vstd::arithmetic::power2::lemma2_to64();
    lemma_pow2_le(55, (d - 1) as nat);
    lemma_pow2_adds(52, (d - 1) as nat);
    lemma_pow2_adds(53, (d - 1) as nat);
    let top: int = TWO53 - 1;
    assert(TWO52 * p == TWO53 * h) by (nonlinear_arith)
        requires
            p == 2 * h,
    ;
    assert(top * h == TWO53 * h - h) by (nonlinear_arith)
        requires
            top == TWO53 - 1,
    ;
    lemma_mul_le(pow2(52) as int, top, h as int);
    let big = (TWO52 * p - m2) as nat;
    assert(big == top * h + (h - m2));
    lemma_bit_length_unique(big, (51 + d) as nat);
    assert(quantum(big, e2) == e2 + d - 1);
    lemma_div_mod_sum(top, h as int, h - m2);
    assert(half_even(big, (d - 1) as nat) == TWO53);
}

/// Adding a number that lies more than 64 binades under a normal number
/// leaves the normal number as it is.
pub proof fn lemma_sum_far(n1: bool, m1: nat, e1: int, n2: bool, m2: nat, e2: int)
    requires
        representable(m1, e1),
        representable(m2, e2),
        e1 - e2 > 64,
    ensures
        finite_sum(n1, m1, e1, n2, m2, e2) == (Value::Fin { neg: n1, mant: m1, exp: e1 }),
{
    lemma_pow2_values();
    let d = (e1 - e2) as nat;
    let p = pow2(d);
    lemma_pow2_pos(d);
    lemma_pow2_adds(53, 3);
    vstd::arithmetic::power2::lemma2_to64();
    lemma_pow2_le(56, d);
    lemma_mul_le(TWO52 as int, m1 as int, p as int);
    assert(TWO52 * p >= TWO53) by (nonlinear_arith)
        requires
            p >= 2,
    ;
    assert(m2 * pow2(0) == m2);
    if n1 == n2 || m2 == 0 {
        lemma_far_same(n1, m1, 0, d, e2);
        lemma_far_same(n1, m1, m2, d, e2);
    } else if m1 > TWO52 {
        lemma_far_opposite(n1, m1, m2, d, e2);
    } else {
        lemma_far_opposite_edge(n1, m2, d, e2);
    }
}

/// Adds two finite numbers of which the first has the larger exponent.
fn add_ordered(n1: bool, m1: u64, e1: i64, n2: bool, m2: u64, e2: i64) -> (r: Double)
    requires
        representable(m1 as nat, e1 as int),
        representable(m2 as nat, e2 as int),
        e1 >= e2,
    ensures
        r@ == finite_sum(n1, m1 as nat, e1 as int, n2, m2 as nat, e2 as int),
        r == Double::of(r@),
{
    let d: i64 = e1 - e2;
    if d > 64 {
        proof {
            lemma_sum_far(n1, m1 as nat, e1 as int, n2, m2 as nat, e2 as int);
        }
        return Double::pack(n1, m1, e1);
    }
    let p = pow2_u128(d as u32);
    proof {
        lemma_pow2_values();
        lemma_pow2_le(d as nat, 64);
        lemma_mul_le(m1 as int, TWO53 as int, p as int);
        lemma_mul_le(p as int, 0x1_0000_0000_0000_0000, TWO53 as int);
        assert(m2 * pow2(0) == m2);
    }
    let big: u128 = (m1 as u128) * p;
    let small: u128 = m2 as u128;
    if n1 == n2 {
        if big + small == 0 {
            Double::zero(n1 && n2)
        } else {
            round_pack(n1, big + small, e2)
        }
    } else if big == small {
        Double::zero(false)
    } else if big > small {
        round_pack(n1, big - small, e2)
    } else {
        round_pack(n2, small - big, e2)
    }
}

/// How far a positive significand is shifted left to bring its leading one
/// to bit 52.
pub open spec fn normal_shift(m: nat) -> nat {
    (53 - bit_length(m)) as nat
}

/// The quotient of two non-zero finite magnitudes. Both significands are
/// brought to 53 digits, the dividend is extended by 64 digits and divided;
/// the quotient then has at least 64 digits, and one more digit below it
/// tells whether anything was left over. That digit can only decide a case
/// that would otherwise look like a tie, so rounding this number gives the
/// nearest value to the true quotient.
pub open spec fn finite_quotient(neg: bool, m1: nat, e1: int, m2: nat, e2: int) -> Value {
    let z1 = normal_shift(m1);
    let z2 = normal_shift(m2);
    let n = m1 * pow2(z1) * pow2(64);
    let d = m2 * pow2(z2);
    let q = n / d;
    let sticky: nat = if n % d == 0 {
        0
    } else {
        1
    };
    round(neg, 2 * q + sticky, (e1 - z1) - (e2 - z2) - 65)
}

/// The quotient of two values: zero over zero and infinity over infinity are
/// not numbers; a non-zero number over zero is an infinity.
pub open spec fn quotient(a: Value, b: Value) -> Value {
    match a {
        Value::Nan => Value::Nan,
        Value::Inf { neg: n1 } => match b {
            Value::Nan => Value::Nan,
            Value::Inf { .. } => Value::Nan,
            Value::Fin { neg: n2, .. } => Value::Inf { neg: n1 != n2 },
        },
        Value::Fin { neg: n1, mant: m1, exp: e1 } => match b {
            Value::Nan => Value::Nan,
            Value::Inf { neg: n2 } => Value::zero(n1 != n2),
            Value::Fin { neg: n2, mant: m2, exp: e2 } => if m2 == 0 {
                if m1 == 0 {
                    Value::Nan
                } else {
                    Value::Inf { neg: n1 != n2 }
                }
            } else if m1 == 0 {
                Value::zero(n1 != n2)
            } else {
                finite_quotient(n1 != n2, m1, e1, m2, e2)
            },
        },
    }
}

/// A positive significand shifted by its normal shift has its leading one
/// at bit 52.
pub proof fn lemma_normal_shift(m: nat)
    requires
        0 < m < TWO53,
    ensures
        bit_length(m) <= 53,
        normal_shift(m) <= 52,
        TWO52 <= m * pow2(normal_shift(m)) < TWO53,
{
    lemma_pow2_values();
    crate::rounding::lemma_bit_length_bounds(m);
    let len = bit_length(m);
    crate::powers::lemma_pow2_lt_exponent((len - 1) as nat, 53);
    lemma_scaled_bounds(m, 0);
    assert(quantum(m, 0) == len - 53);
    assert(scaled(m, 0, len - 53) == m * pow2((53 - len) as nat));
}

/// Dividing both sides of an inequality by a positive factor.
proof fn lemma_cancel(a: int, b: int, c: int)
    by (nonlinear_arith)
    requires
        0 < c,
        a * c <= b * c,
    ensures
        a <= b,
{
}

/// The quotient of two non-zero finite numbers is a number of the right
/// sign that lies within half a unit of its last place of the exact
/// quotient `(m1 / m2) * 2^(e1 - e2)`.
pub proof fn lemma_quotient_nearest(neg: bool, m1: nat, e1: int, m2: nat, e2: int)
    requires
        representable(m1, e1),
        representable(m2, e2),
        m1 > 0,
        m2 > 0,
    ensures
        finite_quotient(neg, m1, e1, m2, e2).well_formed(),
        finite_quotient(neg, m1, e1, m2, e2).is_number(),
        finite_quotient(neg, m1, e1, m2, e2).negative() == neg,
        finite_quotient(neg, m1, e1, m2, e2) matches Value::Fin { mant, exp, .. }
            ==> crate::rounding::within_half_unit(mant, exp, m1, m2, e1 - e2),
{
    lemma_pow2_values();
    let z1 = normal_shift(m1);
    let z2 = normal_shift(m2);
    let zp1 = pow2(z1);
    let zp2 = pow2(z2);
    lemma_normal_shift(m1);
    lemma_normal_shift(m2);
    lemma_pow2_pos(z2);
    let n1 = m1 * zp1;
    let d = m2 * zp2;
    let wide = pow2(64);
    let n = n1 * wide;
    let q = n / d;
    let r = n % d;
    let sticky: nat = if r == 0 {
        0
    } else {
        1
    };
    let w = 2 * q + sticky;
    let eq = (e1 - z1) - (e2 - z2) - 65;
    let res = round(neg, w, eq);
    assert(finite_quotient(neg, m1, e1, m2, e2) == res);
    crate::rounding::lemma_round_nearest(neg, w, eq);
    lemma_mul_le(TWO52 as int, n1 as int, wide as int);
    assert(0x8000_0000_0000_0000 * d <= n) by (nonlinear_arith)
        requires
            d < TWO53,
            n >= TWO52 * wide,
            wide == 0x1_0000_0000_0000_0000,
    ;
    crate::powers::lemma_div_ge(n as int, d as int, 0x8000_0000_0000_0000);
    vstd::arithmetic::div_mod::lemma_fundamental_div_mod(n as int, d as int);
    assert(n == q * d + r) by (nonlinear_arith)
        requires
            n == d * q + r,
    ;
    match res {
        Value::Fin { mant, exp, .. } => {
            reveal(round);
            lemma_scaled_bounds(w, eq);
            crate::rounding::lemma_bit_length_bounds(w);
            crate::powers::lemma_pow2_lt_exponent(64, bit_length(w));
            assert(exp >= eq + 12);
            let k = (exp - eq) as nat;
            let p = pow2(k);
            let quarter = pow2((k - 2) as nat);
            lemma_pow2_adds(2, (k - 2) as nat);
            vstd::arithmetic::power2::lemma2_to64();
            assert(p == 4 * quarter);
            let t = mant * quarter;
            assert(mant * (p * 1) == 4 * t) by (nonlinear_arith)
                requires
                    p == 4 * quarter,
                    t == mant * quarter,
            ;
            assert(w * pow2(0) == w) by (nonlinear_arith)
                requires
                    pow2(0) == 1,
            ;
            let dd: int = 4 * t - w;
            assert(2 * dd <= p && -2 * dd <= p);
            let g: int = 4 * t * d - 2 * n;
            if r == 0 {
                assert(g == dd * d) by (nonlinear_arith)
                    requires
                        g == 4 * t * d - 2 * n,
                        n == q * d,
                        dd == 4 * t - 2 * q,
                ;
                assert(2 * g <= p * d && -2 * g <= p * d) by (nonlinear_arith)
                    requires
                        g == dd * d,
                        2 * dd <= p,
                        -2 * dd <= p,
                        d > 0,
                ;
            } else {
                assert(2 * dd <= p - 2 && -2 * dd <= p - 2);
                assert(g == dd * d + (d - 2 * r)) by (nonlinear_arith)
                    requires
                        g == 4 * t * d - 2 * n,
                        n == q * d + r,
                        dd == 4 * t - (2 * q + 1),
                ;
                assert(2 * g <= p * d && -2 * g <= p * d) by (nonlinear_arith)
                    requires
                        g == dd * d + (d - 2 * r),
                        2 * dd <= p - 2,
                        -2 * dd <= p - 2,
                        0 < r < d,
                ;
            }
            let e = e1 - e2;
            let lo = if exp <= e {
                exp
            } else {
                e
            };
            let c = (lo - eq) as nat;
            let a_up = (exp - lo) as nat;
            let b_up = (e - lo) as nat;
            let unit_scale = pow2(c) * zp2;
            lemma_pow2_pos(c);
            assert(unit_scale > 0) by (nonlinear_arith)
                requires
                    unit_scale == pow2(c) * zp2,
                    pow2(c) > 0,
                    zp2 > 0,
            ;
            let u = pow2(a_up) * m2;
            let got = mant * u;
            let exact = m1 * pow2(b_up);
            lemma_pow2_adds(a_up, c);
            lemma_pow2_adds(b_up, c);
            lemma_pow2_adds(b_up + c, z2);
            lemma_pow2_adds(z1, 65);
            lemma_pow2_adds(64, 1);
            assert(b_up + c + z2 == z1 + 65);
            assert(p * d == u * unit_scale) by (nonlinear_arith)
                requires
                    p == pow2(a_up) * pow2(c),
                    d == m2 * zp2,
                    u == pow2(a_up) * m2,
                    unit_scale == pow2(c) * zp2,
            ;
            assert(4 * t * d == got * unit_scale) by (nonlinear_arith)
                requires
                    4 * t == mant * (p * 1),
                    p * d == u * unit_scale,
                    got == mant * u,
            ;
            assert(2 * n == exact * unit_scale) by (nonlinear_arith)
                requires
                    n == m1 * zp1 * wide,
                    pow2(z1 + 65) == zp1 * pow2(65),
                    pow2(65) == wide * 2,
                    pow2(b_up + c + z2) == pow2(b_up + c) * zp2,
                    pow2(b_up + c) == pow2(b_up) * pow2(c),
                    pow2(b_up + c + z2) == pow2(z1 + 65),
                    exact == m1 * pow2(b_up),
                    unit_scale == pow2(c) * zp2,
            ;
            assert((2 * (got - exact)) * unit_scale <= u * unit_scale) by (nonlinear_arith)
                requires
                    2 * g <= p * d,
                    g == 4 * t * d - 2 * n,
                    4 * t * d == got * unit_scale,
                    2 * n == exact * unit_scale,
                    p * d == u * unit_scale,
            ;
            assert((2 * (exact - got)) * unit_scale <= u * unit_scale) by (nonlinear_arith)
                requires
                    -2 * g <= p * d,
                    g == 4 * t * d - 2 * n,
                    4 * t * d == got * unit_scale,
                    2 * n == exact * unit_scale,
                    p * d == u * unit_scale,
            ;
            lemma_cancel(2 * (got - exact), u as int, unit_scale as int);
            lemma_cancel(2 * (exact - got), u as int, unit_scale as int);
        },
        _ => {},
    }
}

/// Shifts a positive significand left until its leading one is bit 52.
fn normalize(m: u64) -> (r: (u64, u32))
    requires
        0 < m < TWO53,
    ensures
        r.1 == normal_shift(m as nat),
        r.1 <= 52,
        r.0 == m * pow2(r.1 as nat),
        TWO52 <= r.0 < TWO53,
{
    let len = bit_len(m as u128);
    proof {
        lemma_normal_shift(m as nat);
    }
    let z: u32 = 53 - len;
    let p = pow2_u128(z);
    let n: u128 = (m as u128) * p;
    (n as u64, z)
}

/// Divides two non-zero finite magnitudes.
fn divide_finite(neg: bool, m1: u64, e1: i64, m2: u64, e2: i64) -> (r: Double)
    requires
        representable(m1 as nat, e1 as int),
        representable(m2 as nat, e2 as int),
        m1 > 0,
        m2 > 0,
    ensures
        r@ == finite_quotient(neg, m1 as nat, e1 as int, m2 as nat, e2 as int),
        r == Double::of(r@),
{
    let (n1, z1) = normalize(m1);
    let (n2, z2) = normalize(m2);
    let wide = pow2_u128(64);
    proof {
        lemma_pow2_values();
        lemma_mul_lt(n1 as int, TWO53 as int, wide as int);
    }
    let n: u128 = (n1 as u128) * wide;
    let d: u128 = n2 as u128;
    let q: u128 = n / d;
    let rem: u128 = n % d;
    proof {
        assert(n < (n + 1) * d) by (nonlinear_arith)
            requires
                d >= 1,
                n >= 0,
        ;
        lemma_div_lt(n as int, d as int, n + 1);
    }
    let sticky: u128 = if rem == 0 { 0 } else { 1 };
    round_pack(neg, 2 * q + sticky, (e1 - z1 as i64) - (e2 - z2 as i64) - 65)
}

impl Double {
    /// The product, rounded to nearest-even.
    pub fn times(self, other: Double) -> (r: Double)
        ensures
            r@ == product(self@, other@),
            r == Double::of(product(self@, other@)),
    {
        match self.unpack() {
            Parts::Nan => Double::nan(),
            Parts::Inf { neg: n1 } => match other.unpack() {
                Parts::Nan => Double::nan(),
                Parts::Inf { neg: n2 } => Double::infinity(n1 != n2),
                Parts::Fin { neg: n2, mant: m2, .. } => if m2 == 0 {
                    Double::nan()
                } else {
                    Double::infinity(n1 != n2)
                },
            },
            Parts::Fin { neg: n1, mant: m1, exp: e1 } => match other.unpack() {
                Parts::Nan => Double::nan(),
                Parts::Inf { neg: n2 } => if m1 == 0 {
                    Double::nan()
                } else {
                    Double::infinity(n1 != n2)
                },
                Parts::Fin { neg: n2, mant: m2, exp: e2 } => {
                    assert(m1 * m2 < TWO120) by (nonlinear_arith)
                        requires
                            m1 < TWO53,
                            m2 < TWO53,
                    ;
                    round_pack(n1 != n2, (m1 as u128) * (m2 as u128), e1 + e2)
                },
            },
        }
    }

    /// The sum, rounded to nearest-even.
    pub fn plus(self, other: Double) -> (r: Double)
        ensures
            r@ == sum(self@, other@),
            r == Double::of(sum(self@, other@)),
    {
        match self.unpack() {
            Parts::Nan => Double::nan(),
            Parts::Inf { neg: n1 } => match other.unpack() {
                Parts::Nan => Double::nan(),
                Parts::Inf { neg: n2 } => if n1 == n2 {
                    Double::infinity(n1)
                } else {
                    Double::nan()
                },
                Parts::Fin { .. } => Double::infinity(n1),
            },
            Parts::Fin { neg: n1, mant: m1, exp: e1 } => match other.unpack() {
                Parts::Nan => Double::nan(),
                Parts::Inf { neg: n2 } => Double::infinity(n2),
                Parts::Fin { neg: n2, mant: m2, exp: e2 } => {
                    if e1 >= e2 {
                        add_ordered(n1, m1, e1, n2, m2, e2)
                    } else {
                        add_ordered(n2, m2, e2, n1, m1, e1)
                    }
                },
            },
        }
    }

    /// The difference, rounded to nearest-even.
    pub fn minus(self, other: Double) -> (r: Double)
        ensures
            r@ == difference(self@, other@),
            r == Double::of(difference(self@, other@)),
    {
        self.plus(other.neg())
    }

    /// The quotient, rounded to nearest-even.
    pub fn over(self, other: Double) -> (r: Double)
        ensures
            r@ == quotient(self@, other@),
            r == Double::of(quotient(self@, other@)),
    {
        match self.unpack() {
            Parts::Nan => Double::nan(),
            Parts::Inf { neg: n1 } => match other.unpack() {
                Parts::Nan => Double::nan(),
                Parts::Inf { .. } => Double::nan(),
                Parts::Fin { neg: n2, .. } => Double::infinity(n1 != n2),
            },
            Parts::Fin { neg: n1, mant: m1, exp: e1 } => match other.unpack() {
                Parts::Nan => Double::nan(),
                Parts::Inf { neg: n2 } => Double::zero(n1 != n2),
                Parts::Fin { neg: n2, mant: m2, exp: e2 } => {
                    if m2 == 0 {
                        if m1 == 0 {
                            Double::nan()
                        } else {
                            Double::infinity(n1 != n2)
                        }
                    } else if m1 == 0 {
                        Double::zero(n1 != n2)
                    } else {
                        divide_finite(n1 != n2, m1, e1, m2, e2)
                    }
                },
            },
        }
    }
}

} // verus!
