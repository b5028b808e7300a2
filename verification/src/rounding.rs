//! Rounding an exact magnitude to the nearest binary64 number, ties to even.
use crate::binary64::{representable, Double, Value, MAX_EXP, MIN_EXP, TWO52, TWO53};
use crate::powers::{
    lemma_div_ge, lemma_div_lt, lemma_div_mod_sum, lemma_mul_le, lemma_mul_lt, lemma_pow2_le,
    lemma_pow2_lt_exponent, lemma_pow2_values, pow2_u128, TWO120,
};
use vstd::arithmetic::power2::{lemma_pow2_adds, lemma_pow2_pos, lemma_pow2_unfold, pow2};
use vstd::prelude::*;

verus! {

/// The number of binary digits of `m`: zero for zero, else one more than the
/// position of the leading one.
pub open spec fn bit_length(m: nat) -> nat
    decreases m,
{
    if m == 0 {
        0
    } else {
        1 + bit_length(m / 2)
    }
}

/// `m / 2^s` rounded to the nearest integer, a tie going to the even one.
pub open spec fn half_even(m: nat, s: nat) -> nat {
    let p = pow2(s);
    let q = m / p;
    let r = m % p;
    if 2 * r > p || (2 * r == p && q % 2 == 1) {
        q + 1
    } else {
        q
    }
}

/// The exponent of the last place that binary64 keeps of the magnitude
/// `m * 2^e`: 53 digits below the leading one, but never under the least
/// exponent of the format.
pub open spec fn quantum(m: nat, e: int) -> int {
    let top = e + bit_length(m) - 53;
    if top < MIN_EXP {
        MIN_EXP as int
    } else {
        top
    }
}

/// The magnitude `m * 2^e` counted in units of `2^q`, rounded to nearest-even
/// where the unit is coarser than `2^e`.
pub open spec fn scaled(m: nat, e: int, q: int) -> nat {
    if q <= e {
        m * pow2((e - q) as nat)
    } else {
        half_even(m, (q - e) as nat)
    }
}

/// The value with significand `sig` at exponent `q`, where `sig` may have
/// been carried up to `2^53` by rounding: the carry moves to the next
/// exponent, and what lies past the largest finite number is an infinity.
pub open spec fn settle(neg: bool, sig: nat, q: int) -> Value {
    if sig == TWO53 {
        if q + 1 > MAX_EXP {
            Value::Inf { neg }
        } else {
            Value::Fin { neg, mant: TWO52 as nat, exp: q + 1 }
        }
    } else if sig >= TWO52 && q > MAX_EXP {
        Value::Inf { neg }
    } else {
        Value::Fin { neg, mant: sig, exp: q }
    }
}

/// The binary64 value nearest to `(-1)^neg * m * 2^e`, ties to even.
#[verifier::opaque]
pub open spec fn round(neg: bool, m: nat, e: int) -> Value {
    if m == 0 {
        Value::zero(neg)
    } else {
        let q = quantum(m, e);
        settle(neg, scaled(m, e, q), q)
    }
}

/// A positive number lies between the two powers of two that its digit count
/// names.
pub proof fn lemma_bit_length_bounds(m: nat)
    requires
        m > 0,
    ensures
        bit_length(m) >= 1,
        pow2((bit_length(m) - 1) as nat) <= m < pow2(bit_length(m)),
    decreases m,
{
    let h = m / 2;
    lemma_pow2_values();
    if h == 0 {
        assert(bit_length(h) == 0);
        assert(bit_length(m) == 1);
    } else {
        lemma_bit_length_bounds(h);
        let lh = bit_length(h);
        assert(bit_length(m) == lh + 1);
        lemma_pow2_unfold(lh);
        lemma_pow2_unfold((lh + 1) as nat);
    }
}

/// The digit count of a number between `2^k` and `2^(k+1)` is `k + 1`.
pub proof fn lemma_bit_length_unique(m: nat, k: nat)
    requires
        pow2(k) <= m < pow2(k + 1),
    ensures
        bit_length(m) == k + 1,
{
    lemma_pow2_pos(k);
    lemma_bit_length_bounds(m);
    let l = bit_length(m);
    // pow2(l - 1) <= m < pow2(k + 1) and pow2(k) <= m < pow2(l)
    lemma_pow2_lt_exponent((l - 1) as nat, k + 1);
    lemma_pow2_lt_exponent(k, l);
}

/// The significand that rounding produces fits the format: it is at most
/// `2^53`, reaches `2^52` wherever the exponent lies above the least one, and
/// is exact and below `2^53` where no digit had to be dropped.
pub proof fn lemma_scaled_bounds(m: nat, e: int)
    requires
        m > 0,
    ensures
        ({
            let q = quantum(m, e);
            let sig = scaled(m, e, q);
            &&& q >= MIN_EXP
            &&& sig <= TWO53
            &&& q > MIN_EXP ==> sig >= TWO52
            &&& q <= e ==> sig < TWO53
            &&& q <= e ==> e - q <= 52
        }),
{
    lemma_pow2_values();
    lemma_bit_length_bounds(m);
    let l = bit_length(m);
    let top = e + l - 53;
    let q = quantum(m, e);
    let sig = scaled(m, e, q);
    let lo = pow2((l - 1) as nat);
    let hi = pow2(l);
    if q <= e {
        let k = (e - q) as nat;
        let p = pow2(k);
        lemma_pow2_pos(k);
        assert(sig == m * p);
        if top >= MIN_EXP {
            assert(k == 53 - l);
            lemma_pow2_adds((l - 1) as nat, k);
            lemma_pow2_adds(l, k);
            lemma_mul_le(lo as int, m as int, p as int);
            lemma_mul_lt(m as int, hi as int, p as int);
        } else {
            assert(k + l <= 52);
            lemma_pow2_adds(l, k);
            lemma_pow2_le(l + k, 52);
            lemma_mul_lt(m as int, hi as int, p as int);
        }
    } else {
        let s = (q - e) as nat;
        let p = pow2(s);
        lemma_pow2_pos(s);
        assert(sig <= m / p + 1);
        assert(sig >= m / p);
        if top >= MIN_EXP {
            assert(s == l - 53);
            lemma_pow2_adds(52, s);
            lemma_pow2_adds(53, s);
            assert(pow2(52) * p == lo);
            assert(pow2(53) * p == hi);
            lemma_div_ge(m as int, p as int, pow2(52) as int);
            lemma_div_lt(m as int, p as int, pow2(53) as int);
        } else {
            assert(l <= s + 52);
            lemma_pow2_le(l, s + 52);
            lemma_pow2_adds(52, s);
            lemma_div_lt(m as int, p as int, pow2(52) as int);
        }
    }
}

/// Rounding always lands on a value that some pattern decodes to.
pub proof fn lemma_round_well_formed(neg: bool, m: nat, e: int)
    ensures
        round(neg, m, e).well_formed(),
{
    reveal(round);
    if m > 0 {
        lemma_scaled_bounds(m, e);
    }
}

/// Whether the number `mant * 2^exp` lies within half a unit of its last
/// place of the exact ratio `(num / den) * 2^e`. Both are counted in units
/// of the smaller power of two and multiplied by `den`, so that integers
/// say it.
pub open spec fn within_half_unit(mant: nat, exp: int, num: nat, den: nat, e: int) -> bool {
    let lo = if exp <= e {
        exp
    } else {
        e
    };
    let unit = pow2((exp - lo) as nat) * den;
    let got = mant * unit;
    let exact = num * pow2((e - lo) as nat);
    2 * (got - exact) <= unit && 2 * (exact - got) <= unit
}

/// Rounding to nearest-even is what its name says: the result times `2^s`
/// is within half of `2^s` of `m`, and where `m` lies exactly halfway the
/// result is even.
pub proof fn lemma_half_even_nearest(m: nat, s: nat)
    ensures
        2 * (half_even(m, s) * pow2(s)) <= 2 * m + pow2(s),
        2 * m <= 2 * (half_even(m, s) * pow2(s)) + pow2(s),
        (2 * (half_even(m, s) * pow2(s)) == 2 * m + pow2(s) || 2 * m == 2 * (half_even(m, s)
            * pow2(s)) + pow2(s)) ==> half_even(m, s) % 2 == 0,
{
    let p = pow2(s);
    lemma_pow2_pos(s);
    let q = m / p;
    let r = m % p;
    vstd::arithmetic::div_mod::lemma_fundamental_div_mod(m as int, p as int);
    assert(m == q * p + r) by (nonlinear_arith)
        requires
            m == p * q + r,
    ;
    assert((q + 1) * p == q * p + p) by (nonlinear_arith);
}

/// The rounded value keeps the sign and lies within half a unit of its last
/// place of the exact magnitude; rounding gives no not-a-number.
pub proof fn lemma_round_nearest(neg: bool, m: nat, e: int)
    ensures
        round(neg, m, e).well_formed(),
        round(neg, m, e).is_number(),
        round(neg, m, e).negative() == neg,
        round(neg, m, e) matches Value::Fin { mant, exp, .. } ==> within_half_unit(
            mant,
            exp,
            m,
            1,
            e,
        ),
{
    reveal(round);
    lemma_pow2_values();
    if m == 0 {
        assert(0 * (pow2(0) * 1) == 0);
        assert(0 * pow2((e - MIN_EXP) as nat) == 0);
        assert(0 * (pow2((MIN_EXP - e) as nat) * 1) == 0);
    } else {
        lemma_scaled_bounds(m, e);
        let q = quantum(m, e);
        let sig = scaled(m, e, q);
        if q <= e {
            assert(sig * (pow2(0) * 1) == m * pow2((e - q) as nat)) by (nonlinear_arith)
                requires
                    sig == m * pow2((e - q) as nat),
                    pow2(0) == 1,
            ;
        } else {
            let s = (q - e) as nat;
            let p = pow2(s);
            lemma_pow2_pos(s);
            lemma_half_even_nearest(m, s);
            assert(m * pow2(0) == m) by (nonlinear_arith)
                requires
                    pow2(0) == 1,
            ;
            assert(sig * (p * 1) == sig * p) by (nonlinear_arith);
            if sig == TWO53 {
                lemma_pow2_unfold(s + 1);
                let doubled = pow2(s + 1);
                assert(TWO52 * (doubled * 1) == sig * p) by (nonlinear_arith)
                    requires
                        doubled == 2 * p,
                        sig == 2 * TWO52,
                ;
            }
        }
    }
}

/// Shifting a positive number up by `k` places adds `k` digits.
pub proof fn lemma_bit_length_shift(m: nat, k: nat)
    requires
        m > 0,
    ensures
        bit_length(m * pow2(k)) == bit_length(m) + k,
{
    lemma_bit_length_bounds(m);
    let l = bit_length(m);
    let p = pow2(k);
    lemma_pow2_pos(k);
    lemma_pow2_adds((l - 1) as nat, k);
    lemma_pow2_adds(l, k);
    lemma_mul_le(pow2((l - 1) as nat) as int, m as int, p as int);
    lemma_mul_lt(m as int, pow2(l) as int, p as int);
    lemma_bit_length_unique(m * p, (l - 1 + k) as nat);
}

/// Rounding looks at the value only: the same magnitude written with `k`
/// more digits and an exponent `k` lower rounds to the same value.
pub proof fn lemma_round_scale(neg: bool, m: nat, e: int, k: nat)
    ensures
        round(neg, m * pow2(k), e - k) == round(neg, m, e),
{
    reveal(round);
    let pk = pow2(k);
    lemma_pow2_pos(k);
    let big = m * pk;
    if m == 0 {
        assert(0 * pk == 0);
    } else {
        lemma_mul_le(1, m as int, pk as int);
        lemma_bit_length_shift(m, k);
        let q = quantum(m, e);
        assert(quantum(big, e - k) == q);
        if q <= e - k {
            let up = (e - k - q) as nat;
            lemma_pow2_adds(k, up);
            assert(big * pow2(up) == m * pow2((e - q) as nat)) by (nonlinear_arith)
                requires
                    big == m * pk,
                    pow2((e - q) as nat) == pk * pow2(up),
            ;
        } else if q <= e {
            let down = (q - e + k) as nat;
            let up = (e - q) as nat;
            let pd = pow2(down);
            lemma_pow2_pos(down);
            lemma_pow2_adds(up, down);
            assert(big == (m * pow2(up)) * pd + 0) by (nonlinear_arith)
                requires
                    big == m * pk,
                    pk == pow2(up) * pd,
            ;
            lemma_div_mod_sum((m * pow2(up)) as int, pd as int, 0);
            assert(half_even(big, down) == m * pow2(up));
        } else {
            let s = (q - e) as nat;
            let p = pow2(s);
            let wide = pow2(s + k);
            lemma_pow2_pos(s);
            lemma_pow2_adds(s, k);
            let a = m / p;
            let r = m % p;
            vstd::arithmetic::div_mod::lemma_fundamental_div_mod(m as int, p as int);
            let rk = r * pk;
            assert(big == a * wide + rk) by (nonlinear_arith)
                requires
                    big == m * pk,
                    m == p * a + r,
                    wide == p * pk,
                    rk == r * pk,
            ;
            assert(0 <= rk < wide) by (nonlinear_arith)
                requires
                    rk == r * pk,
                    0 <= r < p,
                    wide == p * pk,
                    pk > 0,
            ;
            lemma_div_mod_sum(a as int, wide as int, rk as int);
            assert(big / wide == a && big % wide == rk);
            assert((2 * rk > wide) == (2 * r > p) && (2 * rk == wide) == (2 * r == p))
                by (nonlinear_arith)
                requires
                    rk == r * pk,
                    wide == p * pk,
                    pk > 0,
            ;
            assert(half_even(big, s + k) == half_even(m, s));
        }
    }
}

/// A number that binary64 can hold rounds to itself.
pub proof fn lemma_round_fixed(neg: bool, m: nat, e: int)
    requires
        representable(m, e),
    ensures
        round(neg, m, e) == (Value::Fin { neg, mant: m, exp: e }),
{
    reveal(round);
    lemma_pow2_values();
    if m > 0 {
        lemma_bit_length_bounds(m);
        if m >= TWO52 {
            lemma_bit_length_unique(m, 52);
        } else {
            lemma_pow2_lt_exponent((bit_length(m) - 1) as nat, 52);
        }
        assert(quantum(m, e) == e);
        assert(m * pow2(0) == m) by (nonlinear_arith)
            requires
                pow2(0) == 1,
        ;
    }
}

/// Two ways of writing one magnitude round to the same value.
pub proof fn lemma_round_same_value(neg: bool, m1: nat, e1: int, m2: nat, e2: int)
    requires
        e1 <= e2 ==> m1 == m2 * pow2((e2 - e1) as nat),
        e2 <= e1 ==> m2 == m1 * pow2((e1 - e2) as nat),
    ensures
        round(neg, m1, e1) == round(neg, m2, e2),
{
    if e1 <= e2 {
        lemma_round_scale(neg, m2, e2, (e2 - e1) as nat);
    } else {
        lemma_round_scale(neg, m1, e1, (e1 - e2) as nat);
    }
}

/// A magnitude under a quarter of the unit rounds to nothing.
pub proof fn lemma_half_even_small(m: nat, s: nat)
    requires
        2 * m < pow2(s),
    ensures
        half_even(m, s) == 0,
{
    let p = pow2(s);
    vstd::arithmetic::div_mod::lemma_small_mod(m, p);
    vstd::arithmetic::div_mod::lemma_basic_div(m as int, p as int);
}

/// The number of binary digits of `m`.
pub fn bit_len(m: u128) -> (n: u32)
    ensures
        n == bit_length(m as nat),
        n <= 128,
{
    proof {
        lemma_pow2_values();
        if m > 0 {
            lemma_bit_length_bounds(m as nat);
            lemma_pow2_lt_exponent((bit_length(m as nat) - 1) as nat, 128);
        }
    }
    let mut n: u32 = 0;
    let mut x: u128 = m;
    while x > 0
        invariant
            n + bit_length(x as nat) == bit_length(m as nat),
            bit_length(m as nat) <= 128,
        decreases x,
    {
        x = x / 2;
        n = n + 1;
    }
    n
}

/// Rounds the magnitude `m * 2^e` with the given sign to binary64.
pub fn round_pack(neg: bool, m: u128, e: i64) -> (r: Double)
    requires
        m < TWO120,
        -4096 <= e <= 4096,
    ensures
        r@ == round(neg, m as nat, e as int),
        r == Double::of(round(neg, m as nat, e as int)),
{
    proof {
        reveal(round);
    }
    if m == 0 {
        return Double::zero(neg);
    }
    let len: i64 = bit_len(m) as i64;
    let top: i64 = e + len - 53;
    let q: i64 = if top < MIN_EXP { MIN_EXP } else { top };
    proof {
        lemma_pow2_values();
        lemma_scaled_bounds(m as nat, e as int);
        assert(q == quantum(m as nat, e as int));
    }
    let sig: u128;
    if q <= e {
        let k: u32 = (e - q) as u32;
        let p = pow2_u128(k);
        assert(m * p < TWO53);
        sig = m * p;
    } else {
        let s: i64 = q - e;
        if s >= 121 {
            proof {
                lemma_pow2_le(121, s as nat);
                lemma_half_even_small(m as nat, s as nat);
            }
            sig = 0;
        } else {
            let p = pow2_u128(s as u32);
            proof {
                lemma_pow2_le(s as nat, 120);
            }
            let quo: u128 = m / p;
            let rem: u128 = m % p;
            if 2 * rem > p || (2 * rem == p && quo % 2 == 1) {
                sig = quo + 1;
            } else {
                sig = quo;
            }
        }
    }
    assert(sig == scaled(m as nat, e as int, q as int));
    if sig == TWO53 as u128 {
        if q + 1 > MAX_EXP {
            Double::infinity(neg)
        } else {
            Double::pack(neg, TWO52, q + 1)
        }
    } else if sig >= TWO52 as u128 && q > MAX_EXP {
        Double::infinity(neg)
    } else {
        Double::pack(neg, sig as u64, q)
    }
}

} // verus!
