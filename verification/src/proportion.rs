//! The byte that a proportion of two natural numbers scales to, computed in
//! binary64, is the byte that integer arithmetic gives: rounding never
//! carries the result over a whole number.
use crate::arith::{
    finite_quotient, lemma_normal_shift, lemma_quotient_nearest, normal_shift, product, quotient,
};
use crate::binary64::{Value, TWO52, TWO53};
use crate::convert::{lemma_small_constants, of_nat, saturating, truncated};
use crate::powers::{
    lemma_div_ge, lemma_div_lt, lemma_mul_le, lemma_mul_lt, lemma_pow2_le, lemma_pow2_lt_exponent,
    lemma_pow2_values,
};
use crate::rounding::{
    bit_length, lemma_bit_length_bounds, lemma_bit_length_unique, lemma_round_nearest,
    lemma_scaled_bounds, quantum, round, scaled, within_half_unit,
};
use vstd::arithmetic::power2::{
    lemma2_to64, lemma2_to64_rest, lemma_pow2_adds, lemma_pow2_pos, pow2,
};
use vstd::prelude::*;

verus! {

/// Two to the power 32: the first number a `u32` cannot hold.
pub const TWO32: u64 = 0x1_0000_0000;

/// A positive number of at most 53 digits converts to a normal number: its
/// digits shifted up to fill the significand.
pub proof fn lemma_of_nat_normal(x: nat)
    requires
        0 < x < TWO53,
    ensures
        1 <= bit_length(x) <= 53,
        TWO52 <= x * pow2(normal_shift(x)) < TWO53,
        of_nat(x) == (Value::Fin {
            neg: false,
            mant: x * pow2(normal_shift(x)),
            exp: -(normal_shift(x) as int),
        }),
{
    reveal(round);
    lemma_pow2_values();
    lemma_normal_shift(x);
    lemma_bit_length_bounds(x);
    lemma_scaled_bounds(x, 0);
    assert(quantum(x, 0) == bit_length(x) - 53);
}

/// The quotient of two positive numbers below `2^32` is a positive normal
/// number within half a unit of its last place of the exact quotient: with
/// significand `mant` and exponent `exp`, `mant * b` differs from
/// `a * 2^(-exp)` by at most `b / 2`.
pub proof fn lemma_quotient_of_nats(a: nat, b: nat)
    requires
        0 < a < TWO32,
        0 < b < TWO32,
    ensures
        quotient(of_nat(a), of_nat(b)) matches Value::Fin { neg, mant, exp } && {
            &&& !neg
            &&& TWO52 <= mant < TWO53
            &&& -90 <= exp <= -20
            &&& 2 * (mant * b - a * pow2((-exp) as nat)) <= b
            &&& 2 * (a * pow2((-exp) as nat) - mant * b) <= b
        },
{
    lemma_pow2_values();
    lemma2_to64();
    lemma_of_nat_normal(a);
    lemma_of_nat_normal(b);
    let ka = normal_shift(a);
    let kb = normal_shift(b);
    let pa = pow2(ka);
    let pb = pow2(kb);
    lemma_pow2_pos(ka);
    lemma_pow2_pos(kb);
    let ma = a * pa;
    let mb = b * pb;
    // Numbers below 2^32 have at most 32 digits.
    lemma_bit_length_bounds(a);
    lemma_bit_length_bounds(b);
    lemma_pow2_lt_exponent((bit_length(a) - 1) as nat, 32);
    lemma_pow2_lt_exponent((bit_length(b) - 1) as nat, 32);
    assert(21 <= ka <= 52 && 21 <= kb <= 52);
    let ea = -(ka as int);
    let eb = -(kb as int);
    let v = finite_quotient(false, ma, ea, mb, eb);
    assert(quotient(of_nat(a), of_nat(b)) == v);
    lemma_quotient_nearest(false, ma, ea, mb, eb);
    // The significands are normal already.
    lemma_bit_length_unique(ma, 52);
    lemma_bit_length_unique(mb, 52);
    assert(normal_shift(ma) == 0 && normal_shift(mb) == 0);
    let wide = pow2(64);
    let n = ma * pow2(0) * wide;
    let d = mb * pow2(0);
    assert(d == mb);
    assert(n == ma * wide) by (nonlinear_arith)
        requires
            n == ma * pow2(0) * wide,
            pow2(0) == 1,
    ;
    let q = n / d;
    let sticky: nat = if n % d == 0 {
        0
    } else {
        1
    };
    let w = 2 * q + sticky;
    let eq = ea - eb - 65;
    assert(v == round(false, w, eq));
    // The quotient has 64 or 65 digits.
    lemma_mul_le(TWO52 as int, ma as int, wide as int);
    lemma_mul_lt(ma as int, TWO53 as int, wide as int);
    assert(0x8000_0000_0000_0000 * d <= n) by (nonlinear_arith)
        requires
            d < TWO53,
            n >= TWO52 * wide,
            wide == 0x1_0000_0000_0000_0000,
    ;
    assert(n < 0x2_0000_0000_0000_0000 * d) by (nonlinear_arith)
        requires
            d >= TWO52,
            n < TWO53 * wide,
            wide == 0x1_0000_0000_0000_0000,
    ;
    lemma_div_ge(n as int, d as int, 0x8000_0000_0000_0000);
    lemma_div_lt(n as int, d as int, 0x2_0000_0000_0000_0000);
    lemma_pow2_adds(64, 1);
    lemma_pow2_adds(64, 2);
    assert(pow2(64) <= w < pow2(66));
    lemma_bit_length_bounds(w);
    lemma_pow2_lt_exponent(64, bit_length(w));
    lemma_pow2_lt_exponent((bit_length(w) - 1) as nat, 66);
    assert(65 <= bit_length(w) <= 66);
    reveal(round);
    lemma_scaled_bounds(w, eq);
    match v {
        Value::Fin { neg, mant, exp } => {
            assert(eq + 12 <= exp <= eq + 14);
            let c = pow2((-exp) as nat);
            // lemma_quotient_nearest speaks of ma, mb: bring it to a, b.
            let up = (ea - eb - exp) as nat;
            assert(within_half_unit(mant, exp, ma, mb, ea - eb));
            let unit = pow2(0) * mb;
            assert(unit == mb);
            let got = mant * unit;
            let exact = ma * pow2(up);
            assert(2 * (got - exact) <= unit && 2 * (exact - got) <= unit);
            lemma_pow2_adds(ka, up);
            lemma_pow2_adds((-exp) as nat, kb);
            assert(ka + up == (-exp) + kb);
            assert(exact == (a * c) * pb) by (nonlinear_arith)
                requires
                    exact == ma * pow2(up),
                    ma == a * pa,
                    pow2(ka + up) == pa * pow2(up),
                    pow2(ka + up) == c * pb,
            ;
            assert(got == (mant * b) * pb) by (nonlinear_arith)
                requires
                    got == mant * unit,
                    unit == b * pb,
            ;
            assert((2 * (mant * b - a * c)) * pb <= b * pb) by (nonlinear_arith)
                requires
                    2 * (got - exact) <= unit,
                    got == (mant * b) * pb,
                    exact == (a * c) * pb,
                    unit == b * pb,
            ;
            assert((2 * (a * c - mant * b)) * pb <= b * pb) by (nonlinear_arith)
                requires
                    2 * (exact - got) <= unit,
                    got == (mant * b) * pb,
                    exact == (a * c) * pb,
                    unit == b * pb,
            ;
            lemma_cancel_factor(2 * (mant * b - a * c), b as int, pb as int);
            lemma_cancel_factor(2 * (a * c - mant * b), b as int, pb as int);
        },
        _ => {},
    }
}

/// Dividing both sides of an inequality by a positive factor.
proof fn lemma_cancel_factor(a: int, b: int, c: int)
    by (nonlinear_arith)
    requires
        0 < c,
        a * c <= b * c,
    ensures
        a <= b,
{
}

/// A normal number of moderate size times 255 is a normal number seven to
/// nine binades up, within half a unit of its last place of the exact
/// product.
pub proof fn lemma_scale_by_255(mn: nat, en: int)
    requires
        TWO52 <= mn < TWO53,
        -100 <= en <= 0,
    ensures
        product(Value::Fin { neg: false, mant: mn, exp: en }, of_nat(255)) matches Value::Fin {
            neg,
            mant,
            exp,
        } && {
            &&& !neg
            &&& TWO52 <= mant < TWO53
            &&& en + 7 <= exp <= en + 9
            &&& 2 * (mant * pow2((exp - en) as nat) - 255 * mn) <= pow2((exp - en) as nat)
            &&& 2 * (255 * mn - mant * pow2((exp - en) as nat)) <= pow2((exp - en) as nat)
        },
{
    lemma_pow2_values();
    lemma2_to64();
    lemma2_to64_rest();
    lemma_small_constants();
    let m255: nat = 0x1f_e000_0000_0000;
    let big = mn * m255;
    let e = en - 45;
    let v = round(false, big, e);
    assert(product(Value::Fin { neg: false, mant: mn, exp: en }, of_nat(255)) == v);
    lemma_round_nearest(false, big, e);
    // The product has 105 or 106 digits.
    lemma_pow2_adds(52, 52);
    lemma_pow2_adds(53, 53);
    assert(pow2(104) <= big) by (nonlinear_arith)
        requires
            big == mn * m255,
            mn >= TWO52,
            m255 >= TWO52,
            pow2(104) == pow2(52) * pow2(52),
            pow2(52) == TWO52,
    ;
    assert(big < pow2(106)) by (nonlinear_arith)
        requires
            big == mn * m255,
            mn < TWO53,
            m255 < TWO53,
            pow2(106) == pow2(53) * pow2(53),
            pow2(53) == TWO53,
    ;
    lemma_bit_length_bounds(big);
    lemma_pow2_lt_exponent(104, bit_length(big));
    lemma_pow2_lt_exponent((bit_length(big) - 1) as nat, 106);
    assert(105 <= bit_length(big) <= 106);
    reveal(round);
    lemma_scaled_bounds(big, e);
    match v {
        Value::Fin { neg, mant, exp } => {
            assert(en + 7 <= exp <= en + 9);
            let g = pow2((exp - en) as nat);
            let unit = pow2((exp - e) as nat) * 1;
            let got = mant * unit;
            let exact = big * pow2(0);
            assert(2 * (got - exact) <= unit && 2 * (exact - got) <= unit);
            lemma_pow2_adds((exp - en) as nat, 45);
            let s = pow2(45);
            assert(unit == g * s) by (nonlinear_arith)
                requires
                    unit == pow2((exp - e) as nat) * 1,
                    pow2((exp - e) as nat) == g * s,
            ;
            assert(exact == (255 * mn) * s) by (nonlinear_arith)
                requires
                    exact == big * pow2(0),
                    pow2(0) == 1,
                    big == mn * m255,
                    m255 == 255 * s,
            ;
            assert(got == (mant * g) * s) by (nonlinear_arith)
                requires
                    got == mant * unit,
                    unit == g * s,
            ;
            assert((2 * (mant * g - 255 * mn)) * s <= g * s) by (nonlinear_arith)
                requires
                    2 * (got - exact) <= unit,
                    got == (mant * g) * s,
                    exact == (255 * mn) * s,
                    unit == g * s,
            ;
            assert((2 * (255 * mn - mant * g)) * s <= g * s) by (nonlinear_arith)
                requires
                    2 * (exact - got) <= unit,
                    got == (mant * g) * s,
                    exact == (255 * mn) * s,
                    unit == g * s,
            ;
            lemma_cancel_factor(2 * (mant * g - 255 * mn), g as int, s as int);
            lemma_cancel_factor(2 * (255 * mn - mant * g), g as int, s as int);
        },
        _ => {},
    }
}

/// The scaled quotient stays below the next whole number. In units of the
/// quotient's last place: `mn` is the quotient, `c` is one, `mt * g` is the
/// scaled quotient; relative errors of `2^-53` twice cannot make up for the
/// distance of `1 / b` that `255 * a / b` keeps from `k + 1`.
proof fn lemma_below_next(a: int, b: int, k: int, mn: int, c: int, mt: int, g: int)
    requires
        0 <= a < TWO32,
        0 < b < TWO32,
        0 <= k <= 255,
        255 * a < (k + 1) * b,
        TWO52 <= mn,
        0 < c,
        2 * (mn * b - a * c) <= b,
        TWO52 <= mt,
        0 < g,
        2 * (mt * g - 255 * mn) <= g,
    ensures
        mt * g < (k + 1) * c,
{
    let bb: int = 0x20_0000_0000_0000;
    let aa: int = bb - 1;
    let p = mn * b;
    let q = a * c;
    let t = mt * g;
    let r = (k + 1) * c;
    let w = (k + 1) * b;
    assert(TWO52 * b <= p) by (nonlinear_arith)
        requires
            p == mn * b,
            mn >= TWO52,
            b > 0,
    ;
    assert(TWO52 * g <= t) by (nonlinear_arith)
        requires
            t == mt * g,
            mt >= TWO52,
            g > 0,
    ;
    assert(aa * p <= bb * q);
    assert(aa * t <= 255 * bb * mn);
    if t >= r {
        let tb = t * b;
        let wc = w * c;
        assert(aa * tb <= 255 * bb * p) by (nonlinear_arith)
            requires
                aa * t <= 255 * bb * mn,
                b > 0,
                tb == t * b,
                p == mn * b,
        ;
        assert(wc <= tb) by (nonlinear_arith)
            requires
                wc == w * c,
                w == (k + 1) * b,
                r == (k + 1) * c,
                tb == t * b,
                r <= t,
                b > 0,
        ;
        assert(255 * q <= wc - c) by (nonlinear_arith)
            requires
                q == a * c,
                wc == w * c,
                255 * a <= w - 1,
                c > 0,
        ;
        assert(w <= 256 * TWO32) by (nonlinear_arith)
            requires
                w == (k + 1) * b,
                0 <= k <= 255,
                0 < b < TWO32,
        ;
        assert(wc <= 256 * TWO32 * c) by (nonlinear_arith)
            requires
                wc == w * c,
                w <= 256 * TWO32,
                c > 0,
        ;
        let s1 = aa * wc;
        assert(s1 <= 255 * bb * p) by (nonlinear_arith)
            requires
                s1 == aa * wc,
                wc <= tb,
                aa * tb <= 255 * bb * p,
                aa > 0,
        ;
        assert(aa * s1 <= 255 * bb * (bb * q)) by (nonlinear_arith)
            requires
                s1 <= 255 * bb * p,
                aa * p <= bb * q,
                aa > 0,
                bb > 0,
        ;
        assert(255 * bb * (bb * q) <= bb * bb * (wc - c)) by (nonlinear_arith)
            requires
                255 * q <= wc - c,
                bb > 0,
        ;
        assert(aa * s1 == 0x3ffffffffffffc0000000000001 * wc) by (nonlinear_arith)
            requires
                s1 == aa * wc,
                aa == 0x1fffffffffffff,
        ;
        assert(bb * bb * (wc - c) == 0x400000000000000000000000000 * (wc - c)) by (nonlinear_arith)
            requires
                bb == 0x20000000000000,
        ;
        assert(wc <= 0x100_0000_0000 * c);
        assert(false) by (nonlinear_arith)
            requires
                0x3ffffffffffffc0000000000001 * wc <= 0x400000000000000000000000000 * (wc - c),
                wc <= 0x100_0000_0000 * c,
                c > 0,
        ;
    }
}

/// The scaled quotient reaches the whole number below an inexact
/// proportion: relative errors of `2^-53` twice cannot make up for the
/// distance of `1 / b` that `255 * a / b` keeps from `k`.
proof fn lemma_reaches_inexact(a: int, b: int, k: int, mn: int, c: int, mt: int, g: int)
    requires
        0 <= a < TWO32,
        0 < b < TWO32,
        1 <= k <= 255,
        k * b + 1 <= 255 * a,
        TWO52 <= mn,
        0 < c,
        2 * (a * c - mn * b) <= b,
        TWO52 <= mt,
        0 < g,
        2 * (255 * mn - mt * g) <= g,
    ensures
        mt * g >= k * c,
{
    let bb: int = 0x20_0000_0000_0000;
    let aa: int = bb + 1;
    let p = mn * b;
    let q = a * c;
    let t = mt * g;
    let r = k * c;
    let w = k * b;
    assert(TWO52 * b <= p) by (nonlinear_arith)
        requires
            p == mn * b,
            mn >= TWO52,
            b > 0,
    ;
    assert(TWO52 * g <= t) by (nonlinear_arith)
        requires
            t == mt * g,
            mt >= TWO52,
            g > 0,
    ;
    assert(bb * q <= aa * p);
    assert(255 * bb * mn <= aa * t);
    if t < r {
        let tb = t * b;
        let wc = w * c;
        assert(255 * bb * p <= aa * tb) by (nonlinear_arith)
            requires
                255 * bb * mn <= aa * t,
                b > 0,
                tb == t * b,
                p == mn * b,
        ;
        assert(tb <= wc) by (nonlinear_arith)
            requires
                wc == w * c,
                w == k * b,
                r == k * c,
                tb == t * b,
                t <= r,
                b > 0,
        ;
        assert(wc + c <= 255 * q) by (nonlinear_arith)
            requires
                q == a * c,
                wc == w * c,
                w + 1 <= 255 * a,
                c > 0,
        ;
        assert(w <= 256 * TWO32) by (nonlinear_arith)
            requires
                w == k * b,
                0 <= k <= 255,
                0 < b < TWO32,
        ;
        assert(wc <= 256 * TWO32 * c) by (nonlinear_arith)
            requires
                wc == w * c,
                w <= 256 * TWO32,
                c > 0,
        ;
        let s1 = aa * wc;
        assert(255 * bb * p <= s1) by (nonlinear_arith)
            requires
                s1 == aa * wc,
                tb <= wc,
                255 * bb * p <= aa * tb,
                aa > 0,
        ;
        assert(255 * bb * (bb * q) <= aa * s1) by (nonlinear_arith)
            requires
                255 * bb * p <= s1,
                bb * q <= aa * p,
                aa > 0,
                bb > 0,
        ;
        assert(bb * bb * (wc + c) <= 255 * bb * (bb * q)) by (nonlinear_arith)
            requires
                wc + c <= 255 * q,
                bb > 0,
        ;
        assert(aa * s1 == 0x400000000000040000000000001 * wc) by (nonlinear_arith)
            requires
                s1 == aa * wc,
                aa == 0x20000000000001,
        ;
        assert(bb * bb * (wc + c) == 0x400000000000000000000000000 * (wc + c)) by (nonlinear_arith)
            requires
                bb == 0x20000000000000,
        ;
        assert(wc <= 0x100_0000_0000 * c);
        assert(false) by (nonlinear_arith)
            requires
                0x400000000000000000000000000 * (wc + c) <= 0x400000000000040000000000001 * wc,
                wc <= 0x100_0000_0000 * c,
                c > 0,
        ;
    }
}

/// The scaled quotient reaches an exact proportion. Where `255 * a` is
/// `k * b`, the quotient's significand times 255 differs from `k * 2^j` by
/// at most 127; the scaled quotient could fall short of `k` only by landing
/// a whole unit of `2^7` below `k * 2^j = 2^60`, and `2^60` leaves 16 on
/// division by 255, not 64 or more.
proof fn lemma_reaches_exact(a: int, b: int, k: int, mn: int, j: nat, mt: int, h: nat)
    requires
        0 < a,
        0 < b,
        1 <= k <= 255,
        255 * a == k * b,
        TWO52 <= mn < TWO53,
        2 * (mn * b - a * pow2(j)) <= b,
        2 * (a * pow2(j) - mn * b) <= b,
        TWO52 <= mt < TWO53,
        7 <= h <= 9,
        2 * (255 * mn - mt * pow2(h)) <= pow2(h),
    ensures
        mt * pow2(h) >= k * pow2(j),
{
    lemma_pow2_values();
    lemma2_to64();
    let c = pow2(j);
    let g = pow2(h);
    lemma_pow2_pos(j);
    lemma_pow2_pos(h);
    let kc = k * c;
    let t = mt * g;
    let d = 255 * mn - kc;
    // The quotient's error, times 255, in whole units.
    assert((2 * d) * b <= 255 * b && (-2 * d) * b <= 255 * b) by (nonlinear_arith)
        requires
            d == 255 * mn - kc,
            kc == k * c,
            255 * a == k * b,
            2 * (mn * b - a * c) <= b,
            2 * (a * c - mn * b) <= b,
    ;
    lemma_cancel_factor(2 * d, 255, b);
    lemma_cancel_factor(-2 * d, 255, b);
    assert(-127 <= d <= 127);
    if t < kc {
        // One is at least 2^52 units.
        assert(kc <= 255 * c) by (nonlinear_arith)
            requires
                kc == k * c,
                k <= 255,
                c > 0,
        ;
        if j < 52 {
            lemma_pow2_le(j, 51);
            lemma_pow2_adds(51, 1);
        }
        assert(j >= 52);
        // Both sides are whole multiples of g.
        let x = k * pow2((j - h) as nat);
        lemma_pow2_adds((j - h) as nat, h);
        assert(kc == x * g) by (nonlinear_arith)
            requires
                kc == k * c,
                c == pow2((j - h) as nat) * g,
                x == k * pow2((j - h) as nat),
        ;
        assert(mt < x) by (nonlinear_arith)
            requires
                t == mt * g,
                kc == x * g,
                t < kc,
                g > 0,
        ;
        assert(t + g <= kc) by (nonlinear_arith)
            requires
                t == mt * g,
                kc == x * g,
                mt + 1 <= x,
                g > 0,
        ;
        assert(2 * d <= -g);
        if h >= 8 {
            lemma_pow2_le(8, h);
        }
        assert(h == 7);
        assert(g == 128);
        assert(t == mt * 128);
        assert(kc == x * 128);
        assert(mt == x - 1);
        // So k * 2^j is at most 2^60, and at least 255 * 2^52 + 64.
        let y = k * pow2((j - 52) as nat);
        lemma_pow2_adds((j - 52) as nat, 52);
        assert(kc == y * TWO52) by (nonlinear_arith)
            requires
                kc == k * c,
                c == pow2((j - 52) as nat) * pow2(52),
                pow2(52) == TWO52,
                y == k * pow2((j - 52) as nat),
        ;
        assert(y == 256);
        assert(255 * mn == 0x1000_0000_0000_0000 + d);
        assert(false);
    }
}

/// The byte that integer arithmetic gives for the proportion `a / b`:
/// `255 * a / b` without its fraction, and 255 where that is more.
pub open spec fn proportion_byte(a: nat, b: nat) -> nat {
    if (255 * a) / b > 255 {
        255
    } else {
        (255 * a) / b
    }
}

/// The quotient of two numbers below `2^32`, scaled by 255 in binary64 and
/// cut down to a byte, is the byte of integer arithmetic.
pub proof fn lemma_proportion(a: nat, b: nat)
    requires
        a < TWO32,
        0 < b < TWO32,
    ensures
        saturating(product(quotient(of_nat(a), of_nat(b)), of_nat(255)), 255) == proportion_byte(
            a,
            b,
        ),
{
    lemma_pow2_values();
    lemma_small_constants();
    lemma_of_nat_normal(b);
    if a == 0 {
        reveal(round);
        assert(of_nat(0) == Value::zero(false));
        assert(quotient(of_nat(a), of_nat(b)) == Value::zero(false));
        assert(0 * 0x1f_e000_0000_0000nat == 0);
        assert(product(Value::zero(false), of_nat(255)) == Value::zero(false));
        lemma_pow2_pos(1074);
        lemma_div_lt(0, pow2(1074) as int, 1);
        assert((255 * a) / b == 0) by (nonlinear_arith)
            requires
                a == 0,
                b > 0,
        ;
    } else {
        lemma_quotient_of_nats(a, b);
        let n = quotient(of_nat(a), of_nat(b));
        match n {
            Value::Fin { mant: mn, exp: en, .. } => {
                lemma_scale_by_255(mn, en);
                let t = product(n, of_nat(255));
                match t {
                    Value::Fin { mant: mt, exp: et, .. } => {
                        let j = (-en) as nat;
                        let h = (et - en) as nat;
                        let c = pow2(j);
                        let g = pow2(h);
                        let low = pow2((-et) as nat);
                        lemma_pow2_pos(j);
                        lemma_pow2_pos(h);
                        lemma_pow2_pos((-et) as nat);
                        lemma_pow2_adds((-et) as nat, h);
                        assert(c == low * g);
                        let k = ((255 * a) / b) as int;
                        let r = ((255 * a) % b) as int;
                        vstd::arithmetic::div_mod::lemma_fundamental_div_mod((255 * a) as int, b as int);
                        assert(255 * a == k * b + r) by (nonlinear_arith)
                            requires
                                255 * a == b * k + r,
                        ;
                        assert(k >= 0) by (nonlinear_arith)
                            requires
                                255 * a == k * b + r,
                                0 <= r < b,
                                a >= 0,
                                b > 0,
                        ;
                        let cap = if k >= 255 {
                            255
                        } else {
                            k
                        };
                        // The scaled quotient reaches the byte.
                        if cap >= 1 {
                            assert(cap * b <= 255 * a) by (nonlinear_arith)
                                requires
                                    255 * a == k * b + r,
                                    0 <= r,
                                    cap <= k,
                                    b > 0,
                            ;
                            if cap * b == 255 * a {
                                lemma_reaches_exact(a as int, b as int, cap, mn as int, j, mt as int, h);
                            } else {
                                lemma_reaches_inexact(
                                    a as int,
                                    b as int,
                                    cap,
                                    mn as int,
                                    c as int,
                                    mt as int,
                                    g as int,
                                );
                            }
                        } else {
                            assert(0 * c == 0);
                        }
                        assert(mt * g >= cap * c);
                        assert(mt >= cap * low) by (nonlinear_arith)
                            requires
                                mt * g >= cap * c,
                                c == low * g,
                                g > 0,
                        ;
                        lemma_div_ge(mt as int, low as int, cap);
                        assert(truncated(mt, et) == mt / low);
                        if k < 255 {
                            assert(255 * a < (k + 1) * b) by (nonlinear_arith)
                                requires
                                    255 * a == k * b + r,
                                    r < b,
                            ;
                            lemma_below_next(
                                a as int,
                                b as int,
                                k,
                                mn as int,
                                c as int,
                                mt as int,
                                g as int,
                            );
                            assert(mt < (k + 1) * low) by (nonlinear_arith)
                                requires
                                    mt * g < (k + 1) * c,
                                    c == low * g,
                                    g > 0,
                            ;
                            lemma_div_lt(mt as int, low as int, k + 1);
                        }
                    },
                    _ => {},
                }
            },
            _ => {},
        }
    }
}

} // verus!
