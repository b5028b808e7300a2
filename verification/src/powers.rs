//! Facts about powers of two and about division by them.
use vstd::arithmetic::power2::{
    lemma2_to64, lemma2_to64_rest, lemma_pow2_adds, lemma_pow2_pos,
    lemma_pow2_strictly_increases, lemma_pow2_unfold, pow2,
};
use vstd::prelude::*;

verus! {

/// Two to the power 120: magnitudes handed to rounding stay below it.
pub const TWO120: u128 = 0x1_000000_000000_000000_000000_000000;

/// Multiplying both sides of `a <= b` by a non-negative factor.
pub proof fn lemma_mul_le(a: int, b: int, c: int)
    by (nonlinear_arith)
    requires
        a <= b,
        0 <= c,
    ensures
        a * c <= b * c,
{
}

/// Multiplying both sides of `a < b` by a positive factor.
pub proof fn lemma_mul_lt(a: int, b: int, c: int)
    by (nonlinear_arith)
    requires
        a < b,
        0 < c,
    ensures
        a * c < b * c,
{
}

/// A quotient is at least `x` when the dividend is at least `x * p`.
pub proof fn lemma_div_ge(m: int, p: int, x: int)
    by (nonlinear_arith)
    requires
        0 < p,
        x * p <= m,
    ensures
        x <= m / p,
{
}

/// A quotient is below `x` when the dividend is below `x * p`.
pub proof fn lemma_div_lt(m: int, p: int, x: int)
    by (nonlinear_arith)
    requires
        0 < p,
        0 <= m < x * p,
    ensures
        m / p < x,
{
}

/// Quotient and remainder of `a * p + b` for a remainder-sized `b`.
pub proof fn lemma_div_mod_sum(a: int, p: int, b: int)
    by (nonlinear_arith)
    requires
        0 < p,
        0 <= b < p,
    ensures
        (a * p + b) / p == a,
        (a * p + b) % p == b,
{
}

/// Powers of two grow with the exponent.
pub proof fn lemma_pow2_le(a: nat, b: nat)
    requires
        a <= b,
    ensures
        pow2(a) <= pow2(b),
{
    if a < b {
        lemma_pow2_strictly_increases(a, b);
    }
}

/// A smaller power of two has the smaller exponent.
pub proof fn lemma_pow2_lt_exponent(a: nat, b: nat)
    requires
        pow2(a) < pow2(b),
    ensures
        a < b,
{
    if a >= b {
        lemma_pow2_le(b, a);
    }
}

/// The powers of two that the binary64 format is built on.
pub proof fn lemma_pow2_values()
    ensures
        pow2(0) == 1,
        pow2(1) == 2,
        pow2(8) == 0x100,
        pow2(32) == 0x1_0000_0000,
        pow2(52) == 0x10_0000_0000_0000,
        pow2(53) == 0x20_0000_0000_0000,
        pow2(64) == 0x1_0000_0000_0000_0000,
        pow2(120) == TWO120,
        pow2(121) == 2 * TWO120,
        pow2(128) == 0x1_0000_0000_0000_0000_0000_0000_0000_0000,
{
    lemma2_to64();
    lemma2_to64_rest();
    lemma_pow2_adds(60, 60);
    let a = pow2(60);
    assert(a * a == TWO120) by (nonlinear_arith)
        requires
            a == 0x1000_0000_0000_0000,
    ;
    lemma_pow2_unfold(121);
    lemma_pow2_adds(64, 64);
    let b = pow2(64);
    assert(b * b == 0x1_0000_0000_0000_0000_0000_0000_0000_0000) by (nonlinear_arith)
        requires
            b == 0x1_0000_0000_0000_0000,
    ;
}

/// Shifting one to the left by `k` gives two to the power `k`.
pub proof fn lemma_shl_one(k: u128)
    requires
        k < 128,
    ensures
        (1u128 << k) == pow2(k as nat),
    decreases k,
{
    if k == 0 {
        assert((1u128 << 0u128) == 1) by (bit_vector);
        lemma2_to64();
    } else {
        let j: u128 = (k - 1) as u128;
        assert((1u128 << k) == 2 * (1u128 << j)) by (bit_vector)
            requires
                0 < k < 128,
                j == k - 1,
        ;
        lemma_shl_one(j);
        lemma_pow2_unfold(k as nat);
    }
}

/// Two to the power `k`, for an exponent that fits.
pub fn pow2_u128(k: u32) -> (r: u128)
    requires
        k < 128,
    ensures
        r == pow2(k as nat),
        r > 0,
{
    proof {
        lemma_shl_one(k as u128);
        lemma_pow2_pos(k as nat);
    }
    1u128 << (k as u128)
}

} // verus!
