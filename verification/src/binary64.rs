//! IEEE 754 binary64 numbers held as their 64-bit patterns.
//!
//! A [`Double`] is the bit pattern of a double-precision number. Its view is
//! the mathematical value the pattern stands for: not-a-number, a signed
//! infinity, or a signed magnitude `mant * 2^exp`.
use vstd::prelude::*;

verus! {

/// The sign bit of a pattern.
pub const SIGN_BIT: u64 = 0x8000_0000_0000_0000;

/// Two to the power 52: the implicit leading bit of a normal significand.
pub const TWO52: u64 = 0x10_0000_0000_0000;

/// Two to the power 53: the first magnitude a significand cannot hold.
pub const TWO53: u64 = 0x20_0000_0000_0000;

/// The exponent of the smallest positive number, `2^-1074`.
pub const MIN_EXP: i64 = -1074;

/// The greatest exponent a finite significand can carry: `2^53 * 2^971 = 2^1024`.
pub const MAX_EXP: i64 = 971;

/// The pattern of positive infinity.
pub const INFINITY_BITS: u64 = 0x7ff0_0000_0000_0000;

/// The pattern of the quiet not-a-number that arithmetic here returns.
pub const NAN_BITS: u64 = 0x7ff8_0000_0000_0000;

/// What a binary64 pattern stands for.
pub enum Value {
    /// Not a number.
    Nan,
    /// An infinity; `neg` tells its sign.
    Inf { neg: bool },
    /// The number `(-1)^neg * mant * 2^exp`. Zero keeps its sign.
    Fin { neg: bool, mant: nat, exp: int },
}

/// The significand and exponent pairs that a finite binary64 number can have:
/// subnormal numbers and zero at the least exponent, normal numbers with a
/// full 53-bit significand.
pub open spec fn representable(mant: nat, exp: int) -> bool {
    ||| mant < TWO52 && exp == MIN_EXP
    ||| TWO52 <= mant < TWO53 && MIN_EXP <= exp <= MAX_EXP
}

impl Value {
    /// Zero with the given sign.
    pub open spec fn zero(neg: bool) -> Value {
        Value::Fin { neg, mant: 0, exp: MIN_EXP as int }
    }

    /// True of numbers and infinities, false of not-a-number.
    pub open spec fn is_number(self) -> bool {
        !(self is Nan)
    }

    /// True of what some pattern decodes to.
    pub open spec fn well_formed(self) -> bool {
        match self {
            Value::Fin { mant, exp, .. } => representable(mant, exp),
            _ => true,
        }
    }

    /// The sign: true of negative numbers, negative zero and negative infinity.
    pub open spec fn negative(self) -> bool {
        match self {
            Value::Nan => false,
            Value::Inf { neg } => neg,
            Value::Fin { neg, .. } => neg,
        }
    }

    /// The same value with the opposite sign.
    pub open spec fn negated(self) -> Value {
        match self {
            Value::Nan => Value::Nan,
            Value::Inf { neg } => Value::Inf { neg: !neg },
            Value::Fin { neg, mant, exp } => Value::Fin { neg: !neg, mant, exp },
        }
    }
}

/// The value of a pattern: sign in bit 63, biased exponent in bits 52 to 62,
/// fraction in bits 0 to 51.
pub open spec fn decode(bits: u64) -> Value {
    let neg = bits >= SIGN_BIT;
    let field = (bits / TWO52) % 2048;
    let frac = bits % TWO52;
    if field == 2047 {
        if frac == 0 {
            Value::Inf { neg }
        } else {
            Value::Nan
        }
    } else if field == 0 {
        Value::Fin { neg, mant: frac as nat, exp: MIN_EXP as int }
    } else {
        Value::Fin { neg, mant: (frac + TWO52) as nat, exp: field - 1075 }
    }
}

/// The pattern of a value. Not-a-number, which many patterns stand for, gets
/// the quiet one.
pub open spec fn encode(v: Value) -> u64 {
    match v {
        Value::Nan => NAN_BITS,
        Value::Inf { neg } => if neg {
            (SIGN_BIT + INFINITY_BITS) as u64
        } else {
            INFINITY_BITS
        },
        Value::Fin { neg, mant, exp } => {
            let body = if mant < TWO52 {
                mant as int
            } else {
                (exp + 1075) * TWO52 + (mant - TWO52)
            };
            if neg {
                (SIGN_BIT + body) as u64
            } else {
                body as u64
            }
        },
    }
}

/// A binary64 number, held as its bit pattern.
#[derive(Clone, Copy, Debug)]
pub struct Double {
    pub bits: u64,
}

impl View for Double {
    type V = Value;

    open spec fn view(&self) -> Value {
        decode(self.bits)
    }
}

/// A decoded number in machine integers.
#[derive(Clone, Copy, Debug)]
pub enum Parts {
    Nan,
    Inf { neg: bool },
    Fin { neg: bool, mant: u64, exp: i64 },
}

impl View for Parts {
    type V = Value;

    open spec fn view(&self) -> Value {
        match *self {
            Parts::Nan => Value::Nan,
            Parts::Inf { neg } => Value::Inf { neg },
            Parts::Fin { neg, mant, exp } => Value::Fin { neg, mant: mant as nat, exp: exp as int },
        }
    }
}

impl Double {
    /// The number that stands for a value.
    pub open spec fn of(v: Value) -> Double {
        Double { bits: encode(v) }
    }

    /// True of every number and infinity, and of the quiet not-a-number:
    /// the patterns that arithmetic returns.
    pub open spec fn is_canonical(self) -> bool {
        self == Double::of(self@)
    }

    /// The number with the given pattern.
    pub fn from_bits(bits: u64) -> (r: Double)
        ensures
            r.bits == bits,
    {
        Double { bits }
    }

    /// The pattern of the number.
    pub fn to_bits(self) -> (bits: u64)
        ensures
            bits == self.bits,
    {
        self.bits
    }

    /// Zero with the given sign.
    pub fn zero(neg: bool) -> (r: Double)
        ensures
            r@ == Value::zero(neg),
            r == Double::of(Value::zero(neg)),
    {
        if neg {
            Double { bits: SIGN_BIT }
        } else {
            Double { bits: 0 }
        }
    }

    /// The infinity with the given sign.
    pub fn infinity(neg: bool) -> (r: Double)
        ensures
            r@ == (Value::Inf { neg }),
            r == Double::of(Value::Inf { neg }),
    {
        if neg {
            Double { bits: SIGN_BIT + INFINITY_BITS }
        } else {
            Double { bits: INFINITY_BITS }
        }
    }

    /// The quiet not-a-number.
    pub fn nan() -> (r: Double)
        ensures
            r@ == Value::Nan,
            r == Double::of(Value::Nan),
    {
        Double { bits: NAN_BITS }
    }

    /// The finite number `(-1)^neg * mant * 2^exp`.
    pub fn pack(neg: bool, mant: u64, exp: i64) -> (r: Double)
        requires
            representable(mant as nat, exp as int),
        ensures
            r@ == (Value::Fin { neg, mant: mant as nat, exp: exp as int }),
            r == Double::of(Value::Fin { neg, mant: mant as nat, exp: exp as int }),
    {
        let sign: u64 = if neg { SIGN_BIT } else { 0 };
        let body: u64 = if mant < TWO52 {
            mant
        } else {
            let field: u64 = (exp + 1075) as u64;
            field * TWO52 + (mant - TWO52)
        };
        Double { bits: sign + body }
    }

    /// Sign, significand and exponent of the number, or its special kind.
    pub fn unpack(self) -> (p: Parts)
        ensures
            p@ == self@,
            self@.well_formed(),
    {
        let neg = self.bits >= SIGN_BIT;
        let field: u64 = (self.bits / TWO52) % 2048;
        let frac: u64 = self.bits % TWO52;
        if field == 2047 {
            if frac == 0 {
                Parts::Inf { neg }
            } else {
                Parts::Nan
            }
        } else if field == 0 {
            Parts::Fin { neg, mant: frac, exp: MIN_EXP }
        } else {
            Parts::Fin { neg, mant: frac + TWO52, exp: field as i64 - 1075 }
        }
    }

    /// Whether the number is not-a-number.
    pub fn is_nan(self) -> (b: bool)
        ensures
            b == (self@ is Nan),
    {
        let field: u64 = (self.bits / TWO52) % 2048;
        let frac: u64 = self.bits % TWO52;
        field == 2047 && frac != 0
    }

    /// The number with its sign flipped; not-a-number stays not-a-number.
    pub fn neg(self) -> (r: Double)
        ensures
            r@ == self@.negated(),
    {
        if self.bits >= SIGN_BIT {
            Double { bits: self.bits - SIGN_BIT }
        } else {
            Double { bits: self.bits + SIGN_BIT }
        }
    }
}

/// Every pattern decodes to a well-formed value.
pub proof fn lemma_decode_well_formed(bits: u64)
    ensures
        decode(bits).well_formed(),
{
}

/// Encoding a well-formed value and decoding the pattern gives the value back.
pub proof fn lemma_decode_encode(v: Value)
    requires
        v.well_formed(),
    ensures
        decode(encode(v)) == v,
{
}

/// Every pattern of a number or an infinity is the one that encoding gives.
pub proof fn lemma_encode_decode(bits: u64)
    requires
        decode(bits).is_number(),
    ensures
        encode(decode(bits)) == bits,
{
}

/// Two patterns of the same number or infinity are the same pattern: only
/// not-a-number has more than one.
pub proof fn lemma_decode_injective(a: u64, b: u64)
    requires
        decode(a) == decode(b),
        decode(a).is_number(),
    ensures
        a == b,
{
}

} // verus!
