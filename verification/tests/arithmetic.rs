use mandelbrot::binary64::Double;

fn d(x: f64) -> Double {
    Double::from_bits(x.to_bits())
}

fn f(x: Double) -> f64 {
    f64::from_bits(x.to_bits())
}

fn same(ours: Double, native: f64) -> bool {
    if native.is_nan() {
        ours.is_nan()
    } else {
        ours.to_bits() == native.to_bits()
    }
}

struct Patterns {
    state: u64,
}

impl Patterns {
    fn next_word(&mut self) -> u64 {
        self.state ^= self.state << 13;
        self.state ^= self.state >> 7;
        self.state ^= self.state << 17;
        self.state
    }

    fn next_pattern(&mut self) -> u64 {
        let specials: [u64; 20] = [
            0,
            0x8000_0000_0000_0000,
            1,
            0x8000_0000_0000_0001,
            0x000f_ffff_ffff_ffff,
            0x0010_0000_0000_0000,
            0x0010_0000_0000_0001,
            0x7fef_ffff_ffff_ffff,
            0x7ff0_0000_0000_0000,
            0xfff0_0000_0000_0000,
            0x7ff8_0000_0000_0000,
            1.0f64.to_bits(),
            (-1.0f64).to_bits(),
            2.0f64.to_bits(),
            0.5f64.to_bits(),
            255.0f64.to_bits(),
            0.1f64.to_bits(),
            1e308f64.to_bits(),
            4294967295.0f64.to_bits(),
            4294967296.0f64.to_bits(),
        ];
        let w = self.next_word();
        let sign = (w >> 63) << 63;
        let frac = self.next_word() & 0x000f_ffff_ffff_ffff;
        match w % 8 {
            0 => specials[(self.next_word() % 20) as usize],
            1 => self.next_word(),
            2 => sign | ((self.next_word() % 4) << 52) | frac,
            3 => sign | ((1000 + self.next_word() % 80) << 52) | frac,
            4 => sign | ((900 + self.next_word() % 250) << 52) | ((frac >> 44) << 44),
            5 => sign | ((2040 + self.next_word() % 7) << 52) | frac,
            6 => sign | ((1015 + self.next_word() % 16) << 52) | frac,
            _ => sign | ((1 + self.next_word() % 2046) << 52) | frac,
        }
    }
}

#[test]
fn sums_match_native_doubles() {
    let mut p = Patterns { state: 0x9e37_79b9_7f4a_7c15 };
    for _ in 0..20000 {
        let a = p.next_pattern();
        let b = p.next_pattern();
        let (x, y) = (f64::from_bits(a), f64::from_bits(b));
        let (m, n) = (Double::from_bits(a), Double::from_bits(b));
        assert!(same(m.plus(n), x + y), "{:#x} + {:#x}", a, b);
        assert!(same(m.minus(n), x - y), "{:#x} - {:#x}", a, b);
    }
}

#[test]
fn products_match_native_doubles() {
    let mut p = Patterns { state: 0x2545_f491_4f6c_dd1d };
    for _ in 0..20000 {
        let a = p.next_pattern();
        let b = p.next_pattern();
        let (x, y) = (f64::from_bits(a), f64::from_bits(b));
        let (m, n) = (Double::from_bits(a), Double::from_bits(b));
        assert!(same(m.times(n), x * y), "{:#x} * {:#x}", a, b);
    }
}

#[test]
fn quotients_match_native_doubles() {
    let mut p = Patterns { state: 0x1234_5678_9abc_def1 };
    for _ in 0..20000 {
        let a = p.next_pattern();
        let b = p.next_pattern();
        let (x, y) = (f64::from_bits(a), f64::from_bits(b));
        let (m, n) = (Double::from_bits(a), Double::from_bits(b));
        assert!(same(m.over(n), x / y), "{:#x} / {:#x}", a, b);
    }
}

#[test]
fn order_matches_native_doubles() {
    let mut p = Patterns { state: 0x0fed_cba9_8765_4321 };
    for _ in 0..20000 {
        let a = p.next_pattern();
        let b = p.next_pattern();
        let (x, y) = (f64::from_bits(a), f64::from_bits(b));
        let (m, n) = (Double::from_bits(a), Double::from_bits(b));
        assert_eq!(m.lt(n), x < y, "{:#x} < {:#x}", a, b);
        assert_eq!(m.gt(n), x > y, "{:#x} > {:#x}", a, b);
        assert_eq!(m.ge(n), x >= y, "{:#x} >= {:#x}", a, b);
        assert_eq!(m.is_nan(), x.is_nan());
    }
}

#[test]
fn conversions_match_native_doubles() {
    let mut p = Patterns { state: 0x7777_1111_3333_5555 };
    for _ in 0..20000 {
        let a = p.next_pattern();
        let x = f64::from_bits(a);
        let m = Double::from_bits(a);
        assert_eq!(m.to_u8(), x as u8, "{:#x} as u8", a);
        assert_eq!(m.to_u32(), x as u32, "{:#x} as u32", a);
        let k = (p.next_word() >> 32) as u32;
        assert!(same(Double::from_u32(k), k as f64), "{} as a double", k);
    }
    for k in [0u32, 1, 2, 255, 256, 65535, 1 << 31, u32::MAX - 1, u32::MAX] {
        assert!(same(Double::from_u32(k), k as f64));
        assert_eq!(Double::from_u32(k).to_u32(), k);
    }
}

#[test]
fn negation_flips_the_sign_only() {
    assert_eq!(f(d(1.5).neg()), -1.5);
    assert_eq!(d(0.0).neg().to_bits(), (-0.0f64).to_bits());
    assert_eq!(d(f64::INFINITY).neg().to_bits(), f64::NEG_INFINITY.to_bits());
    assert!(d(f64::NAN).neg().is_nan());
}

#[test]
fn named_constants_are_what_they_say() {
    assert_eq!(f(Double::one()), 1.0);
    assert_eq!(f(Double::two()), 2.0);
    assert_eq!(f(Double::byte_max()), 255.0);
    assert_eq!(Double::zero(false).to_bits(), 0.0f64.to_bits());
    assert_eq!(Double::zero(true).to_bits(), (-0.0f64).to_bits());
    assert_eq!(f(Double::infinity(false)), f64::INFINITY);
    assert_eq!(f(Double::infinity(true)), f64::NEG_INFINITY);
    assert!(Double::nan().is_nan());
}

#[test]
fn rounding_goes_to_the_even_neighbour_on_a_tie() {
    // 2^53 + 1 lies halfway between 2^53 and 2^53 + 2.
    let big = d(9007199254740992.0);
    assert_eq!(f(big.plus(d(1.0))), 9007199254740992.0);
    assert_eq!(f(big.plus(d(3.0))), 9007199254740996.0);
    // A tiny term cannot move a large number.
    assert_eq!(f(d(1e300).plus(d(1e-300))), 1e300);
    assert_eq!(f(d(1e300).minus(d(1e-300))), 1e300);
    // Overflow goes to infinity, underflow to zero.
    assert_eq!(f(d(1e308).times(d(10.0))), f64::INFINITY);
    assert_eq!(f(d(1e-320).times(d(1e-10))), 0.0);
    assert_eq!(f(d(1.0).over(d(3.0))), 1.0 / 3.0);
}

#[test]
fn special_values_behave_as_the_standard_says() {
    assert!(d(0.0).over(d(0.0)).is_nan());
    assert!(d(f64::INFINITY).minus(d(f64::INFINITY)).is_nan());
    assert!(d(f64::INFINITY).times(d(0.0)).is_nan());
    assert!(d(f64::INFINITY).over(d(f64::INFINITY)).is_nan());
    assert_eq!(f(d(1.0).over(d(0.0))), f64::INFINITY);
    assert_eq!(f(d(-1.0).over(d(0.0))), f64::NEG_INFINITY);
    assert_eq!(d(1.0).minus(d(1.0)).to_bits(), 0.0f64.to_bits());
    assert_eq!(d(-0.0).plus(d(-0.0)).to_bits(), (-0.0f64).to_bits());
    assert_eq!(d(f64::NAN).to_u8(), 0);
    assert_eq!(d(300.0).to_u8(), 255);
    assert_eq!(d(-3.0).to_u8(), 0);
    assert_eq!(d(254.99).to_u8(), 254);
    assert!(!d(f64::NAN).lt(d(1.0)));
    assert!(!d(f64::NAN).ge(d(f64::NAN)));
    assert!(d(-0.0).ge(d(0.0)));
    assert!(!d(-0.0).lt(d(0.0)));
}
