use mandelbrot::binary64::Double;
use mandelbrot::mandelbrot::{compute_plane, Config, Plane};
use mandelbrot::mandelbrot_composer::{
    compose, compose_layers, scale_to_byte, translate_iterations, translate_linear,
    translate_modulo, translate_sqrt, ColorCurve, Layer,
};
use mandelbrot::renderer::Pixel;

fn d(x: f64) -> Double {
    Double::from_bits(x.to_bits())
}

fn power(base: Double, exponent: Double) -> Double {
    let b = f64::from_bits(base.to_bits());
    let e = f64::from_bits(exponent.to_bits());
    Double::from_bits(b.powf(e).to_bits())
}

fn native_linear(val: Option<u32>, max_iter: u32) -> u8 {
    match val {
        Some(val) => {
            let norm = val as f64 / max_iter as f64;
            (norm * 255.0) as u8
        }
        None => 0,
    }
}

fn native_sqrt(val: Option<u32>, x: f64, max_iter: u32) -> u8 {
    match val {
        Some(val) => {
            let norm = val as f64 / max_iter as f64;
            (norm.powf(1.0 / x) * 255.0) as u8
        }
        None => 0,
    }
}

fn native_modulo(val: Option<u32>, n: u32) -> u8 {
    match val {
        Some(val) => {
            let mod_val = val % n;
            let norm = mod_val as f64 / n as f64;
            (norm * 255.0) as u8
        }
        None => 0,
    }
}

fn sample_plane() -> (Plane, Config) {
    let config = Config::build(12, 12, 40, d(-1.0), d(1.0), d(-1.5), d(0.5)).unwrap();
    (compute_plane(&config), config)
}

#[test]
fn linear_curve_gives_the_proportion_of_255() {
    assert_eq!(translate_linear(Some(0), 100), 0);
    assert_eq!(translate_linear(Some(50), 100), 127);
    assert_eq!(translate_linear(Some(99), 100), 252);
    assert_eq!(translate_linear(Some(1), 3), 85);
    assert_eq!(translate_linear(Some(2), 3), 170);
    assert_eq!(translate_linear(Some(100), 100), 255);
    assert_eq!(translate_linear(None, 100), 0);
}

#[test]
fn linear_curve_matches_native_doubles() {
    for max_iter in [1u32, 2, 3, 7, 49, 100, 255, 256, 1000, 65536, u32::MAX] {
        for v in (0..300).chain([max_iter - 1, max_iter, max_iter / 2, u32::MAX]) {
            assert_eq!(translate_linear(Some(v), max_iter), native_linear(Some(v), max_iter));
        }
    }
    assert_eq!(translate_linear(Some(0), 0), native_linear(Some(0), 0));
    assert_eq!(translate_linear(Some(5), 0), native_linear(Some(5), 0));
}

#[test]
fn linear_curve_is_the_integer_formula() {
    for max_iter in [1u32, 2, 3, 7, 49, 100, 255, 256, 510, 1000, 65536, 255 * 1000, u32::MAX] {
        for v in (0..600).chain([max_iter - 1, max_iter, max_iter / 2, max_iter / 255, u32::MAX]) {
            let exact = std::cmp::min(255, 255 * v as u64 / max_iter as u64) as u8;
            assert_eq!(translate_linear(Some(v), max_iter), exact, "{} of {}", v, max_iter);
        }
    }
    // Where 255 * v is a whole multiple of the cap, rounding must not fall short.
    for k in 0..=255u32 {
        for g in [1u32, 2, 3, 7, 100, 65537, 16843009] {
            assert_eq!(translate_linear(Some(k * g), 255 * g), k as u8, "{} * {}", k, g);
        }
    }
    assert_eq!(translate_linear(Some(0), 0), 0);
    assert_eq!(translate_linear(Some(9), 0), 255);
}

#[test]
fn modulo_curve_is_the_integer_formula() {
    for n in [1u32, 2, 3, 10, 49, 255, 256, 1000, u32::MAX] {
        for v in (0..600).chain([n - 1, n, n.wrapping_add(1), u32::MAX]) {
            let exact = (255 * (v % n) as u64 / n as u64) as u8;
            assert_eq!(translate_modulo(Some(v), n), exact, "{} mod {}", v, n);
        }
    }
}

#[test]
fn modulo_curve_gives_the_proportion_of_the_period() {
    assert_eq!(translate_modulo(Some(13), 10), 76);
    assert_eq!(translate_modulo(Some(20), 10), 0);
    assert_eq!(translate_modulo(Some(9), 10), 229);
    assert_eq!(translate_modulo(Some(5), 1), 0);
    assert_eq!(translate_modulo(None, 10), 0);
}

#[test]
fn modulo_curve_matches_native_doubles() {
    for n in [1u32, 2, 3, 10, 49, 255, 1000, u32::MAX] {
        for v in (0..300).chain([n - 1, n, u32::MAX]) {
            assert_eq!(translate_modulo(Some(v), n), native_modulo(Some(v), n));
        }
    }
}

#[test]
fn root_curve_scales_the_answer_of_the_power_function() {
    assert_eq!(translate_sqrt(Some(25), d(2.0), 100, &power), 127);
    assert_eq!(translate_sqrt(Some(0), d(2.0), 100, &power), 0);
    assert_eq!(translate_sqrt(None, d(2.0), 100, &power), 0);
    for x in [0.5, 1.0, 2.0, 3.0, 10.0] {
        for v in 0..100 {
            assert_eq!(translate_sqrt(Some(v), d(x), 100, &power), native_sqrt(Some(v), x, 100));
        }
    }
}

#[test]
fn root_curve_hands_proportion_and_inverse_to_the_power_function() {
    let seen = std::cell::RefCell::new(Vec::new());
    let spy = |b: Double, e: Double| {
        seen.borrow_mut().push((f64::from_bits(b.to_bits()), f64::from_bits(e.to_bits())));
        d(0.5)
    };
    assert_eq!(translate_sqrt(Some(30), d(4.0), 120, &spy), 127);
    assert_eq!(*seen.borrow(), vec![(0.25, 0.25)]);
    assert_eq!(translate_sqrt(None, d(4.0), 120, &spy), 0);
    assert_eq!(seen.borrow().len(), 1);
}

#[test]
fn scaling_truncates_and_saturates() {
    assert_eq!(scale_to_byte(d(0.0)), 0);
    assert_eq!(scale_to_byte(d(0.5)), 127);
    assert_eq!(scale_to_byte(d(0.999)), 254);
    assert_eq!(scale_to_byte(d(1.0)), 255);
    assert_eq!(scale_to_byte(d(7.0)), 255);
    assert_eq!(scale_to_byte(d(-0.5)), 0);
    assert_eq!(scale_to_byte(d(f64::NAN)), 0);
}

#[test]
fn every_curve_is_black_where_nothing_escaped() {
    let config = Config::build(4, 4, 100, d(-1.0), d(1.0), d(-1.5), d(0.5)).unwrap();
    for curve in [ColorCurve::Linear, ColorCurve::Root(d(3.0)), ColorCurve::Modulo(10)] {
        assert_eq!(translate_iterations(None, &config, &curve, &power), 0);
    }
}

#[test]
fn curves_dispatch_on_their_kind() {
    let config = Config::build(4, 4, 100, d(-1.0), d(1.0), d(-1.5), d(0.5)).unwrap();
    for v in 0..100 {
        let val = Some(v);
        assert_eq!(translate_iterations(val, &config, &ColorCurve::Linear, &power), native_linear(val, 100));
        assert_eq!(
            translate_iterations(val, &config, &ColorCurve::Root(d(3.0)), &power),
            native_sqrt(val, 3.0, 100)
        );
        assert_eq!(
            translate_iterations(val, &config, &ColorCurve::Modulo(10), &power),
            native_modulo(val, 10)
        );
    }
}

#[test]
fn compose_paints_each_pixel_gray() {
    let (plane, config) = sample_plane();
    for curve in [ColorCurve::Linear, ColorCurve::Root(d(3.0)), ColorCurve::Modulo(10)] {
        let img = compose(&plane, &config, curve, &power);
        assert_eq!(img.dimensions(), (12, 12));
        for x in 0..12 {
            for y in 0..12 {
                let v = translate_iterations(plane.get_bin(x, y), &config, &curve, &power);
                assert_eq!(img.get_pixel(x, y), Pixel::new(v, v, v));
            }
        }
    }
}

#[test]
fn compose_layers_matches_native_doubles() {
    let (plane, config) = sample_plane();
    let layers = vec![
        Layer {
            color_multiplier: (d(1.0), d(0.0), d(0.0)),
            weight: 3,
            plane: &plane,
            config: &config,
            color_curve: ColorCurve::Linear,
        },
        Layer {
            color_multiplier: (d(0.0), d(1.0), d(0.0)),
            weight: 3,
            plane: &plane,
            config: &config,
            color_curve: ColorCurve::Root(d(3.0)),
        },
        Layer {
            color_multiplier: (d(0.3), d(0.6), d(1.0)),
            weight: 1,
            plane: &plane,
            config: &config,
            color_curve: ColorCurve::Modulo(10),
        },
    ];
    let img = compose_layers(layers, &power);
    assert_eq!(img.dimensions(), (12, 12));
    let mut lit = 0;
    for x in 0..12 {
        for y in 0..12 {
            let val = plane.get_bin(x, y);
            let native = [
                (native_linear(val, 40), (1.0, 0.0, 0.0), 3.0f64 / 7.0),
                (native_sqrt(val, 3.0, 40), (0.0, 1.0, 0.0), 3.0 / 7.0),
                (native_modulo(val, 10), (0.3, 0.6, 1.0), 1.0 / 7.0),
            ];
            let (mut r, mut g, mut b) = (0u8, 0u8, 0u8);
            for (v, m, w) in native {
                r = r.wrapping_add((v as f64 * m.0 * w) as u8);
                g = g.wrapping_add((v as f64 * m.1 * w) as u8);
                b = b.wrapping_add((v as f64 * m.2 * w) as u8);
            }
            assert_eq!(img.get_pixel(x, y), Pixel::new(r, g, b), "({}, {})", x, y);
            if r > 0 || g > 0 || b > 0 {
                lit += 1;
            }
        }
    }
    assert!(lit > 10);
}

#[test]
fn contributions_are_cut_before_they_are_added() {
    let mut plane = Plane::new(1, 1);
    plane.apply(&|_, _, _| Some(3));
    let config = Config::build(1, 1, 255, d(-1.0), d(1.0), d(-1.0), d(1.0)).unwrap();
    // Each of two equal layers adds floor(3 * 0.5) = 1: the sum is 2, not 3.
    let layer = |plane, config| Layer {
        color_multiplier: (d(1.0), d(1.0), d(1.0)),
        weight: 1,
        plane,
        config,
        color_curve: ColorCurve::Linear,
    };
    assert_eq!(translate_linear(Some(3), 255), 3);
    let img = compose_layers(vec![layer(&plane, &config), layer(&plane, &config)], &power);
    assert_eq!(img.get_pixel(0, 0), Pixel::new(2, 2, 2));
}

#[test]
fn channel_sums_wrap_around() {
    let mut plane = Plane::new(1, 1);
    plane.apply(&|_, _, _| Some(200));
    let config = Config::build(1, 1, 255, d(-1.0), d(1.0), d(-1.0), d(1.0)).unwrap();
    let layer = |plane, config| Layer {
        color_multiplier: (d(2.0), d(1.0), d(0.0)),
        weight: 1,
        plane,
        config,
        color_curve: ColorCurve::Linear,
    };
    // Red: each layer adds 200 * 2 * 0.5 = 200, and 200 + 200 wraps to 144.
    let img = compose_layers(vec![layer(&plane, &config), layer(&plane, &config)], &power);
    assert_eq!(img.get_pixel(0, 0), Pixel::new(144, 200, 0));
}

#[test]
fn one_layer_of_full_weight_is_the_plain_picture() {
    let (plane, config) = sample_plane();
    for curve in [ColorCurve::Linear, ColorCurve::Root(d(3.0)), ColorCurve::Modulo(10)] {
        let plain = compose(&plane, &config, curve, &power);
        let layers = vec![Layer {
            color_multiplier: (d(1.0), d(1.0), d(1.0)),
            weight: 1,
            plane: &plane,
            config: &config,
            color_curve: curve,
        }];
        let blended = compose_layers(layers, &power);
        for x in 0..12 {
            for y in 0..12 {
                let p = blended.get_pixel(x, y);
                assert_eq!(p, plain.get_pixel(x, y));
                assert!(p.r == p.g && p.g == p.b);
            }
        }
    }
}

#[test]
fn shares_of_the_weights_add_up_to_one() {
    for weights in [vec![3u32, 3, 1], vec![1], vec![1, 1, 1], vec![7, 11, 13, 17], vec![1, 1000000]] {
        let total: u32 = weights.iter().sum();
        assert!(total as usize >= weights.len());
        let mut sum = Double::zero(false);
        for w in &weights {
            sum = sum.plus(Double::from_u32(*w).over(Double::from_u32(total)));
        }
        let sum = f64::from_bits(sum.to_bits());
        assert!((sum - 1.0).abs() < 1e-12, "{:?}: {}", weights, sum);
    }
}
