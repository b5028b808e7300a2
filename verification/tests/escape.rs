use mandelbrot::binary64::Double;
use mandelbrot::mandelbrot::{
    compute_plane, iterate, translate_to_bin, translate_to_complex, Complex, Config, Plane,
};

fn d(x: f64) -> Double {
    Double::from_bits(x.to_bits())
}

fn f(x: Double) -> f64 {
    f64::from_bits(x.to_bits())
}

fn point(re: f64, im: f64) -> Complex {
    Complex::new(d(re), d(im))
}

fn native_iterate(re: f64, im: f64, max_iter: u32) -> Option<u32> {
    let (mut zr, mut zi) = (0.0f64, 0.0f64);
    for i in 0..max_iter {
        let nr = zr * zr - zi * zi;
        let ni = zr * zi + zi * zr;
        zr = nr + re;
        zi = ni + im;
        if zr > 2.0 || zr < -2.0 || zi > 2.0 || zi < -2.0 {
            return Some(i);
        }
    }
    None
}

fn native_coordinate(k: u32, n: u32, lo: f64, hi: f64) -> f64 {
    lo + (k as f64 / (n as f64 / (hi - lo)))
}

#[test]
fn test_plane() {
    let mut plane = Plane::new(10, 10);

    plane.apply(&|bin, _, _| {
        assert_eq!(bin, None);
        bin
    });

    plane.apply(&|_, x, y| Some(x + y));

    plane.apply(&|bin, x, y| {
        assert_eq!(bin.unwrap(), (x + y));
        bin
    });
}

#[test]
fn test_translate() {
    let c1 = point(0.0, 0.0);
    let config = Config::build(100, 100, 100, d(-1.0), d(1.0), d(-1.5), d(0.5)).unwrap();

    let (x, y) = translate_to_bin(&c1, &config);
    assert_eq!(x, 75);
    assert_eq!(y, 50);
    let c2 = translate_to_complex(x, y, &config);
    assert_eq!(f(c1.re), f(c2.re));
    assert_eq!(f(c1.im), f(c2.im));
}

#[test]
fn test_iterate() {
    let converge = [point(0.0, 0.0), point(-0.12, 0.758)];

    let diverge = [point(1.0, 0.0), point(-0.812, 0.371), point(-0.812, -0.371)];

    converge.iter().for_each(|&c| {
        assert!(iterate(&c, &100).is_none());
    });

    diverge.iter().for_each(|&c| {
        assert!(iterate(&c, &100).is_some());
    });
}

#[test]
fn build_refuses_an_empty_grid() {
    let r = Config::build(0, 100, 100, d(-1.0), d(1.0), d(-1.5), d(0.5));
    assert_eq!(r.unwrap_err(), "width and height must be greater than 0");
    let r = Config::build(100, 0, 100, d(-1.0), d(1.0), d(-1.5), d(0.5));
    assert_eq!(r.unwrap_err(), "width and height must be greater than 0");
}

#[test]
fn build_refuses_a_zero_cap() {
    let r = Config::build(100, 100, 0, d(-1.0), d(1.0), d(-1.5), d(0.5));
    assert_eq!(r.unwrap_err(), "max_iter must be greater than 0");
}

#[test]
fn build_refuses_an_inverted_imaginary_range() {
    let r = Config::build(100, 100, 100, d(1.0), d(-1.0), d(-1.5), d(0.5));
    assert_eq!(r.unwrap_err(), "i_min must be less than i_max");
    let r = Config::build(100, 100, 100, d(1.0), d(1.0), d(-1.5), d(0.5));
    assert_eq!(r.unwrap_err(), "i_min must be less than i_max");
}

#[test]
fn build_refuses_an_inverted_real_range() {
    let r = Config::build(100, 100, 100, d(-1.0), d(1.0), d(0.5), d(-1.5));
    assert_eq!(r.unwrap_err(), "r_min must be less than r_max");
    let r = Config::build(100, 100, 100, d(-1.0), d(1.0), d(0.5), d(0.5));
    assert_eq!(r.unwrap_err(), "r_min must be less than r_max");
}

#[test]
fn build_reports_the_first_fault() {
    let r = Config::build(0, 0, 0, d(1.0), d(-1.0), d(0.5), d(-1.5));
    assert_eq!(r.unwrap_err(), "width and height must be greater than 0");
    let r = Config::build(1, 1, 0, d(1.0), d(-1.0), d(0.5), d(-1.5));
    assert_eq!(r.unwrap_err(), "max_iter must be greater than 0");
    let r = Config::build(1, 1, 1, d(1.0), d(-1.0), d(0.5), d(-1.5));
    assert_eq!(r.unwrap_err(), "i_min must be less than i_max");
}

#[test]
fn build_keeps_what_it_is_given() {
    let c = Config::build(640, 480, 77, d(-1.0), d(1.0), d(-1.5), d(0.5)).unwrap();
    assert_eq!(c.get_size(), (640, 480));
    assert_eq!(c.max_iter, 77);
    assert_eq!(f(c.i_min), -1.0);
    assert_eq!(f(c.i_max), 1.0);
    assert_eq!(f(c.r_min), -1.5);
    assert_eq!(f(c.r_max), 0.5);
}

#[test]
fn build_with_pos_centres_the_window() {
    let c = Config::build_with_pos(1000, 1000, 100, point(-0.5, 0.0), d(1.0));
    assert_eq!(c.get_size(), (1000, 1000));
    assert_eq!(c.max_iter, 100);
    assert_eq!(f(c.r_min), -1.5);
    assert_eq!(f(c.r_max), 0.5);
    assert_eq!(f(c.i_min), -1.0);
    assert_eq!(f(c.i_max), 1.0);
    let c = Config::build_with_pos(10, 10, 5, point(0.3, -0.7), d(3.0));
    assert_eq!(f(c.r_min), 0.3 - 1.0 / 3.0);
    assert_eq!(f(c.r_max), 0.3 + 1.0 / 3.0);
    assert_eq!(f(c.i_min), -0.7 - 1.0 / 3.0);
    assert_eq!(f(c.i_max), -0.7 + 1.0 / 3.0);
}

#[test]
fn build_with_pos_validates_nothing() {
    let c = Config::build_with_pos(0, 0, 0, point(0.0, 0.0), d(0.0));
    assert_eq!(c.get_size(), (0, 0));
    assert_eq!(f(c.r_min), f64::NEG_INFINITY);
    assert_eq!(f(c.r_max), f64::INFINITY);
}

#[test]
fn pixel_75_50_is_the_origin_and_does_not_escape() {
    let config = Config::build(100, 100, 100, d(-1.0), d(1.0), d(-1.5), d(0.5)).unwrap();
    let c = translate_to_complex(75, 50, &config);
    assert_eq!(c.re.to_bits(), 0.0f64.to_bits());
    assert_eq!(c.im.to_bits(), 0.0f64.to_bits());
    assert_eq!(iterate(&c, &config.max_iter), None);
}

#[test]
fn coordinates_match_native_doubles() {
    let config = Config::build(100, 37, 100, d(-1.25), d(0.75), d(-1.5), d(0.5)).unwrap();
    for x in 0..100 {
        for y in 0..37 {
            let c = translate_to_complex(x, y, &config);
            assert_eq!(f(c.re), native_coordinate(x, 100, -1.5, 0.5));
            assert_eq!(f(c.im), native_coordinate(y, 37, -1.25, 0.75));
            let (bx, by) = translate_to_bin(&c, &config);
            let native_x = ((f(c.re) - -1.5) * (100.0 / (0.5 - -1.5))) as u32;
            let native_y = ((f(c.im) - -1.25) * (37.0 / (0.75 - -1.25))) as u32;
            assert_eq!((bx, by), (native_x, native_y));
        }
    }
}

#[test]
fn round_trip_holds_at_the_centre_and_fails_where_rounding_bites() {
    let config = Config::build(100, 100, 100, d(-1.0), d(1.0), d(-1.5), d(0.5)).unwrap();
    let there = translate_to_complex(75, 50, &config);
    assert_eq!(translate_to_bin(&there, &config), (75, 50));
    // Pixel 8 maps to a coordinate that maps back to pixel 7.
    let there = translate_to_complex(8, 50, &config);
    assert_eq!(translate_to_bin(&there, &config), (7, 50));
}

#[test]
fn escape_times_match_native_doubles() {
    let samples = [
        (0.0, 0.0),
        (-0.12, 0.758),
        (1.0, 0.0),
        (-0.812, 0.371),
        (-0.812, -0.371),
        (0.3, 0.5),
        (-1.75, 0.0),
        (-2.0, 0.0),
        (2.0, 2.0),
        (3.0, 0.0),
        (0.0, -2.5),
        (-0.75, 0.1),
        (0.25, 0.0),
        (0.26, 0.0),
        (-0.1, 0.651),
    ];
    for (re, im) in samples {
        for cap in [0u32, 1, 2, 10, 100, 500] {
            assert_eq!(iterate(&point(re, im), &cap), native_iterate(re, im, cap), "{} {} {}", re, im, cap);
        }
    }
}

#[test]
fn escape_time_counts_the_steps_before_the_escape() {
    // (3, 0): the very first step lands outside the square.
    assert_eq!(iterate(&point(3.0, 0.0), &100), Some(0));
    // (1, 0): z goes 1, 2, 5; the third step is the first beyond two.
    assert_eq!(iterate(&point(1.0, 0.0), &100), Some(2));
    // With a cap of two the third step is never taken.
    assert_eq!(iterate(&point(1.0, 0.0), &2), None);
    assert_eq!(iterate(&point(1.0, 0.0), &3), Some(2));
    // A cap of zero takes no step at all.
    assert_eq!(iterate(&point(3.0, 0.0), &0), None);
    // Not-a-number is never beyond anything.
    assert_eq!(iterate(&point(f64::NAN, 0.0), &50), None);
}

#[test]
fn the_square_reaches_further_than_the_circle() {
    // |z| = 2.2 > 2 after the first step, but both coordinates are within two.
    let c = point(1.6, 1.5);
    assert_eq!(iterate(&c, &1), None);
}

#[test]
fn new_plane_has_no_escapes() {
    let plane = Plane::new(7, 3);
    for x in 0..7 {
        for y in 0..3 {
            assert_eq!(plane.get_bin(x, y), None);
        }
    }
}

#[test]
fn apply_hands_each_cell_its_column_and_row() {
    let mut plane = Plane::new(5, 3);
    plane.apply(&|_, x, y| Some(10 * y + x));
    for x in 0..5 {
        for y in 0..3 {
            assert_eq!(plane.get_bin(x, y), Some(10 * y + x));
        }
    }
    plane.apply(&|bin, _, _| bin.map(|v| v + 1));
    assert_eq!(plane.get_bin(4, 2), Some(25));
    assert_eq!(plane.get_bin(0, 0), Some(1));
}

#[test]
fn compute_plane_matches_native_doubles() {
    let config = Config::build(40, 24, 60, d(-1.0), d(1.0), d(-1.5), d(0.5)).unwrap();
    let plane = compute_plane(&config);
    let mut escaped = 0;
    for x in 0..40 {
        for y in 0..24 {
            let re = native_coordinate(x, 40, -1.5, 0.5);
            let im = native_coordinate(y, 24, -1.0, 1.0);
            let expected = native_iterate(re, im, 60);
            assert_eq!(plane.get_bin(x, y), expected, "({}, {})", x, y);
            if expected.is_some() {
                escaped += 1;
            }
        }
    }
    assert!(escaped > 100 && escaped < 40 * 24);
}
