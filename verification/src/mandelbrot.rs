//! The view onto the complex plane and the escape-time computation.
use crate::arith::{
    difference, finite_sum, lemma_results_well_formed, lower, product, quotient, signed, sum,
};
use crate::binary64::{Double, Value};
use crate::convert::{lemma_saturating_of_nat, of_nat, saturating};
use crate::grid::{lemma_offset_distinct, lemma_offset_in_range, offset};
use crate::order::{at_least, less};
use crate::powers::{lemma_div_lt, lemma_pow2_values};
use crate::rounding::{lemma_round_fixed, lemma_round_same_value, lemma_round_scale, round};
use vstd::arithmetic::power2::{lemma_pow2_adds, lemma_pow2_pos, pow2};
use vstd::prelude::*;

verus! {

/// A complex number in binary64 coordinates.
#[derive(Clone, Copy, Debug)]
pub struct Complex {
    pub re: Double,
    pub im: Double,
}

/// What a [`Complex`] stands for.
pub struct ComplexValue {
    pub re: Value,
    pub im: Value,
}

impl View for Complex {
    type V = ComplexValue;

    open spec fn view(&self) -> ComplexValue {
        ComplexValue { re: self.re@, im: self.im@ }
    }
}

/// The pixel grid, the iteration cap and the window of the plane that the
/// grid shows.
#[derive(Clone, Copy, Debug)]
pub struct Config {
    pub width: u32,
    pub height: u32,
    pub max_iter: u32,
    pub i_min: Double,
    pub i_max: Double,
    pub r_min: Double,
    pub r_max: Double,
}

/// Why a configuration is refused, if it is: an empty grid, no iterations, or
/// a window whose lower bound is not below its upper bound, looked at in
/// this order.
pub open spec fn build_failure(
    width: u32,
    height: u32,
    max_iter: u32,
    i_min: Value,
    i_max: Value,
    r_min: Value,
    r_max: Value,
) -> Option<&'static str> {
    if width < 1 || height < 1 {
        Some("width and height must be greater than 0")
    } else if max_iter < 1 {
        Some("max_iter must be greater than 0")
    } else if at_least(i_min, i_max) {
        Some("i_min must be less than i_max")
    } else if at_least(r_min, r_max) {
        Some("r_min must be less than r_max")
    } else {
        None
    }
}

/// How many pixels lie on one unit of an axis that shows `lo..hi` in `n`
/// pixels.
pub open spec fn bins_per_unit(n: u32, lo: Value, hi: Value) -> Value {
    quotient(of_nat(n as nat), difference(hi, lo))
}

/// The coordinate of pixel `k` on an axis that shows `lo..hi` in `n` pixels.
pub open spec fn coordinate(k: u32, n: u32, lo: Value, hi: Value) -> Value {
    sum(lo, quotient(of_nat(k as nat), bins_per_unit(n, lo, hi)))
}

/// The pixel that holds coordinate `c` on an axis that shows `lo..hi` in `n`
/// pixels.
pub open spec fn bin_of(c: Value, n: u32, lo: Value, hi: Value) -> nat {
    saturating(product(difference(c, lo), bins_per_unit(n, lo, hi)), u32::MAX as nat)
}

/// Whether `m1 * 2^e1` and `m2 * 2^e2` are the same magnitude.
pub open spec fn same_magnitude(m1: nat, e1: int, m2: nat, e2: int) -> bool {
    &&& e1 <= e2 ==> m1 == m2 * pow2((e2 - e1) as nat)
    &&& e2 <= e1 ==> m2 == m1 * pow2((e1 - e2) as nat)
}

/// Whether the coordinate of pixel `k` is reached without rounding: the
/// pixels per unit are a positive number, dividing `k` by them gives a
/// number that times them is `k` again, and adding that number to the lower
/// bound gives their sum exactly.
pub open spec fn exact_coordinate(k: u32, n: u32, lo: Value, hi: Value) -> bool {
    let bins = bins_per_unit(n, lo, hi);
    let step = quotient(of_nat(k as nat), bins);
    let place = coordinate(k, n, lo, hi);
    &&& bins matches Value::Fin { neg: nb, mant: mb, exp: eb }
    &&& step matches Value::Fin { neg: ns, mant: ms, exp: es }
    &&& lo matches Value::Fin { neg: nl, mant: ml, exp: el }
    &&& place matches Value::Fin { neg: np, mant: mp, exp: ep }
    &&& !nb
    &&& !ns
    &&& same_magnitude(ms * mb, es + eb, k as nat, 0)
    &&& {
        let base = lower(lower(el, es), ep);
        signed(np, mp * pow2((ep - base) as nat)) == signed(nl, ml * pow2((el - base) as nat))
            + signed(ns, ms * pow2((es - base) as nat))
    }
}

/// Where the coordinate of a pixel is reached without rounding, the
/// coordinate leads back to the pixel. (Where rounding takes part it need
/// not: the way back may end one pixel lower.)
pub proof fn lemma_round_trip_where_exact(k: u32, n: u32, lo: Value, hi: Value)
    requires
        exact_coordinate(k, n, lo, hi),
    ensures
        bin_of(coordinate(k, n, lo, hi), n, lo, hi) == k,
{
    let bins = bins_per_unit(n, lo, hi);
    let step = quotient(of_nat(k as nat), bins);
    let place = coordinate(k, n, lo, hi);
    lemma_results_well_formed(of_nat(k as nat), bins);
    lemma_pow2_values();
    match (bins, step, lo, place) {
        (
            Value::Fin { mant: mb, exp: eb, .. },
            Value::Fin { mant: ms, exp: es, .. },
            Value::Fin { neg: nl, mant: ml, exp: el },
            Value::Fin { neg: np, mant: mp, exp: ep },
        ) => {
            let base = lower(lower(el, es), ep);
            let e = lower(ep, el);
            let back = difference(place, lo);
            let total = signed(np, mp * pow2((ep - e) as nat)) + signed(
                !nl,
                ml * pow2((el - e) as nat),
            );
            assert(back == finite_sum(np, mp, ep, !nl, ml, el));
            // The way back finds the step again.
            let fine = pow2((e - base) as nat);
            lemma_pow2_pos((e - base) as nat);
            lemma_pow2_adds((ep - e) as nat, (e - base) as nat);
            lemma_pow2_adds((el - e) as nat, (e - base) as nat);
            let step_units = ms * pow2((es - base) as nat);
            assert(total * fine == step_units) by (nonlinear_arith)
                requires
                    total == signed(np, mp * pow2((ep - e) as nat)) + signed(
                        !nl,
                        ml * pow2((el - e) as nat),
                    ),
                    pow2((ep - base) as nat) == pow2((ep - e) as nat) * fine,
                    pow2((el - base) as nat) == pow2((el - e) as nat) * fine,
                    signed(np, mp * pow2((ep - base) as nat)) == signed(
                        nl,
                        ml * pow2((el - base) as nat),
                    ) + step_units,
            ;
            if ms == 0 {
                assert(step_units == 0) by (nonlinear_arith)
                    requires
                        step_units == ms * pow2((es - base) as nat),
                        ms == 0,
                ;
                assert(total == 0) by (nonlinear_arith)
                    requires
                        total * fine == 0,
                        fine > 0,
                ;
                assert(ms * mb == 0) by (nonlinear_arith)
                    requires
                        ms == 0,
                ;
                if es + eb <= 0 {
                    lemma_pow2_pos((0 - (es + eb)) as nat);
                    assert(k == 0) by (nonlinear_arith)
                        requires
                            0 == k * pow2((0 - (es + eb)) as nat),
                            pow2((0 - (es + eb)) as nat) > 0,
                            k >= 0,
                    ;
                } else {
                    assert(0 * pow2((es + eb) as nat) == 0);
                }
                reveal(round);
                assert(back.negative() ==> product(back, bins) == Value::zero(true));
                assert(0nat * mb == 0);
                lemma_pow2_pos(1074);
                lemma_div_lt(0, pow2(1074) as int, 1);
            } else {
                lemma_pow2_pos((es - base) as nat);
                assert(step_units > 0) by (nonlinear_arith)
                    requires
                        step_units == ms * pow2((es - base) as nat),
                        ms > 0,
                        pow2((es - base) as nat) > 0,
                ;
                assert(total > 0) by (nonlinear_arith)
                    requires
                        total * fine == step_units,
                        step_units > 0,
                        fine > 0,
                ;
                assert(back == round(false, total as nat, e));
                lemma_round_scale(false, total as nat, e, (e - base) as nat);
                lemma_round_scale(false, ms, es, (es - base) as nat);
                lemma_round_fixed(false, ms, es);
                assert(back == step);
                lemma_round_same_value(false, ms * mb, es + eb, k as nat, 0);
                lemma_saturating_of_nat(k as nat, u32::MAX as nat);
            }
        },
        _ => {},
    }
}

/// One step of the iteration, `z * z + c`: the complex product by its four
/// real products, then the sum, each operation rounded.
#[verifier::opaque]
pub open spec fn step(z: ComplexValue, c: ComplexValue) -> ComplexValue {
    let re = difference(product(z.re, z.re), product(z.im, z.im));
    let im = sum(product(z.re, z.im), product(z.im, z.re));
    ComplexValue { re: sum(re, c.re), im: sum(im, c.im) }
}

/// The point that the iteration has reached after `n` steps from zero.
pub open spec fn orbit(c: ComplexValue, n: nat) -> ComplexValue
    decreases n,
{
    if n == 0 {
        ComplexValue { re: Value::zero(false), im: Value::zero(false) }
    } else {
        step(orbit(c, (n - 1) as nat), c)
    }
}

/// Whether a point has left the square of half-width two around the origin.
#[verifier::opaque]
pub open spec fn outside(z: ComplexValue) -> bool {
    ||| less(of_nat(2), z.re)
    ||| less(z.re, of_nat(2).negated())
    ||| less(of_nat(2), z.im)
    ||| less(z.im, of_nat(2).negated())
}

/// Whether the step with index `i`, counted from zero, leaves the square.
#[verifier::opaque]
pub open spec fn escapes_at(c: ComplexValue, i: nat) -> bool {
    outside(orbit(c, i + 1))
}

/// The first index from `from` on, below `max_iter`, at which the iteration
/// leaves the square; `None` where there is none.
pub open spec fn first_escape(c: ComplexValue, from: nat, max_iter: nat) -> Option<nat>
    decreases max_iter - from,
{
    if from >= max_iter {
        None
    } else if escapes_at(c, from) {
        Some(from)
    } else {
        first_escape(c, from + 1, max_iter)
    }
}

/// The escape time of `c`: the index of the first step that leaves the
/// square, or `None` where no step below `max_iter` does.
pub open spec fn escape_time(c: ComplexValue, max_iter: u32) -> Option<u32> {
    match first_escape(c, 0, max_iter as nat) {
        Some(i) => Some(i as u32),
        None => None,
    }
}

/// What the first escape is: an index below the cap at which the iteration
/// leaves the square and before which it does not; and where there is none,
/// no index from `from` on below the cap leaves it.
pub proof fn lemma_first_escape(c: ComplexValue, from: nat, max_iter: nat)
    ensures
        match first_escape(c, from, max_iter) {
            Some(i) => from <= i < max_iter && escapes_at(c, i) && forall|j: nat|
                from <= j < i ==> !escapes_at(c, j),
            None => forall|j: nat| from <= j < max_iter ==> !escapes_at(c, j),
        },
    decreases max_iter - from,
{
    if from < max_iter && !escapes_at(c, from) {
        lemma_first_escape(c, from + 1, max_iter);
    }
}

impl Complex {
    /// The number `re + im * i`.
    pub fn new(re: Double, im: Double) -> (c: Complex)
        ensures
            c == (Complex { re, im }),
    {
        Complex { re, im }
    }

    /// `self * self + c`.
    pub fn square_plus(self, c: &Complex) -> (r: Complex)
        ensures
            r@ == step(self@, c@),
            r.re.is_canonical(),
            r.im.is_canonical(),
    {
        proof {
            reveal(step);
        }
        let re = self.re.times(self.re).minus(self.im.times(self.im));
        let im = self.re.times(self.im).plus(self.im.times(self.re));
        Complex { re: re.plus(c.re), im: im.plus(c.im) }
    }

    /// Whether the number lies outside the square of half-width two.
    pub fn is_outside(&self) -> (b: bool)
        ensures
            b == outside(self@),
    {
        proof {
            reveal(outside);
        }
        let two = Double::two();
        let minus_two = two.neg();
        self.re.gt(two) || self.re.lt(minus_two) || self.im.gt(two) || self.im.lt(minus_two)
    }
}

impl Config {
    /// A configuration with the given grid, cap and window, or the reason
    /// why there is none.
    pub fn build(
        width: u32,
        height: u32,
        max_iter: u32,
        i_min: Double,
        i_max: Double,
        r_min: Double,
        r_max: Double,
    ) -> (r: Result<Config, &'static str>)
        ensures
            match build_failure(width, height, max_iter, i_min@, i_max@, r_min@, r_max@) {
                Some(reason) => r == Err::<Config, &'static str>(reason),
                None => r == Ok::<Config, &'static str>(
                    Config { width, height, max_iter, i_min, i_max, r_min, r_max },
                ),
            },
    {
        if width < 1 || height < 1 {
            return Err("width and height must be greater than 0");
        }
        if max_iter < 1 {
            return Err("max_iter must be greater than 0");
        }
        if i_min.ge(i_max) {
            return Err("i_min must be less than i_max");
        }
        if r_min.ge(r_max) {
            return Err("r_min must be less than r_max");
        }
        Ok(Config { width, height, max_iter, i_min, i_max, r_min, r_max })
    }

    /// The grid's width and height.
    pub fn get_size(&self) -> (size: (u32, u32))
        ensures
            size == (self.width, self.height),
    {
        (self.width, self.height)
    }

    /// A configuration whose window is centred on `center` and reaches
    /// `1 / zoom` to each side. Nothing is validated.
    pub fn build_with_pos(
        width: u32,
        height: u32,
        max_iter: u32,
        center: Complex,
        zoom: Double,
    ) -> (c: Config)
        ensures
            c == (Config {
                width,
                height,
                max_iter,
                i_min: Double::of(difference(center.im@, quotient(of_nat(1), zoom@))),
                i_max: Double::of(sum(center.im@, quotient(of_nat(1), zoom@))),
                r_min: Double::of(difference(center.re@, quotient(of_nat(1), zoom@))),
                r_max: Double::of(sum(center.re@, quotient(of_nat(1), zoom@))),
            }),
    {
        let r_min = center.re.minus(Double::one().over(zoom));
        let r_max = center.re.plus(Double::one().over(zoom));
        let i_min = center.im.minus(Double::one().over(zoom));
        let i_max = center.im.plus(Double::one().over(zoom));
        Config { width, height, max_iter, i_min, i_max, r_min, r_max }
    }

    /// Pixels per unit of the real axis.
    fn bins_per_r_unit(&self) -> (r: Double)
        ensures
            r@ == bins_per_unit(self.width, self.r_min@, self.r_max@),
    {
        Double::from_u32(self.width).over(self.r_max.minus(self.r_min))
    }

    /// Pixels per unit of the imaginary axis.
    fn bins_per_i_unit(&self) -> (r: Double)
        ensures
            r@ == bins_per_unit(self.height, self.i_min@, self.i_max@),
    {
        Double::from_u32(self.height).over(self.i_max.minus(self.i_min))
    }
}

/// The point of the plane that pixel `(x, y)` shows.
pub fn translate_to_complex(x: u32, y: u32, config: &Config) -> (c: Complex)
    ensures
        c.re == Double::of(coordinate(x, config.width, config.r_min@, config.r_max@)),
        c.im == Double::of(coordinate(y, config.height, config.i_min@, config.i_max@)),
        c@.re == coordinate(x, config.width, config.r_min@, config.r_max@),
        c@.im == coordinate(y, config.height, config.i_min@, config.i_max@),
{
    let r = config.r_min.plus(Double::from_u32(x).over(config.bins_per_r_unit()));
    let i = config.i_min.plus(Double::from_u32(y).over(config.bins_per_i_unit()));
    Complex { re: r, im: i }
}

/// The pixel that shows the point `c`; a point outside the `u32` range goes
/// to the nearer end.
pub fn translate_to_bin(c: &Complex, config: &Config) -> (bin: (u32, u32))
    ensures
        bin.0 == bin_of(c@.re, config.width, config.r_min@, config.r_max@),
        bin.1 == bin_of(c@.im, config.height, config.i_min@, config.i_max@),
{
    let x = c.re.minus(config.r_min).times(config.bins_per_r_unit()).to_u32();
    let y = c.im.minus(config.i_min).times(config.bins_per_i_unit()).to_u32();
    (x, y)
}

/// The escape time of `c` under at most `max_iter` steps of `z * z + c` from
/// zero: the index of the first step after which a coordinate of `z` lies
/// beyond two in absolute value.
pub fn iterate(c: &Complex, max_iter: &u32) -> (r: Option<u32>)
    ensures
        r == escape_time(c@, *max_iter),
        match r {
            Some(i) => i < *max_iter && escapes_at(c@, i as nat) && forall|j: nat|
                j < i ==> !escapes_at(c@, j),
            None => forall|j: nat| j < *max_iter ==> !escapes_at(c@, j),
        },
{
    let mut z = Complex { re: Double::zero(false), im: Double::zero(false) };
    let mut i: u32 = 0;
    while i < *max_iter
        invariant
            i <= *max_iter,
            z@ == orbit(c@, i as nat),
            first_escape(c@, 0, *max_iter as nat) == first_escape(c@, i as nat, *max_iter as nat),
        decreases *max_iter - i,
    {
        z = z.square_plus(c);
        proof {
            reveal(escapes_at);
        }
        if z.is_outside() {
            proof {
                lemma_first_escape(c@, 0, *max_iter as nat);
            }
            return Some(i);
        }
        i = i + 1;
    }
    proof {
        lemma_first_escape(c@, 0, *max_iter as nat);
    }
    None
}

/// The escape time of the point that pixel `(x, y)` of a configuration shows.
pub open spec fn pixel_escape_time(config: Config, x: u32, y: u32) -> Option<u32> {
    escape_time(
        ComplexValue {
            re: coordinate(x, config.width, config.r_min@, config.r_max@),
            im: coordinate(y, config.height, config.i_min@, config.i_max@),
        },
        config.max_iter,
    )
}

/// A grid of escape times, one cell for each pixel: the index of the step
/// that escaped, or `None` where none did. The cells lie row after row in
/// one buffer.
pub struct Plane {
    width: u32,
    height: u32,
    bins: Vec<Option<u32>>,
}

impl Plane {
    /// The buffer holds exactly one cell for each pixel.
    #[verifier::type_invariant]
    spec fn well_formed(&self) -> bool {
        self.bins.len() == self.width * self.height
    }

    /// The number of columns.
    pub closed spec fn width(&self) -> nat {
        self.width as nat
    }

    /// The number of rows.
    pub closed spec fn height(&self) -> nat {
        self.height as nat
    }

    /// The cell in column `x` of row `y`.
    pub closed spec fn cell(&self, x: int, y: int) -> Option<u32> {
        self.bins[offset(x, y, self.width as int)]
    }

    /// A grid of `width` columns and `height` rows in which no cell has
    /// escaped.
    pub fn new(width: u32, height: u32) -> (plane: Plane)
        requires
            width * height <= usize::MAX,
        ensures
            plane.width() == width,
            plane.height() == height,
            forall|x: int, y: int|
                0 <= x < width && 0 <= y < height ==> #[trigger] plane.cell(x, y) == None::<u32>,
    {
        let total: usize = (width as usize) * (height as usize);
        let mut bins: Vec<Option<u32>> = Vec::new();
        let mut k: usize = 0;
        while k < total
            invariant
                k <= total,
                bins.len() == k,
                forall|i: int| 0 <= i < k ==> #[trigger] bins[i] == None::<u32>,
            decreases total - k,
        {
            bins.push(None);
            k = k + 1;
        }
        let plane = Plane { width, height, bins };
        assert forall|x: int, y: int| 0 <= x < width && 0 <= y < height implies #[trigger] plane.cell(
            x,
            y,
        ) == None::<u32> by {
            lemma_offset_in_range(x, y, width as int, height as int);
        }
        plane
    }

    /// Replaces every cell by what `callback` makes of it and of its column
    /// and row.
    pub fn apply<F: Fn(Option<u32>, u32, u32) -> Option<u32>>(&mut self, callback: &F)
        requires
            forall|x: u32, y: u32|
                x < old(self).width() && y < old(self).height() ==> call_requires(
                    *callback,
                    (#[trigger] old(self).cell(x as int, y as int), x, y),
                ),
        ensures
            final(self).width() == old(self).width(),
            final(self).height() == old(self).height(),
            forall|x: u32, y: u32|
                x < old(self).width() && y < old(self).height() ==> call_ensures(
                    *callback,
                    (old(self).cell(x as int, y as int), x, y),
                    #[trigger] final(self).cell(x as int, y as int),
                ),
    {
        proof {
            use_type_invariant(&*self);
        }
        let ghost before = self.bins@;
        let width = self.width;
        let height = self.height;
        proof {
            assert forall|i: u32, j: u32| i < width && j < height implies call_requires(
                *callback,
                (#[trigger] before[offset(i as int, j as int, width as int)], i, j),
            ) by {
                assert(old(self).cell(i as int, j as int) == before[offset(
                    i as int,
                    j as int,
                    width as int,
                )]);
            }
        }
        let mut y: u32 = 0;
        while y < height
            invariant
                y <= height,
                self.width == width,
                self.height == height,
                self.bins.len() == width * height,
                before.len() == width * height,
                forall|i: u32, j: u32|
                    i < width && j < height ==> call_requires(
                        *callback,
                        (#[trigger] before[offset(i as int, j as int, width as int)], i, j),
                    ),
                forall|i: u32, j: u32|
                    i < width && j < y ==> call_ensures(
                        *callback,
                        (before[offset(i as int, j as int, width as int)], i, j),
                        #[trigger] self.bins[offset(i as int, j as int, width as int)],
                    ),
                forall|k: int|
                    offset(0, y as int, width as int) <= k < width * height ==> #[trigger] self.bins[k]
                        == before[k],
            decreases height - y,
        {
            let mut x: u32 = 0;
            while x < width
                invariant
                    x <= width,
                    y < height,
                    self.width == width,
                    self.height == height,
                    self.bins.len() == width * height,
                    before.len() == width * height,
                    forall|i: u32, j: u32|
                        i < width && j < height ==> call_requires(
                            *callback,
                            (#[trigger] before[offset(i as int, j as int, width as int)], i, j),
                        ),
                    forall|i: u32, j: u32|
                        i < width && j < y ==> call_ensures(
                            *callback,
                            (before[offset(i as int, j as int, width as int)], i, j),
                            #[trigger] self.bins[offset(i as int, j as int, width as int)],
                        ),
                    forall|i: u32|
                        i < x ==> call_ensures(
                            *callback,
                            (before[offset(i as int, y as int, width as int)], i, y),
                            #[trigger] self.bins[offset(i as int, y as int, width as int)],
                        ),
                    forall|k: int|
                        offset(x as int, y as int, width as int) <= k < width * height
                            ==> #[trigger] self.bins[k] == before[k],
                decreases width - x,
            {
                proof {
                    lemma_offset_in_range(x as int, y as int, width as int, height as int);
                }
                let k: usize = (y as usize) * (width as usize) + (x as usize);
                let ghost earlier = self.bins@;
                let old_value = self.bins[k];
                let new_value = callback(old_value, x, y);
                self.bins[k] = new_value;
                proof {
                    assert forall|i: u32, j: u32| i < width && j < y implies call_ensures(
                        *callback,
                        (before[offset(i as int, j as int, width as int)], i, j),
                        #[trigger] self.bins[offset(i as int, j as int, width as int)],
                    ) by {
                        lemma_offset_distinct(i as int, j as int, x as int, y as int, width as int);
                        lemma_offset_in_range(i as int, j as int, width as int, height as int);
                        assert(self.bins[offset(i as int, j as int, width as int)]
                            == earlier[offset(i as int, j as int, width as int)]);
                    }
                    assert forall|i: u32| i < x + 1 implies call_ensures(
                        *callback,
                        (before[offset(i as int, y as int, width as int)], i, y),
                        #[trigger] self.bins[offset(i as int, y as int, width as int)],
                    ) by {
                        if i < x {
                            lemma_offset_distinct(i as int, y as int, x as int, y as int, width as int);
                            lemma_offset_in_range(i as int, y as int, width as int, height as int);
                            assert(self.bins[offset(i as int, y as int, width as int)]
                                == earlier[offset(i as int, y as int, width as int)]);
                        }
                    }
                }
                x = x + 1;
            }
            proof {
                assert(offset(width as int, y as int, width as int) == offset(
                    0,
                    y + 1,
                    width as int,
                )) by (nonlinear_arith);
            }
            y = y + 1;
        }
        proof {
            assert forall|i: u32, j: u32| i < width && j < height implies call_ensures(
                *callback,
                (old(self).cell(i as int, j as int), i, j),
                #[trigger] self.cell(i as int, j as int),
            ) by {
                assert(call_ensures(
                    *callback,
                    (before[offset(i as int, j as int, width as int)], i, j),
                    self.bins[offset(i as int, j as int, width as int)],
                ));
            }
        }
    }

    /// The numbers of columns and rows.
    pub fn get_size(&self) -> (size: (u32, u32))
        ensures
            size.0 == self.width(),
            size.1 == self.height(),
    {
        (self.width, self.height)
    }

    /// The cell in column `x` of row `y`.
    pub fn get_bin(&self, x: u32, y: u32) -> (r: Option<u32>)
        requires
            x < self.width(),
            y < self.height(),
        ensures
            r == self.cell(x as int, y as int),
    {
        proof {
            use_type_invariant(self);
            lemma_offset_in_range(x as int, y as int, self.width as int, self.height as int);
        }
        self.bins[(y as usize) * (self.width as usize) + (x as usize)]
    }
}

/// The escape times of all pixels of a configuration.
pub fn compute_plane(config: &Config) -> (plane: Plane)
    requires
        config.width * config.height <= usize::MAX,
    ensures
        plane.width() == config.width,
        plane.height() == config.height,
        forall|x: u32, y: u32|
            x < config.width && y < config.height ==> #[trigger] plane.cell(x as int, y as int)
                == pixel_escape_time(*config, x, y),
{
    let mut plane = Plane::new(config.width, config.height);
    let callback = |bin: Option<u32>, x: u32, y: u32| -> (r: Option<u32>)
        ensures
            r == pixel_escape_time(*config, x, y),
        {
            let c = translate_to_complex(x, y, config);
            iterate(&c, &config.max_iter)
        };
    plane.apply(&callback);
    plane
}

} // verus!
