//! Turning escape times into colours: three transfer curves, a picture of
//! one curve, and a weighted blend of several layers.
//!
//! The root curve raises a number to a power. No power function is part of
//! this library: the caller hands one in, and the contracts say what is
//! handed to it and what is made of its answer.
use crate::arith::{product, quotient};
use crate::binary64::{Double, Value};
use crate::convert::{lemma_saturating_of_nat, lemma_small_constants, of_nat, saturating};
use crate::identities::{lemma_one_over_one, lemma_times_one};
use crate::mandelbrot::{Config, Plane};
use crate::powers::{lemma_pow2_le, lemma_pow2_values};
use crate::proportion::{
    lemma_of_nat_normal, lemma_proportion, lemma_quotient_of_nats, proportion_byte,
};
use crate::renderer::{Image, Pixel};
use crate::rounding::{lemma_round_well_formed, round};
use vstd::arithmetic::power2::{lemma_pow2_adds, lemma_pow2_pos, pow2};
use vstd::prelude::*;

verus! {

/// How an escape time becomes an intensity.
#[derive(Clone, Copy, Debug)]
pub enum ColorCurve {
    /// In proportion to the escape time.
    Linear,
    /// The proportion raised to one over the given exponent.
    Root(Double),
    /// In proportion to the escape time's remainder by the given period.
    Modulo(u32),
}

/// One contribution to a blended picture.
pub struct Layer<'a> {
    pub color_curve: ColorCurve,
    pub color_multiplier: (Double, Double, Double),
    pub weight: u32,
    pub plane: &'a Plane,
    pub config: &'a Config,
}

/// A proportion scaled to `0..=255`: times 255, the fraction dropped.
pub open spec fn to_intensity(norm: Value) -> u8 {
    saturating(product(norm, of_nat(255)), 255) as u8
}

/// The proportion `a / b` scaled to `0..=255`: `255 * a / b` without its
/// fraction, and 255 where that is more. Where `b` is zero, it is 255 for a
/// positive `a` and 0 for zero.
pub open spec fn ratio_byte(a: u32, b: u32) -> u8 {
    if b == 0 {
        if a == 0 {
            0
        } else {
            255
        }
    } else {
        proportion_byte(a as nat, b as nat) as u8
    }
}

/// The intensity of the linear curve: nothing for a cell that did not
/// escape, else the escape time's proportion of the cap.
pub open spec fn linear_intensity(val: Option<u32>, max_iter: u32) -> u8 {
    match val {
        Some(v) => ratio_byte(v, max_iter),
        None => 0,
    }
}

/// The intensity of the modulo curve: nothing for a cell that did not
/// escape, else the proportion that the escape time's remainder by `n` has
/// of `n`.
pub open spec fn modulo_intensity(val: Option<u32>, n: u32) -> u8 {
    match val {
        Some(v) => ratio_byte((v % n) as u32, n),
        None => 0,
    }
}

/// Dividing in binary64, scaling by 255 and dropping the fraction gives the
/// byte of integer arithmetic: no rounding on the way carries the result
/// over a whole number.
pub proof fn lemma_ratio_byte(a: u32, b: u32)
    ensures
        to_intensity(quotient(of_nat(a as nat), of_nat(b as nat))) == ratio_byte(a, b),
{
    lemma_small_constants();
    if b > 0 {
        lemma_proportion(a as nat, b as nat);
    } else {
        reveal(round);
        assert(of_nat(0) == Value::zero(false));
        if a > 0 {
            lemma_of_nat_normal(a as nat);
        }
    }
}

/// The base that the root curve hands to the power function: the escape
/// time's proportion of the cap.
pub open spec fn root_base(v: u32, max_iter: u32) -> Double {
    Double::of(quotient(of_nat(v as nat), of_nat(max_iter as nat)))
}

/// The exponent that the root curve hands to the power function: one over
/// the curve's parameter.
pub open spec fn root_exponent(x: Double) -> Double {
    Double::of(quotient(of_nat(1), x@))
}

/// Whether a power function takes every pair of numbers.
pub open spec fn accepts_all<F: Fn(Double, Double) -> Double>(pow: &F) -> bool {
    forall|a: Double, b: Double| call_requires(*pow, (a, b))
}

/// Whether `out` is an intensity of the root curve: nothing for a cell that
/// did not escape, else what some answer of the power function scales to.
pub open spec fn root_intensity<F: Fn(Double, Double) -> Double>(
    pow: &F,
    val: Option<u32>,
    x: Double,
    max_iter: u32,
    out: u8,
) -> bool {
    match val {
        Some(v) => exists|p: Double|
            call_ensures(*pow, (root_base(v, max_iter), root_exponent(x)), p) && out
                == to_intensity(p@),
        None => out == 0,
    }
}

/// Whether `out` is an intensity of the curve for the cell.
pub open spec fn intensity_of<F: Fn(Double, Double) -> Double>(
    pow: &F,
    curve: ColorCurve,
    val: Option<u32>,
    max_iter: u32,
    out: u8,
) -> bool {
    match curve {
        ColorCurve::Linear => out == linear_intensity(val, max_iter),
        ColorCurve::Root(x) => root_intensity(pow, val, x, max_iter, out),
        ColorCurve::Modulo(n) => out == modulo_intensity(val, n),
    }
}

/// Whether a curve can be evaluated: a modulo curve needs a period.
pub open spec fn usable(curve: ColorCurve) -> bool {
    curve matches ColorCurve::Modulo(n) ==> n > 0
}

/// A cell that did not escape is black under every curve.
pub proof fn lemma_unescaped_is_black<F: Fn(Double, Double) -> Double>(
    pow: &F,
    curve: ColorCurve,
    max_iter: u32,
    out: u8,
)
    requires
        intensity_of(pow, curve, None, max_iter, out),
    ensures
        out == 0,
{
}

/// Whether `p` is a gray pixel of the curve's intensity for the cell.
pub open spec fn gray_pixel_of<F: Fn(Double, Double) -> Double>(
    pow: &F,
    curve: ColorCurve,
    val: Option<u32>,
    max_iter: u32,
    p: Pixel,
) -> bool {
    p.r == p.g && p.g == p.b && intensity_of(pow, curve, val, max_iter, p.r)
}

/// The sum of the weights of the first `n` layers.
pub open spec fn weight_sum(layers: Seq<Layer>, n: nat) -> nat
    decreases n,
{
    if n == 0 {
        0
    } else {
        weight_sum(layers, (n - 1) as nat) + layers[n - 1].weight as nat
    }
}

/// The sum of all weights.
pub open spec fn total_weight(layers: Seq<Layer>) -> nat {
    weight_sum(layers, layers.len())
}

/// The part of the whole that a weight has.
pub open spec fn share(weight: u32, total: u32) -> Value {
    quotient(of_nat(weight as nat), of_nat(total as nat))
}

/// What a layer adds to one channel: its intensity times the channel's
/// multiplier times the layer's share, cut down to a byte.
pub open spec fn contribution(v: u8, multiplier: Value, part: Value) -> u8 {
    saturating(product(product(of_nat(v as nat), multiplier), part), 255) as u8
}

/// The sum of two bytes, wrapping around at 256.
pub open spec fn wrapping_sum(a: u8, b: u8) -> u8 {
    ((a + b) % 256) as u8
}

/// The blend of the first `n` layers, given each layer's intensity: in each
/// channel the wrapping sum of the layers' contributions, each cut down to a
/// byte before it is added.
pub open spec fn mix(layers: Seq<Layer>, vals: Seq<u8>, total: u32, n: nat) -> Pixel
    decreases n,
{
    if n == 0 {
        Pixel { r: 0, g: 0, b: 0 }
    } else {
        let below = mix(layers, vals, total, (n - 1) as nat);
        let layer = layers[n - 1];
        let part = share(layer.weight, total);
        Pixel {
            r: wrapping_sum(below.r, contribution(vals[n - 1], layer.color_multiplier.0@, part)),
            g: wrapping_sum(below.g, contribution(vals[n - 1], layer.color_multiplier.1@, part)),
            b: wrapping_sum(below.b, contribution(vals[n - 1], layer.color_multiplier.2@, part)),
        }
    }
}

/// Whether `vals` holds, for each of the first `n` layers, an intensity of
/// its curve for its cell `(x, y)`.
pub open spec fn intensities_of<F: Fn(Double, Double) -> Double>(
    pow: &F,
    layers: Seq<Layer>,
    x: int,
    y: int,
    vals: Seq<u8>,
    n: nat,
) -> bool {
    &&& vals.len() == n
    &&& forall|i: int|
        0 <= i < n ==> intensity_of(
            pow,
            layers[i].color_curve,
            layers[i].plane.cell(x, y),
            layers[i].config.max_iter,
            #[trigger] vals[i],
        )
}

/// Whether `p` is a blend of all layers at `(x, y)`.
pub open spec fn mixed_pixel_of<F: Fn(Double, Double) -> Double>(
    pow: &F,
    layers: Seq<Layer>,
    x: int,
    y: int,
    p: Pixel,
) -> bool {
    exists|vals: Seq<u8>|
        intensities_of(pow, layers, x, y, vals, layers.len()) && p == mix(
            layers,
            vals,
            total_weight(layers) as u32,
            layers.len(),
        )
}

/// Whether every layer can be drawn on the grid of the first layer's
/// configuration: its plane covers the grid and its curve is usable.
pub open spec fn layers_fit(layers: Seq<Layer>) -> bool {
    forall|i: int|
        0 <= i < layers.len() ==> {
            &&& layers[0].config.width <= (#[trigger] layers[i]).plane.width()
            &&& layers[0].config.height <= layers[i].plane.height()
            &&& usable(layers[i].color_curve)
        }
}

/// The weights of more layers sum to no less.
pub proof fn lemma_weight_sum_grows(layers: Seq<Layer>, i: nat, j: nat)
    requires
        i <= j,
    ensures
        weight_sum(layers, i) <= weight_sum(layers, j),
    decreases j,
{
    if i < j {
        lemma_weight_sum_grows(layers, i, (j - 1) as nat);
    }
}

/// Layers of weight one or more weigh at least as much as they are many.
pub proof fn lemma_weight_sum_counts(layers: Seq<Layer>, n: nat)
    requires
        n <= layers.len(),
        forall|i: int| 0 <= i < n ==> (#[trigger] layers[i]).weight >= 1,
    ensures
        weight_sum(layers, n) >= n,
    decreases n,
{
    if n > 0 {
        lemma_weight_sum_counts(layers, (n - 1) as nat);
    }
}

/// The value of a share, counted in units of `2^-90`.
pub open spec fn share_units(weight: u32, total: u32) -> nat {
    match share(weight, total) {
        Value::Fin { mant, exp, .. } => mant * pow2((exp + 90) as nat),
        _ => 0,
    }
}

/// The exact sum of the shares of the first `n` layers, in units of `2^-90`.
pub open spec fn share_sum(layers: Seq<Layer>, total: u32, n: nat) -> nat
    decreases n,
{
    if n == 0 {
        0
    } else {
        share_sum(layers, total, (n - 1) as nat) + share_units(layers[n - 1].weight, total)
    }
}

/// The share of a positive weight differs from the exact fraction
/// `weight / total` by at most `2^-53`: in units of `2^-90`, times `total`,
/// by at most `total * 2^37`.
proof fn lemma_share_error(weight: u32, total: u32)
    requires
        1 <= weight <= total,
    ensures
        share_units(weight, total) * total - weight * pow2(90) <= total * pow2(37),
        weight * pow2(90) - share_units(weight, total) * total <= total * pow2(37),
{
    lemma_quotient_of_nats(weight as nat, total as nat);
    match share(weight, total) {
        Value::Fin { mant, exp, .. } => {
            let c = pow2((-exp) as nat);
            let up = pow2((exp + 90) as nat);
            lemma_pow2_pos((-exp) as nat);
            lemma_pow2_pos((exp + 90) as nat);
            lemma_pow2_values();
            // The share is at most one, so its last place is at most 2^-52.
            assert(mant <= c) by (nonlinear_arith)
                requires
                    2 * (mant * total - weight * c) <= total,
                    1 <= weight <= total,
                    c > 0,
                    mant >= 0,
            ;
            if exp > -52 {
                lemma_pow2_le((-exp) as nat, 51);
                lemma_pow2_adds(51, 1);
            }
            assert(exp <= -52);
            lemma_pow2_le((exp + 90) as nat, 38);
            lemma_pow2_adds(37, 1);
            lemma_pow2_adds((-exp) as nat, (exp + 90) as nat);
            let units = mant * up;
            assert(2 * (units * total - weight * pow2(90)) <= total * up && 2 * (weight * pow2(90)
                - units * total) <= total * up) by (nonlinear_arith)
                requires
                    units == mant * up,
                    pow2(90) == c * up,
                    2 * (mant * total - weight * c) <= total,
                    2 * (weight * c - mant * total) <= total,
                    up > 0,
            ;
            assert(total * up <= 2 * (total * pow2(37))) by (nonlinear_arith)
                requires
                    up <= pow2(38),
                    pow2(38) == pow2(37) * pow2(1),
                    pow2(1) == 2,
                    total >= 0,
            ;
        },
        _ => {},
    }
}

/// The shares of the layers stay as close to their exact fractions as they
/// are many: each adds an error of at most `2^-53`.
proof fn lemma_share_sum_error(layers: Seq<Layer>, total: u32, n: nat)
    requires
        n <= layers.len(),
        forall|i: int| 0 <= i < n ==> 1 <= (#[trigger] layers[i]).weight <= total,
    ensures
        share_sum(layers, total, n) * total - weight_sum(layers, n) * pow2(90) <= n * (total
            * pow2(37)),
        weight_sum(layers, n) * pow2(90) - share_sum(layers, total, n) * total <= n * (total
            * pow2(37)),
    decreases n,
{
    let slack = total * pow2(37);
    if n == 0 {
        assert(0 * total == 0 && 0 * pow2(90) == 0 && 0 * slack == 0);
    } else {
        let rest = (n - 1) as nat;
        lemma_share_sum_error(layers, total, rest);
        let w = layers[n - 1].weight;
        lemma_share_error(w, total);
        let s0 = share_sum(layers, total, rest);
        let u = share_units(w, total);
        let w0 = weight_sum(layers, rest);
        assert((s0 + u) * total == s0 * total + u * total) by (nonlinear_arith);
        assert((w0 + w) * pow2(90) == w0 * pow2(90) + w * pow2(90)) by (nonlinear_arith);
        assert(n * slack == rest * slack + slack) by (nonlinear_arith)
            requires
                n == rest + 1,
        ;
    }
}

/// The shares of the weights add up to one within the tolerance of their
/// rounding: where every weight is at least one, the exact sum of the
/// shares, in units of `2^-90`, differs from `2^90` by at most `2^37` for
/// each layer, which is `2^-53` of one.
pub proof fn lemma_shares_sum_to_one(layers: Seq<Layer>)
    requires
        layers.len() > 0,
        forall|i: int| 0 <= i < layers.len() ==> (#[trigger] layers[i]).weight >= 1,
        total_weight(layers) <= u32::MAX,
    ensures
        share_sum(layers, total_weight(layers) as u32, layers.len()) <= pow2(90) + layers.len()
            * pow2(37),
        pow2(90) <= share_sum(layers, total_weight(layers) as u32, layers.len()) + layers.len()
            * pow2(37),
{
    let n = layers.len();
    let total = total_weight(layers) as u32;
    assert forall|i: int| 0 <= i < n implies 1 <= (#[trigger] layers[i]).weight <= total by {
        lemma_weight_sum_grows(layers, (i + 1) as nat, n);
        lemma_weight_sum_grows(layers, 0, i as nat);
    }
    lemma_share_sum_error(layers, total, n);
    let s = share_sum(layers, total, n);
    let slack = n * pow2(37);
    assert(n * (total * pow2(37)) == slack * total) by (nonlinear_arith)
        requires
            slack == n * pow2(37),
    ;
    assert(total >= 1);
    assert((s - pow2(90) - slack) * total <= 0 * total && (pow2(90) - s - slack) * total <= 0
        * total) by (nonlinear_arith)
        requires
            s * total - total * pow2(90) <= slack * total,
            total * pow2(90) - s * total <= slack * total,
    ;
    lemma_cancel_total(s - pow2(90) - slack, 0, total as int);
    lemma_cancel_total(pow2(90) - s - slack, 0, total as int);
}

/// Dividing both sides of an inequality by a positive factor.
proof fn lemma_cancel_total(a: int, b: int, c: int)
    by (nonlinear_arith)
    requires
        0 < c,
        a * c <= b * c,
    ensures
        a <= b,
{
}

/// A blend depends on the intensities of the layers that it blends only.
pub proof fn lemma_mix_agrees(layers: Seq<Layer>, a: Seq<u8>, b: Seq<u8>, total: u32, n: nat)
    requires
        forall|i: int| 0 <= i < n ==> a[i] == b[i],
    ensures
        mix(layers, a, total, n) == mix(layers, b, total, n),
    decreases n,
{
    if n > 0 {
        lemma_mix_agrees(layers, a, b, total, (n - 1) as nat);
    }
}

/// With multiplier one and the whole weight, a layer adds its intensity
/// unchanged.
pub proof fn lemma_full_contribution(v: u8)
    ensures
        contribution(v, of_nat(1), share(1, 1)) == v,
{
    lemma_one_over_one();
    reveal(round);
    lemma_round_well_formed(false, v as nat, 0);
    lemma_times_one(of_nat(v as nat));
    lemma_saturating_of_nat(v as nat, 255);
}

/// A single layer with multiplier one in every channel and weight one
/// blends to the picture of its plane under its curve alone: the pixels that
/// the blend can give at a place are the gray pixels that the plain
/// composition can give there.
pub proof fn lemma_single_layer<F: Fn(Double, Double) -> Double>(
    pow: &F,
    layers: Seq<Layer>,
    x: int,
    y: int,
    p: Pixel,
)
    requires
        layers.len() == 1,
        layers[0].weight == 1,
        layers[0].color_multiplier.0@ == of_nat(1),
        layers[0].color_multiplier.1@ == of_nat(1),
        layers[0].color_multiplier.2@ == of_nat(1),
    ensures
        mixed_pixel_of(pow, layers, x, y, p) <==> gray_pixel_of(
            pow,
            layers[0].color_curve,
            layers[0].plane.cell(x, y),
            layers[0].config.max_iter,
            p,
        ),
{
    reveal_with_fuel(weight_sum, 2);
    reveal_with_fuel(mix, 2);
    assert(total_weight(layers) == 1);
    assert forall|vals: Seq<u8>| vals.len() == 1 implies #[trigger] mix(layers, vals, 1, 1) == (Pixel {
        r: vals[0],
        g: vals[0],
        b: vals[0],
    }) by {
        lemma_full_contribution(vals[0]);
    }
    if mixed_pixel_of(pow, layers, x, y, p) {
        let vals = choose|vals: Seq<u8>|
            intensities_of(pow, layers, x, y, vals, layers.len()) && p == mix(
                layers,
                vals,
                total_weight(layers) as u32,
                layers.len(),
            );
        assert(p == mix(layers, vals, 1, 1));
        assert(intensity_of(
            pow,
            layers[0].color_curve,
            layers[0].plane.cell(x, y),
            layers[0].config.max_iter,
            vals[0],
        ));
    }
    if gray_pixel_of(
        pow,
        layers[0].color_curve,
        layers[0].plane.cell(x, y),
        layers[0].config.max_iter,
        p,
    ) {
        let vals = seq![p.r];
        assert(vals[0] == p.r);
        assert(p == mix(layers, vals, 1, 1));
        assert(intensities_of(pow, layers, x, y, vals, layers.len()));
    }
}

/// A proportion scaled to `0..=255`.
pub fn scale_to_byte(norm: Double) -> (r: u8)
    ensures
        r == to_intensity(norm@),
{
    norm.times(Double::byte_max()).to_u8()
}

/// The intensity of the linear curve. It is computed in binary64: the
/// escape time over the cap, times 255, the fraction dropped.
pub fn translate_linear(val: Option<u32>, max_iter: u32) -> (r: u8)
    ensures
        r == linear_intensity(val, max_iter),
        val is None ==> r == 0,
{
    match val {
        Some(v) => {
            proof {
                lemma_ratio_byte(v, max_iter);
            }
            let norm = Double::from_u32(v).over(Double::from_u32(max_iter));
            scale_to_byte(norm)
        },
        None => 0,
    }
}

/// The intensity of the root curve with parameter `x`, by the power function
/// `pow`.
pub fn translate_sqrt<F: Fn(Double, Double) -> Double>(
    val: Option<u32>,
    x: Double,
    max_iter: u32,
    pow: &F,
) -> (r: u8)
    requires
        accepts_all(pow),
    ensures
        root_intensity(pow, val, x, max_iter, r),
        val is None ==> r == 0,
{
    match val {
        Some(v) => {
            let norm = Double::from_u32(v).over(Double::from_u32(max_iter));
            let inverse = Double::one().over(x);
            let power = pow(norm, inverse);
            scale_to_byte(power)
        },
        None => 0,
    }
}

/// The intensity of the modulo curve with period `n`. It is computed in
/// binary64: the remainder over the period, times 255, the fraction dropped.
pub fn translate_modulo(val: Option<u32>, n: u32) -> (r: u8)
    requires
        n > 0,
    ensures
        r == modulo_intensity(val, n),
        val is None ==> r == 0,
{
    match val {
        Some(v) => {
            let mod_val = v % n;
            proof {
                lemma_ratio_byte(mod_val, n);
            }
            let norm = Double::from_u32(mod_val).over(Double::from_u32(n));
            scale_to_byte(norm)
        },
        None => 0,
    }
}

/// The intensity of a curve for a cell of a plane computed under `config`.
pub fn translate_iterations<F: Fn(Double, Double) -> Double>(
    val: Option<u32>,
    config: &Config,
    curve: &ColorCurve,
    pow: &F,
) -> (r: u8)
    requires
        usable(*curve),
        accepts_all(pow),
    ensures
        intensity_of(pow, *curve, val, config.max_iter, r),
        val is None ==> r == 0,
{
    match curve {
        ColorCurve::Linear => translate_linear(val, config.max_iter),
        ColorCurve::Root(x) => translate_sqrt(val, *x, config.max_iter, pow),
        ColorCurve::Modulo(n) => translate_modulo(val, *n),
    }
}

/// What a layer of intensity `v` adds to a channel.
fn contribute(v: u8, multiplier: Double, part: Double) -> (r: u8)
    ensures
        r == contribution(v, multiplier@, part@),
{
    Double::from_u32(v as u32).times(multiplier).times(part).to_u8()
}

/// The sum of two bytes, wrapping around at 256.
fn wrapping(a: u8, b: u8) -> (r: u8)
    ensures
        r == wrapping_sum(a, b),
{
    ((a as u16 + b as u16) % 256) as u8
}

/// The sum of all weights.
fn sum_weights(layers: &Vec<Layer>) -> (total: u32)
    requires
        total_weight(layers@) <= u32::MAX,
    ensures
        total == total_weight(layers@),
{
    let mut total: u32 = 0;
    let mut i: usize = 0;
    while i < layers.len()
        invariant
            i <= layers.len(),
            total == weight_sum(layers@, i as nat),
            total_weight(layers@) <= u32::MAX,
        decreases layers.len() - i,
    {
        proof {
            lemma_weight_sum_grows(layers@, (i + 1) as nat, layers@.len());
        }
        total = total + layers[i].weight;
        i = i + 1;
    }
    total
}

/// The blend of all layers at pixel `(x, y)`.
fn mix_pixel<F: Fn(Double, Double) -> Double>(
    layers: &Vec<Layer>,
    total: u32,
    x: u32,
    y: u32,
    pow: &F,
) -> (p: Pixel)
    requires
        layers.len() > 0,
        layers_fit(layers@),
        accepts_all(pow),
        x < layers[0].config.width,
        y < layers[0].config.height,
    ensures
        exists|vals: Seq<u8>|
            intensities_of(pow, layers@, x as int, y as int, vals, layers@.len()) && p == mix(
                layers@,
                vals,
                total,
                layers@.len(),
            ),
{
    let mut r: u8 = 0;
    let mut g: u8 = 0;
    let mut b: u8 = 0;
    let ghost mut vals: Seq<u8> = Seq::empty();
    let mut i: usize = 0;
    while i < layers.len()
        invariant
            i <= layers.len(),
            layers.len() > 0,
            layers_fit(layers@),
            accepts_all(pow),
            x < layers[0].config.width,
            y < layers[0].config.height,
            intensities_of(pow, layers@, x as int, y as int, vals, i as nat),
            (Pixel { r, g, b }) == mix(layers@, vals, total, i as nat),
        decreases layers.len() - i,
    {
        let layer = &layers[i];
        let part = Double::from_u32(layer.weight).over(Double::from_u32(total));
        let val = layer.plane.get_bin(x, y);
        let v = translate_iterations(val, layer.config, &layer.color_curve, pow);
        proof {
            lemma_mix_agrees(layers@, vals, vals.push(v), total, i as nat);
            vals = vals.push(v);
        }
        r = wrapping(r, contribute(v, layer.color_multiplier.0, part));
        g = wrapping(g, contribute(v, layer.color_multiplier.1, part));
        b = wrapping(b, contribute(v, layer.color_multiplier.2, part));
        i = i + 1;
    }
    Pixel::new(r, g, b)
}

/// The picture of one plane under one curve: every pixel gray, all three
/// channels at the curve's intensity for the pixel's cell.
pub fn compose<F: Fn(Double, Double) -> Double>(
    plane: &Plane,
    config: &Config,
    curve: ColorCurve,
    pow: &F,
) -> (img: Image)
    requires
        config.width <= plane.width(),
        config.height <= plane.height(),
        config.width * config.height <= usize::MAX,
        usable(curve),
        accepts_all(pow),
    ensures
        img.width() == config.width,
        img.height() == config.height,
        forall|x: u32, y: u32|
            x < config.width && y < config.height ==> gray_pixel_of(
                pow,
                curve,
                plane.cell(x as int, y as int),
                config.max_iter,
                #[trigger] img.pixel(x as int, y as int),
            ),
{
    let (width, height) = config.get_size();
    let mut img = Image::new(width as usize, height as usize);
    let mut x: u32 = 0;
    while x < width
        invariant
            x <= width,
            width == config.width,
            height == config.height,
            config.width <= plane.width(),
            config.height <= plane.height(),
            usable(curve),
            accepts_all(pow),
            img.width() == width,
            img.height() == height,
            forall|i: u32, j: u32|
                i < x && j < height ==> gray_pixel_of(
                    pow,
                    curve,
                    plane.cell(i as int, j as int),
                    config.max_iter,
                    #[trigger] img.pixel(i as int, j as int),
                ),
        decreases width - x,
    {
        let mut y: u32 = 0;
        while y < height
            invariant
                y <= height,
                x < width,
                width == config.width,
                height == config.height,
                config.width <= plane.width(),
                config.height <= plane.height(),
                usable(curve),
                accepts_all(pow),
                img.width() == width,
                img.height() == height,
                forall|i: u32, j: u32|
                    (i < x && j < height) || (i == x && j < y) ==> gray_pixel_of(
                        pow,
                        curve,
                        plane.cell(i as int, j as int),
                        config.max_iter,
                        #[trigger] img.pixel(i as int, j as int),
                    ),
            decreases height - y,
        {
            let val = plane.get_bin(x, y);
            let val = translate_iterations(val, config, &curve, pow);
            let pixel = Pixel::new(val, val, val);
            img.set_pixel(x, y, pixel);
            y = y + 1;
        }
        x = x + 1;
    }
    img
}

/// The blend of several layers on the grid of the first layer's
/// configuration.
pub fn compose_layers<F: Fn(Double, Double) -> Double>(layers: Vec<Layer>, pow: &F) -> (img: Image)
    requires
        layers.len() > 0,
        layers_fit(layers@),
        total_weight(layers@) <= u32::MAX,
        layers[0].config.width * layers[0].config.height <= usize::MAX,
        accepts_all(pow),
    ensures
        img.width() == layers[0].config.width,
        img.height() == layers[0].config.height,
        forall|x: u32, y: u32|
            x < layers[0].config.width && y < layers[0].config.height ==> mixed_pixel_of(
                pow,
                layers@,
                x as int,
                y as int,
                #[trigger] img.pixel(x as int, y as int),
            ),
{
    let (width, height) = layers[0].config.get_size();
    let mut img = Image::new(width as usize, height as usize);
    let total: u32 = sum_weights(&layers);
    let mut x: u32 = 0;
    while x < width
        invariant
            x <= width,
            layers.len() > 0,
            layers_fit(layers@),
            accepts_all(pow),
            width == layers[0].config.width,
            height == layers[0].config.height,
            total == total_weight(layers@),
            img.width() == width,
            img.height() == height,
            forall|i: u32, j: u32|
                i < x && j < height ==> mixed_pixel_of(
                    pow,
                    layers@,
                    i as int,
                    j as int,
                    #[trigger] img.pixel(i as int, j as int),
                ),
        decreases width - x,
    {
        let mut y: u32 = 0;
        while y < height
            invariant
                y <= height,
                x < width,
                layers.len() > 0,
                layers_fit(layers@),
                accepts_all(pow),
                width == layers[0].config.width,
                height == layers[0].config.height,
                total == total_weight(layers@),
                img.width() == width,
                img.height() == height,
                forall|i: u32, j: u32|
                    (i < x && j < height) || (i == x && j < y) ==> mixed_pixel_of(
                        pow,
                        layers@,
                        i as int,
                        j as int,
                        #[trigger] img.pixel(i as int, j as int),
                    ),
            decreases height - y,
        {
            let pixel = mix_pixel(&layers, total, x, y, pow);
            img.set_pixel(x, y, pixel);
            y = y + 1;
        }
        x = x + 1;
    }
    img
}

} // verus!
