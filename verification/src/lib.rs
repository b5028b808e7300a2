//! Escape-time pictures of the Mandelbrot set.
//!
//! A [`mandelbrot::Config`] names a pixel grid and a window of the complex
//! plane; [`mandelbrot::compute_plane`] finds the escape time of every pixel;
//! [`mandelbrot_composer`] turns escape times into colours, one curve at a
//! time or as a weighted blend of layers; [`renderer::Image`] holds the
//! picture.
//!
//! All numbers of the plane are binary64. Their arithmetic is part of the
//! library: [`binary64::Double`] holds a bit pattern, and every operation on
//! it is proved to give the exact result rounded to nearest-even.
pub mod arith;
pub mod binary64;
pub mod convert;
pub mod grid;
pub mod identities;
pub mod mandelbrot;
pub mod mandelbrot_composer;
pub mod order;
pub mod powers;
pub mod proportion;
pub mod renderer;
pub mod rounding;
