//! The finished picture: a grid of RGB pixels.
use crate::grid::{lemma_offset_distinct, lemma_offset_in_range, offset};
use vstd::prelude::*;

verus! {

/// One RGB sample, eight bits per channel.
#[derive(Debug, Clone, Copy, PartialEq, Eq, Structural)]
pub struct Pixel {
    pub r: u8,
    pub g: u8,
    pub b: u8,
}

impl Pixel {
    /// The pixel with the given channels.
    pub fn new(r: u8, g: u8, b: u8) -> (p: Self)
        ensures
            p == (Pixel { r, g, b }),
    {
        Self { r, g, b }
    }
}

/// A picture of `width` columns and `height` rows. The pixels lie row after
/// row in one buffer.
pub struct Image {
    width: usize,
    height: usize,
    pixels: Vec<Pixel>,
}

impl Image {
    /// The buffer holds exactly one pixel for each place.
    #[verifier::type_invariant]
    spec fn well_formed(&self) -> bool {
        self.pixels.len() == self.width * self.height
    }

    /// The number of columns.
    pub closed spec fn width(&self) -> nat {
        self.width as nat
    }

    /// The number of rows.
    pub closed spec fn height(&self) -> nat {
        self.height as nat
    }

    /// The pixel in column `x` of row `y`.
    pub closed spec fn pixel(&self, x: int, y: int) -> Pixel {
        self.pixels[offset(x, y, self.width as int)]
    }

    /// A black picture of the given size.
    pub fn new(width: usize, height: usize) -> (img: Self)
        requires
            width * height <= usize::MAX,
        ensures
            img.width() == width,
            img.height() == height,
            forall|x: int, y: int|
                0 <= x < width && 0 <= y < height ==> #[trigger] img.pixel(x, y) == (Pixel {
                    r: 0,
                    g: 0,
                    b: 0,
                }),
    {
        let total: usize = width * height;
        let mut pixels: Vec<Pixel> = Vec::with_capacity(total);
        let mut k: usize = 0;
        while k < total
            invariant
                k <= total,
                pixels.len() == k,
                forall|i: int| 0 <= i < k ==> #[trigger] pixels[i] == (Pixel { r: 0, g: 0, b: 0 }),
            decreases total - k,
        {
            pixels.push(Pixel::new(0, 0, 0));
            k = k + 1;
        }
        let img = Self { width, height, pixels };
        assert forall|x: int, y: int| 0 <= x < width && 0 <= y < height implies #[trigger] img.pixel(
            x,
            y,
        ) == (Pixel { r: 0, g: 0, b: 0 }) by {
            lemma_offset_in_range(x, y, width as int, height as int);
        }
        img
    }

    /// Puts `pixel` in column `x` of row `y`; every other pixel stays.
    pub fn set_pixel(&mut self, x: u32, y: u32, pixel: Pixel)
        requires
            x < old(self).width(),
            y < old(self).height(),
        ensures
            final(self).width() == old(self).width(),
            final(self).height() == old(self).height(),
            final(self).pixel(x as int, y as int) == pixel,
            forall|i: int, j: int|
                0 <= i < old(self).width() && 0 <= j < old(self).height() && (i != x || j != y)
                    ==> #[trigger] final(self).pixel(i, j) == old(self).pixel(i, j),
    {
        proof {
            use_type_invariant(&*self);
            lemma_offset_in_range(x as int, y as int, self.width as int, self.height as int);
        }
        let ghost width = self.width as int;
        let k: usize = (y as usize) * self.width + (x as usize);
        self.pixels[k] = pixel;
        proof {
            assert forall|i: int, j: int|
                0 <= i < old(self).width() && 0 <= j < old(self).height() && (i != x
                    || j != y) implies #[trigger] self.pixel(i, j) == old(self).pixel(i, j) by {
                lemma_offset_distinct(i, j, x as int, y as int, width);
                lemma_offset_in_range(i, j, width, self.height as int);
            }
        }
    }

    /// The pixel in column `x` of row `y`.
    pub fn get_pixel(&self, x: u32, y: u32) -> (p: Pixel)
        requires
            x < self.width(),
            y < self.height(),
        ensures
            p == self.pixel(x as int, y as int),
    {
        proof {
            use_type_invariant(self);
            lemma_offset_in_range(x as int, y as int, self.width as int, self.height as int);
        }
        self.pixels[(y as usize) * self.width + (x as usize)]
    }

    /// The numbers of columns and rows.
    pub fn dimensions(&self) -> (size: (usize, usize))
        ensures
            size.0 == self.width(),
            size.1 == self.height(),
    {
        (self.width, self.height)
    }
}

} // verus!
