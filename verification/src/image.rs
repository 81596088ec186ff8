//! Read-only colour images: the pattern of a pattern fill and the snapshot
//! that a canvas exports.

use vstd::prelude::*;
use crate::color::Color;
use crate::raster::{lemma_index_in_range, Raster};

verus! {

/// An image in memory: a rectangular grid of colours, row by row.
pub struct Image {
    pixels: Vec<Color>,
    width: usize,
    height: usize,
}

impl View for Image {
    type V = Raster;

    closed spec fn view(&self) -> Raster {
        Raster { width: self.width as nat, height: self.height as nat, pixels: self.pixels@ }
    }
}

impl Image {
    #[verifier::type_invariant]
    spec fn inv(self) -> bool {
        self.pixels@.len() == self.width * self.height
    }

    /// The image of the given size with the given pixels, row by row, or
    /// `None` when their number is not `width * height`.
    pub fn new(width: usize, height: usize, pixels: Vec<Color>) -> (image: Option<Image>)
        ensures
            match image {
                Some(image) => image@ == (Raster {
                    width: width as nat,
                    height: height as nat,
                    pixels: pixels@,
                }) && image@.wf(),
                None => pixels@.len() != width * height,
            },
    {
        let len = pixels.len();
        match width.checked_mul(height) {
            Some(n) => {
                if n == len {
                    Some(Image { pixels, width, height })
                } else {
                    None
                }
            },
            None => None,
        }
    }

    /// The image of the given size with the given pixels, of which there is
    /// one for each pixel of that size.
    pub(crate) fn from_pixels(width: usize, height: usize, pixels: Vec<Color>) -> (image: Image)
        requires
            pixels@.len() == width * height,
        ensures
            image@ == (Raster { width: width as nat, height: height as nat, pixels: pixels@ }),
            image@.wf(),
    {
        Image { pixels, width, height }
    }

    /// The image without pixels.
    pub fn empty() -> (image: Image)
        ensures
            image@ == (Raster { width: 0, height: 0, pixels: Seq::empty() }),
            image@.wf(),
    {
        Image { pixels: Vec::new(), width: 0, height: 0 }
    }

    /// The number of columns.
    pub fn width(&self) -> (w: usize)
        ensures
            w == self@.width,
            self@.wf(),
    {
        proof {
            use_type_invariant(self);
        }
        self.width
    }

    /// The number of rows.
    pub fn height(&self) -> (h: usize)
        ensures
            h == self@.height,
            self@.wf(),
    {
        proof {
            use_type_invariant(self);
        }
        self.height
    }

    /// The colour at `(x, y)`, or `None` when the coordinate lies outside
    /// the image.
    pub fn get(&self, x: usize, y: usize) -> (c: Option<Color>)
        ensures
            self@.contains(x as int, y as int) ==> c == Some(self@.at(x as int, y as int)),
            !self@.contains(x as int, y as int) ==> c.is_none(),
    {
        if x < self.width && y < self.height {
            Some(self.pixel(x, y))
        } else {
            None
        }
    }

    /// The colour of a pixel that is known to lie on the image.
    pub(crate) fn pixel(&self, x: usize, y: usize) -> (c: Color)
        requires
            self@.contains(x as int, y as int),
        ensures
            c == self@.at(x as int, y as int),
    {
        let len = self.pixels.len();
        proof {
            use_type_invariant(self);
            lemma_index_in_range(self.width as nat, self.height as nat, x as int, y as int);
            assert(0 <= y * self.width <= y * self.width + x < len);
        }
        self.pixels[y * self.width + x]
    }

    /// The pixels, row by row.
    pub fn pixels(&self) -> (pixels: &Vec<Color>)
        ensures
            pixels@ == self@.pixels,
            self@.wf(),
    {
        proof {
            use_type_invariant(self);
        }
        &self.pixels
    }
}

} // verus!
