//! The canvas: the pixel buffer that every drawing operation works on.

use vstd::prelude::*;
use crate::color::Color;
use crate::image::Image;
use crate::point::{pixel_floor, pixel_round, Point};
use crate::raster::{lemma_index_in_range, Raster};

verus! {

/// Why a direct pixel access was refused.
#[derive(Clone, Copy, Debug, PartialEq, Eq, Structural)]
pub enum CanvasError {
    /// The coordinate lies outside the canvas.
    OutOfBounds,
}

/// A rectangular grid of colours, mutated in place by the drawing
/// operations. Its model is the [`Raster`] given by its view.
pub struct Canvas {
    pixels: Vec<Color>,
    width: usize,
    height: usize,
}

impl View for Canvas {
    type V = Raster;

    closed spec fn view(&self) -> Raster {
        Raster { width: self.width as nat, height: self.height as nat, pixels: self.pixels@ }
    }
}

impl Canvas {
    #[verifier::type_invariant]
    spec fn inv(self) -> bool {
        self.pixels@.len() == self.width * self.height
    }

    /// A canvas of the given size, every pixel white.
    pub fn new(width: usize, height: usize) -> (canvas: Canvas)
        requires
            width * height <= usize::MAX,
        ensures
            canvas@ == Raster::filled(width as nat, height as nat, Color::white()),
    {
        let n = width * height;
        let mut pixels: Vec<Color> = Vec::new();
        let mut i: usize = 0;
        while i < n
            invariant
                i <= n,
                pixels@.len() == i,
                forall|k: int| 0 <= k < i ==> pixels@[k] == Color::white(),
            decreases n - i,
        {
            pixels.push(Color::white());
            i += 1;
        }
        let canvas = Canvas { pixels, width, height };
        assert(canvas@.pixels =~= Raster::filled(width as nat, height as nat, Color::white()).pixels);
        canvas
    }

    /// A snapshot of the canvas for display: its size and its pixels, row by
    /// row.
    pub fn to_color_image(&self) -> (image: Image)
        ensures
            image@ == self@,
            self@.wf(),
    {
        proof {
            use_type_invariant(self);
        }
        let n = self.pixels.len();
        let mut pixels: Vec<Color> = Vec::new();
        let mut i: usize = 0;
        while i < n
            invariant
                i <= n,
                n == self.pixels@.len(),
                pixels@ == self.pixels@.subrange(0, i as int),
            decreases n - i,
        {
            pixels.push(self.pixels[i]);
            assert(pixels@ =~= self.pixels@.subrange(0, i + 1));
            i += 1;
        }
        assert(pixels@ =~= self.pixels@);
        Image::from_pixels(self.width, self.height, pixels)
    }

    /// Sets every pixel to `color`.
    pub fn clear(&mut self, color: Color)
        ensures
            final(self)@ == Raster::filled(old(self)@.width, old(self)@.height, color),
            final(self)@.wf(),
    {
        proof {
            use_type_invariant(&*self);
        }
        let n = self.pixels.len();
        let mut i: usize = 0;
        while i < n
            invariant
                i <= n,
                n == self.pixels@.len(),
                n == self.width * self.height,
                self.width == old(self).width,
                self.height == old(self).height,
                forall|k: int| 0 <= k < i ==> self.pixels@[k] == color,
            decreases n - i,
        {
            self.pixels[i] = color;
            i += 1;
        }
        assert(self@.pixels =~= Raster::filled(self.width as nat, self.height as nat, color).pixels);
    }

    /// The number of columns.
    pub fn width(&self) -> (w: usize)
        ensures
            w == self@.width,
            self@.wf(),
    {
        proof {
            use_type_invariant(self);
        }
        self.width
    }

    /// The number of rows.
    pub fn height(&self) -> (h: usize)
        ensures
            h == self@.height,
            self@.wf(),
    {
        proof {
            use_type_invariant(self);
        }
        self.height
    }

    /// The number of pixels.
    pub fn area(&self) -> (n: usize)
        ensures
            n == self@.width * self@.height,
            self@.wf(),
    {
        proof {
            use_type_invariant(self);
        }
        self.pixels.len()
    }

    /// The size of the canvas: width, then height.
    pub fn size(&self) -> (size: [usize; 2])
        ensures
            size[0] == self@.width,
            size[1] == self@.height,
            self@.wf(),
    {
        proof {
            use_type_invariant(self);
        }
        [self.width, self.height]
    }

    /// Whether `(x, y)` names a pixel of the canvas.
    pub fn check_bounds(&self, x: usize, y: usize) -> (inside: bool)
        ensures
            inside == self@.contains(x as int, y as int),
            self@.wf(),
    {
        proof {
            use_type_invariant(self);
        }
        x < self.width && y < self.height
    }

    /// The pixel that contains the point `p`, or `None` when `p` lies outside
    /// the canvas.
    pub fn locate(&self, p: Point) -> (cell: Option<(usize, usize)>)
        ensures
            self@.wf(),
            match cell {
                Some((x, y)) => self@.contains(x as int, y as int) && (x as int, y as int) == p.cell(),
                None => !self@.contains(p.cell().0, p.cell().1),
            },
    {
        proof {
            use_type_invariant(self);
        }
        let x = pixel_floor(p.x);
        let y = pixel_floor(p.y);
        if x >= 0 && y >= 0 && (x as usize) < self.width && (y as usize) < self.height {
            Some((x as usize, y as usize))
        } else {
            None
        }
    }

    /// The pixel nearest to `p`, or `None` when that pixel lies outside the
    /// canvas.
    pub fn locate_nearest(&self, p: Point) -> (cell: Option<(usize, usize)>)
        ensures
            self@.wf(),
            match cell {
                Some((x, y)) => self@.contains(x as int, y as int) && (x as int, y as int) == p.nearest(),
                None => !self@.contains(p.nearest().0, p.nearest().1),
            },
    {
        proof {
            use_type_invariant(self);
        }
        let x = pixel_round(p.x);
        let y = pixel_round(p.y);
        if x >= 0 && y >= 0 && (x as usize) < self.width && (y as usize) < self.height {
            Some((x as usize, y as usize))
        } else {
            None
        }
    }

    /// The colour of a pixel that is known to lie on the canvas.
    pub(crate) fn pixel(&self, x: usize, y: usize) -> (c: Color)
        requires
            self@.contains(x as int, y as int),
        ensures
            c == self@.at(x as int, y as int),
    {
        let len = self.pixels.len();
        proof {
            use_type_invariant(self);
            lemma_index_in_range(self.width as nat, self.height as nat, x as int, y as int);
            assert(0 <= y * self.width <= y * self.width + x < len);
        }
        self.pixels[y * self.width + x]
    }

    /// Overwrites a pixel that is known to lie on the canvas.
    pub(crate) fn put(&mut self, x: usize, y: usize, color: Color)
        requires
            old(self)@.contains(x as int, y as int),
        ensures
            final(self)@ == old(self)@.with(x as int, y as int, color),
            final(self)@.wf(),
    {
        let len = self.pixels.len();
        proof {
            use_type_invariant(&*self);
            lemma_index_in_range(self.width as nat, self.height as nat, x as int, y as int);
            assert(0 <= y * self.width <= y * self.width + x < len);
        }
        let i = y * self.width + x;
        self.pixels[i] = color;
    }

    /// The colour at `(x, y)`, or `OutOfBounds` when the coordinate lies
    /// outside the canvas.
    pub fn get(&self, x: usize, y: usize) -> (res: Result<Color, CanvasError>)
        ensures
            self@.contains(x as int, y as int) ==> res == Ok::<Color, CanvasError>(
                self@.at(x as int, y as int),
            ),
            !self@.contains(x as int, y as int) ==> res == Err::<Color, CanvasError>(
                CanvasError::OutOfBounds,
            ),
    {
        if self.check_bounds(x, y) {
            Ok(self.pixel(x, y))
        } else {
            Err(CanvasError::OutOfBounds)
        }
    }

    /// Sets the pixel at `(x, y)` to `color`, or refuses with `OutOfBounds`,
    /// leaving the canvas as it was, when the coordinate lies outside it.
    pub fn set(&mut self, x: usize, y: usize, color: Color) -> (res: Result<(), CanvasError>)
        ensures
            old(self)@.contains(x as int, y as int) ==> res.is_ok() && final(self)@ == old(self)@.with(
                x as int,
                y as int,
                color,
            ),
            !old(self)@.contains(x as int, y as int) ==> res == Err::<(), CanvasError>(
                CanvasError::OutOfBounds,
            ) && final(self)@ == old(self)@,
            final(self)@.wf(),
    {
        if self.check_bounds(x, y) {
            self.put(x, y, color);
            Ok(())
        } else {
            Err(CanvasError::OutOfBounds)
        }
    }
}

impl Default for Canvas {
    /// The canvas without pixels.
    fn default() -> (canvas: Canvas)
        ensures
            canvas@ == Raster::filled(0, 0, Color::white()),
    {
        Canvas::new(0, 0)
    }
}

} // verus!
