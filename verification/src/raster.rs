//! The mathematical model of a pixel grid, and the arithmetic of its
//! row-major layout.

use vstd::prelude::*;
use crate::color::Color;

verus! {

/// A rectangular grid of colours, stored row by row: the pixel at column `x`
/// of row `y` stands at index `y * width + x`.
pub struct Raster {
    pub width: nat,
    pub height: nat,
    pub pixels: Seq<Color>,
}

impl Raster {
    /// The grid holds exactly one colour per pixel.
    pub open spec fn wf(self) -> bool {
        self.pixels.len() == self.width * self.height
    }

    /// Whether `(x, y)` names a pixel of the grid.
    pub open spec fn contains(self, x: int, y: int) -> bool {
        0 <= x < self.width && 0 <= y < self.height
    }

    /// The colour at column `x` of row `y`.
    pub open spec fn at(self, x: int, y: int) -> Color
        recommends
            self.contains(x, y),
    {
        self.pixels[y * self.width + x]
    }

    /// The grid with the pixel at `(x, y)` replaced by `c`.
    pub open spec fn with(self, x: int, y: int, c: Color) -> Raster
        recommends
            self.contains(x, y),
    {
        Raster { pixels: self.pixels.update(y * self.width + x, c), ..self }
    }

    /// The grid of the given size whose pixel at `(x, y)` is `f(x, y)`.
    pub open spec fn from_fn(width: nat, height: nat, f: spec_fn(int, int) -> Color) -> Raster {
        Raster {
            width,
            height,
            pixels: Seq::new(width * height, |i: int| f(i % width as int, i / width as int)),
        }
    }

    /// The grid of the given size with every pixel set to `c`.
    pub open spec fn filled(width: nat, height: nat, c: Color) -> Raster {
        Raster::from_fn(width, height, |x: int, y: int| c)
    }

    /// The grid of the same size whose pixel at `(x, y)` is `f(x, y)`.
    pub open spec fn repaint(self, f: spec_fn(int, int) -> Color) -> Raster {
        Raster::from_fn(self.width, self.height, f)
    }

    /// The colour of each pixel after the pixels listed in `points` have
    /// been set to `color`.
    pub open spec fn stamp(self, points: Seq<(int, int)>, color: Color) -> spec_fn(int, int) -> Color {
        |x: int, y: int|
            if points.contains((x, y)) {
                color
            } else {
                self.at(x, y)
            }
    }

    /// The grid with the pixels listed in `points` set to `color`; points
    /// outside the grid are passed over.
    pub open spec fn stamped(self, points: Seq<(int, int)>, color: Color) -> Raster {
        self.repaint(self.stamp(points, color))
    }
}

/// A pixel inside a `width * height` grid has its index inside the pixel
/// array.
pub proof fn lemma_index_in_range(width: nat, height: nat, x: int, y: int)
    requires
        0 <= x < width,
        0 <= y < height,
    ensures
        0 <= y * width + x < width * height,
{
    assert(y * width + x < width * height) by (nonlinear_arith)
        requires
            0 <= x < width,
            0 <= y < height,
    ;
    assert(0 <= y * width) by (nonlinear_arith)
        requires
            0 <= y,
    ;
}

/// Two pixels with the same index are the same pixel.
pub proof fn lemma_index_unique(width: nat, x1: int, y1: int, x2: int, y2: int)
    requires
        0 <= x1 < width,
        0 <= x2 < width,
        y1 * width + x1 == y2 * width + x2,
    ensures
        x1 == x2,
        y1 == y2,
{
    assert(y1 == y2) by (nonlinear_arith)
        requires
            0 <= x1 < width,
            0 <= x2 < width,
            y1 * width + x1 == y2 * width + x2,
    ;
}

/// Every index of the pixel array is the index of exactly one pixel: the one
/// at column `i % width` of row `i / width`.
pub proof fn lemma_index_split(width: nat, height: nat, i: int)
    requires
        0 <= i < width * height,
    ensures
        0 <= i % (width as int) < width,
        0 <= i / (width as int) < height,
        (i / (width as int)) * width + i % (width as int) == i,
{
    assert(width > 0) by (nonlinear_arith)
        requires
            0 <= i < width * height,
    ;
    let w = width as int;
    vstd::arithmetic::div_mod::lemma_fundamental_div_mod(i, w);
    vstd::arithmetic::div_mod::lemma_mod_bound(i, w);
    assert(i / w < height) by (nonlinear_arith)
        requires
            i == w * (i / w) + i % w,
            0 <= i % w,
            i < w * height,
            w > 0,
    ;
    assert(0 <= i / w) by (nonlinear_arith)
        requires
            i == w * (i / w) + i % w,
            i % w < w,
            0 <= i,
            w > 0,
    ;
    assert((i / w) * w == w * (i / w)) by (nonlinear_arith);
}

impl Raster {
    /// Reading a pixel of `from_fn` gives the function's value there.
    pub proof fn lemma_from_fn_at(width: nat, height: nat, f: spec_fn(int, int) -> Color, x: int, y: int)
        requires
            0 <= x < width,
            0 <= y < height,
        ensures
            Raster::from_fn(width, height, f).at(x, y) == f(x, y),
            Raster::from_fn(width, height, f).wf(),
    {
        lemma_index_in_range(width, height, x, y);
        let i = y * width + x;
        lemma_index_split(width, height, i);
        lemma_index_unique(width, x, y, i % (width as int), i / (width as int));
    }

    /// Replacing one pixel changes that pixel and no other.
    pub proof fn lemma_with_at(self, x: int, y: int, c: Color, x2: int, y2: int)
        requires
            self.wf(),
            self.contains(x, y),
            self.contains(x2, y2),
        ensures
            self.with(x, y, c).at(x2, y2) == if x2 == x && y2 == y { c } else { self.at(x2, y2) },
            self.with(x, y, c).wf(),
    {
        lemma_index_in_range(self.width, self.height, x, y);
        lemma_index_in_range(self.width, self.height, x2, y2);
        if y * self.width + x == y2 * self.width + x2 {
            lemma_index_unique(self.width, x, y, x2, y2);
        }
    }

    /// Two grids of the same size that agree at every pixel are equal.
    pub proof fn lemma_equal(self, other: Raster)
        requires
            self.wf(),
            other.wf(),
            self.width == other.width,
            self.height == other.height,
            forall|x: int, y: int| self.contains(x, y) ==> (#[trigger] self.at(x, y)) == other.at(x, y),
        ensures
            self == other,
    {
        assert forall|i: int| 0 <= i < self.pixels.len() implies self.pixels[i] == other.pixels[i] by {
            lemma_index_split(self.width, self.height, i);
            let x = i % (self.width as int);
            let y = i / (self.width as int);
            assert(self.contains(x, y));
            assert(self.at(x, y) == other.at(x, y));
        }
        assert(self.pixels =~= other.pixels);
    }

    /// A grid is `repaint` of a function as soon as it has the same size and
    /// every pixel holds the function's value.
    pub proof fn lemma_is_repaint(self, base: Raster, f: spec_fn(int, int) -> Color)
        requires
            self.wf(),
            self.width == base.width,
            self.height == base.height,
            forall|x: int, y: int| self.contains(x, y) ==> (#[trigger] self.at(x, y)) == f(x, y),
        ensures
            self == base.repaint(f),
    {
        let other = base.repaint(f);
        assert forall|x: int, y: int| self.contains(x, y) implies (#[trigger] self.at(x, y)) == other.at(
            x,
            y,
        ) by {
            Raster::lemma_from_fn_at(base.width, base.height, f, x, y);
        }
        assert(other.wf());
        self.lemma_equal(other);
    }
}

/// A sequence with one more item at its end holds that item and what it held
/// before, and nothing else.
pub proof fn lemma_push_contains(points: Seq<(int, int)>, p: (int, int), q: (int, int))
    ensures
        points.push(p).contains(q) <==> points.contains(q) || q == p,
{
    let longer = points.push(p);
    if points.contains(q) {
        let i = choose|i: int| 0 <= i < points.len() && points[i] == q;
        assert(longer[i] == q);
    }
    if q == p {
        assert(longer[points.len() as int] == q);
    }
    if longer.contains(q) {
        let i = choose|i: int| 0 <= i < longer.len() && longer[i] == q;
        if i < points.len() {
            assert(points[i] == q);
        }
    }
}

} // verus!
