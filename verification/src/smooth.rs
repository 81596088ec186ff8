//! Smooth line segments: at each step along the longer axis the two pixels
//! that the line passes between share the colour, in proportion to how near
//! the line runs to each.

use vstd::prelude::*;
use crate::arith::{div_floor, lemma_mul_bound};
use crate::canvas::Canvas;
use crate::color::{mix, Color};
use crate::line::distance;
use crate::point::{pixel_floor, spec_pixel_floor, Point};
use crate::raster::Raster;

verus! {

/// A segment prepared for drawing. The axis along which it is longer is its
/// major axis, the other its minor axis; its ends are ordered so that the
/// major coordinate does not decrease.
pub struct SmoothLine {
    /// Whether the major axis is the `y` axis.
    pub steep: bool,
    /// The pixel of the first end along the major axis.
    pub first: int,
    /// The pixel of the second end along the major axis.
    pub last: int,
    /// The minor coordinate of the first end, in sub-pixel units.
    pub start: int,
    /// The length along the major axis, in sub-pixel units; not negative.
    pub run: int,
    /// The change of the minor coordinate from the first end to the second,
    /// in sub-pixel units.
    pub rise: int,
}

/// The segment from `p` to `q`, prepared for drawing.
pub open spec fn smooth_line(p: Point, q: Point) -> SmoothLine {
    let steep = distance(q.y as int, p.y as int) > distance(q.x as int, p.x as int);
    let a = if steep {
        (p.y as int, p.x as int)
    } else {
        (p.x as int, p.y as int)
    };
    let b = if steep {
        (q.y as int, q.x as int)
    } else {
        (q.x as int, q.y as int)
    };
    let from = if a.0 > b.0 {
        b
    } else {
        a
    };
    let to = if a.0 > b.0 {
        a
    } else {
        b
    };
    SmoothLine {
        steep,
        first: spec_pixel_floor(from.0),
        last: spec_pixel_floor(to.0),
        start: from.1,
        run: to.0 - from.0,
        rise: to.1 - from.1,
    }
}

impl SmoothLine {
    /// The denominator of all positions and coverages of this segment.
    pub open spec fn den(self) -> int {
        256 * self.run
    }

    /// The minor coordinate of the line at step `k`, in pixels, as a
    /// numerator over `den()`: the start plus `k + 1` times the slope.
    pub open spec fn position(self, k: int) -> int {
        self.start * self.run + (k + 1) * self.rise * 256
    }

    /// The pixel on the minor axis that holds the line at step `k`.
    pub open spec fn row(self, k: int) -> int {
        self.position(k) / self.den()
    }

    /// How far into that pixel the line runs at step `k`, as a numerator
    /// over `den()`: the coverage of the next pixel along the minor axis.
    pub open spec fn part(self, k: int) -> int {
        self.position(k) % self.den()
    }

    /// The major coordinate of the pixel `(x, y)`.
    pub open spec fn major(self, x: int, y: int) -> int {
        if self.steep {
            y
        } else {
            x
        }
    }

    /// The minor coordinate of the pixel `(x, y)`.
    pub open spec fn minor(self, x: int, y: int) -> int {
        if self.steep {
            x
        } else {
            y
        }
    }

    /// The colour of the pixel `(x, y)` after the segment has been drawn in
    /// `color` over `r`. At each step from the first pixel to the last along
    /// the major axis, the pixel that holds the line is blended with the
    /// coverage `1 - part / den`, and the next one along the minor axis with
    /// `part / den`. A segment without length draws nothing.
    pub open spec fn pixel(self, r: Raster, color: Color, x: int, y: int) -> Color {
        let k = self.major(x, y) - self.first;
        if self.run > 0 && self.first <= self.major(x, y) <= self.last {
            if self.minor(x, y) == self.row(k) {
                mix(r.at(x, y), color, self.den() - self.part(k), self.den())
            } else if self.minor(x, y) == self.row(k) + 1 {
                mix(r.at(x, y), color, self.part(k), self.den())
            } else {
                r.at(x, y)
            }
        } else {
            r.at(x, y)
        }
    }

    /// The colour of each pixel once the steps before the major coordinate
    /// `upto` have been drawn.
    pub open spec fn painter_upto(self, r: Raster, color: Color, upto: int) -> spec_fn(int, int) -> Color {
        |x: int, y: int|
            if self.major(x, y) < upto {
                self.pixel(r, color, x, y)
            } else {
                r.at(x, y)
            }
    }

    /// The colour of each pixel after the whole segment has been drawn.
    pub open spec fn painter(self, r: Raster, color: Color) -> spec_fn(int, int) -> Color {
        |x: int, y: int| self.pixel(r, color, x, y)
    }
}

/// The grid `r` after the smooth segment from `p` to `q` has been drawn
/// in `color`: nothing is drawn unless both ends lie on the grid.
pub open spec fn smooth_line_drawn(r: Raster, p: Point, q: Point, color: Color) -> Raster {
    if r.contains(p.cell().0, p.cell().1) && r.contains(q.cell().0, q.cell().1) {
        r.repaint(smooth_line(p, q).painter(r, color))
    } else {
        r
    }
}

impl Canvas {
    /// Blends `color` onto the pixel `(x, y)` with the coverage
    /// `num / den`; a pixel outside the canvas is passed over.
    fn set_pixel(&mut self, x: i128, y: i128, color: Color, num: u64, den: u64)
        requires
            num <= den,
            0 < den,
        ensures
            final(self)@ == if old(self)@.contains(x as int, y as int) {
                old(self)@.with(
                    x as int,
                    y as int,
                    mix(old(self)@.at(x as int, y as int), color, num as int, den as int),
                )
            } else {
                old(self)@
            },
            final(self)@.wf(),
    {
        let w = self.width();
        let h = self.height();
        if x >= 0 && y >= 0 && x < w as i128 && y < h as i128 {
            let background = self.pixel(x as usize, y as usize);
            self.put(x as usize, y as usize, background.blend(color, num, den));
        }
    }

    /// Draws the segment from `pos1` to `pos2` in `color`, smoothed.
    ///
    /// The segment is followed pixel by pixel along the axis on which it is
    /// longer. At each step the line lies between two pixels of the other
    /// axis; `color` is blended onto both, onto each with the coverage that
    /// the line's position gives it, the two coverages adding up to one.
    /// Pixels of the pair that fall outside the canvas are passed over.
    /// Nothing is drawn unless both ends lie on the canvas, and nothing for
    /// a segment without length.
    pub fn draw_smooth_line_simple(&mut self, pos1: Point, pos2: Point, color: Color)
        ensures
            final(self)@ == smooth_line_drawn(old(self)@, pos1, pos2, color),
    {
        if self.locate(pos1).is_none() || self.locate(pos2).is_none() {
            return ;
        }
        let ghost orig = self@;
        let ghost line = smooth_line(pos1, pos2);
        let span_x: i64 = if pos2.x >= pos1.x {
            pos2.x as i64 - pos1.x as i64
        } else {
            pos1.x as i64 - pos2.x as i64
        };
        let span_y: i64 = if pos2.y >= pos1.y {
            pos2.y as i64 - pos1.y as i64
        } else {
            pos1.y as i64 - pos2.y as i64
        };
        let steep = span_y > span_x;
        let (a_major, a_minor) = if steep {
            (pos1.y, pos1.x)
        } else {
            (pos1.x, pos1.y)
        };
        let (b_major, b_minor) = if steep {
            (pos2.y, pos2.x)
        } else {
            (pos2.x, pos2.y)
        };
        let (u1, v1, u2, v2) = if a_major > b_major {
            (b_major, b_minor, a_major, a_minor)
        } else {
            (a_major, a_minor, b_major, b_minor)
        };
        let run: i64 = u2 as i64 - u1 as i64;
        let rise: i64 = v2 as i64 - v1 as i64;
        assert(line == (SmoothLine {
            steep,
            first: spec_pixel_floor(u1 as int),
            last: spec_pixel_floor(u2 as int),
            start: v1 as int,
            run: run as int,
            rise: rise as int,
        }));
        if run == 0 {
            proof {
                self@.lemma_is_repaint(orig, line.painter(orig, color));
            }
            return ;
        }
        let first = pixel_floor(u1);
        let last = pixel_floor(u2);
        let den: u64 = 256 * (run as u64);
        let step: i128 = rise as i128 * 256;
        proof {
            lemma_mul_bound(v1 as int, run as int, 0x8000_0000, 0x1_0000_0000);
        }
        let mut pos: i128 = v1 as i128 * run as i128 + step;
        let mut u: i64 = first as i64;
        proof {
            assert(pos == line.position(u - first)) by (nonlinear_arith)
                requires
                    pos == v1 * run + rise * 256,
                    line.start == v1,
                    line.run == run,
                    line.rise == rise,
                    u == first,
                    line.position(u - first) == line.start * line.run + (u - first + 1) * line.rise * 256,
            ;
        }
        while u <= last as i64
            invariant
                self@.wf(),
                orig.wf(),
                self@.width == orig.width,
                self@.height == orig.height,
                line == smooth_line(pos1, pos2),
                line.steep == steep,
                line.first == first,
                line.last == last,
                line.run == run,
                line.rise == rise,
                line.start == v1,
                0 < run <= 0xffff_ffff,
                -0xffff_ffff <= rise <= 0xffff_ffff,
                den == 256 * run,
                step == rise * 256,
                first <= u <= last + 1,
                -0x80_0000 <= first <= 0x80_0000,
                -0x80_0000 <= last <= 0x80_0000,
                pos == line.position(u - first),
                forall|x2: int, y2: int|
                    orig.contains(x2, y2) ==> (#[trigger] self@.at(x2, y2)) == (line.painter_upto(
                        orig,
                        color,
                        u as int,
                    ))(x2, y2),
            decreases last + 1 - u,
        {
            let ghost k = u - first;
            proof {
                lemma_mul_bound(v1 as int, run as int, 0x8000_0000, 0x1_0000_0000);
                lemma_mul_bound(k + 1, rise as int, 0x100_0002, 0x1_0000_0000);
                assert(line.position(k) == v1 * run + ((k + 1) * rise) * 256) by (nonlinear_arith)
                    requires
                        line.position(k) == line.start * line.run + (k + 1) * line.rise * 256,
                        line.start == v1,
                        line.run == run,
                        line.rise == rise,
                ;
            }
            let (row, part) = div_floor(pos, den as i128);
            let near = part as u64;
            let ghost before = self@;
            if steep {
                self.set_pixel(row, u as i128, color, den - near, den);
            } else {
                self.set_pixel(u as i128, row, color, den - near, den);
            }
            let ghost between = self@;
            if steep {
                self.set_pixel(row + 1, u as i128, color, near, den);
            } else {
                self.set_pixel(u as i128, row + 1, color, near, den);
            }
            proof {
                assert(row == line.row(k));
                assert(part == line.part(k));
                assert forall|x2: int, y2: int| orig.contains(x2, y2) implies (#[trigger] self@.at(x2, y2)) == (
                line.painter_upto(orig, color, u + 1))(x2, y2) by {
                    let ax = if steep {
                        row as int
                    } else {
                        u as int
                    };
                    let ay = if steep {
                        u as int
                    } else {
                        row as int
                    };
                    let bx = if steep {
                        row + 1
                    } else {
                        u as int
                    };
                    let by = if steep {
                        u as int
                    } else {
                        row + 1
                    };
                    assert(before.at(x2, y2) == (line.painter_upto(orig, color, u as int))(x2, y2));
                    if before.contains(ax, ay) {
                        assert(before.at(ax, ay) == (line.painter_upto(orig, color, u as int))(ax, ay));
                        before.lemma_with_at(ax, ay, mix(before.at(ax, ay), color, den - near, den as int), x2, y2);
                    }
                    if between.contains(bx, by) {
                        assert(before.at(bx, by) == (line.painter_upto(orig, color, u as int))(bx, by));
                        if before.contains(ax, ay) {
                            before.lemma_with_at(
                                ax,
                                ay,
                                mix(before.at(ax, ay), color, den - near, den as int),
                                bx,
                                by,
                            );
                        }
                        between.lemma_with_at(bx, by, mix(between.at(bx, by), color, near as int, den as int), x2, y2);
                    }
                }
                assert(pos + step == line.position(u + 1 - first)) by (nonlinear_arith)
                    requires
                        pos == line.position(u - first),
                        step == rise * 256,
                        line.rise == rise,
                        line.position(u - first) == line.start * line.run + (u - first + 1) * line.rise * 256,
                        line.position(u + 1 - first) == line.start * line.run + (u + 1 - first + 1) * line.rise * 256,
                ;
            }
            pos = pos + step;
            u = u + 1;
        }
        proof {
            assert forall|x2: int, y2: int| self@.contains(x2, y2) implies (#[trigger] self@.at(x2, y2)) == (
            line.painter(orig, color))(x2, y2) by {
                assert(self@.at(x2, y2) == (line.painter_upto(orig, color, u as int))(x2, y2));
            }
            self@.lemma_is_repaint(orig, line.painter(orig, color));
        }
    }
}

} // verus!
