//! Triangles filled with a colour gradient: every pixel inside takes the
//! mean of the three corner colours, weighted by its barycentric
//! coordinates.

use vstd::prelude::*;
use crate::arith::lemma_mul_bound;
use crate::canvas::Canvas;
use crate::color::Color;
use crate::point::{pixel_ceil, pixel_floor, Point};
use crate::raster::Raster;

verus! {

/// Twice the signed area of the triangle `a`, `b`, `c`, in squared
/// sub-pixel units: zero exactly when the three corners lie on one line.
pub open spec fn det(a: Point, b: Point, c: Point) -> int {
    (b.y - c.y) * (a.x - c.x) + (c.x - b.x) * (a.y - c.y)
}

/// The barycentric weight of the corner `a` at the position `(px, py)`,
/// times `det`.
pub open spec fn weight_a(a: Point, b: Point, c: Point, px: int, py: int) -> int {
    (b.y - c.y) * (px - c.x) + (c.x - b.x) * (py - c.y)
}

/// The barycentric weight of the corner `b` at the position `(px, py)`,
/// times `det`.
pub open spec fn weight_b(a: Point, b: Point, c: Point, px: int, py: int) -> int {
    (c.y - a.y) * (px - c.x) + (a.x - c.x) * (py - c.y)
}

/// The barycentric weight of the corner `c` at the position `(px, py)`,
/// times `det`: the three weights add up to one.
pub open spec fn weight_c(a: Point, b: Point, c: Point, px: int, py: int) -> int {
    det(a, b, c) - weight_a(a, b, c, px, py) - weight_b(a, b, c, px, py)
}

/// Whether `v`, a weight times `d`, stands for a weight that is not
/// negative.
pub open spec fn not_negative(v: int, d: int) -> bool {
    if d > 0 {
        v >= 0
    } else {
        v <= 0
    }
}

/// Whether the position `(px, py)` lies inside the triangle or on its
/// edge: the triangle has an area and none of the three weights is
/// negative.
pub open spec fn covers(a: Point, b: Point, c: Point, px: int, py: int) -> bool {
    let d = det(a, b, c);
    d != 0 && not_negative(weight_a(a, b, c, px, py), d) && not_negative(weight_b(a, b, c, px, py), d)
        && not_negative(weight_c(a, b, c, px, py), d)
}

/// Whether the pixel `(x, y)` belongs to the triangle: its corner `(x, y)`
/// lies inside the triangle or on its edge.
pub open spec fn covers_pixel(a: Point, b: Point, c: Point, x: int, y: int) -> bool {
    covers(a, b, c, x * 256, y * 256)
}

/// The absolute value.
pub open spec fn magnitude(v: int) -> int {
    if v >= 0 {
        v
    } else {
        -v
    }
}

/// One channel of the weighted mean of three colours: the weights are
/// `wa / d`, `wb / d` and `wc / d`, and the mean is rounded to the nearest
/// integer, a half upwards.
pub open spec fn shade_channel(wa: int, wb: int, wc: int, d: int, c1: int, c2: int, c3: int) -> int {
    (2 * (magnitude(wa) * c1 + magnitude(wb) * c2 + magnitude(wc) * c3) + magnitude(d)) / (2 * magnitude(d))
}

/// The weighted mean of three colours, channel by channel, alpha included.
pub open spec fn shade(wa: int, wb: int, wc: int, d: int, c1: Color, c2: Color, c3: Color) -> Color {
    Color {
        r: shade_channel(wa, wb, wc, d, c1.r as int, c2.r as int, c3.r as int) as u8,
        g: shade_channel(wa, wb, wc, d, c1.g as int, c2.g as int, c3.g as int) as u8,
        b: shade_channel(wa, wb, wc, d, c1.b as int, c2.b as int, c3.b as int) as u8,
        a: shade_channel(wa, wb, wc, d, c1.a as int, c2.a as int, c3.a as int) as u8,
    }
}

/// A triangle with a colour at each corner.
pub struct Gradient {
    pub a: Point,
    pub b: Point,
    pub c: Point,
    pub color_a: Color,
    pub color_b: Color,
    pub color_c: Color,
}

impl Gradient {
    /// The colour of the pixel `(x, y)` after the triangle has been drawn
    /// over `r`: the weighted mean of the corner colours where the pixel's
    /// corner `(x, y)` lies inside the triangle, the old colour elsewhere.
    pub open spec fn pixel(self, r: Raster, x: int, y: int) -> Color {
        let px = x * 256;
        let py = y * 256;
        if covers_pixel(self.a, self.b, self.c, x, y) {
            shade(
                weight_a(self.a, self.b, self.c, px, py),
                weight_b(self.a, self.b, self.c, px, py),
                weight_c(self.a, self.b, self.c, px, py),
                det(self.a, self.b, self.c),
                self.color_a,
                self.color_b,
                self.color_c,
            )
        } else {
            r.at(x, y)
        }
    }

    /// The colour of each pixel after the triangle has been drawn.
    pub open spec fn painter(self, r: Raster) -> spec_fn(int, int) -> Color {
        |x: int, y: int| self.pixel(r, x, y)
    }
}

/// The grid `r` after the triangle has been drawn.
pub open spec fn gradient_triangle_drawn(r: Raster, g: Gradient) -> Raster {
    r.repaint(g.painter(r))
}

/// The smallest of three integers.
pub open spec fn min3(a: int, b: int, c: int) -> int {
    if a <= b && a <= c {
        a
    } else if b <= c {
        b
    } else {
        c
    }
}

/// The largest of three integers.
pub open spec fn max3(a: int, b: int, c: int) -> int {
    if a >= b && a >= c {
        a
    } else if b >= c {
        b
    } else {
        c
    }
}

/// A weighted mean with weights that are not negative lies between the
/// smallest and the largest of the values.
proof fn lemma_mean_between(wa: int, wb: int, wc: int, d: int, va: int, vb: int, vc: int, p: int)
    requires
        wa >= 0,
        wb >= 0,
        wc >= 0,
        d == wa + wb + wc,
        d > 0,
        wa * va + wb * vb + wc * vc == d * p,
    ensures
        min3(va, vb, vc) <= p <= max3(va, vb, vc),
{
    let lo = min3(va, vb, vc);
    let hi = max3(va, vb, vc);
    assert(wa * lo <= wa * va <= wa * hi) by (nonlinear_arith)
        requires
            wa >= 0,
            lo <= va <= hi,
    ;
    assert(wb * lo <= wb * vb <= wb * hi) by (nonlinear_arith)
        requires
            wb >= 0,
            lo <= vb <= hi,
    ;
    assert(wc * lo <= wc * vc <= wc * hi) by (nonlinear_arith)
        requires
            wc >= 0,
            lo <= vc <= hi,
    ;
    assert(d * lo == wa * lo + wb * lo + wc * lo) by (nonlinear_arith)
        requires
            d == wa + wb + wc,
    ;
    assert(d * hi == wa * hi + wb * hi + wc * hi) by (nonlinear_arith)
        requires
            d == wa + wb + wc,
    ;
    assert(lo <= p <= hi) by (nonlinear_arith)
        requires
            d * lo <= d * p <= d * hi,
            d > 0,
    ;
}

/// The identity behind barycentric weights, for a triangle with one corner
/// at the origin.
proof fn lemma_cross(a: int, b: int, p: int, c: int, d: int, q: int)
    ensures
        (d * p - b * q) * a + (a * q - c * p) * b == (d * a - b * c) * p,
{
    assert((d * p - b * q) * a == d * p * a - b * q * a) by (nonlinear_arith);
    assert((a * q - c * p) * b == a * q * b - c * p * b) by (nonlinear_arith);
    assert((d * a - b * c) * p == d * a * p - b * c * p) by (nonlinear_arith);
    assert(d * p * a == d * a * p) by (nonlinear_arith);
    assert(b * q * a == a * q * b) by (nonlinear_arith);
    assert(c * p * b == b * c * p) by (nonlinear_arith);
}

/// The position is the mean of the corners, weighted by its barycentric
/// weights.
proof fn lemma_weights_locate(a: Point, b: Point, c: Point, px: int, py: int)
    ensures
        weight_a(a, b, c, px, py) * a.x + weight_b(a, b, c, px, py) * b.x + weight_c(a, b, c, px, py) * c.x
            == det(a, b, c) * px,
        weight_a(a, b, c, px, py) * a.y + weight_b(a, b, c, px, py) * b.y + weight_c(a, b, c, px, py) * c.y
            == det(a, b, c) * py,
{
    let ea = a.x - c.x;
    let eb = b.x - c.x;
    let ep = px - c.x;
    let fa = a.y - c.y;
    let fb = b.y - c.y;
    let fp = py - c.y;
    let d = det(a, b, c);
    let wa = weight_a(a, b, c, px, py);
    let wb = weight_b(a, b, c, px, py);
    let wc = weight_c(a, b, c, px, py);
    assert(d == fb * ea - eb * fa) by (nonlinear_arith)
        requires
            d == fb * ea + (c.x - b.x) * fa,
            eb == b.x - c.x,
    ;
    assert(wa == fb * ep - eb * fp) by (nonlinear_arith)
        requires
            wa == fb * ep + (c.x - b.x) * fp,
            eb == b.x - c.x,
    ;
    assert(wb == ea * fp - fa * ep) by (nonlinear_arith)
        requires
            wb == (c.y - a.y) * ep + ea * fp,
            fa == a.y - c.y,
    ;
    lemma_cross(ea, eb, ep, fa, fb, fp);
    assert(wa * ea + wb * eb == d * ep);
    lemma_cross(fb, fa, fp, eb, ea, ep);
    assert((ea * fp - fa * ep) * fb + (fb * ep - eb * fp) * fa == (ea * fb - fa * eb) * fp);
    assert(ea * fb == fb * ea && fa * eb == eb * fa) by (nonlinear_arith);
    assert(wb * fb + wa * fa == d * fp);
    assert(wa * a.x + wb * b.x + wc * c.x == d * px) by (nonlinear_arith)
        requires
            wa * ea + wb * eb == d * ep,
            ea == a.x - c.x,
            eb == b.x - c.x,
            ep == px - c.x,
            wc == d - wa - wb,
    ;
    assert(wa * a.y + wb * b.y + wc * c.y == d * py) by (nonlinear_arith)
        requires
            wb * fb + wa * fa == d * fp,
            fa == a.y - c.y,
            fb == b.y - c.y,
            fp == py - c.y,
            wc == d - wa - wb,
    ;
}

/// A position inside the triangle lies inside the rectangle spanned by
/// its corners.
pub proof fn lemma_covers_within_box(a: Point, b: Point, c: Point, px: int, py: int)
    requires
        covers(a, b, c, px, py),
    ensures
        min3(a.x as int, b.x as int, c.x as int) <= px <= max3(a.x as int, b.x as int, c.x as int),
        min3(a.y as int, b.y as int, c.y as int) <= py <= max3(a.y as int, b.y as int, c.y as int),
{
    let d = det(a, b, c);
    let wa = weight_a(a, b, c, px, py);
    let wb = weight_b(a, b, c, px, py);
    let wc = weight_c(a, b, c, px, py);
    lemma_weights_locate(a, b, c, px, py);
    let s: int = if d > 0 {
        1
    } else {
        -1
    };
    assert((s * wa) * a.x + (s * wb) * b.x + (s * wc) * c.x == (s * d) * px) by (nonlinear_arith)
        requires
            wa * a.x + wb * b.x + wc * c.x == d * px,
            s == 1 || s == -1,
    ;
    assert((s * wa) * a.y + (s * wb) * b.y + (s * wc) * c.y == (s * d) * py) by (nonlinear_arith)
        requires
            wa * a.y + wb * b.y + wc * c.y == d * py,
            s == 1 || s == -1,
    ;
    lemma_mean_between(s * wa, s * wb, s * wc, s * d, a.x as int, b.x as int, c.x as int, px);
    lemma_mean_between(s * wa, s * wb, s * wc, s * d, a.y as int, b.y as int, c.y as int, py);
}

/// A channel of a weighted mean of channel values is a channel value.
pub proof fn lemma_shade_channel_range(wa: int, wb: int, wc: int, d: int, c1: int, c2: int, c3: int)
    requires
        d != 0,
        not_negative(wa, d),
        not_negative(wb, d),
        not_negative(wc, d),
        wa + wb + wc == d,
        0 <= c1 <= 255,
        0 <= c2 <= 255,
        0 <= c3 <= 255,
    ensures
        0 <= shade_channel(wa, wb, wc, d, c1, c2, c3) <= 255,
        0 <= magnitude(wa) * c1 + magnitude(wb) * c2 + magnitude(wc) * c3 <= 255 * magnitude(d),
{
    let na = magnitude(wa);
    let nb = magnitude(wb);
    let nc = magnitude(wc);
    let nd = magnitude(d);
    assert(na + nb + nc == nd);
    let s = na * c1 + nb * c2 + nc * c3;
    assert(0 <= na * c1 <= na * 255) by (nonlinear_arith)
        requires
            na >= 0,
            0 <= c1 <= 255,
    ;
    assert(0 <= nb * c2 <= nb * 255) by (nonlinear_arith)
        requires
            nb >= 0,
            0 <= c2 <= 255,
    ;
    assert(0 <= nc * c3 <= nc * 255) by (nonlinear_arith)
        requires
            nc >= 0,
            0 <= c3 <= 255,
    ;
    let q = (2 * s + nd) / (2 * nd);
    vstd::arithmetic::div_mod::lemma_fundamental_div_mod(2 * s + nd, 2 * nd);
    vstd::arithmetic::div_mod::lemma_mod_bound(2 * s + nd, 2 * nd);
    assert(0 <= q <= 255) by (nonlinear_arith)
        requires
            0 <= s <= 255 * nd,
            2 * s + nd == (2 * nd) * q + (2 * s + nd) % (2 * nd),
            0 <= (2 * s + nd) % (2 * nd) < 2 * nd,
            0 < nd,
    ;
}

/// One channel of the weighted mean of three colours.
fn interpolate_channel(na: i128, nb: i128, nc: i128, nd: i128, c1: u8, c2: u8, c3: u8) -> (c: u8)
    requires
        0 <= na,
        0 <= nb,
        0 <= nc,
        na + nb + nc == nd,
        0 < nd <= 0x100_0000_0000_0000_0000,
    ensures
        c == shade_channel(na as int, nb as int, nc as int, nd as int, c1 as int, c2 as int, c3 as int),
{
    proof {
        lemma_shade_channel_range(na as int, nb as int, nc as int, nd as int, c1 as int, c2 as int, c3 as int);
        lemma_mul_bound(na as int, c1 as int, nd as int, 255);
        lemma_mul_bound(nb as int, c2 as int, nd as int, 255);
        lemma_mul_bound(nc as int, c3 as int, nd as int, 255);
        assert(nd * 255 <= 0x100_0000_0000_0000_0000 * 255) by (nonlinear_arith)
            requires
                nd <= 0x100_0000_0000_0000_0000,
        ;
    }
    let sum: i128 = na * (c1 as i128) + nb * (c2 as i128) + nc * (c3 as i128);
    let q: i128 = (2 * sum + nd) / (2 * nd);
    q as u8
}

/// The weighted mean of three colours; the weights are `na / nd`, `nb / nd`
/// and `nc / nd`.
fn interpolate_color(
    na: i128,
    nb: i128,
    nc: i128,
    nd: i128,
    color1: Color,
    color2: Color,
    color3: Color,
) -> (c: Color)
    requires
        0 <= na,
        0 <= nb,
        0 <= nc,
        na + nb + nc == nd,
        0 < nd <= 0x100_0000_0000_0000_0000,
    ensures
        c == shade(na as int, nb as int, nc as int, nd as int, color1, color2, color3),
{
    Color {
        r: interpolate_channel(na, nb, nc, nd, color1.r, color2.r, color3.r),
        g: interpolate_channel(na, nb, nc, nd, color1.g, color2.g, color3.g),
        b: interpolate_channel(na, nb, nc, nd, color1.b, color2.b, color3.b),
        a: interpolate_channel(na, nb, nc, nd, color1.a, color2.a, color3.a),
    }
}

/// The three barycentric weights of the pixel `(x, y)`, each times
/// `det`, and `det` itself, or `None` when the corners lie on one line.
fn compute_barycentric_coords(x: i32, y: i32, a: Point, b: Point, c: Point) -> (weights: Option<
    (i128, i128, i128, i128),
>)
    requires
        -0x80_0000 <= x <= 0x80_0000,
        -0x80_0000 <= y <= 0x80_0000,
    ensures
        match weights {
            Some((wa, wb, wc, d)) => d == det(a, b, c) && d != 0 && wa == weight_a(a, b, c, x * 256, y * 256)
                && wb == weight_b(a, b, c, x * 256, y * 256) && wc == weight_c(a, b, c, x * 256, y * 256)
                && -0x8_0000_0000_0000_0000 <= d <= 0x8_0000_0000_0000_0000
                && -0x8_0000_0000_0000_0000 <= wa <= 0x8_0000_0000_0000_0000
                && -0x8_0000_0000_0000_0000 <= wb <= 0x8_0000_0000_0000_0000,
            None => det(a, b, c) == 0,
        },
{
    let ax = a.x as i128;
    let ay = a.y as i128;
    let bx = b.x as i128;
    let by = b.y as i128;
    let cx = c.x as i128;
    let cy = c.y as i128;
    let px = x as i128 * 256;
    let py = y as i128 * 256;
    proof {
        lemma_mul_bound(by - cy, ax - cx, 0x1_0000_0000, 0x2_0000_0000);
        lemma_mul_bound(cx - bx, ay - cy, 0x1_0000_0000, 0x2_0000_0000);
        lemma_mul_bound(by - cy, px - cx, 0x1_0000_0000, 0x2_0000_0000);
        lemma_mul_bound(cx - bx, py - cy, 0x1_0000_0000, 0x2_0000_0000);
        lemma_mul_bound(cy - ay, px - cx, 0x1_0000_0000, 0x2_0000_0000);
        lemma_mul_bound(ax - cx, py - cy, 0x1_0000_0000, 0x2_0000_0000);
    }
    let d = (by - cy) * (ax - cx) + (cx - bx) * (ay - cy);
    if d == 0 {
        return None;
    }
    let wa = (by - cy) * (px - cx) + (cx - bx) * (py - cy);
    let wb = (cy - ay) * (px - cx) + (ax - cx) * (py - cy);
    let wc = d - wa - wb;
    Some((wa, wb, wc, d))
}

impl Canvas {
    /// Fills the triangle with the corners `pos1`, `pos2` and `pos3` with a
    /// gradient of the colours `color1`, `color2` and `color3`.
    ///
    /// A pixel belongs to the triangle when none of its three barycentric
    /// weights is negative, so the edges belong to it. Such a pixel gets,
    /// in each channel, the mean of the three corner colours weighted by
    /// its barycentric weights, rounded to the nearest integer. All other
    /// pixels keep their colour. Parts of the triangle outside the canvas
    /// are passed over, and a triangle whose corners lie on one line draws
    /// nothing.
    pub fn draw_gradient_triangle(
        &mut self,
        pos1: Point,
        pos2: Point,
        pos3: Point,
        color1: Color,
        color2: Color,
        color3: Color,
    )
        ensures
            final(self)@ == gradient_triangle_drawn(
                old(self)@,
                (Gradient { a: pos1, b: pos2, c: pos3, color_a: color1, color_b: color2, color_c: color3 }),
            ),
    {
        let ghost orig = self@;
        let ghost g = Gradient { a: pos1, b: pos2, c: pos3, color_a: color1, color_b: color2, color_c: color3 };
        let w = self.width();
        let h = self.height();
        let lo_x = min_of(pos1.x, pos2.x, pos3.x);
        let hi_x = max_of(pos1.x, pos2.x, pos3.x);
        let lo_y = min_of(pos1.y, pos2.y, pos3.y);
        let hi_y = max_of(pos1.y, pos2.y, pos3.y);
        let min_x = pixel_floor(lo_x);
        let max_x = pixel_ceil(hi_x);
        let min_y = pixel_floor(lo_y);
        let max_y = pixel_ceil(hi_y);
        proof {
            assert forall|x: int, y: int| !(min_x <= x <= max_x && min_y <= y <= max_y) implies !#[trigger] covers_pixel(
                pos1,
                pos2,
                pos3,
                x,
                y,
            ) by {
                if covers_pixel(pos1, pos2, pos3, x, y) {
                    lemma_covers_within_box(pos1, pos2, pos3, x * 256, y * 256);
                }
            }
        }
        let first_x: usize = if min_x < 0 {
            0
        } else {
            min_x as usize
        };
        let first_y: usize = if min_y < 0 {
            0
        } else {
            min_y as usize
        };
        let end_x: usize = if max_x < 0 {
            0
        } else if max_x as usize >= w {
            w
        } else {
            max_x as usize + 1
        };
        let end_y: usize = if max_y < 0 {
            0
        } else if max_y as usize >= h {
            h
        } else {
            max_y as usize + 1
        };
        let mut y = first_y;
        proof {
            assert forall|x2: int, y2: int| orig.contains(x2, y2) implies (#[trigger] self@.at(x2, y2)) == if y2
                < y {
                g.pixel(orig, x2, y2)
            } else {
                orig.at(x2, y2)
            } by {
                if y2 < y {
                    assert(!covers_pixel(pos1, pos2, pos3, x2, y2));
                }
            }
        }
        while y < end_y
            invariant
                self@.wf(),
                orig.wf(),
                self@.width == orig.width,
                self@.height == orig.height,
                w == orig.width,
                h == orig.height,
                g == (Gradient { a: pos1, b: pos2, c: pos3, color_a: color1, color_b: color2, color_c: color3 }),
                first_y <= y,
                first_x == if min_x < 0 { 0 } else { min_x as int },
                first_y == if min_y < 0 { 0 } else { min_y as int },
                end_x <= w,
                end_y <= h,
                end_x > 0 ==> end_x <= max_x + 1,
                end_y > 0 ==> end_y <= max_y + 1,
                end_x < w ==> max_x < end_x,
                end_y < h ==> max_y < end_y,
                -0x80_0000 <= min_x <= 0x80_0000,
                -0x80_0000 <= max_x <= 0x80_0000,
                -0x80_0000 <= min_y <= 0x80_0000,
                -0x80_0000 <= max_y <= 0x80_0000,
                forall|x2: int, y2: int|
                    !(min_x <= x2 <= max_x && min_y <= y2 <= max_y) ==> !#[trigger] covers_pixel(pos1, pos2, pos3, x2, y2),
                forall|x2: int, y2: int|
                    orig.contains(x2, y2) ==> (#[trigger] self@.at(x2, y2)) == if y2 < y {
                        g.pixel(orig, x2, y2)
                    } else {
                        orig.at(x2, y2)
                    },
            decreases end_y - y,
        {
            let mut x = first_x;
            proof {
                assert forall|x2: int, y2: int| orig.contains(x2, y2) implies (#[trigger] self@.at(x2, y2)) == if y2
                    < y || (y2 == y && x2 < x) {
                    g.pixel(orig, x2, y2)
                } else {
                    orig.at(x2, y2)
                } by {
                    if y2 == y && x2 < x {
                        assert(!covers_pixel(pos1, pos2, pos3, x2, y2));
                    }
                }
            }
            while x < end_x
                invariant
                    self@.wf(),
                    orig.wf(),
                    self@.width == orig.width,
                    self@.height == orig.height,
                    w == orig.width,
                    h == orig.height,
                    g == (Gradient {
                        a: pos1,
                        b: pos2,
                        c: pos3,
                        color_a: color1,
                        color_b: color2,
                        color_c: color3,
                    }),
                    first_y <= y < end_y,
                    first_x <= x,
                    end_x <= w,
                    end_y <= h,
                    end_x > 0 ==> end_x <= max_x + 1,
                    end_y > 0 ==> end_y <= max_y + 1,
                    end_x < w ==> max_x < end_x,
                    -0x80_0000 <= max_x <= 0x80_0000,
                    -0x80_0000 <= max_y <= 0x80_0000,
                    forall|x2: int, y2: int|
                        !(min_x <= x2 <= max_x && min_y <= y2 <= max_y) ==> !#[trigger] covers_pixel(
                            pos1,
                            pos2,
                            pos3,
                            x2,
                            y2,
                        ),
                    forall|x2: int, y2: int|
                        orig.contains(x2, y2) ==> (#[trigger] self@.at(x2, y2)) == if y2 < y || (y2 == y && x2
                            < x) {
                            g.pixel(orig, x2, y2)
                        } else {
                            orig.at(x2, y2)
                        },
                decreases end_x - x,
            {
                let ghost before = self@;
                match compute_barycentric_coords(x as i32, y as i32, pos1, pos2, pos3) {
                    Some((wa, wb, wc, d)) => {
                        if d > 0 {
                            if wa >= 0 && wb >= 0 && wc >= 0 {
                                let color = interpolate_color(wa, wb, wc, d, color1, color2, color3);
                                self.put(x, y, color);
                            }
                        } else {
                            if wa <= 0 && wb <= 0 && wc <= 0 {
                                let color = interpolate_color(-wa, -wb, -wc, -d, color1, color2, color3);
                                self.put(x, y, color);
                            }
                        }
                    },
                    None => {},
                }
                proof {
                    assert(before.at(x as int, y as int) == orig.at(x as int, y as int));
                    assert(self@.at(x as int, y as int) == g.pixel(orig, x as int, y as int)) by {
                        if covers_pixel(pos1, pos2, pos3, x as int, y as int) {
                            before.lemma_with_at(x as int, y as int, g.pixel(orig, x as int, y as int), x as int, y as int);
                        }
                    }
                    assert forall|x2: int, y2: int| orig.contains(x2, y2) implies (#[trigger] self@.at(x2, y2))
                        == if y2 < y || (y2 == y && x2 < x + 1) {
                        g.pixel(orig, x2, y2)
                    } else {
                        orig.at(x2, y2)
                    } by {
                        assert(before.at(x2, y2) == if y2 < y || (y2 == y && x2 < x) {
                            g.pixel(orig, x2, y2)
                        } else {
                            orig.at(x2, y2)
                        });
                        if covers_pixel(pos1, pos2, pos3, x as int, y as int) {
                            before.lemma_with_at(x as int, y as int, g.pixel(orig, x as int, y as int), x2, y2);
                        }
                    }
                }
                x = x + 1;
            }
            proof {
                assert forall|x2: int, y2: int| orig.contains(x2, y2) implies (#[trigger] self@.at(x2, y2)) == if y2
                    < y + 1 {
                    g.pixel(orig, x2, y2)
                } else {
                    orig.at(x2, y2)
                } by {
                    if y2 == y && !(x2 < x) {
                        assert(!covers_pixel(pos1, pos2, pos3, x2, y2));
                    }
                }
            }
            y = y + 1;
        }
        proof {
            assert forall|x2: int, y2: int| self@.contains(x2, y2) implies (#[trigger] self@.at(x2, y2)) == (g.painter(
                orig,
            ))(x2, y2) by {
                if !(y2 < y) {
                    assert(!covers_pixel(pos1, pos2, pos3, x2, y2));
                }
            }
            self@.lemma_is_repaint(orig, g.painter(orig));
        }
    }
}

/// The smallest of three coordinates.
fn min_of(a: i32, b: i32, c: i32) -> (m: i32)
    ensures
        m == min3(a as int, b as int, c as int),
{
    if a <= b && a <= c {
        a
    } else if b <= c {
        b
    } else {
        c
    }
}

/// The largest of three coordinates.
fn max_of(a: i32, b: i32, c: i32) -> (m: i32)
    ensures
        m == max3(a as int, b as int, c as int),
{
    if a >= b && a >= c {
        a
    } else if b >= c {
        b
    } else {
        c
    }
}

} // verus!
