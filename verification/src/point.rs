//! Canvas coordinates with sub-pixel resolution.
//!
//! A coordinate is a fixed-point number: an integer count of sub-pixel
//! units, `SUBPIXELS` of which make one pixel. The pixel with integer
//! coordinates `(i, j)` covers the square from `(i, j)` up to, but not
//! including, `(i + 1, j + 1)`.

use vstd::prelude::*;

verus! {

/// The number of sub-pixel units in one pixel.
pub const SUBPIXELS: i32 = 256;

/// The pixel that contains the coordinate `v`: the largest integer not
/// above `v / SUBPIXELS`.
pub open spec fn spec_pixel_floor(v: int) -> int {
    v / 256
}

/// The smallest integer not below `v / SUBPIXELS`.
pub open spec fn spec_pixel_ceil(v: int) -> int {
    -((-v) / 256)
}

/// The integer nearest to `v / SUBPIXELS`; a coordinate half-way between two
/// integers goes to the one farther from zero.
pub open spec fn spec_pixel_round(v: int) -> int {
    if v >= 0 {
        (v + 128) / 256
    } else {
        -((-v + 128) / 256)
    }
}

/// The pixel that contains the coordinate `v`.
pub fn pixel_floor(v: i32) -> (p: i32)
    ensures
        p == spec_pixel_floor(v as int),
{
    if v >= 0 {
        v / 256
    } else {
        let m: i64 = -(v as i64);
        let q: i64 = (m + 255) / 256;
        (-q) as i32
    }
}

/// The smallest integer not below `v / SUBPIXELS`.
pub fn pixel_ceil(v: i32) -> (p: i32)
    ensures
        p == spec_pixel_ceil(v as int),
{
    if v >= 0 {
        let q: i64 = (v as i64 + 255) / 256;
        q as i32
    } else {
        let m: i64 = -(v as i64);
        let q: i64 = m / 256;
        (-q) as i32
    }
}

/// The integer nearest to `v / SUBPIXELS`, ties away from zero.
pub fn pixel_round(v: i32) -> (p: i32)
    ensures
        p == spec_pixel_round(v as int),
{
    if v >= 0 {
        let q: i64 = (v as i64 + 128) / 256;
        q as i32
    } else {
        let m: i64 = -(v as i64);
        let q: i64 = (m + 128) / 256;
        (-q) as i32
    }
}

/// A point of the canvas plane, each coordinate in sub-pixel units.
#[derive(Clone, Copy, Debug, PartialEq, Eq, Structural)]
pub struct Point {
    pub x: i32,
    pub y: i32,
}

impl Point {
    /// The point with the given coordinates, in sub-pixel units.
    pub fn new(x: i32, y: i32) -> (p: Point)
        ensures
            p == (Point { x, y }),
    {
        Point { x, y }
    }

    /// The corner of the pixel `(x, y)` nearest the origin, or `None` when
    /// that point cannot be represented in sub-pixel units.
    pub fn from_pixel(x: i32, y: i32) -> (p: Option<Point>)
        ensures
            match p {
                Some(p) => p.x == x * 256 && p.y == y * 256,
                None => !(i32::MIN <= x * 256 <= i32::MAX && i32::MIN <= y * 256 <= i32::MAX),
            },
    {
        let px: i64 = x as i64 * 256;
        let py: i64 = y as i64 * 256;
        if px < i32::MIN as i64 || px > i32::MAX as i64 || py < i32::MIN as i64 || py > i32::MAX as i64 {
            None
        } else {
            Some(Point { x: px as i32, y: py as i32 })
        }
    }

    /// The pixel that contains the point.
    pub open spec fn cell(self) -> (int, int) {
        (spec_pixel_floor(self.x as int), spec_pixel_floor(self.y as int))
    }

    /// The pixel whose corner is nearest the point.
    pub open spec fn nearest(self) -> (int, int) {
        (spec_pixel_round(self.x as int), spec_pixel_round(self.y as int))
    }
}

} // verus!
