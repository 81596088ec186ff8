//! Laws that relate the drawing operations to each other and to the shape
//! of what they draw.

use vstd::prelude::*;
use crate::boundary::{contour, lemma_walk};
use crate::color::{lemma_mix_ends, Color};
use crate::connectivity::Connectivity;
use crate::fill::{filled_with_color, filled_with_image, flood_painter, solid, tiled};
use crate::point::{spec_pixel_floor, Point};
use crate::raster::Raster;
use crate::region::{connected, is_path, lemma_connected_self, lemma_connected_step, lemma_four_within_eight};
use crate::smooth::{smooth_line, smooth_line_drawn};
use crate::triangle::{covers_pixel, det, gradient_triangle_drawn, magnitude, shade_channel, Gradient};

verus! {

/// A fill in the four-neighbourhood changes no pixel outside the
/// four-connected region of the seed, and a fill in the eight-neighbourhood
/// paints every pixel of the eight-connected region, which holds the
/// four-connected one.
pub proof fn lemma_fill_follows_connectivity(r: Raster, seed: (int, int), color: Color, x: int, y: int)
    requires
        r.wf(),
        r.contains(seed.0, seed.1),
        r.contains(x, y),
    ensures
        !connected(r, Connectivity::FOUR, seed, (x, y)) ==> filled_with_color(
            r,
            seed,
            color,
            Connectivity::FOUR,
        ).at(x, y) == r.at(x, y),
        connected(r, Connectivity::FOUR, seed, (x, y)) ==> filled_with_color(
            r,
            seed,
            color,
            Connectivity::FOUR,
        ).at(x, y) == color,
        connected(r, Connectivity::EIGHT, seed, (x, y)) ==> filled_with_color(
            r,
            seed,
            color,
            Connectivity::EIGHT,
        ).at(x, y) == color,
        connected(r, Connectivity::FOUR, seed, (x, y)) ==> connected(r, Connectivity::EIGHT, seed, (x, y)),
{
    Raster::lemma_from_fn_at(r.width, r.height, flood_painter(r, Connectivity::FOUR, seed, solid(color)), x, y);
    Raster::lemma_from_fn_at(r.width, r.height, flood_painter(r, Connectivity::EIGHT, seed, solid(color)), x, y);
    if connected(r, Connectivity::FOUR, seed, (x, y)) {
        lemma_four_within_eight(r, seed, (x, y));
    }
}

/// A pixel that is not the seed and has no orthogonal neighbour of the
/// seed's colour on the grid is left alone by a fill in the
/// four-neighbourhood, whatever lies diagonally next to it.
pub proof fn lemma_four_stops_at_diagonal(r: Raster, seed: (int, int), color: Color, x: int, y: int)
    requires
        r.wf(),
        r.contains(seed.0, seed.1),
        r.contains(x, y),
        (x, y) != seed,
        !(r.contains(x - 1, y) && r.at(x - 1, y) == r.at(seed.0, seed.1)),
        !(r.contains(x + 1, y) && r.at(x + 1, y) == r.at(seed.0, seed.1)),
        !(r.contains(x, y - 1) && r.at(x, y - 1) == r.at(seed.0, seed.1)),
        !(r.contains(x, y + 1) && r.at(x, y + 1) == r.at(seed.0, seed.1)),
    ensures
        filled_with_color(r, seed, color, Connectivity::FOUR).at(x, y) == r.at(x, y),
{
    if connected(r, Connectivity::FOUR, seed, (x, y)) {
        let path = choose|path: Seq<(int, int)>|
            #[trigger] is_path(r, Connectivity::FOUR, r.at(seed.0, seed.1), path) && path[0] == seed
                && path.last() == (x, y);
        let n = path.len() as int;
        assert(n >= 2);
        let p = path[n - 2];
        assert(Connectivity::FOUR.adjacent(path[n - 2], path[n - 2 + 1]));
        assert(r.contains(p.0, p.1) && r.at(p.0, p.1) == r.at(seed.0, seed.1));
        assert(false);
    }
    lemma_fill_follows_connectivity(r, seed, color, x, y);
}

/// A pixel of the seed's colour that lies diagonally next to the seed is
/// painted by a fill in the eight-neighbourhood.
pub proof fn lemma_eight_crosses_diagonal(r: Raster, seed: (int, int), color: Color, x: int, y: int)
    requires
        r.wf(),
        r.contains(seed.0, seed.1),
        r.contains(x, y),
        r.at(x, y) == r.at(seed.0, seed.1),
        x == seed.0 + 1 || x == seed.0 - 1,
        y == seed.1 + 1 || y == seed.1 - 1,
    ensures
        filled_with_color(r, seed, color, Connectivity::EIGHT).at(x, y) == color,
{
    lemma_connected_self(r, Connectivity::EIGHT, seed);
    lemma_connected_step(r, Connectivity::EIGHT, seed, seed, (x, y));
    lemma_fill_follows_connectivity(r, seed, color, x, y);
}

/// A pattern fill gives the seed the colour of the image's corner `(0, 0)`.
pub proof fn lemma_pattern_anchor(r: Raster, seed: (int, int), image: Raster, conn: Connectivity)
    requires
        r.wf(),
        r.contains(seed.0, seed.1),
        image.width > 0,
        image.height > 0,
    ensures
        filled_with_image(r, seed, image, conn).at(seed.0, seed.1) == image.at(0, 0),
{
    lemma_connected_self(r, conn, seed);
    Raster::lemma_from_fn_at(
        r.width,
        r.height,
        flood_painter(r, conn, seed, tiled(image, seed)),
        seed.0,
        seed.1,
    );
    vstd::arithmetic::div_mod::lemma_small_mod(0, image.width);
    vstd::arithmetic::div_mod::lemma_small_mod(0, image.height);
    assert(seed.0 - seed.0 == 0 && seed.1 - seed.1 == 0);
}

/// A pattern fill repeats with the size of the image: two pixels of the
/// region that lie the image's width apart in a row, or its height apart in
/// a column, get the same colour.
pub proof fn lemma_pattern_period(r: Raster, seed: (int, int), image: Raster, conn: Connectivity, x: int, y: int)
    requires
        r.wf(),
        r.contains(seed.0, seed.1),
        image.width > 0,
        image.height > 0,
        connected(r, conn, seed, (x, y)),
    ensures
        connected(r, conn, seed, (x + image.width, y)) ==> filled_with_image(r, seed, image, conn).at(
            x + image.width,
            y,
        ) == filled_with_image(r, seed, image, conn).at(x, y),
        connected(r, conn, seed, (x, y + image.height)) ==> filled_with_image(r, seed, image, conn).at(
            x,
            y + image.height,
        ) == filled_with_image(r, seed, image, conn).at(x, y),
{
    let f = flood_painter(r, conn, seed, tiled(image, seed));
    crate::region::lemma_connected_color(r, conn, seed, (x, y));
    Raster::lemma_from_fn_at(r.width, r.height, f, x, y);
    let w = image.width as int;
    let h = image.height as int;
    if connected(r, conn, seed, (x + w, y)) {
        crate::region::lemma_connected_color(r, conn, seed, (x + w, y));
        Raster::lemma_from_fn_at(r.width, r.height, f, x + w, y);
        vstd::arithmetic::div_mod::lemma_mod_add_multiples_vanish(x - seed.0, w);
        assert(x + w - seed.0 == w + (x - seed.0));
    }
    if connected(r, conn, seed, (x, y + h)) {
        crate::region::lemma_connected_color(r, conn, seed, (x, y + h));
        Raster::lemma_from_fn_at(r.width, r.height, f, x, y + h);
        vstd::arithmetic::div_mod::lemma_mod_add_multiples_vanish(y - seed.1, h);
        assert(y + h - seed.1 == h + (y - seed.1));
    }
}

/// After a fill from a seed, the contour traced from the same seed passes
/// only over pixels of the fill colour.
pub proof fn lemma_fill_then_trace(r: Raster, seed: (int, int), color: Color, conn: Connectivity)
    requires
        r.wf(),
        r.contains(seed.0, seed.1),
    ensures
        forall|i: int|
            0 <= i < contour(filled_with_color(r, seed, color, conn), seed).len() ==> {
                let p = #[trigger] contour(filled_with_color(r, seed, color, conn), seed)[i];
                filled_with_color(r, seed, color, conn).at(p.0, p.1) == color
            },
{
    let filled = filled_with_color(r, seed, color, conn);
    lemma_connected_self(r, conn, seed);
    Raster::lemma_from_fn_at(r.width, r.height, flood_painter(r, conn, seed, solid(color)), seed.0, seed.1);
    assert(filled.at(seed.0, seed.1) == color);
    assert(0 <= filled.width * filled.height) by (nonlinear_arith)
        requires
            0 <= filled.width,
            0 <= filled.height,
    ;
    lemma_walk(filled, seed, seed.0, seed.1, 0, 0);
}

/// A smooth segment that runs along a row of pixels, exactly on the row's
/// coordinate, covers the pixels of that row between its ends in full and
/// contributes nothing to the next row: the pixels from the first end's
/// column to the last end's become `color`, all others keep their colour.
pub proof fn lemma_smooth_horizontal(r: Raster, p: Point, q: Point, color: Color, x: int, y: int)
    requires
        r.wf(),
        r.contains(p.cell().0, p.cell().1),
        r.contains(q.cell().0, q.cell().1),
        p.y == q.y,
        p.y as int % 256 == 0,
        p.x != q.x,
        r.contains(x, y),
    ensures
        smooth_line_drawn(r, p, q, color).at(x, y) == if y == p.cell().1 && (p.cell().0 <= x <= q.cell().0
            || q.cell().0 <= x <= p.cell().0) {
            color
        } else {
            r.at(x, y)
        },
{
    let line = smooth_line(p, q);
    Raster::lemma_from_fn_at(r.width, r.height, line.painter(r, color), x, y);
    lemma_level_line(line.start, line.run, x - line.first);
    lemma_mix_ends(r.at(x, y), color, line.den());
    lemma_floor_monotone(p.x as int, q.x as int);
    lemma_floor_monotone(q.x as int, p.x as int);
}

/// A smooth segment that runs along a column of pixels, exactly on the
/// column's coordinate, covers the pixels of that column between its ends
/// in full and contributes nothing to the next column.
pub proof fn lemma_smooth_vertical(r: Raster, p: Point, q: Point, color: Color, x: int, y: int)
    requires
        r.wf(),
        r.contains(p.cell().0, p.cell().1),
        r.contains(q.cell().0, q.cell().1),
        p.x == q.x,
        p.x as int % 256 == 0,
        p.y != q.y,
        r.contains(x, y),
    ensures
        smooth_line_drawn(r, p, q, color).at(x, y) == if x == p.cell().0 && (p.cell().1 <= y <= q.cell().1
            || q.cell().1 <= y <= p.cell().1) {
            color
        } else {
            r.at(x, y)
        },
{
    let line = smooth_line(p, q);
    Raster::lemma_from_fn_at(r.width, r.height, line.painter(r, color), x, y);
    lemma_level_line(line.start, line.run, y - line.first);
    lemma_mix_ends(r.at(x, y), color, line.den());
    lemma_floor_monotone(p.y as int, q.y as int);
    lemma_floor_monotone(q.y as int, p.y as int);
}

/// The pixel of a coordinate does not decrease when the coordinate grows.
proof fn lemma_floor_monotone(a: int, b: int)
    ensures
        a <= b ==> spec_pixel_floor(a) <= spec_pixel_floor(b),
{
}

/// A line without slope that starts on a whole pixel stays on that pixel
/// with nothing left over.
proof fn lemma_level_line(start: int, run: int, k: int)
    requires
        start % 256 == 0,
        run > 0,
    ensures
        (start * run + (k + 1) * 0 * 256) / (256 * run) == start / 256,
        (start * run + (k + 1) * 0 * 256) % (256 * run) == 0,
{
    let j = start / 256;
    assert(start == 256 * j);
    assert((k + 1) * 0 * 256 == 0) by (nonlinear_arith);
    assert(start * run == j * (256 * run) + 0) by (nonlinear_arith)
        requires
            start == 256 * j,
    ;
    vstd::arithmetic::div_mod::lemma_fundamental_div_mod_converse(start * run, 256 * run, j, 0);
}

/// A channel of a mean in which one colour has all the weight is that
/// colour's channel.
proof fn lemma_shade_channel_corner(d: int, c1: int, c2: int, c3: int)
    requires
        d != 0,
    ensures
        shade_channel(d, 0, 0, d, c1, c2, c3) == c1,
        shade_channel(0, d, 0, d, c1, c2, c3) == c2,
        shade_channel(0, 0, d, d, c1, c2, c3) == c3,
{
    let n = magnitude(d);
    assert(2 * (n * c1 + 0 * c2 + 0 * c3) + n == c1 * (2 * n) + n) by (nonlinear_arith);
    vstd::arithmetic::div_mod::lemma_fundamental_div_mod_converse(
        2 * (n * c1 + 0 * c2 + 0 * c3) + n,
        2 * n,
        c1,
        n,
    );
    assert(2 * (0 * c1 + n * c2 + 0 * c3) + n == c2 * (2 * n) + n) by (nonlinear_arith);
    vstd::arithmetic::div_mod::lemma_fundamental_div_mod_converse(
        2 * (0 * c1 + n * c2 + 0 * c3) + n,
        2 * n,
        c2,
        n,
    );
    assert(2 * (0 * c1 + 0 * c2 + n * c3) + n == c3 * (2 * n) + n) by (nonlinear_arith);
    vstd::arithmetic::div_mod::lemma_fundamental_div_mod_converse(
        2 * (0 * c1 + 0 * c2 + n * c3) + n,
        2 * n,
        c3,
        n,
    );
}

/// In a triangle with an area, a corner that lies on the corner of a pixel
/// of the grid gives that pixel its own colour, unmixed.
pub proof fn lemma_triangle_corners(r: Raster, g: Gradient, x: int, y: int)
    requires
        r.wf(),
        r.contains(x, y),
        det(g.a, g.b, g.c) != 0,
    ensures
        g.a.x == x * 256 && g.a.y == y * 256 ==> gradient_triangle_drawn(r, g).at(x, y) == g.color_a,
        g.b.x == x * 256 && g.b.y == y * 256 ==> gradient_triangle_drawn(r, g).at(x, y) == g.color_b,
        g.c.x == x * 256 && g.c.y == y * 256 ==> gradient_triangle_drawn(r, g).at(x, y) == g.color_c,
{
    Raster::lemma_from_fn_at(r.width, r.height, g.painter(r), x, y);
    let d = det(g.a, g.b, g.c);
    lemma_shade_channel_corner(d, g.color_a.r as int, g.color_b.r as int, g.color_c.r as int);
    lemma_shade_channel_corner(d, g.color_a.g as int, g.color_b.g as int, g.color_c.g as int);
    lemma_shade_channel_corner(d, g.color_a.b as int, g.color_b.b as int, g.color_c.b as int);
    lemma_shade_channel_corner(d, g.color_a.a as int, g.color_b.a as int, g.color_c.a as int);
    let ax = g.a.x as int;
    let ay = g.a.y as int;
    let bx = g.b.x as int;
    let by = g.b.y as int;
    let cx = g.c.x as int;
    let cy = g.c.y as int;
    if g.b.x == x * 256 && g.b.y == y * 256 {
        assert((by - cy) * (bx - cx) + (cx - bx) * (by - cy) == 0) by (nonlinear_arith);
        assert((cy - ay) * (bx - cx) + (ax - cx) * (by - cy) == (by - cy) * (ax - cx) + (cx - bx) * (ay - cy))
            by (nonlinear_arith);
    }
    if g.c.x == x * 256 && g.c.y == y * 256 {
        assert((by - cy) * (cx - cx) + (cx - bx) * (cy - cy) == 0) by (nonlinear_arith);
        assert((cy - ay) * (cx - cx) + (ax - cx) * (cy - cy) == 0) by (nonlinear_arith);
    }
    if g.a.x == x * 256 && g.a.y == y * 256 {
        assert((cy - ay) * (ax - cx) + (ax - cx) * (ay - cy) == 0) by (nonlinear_arith);
    }
}

/// A pixel outside the triangle keeps its colour.
pub proof fn lemma_triangle_outside(r: Raster, g: Gradient, x: int, y: int)
    requires
        r.wf(),
        r.contains(x, y),
        !covers_pixel(g.a, g.b, g.c, x, y),
    ensures
        gradient_triangle_drawn(r, g).at(x, y) == r.at(x, y),
{
    Raster::lemma_from_fn_at(r.width, r.height, g.painter(r), x, y);
}

} // verus!
