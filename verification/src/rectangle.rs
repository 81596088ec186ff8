//! The contour of a filled rectangle: the walk round a rectangle of one
//! colour comes back to where it started.

use vstd::prelude::*;
use crate::boundary::{contour, contour_closed, direction, next_move, successor, walk, Move};
use crate::color::Color;
use crate::raster::Raster;

verus! {

/// A rectangle of pixels: the columns from `x0` to `x1` and the rows from
/// `y0` to `y1`, all four included.
pub struct Rect {
    pub x0: int,
    pub y0: int,
    pub x1: int,
    pub y1: int,
}

impl Rect {
    /// Whether the pixel `(x, y)` lies in the rectangle.
    pub open spec fn holds(self, x: int, y: int) -> bool {
        self.x0 <= x <= self.x1 && self.y0 <= y <= self.y1
    }

    /// The number of columns.
    pub open spec fn columns(self) -> int {
        self.x1 - self.x0 + 1
    }

    /// The number of rows.
    pub open spec fn rows(self) -> int {
        self.y1 - self.y0 + 1
    }

    /// The number of pixels on the rim of a rectangle with at least two
    /// rows and two columns.
    pub open spec fn rim(self) -> int {
        2 * (self.columns() + self.rows()) - 4
    }
}

/// Whether the rectangle `b` is a filled region of the grid: it lies on the
/// grid, all its pixels have the colour `color`, and no pixel of the grid
/// that touches it from outside has that colour.
pub open spec fn is_filled_rect(r: Raster, b: Rect, color: Color) -> bool {
    &&& b.x0 <= b.x1
    &&& b.y0 <= b.y1
    &&& r.contains(b.x0, b.y0)
    &&& r.contains(b.x1, b.y1)
    &&& forall|x: int, y: int|
        r.contains(x, y) && b.x0 - 1 <= x <= b.x1 + 1 && b.y0 - 1 <= y <= b.y1 + 1 ==> ((#[trigger] r.at(x, y))
            == color <==> b.holds(x, y))
}

/// The first neighbour of `(x, y)` inside the rectangle, looking in the
/// directions from `first + offset` on round the ring.
spec fn rect_move(b: Rect, x: int, y: int, first: int, offset: int) -> Option<Move>
    decreases 8 - offset,
{
    if offset >= 8 {
        None
    } else {
        let d = (first + offset) % 8;
        let nx = x + direction(d).0;
        let ny = y + direction(d).1;
        if b.holds(nx, ny) {
            Some(Move { x: nx, y: ny, dir: d })
        } else {
            rect_move(b, x, y, first, offset + 1)
        }
    }
}

/// On a filled rectangle the walk moves to the first neighbour inside the
/// rectangle.
proof fn lemma_move_in_rect(r: Raster, b: Rect, color: Color, x: int, y: int, first: int, offset: int)
    requires
        is_filled_rect(r, b, color),
        b.holds(x, y),
        0 <= first < 8,
        0 <= offset,
    ensures
        next_move(r, color, x, y, first, offset) == rect_move(b, x, y, first, offset),
    decreases 8 - offset,
{
    if offset < 8 {
        let d = (first + offset) % 8;
        let nx = x + direction(d).0;
        let ny = y + direction(d).1;
        if r.contains(nx, ny) {
            assert(r.at(nx, ny) == color <==> b.holds(nx, ny));
        }
        lemma_move_in_rect(r, b, color, x, y, first, offset + 1);
    }
}

/// Whether the neighbour of `(x, y)` in the direction `first + j` lies
/// inside the rectangle.
spec fn hit(b: Rect, x: int, y: int, first: int, j: int) -> bool {
    b.holds(x + direction((first + j) % 8).0, y + direction((first + j) % 8).1)
}

/// The search finds the neighbour in the direction `first + k` when that
/// one lies inside the rectangle and none of those looked at before it
/// does.
proof fn lemma_rect_move_found(b: Rect, x: int, y: int, first: int, offset: int, k: int)
    requires
        0 <= offset <= k < 8,
        hit(b, x, y, first, k),
        forall|j: int| offset <= j < k ==> !#[trigger] hit(b, x, y, first, j),
    ensures
        rect_move(b, x, y, first, offset) == Some(
            Move {
                x: x + direction((first + k) % 8).0,
                y: y + direction((first + k) % 8).1,
                dir: (first + k) % 8,
            },
        ),
    decreases k - offset,
{
    if offset < k {
        assert(!hit(b, x, y, first, offset));
        lemma_rect_move_found(b, x, y, first, offset + 1, k);
    }
}

/// The search finds nothing when none of the neighbours it looks at lies
/// inside the rectangle.
proof fn lemma_rect_move_none(b: Rect, x: int, y: int, first: int, offset: int)
    requires
        0 <= offset,
        forall|j: int| offset <= j < 8 ==> !#[trigger] hit(b, x, y, first, j),
    ensures
        rect_move(b, x, y, first, offset).is_none(),
    decreases 8 - offset,
{
    if offset < 8 {
        assert(!hit(b, x, y, first, offset));
        lemma_rect_move_none(b, x, y, first, offset + 1);
    }
}

/// The move of the walk from the pixel `(x, y)` of a filled rectangle,
/// reached in direction `dir`, is the move to the first neighbour inside
/// the rectangle.
proof fn lemma_successor_in_rect(r: Raster, b: Rect, color: Color, x: int, y: int, dir: int, first: int)
    requires
        is_filled_rect(r, b, color),
        b.holds(x, y),
        0 <= dir < 8,
        first == (dir + 6) % 8,
    ensures
        successor(r, color, x, y, dir) == rect_move(b, x, y, first, 0),
{
    lemma_move_in_rect(r, b, color, x, y, first, 0);
}

/// The place of a rim pixel on the way round the rim: down the left
/// column, along the bottom row to the right, up the right column, and
/// along the top row to the left.
spec fn rim_index(b: Rect, x: int, y: int) -> int {
    if x == b.x0 && y < b.y1 {
        y - b.y0
    } else if y == b.y1 && x < b.x1 {
        (b.rows() - 1) + (x - b.x0)
    } else if x == b.x1 && y > b.y0 {
        (b.rows() - 1) + (b.columns() - 1) + (b.y1 - y)
    } else {
        2 * (b.rows() - 1) + (b.columns() - 1) + (b.x1 - x)
    }
}

/// Whether `(x, y)` lies on the rim of the rectangle.
spec fn on_rim(b: Rect, x: int, y: int) -> bool {
    b.holds(x, y) && (x == b.x0 || x == b.x1 || y == b.y0 || y == b.y1)
}

/// Whether the walk, standing on the rim pixel `(x, y)` which it reached in
/// direction `dir`, is on its way round the rim.
spec fn on_course(b: Rect, x: int, y: int, dir: int) -> bool {
    on_rim(b, x, y) && if x == b.x0 && y < b.y1 {
        dir == 6 || dir == 0 || (y == b.y0 && dir == 4)
    } else if y == b.y1 && x < b.x1 {
        dir == 0 || (x == b.x0 && dir == 6)
    } else if x == b.x1 && y > b.y0 {
        dir == 2 || (y == b.y1 && dir == 0)
    } else {
        dir == 4 || (x == b.x1 && dir == 2)
    }
}

/// A walk on its way round the rim moves to the next rim pixel and stays
/// on its way.
proof fn lemma_rim_step(r: Raster, b: Rect, color: Color, x: int, y: int, dir: int)
    requires
        is_filled_rect(r, b, color),
        b.x0 < b.x1,
        b.y0 < b.y1,
        on_course(b, x, y, dir),
    ensures
        successor(r, color, x, y, dir).is_some(),
        on_course(
            b,
            successor(r, color, x, y, dir).unwrap().x,
            successor(r, color, x, y, dir).unwrap().y,
            successor(r, color, x, y, dir).unwrap().dir,
        ),
        rim_index(b, successor(r, color, x, y, dir).unwrap().x, successor(r, color, x, y, dir).unwrap().y)
            == if rim_index(b, x, y) + 1 < b.rim() {
            rim_index(b, x, y) + 1
        } else {
            0
        },
{
    let first = (dir + 6) % 8;
    let next: int = if x == b.x0 && y < b.y1 {
        6
    } else if y == b.y1 && x < b.x1 {
        0
    } else if x == b.x1 && y > b.y0 {
        2
    } else {
        4
    };
    let k = if next >= first {
        next - first
    } else {
        next + 8 - first
    };
    lemma_successor_in_rect(r, b, color, x, y, dir, first);
    lemma_rect_move_found(b, x, y, first, 0, k);
}

/// Two rim pixels with the same place on the way round are the same pixel.
proof fn lemma_rim_index_unique(b: Rect, x: int, y: int, x2: int, y2: int)
    requires
        b.x0 < b.x1,
        b.y0 < b.y1,
        on_rim(b, x, y),
        on_rim(b, x2, y2),
        rim_index(b, x, y) == rim_index(b, x2, y2),
    ensures
        x == x2,
        y == y2,
{
}

/// A walk on its way round the rim, with the start `k` steps ahead,
/// records `k` pixels, comes back to the start and records it.
proof fn lemma_rim_walk(r: Raster, b: Rect, start: (int, int), x: int, y: int, dir: int, done: nat, k: int)
    requires
        r.wf(),
        is_filled_rect(r, b, r.at(start.0, start.1)),
        b.x0 < b.x1,
        b.y0 < b.y1,
        on_rim(b, start.0, start.1),
        on_course(b, x, y, dir),
        1 <= k <= b.rim(),
        rim_index(b, start.0, start.1) == rim_index(b, x, y) + k || rim_index(b, start.0, start.1) == rim_index(
            b,
            x,
            y,
        ) + k - b.rim(),
        done + k <= r.width * r.height,
    ensures
        walk(r, start, x, y, dir, done).len() == k + 1,
        walk(r, start, x, y, dir, done).last() == start,
    decreases k,
{
    let color = r.at(start.0, start.1);
    lemma_rim_step(r, b, color, x, y, dir);
    let m = successor(r, color, x, y, dir).unwrap();
    assert(0 <= rim_index(b, x, y) < b.rim());
    assert(0 <= rim_index(b, start.0, start.1) < b.rim());
    if k == 1 {
        lemma_rim_index_unique(b, m.x, m.y, start.0, start.1);
    } else {
        if (m.x, m.y) == start {
            assert(rim_index(b, m.x, m.y) == rim_index(b, start.0, start.1));
            assert(false);
        }
        lemma_rim_walk(r, b, start, m.x, m.y, m.dir, done + 1, k - 1);
    }
}

/// The rim of a rectangle with at least two rows and two columns has no
/// more pixels than the rectangle, and the rectangle no more than the grid
/// it lies on.
proof fn lemma_rim_fits(r: Raster, b: Rect)
    requires
        b.x0 < b.x1,
        b.y0 < b.y1,
        r.contains(b.x0, b.y0),
        r.contains(b.x1, b.y1),
    ensures
        4 <= b.rim() <= b.columns() * b.rows(),
        b.columns() * b.rows() <= r.width * r.height,
{
    let c = b.columns();
    let w = b.rows();
    assert(2 * (c + w) - 4 <= c * w) by (nonlinear_arith)
        requires
            c >= 2,
            w >= 2,
    ;
    assert(c * w <= r.width * r.height) by (nonlinear_arith)
        requires
            0 <= c <= r.width,
            0 <= w <= r.height,
    ;
}

/// The contour of a filled rectangle with at least two rows and two
/// columns, traced from any of its pixels, is a closed loop: it starts and
/// ends on the seed. Traced from a pixel of the left column or the bottom
/// row it runs once round the rim, so it has one pixel more than the rim;
/// from any other pixel it turns through the four pixels of the square below
/// and to the left, so it has five. It is no longer than the number of
/// pixels of the grid unless the rectangle covers the whole grid.
pub proof fn lemma_trace_filled_rectangle(r: Raster, b: Rect, seed: (int, int))
    requires
        r.wf(),
        b.holds(seed.0, seed.1),
        is_filled_rect(r, b, r.at(seed.0, seed.1)),
        b.x0 < b.x1,
        b.y0 < b.y1,
    ensures
        contour_closed(r, seed),
        contour(r, seed).first() == seed,
        contour(r, seed).last() == seed,
        contour(r, seed).len() == if seed.0 == b.x0 || seed.1 == b.y1 {
            b.rim() + 1
        } else {
            5
        },
        contour(r, seed).len() <= r.width * r.height + 1,
        b.columns() * b.rows() < r.width * r.height ==> contour(r, seed).len() <= r.width * r.height,
{
    let color = r.at(seed.0, seed.1);
    lemma_rim_fits(r, b);
    let x = seed.0;
    let y = seed.1;
    if x == b.x0 || y == b.y1 {
        assert(on_course(b, x, y, 0));
        lemma_rim_walk(r, b, seed, x, y, 0, 0, b.rim());
    } else {
        lemma_successor_in_rect(r, b, color, x, y, 0, 6);
        lemma_rect_move_found(b, x, y, 6, 0, 0);
        lemma_successor_in_rect(r, b, color, x, y + 1, 6, 4);
        lemma_rect_move_found(b, x, y + 1, 4, 0, 0);
        lemma_successor_in_rect(r, b, color, x - 1, y + 1, 4, 2);
        lemma_rect_move_found(b, x - 1, y + 1, 2, 0, 0);
        lemma_successor_in_rect(r, b, color, x - 1, y, 2, 0);
        lemma_rect_move_found(b, x - 1, y, 0, 0, 0);
        assert(successor(r, color, x, y, 0) == Some(Move { x, y: y + 1, dir: 6 }));
        assert(successor(r, color, x, y + 1, 6) == Some(Move { x: x - 1, y: y + 1, dir: 4 }));
        assert(successor(r, color, x - 1, y + 1, 4) == Some(Move { x: x - 1, y, dir: 2 }));
        assert(successor(r, color, x - 1, y, 2) == Some(Move { x, y, dir: 0 }));
        let fourth = walk(r, seed, x - 1, y, 2, 3);
        let third = walk(r, seed, x - 1, y + 1, 4, 2);
        let second = walk(r, seed, x, y + 1, 6, 1);
        assert(fourth == seq![(x - 1, y)].push(seed));
        assert(fourth.len() == 2 && fourth.last() == seed);
        assert(third == seq![(x - 1, y + 1)] + fourth);
        assert(third.len() == 3 && third.last() == seed);
        assert(second == seq![(x, y + 1)] + third);
        assert(second.len() == 4 && second.last() == seed);
        assert(contour(r, seed) == seq![(x, y)] + second);
    }
}

/// The pixel at place `t` of a rectangle that is a single column, counted
/// from the top, or a single row, counted from the left.
spec fn line_pixel(b: Rect, t: int) -> (int, int) {
    if b.x0 == b.x1 {
        (b.x0, b.y0 + t)
    } else {
        (b.x0 + t, b.y0)
    }
}

/// The direction in which the places of such a line are counted.
spec fn line_forward(b: Rect) -> int {
    if b.x0 == b.x1 {
        6
    } else {
        0
    }
}

/// The direction against which the places of such a line are counted.
spec fn line_backward(b: Rect) -> int {
    if b.x0 == b.x1 {
        2
    } else {
        4
    }
}

/// The number of pixels of such a line.
spec fn line_len(b: Rect) -> int {
    (b.x1 - b.x0) + (b.y1 - b.y0) + 1
}

/// Whether the walk, at place `t` reached in direction `dir`, will move
/// forward along the line.
spec fn advancing(b: Rect, t: int, dir: int) -> bool {
    0 <= t < line_len(b) - 1 && (dir == line_forward(b) || dir == 0 || (t == 0 && dir == line_backward(b)))
}

/// Whether the walk, at place `t` reached in direction `dir`, will move
/// backward along the line.
spec fn retreating(b: Rect, t: int, dir: int) -> bool {
    0 < t < line_len(b) && (dir == line_backward(b) || (t == line_len(b) - 1 && (dir == line_forward(b) || dir
        == 0)))
}

/// Whether the rectangle is a single column or a single row of at least
/// two pixels.
spec fn is_line(b: Rect) -> bool {
    (b.x0 == b.x1 && b.y0 < b.y1) || (b.y0 == b.y1 && b.x0 < b.x1)
}

/// On a single column, the first neighbour inside it is the pixel below
/// when there is one and the search does not meet the pixel above first.
proof fn lemma_column_moves(b: Rect, y: int, first: int)
    requires
        b.x0 == b.x1,
        b.y0 <= y <= b.y1,
        0 <= first < 8,
    ensures
        y < b.y1 && (3 <= first <= 6 || y == b.y0) ==> rect_move(b, b.x0, y, first, 0) == Some(
            Move { x: b.x0, y: y + 1, dir: 6 },
        ),
        y > b.y0 && (first <= 2 || first == 7 || y == b.y1) ==> rect_move(b, b.x0, y, first, 0) == Some(
            Move { x: b.x0, y: y - 1, dir: 2 },
        ),
{
    if y < b.y1 && (3 <= first <= 6 || y == b.y0) {
        let k = if first <= 6 {
            6 - first
        } else {
            7
        };
        lemma_rect_move_found(b, b.x0, y, first, 0, k);
    }
    if y > b.y0 && (first <= 2 || first == 7 || y == b.y1) {
        let k = if first <= 2 {
            2 - first
        } else {
            10 - first
        };
        lemma_rect_move_found(b, b.x0, y, first, 0, k);
    }
}

/// On a single row, the first neighbour inside it is the pixel to the
/// right when there is one and the search does not meet the pixel to the
/// left first.
proof fn lemma_row_moves(b: Rect, x: int, first: int)
    requires
        b.y0 == b.y1,
        b.x0 <= x <= b.x1,
        0 <= first < 8,
    ensures
        x < b.x1 && (first == 0 || first >= 5 || x == b.x0) ==> rect_move(b, x, b.y0, first, 0) == Some(
            Move { x: x + 1, y: b.y0, dir: 0 },
        ),
        x > b.x0 && (1 <= first <= 4 || x == b.x1) ==> rect_move(b, x, b.y0, first, 0) == Some(
            Move { x: x - 1, y: b.y0, dir: 4 },
        ),
{
    if x < b.x1 && (first == 0 || first >= 5 || x == b.x0) {
        let k = if first == 0 {
            0
        } else {
            8 - first
        };
        lemma_rect_move_found(b, x, b.y0, first, 0, k);
    }
    if x > b.x0 && (1 <= first <= 4 || x == b.x1) {
        let k = if first <= 4 {
            4 - first
        } else {
            12 - first
        };
        lemma_rect_move_found(b, x, b.y0, first, 0, k);
    }
}

/// On a filled line the walk moves one place forward or one place backward.
proof fn lemma_line_step(r: Raster, b: Rect, color: Color, t: int, dir: int)
    requires
        is_filled_rect(r, b, color),
        is_line(b),
        0 <= dir < 8,
    ensures
        advancing(b, t, dir) ==> successor(r, color, line_pixel(b, t).0, line_pixel(b, t).1, dir) == Some(
            Move { x: line_pixel(b, t + 1).0, y: line_pixel(b, t + 1).1, dir: line_forward(b) },
        ),
        retreating(b, t, dir) ==> successor(r, color, line_pixel(b, t).0, line_pixel(b, t).1, dir) == Some(
            Move { x: line_pixel(b, t - 1).0, y: line_pixel(b, t - 1).1, dir: line_backward(b) },
        ),
{
    if advancing(b, t, dir) || retreating(b, t, dir) {
        let first = (dir + 6) % 8;
        lemma_successor_in_rect(r, b, color, line_pixel(b, t).0, line_pixel(b, t).1, dir, first);
        if b.x0 == b.x1 {
            lemma_column_moves(b, b.y0 + t, first);
        } else {
            lemma_row_moves(b, b.x0 + t, first);
        }
    }
}

/// A walk that moves backward along a filled line, with the start `t - s`
/// places behind it, comes back to the start and records it.
proof fn lemma_line_retreat(r: Raster, b: Rect, start: (int, int), s: int, t: int, dir: int, done: nat)
    requires
        r.wf(),
        is_filled_rect(r, b, r.at(start.0, start.1)),
        is_line(b),
        start == line_pixel(b, s),
        0 <= s < t,
        retreating(b, t, dir),
        0 <= dir < 8,
        done + (t - s) <= r.width * r.height,
    ensures
        walk(r, start, line_pixel(b, t).0, line_pixel(b, t).1, dir, done).len() == t - s + 1,
        walk(r, start, line_pixel(b, t).0, line_pixel(b, t).1, dir, done).last() == start,
    decreases t - s,
{
    lemma_line_step(r, b, r.at(start.0, start.1), t, dir);
    if t - 1 > s {
        lemma_line_retreat(r, b, start, s, t - 1, line_backward(b), done + 1);
    }
}

/// A walk that moves forward along a filled line from the start or beyond
/// it goes on to the end of the line, comes back to the start and records
/// it.
proof fn lemma_line_advance_and_return(
    r: Raster,
    b: Rect,
    start: (int, int),
    s: int,
    t: int,
    dir: int,
    done: nat,
)
    requires
        r.wf(),
        is_filled_rect(r, b, r.at(start.0, start.1)),
        is_line(b),
        start == line_pixel(b, s),
        0 <= s <= t,
        advancing(b, t, dir),
        0 <= dir < 8,
        done + (line_len(b) - 1 - t) + (line_len(b) - 1 - s) <= r.width * r.height,
    ensures
        walk(r, start, line_pixel(b, t).0, line_pixel(b, t).1, dir, done).len() == (line_len(b) - 1 - t) + (
        line_len(b) - 1 - s) + 1,
        walk(r, start, line_pixel(b, t).0, line_pixel(b, t).1, dir, done).last() == start,
    decreases line_len(b) - t,
{
    lemma_line_step(r, b, r.at(start.0, start.1), t, dir);
    if t + 1 == line_len(b) - 1 {
        lemma_line_retreat(r, b, start, s, t + 1, line_forward(b), done + 1);
    } else {
        lemma_line_advance_and_return(r, b, start, s, t + 1, line_forward(b), done + 1);
    }
}

/// A walk that moves forward along a filled line whose last pixel is the
/// start comes back to the start and records it.
proof fn lemma_line_advance(r: Raster, b: Rect, start: (int, int), t: int, dir: int, done: nat)
    requires
        r.wf(),
        is_filled_rect(r, b, r.at(start.0, start.1)),
        is_line(b),
        start == line_pixel(b, line_len(b) - 1),
        advancing(b, t, dir),
        0 <= dir < 8,
        done + (line_len(b) - 1 - t) <= r.width * r.height,
    ensures
        walk(r, start, line_pixel(b, t).0, line_pixel(b, t).1, dir, done).len() == line_len(b) - 1 - t + 1,
        walk(r, start, line_pixel(b, t).0, line_pixel(b, t).1, dir, done).last() == start,
    decreases line_len(b) - t,
{
    lemma_line_step(r, b, r.at(start.0, start.1), t, dir);
    if t + 1 < line_len(b) - 1 {
        lemma_line_advance(r, b, start, t + 1, line_forward(b), done + 1);
    }
}

/// A walk that moves backward along a filled line whose last pixel is the
/// start goes on to the first pixel, comes back to the start and records
/// it.
proof fn lemma_line_retreat_and_return(r: Raster, b: Rect, start: (int, int), t: int, dir: int, done: nat)
    requires
        r.wf(),
        is_filled_rect(r, b, r.at(start.0, start.1)),
        is_line(b),
        start == line_pixel(b, line_len(b) - 1),
        retreating(b, t, dir),
        0 <= dir < 8,
        done + t + (line_len(b) - 1) <= r.width * r.height,
    ensures
        walk(r, start, line_pixel(b, t).0, line_pixel(b, t).1, dir, done).len() == t + (line_len(b) - 1) + 1,
        walk(r, start, line_pixel(b, t).0, line_pixel(b, t).1, dir, done).last() == start,
    decreases t,
{
    lemma_line_step(r, b, r.at(start.0, start.1), t, dir);
    if t - 1 == 0 {
        lemma_line_advance(r, b, start, 0, line_backward(b), done + 1);
    } else {
        lemma_line_retreat_and_return(r, b, start, t - 1, line_backward(b), done + 1);
    }
}

/// How far the walk along a filled line runs before it turns for the last
/// time: from the seed to the bottom or right end of the line, or the whole
/// length of the line when the seed is that end.
pub open spec fn line_reach(b: Rect, seed: (int, int)) -> int {
    if seed.0 == b.x1 && seed.1 == b.y1 {
        (b.x1 - b.x0) + (b.y1 - b.y0)
    } else {
        (b.x1 - seed.0) + (b.y1 - seed.1)
    }
}

/// The contour of a filled rectangle that is a single column or a single
/// row of at least two pixels runs from the seed to the bottom or right
/// end and back; when the seed is that end, to the other end and back. As
/// long as the grid has at least twice as many pixels as that way out, it
/// is a closed loop: it starts and ends on the seed and has one pixel more
/// than the way out and back.
pub proof fn lemma_trace_filled_line(r: Raster, b: Rect, seed: (int, int))
    requires
        r.wf(),
        b.holds(seed.0, seed.1),
        is_filled_rect(r, b, r.at(seed.0, seed.1)),
        (b.x0 == b.x1 && b.y0 < b.y1) || (b.y0 == b.y1 && b.x0 < b.x1),
        2 * line_reach(b, seed) <= r.width * r.height,
    ensures
        contour_closed(r, seed),
        contour(r, seed).first() == seed,
        contour(r, seed).last() == seed,
        contour(r, seed).len() == 2 * line_reach(b, seed) + 1,
        contour(r, seed).len() <= r.width * r.height + 1,
{
    let s = (seed.0 - b.x0) + (seed.1 - b.y0);
    assert(seed == line_pixel(b, s));
    if s == line_len(b) - 1 {
        lemma_line_retreat_and_return(r, b, seed, s, 0, 0);
    } else {
        lemma_line_advance_and_return(r, b, seed, s, s, 0, 0);
    }
}

/// The contour of a pixel that has no neighbour of its colour is that
/// pixel alone.
pub proof fn lemma_trace_single_pixel(r: Raster, seed: (int, int))
    requires
        r.wf(),
        is_filled_rect(r, (Rect { x0: seed.0, y0: seed.1, x1: seed.0, y1: seed.1 }), r.at(seed.0, seed.1)),
    ensures
        contour(r, seed) == seq![seed],
{
    let b = Rect { x0: seed.0, y0: seed.1, x1: seed.0, y1: seed.1 };
    lemma_successor_in_rect(r, b, r.at(seed.0, seed.1), seed.0, seed.1, 0, 6);
    lemma_rect_move_none(b, seed.0, seed.1, 6, 0);
}

} // verus!
