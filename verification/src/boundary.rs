//! Boundary tracing: the ordered contour of a same-coloured region, found by
//! walking from neighbour to neighbour.

use vstd::prelude::*;
use crate::canvas::Canvas;
use crate::color::Color;
use crate::line::touching;
use crate::point::Point;
use crate::raster::{lemma_push_contains, Raster};

verus! {

/// The eight directions, as steps `(dx, dy)`: number 0 points right, and
/// each following one is turned by an eighth of a circle towards smaller
/// `y`, so that 2 points up, 4 left and 6 down.
pub open spec fn direction(d: int) -> (int, int) {
    if d == 0 {
        (1, 0)
    } else if d == 1 {
        (1, -1)
    } else if d == 2 {
        (0, -1)
    } else if d == 3 {
        (-1, -1)
    } else if d == 4 {
        (-1, 0)
    } else if d == 5 {
        (-1, 1)
    } else if d == 6 {
        (0, 1)
    } else {
        (1, 1)
    }
}

/// One move of the walk: the pixel it arrives at and the direction taken.
pub struct Move {
    pub x: int,
    pub y: int,
    pub dir: int,
}

/// The first neighbour of `(x, y)` that lies on the grid and has the colour
/// `color`, looking in the directions `first + offset`, `first + offset + 1`,
/// and so on round the ring up to `first + 7`.
pub open spec fn next_move(r: Raster, color: Color, x: int, y: int, first: int, offset: int) -> Option<Move>
    decreases 8 - offset,
{
    if offset >= 8 {
        None
    } else {
        let d = (first + offset) % 8;
        let nx = x + direction(d).0;
        let ny = y + direction(d).1;
        if r.contains(nx, ny) && r.at(nx, ny) == color {
            Some(Move { x: nx, y: ny, dir: d })
        } else {
            next_move(r, color, x, y, first, offset + 1)
        }
    }
}

/// The move that the walk makes from `(x, y)`, having arrived there in
/// direction `dir`: the search starts a quarter turn back from `dir`.
pub open spec fn successor(r: Raster, color: Color, x: int, y: int, dir: int) -> Option<Move> {
    next_move(r, color, x, y, (dir + 6) % 8, 0)
}

/// The rest of the contour from `(x, y)` on, reached in direction `dir`
/// after `done` pixels have been recorded. The walk records `(x, y)` and
/// looks for its move. It ends there when it has no move, or when it has
/// recorded more pixels than the grid holds. When the move leads back to
/// `start`, it records `start` once more, which closes the contour, and
/// ends. Otherwise it moves on.
pub open spec fn walk(r: Raster, start: (int, int), x: int, y: int, dir: int, done: nat) -> Seq<(int, int)>
    decreases r.width * r.height + 1 - done,
{
    let here = seq![(x, y)];
    match successor(r, r.at(start.0, start.1), x, y, dir) {
        None => here,
        Some(m) => if done + 1 > r.width * r.height {
            here
        } else if (m.x, m.y) == start {
            here.push(start)
        } else {
            here + walk(r, start, m.x, m.y, m.dir, done + 1)
        },
    }
}

/// Whether the contour traced from `seed` is a closed loop: it has at
/// least two pixels, and its last pixel is its first.
pub open spec fn contour_closed(r: Raster, seed: (int, int)) -> bool {
    contour(r, seed).len() >= 2 && contour(r, seed).first() == contour(r, seed).last()
}

/// The contour traced from `seed`: empty when `seed` lies outside the grid.
pub open spec fn contour(r: Raster, seed: (int, int)) -> Seq<(int, int)> {
    if r.contains(seed.0, seed.1) {
        walk(r, seed, seed.0, seed.1, 0, 0)
    } else {
        Seq::empty()
    }
}

/// The pixels of a contour as integer pairs.
pub open spec fn as_cells(points: Seq<(usize, usize)>) -> Seq<(int, int)> {
    points.map_values(|p: (usize, usize)| (p.0 as int, p.1 as int))
}

/// A move found by the search leads to a pixel of the grid that has the
/// colour searched for and is one of the eight neighbours.
pub proof fn lemma_next_move(r: Raster, color: Color, x: int, y: int, first: int, offset: int)
    requires
        0 <= first < 8,
        0 <= offset,
    ensures
        match next_move(r, color, x, y, first, offset) {
            Some(m) => r.contains(m.x, m.y) && r.at(m.x, m.y) == color && 0 <= m.dir < 8 && m.x == x
                + direction(m.dir).0 && m.y == y + direction(m.dir).1,
            None => true,
        },
    decreases 8 - offset,
{
    if offset < 8 {
        let d = (first + offset) % 8;
        let nx = x + direction(d).0;
        let ny = y + direction(d).1;
        if !(r.contains(nx, ny) && r.at(nx, ny) == color) {
            lemma_next_move(r, color, x, y, first, offset + 1);
        }
    }
}

/// What holds of every walk: it starts where it stands, is no longer than
/// the count allows, passes only over pixels of the grid that have the
/// colour of `start`, and moves from each pixel to one of its eight
/// neighbours.
pub proof fn lemma_walk(r: Raster, start: (int, int), x: int, y: int, dir: int, done: nat)
    requires
        r.contains(x, y),
        r.contains(start.0, start.1),
        r.at(x, y) == r.at(start.0, start.1),
        0 <= dir < 8,
        done <= r.width * r.height,
    ensures
        walk(r, start, x, y, dir, done).len() >= 1,
        walk(r, start, x, y, dir, done)[0] == (x, y),
        done + walk(r, start, x, y, dir, done).len() <= r.width * r.height + 1,
        forall|i: int|
            0 <= i < walk(r, start, x, y, dir, done).len() ==> {
                let p = #[trigger] walk(r, start, x, y, dir, done)[i];
                r.contains(p.0, p.1) && r.at(p.0, p.1) == r.at(start.0, start.1)
            },
        forall|i: int|
            0 <= i < walk(r, start, x, y, dir, done).len() - 1 ==> touching(
                #[trigger] walk(r, start, x, y, dir, done)[i],
                walk(r, start, x, y, dir, done)[i + 1],
            ),
    decreases r.width * r.height + 1 - done,
{
    let color = r.at(start.0, start.1);
    let path = walk(r, start, x, y, dir, done);
    lemma_next_move(r, color, x, y, (dir + 6) % 8, 0);
    match successor(r, color, x, y, dir) {
        None => {},
        Some(m) => {
            assert(touching((x, y), (m.x, m.y)));
            if done + 1 > r.width * r.height {
            } else if (m.x, m.y) == start {
                assert(path[1] == start);
            } else {
                lemma_walk(r, start, m.x, m.y, m.dir, done + 1);
                let rest = walk(r, start, m.x, m.y, m.dir, done + 1);
                assert(path == seq![(x, y)] + rest);
                assert forall|i: int| 0 <= i < path.len() - 1 implies touching(#[trigger] path[i], path[i + 1]) by {
                    if i == 0 {
                        assert(path[1] == rest[0]);
                    } else {
                        assert(path[i] == rest[i - 1]);
                        assert(path[i + 1] == rest[i - 1 + 1]);
                    }
                }
                assert forall|i: int| 0 <= i < path.len() implies r.contains((#[trigger] path[i]).0, path[i].1)
                    && r.at(path[i].0, path[i].1) == color by {
                    if i > 0 {
                        assert(path[i] == rest[i - 1]);
                    }
                }
            }
        },
    }
}

impl Canvas {
    /// The neighbour of `(x, y)` in direction `d`, or `None` when it lies
    /// outside the canvas.
    fn neighbor(&self, x: usize, y: usize, d: u8) -> (n: Option<(usize, usize)>)
        requires
            self@.contains(x as int, y as int),
            d < 8,
        ensures
            match n {
                Some((nx, ny)) => self@.contains(nx as int, ny as int) && nx == x + direction(d as int).0
                    && ny == y + direction(d as int).1,
                None => !self@.contains(x + direction(d as int).0, y + direction(d as int).1),
            },
    {
        let right = d == 0 || d == 1 || d == 7;
        let left = d == 3 || d == 4 || d == 5;
        let up = d == 1 || d == 2 || d == 3;
        let down = d == 5 || d == 6 || d == 7;
        let w = self.width();
        let h = self.height();
        if (left && x == 0) || (up && y == 0) || (right && x + 1 >= w) || (down && y + 1 >= h) {
            return None;
        }
        let nx = if left {
            x - 1
        } else if right {
            x + 1
        } else {
            x
        };
        let ny = if up {
            y - 1
        } else if down {
            y + 1
        } else {
            y
        };
        Some((nx, ny))
    }

    /// The move of the walk from `(x, y)`, reached in direction `dir`.
    fn find_successor(&self, color: Color, x: usize, y: usize, dir: u8) -> (found: Option<(usize, usize, u8)>)
        requires
            self@.contains(x as int, y as int),
            dir < 8,
        ensures
            match found {
                Some((nx, ny, nd)) => successor(self@, color, x as int, y as int, dir as int) == Some(
                    Move { x: nx as int, y: ny as int, dir: nd as int },
                ),
                None => successor(self@, color, x as int, y as int, dir as int).is_none(),
            },
    {
        let first: u8 = (dir + 6) % 8;
        let mut offset: u8 = 0;
        while offset < 8
            invariant
                offset <= 8,
                first < 8,
                self@.contains(x as int, y as int),
                successor(self@, color, x as int, y as int, dir as int) == next_move(
                    self@,
                    color,
                    x as int,
                    y as int,
                    first as int,
                    offset as int,
                ),
            decreases 8 - offset,
        {
            let d: u8 = (first + offset) % 8;
            match self.neighbor(x, y, d) {
                Some((nx, ny)) => {
                    if self.pixel(nx, ny) == color {
                        return Some((nx, ny, d));
                    }
                },
                None => {},
            }
            offset += 1;
        }
        None
    }

    /// Traces the contour of the same-coloured region that holds the pixel
    /// under `start_pos`, and returns its pixels in the order of the walk.
    ///
    /// Nothing is returned for a point outside the canvas. Otherwise the
    /// contour begins with the pixel under `start_pos`, and every pixel on it
    /// has that pixel's colour. A walk that comes back to its first pixel
    /// records it once more, so that a closed contour ends on the pixel it
    /// starts on; a walk that finds no move, or has recorded more pixels
    /// than the canvas holds, ends where it stands.
    pub fn trace_boundary(&self, start_pos: Point) -> (boundary: Vec<(usize, usize)>)
        ensures
            as_cells(boundary@) == contour(self@, start_pos.cell()),
            boundary@.len() == contour(self@, start_pos.cell()).len(),
            boundary@.len() <= self@.width * self@.height + 1,
            forall|i: int|
                0 <= i < boundary@.len() ==> self@.contains(
                    (#[trigger] boundary@[i]).0 as int,
                    boundary@[i].1 as int,
                ) && self@.at(boundary@[i].0 as int, boundary@[i].1 as int) == self@.at(
                    start_pos.cell().0,
                    start_pos.cell().1,
                ),
    {
        let mut boundary: Vec<(usize, usize)> = Vec::new();
        let (start_x, start_y) = match self.locate(start_pos) {
            Some(cell) => cell,
            None => {
                assert(as_cells(boundary@) =~= contour(self@, start_pos.cell()));
                return boundary;
            },
        };
        let color = self.pixel(start_x, start_y);
        let limit = self.area();
        let ghost start = (start_x as int, start_y as int);
        let mut x = start_x;
        let mut y = start_y;
        let mut dir: u8 = 0;
        proof {
            lemma_walk(self@, start, start.0, start.1, 0, 0);
        }
        loop
            invariant_except_break
                self@.contains(x as int, y as int),
                self@.at(x as int, y as int) == color,
                dir < 8,
                boundary@.len() <= limit,
                contour(self@, start) == as_cells(boundary@) + walk(
                    self@,
                    start,
                    x as int,
                    y as int,
                    dir as int,
                    boundary@.len(),
                ),
            invariant
                self@.wf(),
                limit == self@.width * self@.height,
                start == (start_x as int, start_y as int),
                start == start_pos.cell(),
                self@.contains(start.0, start.1),
                color == self@.at(start.0, start.1),
                forall|i: int|
                    0 <= i < boundary@.len() ==> self@.contains(
                        (#[trigger] boundary@[i]).0 as int,
                        boundary@[i].1 as int,
                    ) && self@.at(boundary@[i].0 as int, boundary@[i].1 as int) == color,
            ensures
                as_cells(boundary@) == contour(self@, start),
                boundary@.len() <= limit + 1,
            decreases limit + 1 - boundary@.len(),
        {
            let ghost before = boundary@;
            boundary.push((x, y));
            assert(as_cells(boundary@) =~= as_cells(before) + seq![(x as int, y as int)]);
            let found = self.find_successor(color, x, y, dir);
            proof {
                lemma_next_move(self@, color, x as int, y as int, (dir as int + 6) % 8, 0);
            }
            match found {
                None => {
                    break ;
                },
                Some((nx, ny, nd)) => {
                    if boundary.len() > limit {
                        break ;
                    }
                    if nx == start_x && ny == start_y {
                        let ghost open = boundary@;
                        boundary.push((start_x, start_y));
                        assert(as_cells(boundary@) =~= as_cells(open).push(start));
                        assert(as_cells(before) + seq![(x as int, y as int)].push(start) =~= as_cells(
                            open,
                        ).push(start));
                        break ;
                    }
                    proof {
                        let rest = walk(self@, start, nx as int, ny as int, nd as int, boundary@.len());
                        assert(as_cells(before) + (seq![(x as int, y as int)] + rest) =~= as_cells(
                            boundary@,
                        ) + rest);
                    }
                    x = nx;
                    y = ny;
                    dir = nd;
                },
            }
        }
        assert(as_cells(boundary@).len() == boundary@.len());
        boundary
    }

    /// Sets every listed pixel to `color`; pixels outside the canvas are
    /// passed over.
    pub fn draw_boundary(&mut self, boundary_points: &[(usize, usize)], color: Color)
        ensures
            final(self)@ == old(self)@.stamped(as_cells(boundary_points@), color),
    {
        let ghost orig = self@;
        let ghost cells = as_cells(boundary_points@);
        let n = boundary_points.len();
        let w = self.width();
        let mut i: usize = 0;
        while i < n
            invariant
                i <= n,
                n == boundary_points@.len(),
                cells == as_cells(boundary_points@),
                self@.wf(),
                orig.wf(),
                self@.width == orig.width,
                self@.height == orig.height,
                forall|x2: int, y2: int|
                    orig.contains(x2, y2) ==> (#[trigger] self@.at(x2, y2)) == (orig.stamp(
                        cells.subrange(0, i as int),
                        color,
                    ))(x2, y2),
            decreases n - i,
        {
            let (x, y) = boundary_points[i];
            let ghost before = self@;
            let _ = self.set(x, y, color);
            proof {
                let done = cells.subrange(0, i as int);
                assert(cells.subrange(0, i + 1) =~= done.push((x as int, y as int)));
                assert forall|x2: int, y2: int| orig.contains(x2, y2) implies (#[trigger] self@.at(x2, y2)) == (
                orig.stamp(cells.subrange(0, i + 1), color))(x2, y2) by {
                    lemma_push_contains(done, (x as int, y as int), (x2, y2));
                    if before.contains(x as int, y as int) {
                        before.lemma_with_at(x as int, y as int, color, x2, y2);
                    }
                }
            }
            i += 1;
        }
        proof {
            assert(cells.subrange(0, n as int) =~= cells);
            self@.lemma_is_repaint(orig, orig.stamp(cells, color));
        }
    }
}

} // verus!
