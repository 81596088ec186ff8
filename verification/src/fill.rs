//! Flood fill: repainting the region of a seed pixel, with one colour or
//! with a tiled image.
//!
//! The traversal works on horizontal spans. It keeps a queue of pixels that
//! still have to be looked at; for each one that has not been painted yet it
//! finds the unbroken run of unpainted region pixels through it, paints the
//! run, and queues the unpainted region pixels next to the run.

use std::collections::VecDeque;
use vstd::prelude::*;
use crate::canvas::Canvas;
use crate::color::Color;
use crate::connectivity::Connectivity;
use crate::image::Image;
use crate::mask::Mask;
use crate::point::Point;
use crate::raster::Raster;
use crate::region::{connected, lemma_connected_color, lemma_connected_self, lemma_connected_step, lemma_region_least};

verus! {

/// The paint that gives every pixel the colour `color`.
pub open spec fn solid(color: Color) -> spec_fn(int, int) -> Color {
    |x: int, y: int| color
}

/// The paint that tiles the plane with `image`, the corner `(0, 0)` of one
/// tile lying on `anchor`: the pixel `(x, y)` gets the colour of the image
/// at the offset from the anchor, reduced modulo the image's size.
pub open spec fn tiled(image: Raster, anchor: (int, int)) -> spec_fn(int, int) -> Color {
    |x: int, y: int|
        image.at((x - anchor.0) % (image.width as int), (y - anchor.1) % (image.height as int))
}

/// The colour of each pixel after the region of `seed` has been painted:
/// the paint's colour inside the region, the old colour outside.
pub open spec fn flood_painter(
    r: Raster,
    conn: Connectivity,
    seed: (int, int),
    paint: spec_fn(int, int) -> Color,
) -> spec_fn(int, int) -> Color {
    |x: int, y: int|
        if connected(r, conn, seed, (x, y)) {
            paint(x, y)
        } else {
            r.at(x, y)
        }
}

/// The grid `r` after the region of `seed` has been painted with `paint`.
pub open spec fn flooded(
    r: Raster,
    conn: Connectivity,
    seed: (int, int),
    paint: spec_fn(int, int) -> Color,
) -> Raster {
    r.repaint(flood_painter(r, conn, seed, paint))
}

/// The grid `r` after a fill with `color` from `seed`: a seed outside the
/// grid changes nothing.
pub open spec fn filled_with_color(r: Raster, seed: (int, int), color: Color, conn: Connectivity) -> Raster {
    if r.contains(seed.0, seed.1) {
        flooded(r, conn, seed, solid(color))
    } else {
        r
    }
}

/// The grid `r` after a fill with the tiled `image` from `seed`: a seed
/// outside the grid, or an image without pixels, changes nothing.
pub open spec fn filled_with_image(r: Raster, seed: (int, int), image: Raster, conn: Connectivity) -> Raster {
    if r.contains(seed.0, seed.1) && image.width > 0 && image.height > 0 {
        flooded(r, conn, seed, tiled(image, seed))
    } else {
        r
    }
}

/// What a fill paints with.
enum Paint<'a> {
    /// One colour for every pixel.
    Solid(Color),
    /// An image, tiled from the anchor `(x0, y0)`.
    Tiled { image: &'a Image, x0: usize, y0: usize },
}

/// `(a - b) mod m` for unsigned numbers.
fn offset_mod(a: usize, b: usize, m: usize) -> (res: usize)
    requires
        m > 0,
    ensures
        res == (a - b) % (m as int),
{
    if a >= b {
        (a - b) % m
    } else {
        let d = b - a;
        let k = d % m;
        proof {
            let q = d as int / m as int;
            vstd::arithmetic::div_mod::lemma_fundamental_div_mod(d as int, m as int);
            if k == 0 {
                assert(a - b == (-q) * m + 0) by (nonlinear_arith)
                    requires
                        (b - a) as int == m * q + 0,
                ;
                vstd::arithmetic::div_mod::lemma_fundamental_div_mod_converse(a - b, m as int, -q, 0);
            } else {
                assert(a - b == (-q - 1) * m + (m - k)) by (nonlinear_arith)
                    requires
                        (b - a) as int == m * q + k,
                ;
                vstd::arithmetic::div_mod::lemma_fundamental_div_mod_converse(
                    a - b,
                    m as int,
                    -q - 1,
                    m - k,
                );
            }
        }
        if k == 0 {
            0
        } else {
            m - k
        }
    }
}

impl<'a> Paint<'a> {
    /// A tiled image has pixels.
    spec fn wf(&self) -> bool {
        match self {
            Paint::Solid(_) => true,
            Paint::Tiled { image, x0, y0 } => image@.wf() && image@.width > 0 && image@.height > 0,
        }
    }

    /// The colour that each pixel gets.
    spec fn painter(&self) -> spec_fn(int, int) -> Color {
        match self {
            Paint::Solid(color) => solid(*color),
            Paint::Tiled { image, x0, y0 } => tiled(image@, (*x0 as int, *y0 as int)),
        }
    }

    /// The colour that the pixel `(x, y)` gets.
    fn color_at(&self, x: usize, y: usize) -> (c: Color)
        requires
            self.wf(),
        ensures
            c == (self.painter())(x as int, y as int),
    {
        match self {
            Paint::Solid(color) => *color,
            Paint::Tiled { image, x0, y0 } => {
                let w = image.width();
                let h = image.height();
                let ix = offset_mod(x, *x0, w);
                let iy = offset_mod(y, *y0, h);
                proof {
                    vstd::arithmetic::div_mod::lemma_mod_bound(x - *x0, w as int);
                    vstd::arithmetic::div_mod::lemma_mod_bound(y - *y0, h as int);
                }
                image.pixel(ix, iy)
            },
        }
    }
}

/// Whether the pixel `(x, y)` still waits to be painted: it lies on the
/// grid, has the colour `target` and is not marked.
spec fn open_at(r: Raster, mask: &Mask, target: Color, x: int, y: int) -> bool {
    r.contains(x, y) && !mask.marked(x, y) && r.at(x, y) == target
}

/// Whether the pixel `(x, y)` stands in the queue.
spec fn queued(queue: Seq<(usize, usize)>, x: int, y: int) -> bool {
    exists|k: int| 0 <= k < queue.len() && (#[trigger] queue[k]).0 == x && queue[k].1 == y
}

/// Whether `(qx, qy)` lies in a row next to row `y` and is, in the
/// neighbourhood `conn`, a neighbour of a pixel of the span from `left` to
/// `right` in row `y`.
spec fn beside_span(conn: Connectivity, left: int, right: int, y: int, qx: int, qy: int) -> bool {
    (qy == y - 1 || qy == y + 1) && match conn {
        Connectivity::FOUR => left <= qx <= right,
        Connectivity::EIGHT => left - 1 <= qx <= right + 1,
    }
}

/// Every unpainted region pixel next to a painted one stands in the queue.
spec fn frontier_queued(
    orig: Raster,
    mask: &Mask,
    conn: Connectivity,
    target: Color,
    queue: Seq<(usize, usize)>,
) -> bool {
    forall|x: int, y: int, x2: int, y2: int|
        #![trigger mask.marked(x, y), open_at(orig, mask, target, x2, y2)]
        orig.contains(x, y) && mask.marked(x, y) && conn.adjacent((x, y), (x2, y2)) && open_at(
            orig,
            mask,
            target,
            x2,
            y2,
        ) ==> queued(queue, x2, y2)
}

impl Canvas {
    /// The unbroken run of pixels that wait to be painted through `(x, y)`
    /// in row `y`: its first and last column.
    fn find_line_bounds(&self, mask: &Mask, x: usize, y: usize, target: Color) -> (span: (usize, usize))
        requires
            mask.fits(self@),
            open_at(self@, mask, target, x as int, y as int),
        ensures
            span.0 <= x <= span.1 < self@.width,
            forall|i: int| span.0 <= i <= span.1 ==> #[trigger] open_at(self@, mask, target, i, y as int),
            !open_at(self@, mask, target, span.0 - 1, y as int),
            !open_at(self@, mask, target, span.1 + 1, y as int),
    {
        let w = self.width();
        let mut left = x;
        while left > 0 && !mask.is_marked(Ghost(self@), left - 1, y) && self.pixel(left - 1, y) == target
            invariant
                mask.fits(self@),
                self@.contains(x as int, y as int),
                left <= x,
                forall|i: int| left <= i <= x ==> #[trigger] open_at(self@, mask, target, i, y as int),
            decreases left,
        {
            left -= 1;
        }
        let mut right = x;
        while right + 1 < w && !mask.is_marked(Ghost(self@), right + 1, y) && self.pixel(right + 1, y)
            == target
            invariant
                mask.fits(self@),
                self@.contains(x as int, y as int),
                w == self@.width,
                x <= right < w,
                forall|i: int| x <= i <= right ==> #[trigger] open_at(self@, mask, target, i, y as int),
            decreases w - right,
        {
            right += 1;
        }
        (left, right)
    }

    /// Paints and marks the span from `left` to `right` in row `y`.
    fn paint_span(&mut self, mask: &mut Mask, left: usize, right: usize, y: usize, paint: &Paint)
        requires
            old(mask).fits(old(self)@),
            old(self)@.wf(),
            left <= right < old(self)@.width,
            y < old(self)@.height,
            paint.wf(),
            forall|i: int| left <= i <= right ==> !#[trigger] old(mask).marked(i, y as int),
        ensures
            final(mask).fits(final(self)@),
            final(self)@.wf(),
            final(self)@.width == old(self)@.width,
            final(self)@.height == old(self)@.height,
            forall|x2: int, y2: int|
                old(self)@.contains(x2, y2) ==> (#[trigger] final(mask).marked(x2, y2) <==> old(mask).marked(
                    x2,
                    y2,
                ) || (y2 == y && left <= x2 <= right)),
            forall|x2: int, y2: int|
                old(self)@.contains(x2, y2) ==> (#[trigger] final(self)@.at(x2, y2)) == if y2 == y && left
                    <= x2 <= right {
                    (paint.painter())(x2, y2)
                } else {
                    old(self)@.at(x2, y2)
                },
            final(mask).unmarked() + (right - left + 1) == old(mask).unmarked(),
    {
        let w = self.width();
        let mut i = left;
        while i <= right
            invariant
                left <= i <= right + 1,
                right < w,
                right < old(self)@.width,
                y < old(self)@.height,
                paint.wf(),
                mask.fits(self@),
                self@.wf(),
                self@.width == old(self)@.width,
                self@.height == old(self)@.height,
                forall|x2: int, y2: int|
                    old(self)@.contains(x2, y2) ==> (#[trigger] mask.marked(x2, y2) <==> old(mask).marked(
                        x2,
                        y2,
                    ) || (y2 == y && left <= x2 < i)),
                forall|x2: int, y2: int|
                    old(self)@.contains(x2, y2) ==> (#[trigger] self@.at(x2, y2)) == if y2 == y && left <= x2
                        < i {
                        (paint.painter())(x2, y2)
                    } else {
                        old(self)@.at(x2, y2)
                    },
                forall|j: int| left <= j <= right ==> !#[trigger] old(mask).marked(j, y as int),
                mask.unmarked() + (i - left) == old(mask).unmarked(),
            decreases right + 1 - i,
        {
            let c = paint.color_at(i, y);
            let ghost before = self@;
            let ghost marks = *mask;
            assert(!old(mask).marked(i as int, y as int));
            assert(!mask.marked(i as int, y as int));
            self.put(i, y, c);
            proof {
                assert forall|x2: int, y2: int| before.contains(x2, y2) implies (#[trigger] self@.at(x2, y2))
                    == if y2 == y && left <= x2 < i + 1 {
                    (paint.painter())(x2, y2)
                } else {
                    old(self)@.at(x2, y2)
                } by {
                    before.lemma_with_at(i as int, y as int, c, x2, y2);
                }
                assert(mask.fits(before));
            }
            mask.mark(Ghost(before), i, y);
            assert(mask.fits(self@)) by {
                assert(mask.fits(before));
                Mask::lemma_fits(mask, before, self@);
            }
            i += 1;
        }
    }

    /// Queues `(x, y)` if it lies on the canvas and waits to be painted.
    fn check_and_push(
        &self,
        mask: &Mask,
        x: usize,
        y: usize,
        target: Color,
        queue: &mut VecDeque<(usize, usize)>,
    )
        requires
            mask.fits(self@),
        ensures
            final(queue)@ == if open_at(self@, mask, target, x as int, y as int) {
                old(queue)@.push((x, y))
            } else {
                old(queue)@
            },
    {
        if self.check_bounds(x, y) && !mask.is_marked(Ghost(self@), x, y) && self.pixel(x, y) == target {
            queue.push_back((x, y));
        }
    }
}

/// A queued pixel stays queued when the queue grows at its end.
proof fn lemma_queued_push(queue: Seq<(usize, usize)>, item: (usize, usize), x: int, y: int)
    ensures
        queued(queue, x, y) ==> queued(queue.push(item), x, y),
        item.0 == x && item.1 == y ==> queued(queue.push(item), x, y),
{
    let longer = queue.push(item);
    if queued(queue, x, y) {
        let k = choose|k: int| 0 <= k < queue.len() && (#[trigger] queue[k]).0 == x && queue[k].1 == y;
        assert(longer[k].0 == x && longer[k].1 == y);
    }
    if item.0 == x && item.1 == y {
        assert(longer[queue.len() as int].0 == x && longer[queue.len() as int].1 == y);
    }
}

/// Every pixel of a span of region-coloured pixels belongs to the region as
/// soon as one of them does.
proof fn lemma_span_connected(
    r: Raster,
    conn: Connectivity,
    seed: (int, int),
    left: int,
    right: int,
    x: int,
    y: int,
    i: int,
)
    requires
        connected(r, conn, seed, (x, y)),
        left <= x <= right,
        left <= i <= right,
        forall|j: int|
            left <= j <= right ==> #[trigger] r.contains(j, y) && r.at(j, y) == r.at(seed.0, seed.1),
    ensures
        connected(r, conn, seed, (i, y)),
    decreases
            if i <= x {
                x - i
            } else {
                i - x
            },
{
    if i < x {
        lemma_span_connected(r, conn, seed, left, right, x, y, i + 1);
        assert(r.contains(i, y));
        lemma_connected_step(r, conn, seed, (i + 1, y), (i, y));
    } else if i > x {
        lemma_span_connected(r, conn, seed, left, right, x, y, i - 1);
        assert(r.contains(i, y));
        lemma_connected_step(r, conn, seed, (i - 1, y), (i, y));
    }
}

impl Canvas {
    /// Queues the pixels that wait to be painted in the rows next to row
    /// `y`, beside the span from `left` to `right`: those straight above and
    /// below the span and, in the eight-neighbourhood, those diagonally off
    /// its two ends.
    fn push_neighbors(
        &self,
        mask: &Mask,
        left: usize,
        right: usize,
        y: usize,
        target: Color,
        conn: Connectivity,
        queue: &mut VecDeque<(usize, usize)>,
    )
        requires
            mask.fits(self@),
            left <= right < self@.width,
            y < self@.height,
        ensures
            final(queue)@.len() >= old(queue)@.len(),
            forall|k: int| 0 <= k < old(queue)@.len() ==> #[trigger] final(queue)@[k] == old(queue)@[k],
            forall|k: int|
                old(queue)@.len() <= k < final(queue)@.len() ==> {
                    let q = #[trigger] final(queue)@[k];
                    open_at(self@, mask, target, q.0 as int, q.1 as int) && beside_span(
                        conn,
                        left as int,
                        right as int,
                        y as int,
                        q.0 as int,
                        q.1 as int,
                    )
                },
            forall|qx: int, qy: int|
                #[trigger] open_at(self@, mask, target, qx, qy) && beside_span(
                    conn,
                    left as int,
                    right as int,
                    y as int,
                    qx,
                    qy,
                ) ==> queued(final(queue)@, qx, qy),
    {
        let w = self.width();
        let h = self.height();
        let mut i = left;
        while i <= right
            invariant
                mask.fits(self@),
                left <= i <= right + 1,
                right < w,
                w == self@.width,
                h == self@.height,
                y < h,
                queue@.len() >= old(queue)@.len(),
                forall|k: int| 0 <= k < old(queue)@.len() ==> #[trigger] queue@[k] == old(queue)@[k],
                forall|k: int|
                    old(queue)@.len() <= k < queue@.len() ==> {
                        let q = #[trigger] queue@[k];
                        open_at(self@, mask, target, q.0 as int, q.1 as int) && (q.1 == y - 1 || q.1 == y
                            + 1) && left <= q.0 <= right
                    },
                forall|qx: int, qy: int|
                    #[trigger] open_at(self@, mask, target, qx, qy) && (qy == y - 1 || qy == y + 1) && left
                        <= qx < i ==> queued(queue@, qx, qy),
            decreases right + 1 - i,
        {
            let ghost q0 = queue@;
            if y > 0 {
                self.check_and_push(mask, i, y - 1, target, queue);
            }
            let ghost q1 = queue@;
            self.check_and_push(mask, i, y + 1, target, queue);
            proof {
                assert forall|qx: int, qy: int|
                    #[trigger] open_at(self@, mask, target, qx, qy) && (qy == y - 1 || qy == y + 1) && left
                        <= qx < i + 1 implies queued(queue@, qx, qy) by {
                    if y > 0 {
                        lemma_queued_push(q0, (i, (y - 1) as usize), qx, qy);
                    }
                    lemma_queued_push(q1, (i, (y + 1) as usize), qx, qy);
                }
            }
            i += 1;
        }
        match conn {
            Connectivity::FOUR => {},
            Connectivity::EIGHT => {
                let ghost q0 = queue@;
                if left > 0 {
                    if y > 0 {
                        self.check_and_push(mask, left - 1, y - 1, target, queue);
                    }
                }
                let ghost q1 = queue@;
                if left > 0 {
                    self.check_and_push(mask, left - 1, y + 1, target, queue);
                }
                let ghost q2 = queue@;
                if y > 0 {
                    self.check_and_push(mask, right + 1, y - 1, target, queue);
                }
                let ghost q3 = queue@;
                self.check_and_push(mask, right + 1, y + 1, target, queue);
                proof {
                    assert forall|qx: int, qy: int|
                        #[trigger] open_at(self@, mask, target, qx, qy) && beside_span(
                            conn,
                            left as int,
                            right as int,
                            y as int,
                            qx,
                            qy,
                        ) implies queued(queue@, qx, qy) by {
                        if left > 0 && y > 0 {
                            lemma_queued_push(q0, ((left - 1) as usize, (y - 1) as usize), qx, qy);
                        }
                        if left > 0 {
                            lemma_queued_push(q1, ((left - 1) as usize, (y + 1) as usize), qx, qy);
                        }
                        if y > 0 {
                            lemma_queued_push(q2, ((right + 1) as usize, (y - 1) as usize), qx, qy);
                        }
                        lemma_queued_push(q3, ((right + 1) as usize, (y + 1) as usize), qx, qy);
                    }
                }
            },
        }
    }
}

impl Canvas {
    /// Paints the region of the pixel `(sx, sy)` with `paint`.
    fn flood(&mut self, sx: usize, sy: usize, conn: Connectivity, paint: &Paint)
        requires
            old(self)@.contains(sx as int, sy as int),
            paint.wf(),
        ensures
            final(self)@ == flooded(old(self)@, conn, (sx as int, sy as int), paint.painter()),
    {
        let ghost orig = self@;
        let ghost seed = (sx as int, sy as int);
        let target = self.pixel(sx, sy);
        let w = self.width();
        let h = self.height();
        let area = self.area();
        let mut mask = Mask::new(w, h, area);
        let mut queue: VecDeque<(usize, usize)> = VecDeque::new();
        queue.push_back((sx, sy));
        proof {
            lemma_connected_self(orig, conn, seed);
            assert(queue@[0].0 == sx && queue@[0].1 == sy);
            assert(queued(queue@, seed.0, seed.1));
            assert(mask.fits(self@));
        }
        while queue.len() > 0
            invariant
                orig.wf(),
                self@.wf(),
                self@.width == orig.width,
                self@.height == orig.height,
                mask.fits(self@),
                paint.wf(),
                seed == (sx as int, sy as int),
                orig.contains(seed.0, seed.1),
                target == orig.at(seed.0, seed.1),
                forall|x: int, y: int|
                    orig.contains(x, y) ==> (#[trigger] self@.at(x, y)) == if mask.marked(x, y) {
                        (paint.painter())(x, y)
                    } else {
                        orig.at(x, y)
                    },
                forall|x: int, y: int|
                    orig.contains(x, y) && #[trigger] mask.marked(x, y) ==> connected(orig, conn, seed, (x, y)),
                forall|k: int|
                    0 <= k < queue@.len() ==> orig.contains(
                        (#[trigger] queue@[k]).0 as int,
                        queue@[k].1 as int,
                    ) && connected(orig, conn, seed, (queue@[k].0 as int, queue@[k].1 as int)),
                frontier_queued(orig, &mask, conn, target, queue@),
                mask.marked(seed.0, seed.1) || queued(queue@, seed.0, seed.1),
            decreases mask.unmarked(), queue@.len(),
        {
            let ghost queue0 = queue@;
            let (x, y) = queue.pop_front().unwrap();
            let ghost queue1 = queue@;
            assert(queue0[0] == (x, y));
            assert(forall|k: int| 0 <= k < queue1.len() ==> #[trigger] queue1[k] == queue0[k + 1]);
            assert(orig.contains(x as int, y as int));
            if mask.is_marked(Ghost(self@), x, y) {
                proof {
                    lemma_pop_keeps_frontier(orig, &mask, conn, target, queue0, queue1);
                    lemma_pop_keeps_queued(&mask, queue0, queue1, seed.0, seed.1);
                }
            } else {
                let ghost canvas0 = self@;
                let ghost mask0 = mask;
                proof {
                    lemma_connected_color(orig, conn, seed, (x as int, y as int));
                    assert(open_at(canvas0, &mask0, target, x as int, y as int));
                }
                let (left, right) = self.find_line_bounds(&mask, x, y, target);
                proof {
                    assert forall|j: int| left <= j <= right implies #[trigger] orig.contains(j, y as int)
                        && orig.at(j, y as int) == orig.at(seed.0, seed.1) by {
                        assert(open_at(canvas0, &mask0, target, j, y as int));
                    }
                    assert forall|j: int| left <= j <= right implies !#[trigger] mask0.marked(j, y as int) by {
                        assert(open_at(canvas0, &mask0, target, j, y as int));
                    }
                }
                self.paint_span(&mut mask, left, right, y, paint);
                self.push_neighbors(&mask, left, right, y, target, conn, &mut queue);
                proof {
                    let queue2 = queue@;
                    assert forall|x2: int, y2: int| orig.contains(x2, y2) implies (#[trigger] self@.at(x2, y2))
                        == if mask.marked(x2, y2) {
                        (paint.painter())(x2, y2)
                    } else {
                        orig.at(x2, y2)
                    } by {
                        assert(canvas0.at(x2, y2) == if mask0.marked(x2, y2) {
                            (paint.painter())(x2, y2)
                        } else {
                            orig.at(x2, y2)
                        });
                        if y2 == y && left <= x2 <= right {
                            assert(!mask0.marked(x2, y2));
                        }
                    }
                    assert forall|x2: int, y2: int| orig.contains(x2, y2) && #[trigger] mask.marked(
                        x2,
                        y2,
                    ) implies connected(orig, conn, seed, (x2, y2)) by {
                        if mask0.marked(x2, y2) {
                        } else {
                            lemma_span_connected(orig, conn, seed, left as int, right as int, x as int, y as int, x2);
                        }
                    }
                    assert forall|k: int| 0 <= k < queue2.len() implies orig.contains(
                        (#[trigger] queue2[k]).0 as int,
                        queue2[k].1 as int,
                    ) && connected(orig, conn, seed, (queue2[k].0 as int, queue2[k].1 as int)) by {
                        if k < queue1.len() {
                            assert(queue2[k] == queue1[k]);
                            assert(queue1[k] == queue0[k + 1]);
                        } else {
                            let q = queue2[k];
                            let qx = q.0 as int;
                            let qy = q.1 as int;
                            assert(open_at(self@, &mask, target, qx, qy));
                            assert(beside_span(conn, left as int, right as int, y as int, qx, qy));
                            let px = if qx < left {
                                left as int
                            } else if qx > right {
                                right as int
                            } else {
                                qx
                            };
                            lemma_span_connected(orig, conn, seed, left as int, right as int, x as int, y as int, px);
                            assert(self@.at(qx, qy) == orig.at(qx, qy));
                            lemma_connected_step(orig, conn, seed, (px, y as int), (qx, qy));
                        }
                    }
                    assert forall|x2: int, y2: int, x3: int, y3: int|
                        #![trigger mask.marked(x2, y2), open_at(orig, &mask, target, x3, y3)]
                        orig.contains(x2, y2) && mask.marked(x2, y2) && conn.adjacent((x2, y2), (x3, y3))
                            && open_at(orig, &mask, target, x3, y3) implies queued(queue2, x3, y3) by {
                        assert(!mask0.marked(x3, y3));
                        assert(canvas0.at(x3, y3) == orig.at(x3, y3));
                        assert(self@.at(x3, y3) == orig.at(x3, y3));
                        assert(open_at(orig, &mask0, target, x3, y3));
                        assert(open_at(canvas0, &mask0, target, x3, y3));
                        assert(open_at(self@, &mask, target, x3, y3));
                        if mask0.marked(x2, y2) {
                            assert(queued(queue0, x3, y3));
                            let k = choose|k: int|
                                0 <= k < queue0.len() && (#[trigger] queue0[k]).0 == x3 && queue0[k].1 == y3;
                            if k == 0 {
                                assert(mask.marked(x as int, y as int));
                            } else {
                                assert(queue2[k - 1] == queue1[k - 1]);
                                assert(queue1[k - 1] == queue0[k - 1 + 1]);
                                assert(queue2[k - 1].0 == x3 && queue2[k - 1].1 == y3);
                            }
                        } else {
                            assert(y2 == y && left <= x2 <= right);
                            if y3 == y {
                                if x3 < left {
                                    assert(x3 == left - 1);
                                } else if x3 > right {
                                    assert(x3 == right + 1);
                                } else {
                                    assert(mask.marked(x3, y3));
                                }
                            } else {
                                assert(beside_span(conn, left as int, right as int, y as int, x3, y3));
                            }
                        }
                    }
                    if mask0.marked(seed.0, seed.1) {
                        assert(mask.marked(seed.0, seed.1));
                    } else {
                        let k = choose|k: int|
                            0 <= k < queue0.len() && (#[trigger] queue0[k]).0 == seed.0 && queue0[k].1 == seed.1;
                        if k == 0 {
                            assert(mask.marked(x as int, y as int));
                        } else {
                            assert(queue2[k - 1] == queue1[k - 1]);
                            assert(queue1[k - 1] == queue0[k - 1 + 1]);
                            assert(queue2[k - 1].0 == seed.0 && queue2[k - 1].1 == seed.1);
                        }
                    }
                }
            }
        }
        proof {
            let inside = |x: int, y: int| orig.contains(x, y) && mask.marked(x, y);
            assert(!queued(queue@, seed.0, seed.1));
            assert(inside(seed.0, seed.1));
            assert forall|x: int, y: int, x2: int, y2: int|
                #![trigger inside(x, y), orig.at(x2, y2)]
                inside(x, y) && conn.adjacent((x, y), (x2, y2)) && orig.contains(x2, y2) && orig.at(x2, y2)
                    == orig.at(seed.0, seed.1) implies inside(x2, y2) by {
                if !mask.marked(x2, y2) {
                    assert(mask.marked(x, y));
                    assert(open_at(orig, &mask, target, x2, y2));
                    assert(queued(queue@, x2, y2));
                }
            }
            let f = flood_painter(orig, conn, seed, paint.painter());
            assert forall|x: int, y: int| self@.contains(x, y) implies (#[trigger] self@.at(x, y)) == f(x, y) by {
                if connected(orig, conn, seed, (x, y)) {
                    lemma_region_least(orig, conn, seed, inside, (x, y));
                    assert(inside(x, y));
                } else {
                    assert(!mask.marked(x, y));
                }
            }
            self@.lemma_is_repaint(orig, f);
        }
    }

    /// Fills the region of the pixel under `pos` with `color`.
    ///
    /// The region consists of the pixels that can be reached from that
    /// pixel through neighbours, in the sense of `connectivity`, that all
    /// have its colour. Every pixel of the region becomes `color`; all
    /// others keep their colour. A point outside the canvas changes nothing,
    /// and so does a fill with the colour that the region already has.
    pub fn fill_with_color(&mut self, pos: Point, color: Color, connectivity: Connectivity)
        ensures
            final(self)@ == filled_with_color(old(self)@, pos.cell(), color, connectivity),
            old(self)@.contains(pos.cell().0, pos.cell().1) && old(self)@.at(pos.cell().0, pos.cell().1)
                == color ==> final(self)@ == old(self)@,
    {
        match self.locate(pos) {
            None => {},
            Some((sx, sy)) => {
                let target = self.pixel(sx, sy);
                if target == color {
                    proof {
                        lemma_fill_same_color(self@, pos.cell(), connectivity);
                    }
                } else {
                    self.flood(sx, sy, connectivity, &Paint::Solid(color));
                }
            },
        }
    }

    /// Fills the region of the pixel under `pos` with the image `img`,
    /// repeated in both directions.
    ///
    /// The corner `(0, 0)` of the image lies on the pixel under `pos`: a
    /// pixel of the region at the offset `(dx, dy)` from there gets the
    /// colour of the image at `(dx mod width, dy mod height)`. Pixels outside
    /// the region keep their colour. A point outside the canvas, or an image
    /// without pixels, changes nothing.
    pub fn fill_with_img(&mut self, pos: Point, img: &Image, connectivity: Connectivity)
        ensures
            final(self)@ == filled_with_image(old(self)@, pos.cell(), img@, connectivity),
    {
        match self.locate(pos) {
            None => {},
            Some((sx, sy)) => {
                if img.width() > 0 && img.height() > 0 {
                    self.flood(sx, sy, connectivity, &Paint::Tiled { image: img, x0: sx, y0: sy });
                }
            },
        }
    }
}

/// Removing a marked pixel from the front of the queue keeps the frontier
/// queued.
proof fn lemma_pop_keeps_frontier(
    orig: Raster,
    mask: &Mask,
    conn: Connectivity,
    target: Color,
    queue0: Seq<(usize, usize)>,
    queue1: Seq<(usize, usize)>,
)
    requires
        queue0.len() > 0,
        queue1.len() == queue0.len() - 1,
        forall|k: int| 0 <= k < queue1.len() ==> #[trigger] queue1[k] == queue0[k + 1],
        mask.marked(queue0[0].0 as int, queue0[0].1 as int),
        frontier_queued(orig, mask, conn, target, queue0),
    ensures
        frontier_queued(orig, mask, conn, target, queue1),
{
    assert forall|x: int, y: int, x2: int, y2: int|
        #![trigger mask.marked(x, y), open_at(orig, mask, target, x2, y2)]
        orig.contains(x, y) && mask.marked(x, y) && conn.adjacent((x, y), (x2, y2)) && open_at(
            orig,
            mask,
            target,
            x2,
            y2,
        ) implies queued(queue1, x2, y2) by {
        lemma_pop_keeps_queued(mask, queue0, queue1, x2, y2);
    }
}

/// An unmarked pixel that was queued is still queued after a marked pixel
/// has left the front of the queue.
proof fn lemma_pop_keeps_queued(
    mask: &Mask,
    queue0: Seq<(usize, usize)>,
    queue1: Seq<(usize, usize)>,
    x: int,
    y: int,
)
    requires
        queue0.len() > 0,
        queue1.len() == queue0.len() - 1,
        forall|k: int| 0 <= k < queue1.len() ==> #[trigger] queue1[k] == queue0[k + 1],
        mask.marked(queue0[0].0 as int, queue0[0].1 as int),
    ensures
        queued(queue0, x, y) && !mask.marked(x, y) ==> queued(queue1, x, y),
{
    if queued(queue0, x, y) && !mask.marked(x, y) {
        let k = choose|k: int| 0 <= k < queue0.len() && (#[trigger] queue0[k]).0 == x && queue0[k].1 == y;
        assert(k > 0);
        assert(queue1[k - 1] == queue0[k - 1 + 1]);
        assert(queue1[k - 1].0 == x && queue1[k - 1].1 == y);
    }
}

/// Filling a region with the colour that it already has changes nothing.
pub proof fn lemma_fill_same_color(r: Raster, seed: (int, int), conn: Connectivity)
    requires
        r.wf(),
        r.contains(seed.0, seed.1),
    ensures
        filled_with_color(r, seed, r.at(seed.0, seed.1), conn) == r,
{
    let f = flood_painter(r, conn, seed, solid(r.at(seed.0, seed.1)));
    assert forall|x: int, y: int| r.contains(x, y) implies (#[trigger] r.at(x, y)) == f(x, y) by {
        if connected(r, conn, seed, (x, y)) {
            lemma_connected_color(r, conn, seed, (x, y));
        }
    }
    r.lemma_is_repaint(r, f);
}

} // verus!
