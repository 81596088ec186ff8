//! Exact line segments: the incremental error algorithm that joins two
//! pixels by a connected run of pixels.

use vstd::prelude::*;
use crate::canvas::Canvas;
use crate::color::Color;
use crate::point::Point;
use crate::raster::{lemma_push_contains, Raster};

verus! {

/// The distance between two integers.
pub open spec fn distance(a: int, b: int) -> int {
    if a >= b {
        a - b
    } else {
        b - a
    }
}

/// The integer next to `from` on the side of `to`.
pub open spec fn toward(from: int, to: int) -> int {
    if from < to {
        from + 1
    } else {
        from - 1
    }
}

/// The pixels of a segment from `(x, y)` on, where the segment ends at
/// `(x1, y1)`, spans `a` columns and `b` rows in all, and `err` is the
/// running error term.
///
/// Each pixel is recorded; then twice the error decides the move: a step
/// along `x` when it is at least `-b`, a step along `y` when it is at most
/// `a`, both when both hold. A step along `x` costs the error `b`, one along
/// `y` earns it `a`. The segment ends when a step is due along an axis on
/// which the end has been reached.
pub open spec fn line_from(x: int, y: int, err: int, x1: int, y1: int, a: nat, b: nat) -> Seq<(int, int)>
    decreases distance(x, x1) + distance(y, y1),
{
    let step_x = 2 * err >= -(b as int);
    let step_y = 2 * err <= a as int;
    if (step_x && x == x1) || (step_y && y == y1) {
        seq![(x, y)]
    } else {
        seq![(x, y)] + line_from(
            if step_x {
                toward(x, x1)
            } else {
                x
            },
            if step_y {
                toward(y, y1)
            } else {
                y
            },
            err - (if step_x {
                b as int
            } else {
                0
            }) + (if step_y {
                a as int
            } else {
                0
            }),
            x1,
            y1,
            a,
            b,
        )
    }
}

/// The pixels of the segment from `p` to `q`, in the order drawn.
pub open spec fn sharp_line(p: (int, int), q: (int, int)) -> Seq<(int, int)> {
    let a = distance(p.0, q.0);
    let b = distance(p.1, q.1);
    line_from(p.0, p.1, a - b, q.0, q.1, a as nat, b as nat)
}

/// The grid `r` after the segment from `p` to `q` has been drawn in
/// `color`: nothing is drawn unless both ends are pixels of the grid.
pub open spec fn sharp_line_drawn(r: Raster, p: (int, int), q: (int, int), color: Color) -> Raster {
    if r.contains(p.0, p.1) && r.contains(q.0, q.1) {
        r.stamped(sharp_line(p, q), color)
    } else {
        r
    }
}

/// Whether `v` lies between `a` and `b`, in either order.
pub open spec fn between(v: int, a: int, b: int) -> bool {
    (a <= v <= b) || (b <= v <= a)
}

/// Whether `q` is one of the eight neighbours of `p`.
pub open spec fn touching(p: (int, int), q: (int, int)) -> bool {
    distance(p.0, q.0) <= 1 && distance(p.1, q.1) <= 1 && p != q
}

/// What holds of the run of pixels from any state that the algorithm
/// reaches: it starts at the current pixel, ends at the end of the segment,
/// moves from each pixel to one of its eight neighbours, and stays between
/// the current pixel and the end.
pub proof fn lemma_line_from(x: int, y: int, err: int, x1: int, y1: int, a: nat, b: nat)
    requires
        distance(x, x1) <= a,
        distance(y, y1) <= b,
        err == a - b + distance(x, x1) * b - distance(y, y1) * a,
    ensures
        line_from(x, y, err, x1, y1, a, b).len() >= 1,
        line_from(x, y, err, x1, y1, a, b).first() == (x, y),
        line_from(x, y, err, x1, y1, a, b).last() == (x1, y1),
        forall|i: int|
            0 <= i < line_from(x, y, err, x1, y1, a, b).len() - 1 ==> touching(
                #[trigger] line_from(x, y, err, x1, y1, a, b)[i],
                line_from(x, y, err, x1, y1, a, b)[i + 1],
            ),
        forall|i: int|
            0 <= i < line_from(x, y, err, x1, y1, a, b).len() ==> between(
                (#[trigger] line_from(x, y, err, x1, y1, a, b)[i]).0,
                x,
                x1,
            ) && between(line_from(x, y, err, x1, y1, a, b)[i].1, y, y1),
    decreases distance(x, x1) + distance(y, y1),
{
    let rx = distance(x, x1);
    let ry = distance(y, y1);
    let step_x = 2 * err >= -(b as int);
    let step_y = 2 * err <= a as int;
    let path = line_from(x, y, err, x1, y1, a, b);
    if step_x && x == x1 {
        assert(rx * b == 0) by (nonlinear_arith)
            requires
                rx == 0,
        ;
        assert(ry == 0) by (nonlinear_arith)
            requires
                0 <= ry <= b,
                err == a - b - ry * a,
                2 * err >= -(b as int),
        ;
    } else if step_y && y == y1 {
        assert(ry * a == 0) by (nonlinear_arith)
            requires
                ry == 0,
        ;
        assert(rx == 0) by (nonlinear_arith)
            requires
                0 <= rx <= a,
                err == a - b + rx * b,
                2 * err <= a as int,
        ;
    } else {
        let nx = if step_x {
            toward(x, x1)
        } else {
            x
        };
        let ny = if step_y {
            toward(y, y1)
        } else {
            y
        };
        let nerr = err - (if step_x {
            b as int
        } else {
            0
        }) + (if step_y {
            a as int
        } else {
            0
        });
        assert(nerr == a - b + distance(nx, x1) * b - distance(ny, y1) * a) by (nonlinear_arith)
            requires
                err == a - b + rx * b - ry * a,
                distance(nx, x1) == if step_x {
                    rx - 1
                } else {
                    rx
                },
                distance(ny, y1) == if step_y {
                    ry - 1
                } else {
                    ry
                },
                nerr == err - (if step_x {
                    b as int
                } else {
                    0
                }) + (if step_y {
                    a as int
                } else {
                    0
                }),
        ;
        lemma_line_from(nx, ny, nerr, x1, y1, a, b);
        let rest = line_from(nx, ny, nerr, x1, y1, a, b);
        assert(path == seq![(x, y)] + rest);
        assert forall|i: int| 0 <= i < path.len() - 1 implies touching(#[trigger] path[i], path[i + 1]) by {
            if i == 0 {
                assert(path[1] == rest[0]);
            } else {
                assert(path[i] == rest[i - 1]);
                assert(path[i + 1] == rest[i - 1 + 1]);
            }
        }
        assert forall|i: int| 0 <= i < path.len() implies between((#[trigger] path[i]).0, x, x1) && between(
            path[i].1,
            y,
            y1,
        ) by {
            if i > 0 {
                assert(path[i] == rest[i - 1]);
            }
        }
        assert(path.last() == rest.last());
    }
}

/// The run of pixels from any state that the algorithm reaches takes one
/// step along the longer axis of the segment for each pixel, so it has one
/// pixel more than it has steps left on that axis.
pub proof fn lemma_line_length(x: int, y: int, err: int, x1: int, y1: int, a: nat, b: nat)
    requires
        distance(x, x1) <= a,
        distance(y, y1) <= b,
        err == a - b + distance(x, x1) * b - distance(y, y1) * a,
        a >= b ==> 2 * err >= -(b as int),
        a < b ==> 2 * err <= a as int,
    ensures
        line_from(x, y, err, x1, y1, a, b).len() == 1 + if a >= b {
            distance(x, x1)
        } else {
            distance(y, y1)
        },
    decreases distance(x, x1) + distance(y, y1),
{
    let step_x = 2 * err >= -(b as int);
    let step_y = 2 * err <= a as int;
    lemma_line_from(x, y, err, x1, y1, a, b);
    if (step_x && x == x1) || (step_y && y == y1) {
    } else {
        let nx = if step_x {
            toward(x, x1)
        } else {
            x
        };
        let ny = if step_y {
            toward(y, y1)
        } else {
            y
        };
        let nerr = err - (if step_x {
            b as int
        } else {
            0
        }) + (if step_y {
            a as int
        } else {
            0
        });
        assert(nerr == a - b + distance(nx, x1) * b - distance(ny, y1) * a) by (nonlinear_arith)
            requires
                err == a - b + distance(x, x1) * b - distance(y, y1) * a,
                distance(nx, x1) == if step_x {
                    distance(x, x1) - 1
                } else {
                    distance(x, x1)
                },
                distance(ny, y1) == if step_y {
                    distance(y, y1) - 1
                } else {
                    distance(y, y1)
                },
                nerr == err - (if step_x {
                    b as int
                } else {
                    0
                }) + (if step_y {
                    a as int
                } else {
                    0
                }),
        ;
        lemma_line_length(nx, ny, nerr, x1, y1, a, b);
    }
}

/// The segment from `p` to `q` starts at `p`, ends at `q`, moves from
/// each pixel to one of its eight neighbours, and stays inside the
/// rectangle spanned by its two ends. It has one pixel for each column that
/// it spans, or for each row where it spans more rows than columns.
pub proof fn lemma_sharp_line(p: (int, int), q: (int, int))
    ensures
        sharp_line(p, q).len() == 1 + if distance(p.0, q.0) >= distance(p.1, q.1) {
            distance(p.0, q.0)
        } else {
            distance(p.1, q.1)
        },
        sharp_line(p, q).first() == p,
        sharp_line(p, q).last() == q,
        forall|i: int|
            0 <= i < sharp_line(p, q).len() - 1 ==> touching(
                #[trigger] sharp_line(p, q)[i],
                sharp_line(p, q)[i + 1],
            ),
        forall|i: int|
            0 <= i < sharp_line(p, q).len() ==> between((#[trigger] sharp_line(p, q)[i]).0, p.0, q.0)
                && between(sharp_line(p, q)[i].1, p.1, q.1),
{
    let a = distance(p.0, q.0);
    let b = distance(p.1, q.1);
    assert(a - b == a - b + a * b - b * a) by (nonlinear_arith);
    lemma_line_from(p.0, p.1, a - b, q.0, q.1, a as nat, b as nat);
    lemma_line_length(p.0, p.1, a - b, q.0, q.1, a as nat, b as nat);
}

impl Canvas {
    /// Draws the segment from `pos1` to `pos2` in `color`, without
    /// smoothing.
    ///
    /// Both ends are rounded to the nearest pixel. The pixels of the segment
    /// are set to `color` exactly; every other pixel keeps its colour. The
    /// run of pixels starts at the first end and ends at the second, each
    /// pixel being one of the eight neighbours of the one before. Nothing is
    /// drawn unless both ends lie on the canvas.
    pub fn draw_sharp_line(&mut self, pos1: Point, pos2: Point, color: Color)
        ensures
            final(self)@ == sharp_line_drawn(old(self)@, pos1.nearest(), pos2.nearest(), color),
    {
        let (x0, y0) = match self.locate_nearest(pos1) {
            Some(cell) => cell,
            None => {
                return ;
            },
        };
        let (x1, y1) = match self.locate_nearest(pos2) {
            Some(cell) => cell,
            None => {
                return ;
            },
        };
        let ghost orig = self@;
        let ghost full = sharp_line((x0 as int, y0 as int), (x1 as int, y1 as int));
        let w = self.width();
        let h = self.height();
        let a: usize = if x0 <= x1 {
            x1 - x0
        } else {
            x0 - x1
        };
        let b: usize = if y0 <= y1 {
            y1 - y0
        } else {
            y0 - y1
        };
        let forward_x = x0 < x1;
        let forward_y = y0 < y1;
        let mut x = x0;
        let mut y = y0;
        let mut err: i128 = a as i128 - b as i128;
        let ghost mut drawn: Seq<(int, int)> = Seq::empty();
        proof {
            assert(full =~= drawn + line_from(x as int, y as int, err as int, x1 as int, y1 as int, a as nat, b as nat));
        }
        loop
            invariant_except_break
                full == drawn + line_from(
                    x as int,
                    y as int,
                    err as int,
                    x1 as int,
                    y1 as int,
                    a as nat,
                    b as nat,
                ),
            invariant
                self@.wf(),
                orig.wf(),
                self@.width == orig.width,
                self@.height == orig.height,
                w == orig.width,
                h == orig.height,
                x0 < w && x1 < w && y0 < h && y1 < h,
                between(x as int, x0 as int, x1 as int),
                between(y as int, y0 as int, y1 as int),
                forward_x == (x0 < x1),
                forward_y == (y0 < y1),
                -2 * (a + b) <= err <= 2 * (a + b),
                forall|x2: int, y2: int| orig.contains(x2, y2) ==> (#[trigger] self@.at(x2, y2)) == (orig.stamp(drawn, color))(x2, y2),
            ensures
                full == drawn,
            decreases distance(x as int, x1 as int) + distance(y as int, y1 as int),
        {
            let ghost before = self@;
            self.put(x, y, color);
            proof {
                assert forall|x2: int, y2: int| orig.contains(x2, y2) implies (#[trigger] self@.at(x2, y2)) == (
                orig.stamp(drawn.push((x as int, y as int)), color))(x2, y2) by {
                    before.lemma_with_at(x as int, y as int, color, x2, y2);
                    lemma_push_contains(drawn, (x as int, y as int), (x2, y2));
                }
                assert(drawn + seq![(x as int, y as int)] =~= drawn.push((x as int, y as int)));
            }
            let ghost here = (x as int, y as int);
            let ghost err0 = err as int;
            let step_x = 2 * err >= -(b as i128);
            let step_y = 2 * err <= a as i128;
            if (step_x && x == x1) || (step_y && y == y1) {
                proof {
                    drawn = drawn.push(here);
                }
                break ;
            }
            if step_x {
                err = err - b as i128;
                if forward_x {
                    x = x + 1;
                } else {
                    x = x - 1;
                }
            }
            if step_y {
                err = err + a as i128;
                if forward_y {
                    y = y + 1;
                } else {
                    y = y - 1;
                }
            }
            proof {
                let rest = line_from(x as int, y as int, err as int, x1 as int, y1 as int, a as nat, b as nat);
                assert(drawn + (seq![here] + rest) =~= drawn.push(here) + rest);
                drawn = drawn.push(here);
            }
        }
        proof {
            self@.lemma_is_repaint(orig, orig.stamp(full, color));
        }
    }
}

} // verus!
