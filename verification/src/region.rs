//! Connected regions of a grid: which pixels can be reached from a given
//! pixel by moving between neighbours of the same colour.

use vstd::prelude::*;
use crate::color::Color;
use crate::connectivity::Connectivity;
use crate::raster::Raster;

verus! {

/// A path through pixels of one colour: a non-empty sequence of pixels of
/// the grid, all of colour `color`, in which each pixel is a neighbour of
/// the one before it.
pub open spec fn is_path(r: Raster, conn: Connectivity, color: Color, path: Seq<(int, int)>) -> bool {
    &&& path.len() > 0
    &&& forall|i: int|
        0 <= i < path.len() ==> r.contains((#[trigger] path[i]).0, path[i].1) && r.at(path[i].0, path[i].1)
            == color
    &&& forall|i: int| 0 <= i < path.len() - 1 ==> conn.adjacent(#[trigger] path[i], path[i + 1])
}

/// Whether `b` belongs to the region of `a`: some path through pixels of
/// the colour of `a` leads from `a` to `b`.
pub open spec fn connected(r: Raster, conn: Connectivity, a: (int, int), b: (int, int)) -> bool {
    exists|path: Seq<(int, int)>|
        #[trigger] is_path(r, conn, r.at(a.0, a.1), path) && path[0] == a && path.last() == b
}

/// Every pixel of the grid belongs to its own region.
pub proof fn lemma_connected_self(r: Raster, conn: Connectivity, a: (int, int))
    requires
        r.contains(a.0, a.1),
    ensures
        connected(r, conn, a, a),
{
    let path = seq![a];
    assert(is_path(r, conn, r.at(a.0, a.1), path));
    assert(path[0] == a && path.last() == a);
}

/// A pixel of a region is a pixel of the grid and has the region's colour.
pub proof fn lemma_connected_color(r: Raster, conn: Connectivity, a: (int, int), b: (int, int))
    requires
        connected(r, conn, a, b),
    ensures
        r.contains(a.0, a.1),
        r.contains(b.0, b.1),
        r.at(b.0, b.1) == r.at(a.0, a.1),
{
    let path = choose|path: Seq<(int, int)>|
        #[trigger] is_path(r, conn, r.at(a.0, a.1), path) && path[0] == a && path.last() == b;
    assert(r.contains(path[0].0, path[0].1));
    assert(r.contains(path[path.len() - 1].0, path[path.len() - 1].1));
}

/// A region grows along neighbours: a pixel of the region's colour next to
/// a pixel of the region belongs to it too.
pub proof fn lemma_connected_step(r: Raster, conn: Connectivity, a: (int, int), b: (int, int), c: (int, int))
    requires
        connected(r, conn, a, b),
        conn.adjacent(b, c),
        r.contains(c.0, c.1),
        r.at(c.0, c.1) == r.at(a.0, a.1),
    ensures
        connected(r, conn, a, c),
{
    let color = r.at(a.0, a.1);
    let path = choose|path: Seq<(int, int)>|
        #[trigger] is_path(r, conn, color, path) && path[0] == a && path.last() == b;
    let longer = path.push(c);
    assert forall|i: int| 0 <= i < longer.len() implies r.contains((#[trigger] longer[i]).0, longer[i].1)
        && r.at(longer[i].0, longer[i].1) == color by {
        if i < path.len() {
            assert(longer[i] == path[i]);
        }
    }
    assert forall|i: int| 0 <= i < longer.len() - 1 implies conn.adjacent(
        #[trigger] longer[i],
        longer[i + 1],
    ) by {
        if i < path.len() - 1 {
            assert(longer[i] == path[i]);
            assert(longer[i + 1] == path[i + 1]);
        }
    }
    assert(is_path(r, conn, color, longer));
    assert(longer[0] == path[0]);
    assert(longer.last() == c);
}

/// Every pixel on a path that leaves `a` lies in a set that holds `a` and
/// is closed under moving to a neighbour of the region's colour.
proof fn lemma_path_stays_inside(
    r: Raster,
    conn: Connectivity,
    a: (int, int),
    inside: spec_fn(int, int) -> bool,
    path: Seq<(int, int)>,
    i: int,
)
    requires
        is_path(r, conn, r.at(a.0, a.1), path),
        path[0] == a,
        0 <= i < path.len(),
        inside(a.0, a.1),
        forall|x: int, y: int, x2: int, y2: int|
            #![trigger inside(x, y), r.at(x2, y2)]
            inside(x, y) && conn.adjacent((x, y), (x2, y2)) && r.contains(x2, y2) && r.at(x2, y2) == r.at(
                a.0,
                a.1,
            ) ==> inside(x2, y2),
    ensures
        inside(path[i].0, path[i].1),
    decreases i,
{
    if i > 0 {
        lemma_path_stays_inside(r, conn, a, inside, path, i - 1);
        let p = path[i - 1];
        let q = path[i];
        assert(conn.adjacent(path[i - 1], path[i - 1 + 1]));
        assert(r.contains(q.0, q.1) && r.at(q.0, q.1) == r.at(a.0, a.1));
        assert(inside(p.0, p.1));
        assert(conn.adjacent((p.0, p.1), (q.0, q.1)));
    }
}

/// The region of `a` is the smallest set that holds `a` and is closed under
/// moving to a neighbour of the region's colour: any such set holds every
/// pixel of the region.
pub proof fn lemma_region_least(
    r: Raster,
    conn: Connectivity,
    a: (int, int),
    inside: spec_fn(int, int) -> bool,
    b: (int, int),
)
    requires
        connected(r, conn, a, b),
        inside(a.0, a.1),
        forall|x: int, y: int, x2: int, y2: int|
            #![trigger inside(x, y), r.at(x2, y2)]
            inside(x, y) && conn.adjacent((x, y), (x2, y2)) && r.contains(x2, y2) && r.at(x2, y2) == r.at(
                a.0,
                a.1,
            ) ==> inside(x2, y2),
    ensures
        inside(b.0, b.1),
{
    let path = choose|path: Seq<(int, int)>|
        #[trigger] is_path(r, conn, r.at(a.0, a.1), path) && path[0] == a && path.last() == b;
    lemma_path_stays_inside(r, conn, a, inside, path, path.len() - 1);
}

/// Neighbours in the four-neighbourhood are neighbours in the
/// eight-neighbourhood, so a four-connected region lies inside the
/// eight-connected region of the same pixel.
pub proof fn lemma_four_within_eight(r: Raster, a: (int, int), b: (int, int))
    requires
        connected(r, Connectivity::FOUR, a, b),
    ensures
        connected(r, Connectivity::EIGHT, a, b),
{
    let color = r.at(a.0, a.1);
    let path = choose|path: Seq<(int, int)>|
        #[trigger] is_path(r, Connectivity::FOUR, color, path) && path[0] == a && path.last() == b;
    assert forall|i: int| 0 <= i < path.len() - 1 implies Connectivity::EIGHT.adjacent(
        #[trigger] path[i],
        path[i + 1],
    ) by {
        assert(Connectivity::FOUR.adjacent(path[i], path[i + 1]));
    }
    assert(is_path(r, Connectivity::EIGHT, color, path));
}

} // verus!
