//! A grid of marks, one per pixel, that records which pixels a traversal
//! has dealt with.

use vstd::prelude::*;
use crate::raster::{lemma_index_in_range, lemma_index_unique, Raster};

verus! {

/// The number of entries of `s` that are `false`.
pub open spec fn count_false(s: Seq<bool>) -> nat
    decreases s.len(),
{
    if s.len() == 0 {
        0
    } else {
        count_false(s.drop_last()) + if s.last() {
            0nat
        } else {
            1nat
        }
    }
}

/// Setting an entry that was `false` leaves one `false` entry fewer.
pub proof fn lemma_count_false_update(s: Seq<bool>, i: int)
    requires
        0 <= i < s.len(),
        !s[i],
    ensures
        count_false(s.update(i, true)) + 1 == count_false(s),
    decreases s.len(),
{
    let t = s.update(i, true);
    if i == s.len() - 1 {
        assert(t.drop_last() =~= s.drop_last());
    } else {
        assert(t.drop_last() =~= s.drop_last().update(i, true));
        lemma_count_false_update(s.drop_last(), i);
    }
}

/// One mark per pixel of a `width * height` grid, row by row.
pub struct Mask {
    bits: Vec<bool>,
    width: usize,
    height: usize,
}

impl Mask {
    /// There is exactly one mark per pixel.
    pub closed spec fn wf(&self) -> bool {
        self.bits@.len() == self.width * self.height
    }

    /// The mask is well formed and has the size of the grid `r`.
    pub closed spec fn fits(&self, r: Raster) -> bool {
        self.wf() && self.width == r.width && self.height == r.height
    }

    /// Whether the pixel `(x, y)` is marked.
    pub closed spec fn marked(&self, x: int, y: int) -> bool {
        self.bits@[y * self.width + x]
    }

    /// The number of pixels that are not marked.
    pub closed spec fn unmarked(&self) -> nat {
        count_false(self.bits@)
    }

    /// A mask that fits one grid fits every grid of the same size.
    pub proof fn lemma_fits(mask: &Mask, a: Raster, b: Raster)
        requires
            mask.fits(a),
            a.width == b.width,
            a.height == b.height,
        ensures
            mask.fits(b),
    {
    }

    /// A mask for a grid of the given size and number of pixels, with no
    /// pixel marked.
    pub fn new(width: usize, height: usize, area: usize) -> (mask: Mask)
        requires
            area == width * height,
        ensures
            forall|r: Raster| r.width == width && r.height == height ==> #[trigger] mask.fits(r),
            forall|x: int, y: int| 0 <= x < width && 0 <= y < height ==> !#[trigger] mask.marked(x, y),
    {
        let mut bits: Vec<bool> = Vec::new();
        let mut i: usize = 0;
        while i < area
            invariant
                i <= area,
                bits@.len() == i,
                forall|k: int| 0 <= k < i ==> !bits@[k],
            decreases area - i,
        {
            bits.push(false);
            i += 1;
        }
        let mask = Mask { bits, width, height };
        assert forall|x: int, y: int| 0 <= x < width && 0 <= y < height implies !#[trigger] mask.marked(
            x,
            y,
        ) by {
            lemma_index_in_range(width as nat, height as nat, x, y);
        }
        mask
    }

    /// Whether the pixel `(x, y)` is marked.
    pub fn is_marked(&self, r: Ghost<Raster>, x: usize, y: usize) -> (b: bool)
        requires
            self.fits(r@),
            r@.contains(x as int, y as int),
        ensures
            b == self.marked(x as int, y as int),
    {
        let len = self.bits.len();
        proof {
            lemma_index_in_range(self.width as nat, self.height as nat, x as int, y as int);
            assert(0 <= y * self.width <= y * self.width + x < len);
        }
        self.bits[y * self.width + x]
    }

    /// Marks the pixel `(x, y)`, which was not marked.
    pub fn mark(&mut self, r: Ghost<Raster>, x: usize, y: usize)
        requires
            old(self).fits(r@),
            r@.contains(x as int, y as int),
            !old(self).marked(x as int, y as int),
        ensures
            final(self).fits(r@),
            forall|x2: int, y2: int|
                r@.contains(x2, y2) ==> (#[trigger] final(self).marked(x2, y2) <==> old(self).marked(x2, y2)
                    || (x2 == x && y2 == y)),
            final(self).unmarked() + 1 == old(self).unmarked(),
    {
        let len = self.bits.len();
        proof {
            lemma_index_in_range(self.width as nat, self.height as nat, x as int, y as int);
            assert(0 <= y * self.width <= y * self.width + x < len);
            lemma_count_false_update(self.bits@, y * self.width + x);
        }
        let i = y * self.width + x;
        self.bits.set(i, true);
        proof {
            assert forall|x2: int, y2: int| r@.contains(x2, y2) implies (#[trigger] self.marked(x2, y2)
                <==> old(self).marked(x2, y2) || (x2 == x && y2 == y)) by {
                lemma_index_in_range(self.width as nat, self.height as nat, x2, y2);
                if y2 * self.width + x2 == y * self.width + x {
                    lemma_index_unique(self.width as nat, x2, y2, x as int, y as int);
                }
            }
        }
    }
}

} // verus!
