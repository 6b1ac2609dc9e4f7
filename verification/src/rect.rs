//! A region of the plane: a half-open box with whole-number corners that
//! splits into its four quadrants.

use crate::region::Region;
use vstd::prelude::*;

verus! {

/// The box `[x0, x1) x [y0, y1)`. A box with `x1 <= x0` or `y1 <= y0` holds
/// no point.
#[derive(Clone, Copy, Debug, PartialEq, Eq)]
pub struct Rect {
    pub x0: u32,
    pub y0: u32,
    pub x1: u32,
    pub y1: u32,
}

/// The middle of `lo..hi`, rounded down; `lo` where the range is empty.
pub open spec fn mid(lo: u32, hi: u32) -> u32 {
    if lo < hi {
        (lo + (hi - lo) / 2) as u32
    } else {
        lo
    }
}

fn middle(lo: u32, hi: u32) -> (m: u32)
    ensures
        m == mid(lo, hi),
{
    if lo < hi {
        lo + (hi - lo) / 2
    } else {
        lo
    }
}

impl Region<(u32, u32)> for Rect {
    open spec fn holds(&self, point: &(u32, u32)) -> bool {
        self.x0 <= point.0 < self.x1 && self.y0 <= point.1 < self.y1
    }

    /// The four quadrants, going round: low x and low y, high x and low y,
    /// high x and high y, low x and high y.
    open spec fn parts(&self) -> Seq<Rect> {
        let mx = mid(self.x0, self.x1);
        let my = mid(self.y0, self.y1);
        seq![
            Rect { x0: self.x0, y0: self.y0, x1: mx, y1: my },
            Rect { x0: mx, y0: self.y0, x1: self.x1, y1: my },
            Rect { x0: mx, y0: my, x1: self.x1, y1: self.y1 },
            Rect { x0: self.x0, y0: my, x1: mx, y1: self.y1 },
        ]
    }

    open spec fn meets(&self, other: &Rect) -> bool {
        self.x0 < other.x1 && other.x0 < self.x1 && self.y0 < other.y1 && other.y0 < self.y1
    }

    fn contains(&self, point: &(u32, u32)) -> (inside: bool) {
        self.x0 <= point.0 && point.0 < self.x1 && self.y0 <= point.1 && point.1 < self.y1
    }

    fn split(&self) -> (subs: Vec<Rect>) {
        let mx = middle(self.x0, self.x1);
        let my = middle(self.y0, self.y1);
        let mut subs: Vec<Rect> = Vec::new();
        subs.push(Rect { x0: self.x0, y0: self.y0, x1: mx, y1: my });
        subs.push(Rect { x0: mx, y0: self.y0, x1: self.x1, y1: my });
        subs.push(Rect { x0: mx, y0: my, x1: self.x1, y1: self.y1 });
        subs.push(Rect { x0: self.x0, y0: my, x1: mx, y1: self.y1 });
        proof {
            assert(subs@ =~= self.parts());
        }
        subs
    }

    fn overlaps(&self, other: &Rect) -> (hit: bool) {
        self.x0 < other.x1 && other.x0 < self.x1 && self.y0 < other.y1 && other.y0 < self.y1
    }

    proof fn lemma_parts_cover(&self, point: &(u32, u32)) {
        let mx = mid(self.x0, self.x1);
        let my = mid(self.y0, self.y1);
        let parts = self.parts();
        if point.0 < mx {
            if point.1 < my {
                assert(parts[0].holds(point));
            } else {
                assert(parts[3].holds(point));
            }
        } else {
            if point.1 < my {
                assert(parts[1].holds(point));
            } else {
                assert(parts[2].holds(point));
            }
        }
    }

    proof fn lemma_parts_apart(&self, i: int, j: int) {
    }

    proof fn lemma_shared_point_meets(&self, other: &Rect, point: &(u32, u32)) {
    }

    proof fn lemma_meets_symmetric(&self, other: &Rect) {
    }
}

} // verus!
