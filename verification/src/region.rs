//! What the tree asks of a region, and what follows from it.

use vstd::prelude::*;

verus! {

/// The geometry an n-tree is built over.
///
/// The three spec functions are the mathematical meaning of the three
/// executable methods. The proof functions are what an implementation owes:
/// `split` yields a partition of the region, and `overlaps` never denies an
/// overlap that a common point shows.
pub trait Region<P>: Clone + Sized {
    /// Whether `point` lies in the region.
    spec fn holds(&self, point: &P) -> bool;

    /// The sub-regions the region divides into, in the order `split` gives them.
    spec fn parts(&self) -> Seq<Self>;

    /// Whether the region and `other` overlap.
    spec fn meets(&self, other: &Self) -> bool;

    /// Does this region contain this point?
    fn contains(&self, point: &P) -> (inside: bool)
        ensures
            inside == self.holds(point),
    ;

    /// Split this region into its sub-regions.
    fn split(&self) -> (subs: Vec<Self>)
        ensures
            subs@ == self.parts(),
    ;

    /// Does this region overlap with this other region?
    fn overlaps(&self, other: &Self) -> (hit: bool)
        ensures
            hit == self.meets(other),
    ;

    /// Every point of the region lies in one of its sub-regions.
    proof fn lemma_parts_cover(&self, point: &P)
        requires
            self.holds(point),
        ensures
            exists|i: int| 0 <= i < self.parts().len() && #[trigger] self.parts()[i].holds(point),
    ;

    /// No two sub-regions overlap.
    proof fn lemma_parts_apart(&self, i: int, j: int)
        requires
            0 <= i < self.parts().len(),
            0 <= j < self.parts().len(),
            i != j,
        ensures
            !self.parts()[i].meets(&self.parts()[j]),
    ;

    /// Two regions that share a point overlap.
    proof fn lemma_shared_point_meets(&self, other: &Self, point: &P)
        requires
            self.holds(point),
            other.holds(point),
        ensures
            self.meets(other),
    ;

    /// Overlap is symmetric.
    proof fn lemma_meets_symmetric(&self, other: &Self)
        ensures
            self.meets(other) == other.meets(self),
    ;
}

/// The index of the sub-region of `region` that `point` falls in.
/// It is meaningful for the points of `region`; see [`lemma_slot`].
pub open spec fn slot<P, R: Region<P>>(region: R, point: P) -> int {
    choose|i: int| 0 <= i < region.parts().len() && (#[trigger] region.parts()[i]).holds(&point)
}

/// The sub-region of `region` that `point` falls in.
pub open spec fn part_of<P, R: Region<P>>(region: R, point: P) -> R {
    region.parts()[slot(region, point)]
}

/// A point of a region lies in exactly one of its sub-regions, the one at
/// `slot(region, point)`.
pub proof fn lemma_slot<P, R: Region<P>>(region: R, point: P)
    requires
        region.holds(&point),
    ensures
        0 <= slot(region, point) < region.parts().len(),
        part_of(region, point).holds(&point),
        forall|j: int|
            0 <= j < region.parts().len() && (#[trigger] region.parts()[j]).holds(&point) ==> j
                == slot(region, point),
{
    region.lemma_parts_cover(&point);
    let i = slot(region, point);
    assert forall|j: int|
        0 <= j < region.parts().len() && (#[trigger] region.parts()[j]).holds(&point) implies j
        == i by {
        if j != i {
            region.lemma_parts_apart(i, j);
            region.parts()[i].lemma_shared_point_meets(&region.parts()[j], &point);
        }
    }
}

/// The region reached from `region` by going, at each step, into the
/// sub-region whose index `path` gives next.
pub open spec fn region_at<P, R: Region<P>>(region: R, path: Seq<int>) -> R
    decreases path.len(),
{
    if path.len() == 0 {
        region
    } else {
        region_at(region.parts()[path[0]], path.skip(1))
    }
}

} // verus!
