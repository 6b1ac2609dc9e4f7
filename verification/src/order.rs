//! Where the leaves lie in the sequence of all points: the tree lists its
//! leaves from left to right, so the sequence is fixed by which leaf each
//! point is led to and by what the leaves hold.

use crate::region::{lemma_slot, slot, Region};
use crate::tree::{points_from, NTree, NTreeVariant, MAX_DEPTH};
use vstd::prelude::*;

verus! {

/// Whether the leaf reached by the way `a` lies left of the leaf reached by
/// the way `b`: at the first step where the ways differ, `a` enters the
/// earlier child.
pub open spec fn comes_before(a: Seq<int>, b: Seq<int>) -> bool
    decreases a.len(),
{
    a.len() > 0 && b.len() > 0 && (a[0] < b[0] || (a[0] == b[0] && comes_before(
        a.skip(1),
        b.skip(1),
    )))
}

/// The points of the nodes `nodes[..upto]`, node after node.
pub(crate) open spec fn points_upto<P: PartialEq, R: Region<P>>(
    nodes: Seq<NTree<R, P>>,
    upto: int,
) -> Seq<P>
    decreases upto,
{
    if 0 < upto <= nodes.len() {
        points_upto(nodes, upto - 1) + nodes[upto - 1].points()
    } else {
        Seq::empty()
    }
}

proof fn lemma_upto_from<P: PartialEq, R: Region<P>>(nodes: Seq<NTree<R, P>>, i: int)
    requires
        0 <= i <= nodes.len(),
    ensures
        points_upto(nodes, i) + points_from(nodes, i) == points_from(nodes, 0),
    decreases i,
{
    if i == 0 {
        assert(Seq::<P>::empty() + points_from(nodes, 0) =~= points_from(nodes, 0));
    } else {
        lemma_upto_from(nodes, i - 1);
        let head = points_upto(nodes, i - 1);
        let here = nodes[i - 1].points();
        assert(points_from(nodes, i - 1) == here + points_from(nodes, i));
        assert((head + here) + points_from(nodes, i) =~= head + (here + points_from(nodes, i)));
    }
}

proof fn lemma_upto_grows<P: PartialEq, R: Region<P>>(nodes: Seq<NTree<R, P>>, i: int, j: int)
    requires
        0 <= i <= j <= nodes.len(),
    ensures
        points_upto(nodes, i).len() <= points_upto(nodes, j).len(),
    decreases j - i,
{
    if i < j {
        lemma_upto_grows(nodes, i, j - 1);
    }
}

/// The node among `nodes[..upto]` that the `k`-th of their points belongs to.
proof fn lemma_locate<P: PartialEq, R: Region<P>>(
    nodes: Seq<NTree<R, P>>,
    k: int,
    upto: int,
) -> (i: int)
    requires
        0 <= upto <= nodes.len(),
        0 <= k < points_upto(nodes, upto).len(),
    ensures
        0 <= i < upto,
        points_upto(nodes, i).len() <= k < points_upto(nodes, i).len() + nodes[i].points().len(),
    decreases upto,
{
    if k >= points_upto(nodes, upto - 1).len() {
        upto - 1
    } else {
        lemma_locate(nodes, k, upto - 1)
    }
}

impl<P: PartialEq, R: Region<P>> NTree<R, P> {
    /// How many points the tree lists before the points of the leaf that
    /// `point` is led to.
    pub open(crate) spec fn offset_of(&self, point: P) -> nat
        decreases self,
    {
        match self.kind {
            NTreeVariant::Bucket { .. } => 0,
            NTreeVariant::Branch { subregions } => {
                let i = slot(self.region, point);
                if 0 <= i < subregions.len() {
                    points_upto(subregions@, i).len() + subregions[i].offset_of(point)
                } else {
                    0
                }
            },
        }
    }

    proof fn lemma_segment(&self, cap: u8, room: nat, q: P)
        requires
            self.wf_within(cap, room),
        ensures
            self.offset_of(q) + self.bucket_of(q).len() <= self.points().len(),
            self.points().subrange(
                self.offset_of(q) as int,
                (self.offset_of(q) + self.bucket_of(q).len()) as int,
            ) == self.bucket_of(q),
        decreases self,
    {
        let o = self.offset_of(q) as int;
        let b = self.bucket_of(q);
        match self.kind {
            NTreeVariant::Bucket { points, .. } => {
                assert(self.points().subrange(0, b.len() as int) =~= b);
            },
            NTreeVariant::Branch { subregions } => {
                let kids = subregions@;
                let i = slot(self.region, q);
                if 0 <= i < kids.len() {
                    kids[i].lemma_segment(cap, (room - 1) as nat, q);
                    lemma_upto_from(kids, i);
                    let head = points_upto(kids, i);
                    let here = kids[i].points();
                    let rest = points_from(kids, i + 1);
                    let co = kids[i].offset_of(q) as int;
                    assert(points_from(kids, i) == here + rest);
                    assert(self.points() == head + (here + rest));
                    assert(o == head.len() + co);
                    assert(here.subrange(co, co + b.len()) == b);
                    assert((head + (here + rest)).subrange(o, o + b.len()) =~= here.subrange(
                        co,
                        co + b.len(),
                    ));
                } else {
                    assert(self.points().subrange(0, 0) =~= b);
                }
            },
        }
    }

    proof fn lemma_own_leaf(&self, cap: u8, room: nat, k: int)
        requires
            self.wf_within(cap, room),
            0 <= k < self.points().len(),
        ensures
            self.offset_of(self.points()[k]) <= k < self.offset_of(self.points()[k])
                + self.bucket_of(self.points()[k]).len(),
        decreases self,
    {
        let x = self.points()[k];
        match self.kind {
            NTreeVariant::Bucket { .. } => {},
            NTreeVariant::Branch { subregions } => {
                let kids = subregions@;
                lemma_upto_from(kids, kids.len() as int);
                assert(points_upto(kids, kids.len() as int) + Seq::<P>::empty() =~= points_upto(
                    kids,
                    kids.len() as int,
                ));
                let i = lemma_locate(kids, k, kids.len() as int);
                lemma_upto_from(kids, i);
                let head = points_upto(kids, i);
                let here = kids[i].points();
                let rest = points_from(kids, i + 1);
                assert(points_from(kids, i) == here + rest);
                assert(self.points() == head + (here + rest));
                let local = k - head.len();
                assert(here[local] == x);
                assert(here.contains(x));
                assert(kids[i].wf_within(cap, (room - 1) as nat));
                assert(kids[i].region.holds(&x));
                assert(self.points().contains(x));
                lemma_slot(self.region, x);
                assert(slot(self.region, x) == i);
                kids[i].lemma_own_leaf(cap, (room - 1) as nat, local);
            },
        }
    }

    proof fn lemma_in_order(&self, cap: u8, room: nat, q: P, later: P)
        requires
            self.wf_within(cap, room),
            self.region.holds(&q),
            self.region.holds(&later),
            comes_before(self.path_of(q), self.path_of(later)),
        ensures
            self.offset_of(q) + self.bucket_of(q).len() <= self.offset_of(later),
        decreases self,
    {
        match self.kind {
            NTreeVariant::Bucket { .. } => {},
            NTreeVariant::Branch { subregions } => {
                let kids = subregions@;
                lemma_slot(self.region, q);
                lemma_slot(self.region, later);
                let i = slot(self.region, q);
                let j = slot(self.region, later);
                let a = self.path_of(q);
                let b = self.path_of(later);
                assert(a == seq![i] + kids[i].path_of(q));
                assert(b == seq![j] + kids[j].path_of(later));
                assert(a[0] == i && b[0] == j);
                assert(a.skip(1) =~= kids[i].path_of(q));
                assert(b.skip(1) =~= kids[j].path_of(later));
                if i < j {
                    kids[i].lemma_segment(cap, (room - 1) as nat, q);
                    lemma_upto_grows(kids, i + 1, j);
                } else {
                    kids[i].lemma_in_order(cap, (room - 1) as nat, q, later);
                }
            },
        }
    }

    /// The points of a leaf stand together in the tree's sequence of points,
    /// in the leaf's order, from `offset_of` on.
    pub proof fn lemma_leaf_in_view(&self, q: P)
        requires
            self.wf(),
        ensures
            self.offset_of(q) + self.bucket_of(q).len() <= self@.len(),
            self@.subrange(
                self.offset_of(q) as int,
                (self.offset_of(q) + self.bucket_of(q).len()) as int,
            ) == self.bucket_of(q),
    {
        self.lemma_segment(self.capacity(), MAX_DEPTH as nat, q);
    }

    /// Every point in the tree's sequence of points stands among the points
    /// of the leaf that it is led to.
    pub proof fn lemma_view_in_leaves(&self, k: int)
        requires
            self.wf(),
            0 <= k < self@.len(),
        ensures
            self.offset_of(self@[k]) <= k < self.offset_of(self@[k]) + self.bucket_of(
                self@[k],
            ).len(),
    {
        self.lemma_own_leaf(self.capacity(), MAX_DEPTH as nat, k);
    }

    /// The points of a leaf stand before the points of every leaf to its
    /// right.
    pub proof fn lemma_leaves_in_order(&self, q: P, later: P)
        requires
            self.wf(),
            self.region().holds(&q),
            self.region().holds(&later),
            comes_before(self.path_of(q), self.path_of(later)),
        ensures
            self.offset_of(q) + self.bucket_of(q).len() <= self.offset_of(later),
    {
        self.lemma_in_order(self.capacity(), MAX_DEPTH as nat, q, later);
    }
}

} // verus!
