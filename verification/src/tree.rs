//! The tree, its mathematical model, and the operations that only read it.

use crate::region::{lemma_slot, slot, Region};
use vstd::pervasive::unreached;
use vstd::prelude::*;

verus! {

/// The deepest a leaf may lie below the root. A full leaf at this depth is
/// never split: an insert that would need to split it is refused.
pub const MAX_DEPTH: usize = 64;

/// A quadtree-like structure, but for arbitrary arity.
///
/// Regions can split themselves into arbitrary numbers of splits,
/// allowing this structure to be used to index data by any number
/// of attributes and quickly query for data that falls within a
/// specific range.
pub struct NTree<R, P: PartialEq> {
    pub(crate) region: R,
    pub(crate) kind: NTreeVariant<R, P>,
}

pub(crate) enum NTreeVariant<R, P: PartialEq> {
    /// A leaf of the tree, which contains points.
    Bucket { points: Vec<P>, bucket_limit: u8 },
    /// An interior node of the tree, which contains n subtrees.
    Branch { subregions: Vec<NTree<R, P>> },
}

/// The points of the nodes `nodes[from..]`: node after node, each node's
/// points as `NTree::points` lists them.
pub(crate) open spec fn points_from<P: PartialEq, R: Region<P>>(
    nodes: Seq<NTree<R, P>>,
    from: int,
) -> Seq<P>
    decreases nodes, nodes.len() - from,
{
    if 0 <= from < nodes.len() {
        nodes[from].points() + points_from(nodes, from + 1)
    } else {
        Seq::empty()
    }
}

impl<P: PartialEq, R: Region<P>> View for NTree<R, P> {
    type V = Seq<P>;

    /// All points in the tree, in the order a traversal meets them.
    open spec fn view(&self) -> Seq<P> {
        self.points()
    }
}

impl<P: PartialEq, R: Region<P>> NTree<R, P> {
    /// The region the tree covers.
    pub open(crate) spec fn region(&self) -> R {
        self.region
    }

    /// The number of points a leaf of the tree may hold. A tree without any
    /// leaf (its region splits into nothing) has capacity 0.
    pub open(crate) spec fn capacity(&self) -> u8
        decreases self,
    {
        match self.kind {
            NTreeVariant::Bucket { bucket_limit, .. } => bucket_limit,
            NTreeVariant::Branch { subregions } => if subregions.len() > 0 {
                subregions[0].capacity()
            } else {
                0
            },
        }
    }

    /// All points in the tree: leaf after leaf from left to right, each
    /// leaf's points in the order the leaf keeps them.
    pub open(crate) spec fn points(&self) -> Seq<P>
        decreases self, 0int,
    {
        match self.kind {
            NTreeVariant::Bucket { points, .. } => points@,
            NTreeVariant::Branch { subregions } => points_from(subregions@, 0),
        }
    }

    /// The way from the root to the leaf that `point` is led to: at each
    /// interior node, the index of the child that is entered.
    pub open(crate) spec fn path_of(&self, point: P) -> Seq<int>
        decreases self,
    {
        match self.kind {
            NTreeVariant::Bucket { .. } => Seq::empty(),
            NTreeVariant::Branch { subregions } => {
                let i = slot(self.region, point);
                if 0 <= i < subregions.len() {
                    seq![i] + subregions[i].path_of(point)
                } else {
                    Seq::empty()
                }
            },
        }
    }

    /// The points of the leaf that `point` is led to, in the order the leaf
    /// keeps them.
    pub open(crate) spec fn bucket_of(&self, point: P) -> Seq<P>
        decreases self,
    {
        match self.kind {
            NTreeVariant::Bucket { points, .. } => points@,
            NTreeVariant::Branch { subregions } => {
                let i = slot(self.region, point);
                if 0 <= i < subregions.len() {
                    subregions[i].bucket_of(point)
                } else {
                    Seq::empty()
                }
            },
        }
    }

    /// The invariant of a node that may still grow `room` levels deeper and
    /// whose leaves hold at most `cap` points.
    pub(crate) open spec fn wf_within(&self, cap: u8, room: nat) -> bool
        decreases self,
    {
        &&& self.capacity() == cap
        &&& forall|x: P| #[trigger] self.points().contains(x) ==> self.region.holds(&x)
        &&& match self.kind {
            NTreeVariant::Bucket { points, .. } => points.len() <= cap,
            NTreeVariant::Branch { subregions } => {
                &&& room > 0
                &&& subregions@.len() == self.region.parts().len()
                &&& forall|i: int|
                    0 <= i < subregions@.len() ==> (#[trigger] subregions@[i]).region
                        == self.region.parts()[i]
                &&& forall|i: int|
                    0 <= i < subregions@.len() ==> (#[trigger] subregions@[i]).wf_within(
                        cap,
                        (room - 1) as nat,
                    )
            },
        }
    }

    /// The invariant of a tree: every point lies in the region of each node
    /// above it, no leaf holds more than `capacity()` points, the children of
    /// a node stand for the parts of the node's region, in order, and no leaf
    /// lies deeper than `MAX_DEPTH`.
    pub open(crate) spec fn wf(&self) -> bool {
        self.wf_within(self.capacity(), MAX_DEPTH as nat)
    }

    /// Whether the node is a leaf without points whose limit is `size`.
    pub(crate) open spec fn is_empty_bucket(&self, size: u8) -> bool {
        match self.kind {
            NTreeVariant::Bucket { points, bucket_limit } => points@.len() == 0 && bucket_limit
                == size,
            NTreeVariant::Branch { .. } => false,
        }
    }

    /// A leaf without points is well-formed and leads every point to itself.
    pub(crate) proof fn lemma_empty_bucket(&self, size: u8, room: nat)
        requires
            self.is_empty_bucket(size),
        ensures
            self.wf_within(size, room),
            self.points() == Seq::<P>::empty(),
            forall|q: P| #[trigger] self.path_of(q) == Seq::<int>::empty(),
            forall|q: P| #[trigger] self.bucket_of(q) == Seq::<P>::empty(),
    {
        assert(self.points() =~= Seq::<P>::empty());
        assert forall|q: P| #[trigger] self.bucket_of(q) == Seq::<P>::empty() by {
            assert(self.bucket_of(q) =~= Seq::<P>::empty());
        }
    }

    /// Every point of a leaf is one of the tree's points.
    pub(crate) proof fn lemma_bucket_in_points(&self, q: P, k: int)
        requires
            0 <= k < self.bucket_of(q).len(),
        ensures
            self.points().contains(self.bucket_of(q)[k]),
        decreases self,
    {
        match self.kind {
            NTreeVariant::Bucket { points, .. } => {
                assert(self.points()[k] == self.bucket_of(q)[k]);
            },
            NTreeVariant::Branch { subregions } => {
                let i = slot(self.region, q);
                let x = self.bucket_of(q)[k];
                subregions@[i].lemma_bucket_in_points(q, k);
                lemma_points_from_holds(subregions@, 0, i, x);
            },
        }
    }

    /// Create a new n-tree which contains points within
    /// the region and whose buckets are limited to the passed-in size.
    ///
    /// The number of regions returned by region.split() dictates
    /// the arity of the tree.
    pub fn new(region: R, size: u8) -> (tree: NTree<R, P>)
        ensures
            tree.wf(),
            tree.region() == region,
            tree.capacity() == if region.parts().len() > 0 {
                size
            } else {
                0
            },
            tree@ == Seq::<P>::empty(),
            forall|q: P|
                region.holds(&q) ==> #[trigger] tree.path_of(q) == seq![slot(region, q)],
            forall|q: P| #[trigger] tree.bucket_of(q) == Seq::<P>::empty(),
    {
        let subregions = buckets_for(&region, size);
        let ghost kids = subregions@;
        let tree = NTree { kind: NTreeVariant::Branch { subregions }, region };
        proof {
            assert(tree.kind->subregions@ == kids);
            lemma_no_points_from(kids, size, 0);
            assert forall|i: int| 0 <= i < kids.len() implies (#[trigger] kids[i]).wf_within(
                size,
                (MAX_DEPTH - 1) as nat,
            ) by {
                kids[i].lemma_empty_bucket(size, (MAX_DEPTH - 1) as nat);
            }
            assert forall|q: P| region.holds(&q) implies #[trigger] tree.path_of(q) == seq![
                slot(region, q),
            ] by {
                lemma_slot(region, q);
                let i = slot(region, q);
                kids[i].lemma_empty_bucket(size, 0);
                assert(tree.path_of(q) == seq![i] + kids[i].path_of(q));
                assert(seq![i] + Seq::<int>::empty() =~= seq![i]);
            }
            assert forall|q: P| #[trigger] tree.bucket_of(q) == Seq::<P>::empty() by {
                let i = slot(region, q);
                if 0 <= i < kids.len() {
                    kids[i].lemma_empty_bucket(size, 0);
                    assert(tree.bucket_of(q) == kids[i].bucket_of(q));
                } else {
                    assert(tree.bucket_of(q) == Seq::<P>::empty());
                }
            }
        }
        tree
    }

    /// Is the point contained in the n-tree?
    pub fn contains(&self, point: &P) -> (inside: bool)
        ensures
            inside == self.region().holds(point),
    {
        self.region.contains(point)
    }

    /// Get all the points nearby a specified point: the points of the leaf
    /// that the point is led to, whether or not the point itself is stored.
    ///
    /// This will return no more than `capacity()` points.
    pub fn nearby<'a>(&'a self, point: &P) -> (found: Option<&'a [P]>)
        requires
            self.wf(),
        ensures
            found is Some == self.region().holds(point),
            found is Some ==> found->0@ == self.bucket_of(*point),
    {
        if !self.region.contains(point) {
            return None;
        }
        let mut node = self;
        let ghost mut room = MAX_DEPTH as nat;
        loop
            invariant
                self.region.holds(point),
                node.wf_within(self.capacity(), room),
                node.region.holds(point),
                node.bucket_of(*point) == self.bucket_of(*point),
            decreases room,
        {
            match &node.kind {
                NTreeVariant::Bucket { points, .. } => {
                    return Some(points.as_slice());
                },
                NTreeVariant::Branch { subregions } => {
                    let i = child_for(&node.region, subregions, point);
                    node = &subregions[i];
                    proof {
                        room = (room - 1) as nat;
                    }
                },
            }
        }
    }
}

/// One empty leaf for each part of `region`, in order.
pub(crate) fn buckets_for<P: PartialEq, R: Region<P>>(region: &R, size: u8) -> (nodes: Vec<
    NTree<R, P>,
>)
    ensures
        nodes@.len() == region.parts().len(),
        forall|i: int|
            0 <= i < nodes@.len() ==> (#[trigger] nodes@[i]).region == region.parts()[i]
                && nodes@[i].is_empty_bucket(size),
{
    let subs = region.split();
    let ghost parts = subs@;
    let mut nodes: Vec<NTree<R, P>> = Vec::new();
    for r in it: subs.into_iter()
        invariant
            it.seq() == parts,
            nodes@.len() == it.index(),
            forall|i: int|
                0 <= i < nodes@.len() ==> (#[trigger] nodes@[i]).region == parts[i]
                    && nodes@[i].is_empty_bucket(size),
    {
        nodes.push(NTree { region: r, kind: NTreeVariant::Bucket { points: Vec::new(), bucket_limit: size } });
    }
    nodes
}

/// The index of the child that `point` is led to: the first, and only,
/// child whose region contains the point.
pub(crate) fn child_for<P: PartialEq, R: Region<P>>(
    region: &R,
    subregions: &Vec<NTree<R, P>>,
    point: &P,
) -> (i: usize)
    requires
        region.holds(point),
        subregions@.len() == region.parts().len(),
        forall|j: int|
            0 <= j < subregions@.len() ==> (#[trigger] subregions@[j]).region == region.parts()[j],
    ensures
        i == slot(*region, *point),
        i < subregions@.len(),
        subregions@[i as int].region.holds(point),
{
    proof {
        lemma_slot(*region, *point);
    }
    let mut i: usize = 0;
    while i < subregions.len()
        invariant
            region.holds(point),
            subregions@.len() == region.parts().len(),
            forall|j: int|
                0 <= j < subregions@.len() ==> (#[trigger] subregions@[j]).region
                    == region.parts()[j],
            0 <= slot(*region, *point) < region.parts().len(),
            region.parts()[slot(*region, *point)].holds(point),
            forall|j: int|
                0 <= j < region.parts().len() && (#[trigger] region.parts()[j]).holds(point) ==> j
                    == slot(*region, *point),
            i <= slot(*region, *point),
        decreases subregions.len() - i,
    {
        if subregions[i].region.contains(point) {
            return i;
        }
        i += 1;
    }
    // No child took the point: the region's split is no partition.
    unreached()
}

/// Leaves without points hold no points.
pub(crate) proof fn lemma_no_points_from<P: PartialEq, R: Region<P>>(
    nodes: Seq<NTree<R, P>>,
    size: u8,
    from: int,
)
    requires
        0 <= from,
        forall|i: int| 0 <= i < nodes.len() ==> (#[trigger] nodes[i]).is_empty_bucket(size),
    ensures
        points_from(nodes, from) == Seq::<P>::empty(),
    decreases nodes.len() - from,
{
    if from < nodes.len() {
        lemma_no_points_from(nodes, size, from + 1);
        assert(nodes[from].is_empty_bucket(size));
        assert(nodes[from].points() =~= Seq::<P>::empty());
    }
}

/// The points of a node are among the points of the nodes around it.
pub(crate) proof fn lemma_points_from_holds<P: PartialEq, R: Region<P>>(
    nodes: Seq<NTree<R, P>>,
    from: int,
    i: int,
    x: P,
)
    requires
        0 <= from <= i < nodes.len(),
        nodes[i].points().contains(x),
    ensures
        points_from(nodes, from).contains(x),
    decreases i - from,
{
    let here = nodes[from].points();
    let rest = points_from(nodes, from + 1);
    assert(points_from(nodes, from) == here + rest);
    if from == i {
        let k = choose|k: int| 0 <= k < here.len() && here[k] == x;
        assert((here + rest)[k] == x);
    } else {
        lemma_points_from_holds(nodes, from + 1, i, x);
        let k = choose|k: int| 0 <= k < rest.len() && rest[k] == x;
        assert((here + rest)[here.len() + k] == x);
    }
}

/// Two ways that start with a step each are the same way exactly if the
/// steps are the same and the rests are.
pub(crate) proof fn lemma_cons_eq(i: int, a: Seq<int>, j: int, b: Seq<int>)
    ensures
        (seq![i] + a == seq![j] + b) <==> (i == j && a == b),
{
    if seq![i] + a == seq![j] + b {
        assert((seq![i] + a)[0] == i);
        assert((seq![j] + b)[0] == j);
        assert((seq![i] + a).skip(1) =~= a);
        assert((seq![j] + b).skip(1) =~= b);
    }
}

/// Replacing a node changes nothing behind it.
pub(crate) proof fn lemma_points_from_later<P: PartialEq, R: Region<P>>(
    nodes: Seq<NTree<R, P>>,
    i: int,
    node: NTree<R, P>,
    from: int,
)
    requires
        0 <= i < from,
        i < nodes.len(),
    ensures
        points_from(nodes.update(i, node), from) == points_from(nodes, from),
    decreases nodes.len() - from,
{
    if from < nodes.len() {
        lemma_points_from_later(nodes, i, node, from + 1);
        assert(nodes.update(i, node)[from] == nodes[from]);
    }
}

/// Replacing a node exchanges its points for those of the new node.
pub(crate) proof fn lemma_points_from_update<P: PartialEq, R: Region<P>>(
    nodes: Seq<NTree<R, P>>,
    i: int,
    node: NTree<R, P>,
    from: int,
)
    requires
        0 <= from <= i < nodes.len(),
    ensures
        points_from(nodes.update(i, node), from).to_multiset().add(nodes[i].points().to_multiset())
            =~= points_from(nodes, from).to_multiset().add(node.points().to_multiset()),
    decreases i - from,
{
    let changed = nodes.update(i, node);
    assert(changed.len() == nodes.len());
    if from == i {
        lemma_points_from_later(nodes, i, node, i + 1);
        let rest = points_from(nodes, i + 1);
        assert(changed[i] == node);
        assert(points_from(changed, i) == node.points() + rest);
        assert(points_from(nodes, i) == nodes[i].points() + rest);
        vstd::seq_lib::lemma_multiset_commutative(node.points(), rest);
        vstd::seq_lib::lemma_multiset_commutative(nodes[i].points(), rest);
        let lhs = points_from(changed, i).to_multiset().add(nodes[i].points().to_multiset());
        let rhs = points_from(nodes, i).to_multiset().add(node.points().to_multiset());
        assert forall|x: P| lhs.count(x) == rhs.count(x) by {
            assert(points_from(changed, i).to_multiset().count(x) == node.points().to_multiset().count(
                x,
            ) + rest.to_multiset().count(x));
            assert(points_from(nodes, i).to_multiset().count(x) == nodes[i].points().to_multiset().count(
                x,
            ) + rest.to_multiset().count(x));
        }
        assert(lhs =~= rhs);
    } else {
        lemma_points_from_update(nodes, i, node, from + 1);
        assert(changed[from] == nodes[from]);
        assert(points_from(changed, from) == nodes[from].points() + points_from(
            changed,
            from + 1,
        ));
        assert(points_from(nodes, from) == nodes[from].points() + points_from(nodes, from + 1));
        vstd::seq_lib::lemma_multiset_commutative(
            nodes[from].points(),
            points_from(changed, from + 1),
        );
        vstd::seq_lib::lemma_multiset_commutative(
            nodes[from].points(),
            points_from(nodes, from + 1),
        );
        let head = nodes[from].points().to_multiset();
        let tail2 = points_from(changed, from + 1).to_multiset();
        let tail = points_from(nodes, from + 1).to_multiset();
        let lhs = points_from(changed, from).to_multiset().add(nodes[i].points().to_multiset());
        let rhs = points_from(nodes, from).to_multiset().add(node.points().to_multiset());
        assert forall|x: P| lhs.count(x) == rhs.count(x) by {
            assert(points_from(changed, from).to_multiset().count(x) == head.count(x)
                + tail2.count(x));
            assert(points_from(nodes, from).to_multiset().count(x) == head.count(x) + tail.count(
                x,
            ));
            assert(tail2.add(nodes[i].points().to_multiset()).count(x) == tail.add(
                node.points().to_multiset(),
            ).count(x));
        }
        assert(lhs =~= rhs);
    }
}

} // verus!
