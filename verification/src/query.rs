//! Range queries: a cursor that walks the tree on demand.

use crate::region::Region;
use crate::tree::{points_from, NTree, NTreeVariant};
use vstd::prelude::*;

verus! {

/// Taken on trust of `ref_slice::ref_slice`, which turns a reference into a
/// slice without copying: the slice has one element, the value that `s`
/// refers to.
#[allow(deprecated)]
pub assume_specification<A>[ ref_slice::ref_slice::<A> ](s: &A) -> (r: &[A])
    ensures
        r@.len() == 1,
        r@[0] == *s,
;

/// The points of `pts` that lie in `query`, in their order.
pub open spec fn matching<P, R: Region<P>>(query: R, pts: Seq<P>) -> Seq<P> {
    pts.filter(|p: P| query.holds(&p))
}

/// The children of one node, and how many of them the walk has left behind.
pub(crate) struct Siblings<'t, R, P: PartialEq> {
    pub(crate) nodes: &'t [NTree<R, P>],
    pub(crate) next: usize,
}

/// An iterator over the points within a region.
///
/// This walks the leaves of the tree from left to right by
/// maintaining (a) the sequence of points of the current leaf
/// (possibly empty), and (b) a stack with the remaining
/// children of the parents of the current leaf.
pub struct RangeQuery<'t, 'q, R, P: PartialEq> {
    query: &'q R,
    points: &'t [P],
    seen: usize,
    stack: Vec<Siblings<'t, R, P>>,
}

/// The points of the nodes that a stack of siblings still has to show, those
/// of the top of the stack first.
pub(crate) open spec fn pending<'t, P: PartialEq, R: Region<P>>(
    stack: Seq<Siblings<'t, R, P>>,
) -> Seq<P>
    decreases stack.len(),
{
    if stack.len() == 0 {
        Seq::empty()
    } else {
        points_from(stack.last().nodes@, stack.last().next as int) + pending(stack.drop_last())
    }
}

/// The steps that the nodes `nodes[from..]` can cost a cursor: one for each
/// node, and the weight of each.
pub(crate) open spec fn weight_from<P: PartialEq, R: Region<P>>(
    nodes: Seq<NTree<R, P>>,
    from: int,
) -> nat
    decreases nodes, nodes.len() - from,
{
    if 0 <= from < nodes.len() {
        1 + nodes[from].weight() + weight_from(nodes, from + 1)
    } else {
        0
    }
}

/// The work a stack of siblings still stands for.
pub(crate) open spec fn load<'t, P: PartialEq, R: Region<P>>(
    stack: Seq<Siblings<'t, R, P>>,
) -> nat
    decreases stack.len(),
{
    if stack.len() == 0 {
        0
    } else {
        1 + weight_from(stack.last().nodes@, stack.last().next as int) + load(stack.drop_last())
    }
}

impl<P: PartialEq, R: Region<P>> NTree<R, P> {
    /// Whether the node is well-formed for some depth.
    pub(crate) open spec fn sound(&self) -> bool {
        exists|room: nat| self.wf_within(self.capacity(), room)
    }

    /// The steps that the inside of a node can cost a cursor: one for each
    /// point of a leaf, one for a branch and what its children cost.
    pub(crate) open spec fn weight(&self) -> nat
        decreases self, 0int,
    {
        match self.kind {
            NTreeVariant::Bucket { points, .. } => points@.len(),
            NTreeVariant::Branch { subregions } => 1 + weight_from(subregions@, 0),
        }
    }

    /// A subtree whose region does not overlap the query has no point in it.
    pub(crate) proof fn lemma_pruned(&self, query: R)
        requires
            self.sound(),
            !self.region.meets(&query),
        ensures
            matching(query, self.points()) == Seq::<P>::empty(),
    {
        let pts = self.points();
        let pred = |p: P| query.holds(&p);
        assert forall|k: int| 0 <= k < pts.len() implies !pred(#[trigger] pts[k]) by {
            assert(pts.contains(pts[k]));
            if query.holds(&pts[k]) {
                self.region.lemma_shared_point_meets(&query, &pts[k]);
            }
        }
        assert(pts.all(|x: P| !pred(x)));
        pts.lemma_all_neg_filter_empty(pred);
        assert(pts.filter(pred) =~= Seq::<P>::empty());
    }

    /// The children of a sound branch are sound.
    pub(crate) proof fn lemma_sound_children(&self)
        requires
            self.sound(),
            self.kind is Branch,
        ensures
            forall|j: int|
                0 <= j < self.kind->subregions@.len() ==> (#[trigger] self.kind->subregions@[j]).sound(),
    {
        let room = choose|room: nat| self.wf_within(self.capacity(), room);
        let cap = self.capacity();
        assert forall|j: int| 0 <= j < self.kind->subregions@.len() implies (
        #[trigger] self.kind->subregions@[j]).sound() by {
            assert(self.kind->subregions@[j].wf_within(cap, (room - 1) as nat));
        }
    }

    /// Get all the points which are within the queried region.
    ///
    /// Finds all points which are located in regions overlapping
    /// the passed in region, then filters out all points which
    /// are not strictly within the region.
    #[allow(deprecated)]
    pub fn range_query<'t, 'q>(&'t self, query: &'q R) -> (cursor: RangeQuery<'t, 'q, R, P>)
        requires
            self.wf(),
        ensures
            cursor.wf(),
            cursor.query() == *query,
            cursor@ == matching(*query, self@),
    {
        let root = ref_slice::ref_slice(self);
        let mut stack: Vec<Siblings<'t, R, P>> = Vec::new();
        stack.push(Siblings { nodes: root, next: 0 });
        let none: &'t [P] = &[];
        let cursor = RangeQuery { query, points: none, seen: 0, stack };
        proof {
            assert(none@.len() == 0);
            assert(cursor.points@.skip(0) =~= Seq::<P>::empty());
            assert(pending(cursor.stack@) == points_from(root@, 0) + pending(
                cursor.stack@.drop_last(),
            ));
            assert(root@ =~= seq![*self]);
            assert(cursor.stack@ =~= seq![Siblings { nodes: root, next: 0 }]);
            assert(cursor.stack@.drop_last() =~= Seq::empty());
            assert(points_from(root@, 1) =~= Seq::<P>::empty());
            assert(points_from(root@, 0) =~= self.points());
            assert(cursor.points@.skip(0) + pending(cursor.stack@) =~= self.points());
        }
        cursor
    }
}

/// Filtering a sequence that starts with `p` keeps `p` exactly if `p` lies
/// in the query.
proof fn lemma_matching_first<P, R: Region<P>>(query: R, p: P, rest: Seq<P>)
    ensures
        matching(query, seq![p] + rest) == if query.holds(&p) {
            seq![p] + matching(query, rest)
        } else {
            matching(query, rest)
        },
{
    let pred = |x: P| query.holds(&x);
    Seq::<P>::empty().lemma_filter_push(p, pred);
    Seq::<P>::empty().lemma_filter_len(pred);
    assert(Seq::<P>::empty().push(p) =~= seq![p]);
    assert(Seq::<P>::empty().filter(pred) =~= Seq::<P>::empty());
    Seq::filter_distributes_over_add(seq![p], rest, pred);
    if query.holds(&p) {
        assert(seq![p].filter(pred) =~= seq![p]);
    } else {
        assert(seq![p].filter(pred) =~= Seq::<P>::empty());
        assert(Seq::<P>::empty() + rest.filter(pred) =~= rest.filter(pred));
    }
}

impl<'t, 'q, P: PartialEq, R: Region<P>> View for RangeQuery<'t, 'q, R, P> {
    type V = Seq<P>;

    /// The points the cursor has still to yield, in the order it will.
    open spec fn view(&self) -> Seq<P> {
        self.remaining()
    }
}

impl<'t, 'q, P: PartialEq, R: Region<P>> RangeQuery<'t, 'q, R, P> {
    /// The region the cursor looks for points in.
    pub closed spec fn query(&self) -> R {
        *self.query
    }

    /// The points the cursor has still to yield, in the order it will.
    pub closed spec fn remaining(&self) -> Seq<P> {
        matching(*self.query, self.points@.skip(self.seen as int) + pending(self.stack@))
    }

    /// The invariant of a cursor: it stands inside its current leaf, and
    /// every node it has still to visit is a well-formed part of a tree.
    pub closed spec fn wf(&self) -> bool {
        &&& self.seen <= self.points@.len()
        &&& forall|k: int|
            0 <= k < self.stack@.len() ==> (#[trigger] self.stack@[k]).next
                <= self.stack@[k].nodes@.len()
        &&& forall|k: int, j: int|
            0 <= k < self.stack@.len() && 0 <= j < self.stack@[k].nodes@.len()
                ==> (#[trigger] self.stack@[k].nodes@[j]).sound()
    }

    /// The steps the cursor can still take.
    spec fn work(&self) -> nat {
        (self.points@.len() - self.seen + load(self.stack@)) as nat
    }

    /// The next point of the tree that lies in the query's region, if there
    /// is one left. After `None` the cursor stays exhausted.
    pub fn next(&mut self) -> (found: Option<&'t P>)
        requires
            old(self).wf(),
        ensures
            final(self).wf(),
            final(self).query() == old(self).query(),
            match found {
                Some(p) => old(self)@.len() > 0 && *p == old(self)@[0] && final(self)@ == old(
                    self,
                )@.skip(1),
                None => old(self)@.len() == 0 && final(self)@.len() == 0,
            },
    {
        loop
            invariant
                self.wf(),
                self.query == old(self).query,
                self.remaining() == old(self).remaining(),
            decreases self.work(),
        {
            let ghost here = *self;
            let ghost rest = pending(self.stack@);
            let ghost before = self.work();
            if self.seen < self.points.len() {
                // try to find the next point in the leaf we're
                // currently examining.
                let points: &'t [P] = self.points;
                let p = &points[self.seen];
                self.seen += 1;
                proof {
                    let tail = points@.skip(here.seen + 1);
                    assert(points@.skip(here.seen as int) =~= seq![*p] + tail);
                    assert((seq![*p] + tail) + rest =~= seq![*p] + (tail + rest));
                    lemma_matching_first(*self.query, *p, tail + rest);
                }
                proof {
                    assert(self.work() < before);
                }
                if self.query.contains(p) {
                    proof {
                        let after = matching(*self.query, points@.skip(here.seen + 1) + rest);
                        assert((seq![*p] + after).skip(1) =~= after);
                    }
                    return Some(p);
                }
            } else {
                // no relevant points, so lets find a new region.
                proof {
                    assert(self.points@.skip(self.seen as int) =~= Seq::<P>::empty());
                }
                match self.stack.pop() {
                    // no more regions, so we're over.
                    None => {
                        proof {
                            assert(Seq::<P>::empty() + Seq::<P>::empty() =~= Seq::<P>::empty());
                            Seq::<P>::empty().lemma_filter_len(|p: P| self.query.holds(&p));
                        }
                        return None;
                    },
                    Some(mut siblings) => {
                        let ghost below = here.stack@.drop_last();
                        let ghost top = here.stack@.last();
                        proof {
                            assert(self.stack@ =~= below);
                            assert(siblings == top);
                            assert(forall|k: int|
                                0 <= k < below.len() ==> below[k] == here.stack@[k]);
                        }
                        let nodes: &'t [NTree<R, P>] = siblings.nodes;
                        if siblings.next < nodes.len() {
                            // look at the next item in the current sequence
                            // of children.
                            let value = &nodes[siblings.next];
                            siblings.next += 1;
                            let ghost moved = siblings;
                            self.stack.push(siblings);
                            let hit = value.region.overlaps(self.query);
                            proof {
                                assert(self.stack@.drop_last() =~= below);
                                assert(self.stack@.last() == moved);
                                assert(top.nodes@[top.next as int].sound());
                                let behind = points_from(nodes@, moved.next as int);
                                assert(points_from(nodes@, top.next as int) == value.points()
                                    + behind);
                                assert(pending(self.stack@) == behind + pending(below));
                                assert(rest == (value.points() + behind) + pending(below));
                                assert(Seq::<P>::empty() + rest =~= value.points() + (behind
                                    + pending(below)));
                                assert(Seq::<P>::empty() + (behind + pending(below)) =~= behind
                                    + pending(below));
                                let pred = |p: P| self.query.holds(&p);
                                Seq::filter_distributes_over_add(
                                    value.points(),
                                    behind + pending(below),
                                    pred,
                                );
                                if !hit {
                                    value.lemma_pruned(*self.query);
                                    assert(Seq::<P>::empty() + matching(
                                        *self.query,
                                        behind + pending(below),
                                    ) =~= matching(*self.query, behind + pending(below)));
                                }
                                assert(weight_from(nodes@, top.next as int) == 1 + value.weight()
                                    + weight_from(nodes@, moved.next as int));
                                assert(load(here.stack@) == 1 + weight_from(
                                    nodes@,
                                    top.next as int,
                                ) + load(below));
                                assert(load(self.stack@) == 1 + weight_from(
                                    nodes@,
                                    moved.next as int,
                                ) + load(below));
                                assert(here.points@.len() == here.seen);
                                assert(self.work() + 1 + value.weight() == before);
                            }
                            if hit {
                                // we always need to save this state: either we
                                // step down into nested regions, or we handle
                                // the points of a leaf.
                                let ghost saved = self.stack@;
                                match &value.kind {
                                    NTreeVariant::Bucket { points, .. } => {
                                        // found something with points
                                        self.points = points.as_slice();
                                        self.seen = 0;
                                        proof {
                                            assert(self.points@.skip(0) =~= value.points());
                                            assert(self.work() < before);
                                        }
                                    },
                                    NTreeVariant::Branch { subregions } => {
                                        // step down into nested regions.
                                        self.stack.push(
                                            Siblings { nodes: subregions.as_slice(), next: 0 },
                                        );
                                        proof {
                                            value.lemma_sound_children();
                                            assert(self.stack@.drop_last() =~= saved);
                                            assert(load(self.stack@) == 1 + weight_from(
                                                subregions@,
                                                0,
                                            ) + load(saved));
                                            assert(self.work() < before);
                                            assert(pending(self.stack@) == value.points() + pending(
                                                saved,
                                            ));
                                            assert(Seq::<P>::empty() + pending(self.stack@)
                                                =~= value.points() + (points_from(
                                                nodes@,
                                                moved.next as int,
                                            ) + pending(below)));
                                        }
                                    },
                                }
                            }
                        } else {
                            proof {
                                assert(points_from(nodes@, top.next as int) =~= Seq::<P>::empty());
                                assert(rest =~= pending(below));
                                assert(load(here.stack@) == 1 + weight_from(
                                    nodes@,
                                    top.next as int,
                                ) + load(below));
                                assert(self.work() < before);
                            }
                        }
                    },
                }
            }
        }
    }
}

} // verus!
