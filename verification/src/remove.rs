//! Removal of a point from the leaf that would hold it.

use crate::region::{lemma_slot, slot, Region};
use crate::tree::{
    child_for, lemma_cons_eq, lemma_points_from_update, points_from, NTree, NTreeVariant,
    MAX_DEPTH,
};
use vstd::prelude::*;
use vstd::std_specs::cmp::PartialEqSpec;

verus! {

/// `pts` without its point at `i`, the last point moved into the gap.
pub open spec fn swap_removed<P>(pts: Seq<P>, i: int) -> Seq<P> {
    pts.update(i, pts.last()).drop_last()
}

/// Whether `i` is the first place in `pts` whose point equals `point`.
pub open spec fn first_equal_at<P: PartialEq>(pts: Seq<P>, point: P, i: int) -> bool {
    &&& 0 <= i < pts.len()
    &&& pts[i].eq_spec(&point)
    &&& forall|j: int| 0 <= j < i ==> !(#[trigger] pts[j]).eq_spec(&point)
}

/// Whether some point of `pts` equals `point`.
pub open spec fn has_equal<P: PartialEq>(pts: Seq<P>, point: P) -> bool {
    exists|i: int| 0 <= i < pts.len() && (#[trigger] pts[i]).eq_spec(&point)
}

/// Whether `after` is `before` without the point at `i` in the leaf that
/// `point` is led to: that leaf has lost it by a swap with its last point,
/// every other leaf is as it was.
pub open spec fn took<P: PartialEq, R: Region<P>>(
    before: NTree<R, P>,
    after: NTree<R, P>,
    point: P,
    i: int,
) -> bool {
    let pts = before.bucket_of(point);
    &&& 0 <= i < pts.len()
    &&& P::obeys_eq_spec() ==> first_equal_at(pts, point, i)
    &&& after@.to_multiset() == before@.to_multiset().remove(pts[i])
    &&& forall|q: P| #[trigger]
        after.bucket_of(q) == if before.path_of(q) == before.path_of(point) {
            swap_removed(pts, i)
        } else {
            before.bucket_of(q)
        }
}

/// Whether `after` holds the points of `before`, each where it was.
pub open spec fn kept<P: PartialEq, R: Region<P>>(before: NTree<R, P>, after: NTree<R, P>) -> bool {
    &&& after@ == before@
    &&& forall|q: P| #[trigger] after.bucket_of(q) == before.bucket_of(q)
}

/// What looking for `point` below the node `before` and removing it leaves
/// behind: the node `after` and the answer `ok`.
pub(crate) open spec fn shrunk<P: PartialEq, R: Region<P>>(
    before: NTree<R, P>,
    after: NTree<R, P>,
    point: P,
    cap: u8,
    room: nat,
    ok: bool,
) -> bool {
    &&& after.region == before.region
    &&& after.wf_within(cap, room)
    &&& forall|q: P| #[trigger] after.path_of(q) == before.path_of(q)
    &&& !ok ==> kept(before, after)
    &&& ok ==> exists|i: int| took(before, after, point, i)
    &&& P::obeys_eq_spec() ==> ok == has_equal(before.bucket_of(point), point)
}

/// The multiset of a sequence that lost the point at `i` by a swap with its
/// last point.
proof fn lemma_swap_removed<P>(pts: Seq<P>, i: int)
    requires
        0 <= i < pts.len(),
    ensures
        swap_removed(pts, i).to_multiset() =~= pts.to_multiset().remove(pts[i]),
        swap_removed(pts, i).len() == pts.len() - 1,
        forall|x: P| #[trigger] swap_removed(pts, i).contains(x) ==> pts.contains(x),
{
    broadcast use vstd::seq_lib::group_to_multiset_ensures;

    let last = pts.len() - 1;
    let moved = pts.update(i, pts.last());
    assert(moved.drop_last() =~= moved.remove(last));
    assert(moved[last] == pts.last());
    assert(moved.to_multiset() =~= pts.to_multiset().insert(pts.last()).remove(pts[i]));
    assert(moved.remove(last).to_multiset() =~= moved.to_multiset().remove(moved[last]));
    assert forall|x: P| #[trigger] swap_removed(pts, i).contains(x) implies pts.contains(x) by {
        let k = choose|k: int| 0 <= k < swap_removed(pts, i).len() && swap_removed(pts, i)[k] == x;
        if k == i {
            assert(pts[last] == x);
        } else {
            assert(pts[k] == x);
        }
    }
}

/// The first place in `points` whose point equals `point`, if there is one.
fn position<P: PartialEq>(points: &Vec<P>, point: &P) -> (found: Option<usize>)
    ensures
        found is Some ==> found->0 < points@.len(),
        P::obeys_eq_spec() ==> match found {
            Some(i) => first_equal_at(points@, *point, i as int),
            None => !has_equal(points@, *point),
        },
{
    let mut i: usize = 0;
    while i < points.len()
        invariant
            i <= points@.len(),
            P::obeys_eq_spec() ==> forall|j: int|
                0 <= j < i ==> !(#[trigger] points@[j]).eq_spec(point),
        decreases points.len() - i,
    {
        if points[i] == *point {
            return Some(i);
        }
        i += 1;
    }
    None
}

impl<P: PartialEq, R: Region<P>> NTree<R, P> {
    /// What `remove(point)` makes of the tree: `after`, with the answer `ok`.
    ///
    /// Nothing but one leaf changes, and no point is led another way than
    /// before. With `ok` the leaf that `point` is led to has lost one point,
    /// by a swap with its last; without, the tree holds what it held, each
    /// point where it was. Where `==` on points obeys `eq_spec`, the point
    /// lost is the first in that leaf that equals `point`, and `ok` says
    /// whether there was one.
    pub open spec fn removes(&self, point: P, after: Self, ok: bool) -> bool {
        &&& after.region() == self.region()
        &&& after.capacity() == self.capacity()
        &&& forall|q: P| #[trigger] after.path_of(q) == self.path_of(q)
        &&& !ok ==> kept(*self, after)
        &&& ok ==> self.region().holds(&point) && exists|i: int| took(*self, after, point, i)
        &&& P::obeys_eq_spec() ==> ok == (self.region().holds(&point) && has_equal(
            self.bucket_of(point),
            point,
        ))
    }

    /// Remove a point from the n-tree: the first point equal to `point` in
    /// the leaf that `point` is led to. Returns true if there was one.
    ///
    /// A leaf that loses its last point stays in the tree as an empty leaf.
    pub fn remove(&mut self, point: &P) -> (ok: bool)
        requires
            old(self).wf(),
        ensures
            final(self).wf(),
            old(self).removes(*point, *final(self), ok),
    {
        if !self.region.contains(point) {
            return false;
        }
        self.remove_within(point, Ghost(MAX_DEPTH as nat))
    }

    /// Remove a point of the node's region from below the node.
    fn remove_within(&mut self, point: &P, Ghost(room): Ghost<nat>) -> (ok: bool)
        requires
            old(self).wf_within(old(self).capacity(), room),
            old(self).region.holds(point),
        ensures
            shrunk(*old(self), *final(self), *point, old(self).capacity(), room, ok),
        decreases room,
    {
        let ghost before = *self;
        let ghost cap = self.capacity();
        match &mut self.kind {
            NTreeVariant::Branch { subregions } => {
                let i = child_for(&self.region, subregions, point);
                proof {
                    assert(before.kind->subregions@[i as int].wf_within(cap, (room - 1) as nat));
                }
                let ok = subregions[i].remove_within(point, Ghost((room - 1) as nat));
                proof {
                    lemma_shrunk_in_child(before, *self, i as int, *point, cap, room, ok);
                }
                ok
            },
            NTreeVariant::Bucket { points, .. } => {
                match position(points, point) {
                    None => false,
                    Some(idx) => {
                        points.swap_remove(idx);
                        proof {
                            lemma_shrunk_in_leaf(before, *self, *point, idx as int, cap, room);
                        }
                        true
                    },
                }
            },
        }
    }
}

/// Nodes with the same points, one by one, have the same points together.
proof fn lemma_points_from_same<P: PartialEq, R: Region<P>>(
    nodes: Seq<NTree<R, P>>,
    others: Seq<NTree<R, P>>,
    from: int,
)
    requires
        0 <= from,
        nodes.len() == others.len(),
        forall|j: int| 0 <= j < nodes.len() ==> (#[trigger] others[j]).points() == nodes[j].points(),
    ensures
        points_from(others, from) == points_from(nodes, from),
    decreases nodes.len() - from,
{
    if from < nodes.len() {
        lemma_points_from_same(nodes, others, from + 1);
        assert(others[from].points() == nodes[from].points());
    }
}

/// A leaf that lost the point at `i` has shrunk.
proof fn lemma_shrunk_in_leaf<P: PartialEq, R: Region<P>>(
    before: NTree<R, P>,
    after: NTree<R, P>,
    point: P,
    i: int,
    cap: u8,
    room: nat,
)
    requires
        before.wf_within(cap, room),
        before.kind is Bucket,
        after.kind is Bucket,
        after.region == before.region,
        after.kind->bucket_limit == before.kind->bucket_limit,
        0 <= i < before.points().len(),
        after.kind->points@ == swap_removed(before.points(), i),
        P::obeys_eq_spec() ==> first_equal_at(before.points(), point, i),
    ensures
        shrunk(before, after, point, cap, room, true),
{
    let pts = before.points();
    lemma_swap_removed(pts, i);
    assert(took(before, after, point, i));
    if P::obeys_eq_spec() {
        assert(pts[i].eq_spec(&point));
    }
}

/// What holds of a child after a removal below it holds of the node.
proof fn lemma_shrunk_in_child<P: PartialEq, R: Region<P>>(
    before: NTree<R, P>,
    after: NTree<R, P>,
    i: int,
    point: P,
    cap: u8,
    room: nat,
    ok: bool,
)
    requires
        before.wf_within(cap, room),
        before.region.holds(&point),
        before.kind is Branch,
        after.kind is Branch,
        after.region == before.region,
        i == slot(before.region, point),
        0 <= i < before.kind->subregions@.len(),
        after.kind->subregions@ == before.kind->subregions@.update(
            i,
            after.kind->subregions@[i],
        ),
        shrunk(
            before.kind->subregions@[i],
            after.kind->subregions@[i],
            point,
            cap,
            (room - 1) as nat,
            ok,
        ),
    ensures
        shrunk(before, after, point, cap, room, ok),
{
    broadcast use vstd::seq_lib::group_to_multiset_ensures;

    let region = before.region;
    let kids = before.kind->subregions@;
    let kids2 = after.kind->subregions@;
    let c = kids[i];
    let c2 = kids2[i];
    let cpath = c.path_of(point);
    let path = before.path_of(point);
    let pts = before.bucket_of(point);
    assert(path == seq![i] + cpath);
    assert(pts == c.bucket_of(point));
    assert(kids2 =~= kids.update(i, c2));

    assert forall|q: P| #[trigger] after.path_of(q) == before.path_of(q) by {
        let j = slot(region, q);
        if 0 <= j < kids.len() {
            assert(before.path_of(q) == seq![j] + kids[j].path_of(q));
            assert(after.path_of(q) == seq![j] + kids2[j].path_of(q));
            if j != i {
                assert(kids2[j] == kids[j]);
            }
        }
    }
    if !ok {
        lemma_points_from_same(kids, kids2, 0);
        assert(after.points() == points_from(kids2, 0));
        assert(before.points() == points_from(kids, 0));
        assert forall|q: P| #[trigger] after.bucket_of(q) == before.bucket_of(q) by {
            let j = slot(region, q);
            if 0 <= j < kids.len() {
                assert(before.bucket_of(q) == kids[j].bucket_of(q));
                assert(after.bucket_of(q) == kids2[j].bucket_of(q));
                if j != i {
                    assert(kids2[j] == kids[j]);
                }
            }
        }
    } else {
        let w = choose|w: int| took(c, c2, point, w);
        assert(took(c, c2, point, w));
        lemma_points_from_update(kids, i, c2, 0);
        assert(after.points() == points_from(kids2, 0));
        assert(before.points() == points_from(kids, 0));
        let am = after.points().to_multiset();
        let bm = before.points().to_multiset();
        let cm = c.points().to_multiset();
        let cm2 = c2.points().to_multiset();
        assert(am.add(cm) =~= bm.add(cm2));
        assert(cm2 =~= cm.remove(pts[w]));
        c.lemma_bucket_in_points(point, w);
        assert(cm.count(pts[w]) > 0);
        assert forall|x: P| am.count(x) == bm.remove(pts[w]).count(x) by {
            assert(am.add(cm).count(x) == bm.add(cm2).count(x));
        }
        assert(am =~= bm.remove(pts[w]));
        assert forall|q: P| #[trigger]
            after.bucket_of(q) == if before.path_of(q) == path {
                swap_removed(pts, w)
            } else {
                before.bucket_of(q)
            } by {
            let j = slot(region, q);
            if 0 <= j < kids.len() {
                assert(before.path_of(q) == seq![j] + kids[j].path_of(q));
                assert(before.bucket_of(q) == kids[j].bucket_of(q));
                assert(after.bucket_of(q) == kids2[j].bucket_of(q));
                lemma_cons_eq(j, kids[j].path_of(q), i, cpath);
                if j != i {
                    assert(kids2[j] == kids[j]);
                }
            } else {
                assert(before.path_of(q).len() == 0);
                assert(path.len() > 0);
            }
        }
        assert(took(before, after, point, w));
        assert forall|x: P| #[trigger] after.points().contains(x) implies region.holds(&x) by {
            assert(am.count(x) > 0);
            assert(bm.count(x) > 0);
            assert(before.points().contains(x));
        }
    }
    assert forall|j: int| 0 <= j < kids2.len() implies (#[trigger] kids2[j]).wf_within(
        cap,
        (room - 1) as nat,
    ) && kids2[j].region == region.parts()[j] by {
        if j != i {
            assert(kids2[j] == kids[j]);
        }
    }
    assert(after.capacity() == cap) by {
        assert(kids2[0].wf_within(cap, (room - 1) as nat));
    }
    assert(after.wf_within(cap, room));
}

} // verus!
