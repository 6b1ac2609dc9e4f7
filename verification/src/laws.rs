//! What holds of every tree, stated over the model that the operations'
//! contracts speak of.

use crate::insert::{regroup, settles};
use crate::query::matching;
use crate::region::{region_at, slot, Region};
use crate::remove::{has_equal, took};
use crate::tree::{NTree, NTreeVariant, MAX_DEPTH};
use vstd::prelude::*;
use vstd::std_specs::cmp::PartialEqSpec;

verus! {

/// Whether `==` on points means that the points are the same.
pub open spec fn equality_is_identity<P: PartialEq>() -> bool {
    &&& P::obeys_eq_spec()
    &&& forall|a: P, b: P| #[trigger] a.eq_spec(&b) <==> a == b
}

/// A query finds each point as often as it is in the sequence, if it lies in
/// the query's region, and not at all if it does not.
pub proof fn lemma_matching_counts<P, R: Region<P>>(query: R, pts: Seq<P>, x: P)
    ensures
        matching(query, pts).to_multiset().count(x) == if query.holds(&x) {
            pts.to_multiset().count(x)
        } else {
            0
        },
    decreases pts.len(),
{
    broadcast use vstd::seq_lib::group_to_multiset_ensures;

    let pred = |p: P| query.holds(&p);
    if pts.len() == 0 {
        pts.lemma_filter_len(pred);
        assert(pts.filter(pred) =~= pts);
        assert(pts.to_multiset().len() == 0);
    } else {
        let front = pts.drop_last();
        let last = pts.last();
        lemma_matching_counts(query, front, x);
        assert(front.push(last) =~= pts);
        front.lemma_filter_push(last, pred);
        assert(pts.to_multiset() =~= front.to_multiset().insert(last));
        if query.holds(&last) {
            assert(matching(query, pts).to_multiset() =~= matching(
                query,
                front,
            ).to_multiset().insert(last));
        }
    }
}

/// A query whose region holds every point of a sequence finds them all.
pub proof fn lemma_matching_all<P, R: Region<P>>(query: R, pts: Seq<P>)
    requires
        forall|k: int| 0 <= k < pts.len() ==> query.holds(&#[trigger] pts[k]),
    ensures
        matching(query, pts) == pts,
    decreases pts.len(),
{
    let pred = |p: P| query.holds(&p);
    if pts.len() == 0 {
        pts.lemma_filter_len(pred);
        assert(pts.filter(pred) =~= pts);
    } else {
        let front = pts.drop_last();
        let last = pts.last();
        lemma_matching_all(query, front);
        assert(front.push(last) =~= pts);
        front.lemma_filter_push(last, pred);
    }
}

/// A leaf that has a place for a point holds the point afterwards.
pub proof fn lemma_settled_is_there<P, R: Region<P>>(
    region: R,
    pts: Seq<P>,
    extra: P,
    cap: u8,
    room: nat,
)
    requires
        settles(region, pts, extra, cap, room),
    ensures
        regroup(region, pts, extra, extra, cap, room).contains(extra),
    decreases room,
{
    if pts.len() < cap {
        assert(pts.push(extra)[pts.len() as int] == extra);
    } else {
        lemma_settled_is_there(
            crate::region::part_of(region, extra),
            crate::insert::sent_to(region, pts, slot(region, extra)),
            extra,
            cap,
            (room - 1) as nat,
        );
    }
}

impl<P: PartialEq, R: Region<P>> NTree<R, P> {
    pub(crate) proof fn lemma_bucket_bound(&self, cap: u8, room: nat, q: P)
        requires
            self.wf_within(cap, room),
        ensures
            self.bucket_of(q).len() <= cap,
        decreases self,
    {
        match self.kind {
            NTreeVariant::Bucket { .. } => {},
            NTreeVariant::Branch { subregions } => {
                let i = slot(self.region, q);
                if 0 <= i < subregions@.len() {
                    subregions@[i].lemma_bucket_bound(cap, (room - 1) as nat, q);
                }
            },
        }
    }

    /// No leaf of a tree holds more points than the tree's capacity.
    pub proof fn lemma_capacity_bound(&self, q: P)
        requires
            self.wf(),
        ensures
            self.bucket_of(q).len() <= self.capacity(),
    {
        self.lemma_bucket_bound(self.capacity(), MAX_DEPTH as nat, q);
    }

    /// No leaf of a tree lies deeper than `MAX_DEPTH`.
    pub proof fn lemma_depth_bound(&self, q: P)
        requires
            self.wf(),
        ensures
            self.path_of(q).len() <= MAX_DEPTH,
    {
        self.lemma_path_fits(self.capacity(), MAX_DEPTH as nat, q);
    }

    /// Every point of a tree lies in the tree's region, and the points of a
    /// leaf are points of the tree.
    pub proof fn lemma_points_in_region(&self)
        requires
            self.wf(),
        ensures
            forall|k: int| 0 <= k < self@.len() ==> self.region().holds(&#[trigger] self@[k]),
            forall|q: P, k: int|
                0 <= k < self.bucket_of(q).len() ==> self@.contains(
                    #[trigger] self.bucket_of(q)[k],
                ),
    {
        assert forall|k: int| 0 <= k < self@.len() implies self.region().holds(
            &#[trigger] self@[k],
        ) by {
            assert(self.points().contains(self@[k]));
        }
        assert forall|q: P, k: int| 0 <= k < self.bucket_of(q).len() implies self@.contains(
            #[trigger] self.bucket_of(q)[k],
        ) by {
            self.lemma_bucket_in_points(q, k);
        }
    }

    /// A range query finds each point of the tree that lies in the query's
    /// region as often as the tree holds it, and no other point.
    pub proof fn lemma_query_counts(&self, query: R, x: P)
        ensures
            matching(query, self@).to_multiset().count(x) == if query.holds(&x) {
                self@.to_multiset().count(x)
            } else {
                0
            },
    {
        lemma_matching_counts(query, self@, x);
    }

    /// Two trees that hold the same points, in whatever order they were
    /// inserted, give a range query the same points.
    pub proof fn lemma_query_ignores_order(&self, other: Self, query: R)
        requires
            self@.to_multiset() == other@.to_multiset(),
        ensures
            matching(query, self@).to_multiset() == matching(query, other@).to_multiset(),
    {
        let a = matching(query, self@).to_multiset();
        let b = matching(query, other@).to_multiset();
        assert forall|x: P| a.count(x) == b.count(x) by {
            lemma_matching_counts(query, self@, x);
            lemma_matching_counts(query, other@, x);
        }
        assert(a =~= b);
    }

    /// After a successful insert the point is in the leaf it is led to, and
    /// a range query over the tree's whole region finds it once more than
    /// the tree held it before: once, if it was new.
    pub proof fn lemma_inserted_is_found(&self, point: P, after: Self)
        requires
            self.wf(),
            after.wf(),
            self.inserts(point, after, true),
        ensures
            after.bucket_of(point).contains(point),
            matching(after.region(), after@) == after@,
            after@.to_multiset().count(point) == self@.to_multiset().count(point) + 1,
            !self@.contains(point) ==> matching(after.region(), after@).to_multiset().count(point)
                == 1,
    {
        broadcast use vstd::seq_lib::group_to_multiset_ensures;

        let path = self.path_of(point);
        self.lemma_depth_bound(point);
        lemma_settled_is_there(
            region_at(self.region(), path),
            self.bucket_of(point),
            point,
            self.capacity(),
            (MAX_DEPTH - path.len()) as nat,
        );
        after.lemma_points_in_region();
        lemma_matching_all(after.region(), after@);
    }

    /// Where `==` on points is identity and the point is new to the tree:
    /// after a successful insert, a first removal of the point finds it, a
    /// second does not, and the tree then holds the points it held before
    /// the insert, the point in none of its leaves.
    pub proof fn lemma_remove_after_insert(
        &self,
        point: P,
        inserted: Self,
        removed: Self,
        first: bool,
        again: Self,
        second: bool,
    )
        requires
            equality_is_identity::<P>(),
            !self@.contains(point),
            self.wf(),
            inserted.wf(),
            removed.wf(),
            again.wf(),
            self.inserts(point, inserted, true),
            inserted.removes(point, removed, first),
            removed.removes(point, again, second),
        ensures
            first,
            !second,
            removed@.to_multiset() == self@.to_multiset(),
            !removed.bucket_of(point).contains(point),
            again@ == removed@,
            !again.bucket_of(point).contains(point),
    {
        broadcast use vstd::seq_lib::group_to_multiset_ensures;

        self.lemma_inserted_is_found(point, inserted);
        let pts = inserted.bucket_of(point);
        let at = choose|k: int| 0 <= k < pts.len() && pts[k] == point;
        assert(pts[at].eq_spec(&point));
        assert(has_equal(pts, point));
        assert(first);
        let i = choose|i: int| took(inserted, removed, point, i);
        assert(took(inserted, removed, point, i));
        assert(pts[i].eq_spec(&point));
        assert(pts[i] == point);
        assert(removed@.to_multiset() =~= self@.to_multiset());
        assert(!removed@.contains(point));
        removed.lemma_points_in_region();
        let left = removed.bucket_of(point);
        if left.contains(point) {
            let k = choose|k: int| 0 <= k < left.len() && left[k] == point;
            assert(removed@.contains(left[k]));
        }
        if has_equal(left, point) {
            let k = choose|k: int| 0 <= k < left.len() && (#[trigger] left[k]).eq_spec(&point);
            assert(left[k] == point);
            assert(left.contains(point));
        }
    }
}

} // verus!
