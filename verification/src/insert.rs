//! Insertion, and the splitting of a full leaf.

use crate::region::{lemma_slot, part_of, region_at, slot, Region};
use crate::tree::{
    buckets_for, child_for, lemma_cons_eq, lemma_no_points_from, lemma_points_from_update,
    points_from, NTree, NTreeVariant, MAX_DEPTH,
};
use vstd::pervasive::unreached;
use vstd::prelude::*;

verus! {

/// The points of `pts` that fall in part `i` of `region`, in their order.
pub open spec fn sent_to<P, R: Region<P>>(region: R, pts: Seq<P>, i: int) -> Seq<P> {
    pts.filter(|x: P| slot(region, x) == i)
}

/// Whether a leaf over `region` that holds `pts` and may grow `room` levels
/// deeper has a place for `extra`: at once, if it holds fewer than `cap`
/// points; else after a split, if the part that `extra` falls in, with the
/// points of `pts` that fall there too, has one.
pub open spec fn settles<P, R: Region<P>>(
    region: R,
    pts: Seq<P>,
    extra: P,
    cap: u8,
    room: nat,
) -> bool
    decreases room,
{
    pts.len() < cap || (room > 0 && settles(
        part_of(region, extra),
        sent_to(region, pts, slot(region, extra)),
        extra,
        cap,
        (room - 1) as nat,
    ))
}

/// The way `q` goes below a leaf over `region` that held `pts`, once `extra`
/// has been offered to that leaf: nowhere, if the leaf was not split; else
/// into its own part and, as long as that is also the part of `extra`, on.
pub open spec fn descent<P, R: Region<P>>(
    region: R,
    pts: Seq<P>,
    extra: P,
    q: P,
    cap: u8,
    room: nat,
) -> Seq<int>
    decreases room,
{
    if pts.len() < cap || room == 0 {
        Seq::empty()
    } else if slot(region, q) != slot(region, extra) {
        seq![slot(region, q)]
    } else {
        seq![slot(region, q)] + descent(
            part_of(region, extra),
            sent_to(region, pts, slot(region, extra)),
            extra,
            q,
            cap,
            (room - 1) as nat,
        )
    }
}

/// The points in the leaf of `q`, once `extra` has been offered to a leaf
/// over `region` that held `pts` and that `q` was led to as well.
pub open spec fn regroup<P, R: Region<P>>(
    region: R,
    pts: Seq<P>,
    extra: P,
    q: P,
    cap: u8,
    room: nat,
) -> Seq<P>
    decreases room,
{
    if pts.len() < cap {
        pts.push(extra)
    } else if room == 0 {
        pts
    } else if slot(region, q) != slot(region, extra) {
        sent_to(region, pts, slot(region, q))
    } else {
        regroup(
            part_of(region, extra),
            sent_to(region, pts, slot(region, extra)),
            extra,
            q,
            cap,
            (room - 1) as nat,
        )
    }
}

/// What offering `point` to the node `before`, which may grow `room` levels
/// deeper, leaves behind: the node `after` and the answer `ok`.
pub(crate) open spec fn grown<P: PartialEq, R: Region<P>>(
    before: NTree<R, P>,
    after: NTree<R, P>,
    point: P,
    cap: u8,
    room: nat,
    ok: bool,
) -> bool {
    let path = before.path_of(point);
    let leaf = region_at(before.region, path);
    let pts = before.bucket_of(point);
    let left = (room - path.len()) as nat;
    &&& after.region == before.region
    &&& after.wf_within(cap, room)
    &&& ok == settles(leaf, pts, point, cap, left)
    &&& after.points().to_multiset() =~= if ok {
        before.points().to_multiset().insert(point)
    } else {
        before.points().to_multiset()
    }
    &&& forall|q: P|
        before.region.holds(&q) ==> #[trigger] after.path_of(q) == if before.path_of(q) == path {
            path + descent(leaf, pts, point, q, cap, left)
        } else {
            before.path_of(q)
        }
    &&& forall|q: P|
        before.region.holds(&q) ==> #[trigger] after.bucket_of(q) == if before.path_of(q)
            == path {
            regroup(leaf, pts, point, q, cap, left)
        } else {
            before.bucket_of(q)
        }
}

/// A node that was just split: its children are leaves, and between them
/// they hold `placed`, each point in the part it falls in.
pub(crate) open spec fn spread<P: PartialEq, R: Region<P>>(
    region: R,
    node: NTree<R, P>,
    placed: Seq<P>,
    cap: u8,
    room: nat,
) -> bool {
    &&& node.region == region
    &&& node.wf_within(cap, room)
    &&& node.kind is Branch
    &&& node.points().to_multiset() =~= placed.to_multiset()
    &&& forall|q: P| region.holds(&q) ==> #[trigger] node.path_of(q) == seq![slot(region, q)]
    &&& forall|q: P|
        region.holds(&q) ==> #[trigger] node.bucket_of(q) == sent_to(
            region,
            placed,
            slot(region, q),
        )
}

proof fn lemma_region_at_cons<P, R: Region<P>>(region: R, i: int, rest: Seq<int>)
    ensures
        region_at(region, seq![i] + rest) == region_at(region.parts()[i], rest),
{
    let path = seq![i] + rest;
    assert(path[0] == i);
    assert(path.skip(1) =~= rest);
}

proof fn lemma_sent_to_push<P, R: Region<P>>(region: R, pts: Seq<P>, x: P, i: int)
    ensures
        sent_to(region, pts.push(x), i) == if slot(region, x) == i {
            sent_to(region, pts, i).push(x)
        } else {
            sent_to(region, pts, i)
        },
        sent_to(region, pts, i).len() <= pts.len(),
{
    let pred = |y: P| slot(region, y) == i;
    pts.lemma_filter_push(x, pred);
    pts.lemma_filter_len(pred);
}

impl<P: PartialEq, R: Region<P>> NTree<R, P> {
    /// No leaf lies deeper below a node than the node may grow.
    pub(crate) proof fn lemma_path_fits(&self, cap: u8, room: nat, q: P)
        requires
            self.wf_within(cap, room),
        ensures
            self.path_of(q).len() <= room,
        decreases self,
    {
        match self.kind {
            NTreeVariant::Bucket { .. } => {},
            NTreeVariant::Branch { subregions } => {
                let i = slot(self.region, q);
                if 0 <= i < subregions@.len() {
                    subregions@[i].lemma_path_fits(cap, (room - 1) as nat, q);
                }
            },
        }
    }

    /// Whether the tree has a place for `point`: the point lies in the
    /// tree's region, and the leaf it is led to has a free slot or can be
    /// split, without going deeper than `MAX_DEPTH`, until the point's own
    /// leaf has one.
    pub open spec fn admits(&self, point: P) -> bool {
        &&& self.region().holds(&point)
        &&& settles(
            region_at(self.region(), self.path_of(point)),
            self.bucket_of(point),
            point,
            self.capacity(),
            (MAX_DEPTH - self.path_of(point).len()) as nat,
        )
    }

    /// What `insert(point)` makes of the tree: `after`, with the answer `ok`.
    ///
    /// The tree takes the point exactly if it `admits` it. Points that are
    /// led to another leaf than `point` keep their way and their leaf. The
    /// others, if the leaf was split, are led on as `descent` says, and find
    /// in their leaf the points that `regroup` gives.
    pub open spec fn inserts(&self, point: P, after: Self, ok: bool) -> bool {
        let path = self.path_of(point);
        let leaf = region_at(self.region(), path);
        let pts = self.bucket_of(point);
        let left = (MAX_DEPTH - path.len()) as nat;
        &&& after.region() == self.region()
        &&& after.capacity() == self.capacity()
        &&& ok == self.admits(point)
        &&& after@.to_multiset() == if ok {
            self@.to_multiset().insert(point)
        } else {
            self@.to_multiset()
        }
        &&& !self.region().holds(&point) ==> after == *self
        &&& self.region().holds(&point) ==> forall|q: P|
            self.region().holds(&q) ==> #[trigger] after.path_of(q) == if self.path_of(q)
                == path {
                path + descent(leaf, pts, point, q, self.capacity(), left)
            } else {
                self.path_of(q)
            }
        &&& self.region().holds(&point) ==> forall|q: P|
            self.region().holds(&q) ==> #[trigger] after.bucket_of(q) == if self.path_of(q)
                == path {
                regroup(leaf, pts, point, q, self.capacity(), left)
            } else {
                self.bucket_of(q)
            }
    }

    /// Insert a point into the n-tree, returns true if the point
    /// is within the n-tree and was inserted and false if not.
    ///
    /// A point outside the tree's region leaves the tree as it was. A point
    /// inside is refused only where its leaf is full and splitting cannot
    /// part it from the points there within `MAX_DEPTH` levels; the tree then
    /// holds the points it held, though leaves may have been split.
    pub fn insert(&mut self, point: P) -> (ok: bool)
        requires
            old(self).wf(),
        ensures
            final(self).wf(),
            old(self).inserts(point, *final(self), ok),
    {
        if !self.region.contains(&point) {
            return false;
        }
        let ghost before = *self;
        let ok = self.insert_within(point, MAX_DEPTH);
        proof {
            assert(grown(before, *self, point, before.capacity(), MAX_DEPTH as nat, ok));
            assert(self@.to_multiset() =~= if ok {
                before@.to_multiset().insert(point)
            } else {
                before@.to_multiset()
            });
        }
        ok
    }

    /// Insert a point of the node's region below the node, which may grow
    /// `room` levels deeper.
    pub(crate) fn insert_within(&mut self, point: P, room: usize) -> (ok: bool)
        requires
            old(self).wf_within(old(self).capacity(), room as nat),
            old(self).region.holds(&point),
        ensures
            grown(*old(self), *final(self), point, old(self).capacity(), room as nat, ok),
        decreases room, (if old(self).kind is Bucket { 2int } else { 0int }),
    {
        let ghost before = *self;
        let ghost cap = self.capacity();
        match &mut self.kind {
            NTreeVariant::Branch { subregions } => {
                let i = child_for(&self.region, subregions, &point);
                proof {
                    assert(before.kind->subregions@[i as int].wf_within(cap, (room - 1) as nat));
                }
                let ok = subregions[i].insert_within(point, room - 1);
                proof {
                    lemma_grown_in_child(before, *self, i as int, point, cap, room as nat, ok);
                }
                ok
            },
            NTreeVariant::Bucket { points, bucket_limit } => {
                if points.len() < *bucket_limit as usize {
                    points.push(point);
                    proof {
                        lemma_grown_by_push(before, *self, point, cap, room as nat);
                    }
                    true
                } else if room == 0 {
                    proof {
                        lemma_grown_refused(before, point, cap);
                    }
                    false
                } else {
                    // Bucket is full
                    split_and_insert(self, point, room)
                }
            },
        }
    }
}

/// Replace a full leaf by a branch over the same region, hand the leaf's
/// points to the branch one by one, and the new point last.
pub(crate) fn split_and_insert<P: PartialEq, R: Region<P>>(
    bucket: &mut NTree<R, P>,
    point: P,
    room: usize,
) -> (ok: bool)
    requires
        old(bucket).wf_within(old(bucket).capacity(), room as nat),
        old(bucket).region.holds(&point),
        old(bucket).kind is Bucket,
        old(bucket).points().len() == old(bucket).capacity(),
        room > 0,
    ensures
        grown(*old(bucket), *final(bucket), point, old(bucket).capacity(), room as nat, ok),
    decreases room, 1int,
{
    let ghost before = *bucket;
    let ghost cap = bucket.capacity();
    let mut old_points: Vec<P> = Vec::new();
    let old_bucket_limit: u8;

    match &mut bucket.kind {
        // Get the old points and bucket limit.
        NTreeVariant::Bucket { points, bucket_limit } => {
            std::mem::swap(points, &mut old_points);
            old_bucket_limit = *bucket_limit;
        },
        NTreeVariant::Branch { .. } => {
            old_bucket_limit = unreached();
        },
    }

    // Replace the bucket with a split branch.
    let subregions = buckets_for(&bucket.region, old_bucket_limit);
    bucket.kind = NTreeVariant::Branch { subregions };

    let ghost pts = old_points@;
    proof {
        lemma_fresh_branch(before.region, *bucket, point, cap, room as nat);
        assert(pts.take(0) =~= Seq::<P>::empty());
    }

    // Insert all the old points into the right place.
    for old_point in it: old_points.into_iter()
        invariant
            it.seq() == pts,
            pts == before.points(),
            pts.len() == cap,
            room > 0,
            before.wf_within(cap, room as nat),
            spread(before.region, *bucket, pts.take(it.index()), cap, room as nat),
    {
        let ghost k = it.index();
        let ghost mid = *bucket;
        proof {
            assert(pts.contains(pts[k]));
        }
        let placed = bucket.insert_within(old_point, room);
        proof {
            lemma_spread_step(before.region, mid, *bucket, pts, k, cap, room as nat, placed);
        }
    }

    // Finally, insert the new point.
    let ghost mid = *bucket;
    proof {
        assert(pts.take(pts.len() as int) =~= pts);
    }
    let ok = bucket.insert_within(point, room);
    proof {
        lemma_grown_by_split(before, mid, *bucket, point, cap, room as nat, ok);
    }
    ok
}

/// A branch of empty leaves holds nothing and leads each point to the leaf
/// of its part.
proof fn lemma_fresh_branch<P: PartialEq, R: Region<P>>(
    region: R,
    node: NTree<R, P>,
    point: P,
    cap: u8,
    room: nat,
)
    requires
        room > 0,
        region.holds(&point),
        node.region == region,
        node.kind is Branch,
        node.kind->subregions@.len() == region.parts().len(),
        forall|i: int|
            0 <= i < region.parts().len() ==> (#[trigger] node.kind->subregions@[i]).region
                == region.parts()[i] && node.kind->subregions@[i].is_empty_bucket(cap),
    ensures
        spread(region, node, Seq::<P>::empty(), cap, room),
{
    let kids = node.kind->subregions@;
    lemma_slot(region, point);
    lemma_no_points_from(kids, cap, 0);
    kids[0].lemma_empty_bucket(cap, 0);
    assert forall|i: int| 0 <= i < kids.len() implies (#[trigger] kids[i]).wf_within(
        cap,
        (room - 1) as nat,
    ) by {
        kids[i].lemma_empty_bucket(cap, (room - 1) as nat);
    }
    assert forall|q: P| region.holds(&q) implies #[trigger] node.path_of(q) == seq![
        slot(region, q),
    ] by {
        lemma_slot(region, q);
        let i = slot(region, q);
        kids[i].lemma_empty_bucket(cap, 0);
        assert(node.path_of(q) == seq![i] + kids[i].path_of(q));
        assert(seq![i] + Seq::<int>::empty() =~= seq![i]);
    }
    assert forall|q: P| region.holds(&q) implies #[trigger] node.bucket_of(q) == sent_to(
        region,
        Seq::<P>::empty(),
        slot(region, q),
    ) by {
        lemma_slot(region, q);
        let i = slot(region, q);
        kids[i].lemma_empty_bucket(cap, 0);
        assert(node.bucket_of(q) == kids[i].bucket_of(q));
        Seq::<P>::empty().lemma_filter_len(|x: P| slot(region, x) == i);
        assert(sent_to(region, Seq::<P>::empty(), i) =~= Seq::<P>::empty());
    }
}

/// A leaf with a free slot takes the point.
proof fn lemma_grown_by_push<P: PartialEq, R: Region<P>>(
    before: NTree<R, P>,
    after: NTree<R, P>,
    point: P,
    cap: u8,
    room: nat,
)
    requires
        before.wf_within(cap, room),
        before.region.holds(&point),
        before.kind is Bucket,
        before.points().len() < cap,
        after.region == before.region,
        after.kind is Bucket,
        after.kind->bucket_limit == before.kind->bucket_limit,
        after.kind->points@ == before.kind->points@.push(point),
    ensures
        grown(before, after, point, cap, room, true),
{
    let pts = before.points();
    broadcast use vstd::seq_lib::group_to_multiset_ensures;

    assert(region_at(before.region, Seq::<int>::empty()) == before.region);
    assert forall|x: P| #[trigger] after.points().contains(x) implies after.region.holds(&x) by {
        if x != point {
            assert(pts.contains(x));
        }
    }
    assert forall|q: P| before.region.holds(&q) implies #[trigger] after.path_of(q)
        == before.path_of(point) + descent(before.region, pts, point, q, cap, room) by {
        assert(Seq::<int>::empty() + Seq::<int>::empty() =~= Seq::<int>::empty());
    }
}

/// A full leaf that may not grow refuses the point and stays as it is.
proof fn lemma_grown_refused<P: PartialEq, R: Region<P>>(before: NTree<R, P>, point: P, cap: u8)
    requires
        before.wf_within(cap, 0),
        before.kind is Bucket,
        before.points().len() == cap,
    ensures
        grown(before, before, point, cap, 0, false),
{
    let pts = before.points();
    assert(region_at(before.region, Seq::<int>::empty()) == before.region);
    assert forall|q: P| before.region.holds(&q) implies #[trigger] before.path_of(q)
        == before.path_of(point) + descent(before.region, pts, point, q, cap, 0) by {
        assert(Seq::<int>::empty() + Seq::<int>::empty() =~= Seq::<int>::empty());
    }
}

/// What holds of a child after an insert below it holds of the node.
proof fn lemma_grown_in_child<P: PartialEq, R: Region<P>>(
    before: NTree<R, P>,
    after: NTree<R, P>,
    i: int,
    point: P,
    cap: u8,
    room: nat,
    ok: bool,
)
    requires
        before.wf_within(cap, room),
        before.region.holds(&point),
        before.kind is Branch,
        after.kind is Branch,
        after.region == before.region,
        i == slot(before.region, point),
        0 <= i < before.kind->subregions@.len(),
        after.kind->subregions@ == before.kind->subregions@.update(
            i,
            after.kind->subregions@[i],
        ),
        grown(
            before.kind->subregions@[i],
            after.kind->subregions@[i],
            point,
            cap,
            (room - 1) as nat,
            ok,
        ),
    ensures
        grown(before, after, point, cap, room, ok),
{
    broadcast use vstd::seq_lib::group_to_multiset_ensures;

    let region = before.region;
    let kids = before.kind->subregions@;
    let kids2 = after.kind->subregions@;
    let c = kids[i];
    let c2 = kids2[i];
    let cpath = c.path_of(point);
    let path = before.path_of(point);
    let leaf = region_at(region, path);
    let pts = before.bucket_of(point);
    let left = (room - path.len()) as nat;

    c.lemma_path_fits(cap, (room - 1) as nat, point);
    assert(path == seq![i] + cpath);
    lemma_region_at_cons(region, i, cpath);
    assert(leaf == region_at(c.region, cpath));
    assert(pts == c.bucket_of(point));
    assert(left == ((room - 1) as nat - cpath.len()) as nat);

    // The points.
    lemma_points_from_update(kids, i, c2, 0);
    assert(kids2 =~= kids.update(i, c2));
    assert(after.points() == points_from(kids2, 0));
    assert(before.points() == points_from(kids, 0));
    let am = after.points().to_multiset();
    let bm = before.points().to_multiset();
    let cm = c.points().to_multiset();
    let cm2 = c2.points().to_multiset();
    assert(am.add(cm) =~= bm.add(cm2));
    assert(cm2 =~= if ok {
        cm.insert(point)
    } else {
        cm
    });
    assert forall|x: P|
        am.count(x) == (if ok {
            bm.insert(point)
        } else {
            bm
        }).count(x) by {
        assert(am.add(cm).count(x) == bm.add(cm2).count(x));
    }
    assert(am =~= if ok {
        bm.insert(point)
    } else {
        bm
    });

    // The invariant.
    assert forall|x: P| #[trigger] after.points().contains(x) implies region.holds(&x) by {
        assert(am.count(x) > 0);
        if x != point {
            assert(bm.count(x) > 0);
            assert(before.points().contains(x));
        }
    }
    assert forall|j: int| 0 <= j < kids2.len() implies (#[trigger] kids2[j]).wf_within(
        cap,
        (room - 1) as nat,
    ) && kids2[j].region == region.parts()[j] by {
        if j != i {
            assert(kids2[j] == kids[j]);
        }
    }
    assert(after.capacity() == cap) by {
        assert(kids2[0].wf_within(cap, (room - 1) as nat));
    }
    assert(after.wf_within(cap, room));

    // The ways and the leaves.
    assert forall|q: P| region.holds(&q) implies #[trigger] after.path_of(q) == if before.path_of(
        q,
    ) == path {
        path + descent(leaf, pts, point, q, cap, left)
    } else {
        before.path_of(q)
    } by {
        lemma_slot(region, q);
        let j = slot(region, q);
        assert(before.path_of(q) == seq![j] + kids[j].path_of(q));
        assert(after.path_of(q) == seq![j] + kids2[j].path_of(q));
        lemma_cons_eq(j, kids[j].path_of(q), i, cpath);
        if j == i {
            assert(c.region.holds(&q));
            if c.path_of(q) == cpath {
                let d = descent(leaf, pts, point, q, cap, left);
                assert(seq![i] + (cpath + d) =~= (seq![i] + cpath) + d);
            }
        } else {
            assert(kids2[j] == kids[j]);
        }
    }
    assert forall|q: P| region.holds(&q) implies #[trigger] after.bucket_of(q) == if before.path_of(
        q,
    ) == path {
        regroup(leaf, pts, point, q, cap, left)
    } else {
        before.bucket_of(q)
    } by {
        lemma_slot(region, q);
        let j = slot(region, q);
        assert(before.path_of(q) == seq![j] + kids[j].path_of(q));
        assert(before.bucket_of(q) == kids[j].bucket_of(q));
        assert(after.bucket_of(q) == kids2[j].bucket_of(q));
        lemma_cons_eq(j, kids[j].path_of(q), i, cpath);
        if j == i {
            assert(c.region.holds(&q));
        } else {
            assert(kids2[j] == kids[j]);
        }
    }
}

/// Handing one more point of the old leaf to the fresh branch puts it in the
/// leaf of its part.
proof fn lemma_spread_step<P: PartialEq, R: Region<P>>(
    region: R,
    mid: NTree<R, P>,
    after: NTree<R, P>,
    pts: Seq<P>,
    k: int,
    cap: u8,
    room: nat,
    ok: bool,
)
    requires
        0 <= k < pts.len() <= cap,
        room > 0,
        region.holds(&pts[k]),
        spread(region, mid, pts.take(k), cap, room),
        grown(mid, after, pts[k], cap, room, ok),
    ensures
        ok,
        spread(region, after, pts.take(k + 1), cap, room),
{
    broadcast use vstd::seq_lib::group_to_multiset_ensures;

    let x = pts[k];
    let j = slot(region, x);
    let placed = pts.take(k);
    let path = mid.path_of(x);
    let leaf = region_at(region, path);
    let b = mid.bucket_of(x);
    let left = (room - path.len()) as nat;
    assert(pts.take(k + 1) =~= placed.push(x));
    assert(path == seq![j]);
    assert(b == sent_to(region, placed, j));
    lemma_sent_to_push(region, placed, x, j);
    assert(b.len() < cap);
    assert(settles(leaf, b, x, cap, left));
    assert(ok);
    assert forall|q: P| region.holds(&q) implies #[trigger] after.path_of(q) == seq![
        slot(region, q),
    ] by {
        lemma_cons_eq(slot(region, q), Seq::<int>::empty(), j, Seq::<int>::empty());
        assert(seq![slot(region, q)] + Seq::<int>::empty() =~= seq![slot(region, q)]);
        assert(seq![j] + Seq::<int>::empty() =~= seq![j]);
        assert(descent(leaf, b, x, q, cap, left) == Seq::<int>::empty());
    }
    assert forall|q: P| region.holds(&q) implies #[trigger] after.bucket_of(q) == sent_to(
        region,
        pts.take(k + 1),
        slot(region, q),
    ) by {
        let i = slot(region, q);
        lemma_cons_eq(i, Seq::<int>::empty(), j, Seq::<int>::empty());
        assert(seq![i] + Seq::<int>::empty() =~= seq![i]);
        assert(seq![j] + Seq::<int>::empty() =~= seq![j]);
        lemma_sent_to_push(region, placed, x, i);
        assert(regroup(leaf, b, x, q, cap, left) == b.push(x));
    }
    assert(after.kind is Branch) by {
        lemma_slot(region, x);
        assert(after.path_of(x) == seq![j]);
        assert(after.path_of(x).len() == 1);
    }
}

/// What holds of the fresh branch after the last insert holds of the split
/// as a whole.
proof fn lemma_grown_by_split<P: PartialEq, R: Region<P>>(
    before: NTree<R, P>,
    mid: NTree<R, P>,
    after: NTree<R, P>,
    point: P,
    cap: u8,
    room: nat,
    ok: bool,
)
    requires
        room > 0,
        before.kind is Bucket,
        before.points().len() == cap,
        before.region.holds(&point),
        spread(before.region, mid, before.points(), cap, room),
        grown(mid, after, point, cap, room, ok),
    ensures
        grown(before, after, point, cap, room, ok),
{
    let region = before.region;
    let pts = before.points();
    let j = slot(region, point);
    let sub = sent_to(region, pts, j);
    let next = (room - 1) as nat;
    lemma_slot(region, point);
    assert(before.path_of(point) == Seq::<int>::empty());
    assert(region_at(region, Seq::<int>::empty()) == region);
    assert(mid.path_of(point) == seq![j]);
    lemma_region_at_cons(region, j, Seq::<int>::empty());
    assert(seq![j] + Seq::<int>::empty() =~= seq![j]);
    assert(region_at(region, seq![j]) == part_of(region, point));
    assert(mid.bucket_of(point) == sub);
    assert(settles(region, pts, point, cap, room) == settles(
        part_of(region, point),
        sub,
        point,
        cap,
        next,
    ));
    assert forall|q: P| region.holds(&q) implies #[trigger] after.path_of(q) == Seq::<
        int,
    >::empty() + descent(region, pts, point, q, cap, room) by {
        let i = slot(region, q);
        lemma_cons_eq(i, Seq::<int>::empty(), j, Seq::<int>::empty());
        assert(seq![i] + Seq::<int>::empty() =~= seq![i]);
        let d = descent(part_of(region, point), sub, point, q, cap, next);
        assert(Seq::<int>::empty() + descent(region, pts, point, q, cap, room) =~= descent(
            region,
            pts,
            point,
            q,
            cap,
            room,
        ));
    }
    assert forall|q: P| region.holds(&q) implies #[trigger] after.bucket_of(q) == regroup(
        region,
        pts,
        point,
        q,
        cap,
        room,
    ) by {
        let i = slot(region, q);
        lemma_cons_eq(i, Seq::<int>::empty(), j, Seq::<int>::empty());
        assert(seq![i] + Seq::<int>::empty() =~= seq![i]);
    }
}

} // verus!
