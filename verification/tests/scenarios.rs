use ntree::tree::MAX_DEPTH;
use ntree::{NTree, RangeQuery, Rect, Region};

type Point = (u32, u32);

fn square(side: u32) -> Rect {
    Rect { x0: 0, y0: 0, x1: side, y1: side }
}

fn drain(mut cursor: RangeQuery<Rect, Point>) -> Vec<Point> {
    let mut out = Vec::new();
    while let Some(p) = cursor.next() {
        out.push(*p);
    }
    out
}

fn all(tree: &NTree<Rect, Point>, query: Rect) -> Vec<Point> {
    drain(tree.range_query(&query))
}

#[test]
fn new_tree_covers_its_region_and_is_empty() {
    let tree: NTree<Rect, Point> = NTree::new(square(4), 2);
    assert!(tree.contains(&(0, 0)));
    assert!(tree.contains(&(3, 3)));
    assert!(!tree.contains(&(4, 0)));
    assert!(!tree.contains(&(0, 4)));
    assert_eq!(tree.nearby(&(1, 1)), Some(&[][..]));
    assert_eq!(tree.nearby(&(5, 1)), None);
    assert_eq!(all(&tree, square(4)), vec![]);
}

#[test]
fn three_points_in_a_square_of_four_quadrants() {
    let mut tree: NTree<Rect, Point> = NTree::new(square(4), 2);
    assert!(tree.insert((0, 0)));
    assert!(tree.insert((1, 1)));
    assert!(tree.insert((2, 2)));
    // the first quadrant keeps two points, the third one
    assert_eq!(tree.nearby(&(0, 0)), Some(&[(0, 0), (1, 1)][..]));
    assert_eq!(tree.nearby(&(1, 0)), Some(&[(0, 0), (1, 1)][..]));
    assert_eq!(tree.nearby(&(2, 2)), Some(&[(2, 2)][..]));
    assert_eq!(tree.nearby(&(3, 3)), Some(&[(2, 2)][..]));
    // the other two are empty
    assert_eq!(tree.nearby(&(3, 0)), Some(&[][..]));
    assert_eq!(tree.nearby(&(0, 3)), Some(&[][..]));
    assert_eq!(all(&tree, Rect { x0: 0, y0: 0, x1: 2, y1: 2 }), vec![(0, 0), (1, 1)]);
}

#[test]
fn insert_outside_the_region_is_refused_and_changes_nothing() {
    let mut tree: NTree<Rect, Point> = NTree::new(square(4), 2);
    assert!(tree.insert((1, 1)));
    assert!(!tree.insert((4, 4)));
    assert!(!tree.insert((0, 9)));
    assert_eq!(all(&tree, square(100)), vec![(1, 1)]);
    assert_eq!(tree.nearby(&(4, 4)), None);
}

#[test]
fn overflow_splits_only_the_full_quadrant() {
    let mut tree: NTree<Rect, Point> = NTree::new(square(8), 2);
    assert!(tree.insert((5, 5)));
    assert!(tree.insert((6, 1)));
    assert!(tree.insert((0, 0)));
    assert!(tree.insert((3, 3)));
    let third_before = tree.nearby(&(5, 5)).unwrap().as_ptr();
    let second_before = tree.nearby(&(6, 1)).unwrap().as_ptr();
    let fourth_before = tree.nearby(&(1, 6)).unwrap().as_ptr();
    // a third point for the first quadrant, which is full
    assert!(tree.insert((1, 2)));
    // the quadrant was split once: each of its points has a leaf of its own
    assert_eq!(tree.nearby(&(0, 0)), Some(&[(0, 0)][..]));
    assert_eq!(tree.nearby(&(1, 1)), Some(&[(0, 0)][..]));
    assert_eq!(tree.nearby(&(3, 3)), Some(&[(3, 3)][..]));
    assert_eq!(tree.nearby(&(1, 2)), Some(&[(1, 2)][..]));
    assert_eq!(tree.nearby(&(0, 3)), Some(&[(1, 2)][..]));
    assert_eq!(tree.nearby(&(2, 0)), Some(&[][..]));
    // the siblings are the leaves they were
    assert_eq!(tree.nearby(&(5, 5)), Some(&[(5, 5)][..]));
    assert_eq!(tree.nearby(&(6, 1)), Some(&[(6, 1)][..]));
    assert_eq!(tree.nearby(&(1, 6)), Some(&[][..]));
    assert_eq!(tree.nearby(&(5, 5)).unwrap().as_ptr(), third_before);
    assert_eq!(tree.nearby(&(6, 1)).unwrap().as_ptr(), second_before);
    assert_eq!(tree.nearby(&(1, 6)).unwrap().as_ptr(), fourth_before);
    assert_eq!(all(&tree, square(8)), vec![(0, 0), (3, 3), (1, 2), (6, 1), (5, 5)]);
}

#[test]
fn split_goes_on_until_the_points_part() {
    let mut tree: NTree<Rect, Point> = NTree::new(square(16), 1);
    assert!(tree.insert((0, 0)));
    // (0, 0) and (1, 1) share the quadrants of side 8, 4 and 2
    assert!(tree.insert((1, 1)));
    assert_eq!(tree.nearby(&(0, 0)), Some(&[(0, 0)][..]));
    assert_eq!(tree.nearby(&(1, 1)), Some(&[(1, 1)][..]));
    // the quadrants left empty on the way down
    assert_eq!(tree.nearby(&(9, 9)), Some(&[][..]));
    assert_eq!(tree.nearby(&(5, 5)), Some(&[][..]));
    assert_eq!(tree.nearby(&(3, 3)), Some(&[][..]));
    assert_eq!(tree.nearby(&(1, 0)), Some(&[][..]));
    assert_eq!(all(&tree, square(16)), vec![(0, 0), (1, 1)]);
}

#[test]
fn range_query_walks_depth_first_from_left_to_right() {
    let mut tree: NTree<Rect, Point> = NTree::new(square(4), 2);
    for p in [(0, 0), (1, 1), (2, 2), (3, 0), (0, 3)] {
        assert!(tree.insert(p));
    }
    assert_eq!(all(&tree, square(4)), vec![(0, 0), (1, 1), (3, 0), (2, 2), (0, 3)]);
    assert!(tree.insert((1, 0)));
    assert_eq!(all(&tree, square(4)), vec![(0, 0), (1, 0), (1, 1), (3, 0), (2, 2), (0, 3)]);
    // a query that overlaps every quadrant but holds two points only
    assert_eq!(all(&tree, Rect { x0: 1, y0: 1, x1: 3, y1: 3 }), vec![(1, 1), (2, 2)]);
    // a query beside the tree
    assert_eq!(all(&tree, Rect { x0: 4, y0: 0, x1: 9, y1: 9 }), vec![]);
    // an empty query
    assert_eq!(all(&tree, Rect { x0: 2, y0: 2, x1: 2, y1: 2 }), vec![]);
}

#[test]
fn range_query_filters_by_the_query_not_by_the_leaf() {
    let mut tree: NTree<Rect, Point> = NTree::new(square(4), 3);
    for p in [(0, 0), (1, 1), (0, 1)] {
        assert!(tree.insert(p));
    }
    // the leaf of the first quadrant overlaps the query, one of its points lies in it
    assert_eq!(all(&tree, Rect { x0: 1, y0: 1, x1: 4, y1: 4 }), vec![(1, 1)]);
}

#[test]
fn cursor_stays_exhausted() {
    let mut tree: NTree<Rect, Point> = NTree::new(square(4), 2);
    assert!(tree.insert((2, 1)));
    let whole = square(4);
    let mut cursor = tree.range_query(&whole);
    assert_eq!(cursor.next(), Some(&(2, 1)));
    assert_eq!(cursor.next(), None);
    assert_eq!(cursor.next(), None);
    assert_eq!(cursor.next(), None);
}

#[test]
fn cursor_yields_references_into_the_tree() {
    let mut tree: NTree<Rect, Point> = NTree::new(square(4), 2);
    assert!(tree.insert((2, 1)));
    let whole = square(4);
    let mut cursor = tree.range_query(&whole);
    let found = cursor.next().unwrap();
    let stored = &tree.nearby(&(2, 1)).unwrap()[0];
    assert!(std::ptr::eq(found, stored));
}

#[test]
fn remove_takes_the_first_equal_point_by_swapping_in_the_last() {
    let mut tree: NTree<Rect, Point> = NTree::new(square(8), 4);
    for p in [(0, 0), (1, 1), (2, 2), (3, 3)] {
        assert!(tree.insert(p));
    }
    assert!(tree.remove(&(0, 0)));
    assert_eq!(tree.nearby(&(0, 0)), Some(&[(3, 3), (1, 1), (2, 2)][..]));
    assert!(tree.remove(&(2, 2)));
    assert_eq!(tree.nearby(&(0, 0)), Some(&[(3, 3), (1, 1)][..]));
    assert!(tree.remove(&(1, 1)));
    assert_eq!(tree.nearby(&(0, 0)), Some(&[(3, 3)][..]));
}

#[test]
fn remove_of_an_absent_point_changes_nothing() {
    let mut tree: NTree<Rect, Point> = NTree::new(square(4), 2);
    assert!(tree.insert((0, 0)));
    assert!(tree.insert((2, 2)));
    // in the region, in a leaf with another point
    assert!(!tree.remove(&(1, 1)));
    // in the region, in an empty leaf
    assert!(!tree.remove(&(3, 0)));
    // outside the region
    assert!(!tree.remove(&(7, 7)));
    assert_eq!(all(&tree, square(4)), vec![(0, 0), (2, 2)]);
    assert_eq!(tree.nearby(&(1, 1)), Some(&[(0, 0)][..]));
}

#[test]
fn emptied_leaf_stays_a_leaf() {
    let mut tree: NTree<Rect, Point> = NTree::new(square(4), 1);
    assert!(tree.insert((0, 0)));
    assert!(tree.insert((1, 1)));
    // the first quadrant is a branch now
    assert!(tree.remove(&(0, 0)));
    assert!(tree.remove(&(1, 1)));
    assert_eq!(all(&tree, square(4)), vec![]);
    assert_eq!(tree.nearby(&(0, 0)), Some(&[][..]));
    // the branch is still there: two points of the old quadrant do not meet
    assert!(tree.insert((0, 0)));
    assert!(tree.insert((1, 1)));
    assert_eq!(tree.nearby(&(0, 0)), Some(&[(0, 0)][..]));
    assert_eq!(tree.nearby(&(1, 1)), Some(&[(1, 1)][..]));
}

#[test]
fn equal_points_are_kept_side_by_side() {
    let mut tree: NTree<Rect, Point> = NTree::new(square(4), 3);
    assert!(tree.insert((1, 1)));
    assert!(tree.insert((1, 1)));
    assert_eq!(tree.nearby(&(1, 1)), Some(&[(1, 1), (1, 1)][..]));
    assert_eq!(all(&tree, square(4)), vec![(1, 1), (1, 1)]);
    assert!(tree.remove(&(1, 1)));
    assert!(tree.remove(&(1, 1)));
    assert!(!tree.remove(&(1, 1)));
}

#[test]
fn more_equal_points_than_a_leaf_holds_are_refused() {
    let mut tree: NTree<Rect, Point> = NTree::new(square(4), 2);
    assert!(tree.insert((0, 0)));
    assert!(tree.insert((0, 0)));
    // no split parts the two from a third
    assert!(!tree.insert((0, 0)));
    assert_eq!(tree.nearby(&(0, 0)), Some(&[(0, 0), (0, 0)][..]));
    assert_eq!(all(&tree, square(4)), vec![(0, 0), (0, 0)]);
    // other points still go in
    assert!(tree.insert((1, 0)));
    assert!(tree.insert((3, 3)));
    assert_eq!(all(&tree, square(4)).len(), 4);
    // and a place for the point comes back with a removal
    assert!(tree.remove(&(0, 0)));
    assert!(tree.insert((0, 0)));
    assert!(!tree.insert((0, 0)));
}

#[test]
fn a_leaf_at_the_deepest_level_is_not_split() {
    assert_eq!(MAX_DEPTH, 64);
    // a square so large that halving it 63 times is not the end of it
    let mut tree: NTree<Rect, Point> = NTree::new(square(u32::MAX), 1);
    assert!(tree.insert((0, 0)));
    assert!(tree.insert((1, 0)));
    assert!(tree.insert((0, 1)));
    assert_eq!(tree.nearby(&(0, 0)), Some(&[(0, 0)][..]));
    assert_eq!(tree.nearby(&(1, 0)), Some(&[(1, 0)][..]));
    assert_eq!(tree.nearby(&(0, 1)), Some(&[(0, 1)][..]));
    assert!(!tree.insert((0, 0)));
    assert_eq!(all(&tree, square(u32::MAX)), vec![(0, 0), (1, 0), (0, 1)]);
}

#[test]
fn capacity_zero_takes_nothing() {
    let mut tree: NTree<Rect, Point> = NTree::new(square(4), 0);
    assert!(!tree.insert((1, 1)));
    assert!(!tree.insert((3, 0)));
    assert_eq!(all(&tree, square(4)), vec![]);
    assert_eq!(tree.nearby(&(1, 1)), Some(&[][..]));
    assert!(!tree.remove(&(1, 1)));
}

#[test]
fn largest_capacity_fills_one_leaf() {
    let mut tree: NTree<Rect, Point> = NTree::new(square(1024), 255);
    for i in 0..255u32 {
        assert!(tree.insert((i, i)));
    }
    assert_eq!(tree.nearby(&(0, 0)).unwrap().len(), 255);
    // one more: the quadrant of side 512 is split, and its first part, which
    // takes all the points again, is split as well
    assert!(tree.insert((100, 0)));
    assert_eq!(tree.nearby(&(0, 0)).unwrap().len(), 129);
    assert_eq!(tree.nearby(&(100, 0)).unwrap().last(), Some(&(100, 0)));
    assert_eq!(tree.nearby(&(200, 200)).unwrap().len(), 127);
    assert_eq!(tree.nearby(&(300, 300)).unwrap().len(), 0);
    assert_eq!(all(&tree, square(1024)).len(), 256);
}

#[test]
fn empty_region_gives_an_empty_tree() {
    let nothing = Rect { x0: 3, y0: 3, x1: 3, y1: 3 };
    let mut tree: NTree<Rect, Point> = NTree::new(nothing, 2);
    assert!(!tree.contains(&(3, 3)));
    assert!(!tree.insert((3, 3)));
    assert!(!tree.remove(&(3, 3)));
    assert_eq!(tree.nearby(&(3, 3)), None);
    assert_eq!(all(&tree, square(8)), vec![]);
}

#[test]
fn rect_contains_is_half_open() {
    let r = Rect { x0: 2, y0: 3, x1: 5, y1: 7 };
    assert!(r.contains(&(2, 3)));
    assert!(r.contains(&(4, 6)));
    assert!(!r.contains(&(5, 6)));
    assert!(!r.contains(&(4, 7)));
    assert!(!r.contains(&(1, 3)));
    assert!(!r.contains(&(2, 2)));
}

#[test]
fn rect_splits_into_quadrants_going_round() {
    let r = Rect { x0: 0, y0: 0, x1: 4, y1: 4 };
    assert_eq!(
        r.split(),
        vec![
            Rect { x0: 0, y0: 0, x1: 2, y1: 2 },
            Rect { x0: 2, y0: 0, x1: 4, y1: 2 },
            Rect { x0: 2, y0: 2, x1: 4, y1: 4 },
            Rect { x0: 0, y0: 2, x1: 2, y1: 4 },
        ]
    );
    // odd sides: the low half is the smaller
    let odd = Rect { x0: 1, y0: 10, x1: 6, y1: 13 };
    assert_eq!(
        odd.split(),
        vec![
            Rect { x0: 1, y0: 10, x1: 3, y1: 11 },
            Rect { x0: 3, y0: 10, x1: 6, y1: 11 },
            Rect { x0: 3, y0: 11, x1: 6, y1: 13 },
            Rect { x0: 1, y0: 11, x1: 3, y1: 13 },
        ]
    );
    // a single cell: three parts are empty, the third is the cell
    let cell = Rect { x0: 7, y0: 7, x1: 8, y1: 8 };
    assert_eq!(cell.split()[2], cell);
    // an empty box, its corners the wrong way round
    let none = Rect { x0: 9, y0: 1, x1: 4, y1: 5 };
    assert_eq!(
        none.split(),
        vec![
            Rect { x0: 9, y0: 1, x1: 9, y1: 3 },
            Rect { x0: 9, y0: 1, x1: 4, y1: 3 },
            Rect { x0: 9, y0: 3, x1: 4, y1: 5 },
            Rect { x0: 9, y0: 3, x1: 9, y1: 5 },
        ]
    );
    // the largest box
    let big = Rect { x0: 0, y0: 0, x1: u32::MAX, y1: u32::MAX };
    assert_eq!(big.split()[2], Rect { x0: 2147483647, y0: 2147483647, x1: u32::MAX, y1: u32::MAX });
}

#[test]
fn rect_overlaps_when_the_boxes_share_a_cell() {
    let a = Rect { x0: 0, y0: 0, x1: 4, y1: 4 };
    assert!(a.overlaps(&Rect { x0: 3, y0: 3, x1: 9, y1: 9 }));
    assert!(a.overlaps(&Rect { x0: 1, y0: 1, x1: 2, y1: 2 }));
    assert!(a.overlaps(&a));
    // side by side
    assert!(!a.overlaps(&Rect { x0: 4, y0: 0, x1: 8, y1: 4 }));
    assert!(!a.overlaps(&Rect { x0: 0, y0: 4, x1: 4, y1: 8 }));
    // corner to corner
    assert!(!a.overlaps(&Rect { x0: 4, y0: 4, x1: 8, y1: 8 }));
}
