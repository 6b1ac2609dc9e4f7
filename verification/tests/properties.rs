use ntree::{NTree, RangeQuery, Rect, Region};

type Point = (u32, u32);

fn collect(mut cursor: RangeQuery<Rect, Point>) -> Vec<Point> {
    let mut out = Vec::new();
    while let Some(p) = cursor.next() {
        out.push(*p);
    }
    out
}

fn sorted(mut points: Vec<Point>) -> Vec<Point> {
    points.sort();
    points
}

/// A fixed sequence of points of the square of side `side`, some of them equal.
fn sample(count: u32, side: u32) -> Vec<Point> {
    let mut state: u32 = 12345;
    let mut out = Vec::new();
    for _ in 0..count {
        state = state.wrapping_mul(1103515245).wrapping_add(12345);
        let x = (state >> 16) % side;
        state = state.wrapping_mul(1103515245).wrapping_add(12345);
        let y = (state >> 16) % side;
        out.push((x, y));
    }
    out
}

fn filled(points: &[Point], side: u32, capacity: u8) -> (NTree<Rect, Point>, Vec<Point>) {
    let mut tree = NTree::new(Rect { x0: 0, y0: 0, x1: side, y1: side }, capacity);
    let mut taken = Vec::new();
    for p in points {
        if tree.insert(*p) {
            taken.push(*p);
        }
    }
    (tree, taken)
}

#[test]
fn inserted_point_is_nearby_and_found_once() {
    let whole = Rect { x0: 0, y0: 0, x1: 64, y1: 64 };
    let mut tree: NTree<Rect, Point> = NTree::new(whole, 3);
    let mut seen: Vec<Point> = Vec::new();
    for p in sample(200, 64) {
        assert!(tree.contains(&p));
        let before = seen.iter().filter(|q| **q == p).count();
        if tree.insert(p) {
            seen.push(p);
            assert!(tree.nearby(&p).unwrap().contains(&p));
            let found = collect(tree.range_query(&whole));
            assert_eq!(found.iter().filter(|q| **q == p).count(), before + 1);
        }
    }
    assert!(seen.len() > 150);
}

#[test]
fn no_leaf_holds_more_than_the_capacity() {
    for capacity in [1u8, 2, 3, 7] {
        let (tree, _) = filled(&sample(300, 32), 32, capacity);
        for x in 0..32 {
            for y in 0..32 {
                assert!(tree.nearby(&(x, y)).unwrap().len() <= capacity as usize);
            }
        }
    }
}

#[test]
fn every_point_of_a_rect_lies_in_exactly_one_part() {
    let boxes = [
        Rect { x0: 0, y0: 0, x1: 4, y1: 4 },
        Rect { x0: 1, y0: 2, x1: 8, y1: 5 },
        Rect { x0: 3, y0: 3, x1: 4, y1: 9 },
        Rect { x0: 5, y0: 5, x1: 6, y1: 6 },
        Rect { x0: 0, y0: 0, x1: 0, y1: 7 },
    ];
    for r in boxes {
        let parts = r.split();
        assert_eq!(parts.len(), 4);
        for x in 0..10 {
            for y in 0..10 {
                let inside = parts.iter().filter(|part| part.contains(&(x, y))).count();
                assert_eq!(inside, if r.contains(&(x, y)) { 1 } else { 0 });
            }
        }
        for i in 0..4 {
            for j in 0..4 {
                if i != j {
                    assert!(!parts[i].overlaps(&parts[j]));
                }
            }
        }
    }
}

#[test]
fn range_query_finds_the_points_in_the_query_whatever_the_order() {
    let points = sample(120, 16);
    let mut backwards = points.clone();
    backwards.reverse();
    let mut shuffled = points.clone();
    shuffled.rotate_left(37);
    let queries = [
        Rect { x0: 0, y0: 0, x1: 16, y1: 16 },
        Rect { x0: 3, y0: 2, x1: 11, y1: 9 },
        Rect { x0: 8, y0: 8, x1: 9, y1: 9 },
        Rect { x0: 12, y0: 0, x1: 40, y1: 5 },
        Rect { x0: 5, y0: 5, x1: 5, y1: 12 },
        Rect { x0: 20, y0: 20, x1: 30, y1: 30 },
    ];
    for order in [points, backwards, shuffled] {
        // capacity 200: every point is taken, equal ones too
        let (tree, taken) = filled(&order, 16, 200);
        assert_eq!(taken.len(), 120);
        for query in queries {
            let expected: Vec<Point> =
                order.iter().filter(|p| query.contains(p)).cloned().collect();
            assert_eq!(sorted(collect(tree.range_query(&query))), sorted(expected));
        }
    }
}

#[test]
fn range_query_finds_what_was_taken_in_a_deep_tree() {
    let points = sample(400, 64);
    let (tree, taken) = filled(&points, 64, 2);
    let queries = [
        Rect { x0: 0, y0: 0, x1: 64, y1: 64 },
        Rect { x0: 10, y0: 20, x1: 50, y1: 30 },
        Rect { x0: 63, y0: 63, x1: 64, y1: 64 },
    ];
    for query in queries {
        let expected: Vec<Point> = taken.iter().filter(|p| query.contains(p)).cloned().collect();
        assert_eq!(sorted(collect(tree.range_query(&query))), sorted(expected));
    }
}

#[test]
fn remove_after_insert_finds_the_point_once() {
    let whole = Rect { x0: 0, y0: 0, x1: 32, y1: 32 };
    let (mut tree, taken) = filled(&sample(60, 32), 32, 2);
    let p = (0..32).map(|x| (x, 31 - x)).find(|q| !taken.contains(q)).unwrap();
    assert!(!taken.contains(&p));
    assert!(tree.insert(p));
    assert!(tree.remove(&p));
    assert!(!tree.remove(&p));
    assert!(!tree.nearby(&p).unwrap().contains(&p));
    assert!(tree.contains(&p));
    assert_eq!(sorted(collect(tree.range_query(&whole))), sorted(taken));
    // and again
    assert!(tree.insert(p));
    assert!(tree.nearby(&p).unwrap().contains(&p));
    assert!(tree.remove(&p));
    assert!(!tree.remove(&p));
}

#[test]
fn removing_every_point_empties_the_tree() {
    let whole = Rect { x0: 0, y0: 0, x1: 32, y1: 32 };
    let (mut tree, taken) = filled(&sample(100, 32), 32, 3);
    for p in &taken {
        assert!(tree.remove(p));
    }
    for p in &taken {
        assert!(!tree.remove(p));
    }
    assert_eq!(collect(tree.range_query(&whole)), vec![]);
}
