//! Behavioural tests of the geometry primitives and the quadtree.

use transit_index::Coordinate;
use transit_index::Extent;
use transit_index::QuadTree;

fn whole() -> Extent {
    Extent::new(0, 0, 100, 100)
}

#[test]
fn contains_is_closed_on_all_bounds() {
    let e = whole();
    assert!(e.contains(&Coordinate::new(0, 0)));
    assert!(e.contains(&Coordinate::new(100, 100)));
    assert!(e.contains(&Coordinate::new(0, 100)));
    assert!(!e.contains(&Coordinate::new(101, 50)));
    assert!(!e.contains(&Coordinate::new(50, -1)));
}

#[test]
fn intersects_counts_touching_edges() {
    let a = Extent::new(0, 0, 10, 10);
    let b = Extent::new(10, 10, 20, 20);
    let c = Extent::new(11, 0, 20, 9);
    assert!(a.intersects(&b));
    assert!(b.intersects(&a));
    assert!(!a.intersects(&c));
}

#[test]
fn quadrant_tie_breaks_left_and_bottom() {
    let e = whole();
    // The midpoint itself resolves to the bottom-left quadrant.
    assert_eq!(e.quadrant(&Coordinate::new(50, 50)), 0);
    // Exactly on the vertical midline: left side.
    assert_eq!(e.quadrant(&Coordinate::new(50, 10)), 0);
    assert_eq!(e.quadrant(&Coordinate::new(50, 60)), 2);
    // Exactly on the horizontal midline: bottom side.
    assert_eq!(e.quadrant(&Coordinate::new(10, 50)), 0);
    assert_eq!(e.quadrant(&Coordinate::new(60, 50)), 1);
    // Interior points of each quadrant.
    assert_eq!(e.quadrant(&Coordinate::new(10, 10)), 0);
    assert_eq!(e.quadrant(&Coordinate::new(60, 10)), 1);
    assert_eq!(e.quadrant(&Coordinate::new(10, 60)), 2);
    assert_eq!(e.quadrant(&Coordinate::new(60, 60)), 3);
}

#[test]
fn distinct_points_all_found_exactly_once() {
    let mut t: QuadTree<i32> = QuadTree::new(whole());
    let points = [(3, 7), (3, 8), (4, 7), (90, 90), (50, 50)];
    for (k, (x, y)) in points.iter().enumerate() {
        t.insert(&Coordinate::new(*x, *y), k as i32);
    }
    let mut found = t.find_bbox(&whole());
    assert_eq!(found.len(), points.len());
    let mut values: Vec<i32> = found.drain(..).map(|p| p.0).collect();
    values.sort();
    assert_eq!(values, vec![0, 1, 2, 3, 4]);
}

#[test]
fn same_coordinate_values_come_back_together() {
    let mut t: QuadTree<i32> = QuadTree::new(whole());
    let c = Coordinate::new(42, 17);
    t.insert(&c, 10);
    t.insert(&c, 20);
    t.insert(&c, 30);
    let found = t.find_bbox(&Extent::new(40, 15, 45, 20));
    assert_eq!(found.len(), 3);
    let mut values: Vec<i32> = found.iter().map(|p| p.0).collect();
    values.sort();
    assert_eq!(values, vec![10, 20, 30]);
    for p in &found {
        assert_eq!((p.1.x, p.1.y), (42, 17));
    }
}

#[test]
fn disjoint_query_returns_nothing() {
    let mut t: QuadTree<i32> = QuadTree::new(whole());
    // Two close points in the bottom-left corner: their containing
    // regions stay within the bottom-left part of the space.
    t.insert(&Coordinate::new(10, 10), 1);
    t.insert(&Coordinate::new(10, 20), 2);
    let found = t.find_bbox(&Extent::new(60, 60, 90, 90));
    assert!(found.is_empty());
}

#[test]
fn empty_tree_finds_nothing() {
    let t: QuadTree<i32> = QuadTree::new(whole());
    assert!(t.find_bbox(&whole()).is_empty());
}

#[test]
fn set_value_rejects_a_different_coordinate() {
    let mut t: QuadTree<i32> = QuadTree::new(whole());
    assert!(t.set_value(1, &Coordinate::new(5, 5)));
    assert!(t.set_value(2, &Coordinate::new(5, 5)));
    assert!(!t.set_value(3, &Coordinate::new(6, 5)));
    let found = t.find_bbox(&whole());
    assert_eq!(found.len(), 2);
}

#[test]
fn divide_keeps_the_tree_empty() {
    let mut t: QuadTree<i32> = QuadTree::new(whole());
    t.divide();
    assert!(t.find_bbox(&whole()).is_empty());
    t.insert(&Coordinate::new(1, 1), 7);
    let found = t.find_bbox(&whole());
    assert_eq!(found.len(), 1);
    assert_eq!(found[0].0, 7);
}

#[test]
fn very_close_points_split_until_they_diverge() {
    let mut t: QuadTree<i32> = QuadTree::new(whole());
    t.insert(&Coordinate::new(13, 27), 1);
    t.insert(&Coordinate::new(14, 27), 2);
    t.insert(&Coordinate::new(13, 28), 3);
    let found = t.find_bbox(&whole());
    assert_eq!(found.len(), 3);
    let mut values: Vec<i32> = found.iter().map(|p| p.0).collect();
    values.sort();
    assert_eq!(values, vec![1, 2, 3]);
}
