use parcelmap::geometry::{Aabb, Vec2i};
use parcelmap::spatial::{ProjectKind, SpatialIndex};

fn v(x: i64, y: i64) -> Vec2i {
    Vec2i { x, y }
}

fn bb(x0: i64, y0: i64, x1: i64, y1: i64) -> Aabb {
    Aabb { min: v(x0, y0), max: v(x1, y1) }
}

#[test]
fn query_returns_exactly_overlapping_keys() {
    let mut idx = SpatialIndex::new();
    idx.insert(ProjectKind::Road(0), bb(0, 0, 100, 10));
    idx.insert(ProjectKind::Lot(7), bb(20, 20, 40, 40));
    idx.insert(ProjectKind::Building(3), bb(200, 200, 220, 220));

    let hits = idx.query(&bb(30, 5, 35, 25));
    assert_eq!(hits.len(), 2);
    assert!(hits.contains(&ProjectKind::Road(0)));
    assert!(hits.contains(&ProjectKind::Lot(7)));
    assert!(!hits.contains(&ProjectKind::Building(3)));

    let none = idx.query(&bb(500, 500, 510, 510));
    assert_eq!(none.len(), 0);
}

#[test]
fn remove_is_idempotent_and_exact() {
    let mut idx = SpatialIndex::new();
    idx.insert(ProjectKind::Lot(1), bb(0, 0, 10, 10));
    idx.insert(ProjectKind::Lot(2), bb(5, 5, 15, 15));
    assert!(idx.contains(ProjectKind::Lot(1)));

    idx.remove(ProjectKind::Lot(1));
    assert!(!idx.contains(ProjectKind::Lot(1)));
    assert!(idx.contains(ProjectKind::Lot(2)));

    // removing an absent key is a no-op
    idx.remove(ProjectKind::Lot(1));
    assert!(idx.contains(ProjectKind::Lot(2)));
    assert_eq!(idx.query(&bb(0, 0, 20, 20)).len(), 1);
}

#[test]
fn point_degenerate_box_is_accepted() {
    let mut idx = SpatialIndex::new();
    idx.insert(ProjectKind::Lot(9), bb(5, 5, 5, 5));
    let hits = idx.query_rect(&bb(0, 0, 10, 10));
    assert_eq!(hits, vec![ProjectKind::Lot(9)]);
    let misses = idx.query_rect(&bb(6, 6, 10, 10));
    assert_eq!(misses.len(), 0);
}

#[test]
fn touching_boxes_count_as_overlap() {
    let mut idx = SpatialIndex::new();
    idx.insert(ProjectKind::Inter(0), bb(0, 0, 10, 10));
    let hits = idx.query(&bb(10, 10, 20, 20));
    assert_eq!(hits.len(), 1);
}
