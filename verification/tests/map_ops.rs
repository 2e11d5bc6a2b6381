use parcelmap::geometry::{Polygon, Vec2i};
use parcelmap::lots::LotKind;
use parcelmap::polyline::Polyline;
use parcelmap::terrain::Terrain;
use parcelmap::world::{Lane, LaneKind, Road, TrafficControl, WorldMap};

fn v(x: i64, y: i64) -> Vec2i {
    Vec2i { x, y }
}

fn square(x0: i64, y0: i64, x1: i64, y1: i64) -> Polygon {
    Polygon { pts: vec![v(x0, y0), v(x1, y0), v(x1, y1), v(x0, y1)] }
}

/// A straight east-west road of the given length and width, with its two
/// terminal intersections already registered.
fn straight_road(map: &mut WorldMap, length: i64, width: i64) -> usize {
    let src = map.register_intersection(square(-3, -1, -1, 1));
    let dst = map.register_intersection(square(length + 1, -1, length + 3, 1));
    map.register_road(Road {
        src_i: src,
        dst_i: dst,
        src_point: v(0, 0),
        dst_point: v(length, 0),
        width,
        center: Polyline { pts: vec![v(0, 0), v(length, 0)] },
        swept: square(0, -width / 2, length, width / 2),
    })
}

fn outgoing_sidewalk(map: &mut WorldMap, road: usize, length: i64) {
    let lane = Lane {
        parent: road,
        src_i: 0,
        dst_i: 1,
        kind: LaneKind::Walking,
        control: TrafficControl::Always,
        points: Polyline { pts: vec![v(0, 6), v(length, 6)] },
    };
    map.register_lane(lane);
}

fn lot_centers_and_sizes(map: &WorldMap, road: usize) -> Vec<(i64, i64, i64)> {
    let mut out = Vec::new();
    for &id in map.parcels_of(road).iter() {
        let lot = map.lot(id).unwrap();
        let mut sx = 0;
        let mut sy = 0;
        for p in lot.shape.pts.iter() {
            sx += p.x;
            sy += p.y;
        }
        out.push((sx / 4, sy / 4, lot.size));
    }
    out
}

#[test]
fn placement_success_and_stores() {
    let mut map = WorldMap::new(Terrain::flat(1000));
    let road = straight_road(&mut map, 100, 10);
    let id = map
        .try_make_parcel(road, v(50, 6), v(0, 1), 20)
        .expect("clear ground placement succeeds");
    let lot = map.lot(id).unwrap();
    assert_eq!(lot.parent, road);
    assert!(matches!(lot.kind, LotKind::Residential));
    assert_eq!(lot.size, 20);
    assert!(map.index_has_lot(id));
    assert!(map.parcels_of(road).contains(&id));
    assert_eq!(map.lot_count(), 1);
    assert!(map.lot_ids().contains(&id));
    // an identifier that was never issued is not found
    assert!(map.lot(0).is_none());
    assert!(map.lot(id.wrapping_add(1 << 32)).is_none());
}

#[test]
fn placement_rejected_on_low_ground() {
    let mut map = WorldMap::new(Terrain::flat(100));
    let road = straight_road(&mut map, 100, 10);
    assert!(map.try_make_parcel(road, v(50, 6), v(0, 1), 20).is_none());
    assert_eq!(map.lot_count(), 0);
}

#[test]
fn placement_rejected_on_road_overlap() {
    let mut map = WorldMap::new(Terrain::flat(1000));
    let road = straight_road(&mut map, 100, 10);
    // anchored inside the swept shape: the candidate overlaps the road
    assert!(map.try_make_parcel(road, v(50, 0), v(0, 1), 20).is_none());
}

#[test]
fn placement_rejected_on_intersection_overlap() {
    let mut map = WorldMap::new(Terrain::flat(1000));
    let road = straight_road(&mut map, 100, 10);
    // candidate square covers the source intersection polygon at (-3..-1, -1..1)
    assert!(map.try_make_parcel(road, v(-2, 0), v(0, 1), 20).is_none());
}

#[test]
fn placement_rejected_on_parcel_overlap() {
    let mut map = WorldMap::new(Terrain::flat(1000));
    let road = straight_road(&mut map, 100, 10);
    assert!(map.try_make_parcel(road, v(50, 6), v(0, 1), 20).is_some());
    assert!(map.try_make_parcel(road, v(50, 6), v(0, 1), 20).is_none());
    assert_eq!(map.lot_count(), 1);
}

#[test]
fn placement_rejected_on_building_overlap() {
    let mut map = WorldMap::new(Terrain::flat(1000));
    let road = straight_road(&mut map, 100, 10);
    map.register_building(vec![square(40, 6, 60, 30)]);
    assert!(map.try_make_parcel(road, v(50, 6), v(0, 1), 20).is_none());
    // far from the building it still works
    assert!(map.try_make_parcel(road, v(90, 6), v(0, 1), 20).is_some());
}

#[test]
fn terrain_patches_override_base() {
    let mut t = Terrain::flat(1000);
    t.patches.push(parcelmap::terrain::TerrainPatch {
        area: parcelmap::geometry::Aabb { min: v(0, 0), max: v(10, 10) },
        height_milli: 50,
    });
    assert_eq!(t.height_at(v(5, 5)), 50);
    assert_eq!(t.height_at(v(20, 20)), 1000);
    assert!(!t.ground_ok(v(5, 5)));
    assert!(t.ground_ok(v(20, 20)));
}

/// A straight road with an outgoing sidewalk only: parcels appear only on
/// the sidewalk side, sized from the fixed picks, the first anchored half
/// of the first pick into the road, each next spaced by half the previous
/// size, the gap, and half its own size, until the frontage runs out.
#[test]
fn generation_walks_the_outgoing_frontage() {
    let mut map = WorldMap::new(Terrain::flat(1000));
    let road = straight_road(&mut map, 100, 10);
    outgoing_sidewalk(&mut map, road, 100);
    map.generate_along_road(road);

    let placed = lot_centers_and_sizes(&map, road);
    assert!(placed.len() >= 1);
    // ownership: every listed parcel is live and names this road
    for &id in map.parcels_of(road).iter() {
        assert_eq!(map.lot(id).unwrap().parent, road);
    }
    for &(_, cy, size) in placed.iter() {
        assert!(size == 20 || size == 30 || size == 40);
        // outgoing side only: the parcel sits fully above the road
        assert_eq!(cy, 6 + size / 2);
    }
    // reconstruct the expected anchors from the observed sizes
    let mut d = placed[0].2 / 2;
    for (i, &(cx, _, size)) in placed.iter().enumerate() {
        if i > 0 {
            d += placed[i - 1].2 / 2 + 2 + size / 2;
        }
        assert_eq!(cx, d, "parcel {} anchored at arc length {}", i, d);
        assert!(d <= 100);
    }
}

/// The same setup with a building over the start of the frontage: the
/// walk slides past it in retry steps, so the first parcel lands further
/// along than in the unobstructed run.
#[test]
fn generation_slides_past_an_obstacle() {
    let mut clear = WorldMap::new(Terrain::flat(1000));
    let r1 = straight_road(&mut clear, 100, 10);
    outgoing_sidewalk(&mut clear, r1, 100);
    clear.generate_along_road(r1);
    let unobstructed = lot_centers_and_sizes(&clear, r1);

    let mut blocked = WorldMap::new(Terrain::flat(1000));
    let r2 = straight_road(&mut blocked, 100, 10);
    outgoing_sidewalk(&mut blocked, r2, 100);
    blocked.register_building(vec![square(0, 6, 30, 50)]);
    blocked.generate_along_road(r2);
    let shifted = lot_centers_and_sizes(&blocked, r2);

    assert!(unobstructed.len() >= 1);
    assert!(shifted.len() >= 1);
    // the seed depends only on the road's endpoints, so the first pick is
    // the same in both runs
    assert_eq!(unobstructed[0].2, shifted[0].2);
    assert!(shifted[0].0 > unobstructed[0].0);
    // the first parcel clears the building footprint
    assert!(shifted[0].0 - shifted[0].2 / 2 >= 30);
}

/// Two identical maps generate identical parcel sequences.
#[test]
fn generation_is_deterministic() {
    let mut a = WorldMap::new(Terrain::flat(1000));
    let ra = straight_road(&mut a, 100, 10);
    outgoing_sidewalk(&mut a, ra, 100);
    a.generate_along_road(ra);

    let mut b = WorldMap::new(Terrain::flat(1000));
    let rb = straight_road(&mut b, 100, 10);
    outgoing_sidewalk(&mut b, rb, 100);
    b.generate_along_road(rb);

    assert_eq!(lot_centers_and_sizes(&a, ra), lot_centers_and_sizes(&b, rb));
}

/// A road with no sidewalk generates nothing.
#[test]
fn generation_skips_sides_without_sidewalk() {
    let mut map = WorldMap::new(Terrain::flat(1000));
    let road = straight_road(&mut map, 100, 10);
    map.generate_along_road(road);
    assert_eq!(map.lot_count(), 0);
}

/// Retraction removes exactly the parcels hit by a road's replacement
/// geometry, handed in as the new swept shape and terminal polygons.
#[test]
fn retraction_removes_intersecting_parcels() {
    let mut map = WorldMap::new(Terrain::flat(1000));
    let road = straight_road(&mut map, 100, 10);
    outgoing_sidewalk(&mut map, road, 100);
    map.generate_along_road(road);
    let before: Vec<u64> = map.parcels_of(road).clone();
    assert!(before.len() >= 1);

    // a crossing road's new sweep covers the band x in 0..=30 above and
    // below the existing road
    map.remove_intersecting_parcels(
        &square(0, -57, 30, 57),
        &square(10, 58, 20, 60),
        &square(10, -60, 20, -58),
    );

    let mut removed = 0;
    for &id in before.iter() {
        match map.lot(id) {
            Some(lot) => {
                // survivors lie fully right of the new sweep
                for p in lot.shape.pts.iter() {
                    assert!(p.x >= 30);
                }
                assert!(map.index_has_lot(id));
                assert!(map.parcels_of(road).contains(&id));
            },
            None => {
                assert!(!map.index_has_lot(id));
                assert!(!map.parcels_of(road).contains(&id));
                removed += 1;
            },
        }
    }
    // the first parcel starts within x <= 30, so something was removed
    assert!(removed >= 1);
    assert_eq!(map.lot_count(), before.len() - removed);
}

/// A replacement sweep covering the whole frontage retracts every
/// previously generated parcel from the collection, the index, and the
/// road's list, while the road itself stays.
#[test]
fn retraction_clears_covered_parcels() {
    let mut map = WorldMap::new(Terrain::flat(1000));
    let road = straight_road(&mut map, 100, 10);
    outgoing_sidewalk(&mut map, road, 100);
    map.generate_along_road(road);
    let owned: Vec<u64> = map.parcels_of(road).clone();
    assert!(owned.len() >= 1);

    // the wider replacement covers every parcel's near edge at y == 6
    map.remove_intersecting_parcels(
        &square(0, -8, 100, 8),
        &square(-4, -2, 0, 2),
        &square(100, -2, 104, 2),
    );

    for &id in owned.iter() {
        assert!(map.lot(id).is_none());
        assert!(!map.index_has_lot(id));
        assert!(!map.parcels_of(road).contains(&id));
    }
    assert_eq!(map.lot_count(), 0);
    assert_eq!(map.parcels_of(road).len(), 0);

    // nothing left for a second pass: a fixed point
    map.remove_intersecting_parcels(
        &square(0, -8, 100, 8),
        &square(-4, -2, 0, 2),
        &square(100, -2, 104, 2),
    );
    assert_eq!(map.lot_count(), 0);
}

/// Removing a road removes its parcels from the collection, the index and
/// every list; a retraction pass over the same footprint afterward finds
/// nothing left.
#[test]
fn road_removal_retracts_all_owned_parcels() {
    let mut map = WorldMap::new(Terrain::flat(1000));
    let road = straight_road(&mut map, 100, 10);
    outgoing_sidewalk(&mut map, road, 100);
    map.generate_along_road(road);
    let owned: Vec<u64> = map.parcels_of(road).clone();
    assert!(owned.len() >= 1);

    map.unregister_road(road);
    for &id in owned.iter() {
        assert!(map.lot(id).is_none());
        assert!(!map.index_has_lot(id));
    }
    assert_eq!(map.parcels_of(road).len(), 0);
    assert_eq!(map.lot_count(), 0);

    map.remove_intersecting_parcels(
        &square(0, -10, 100, 10),
        &square(-3, -1, -1, 1),
        &square(101, -1, 103, 1),
    );
    for &id in owned.iter() {
        assert!(map.lot(id).is_none());
        assert!(!map.index_has_lot(id));
    }
    assert_eq!(map.lot_count(), 0);
}

/// Registering geometry over standing parcels retracts them, keeping the
/// clearance guarantee.
#[test]
fn registration_retracts_overlapped_parcels() {
    let mut map = WorldMap::new(Terrain::flat(1000));
    let road = straight_road(&mut map, 100, 10);
    let id = map.try_make_parcel(road, v(50, 6), v(0, 1), 20).unwrap();
    assert!(map.lot(id).is_some());
    map.register_building(vec![square(45, 10, 55, 20)]);
    assert!(map.lot(id).is_none());
    assert!(!map.index_has_lot(id));
}

fn incoming_sidewalk(map: &mut WorldMap, road: usize, length: i64) {
    let lane = Lane {
        parent: road,
        src_i: 1,
        dst_i: 0,
        kind: LaneKind::Walking,
        control: TrafficControl::Always,
        points: Polyline { pts: vec![v(0, -6), v(length, -6)] },
    };
    map.register_lane(lane);
}

/// With sidewalks on both sides, parcels appear on both sides of the road
/// and still never overlap the road band.
#[test]
fn generation_covers_both_sidewalk_sides() {
    let mut map = WorldMap::new(Terrain::flat(1000));
    let road = straight_road(&mut map, 100, 10);
    outgoing_sidewalk(&mut map, road, 100);
    incoming_sidewalk(&mut map, road, 100);
    map.generate_along_road(road);

    let placed = lot_centers_and_sizes(&map, road);
    assert!(placed.iter().any(|&(_, cy, _)| cy > 5));
    assert!(placed.iter().any(|&(_, cy, _)| cy < -5));
    for &(_, cy, size) in placed.iter() {
        assert!(cy == 6 + size / 2 || cy == -(6 + size / 2));
    }
}

/// Explicit removal clears one parcel from all three stores and leaves
/// the rest alone; repeating it is a no-op.
#[test]
fn explicit_removal_is_complete_and_idempotent() {
    let mut map = WorldMap::new(Terrain::flat(1000));
    let road = straight_road(&mut map, 100, 10);
    let a = map.try_make_parcel(road, v(30, 6), v(0, 1), 20).unwrap();
    let b = map.try_make_parcel(road, v(70, 6), v(0, 1), 20).unwrap();

    assert!(map.remove_parcel(a));
    assert!(map.lot(a).is_none());
    assert!(!map.index_has_lot(a));
    assert!(!map.parcels_of(road).contains(&a));
    assert!(map.lot(b).is_some());
    assert!(map.parcels_of(road).contains(&b));

    assert!(!map.remove_parcel(a));
    assert_eq!(map.lot_count(), 1);
}
