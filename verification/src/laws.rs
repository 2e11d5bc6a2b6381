//! The subsystem's guarantees, stated as standalone laws.
//!
//! Every public operation of `WorldMap` requires and re-establishes the
//! well-formedness predicate `WorldMap::inv`, so each law below holds after
//! any sequence of placements, generations, registrations and retractions.
//! Retraction completeness is stated directly on
//! `WorldMap::remove_intersecting_parcels`' contract: after the call no
//! surviving parcel intersects the supplied replacement sweep or terminal
//! intersection polygons, and the removed parcels are gone from the
//! collection, the index and every parcel list.

use vstd::prelude::*;
use crate::geometry::{polys_intersect, Vec2i};
use crate::spatial::{contains_key, ProjectKind};
use crate::world::{shape_blocked, WorldMap};
use crate::generate::{
    generate_spec, has_sidewalk, road_seed, shapes_of, side_axis, side_walk, walk_measure,
    walk_ok, walk_steps,
};
use crate::polyline::{point_dir_at, total_len};
use crate::sizes::size_at;
use crate::world::{frontage_anchor, lot_shape_spec, placement_inputs_ok};

verus! {

/// No overlap: two distinct live parcels never intersect.
pub proof fn lemma_no_overlap(m: WorldMap, k1: u64, k2: u64)
    requires
        m.inv(),
        m.table().dom().contains(k1),
        m.table().dom().contains(k2),
        k1 != k2,
    ensures
        !polys_intersect(m.table()[k1].shape@, m.table()[k2].shape@),
{
}

/// Frontage clearance: a live parcel intersects no live road's swept
/// shape, no intersection polygon, and no building face.
pub proof fn lemma_frontage_clearance(m: WorldMap, k: u64)
    requires
        m.inv(),
        m.table().dom().contains(k),
    ensures
        forall|r: usize|
            r < m.roads@.len() && m.road_live@[r as int] ==> !polys_intersect(
                m.table()[k].shape@,
                #[trigger] m.roads@[r as int].swept@,
            ),
        forall|j: usize|
            j < m.inters@.len() ==> !polys_intersect(
                m.table()[k].shape@,
                #[trigger] m.inters@[j as int].polygon@,
            ),
        forall|b: usize, f: int|
            b < m.buildings@.len() && 0 <= f < m.buildings@[b as int].faces@.len()
                ==> !polys_intersect(
                m.table()[k].shape@,
                #[trigger] m.buildings@[b as int].faces@[f]@,
            ),
{
    assert forall|r: usize|
        r < m.roads@.len() && m.road_live@[r as int] implies !polys_intersect(
        m.table()[k].shape@,
        #[trigger] m.roads@[r as int].swept@,
    ) by {
        assert(m.table()[k] == m.table()[k] && m.roads@[r as int] == m.roads@[r as int]);
    }
    assert forall|j: usize| j < m.inters@.len() implies !polys_intersect(
        m.table()[k].shape@,
        #[trigger] m.inters@[j as int].polygon@,
    ) by {
        assert(m.table()[k] == m.table()[k] && m.inters@[j as int] == m.inters@[j as int]);
    }
    assert forall|b: usize, f: int|
        b < m.buildings@.len() && 0 <= f
            < m.buildings@[b as int].faces@.len() implies !polys_intersect(
        m.table()[k].shape@,
        #[trigger] m.buildings@[b as int].faces@[f]@,
    ) by {
        assert(m.table()[k] == m.table()[k] && m.buildings@[b as int].faces@[f]
            == m.buildings@[b as int].faces@[f]);
    }
}

/// Index coherence: the parcel-tagged index keys are exactly the live
/// parcel identifiers.
pub proof fn lemma_index_coherence(m: WorldMap)
    requires
        m.inv(),
    ensures
        forall|id: u64| #[trigger]
            m.table().dom().contains(id) <==> contains_key(m.index@, ProjectKind::Lot(id)),
{
    assert forall|id: u64| #[trigger] m.table().dom().contains(id) <==> contains_key(
        m.index@,
        ProjectKind::Lot(id),
    ) by {
        if contains_key(m.index@, ProjectKind::Lot(id)) {
            let e = choose|e: int|
                0 <= e < m.index@.len() && #[trigger] m.index@[e].0 == ProjectKind::Lot(id);
            assert(m.index_entry_ok(m.index@[e]));
        }
    }
}

/// Ownership coherence: a road's parcel list holds an identifier exactly
/// when that parcel is live and names the road as its parent; lists hold
/// no duplicates.
pub proof fn lemma_ownership_coherence(m: WorldMap, r: usize)
    requires
        m.inv(),
        r < m.roads@.len(),
    ensures
        m.road_lots@[r as int]@.no_duplicates(),
        forall|k: u64| #[trigger]
            m.road_lots@[r as int]@.contains(k) <==> m.table().dom().contains(k)
                && m.table()[k].parent == r,
{
    assert forall|k: u64| #[trigger] m.road_lots@[r as int]@.contains(k) <==> m.table().dom().contains(
        k,
    ) && m.table()[k].parent == r by {
        if m.road_lots@[r as int]@.contains(k) {
            let p = choose|p: int|
                0 <= p < m.road_lots@[r as int]@.len() && #[trigger] m.road_lots@[r as int]@[p]
                    == k;
        }
        if m.table().dom().contains(k) && m.table()[k].parent == r {
            assert(m.road_lots@[m.table()[k].parent as int]@.contains(k));
        }
    }
}

/// The relevant state two maps must share for generation to behave the
/// same: the whole road network, lanes, geometry, terrain, and the parcel
/// contents.
pub open spec fn same_generation_inputs(m1: WorldMap, m2: WorldMap) -> bool {
    &&& m1.roads == m2.roads
    &&& m1.road_live == m2.road_live
    &&& m1.road_lanes == m2.road_lanes
    &&& m1.lanes == m2.lanes
    &&& m1.inters == m2.inters
    &&& m1.buildings == m2.buildings
    &&& m1.terrain == m2.terrain
    &&& m1.table() == m2.table()
}

proof fn lemma_blocked_equal(m1: WorldMap, m2: WorldMap, cand: Seq<Vec2i>)
    requires
        same_generation_inputs(m1, m2),
    ensures
        shape_blocked(m1, cand) == shape_blocked(m2, cand),
{
    if shape_blocked(m1, cand) {
        assert(shape_blocked(m2, cand)) by {
            if exists|id: u64|
                #[trigger] m1.table().dom().contains(id) && polys_intersect(
                    m1.table()[id].shape@,
                    cand,
                ) {
                let id = choose|id: u64|
                    #[trigger] m1.table().dom().contains(id) && polys_intersect(
                        m1.table()[id].shape@,
                        cand,
                    );
                assert(m2.table().dom().contains(id) && polys_intersect(
                    m2.table()[id].shape@,
                    cand,
                ));
            }
        }
    }
    if shape_blocked(m2, cand) {
        assert(shape_blocked(m1, cand)) by {
            if exists|id: u64|
                #[trigger] m2.table().dom().contains(id) && polys_intersect(
                    m2.table()[id].shape@,
                    cand,
                ) {
                let id = choose|id: u64|
                    #[trigger] m2.table().dom().contains(id) && polys_intersect(
                        m2.table()[id].shape@,
                        cand,
                    );
                assert(m1.table().dom().contains(id) && polys_intersect(
                    m1.table()[id].shape@,
                    cand,
                ));
            }
        }
    }
}

proof fn lemma_walk_equal(
    m1: WorldMap,
    m2: WorldMap,
    road: usize,
    side: i64,
    seed: u64,
    k: nat,
    d: int,
    extra: Seq<Seq<Vec2i>>,
)
    requires
        same_generation_inputs(m1, m2),
    ensures
        walk_steps(m1, road, side, seed, k, d, extra) == walk_steps(
            m2,
            road,
            side,
            seed,
            k,
            d,
            extra,
        ),
    decreases walk_measure(total_len(m1.roads@[road as int].center@), d),
{
    let rd = m1.roads@[road as int];
    assert(m2.roads@[road as int] == rd);
    if crate::polyline::point_dir_at(rd.center@, d) is Some {
        crate::generate::lemma_point_dir_some_bounds(rd.center@, d);
        crate::sizes::lemma_size_at_choices(seed, k);
        crate::sizes::lemma_size_at_choices(seed, k + 1);
        let pd = crate::polyline::point_dir_at(rd.center@, d)->Some_0;
        let axis = crate::generate::side_axis(pd.1, side);
        let anchor = crate::world::frontage_anchor(pd.0, axis, rd.width);
        let size = crate::sizes::size_at(seed, k);
        let cand = crate::world::lot_shape_spec(anchor, axis, size);
        lemma_blocked_equal(m1, m2, cand);
        assert(walk_ok(m1, extra, anchor, axis, size) == walk_ok(m2, extra, anchor, axis, size));
        if crate::world::placement_inputs_ok(anchor, axis, size) && walk_ok(
            m1,
            extra,
            anchor,
            axis,
            size,
        ) {
            let next = crate::sizes::size_at(seed, k + 1);
            lemma_walk_equal(
                m1,
                m2,
                road,
                side,
                seed,
                k + 1,
                d + size / 2 + 2 + next / 2,
                extra.push(cand),
            );
        } else {
            lemma_walk_equal(m1, m2, road, side, seed, k, d + 2, extra);
        }
    }
}

/// Determinism: generating along the same road of two maps that agree on
/// the road network, lanes, registered geometry, terrain and parcel
/// contents yields identical placement sequences — the same anchors, axes
/// and sizes, in the same order. Nothing else (in particular no global
/// random state and no identifier values) influences the outcome.
proof fn lemma_side_walk_equal(
    m1: WorldMap,
    m2: WorldMap,
    road: usize,
    side: i64,
    extra: Seq<Seq<Vec2i>>,
)
    requires
        same_generation_inputs(m1, m2),
    ensures
        side_walk(m1, road, side, extra) == side_walk(m2, road, side, extra),
{
    assert(m1.roads@[road as int] == m2.roads@[road as int]);
    assert(road_seed(m1, road, side) == road_seed(m2, road, side));
    let seed = road_seed(m1, road, side);
    lemma_walk_equal(m1, m2, road, side, seed, 0, crate::sizes::size_at(seed, 0) / 2, extra);
}

/// Determinism: generating along the same road of two maps that agree on
/// the road network, lanes, registered geometry, terrain and parcel
/// contents yields identical placement sequences — the same anchors, axes
/// and sizes, in the same order. Nothing else (in particular no global
/// random state and no identifier values) influences the outcome.
pub proof fn lemma_generation_deterministic(m1: WorldMap, m2: WorldMap, road: usize)
    requires
        same_generation_inputs(m1, m2),
        road < m1.roads@.len(),
    ensures
        generate_spec(m1, road) == generate_spec(m2, road),
{
    lemma_sidewalk_equal(m1, m2, road, true);
    lemma_sidewalk_equal(m1, m2, road, false);
    let out1 = if has_sidewalk(m1, road, true) {
        side_walk(m1, road, 1i64, Seq::empty())
    } else {
        Seq::empty()
    };
    lemma_side_walk_equal(m1, m2, road, 1i64, Seq::empty());
    lemma_side_walk_equal(m1, m2, road, -1i64, shapes_of(out1));
}

proof fn lemma_sidewalk_equal(m1: WorldMap, m2: WorldMap, road: usize, outgoing: bool)
    requires
        same_generation_inputs(m1, m2),
    ensures
        has_sidewalk(m1, road, outgoing) == has_sidewalk(m2, road, outgoing),
{
    if has_sidewalk(m1, road, outgoing) {
        let p = choose|p: int|
            0 <= p < m1.road_lanes@[road as int]@.len() && {
                let l = m1.lanes@[(#[trigger] m1.road_lanes@[road as int]@[p]) as int];
                l.kind == crate::world::LaneKind::Walking && (if outgoing {
                    l.src_i == m1.roads@[road as int].src_i
                } else {
                    l.dst_i == m1.roads@[road as int].src_i
                })
            };
        assert(m2.road_lanes@[road as int]@[p] == m1.road_lanes@[road as int]@[p]);
    }
    if has_sidewalk(m2, road, outgoing) {
        let p = choose|p: int|
            0 <= p < m2.road_lanes@[road as int]@.len() && {
                let l = m2.lanes@[(#[trigger] m2.road_lanes@[road as int]@[p]) as int];
                l.kind == crate::world::LaneKind::Walking && (if outgoing {
                    l.src_i == m2.roads@[road as int].src_i
                } else {
                    l.dst_i == m2.roads@[road as int].src_i
                })
            };
        assert(m1.road_lanes@[road as int]@[p] == m2.road_lanes@[road as int]@[p]);
    }
}

/// A side's walk makes its first attempt half of the first drawn size
/// into the road: the generator's starting arc length is `size/2` for the
/// first pick.
pub proof fn lemma_walk_starts_at_half_first_pick(
    m: WorldMap,
    road: usize,
    side: i64,
    extra: Seq<Seq<Vec2i>>,
)
    ensures
        side_walk(m, road, side, extra) == walk_steps(
            m,
            road,
            side,
            road_seed(m, road, side),
            0,
            size_at(road_seed(m, road, side), 0) / 2,
            extra,
        ),
{
}

/// A failed attempt slides the walk by the flat retry step of two units,
/// keeping the same size pick and the same obstacles; nothing is placed.
pub proof fn lemma_walk_retry_step(
    m: WorldMap,
    road: usize,
    side: i64,
    seed: u64,
    k: nat,
    d: int,
    extra: Seq<Seq<Vec2i>>,
)
    requires
        point_dir_at(m.roads@[road as int].center@, d) is Some,
        ({
            let pd = point_dir_at(m.roads@[road as int].center@, d)->Some_0;
            let axis = side_axis(pd.1, side);
            let anchor = frontage_anchor(pd.0, axis, m.roads@[road as int].width);
            !(placement_inputs_ok(anchor, axis, size_at(seed, k)) && walk_ok(
                m,
                extra,
                anchor,
                axis,
                size_at(seed, k),
            ))
        }),
    ensures
        walk_steps(m, road, side, seed, k, d, extra) == walk_steps(
            m,
            road,
            side,
            seed,
            k,
            d + 2,
            extra,
        ),
{
}

/// A successful attempt records the placement and advances the walk by
/// half this parcel, the two-unit gap, and half the next pick, with the
/// placed shape added to the obstacles and the next size drawn.
pub proof fn lemma_walk_success_step(
    m: WorldMap,
    road: usize,
    side: i64,
    seed: u64,
    k: nat,
    d: int,
    extra: Seq<Seq<Vec2i>>,
)
    requires
        point_dir_at(m.roads@[road as int].center@, d) is Some,
        ({
            let pd = point_dir_at(m.roads@[road as int].center@, d)->Some_0;
            let axis = side_axis(pd.1, side);
            let anchor = frontage_anchor(pd.0, axis, m.roads@[road as int].width);
            placement_inputs_ok(anchor, axis, size_at(seed, k)) && walk_ok(
                m,
                extra,
                anchor,
                axis,
                size_at(seed, k),
            )
        }),
    ensures
        ({
            let pd = point_dir_at(m.roads@[road as int].center@, d)->Some_0;
            let axis = side_axis(pd.1, side);
            let anchor = frontage_anchor(pd.0, axis, m.roads@[road as int].width);
            let size = size_at(seed, k);
            walk_steps(m, road, side, seed, k, d, extra) == seq![(anchor, axis, size)]
                + walk_steps(
                m,
                road,
                side,
                seed,
                k + 1,
                d + size / 2 + 2 + size_at(seed, k + 1) / 2,
                extra.push(lot_shape_spec(anchor, axis, size)),
            )
        }),
{
}

/// The walk's attempt at arc length `d` exists but does not place: the
/// centerline still answers there, yet the placement test fails.
pub open spec fn attempt_fails(
    m: WorldMap,
    road: usize,
    side: i64,
    seed: u64,
    k: nat,
    d: int,
    extra: Seq<Seq<Vec2i>>,
) -> bool {
    &&& point_dir_at(m.roads@[road as int].center@, d) is Some
    &&& ({
        let pd = point_dir_at(m.roads@[road as int].center@, d)->Some_0;
        let axis = side_axis(pd.1, side);
        let anchor = frontage_anchor(pd.0, axis, m.roads@[road as int].width);
        !(placement_inputs_ok(anchor, axis, size_at(seed, k)) && walk_ok(
            m,
            extra,
            anchor,
            axis,
            size_at(seed, k),
        ))
    })
}

/// Sliding past an obstacle: while attempts keep failing, the walk's
/// outcome equals the walk started a positive multiple of the two-unit
/// retry step further along — so the first parcel behind an obstacle is
/// the one placed at the first succeeding attempt point, shifted from the
/// unobstructed anchor by exactly two units per failed attempt.
pub proof fn lemma_walk_slides(
    m: WorldMap,
    road: usize,
    side: i64,
    seed: u64,
    k: nat,
    d: int,
    extra: Seq<Seq<Vec2i>>,
    n: nat,
)
    requires
        forall|j: nat| j < n ==> #[trigger] attempt_fails(m, road, side, seed, k, d + 2 * j, extra),
    ensures
        walk_steps(m, road, side, seed, k, d, extra) == walk_steps(
            m,
            road,
            side,
            seed,
            k,
            d + 2 * n,
            extra,
        ),
    decreases n,
{
    if n > 0 {
        assert(attempt_fails(m, road, side, seed, k, d + 2 * 0, extra));
        lemma_walk_retry_step(m, road, side, seed, k, d, extra);
        assert forall|j: nat| j < n - 1 implies #[trigger] attempt_fails(
            m,
            road,
            side,
            seed,
            k,
            (d + 2) + 2 * j,
            extra,
        ) by {
            assert(attempt_fails(m, road, side, seed, k, d + 2 * (j + 1), extra));
            assert(d + 2 * (j + 1) == (d + 2) + 2 * j);
        }
        lemma_walk_slides(m, road, side, seed, k, d + 2, extra, (n - 1) as nat);
        assert((d + 2) + 2 * (n - 1) == d + 2 * n);
    }
}

} // verus!
