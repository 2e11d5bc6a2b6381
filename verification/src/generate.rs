//! The frontage generator: walk one side of a road's centerline, offset to
//! the curb, placing parcels of sizes drawn from the road's own
//! deterministic sequence.
//!
//! The whole walk has a spec-level mirror, `walk_steps`: a mathematical
//! function of the starting map, the road, the side and the seed. The
//! executable walk is proved to produce exactly the mirror's placements, so
//! regenerating a road with identical endpoint geometry reproduces the same
//! parcel sizes and positions — the determinism the map snapshot format
//! relies on.

use vstd::prelude::*;
use crate::geometry::{bbox_eq, coord_ok, polys_intersect, Vec2i, COORD_LIMIT};
use crate::polyline::{lemma_total_len_bounds, point_dir_at, lemma_point_dir_props, total_len};
use crate::lots::LotKind;
use crate::sizes::{frontage_seed, frontage_seed_ex, size_at, SizeRng};
use crate::spatial::ProjectKind;
use crate::world::{
    can_place, frontage_anchor, frontage_anchor_ex, lot_shape_spec, placement_inputs_ok, road_wf,
    shape_blocked, try_make_effect, unchanged_geometry, LaneKind, WorldMap, LOT_CAP,
};

verus! {

/// One shape per placement.
pub open spec fn shapes_of(ps: Seq<(Vec2i, Vec2i, int)>) -> Seq<Seq<Vec2i>> {
    ps.map_values(|p: (Vec2i, Vec2i, int)| lot_shape_spec(p.0, p.1, p.2))
}

/// Like `shape_blocked`, with the shapes placed earlier in this walk also
/// counting as obstacles.
pub open spec fn placed_blocked(m: WorldMap, extra: Seq<Seq<Vec2i>>, cand: Seq<Vec2i>) -> bool {
    shape_blocked(m, cand) || exists|i: int|
        0 <= i < extra.len() && polys_intersect(#[trigger] extra[i], cand)
}

/// The walk's placement test: room in the store, ground high enough, no
/// registered object and no earlier placement intersects the candidate.
pub open spec fn walk_ok(
    m: WorldMap,
    extra: Seq<Seq<Vec2i>>,
    at: Vec2i,
    axis: Vec2i,
    size: int,
) -> bool {
    &&& m.table().dom().len() + extra.len() < LOT_CAP
    &&& m.terrain.ok_spec(at)
    &&& !placed_blocked(m, extra, lot_shape_spec(at, axis, size))
}

/// The outward axis on the given side: the perpendicular of the walk
/// direction, flipped for the incoming side.
pub open spec fn side_axis(dir: Vec2i, side: i64) -> Vec2i {
    if side == 1 {
        Vec2i { x: (-dir.y) as i64, y: dir.x }
    } else {
        Vec2i { x: dir.y, y: (-dir.x) as i64 }
    }
}

pub open spec fn walk_measure(len: int, d: int) -> nat {
    if d <= len + 1 {
        (len + 1 - d) as nat
    } else {
        0
    }
}

/// The mirror of the frontage walk: at arc length `d` with the `k`-th
/// drawn size, try the anchor one curb-width outward; on success record the
/// placement, skip half this parcel, the gap, and half the next pick; on
/// failure slide forward by the retry step; stop past the end of the
/// centerline.
pub open spec fn walk_steps(
    m: WorldMap,
    road: usize,
    side: i64,
    seed: u64,
    k: nat,
    d: int,
    extra: Seq<Seq<Vec2i>>,
) -> Seq<(Vec2i, Vec2i, int)>
    recommends
        road < m.roads@.len(),
    decreases walk_measure(total_len(m.roads@[road as int].center@), d)
        via walk_steps_decreases
{
    let rd = m.roads@[road as int];
    match point_dir_at(rd.center@, d) {
        None => Seq::empty(),
        Some(pd) => {
            let anchor = frontage_anchor(pd.0, side_axis(pd.1, side), rd.width);
            let axis = side_axis(pd.1, side);
            let size = size_at(seed, k);
            if placement_inputs_ok(anchor, axis, size) && walk_ok(m, extra, anchor, axis, size) {
                let shape = lot_shape_spec(anchor, axis, size);
                let next = size_at(seed, k + 1);
                seq![(anchor, axis, size)] + walk_steps(
                    m,
                    road,
                    side,
                    seed,
                    k + 1,
                    d + size / 2 + 2 + next / 2,
                    extra.push(shape),
                )
            } else {
                walk_steps(m, road, side, seed, k, d + 2, extra)
            }
        },
    }
}

#[via_fn]
proof fn walk_steps_decreases(
    m: WorldMap,
    road: usize,
    side: i64,
    seed: u64,
    k: nat,
    d: int,
    extra: Seq<Seq<Vec2i>>,
) {
    let rd = m.roads@[road as int];
    if point_dir_at(rd.center@, d) is Some {
        lemma_point_dir_some_bounds(rd.center@, d);
        crate::sizes::lemma_size_at_choices(seed, k);
        crate::sizes::lemma_size_at_choices(seed, k + 1);
    }
}

/// A position query only answers within the polyline's arc length.
pub proof fn lemma_point_dir_some_bounds(s: Seq<Vec2i>, d: int)
    requires
        point_dir_at(s, d) is Some,
    ensures
        0 <= d <= total_len(s),
    decreases s.len(),
{
    lemma_total_len_nonneg(s);
    let sl = crate::polyline::seg_len(s[0], s[1]);
    lemma_isqrt_spec_nonneg(crate::polyline::seg_sq(s[0], s[1]));
    if d <= sl {
        lemma_total_len_nonneg(s.drop_first());
    } else {
        lemma_point_dir_some_bounds(s.drop_first(), d - sl);
    }
}

pub proof fn lemma_isqrt_spec_nonneg(n: int)
    ensures
        0 <= crate::polyline::isqrt_spec(n),
    decreases n,
{
    if n >= 1 {
        lemma_isqrt_spec_nonneg(n - 1);
    }
}

pub proof fn lemma_total_len_nonneg(s: Seq<Vec2i>)
    ensures
        0 <= total_len(s),
    decreases s.len(),
{
    if s.len() > 1 {
        lemma_isqrt_spec_nonneg(crate::polyline::seg_sq(s[0], s[1]));
        lemma_total_len_nonneg(s.drop_first());
    }
}

/// Every size the walk places is one of the three allowed picks.
pub proof fn lemma_walk_sizes(
    m: WorldMap,
    road: usize,
    side: i64,
    seed: u64,
    k: nat,
    d: int,
    extra: Seq<Seq<Vec2i>>,
)
    ensures
        forall|i: int|
            0 <= i < walk_steps(m, road, side, seed, k, d, extra).len() ==> {
                let sz = #[trigger] walk_steps(m, road, side, seed, k, d, extra)[i].2;
                sz == 20 || sz == 30 || sz == 40
            },
    decreases walk_measure(total_len(m.roads@[road as int].center@), d),
{
    let rd = m.roads@[road as int];
    if point_dir_at(rd.center@, d) is Some {
        lemma_point_dir_some_bounds(rd.center@, d);
        crate::sizes::lemma_size_at_choices(seed, k);
        crate::sizes::lemma_size_at_choices(seed, k + 1);
        let pd = point_dir_at(rd.center@, d)->Some_0;
        let anchor = frontage_anchor(pd.0, side_axis(pd.1, side), rd.width);
        let axis = side_axis(pd.1, side);
        let size = size_at(seed, k);
        let w = walk_steps(m, road, side, seed, k, d, extra);
        if placement_inputs_ok(anchor, axis, size) && walk_ok(m, extra, anchor, axis, size) {
            let next = size_at(seed, k + 1);
            let d2 = d + size / 2 + 2 + next / 2;
            let extra2 = extra.push(lot_shape_spec(anchor, axis, size));
            lemma_walk_sizes(m, road, side, seed, k + 1, d2, extra2);
            let w2 = walk_steps(m, road, side, seed, k + 1, d2, extra2);
            assert forall|i: int| 0 <= i < w.len() implies {
                let sz = #[trigger] w[i].2;
                sz == 20 || sz == 30 || sz == 40
            } by {
                if i == 0 {
                    assert(w[i] == (anchor, axis, size));
                } else {
                    assert(w[i] == w2[i - 1]);
                    assert(w2[i - 1].2 == 20 || w2[i - 1].2 == 30 || w2[i - 1].2 == 40);
                }
            }
        } else {
            lemma_walk_sizes(m, road, side, seed, k, d + 2, extra);
            let w2 = walk_steps(m, road, side, seed, k, d + 2, extra);
            assert forall|i: int| 0 <= i < w.len() implies {
                let sz = #[trigger] w[i].2;
                sz == 20 || sz == 30 || sz == 40
            } by {
                assert(w[i] == w2[i]);
                assert(w2[i].2 == 20 || w2[i].2 == 30 || w2[i].2 == 40);
            }
        }
    }
}

/// The seed a side of this road draws its sizes from: a hash of the sums
/// of the endpoint coordinates and of the signed road length.
pub open spec fn road_seed(m: WorldMap, road: usize, side: i64) -> u64 {
    let rd = m.roads@[road as int];
    frontage_seed(
        rd.src_point.x + rd.dst_point.x,
        rd.dst_point.y + rd.src_point.y,
        side * total_len(rd.center@),
    )
}

/// The road has a walking lane on the given orientation at its source end.
pub open spec fn has_sidewalk(m: WorldMap, road: usize, outgoing: bool) -> bool {
    exists|p: int|
        0 <= p < m.road_lanes@[road as int]@.len() && {
            let l = m.lanes@[(#[trigger] m.road_lanes@[road as int]@[p]) as int];
            l.kind == LaneKind::Walking && (if outgoing {
                l.src_i == m.roads@[road as int].src_i
            } else {
                l.dst_i == m.roads@[road as int].src_i
            })
        }
}

/// One side's walk, starting half of the first pick into the road.
pub open spec fn side_walk(m: WorldMap, road: usize, side: i64, extra: Seq<Seq<Vec2i>>) -> Seq<
    (Vec2i, Vec2i, int),
> {
    let seed = road_seed(m, road, side);
    walk_steps(m, road, side, seed, 0, size_at(seed, 0) / 2, extra)
}

/// Everything `generate_along_road` places: the outgoing side first, then
/// the incoming side with the outgoing side's parcels as obstacles.
pub open spec fn generate_spec(m: WorldMap, road: usize) -> Seq<(Vec2i, Vec2i, int)> {
    let out = if has_sidewalk(m, road, true) {
        side_walk(m, road, 1i64, Seq::empty())
    } else {
        Seq::empty()
    };
    let inc = if has_sidewalk(m, road, false) {
        side_walk(m, road, -1i64, shapes_of(out))
    } else {
        Seq::empty()
    };
    out + inc
}

/// `cur` is `base` with exactly the placements `ps` committed for `road`:
/// fresh identifiers appended to the road's list in order, one stored
/// parcel per placement, everything else untouched.
pub open spec fn placed_rel(
    base: WorldMap,
    cur: WorldMap,
    road: usize,
    ps: Seq<(Vec2i, Vec2i, int)>,
) -> bool {
    let n0 = base.road_lots@[road as int]@.len() as int;
    let list = cur.road_lots@[road as int]@;
    &&& road < base.road_lots@.len()
    &&& unchanged_geometry(base, cur)
    &&& cur.road_lots@.len() == base.road_lots@.len()
    &&& forall|r: int|
        0 <= r < base.road_lots@.len() && r != road ==> #[trigger] cur.road_lots@[r]
            == base.road_lots@[r]
    &&& list.len() == n0 + ps.len()
    &&& list.take(n0) == base.road_lots@[road as int]@
    &&& forall|i: int| 0 <= i < ps.len() ==> !base.table().dom().contains(#[trigger] list[n0 + i])
    &&& forall|i: int| 0 <= i < ps.len() ==> cur.table().dom().contains(#[trigger] list[n0 + i])
    &&& forall|i: int|
        0 <= i < ps.len() ==> cur.table()[#[trigger] list[n0 + i]].parent == road
            && cur.table()[list[n0 + i]].kind == LotKind::Residential && cur.table()[list[n0
            + i]].shape@ == lot_shape_spec(ps[i].0, ps[i].1, ps[i].2) && cur.table()[list[n0
            + i]].size == ps[i].2
    &&& forall|k: u64| #[trigger]
        cur.table().dom().contains(k) <==> base.table().dom().contains(k) || list.skip(
            n0,
        ).contains(k)
    &&& forall|k: u64| #[trigger]
        base.table().dom().contains(k) ==> cur.table()[k] == base.table()[k]
    &&& cur.table().dom().len() == base.table().dom().len() + ps.len()
    &&& cur.index@.len() == base.index@.len() + ps.len()
    &&& forall|e: int| 0 <= e < base.index@.len() ==> #[trigger] cur.index@[e] == base.index@[e]
    &&& forall|i: int|
        0 <= i < ps.len() ==> (#[trigger] cur.index@[base.index@.len() + i]).0
            == ProjectKind::Lot(list[n0 + i]) && bbox_eq(
            cur.index@[base.index@.len() + i].1,
            lot_shape_spec(ps[i].0, ps[i].1, ps[i].2),
        )
}

/// With `cur` = `base` plus the walk's placements, the map-level placement
/// test agrees with the walk's own test over the starting map plus the
/// placed shapes.
proof fn lemma_can_place_bridge(
    base: WorldMap,
    cur: WorldMap,
    road: usize,
    ps: Seq<(Vec2i, Vec2i, int)>,
    at: Vec2i,
    axis: Vec2i,
    size: int,
)
    requires
        placed_rel(base, cur, road, ps),
    ensures
        can_place(cur, at, axis, size) == walk_ok(base, shapes_of(ps), at, axis, size),
{
    let cand = lot_shape_spec(at, axis, size);
    let n0 = base.road_lots@[road as int]@.len() as int;
    let list = cur.road_lots@[road as int]@;
    assert(shapes_of(ps).len() == ps.len());
    assert(shape_blocked(cur, cand) == placed_blocked(base, shapes_of(ps), cand)) by {
        if shape_blocked(cur, cand) {
            assert(placed_blocked(base, shapes_of(ps), cand)) by {
                if exists|id: u64|
                    #[trigger] cur.table().dom().contains(id) && polys_intersect(
                        cur.table()[id].shape@,
                        cand,
                    ) {
                    let id = choose|id: u64|
                        #[trigger] cur.table().dom().contains(id) && polys_intersect(
                            cur.table()[id].shape@,
                            cand,
                        );
                    if base.table().dom().contains(id) {
                        assert(cur.table()[id] == base.table()[id]);
                    } else {
                        assert(list.skip(n0).contains(id));
                        let j = choose|j: int|
                            0 <= j < list.len() - n0 && #[trigger] list.skip(n0)[j] == id;
                        assert(list[n0 + j] == id);
                        assert(cur.table()[id].shape@ == lot_shape_spec(ps[j].0, ps[j].1, ps[j].2));
                        assert(shapes_of(ps)[j] == lot_shape_spec(ps[j].0, ps[j].1, ps[j].2));
                        assert(polys_intersect(shapes_of(ps)[j], cand));
                    }
                }
            }
        }
        if placed_blocked(base, shapes_of(ps), cand) {
            assert(shape_blocked(cur, cand)) by {
                if exists|id: u64|
                    #[trigger] base.table().dom().contains(id) && polys_intersect(
                        base.table()[id].shape@,
                        cand,
                    ) {
                    let id = choose|id: u64|
                        #[trigger] base.table().dom().contains(id) && polys_intersect(
                            base.table()[id].shape@,
                            cand,
                        );
                    assert(cur.table().dom().contains(id));
                    assert(cur.table()[id] == base.table()[id]);
                }
                if exists|i: int|
                    0 <= i < shapes_of(ps).len() && polys_intersect(
                        #[trigger] shapes_of(ps)[i],
                        cand,
                    ) {
                    let i = choose|i: int|
                        0 <= i < shapes_of(ps).len() && polys_intersect(
                            #[trigger] shapes_of(ps)[i],
                            cand,
                        );
                    let id = list[n0 + i];
                    assert(cur.table().dom().contains(id));
                    assert(cur.table()[id].shape@ == shapes_of(ps)[i]);
                    assert(polys_intersect(cur.table()[id].shape@, cand));
                }
            }
        }
    }
}

/// Appending one committed placement keeps the walk relation.
proof fn lemma_placed_step(
    base: WorldMap,
    cur: WorldMap,
    next: WorldMap,
    road: usize,
    ps: Seq<(Vec2i, Vec2i, int)>,
    at: Vec2i,
    axis: Vec2i,
    size: int,
    id: u64,
)
    requires
        placed_rel(base, cur, road, ps),
        cur.table().dom().finite(),
        try_make_effect(cur, next, road, at, axis, size, id),
    ensures
        placed_rel(base, next, road, ps.push((at, axis, size))),
{
    let n0 = base.road_lots@[road as int]@.len() as int;
    let list = cur.road_lots@[road as int]@;
    let list2 = next.road_lots@[road as int]@;
    let ps2 = ps.push((at, axis, size));
    assert(list2 == list.push(id));
    assert(list2.take(n0) =~= list.take(n0));
    assert(list2.skip(n0) =~= list.skip(n0).push(id));
    assert forall|i: int| 0 <= i < ps2.len() implies !base.table().dom().contains(
        #[trigger] list2[n0 + i],
    ) && next.table().dom().contains(list2[n0 + i]) && next.table()[list2[n0 + i]].parent == road
        && next.table()[list2[n0 + i]].kind == LotKind::Residential && next.table()[list2[n0
        + i]].shape@ == lot_shape_spec(ps2[i].0, ps2[i].1, ps2[i].2) && next.table()[list2[n0
        + i]].size == ps2[i].2 by {
        if i < ps.len() {
            assert(list2[n0 + i] == list[n0 + i]);
            assert(cur.table().dom().contains(list[n0 + i]));
            assert(next.table()[list[n0 + i]] == cur.table()[list[n0 + i]]);
            assert(ps2[i] == ps[i]);
        } else {
            assert(list2[n0 + i] == id);
            assert(ps2[i] == (at, axis, size));
        }
    }
    assert forall|k: u64| #[trigger] next.table().dom().contains(k) <==> base.table().dom().contains(
        k,
    ) || list2.skip(n0).contains(k) by {
        if next.table().dom().contains(k) {
            if k == id {
                assert(list2.skip(n0).last() == id);
            } else {
                assert(cur.table().dom().contains(k));
                if !base.table().dom().contains(k) {
                    assert(list.skip(n0).contains(k));
                    let j = choose|j: int|
                        0 <= j < list.skip(n0).len() && #[trigger] list.skip(n0)[j] == k;
                    assert(list2.skip(n0)[j] == k);
                }
            }
        }
        if base.table().dom().contains(k) {
            assert(cur.table().dom().contains(k));
            assert(next.table().dom() == cur.table().dom().insert(id));
        }
        if list2.skip(n0).contains(k) {
            let j = choose|j: int| 0 <= j < list2.skip(n0).len() && #[trigger] list2.skip(n0)[j] == k;
            if j < list.skip(n0).len() {
                assert(list.skip(n0)[j] == k);
                assert(cur.table().dom().contains(k));
                assert(next.table().dom() == cur.table().dom().insert(id));
            } else {
                assert(k == id);
            }
        }
    }
    assert forall|k: u64| #[trigger] base.table().dom().contains(k) implies next.table()[k]
        == base.table()[k] by {
        assert(cur.table().dom().contains(k));
        assert(next.table()[k] == cur.table()[k]);
    }
    assert(next.table().dom() =~= cur.table().dom().insert(id));
    assert(next.table().dom().len() == cur.table().dom().len() + 1) by {
        assert(!cur.table().dom().contains(id));
        vstd::set::axiom_set_insert_len(cur.table().dom(), id);
    }
    // the index grew by exactly the new parcel's entry
    assert(next.index@.drop_last() == cur.index@);
    assert forall|e: int| 0 <= e < base.index@.len() implies #[trigger] next.index@[e]
        == base.index@[e] by {
        assert(next.index@[e] == next.index@.drop_last()[e]);
        assert(cur.index@[e] == base.index@[e]);
    }
    assert forall|i: int|
        0 <= i < ps2.len() implies (#[trigger] next.index@[base.index@.len() + i]).0
        == ProjectKind::Lot(list2[n0 + i]) && bbox_eq(
        next.index@[base.index@.len() + i].1,
        lot_shape_spec(ps2[i].0, ps2[i].1, ps2[i].2),
    ) by {
        if i < ps.len() {
            assert(next.index@[base.index@.len() + i] == next.index@.drop_last()[base.index@.len()
                + i]);
            assert(next.index@[base.index@.len() + i] == cur.index@[base.index@.len() + i]);
            assert(list2[n0 + i] == list[n0 + i]);
            assert(ps2[i] == ps[i]);
        } else {
            assert(next.index@[base.index@.len() + i] == next.index@.last());
            assert(list2[n0 + i] == id);
            assert(ps2[i] == (at, axis, size));
        }
    }
    assert forall|r: int|
        0 <= r < base.road_lots@.len() && r != road implies #[trigger] next.road_lots@[r]
        == base.road_lots@[r] by {
        assert(next.road_lots@[r] == cur.road_lots@[r]);
    }
}

impl WorldMap {
    /// Whether the road has a walking lane in the given orientation,
    /// checked at its source end, as the generator requires.
    pub fn road_has_sidewalk(&self, road: usize, outgoing: bool) -> (r: bool)
        requires
            self.inv(),
            road < self.roads@.len(),
        ensures
            r == has_sidewalk(*self, road, outgoing),
    {
        let srci = self.roads[road].src_i;
        let n = self.road_lanes[road].len();
        let mut p: usize = 0;
        while p < n
            invariant
                0 <= p <= n,
                n == self.road_lanes@[road as int]@.len(),
                forall|q: int|
                    0 <= q < p ==> {
                        let l = self.lanes@[(#[trigger] self.road_lanes@[road as int]@[q]) as int];
                        !(l.kind == LaneKind::Walking && (if outgoing {
                            l.src_i == self.roads@[road as int].src_i
                        } else {
                            l.dst_i == self.roads@[road as int].src_i
                        }))
                    },
            decreases n - p,
        {
            let li = self.road_lanes[road][p];
            let lane = &self.lanes[li];
            let matches_end = if outgoing {
                lane.src_i == srci
            } else {
                lane.dst_i == srci
            };
            if matches_end {
                match lane.kind {
                    LaneKind::Walking => {
                        return true;
                    },
                    _ => {},
                }
            }
            p = p + 1;
        }
        false
    }

    /// Walk one side of the road's frontage, placing parcels; `base` is
    /// the map at the start of generation and `extra0` the placements
    /// already committed by the other side's walk.
    #[verifier::rlimit(100)]
    fn side_pass(
        &mut self,
        road: usize,
        side: i64,
        base: Ghost<WorldMap>,
        extra0: Ghost<Seq<(Vec2i, Vec2i, int)>>,
    )
        requires
            old(self).inv(),
            road < old(self).roads@.len(),
            old(self).road_live@[road as int],
            side == 1 || side == -1,
            placed_rel(base@, *old(self), road, extra0@),
        ensures
            final(self).inv(),
            placed_rel(
                base@,
                *final(self),
                road,
                extra0@ + side_walk(base@, road, side, shapes_of(extra0@)),
            ),
    {
        let ghost b = base@;
        proof {
            assert(self.roads == b.roads);
            assert(road_wf(self.roads@[road as int], self.inters@.len() as int));
        }
        let sx = self.roads[road].src_point.x + self.roads[road].dst_point.x;
        let sy = self.roads[road].dst_point.y + self.roads[road].src_point.y;
        proof {
            lemma_total_len_bounds(self.roads@[road as int].center@);
            crate::geometry::lemma_mul_bound(
                side as int,
                total_len(self.roads@[road as int].center@),
                1,
                0x400000000000,
            );
        }
        let length = self.roads[road].center.length();
        let sl = side * length;
        let seed = frontage_seed_ex(sx, sy, sl);
        proof {
            assert(seed == road_seed(b, road, side));
        }
        let mut rng = SizeRng::from_seed(seed);
        let mut size = rng.next_size();
        let mut d: i64 = size / 2;
        let ghost full = walk_steps(b, road, side, seed, 0, size_at(seed, 0) / 2, shapes_of(
            extra0@,
        ));
        let ghost mut ps = extra0@;
        let ghost road_len = total_len(b.roads@[road as int].center@);
        proof {
            assert(shapes_of(ps) =~= shapes_of(extra0@));
        }
        #[verifier::loop_isolation(true)]
        loop
            invariant
                self.inv(),
                road < self.roads@.len(),
                self.road_live@[road as int],
                side == 1 || side == -1,
                self.roads == b.roads,
                placed_rel(b, *self, road, ps),
                rng.inv(),
                rng.seed@ == seed,
                rng.count@ >= 1,
                size == size_at(seed, (rng.count@ - 1) as nat),
                size == 20 || size == 30 || size == 40,
                0 <= d <= road_len + 42,
                road_len == total_len(b.roads@[road as int].center@),
                0 <= road_len <= 0x400000000000,
                extra0@ + full =~= ps + walk_steps(
                    b,
                    road,
                    side,
                    seed,
                    (rng.count@ - 1) as nat,
                    d as int,
                    shapes_of(ps),
                ),
            ensures
                placed_rel(b, *self, road, extra0@ + full),
                self.inv(),
            decreases walk_measure(road_len, d as int),
        {
            let ghost k = (rng.count@ - 1) as nat;
            let pd = self.roads[road].center.at_distance(d);
            match pd {
                None => {
                    proof {
                        assert(walk_steps(b, road, side, seed, k, d as int, shapes_of(ps))
                            =~= Seq::empty());
                        assert(extra0@ + full =~= ps);
                        assert(placed_rel(b, *self, road, extra0@ + full)) by {
                            assert(ps =~= extra0@ + full);
                        }
                    }
                    break ;
                },
                Some((pos, dir)) => {
                    proof {
                        lemma_point_dir_props(self.roads@[road as int].center@, d as int);
                        lemma_point_dir_some_bounds(b.roads@[road as int].center@, d as int);
                    }
                    let axis = if side == 1 {
                        Vec2i { x: -dir.y, y: dir.x }
                    } else {
                        Vec2i { x: dir.y, y: -dir.x }
                    };
                    proof {
                        assert(axis == side_axis(dir, side));
                    }
                    let w = self.roads[road].width;
                    let anchor = frontage_anchor_ex(pos, axis, w);
                    let ghost prev = *self;
                    proof {
                        assert(placement_inputs_ok(anchor, axis, size as int));
                        lemma_can_place_bridge(b, *self, road, ps, anchor, axis, size as int);
                    }
                    let got = self.try_make_parcel(road, anchor, axis, size);
                    match got {
                        Some(id) => {
                            let ghost d0 = d as int;
                            proof {
                                assert(walk_ok(b, shapes_of(ps), anchor, axis, size as int));
                                let p = (anchor, axis, size as int);
                                let ps2 = ps.push(p);
                                assert(shapes_of(ps2) =~= shapes_of(ps).push(
                                    lot_shape_spec(anchor, axis, size as int),
                                ));
                                let dn = d0 + size / 2 + 2 + size_at(seed, k + 1) / 2;
                                let cont = walk_steps(b, road, side, seed, k + 1, dn, shapes_of(
                                    ps2,
                                ));
                                assert(walk_steps(b, road, side, seed, k, d0, shapes_of(ps))
                                    == seq![p] + cont);
                                lemma_chain(extra0@ + full, ps, p, cont);
                                lemma_placed_step(
                                    b,
                                    prev,
                                    *self,
                                    road,
                                    ps,
                                    anchor,
                                    axis,
                                    size as int,
                                    id,
                                );
                                ps = ps2;
                            }
                            d = d + size / 2 + 2;
                            let size2 = rng.next_size();
                            d = d + size2 / 2;
                            size = size2;
                        },
                        None => {
                            proof {
                                assert(!can_place(prev, anchor, axis, size as int));
                                assert(!walk_ok(b, shapes_of(ps), anchor, axis, size as int));
                                assert(walk_steps(b, road, side, seed, k, d as int, shapes_of(ps))
                                    == walk_steps(
                                    b,
                                    road,
                                    side,
                                    seed,
                                    k,
                                    d + 2,
                                    shapes_of(ps),
                                ));
                            }
                            d = d + 2;
                        },
                    }
                },
            }
        }
    }

    /// Generate parcels along both sides of a road's frontage: the
    /// outgoing sidewalk side first, then the incoming one, exactly the
    /// placements of `generate_spec` over the starting map.
    pub fn generate_along_road(&mut self, road: usize)
        requires
            old(self).inv(),
            road < old(self).roads@.len(),
            old(self).road_live@[road as int],
        ensures
            final(self).inv(),
            placed_rel(*old(self), *final(self), road, generate_spec(*old(self), road)),
    {
        let ghost base = *self;
        let has_out = self.road_has_sidewalk(road, true);
        let has_in = self.road_has_sidewalk(road, false);
        let ghost out_ps: Seq<(Vec2i, Vec2i, int)> = if has_out {
            side_walk(base, road, 1i64, Seq::empty())
        } else {
            Seq::empty()
        };
        proof {
            lemma_placed_rel_reflexive(base, road);
        }
        if has_out {
            proof {
                assert(shapes_of(Seq::<(Vec2i, Vec2i, int)>::empty()) =~= Seq::<
                    Seq<Vec2i>,
                >::empty());
            }
            self.side_pass(road, 1, Ghost(base), Ghost(Seq::empty()));
            proof {
                assert(Seq::<(Vec2i, Vec2i, int)>::empty() + side_walk(
                    base,
                    road,
                    1i64,
                    shapes_of(Seq::<(Vec2i, Vec2i, int)>::empty()),
                ) =~= out_ps);
            }
        }
        proof {
            assert(placed_rel(base, *self, road, out_ps));
        }
        if has_in {
            self.side_pass(road, -1, Ghost(base), Ghost(out_ps));
        }
        proof {
            let inc = if has_in {
                side_walk(base, road, -1i64, shapes_of(out_ps))
            } else {
                Seq::empty()
            };
            assert(generate_spec(base, road) =~= out_ps + inc);
            if !has_in {
                assert(out_ps + inc =~= out_ps);
            }
            assert(placed_rel(base, *self, road, generate_spec(base, road))) by {
                assert(placed_rel(base, *self, road, out_ps + inc));
            }
        }
    }
}

/// Concatenation regrouping for placement sequences.
proof fn lemma_chain(
    whole: Seq<(Vec2i, Vec2i, int)>,
    pre: Seq<(Vec2i, Vec2i, int)>,
    p: (Vec2i, Vec2i, int),
    rest: Seq<(Vec2i, Vec2i, int)>,
)
    requires
        whole =~= pre + (seq![p] + rest),
    ensures
        whole =~= pre.push(p) + rest,
{
    assert(pre + (seq![p] + rest) =~= pre.push(p) + rest);
}

/// A map is related to itself by the empty placement sequence.
proof fn lemma_placed_rel_reflexive(m: WorldMap, road: usize)
    requires
        m.inv(),
        road < m.roads@.len(),
    ensures
        placed_rel(m, m, road, Seq::empty()),
{
    let n0 = m.road_lots@[road as int]@.len() as int;
    let list = m.road_lots@[road as int]@;
    assert(list.take(n0) =~= list);
    assert forall|k: u64| #[trigger] m.table().dom().contains(k) <==> m.table().dom().contains(k)
        || list.skip(n0).contains(k) by {
        if list.skip(n0).contains(k) {
            let j = choose|j: int| 0 <= j < list.skip(n0).len() && #[trigger] list.skip(n0)[j] == k;
            assert(false);
        }
    }
}

} // verus!
