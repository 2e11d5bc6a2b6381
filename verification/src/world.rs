//! The map aggregate: roads, intersections, buildings, lanes, the parcel
//! store and the spatial index, owned together so that one well-formedness
//! predicate ties them to each other.
//!
//! The invariant carries the four guarantees of the parcel subsystem:
//! parcels never overlap each other (`lots_disjoint`), a parcel never
//! intersects any registered road sweep, intersection polygon or building
//! face (`lots_clear`), the index holds exactly one entry per live object
//! with the object's current bounding box (`index_coherent`), and each
//! road's parcel list holds exactly the identifiers of its own live parcels
//! (`ownership_coherent`). Every public operation requires and re-
//! establishes the invariant.

use vstd::prelude::*;
use vstd::pervasive::VecAdditionalExecFns;
use crate::geometry::{
    bb_max_x, bb_max_y, bb_min_x, bb_min_y, bbox_eq, boxes_overlap, coord_ok,
    lemma_intersect_symmetric, lemma_mul_bound, lemma_mul_sign, lemma_square_monotonic,
    lemma_square_nonneg, poly_boxes_overlap, poly_wf, polys_intersect, polys_intersect_ex, Aabb,
    Polygon, Vec2i, COORD_LIMIT,
};
use crate::polyline::{div_t, div_trunc, isqrt, isqrt_spec, lemma_div_trunc_bound, polyline_wf, Polyline};
use crate::lots::{lot_key_wf, lot_table, Lot, LotKind, LotStore};
use crate::spatial::{contains_key, lemma_query_spec, query_spec, ProjectKind, SpatialIndex};
use crate::terrain::Terrain;

verus! {

/// Largest magnitude a placement anchor may have.
pub const ANCHOR_LIMIT: i64 = 2097152;

/// Largest accepted parcel edge length.
pub const SIZE_LIMIT: i64 = 4096;

/// Largest accepted road width.
pub const WIDTH_LIMIT: i64 = 4096;

/// Most parcels the store accepts; keeps the store far from its capacity.
pub const LOT_CAP: usize = 16777216;

/// Lane classification, as far as this core reads it.
#[derive(Clone, Copy, PartialEq, Eq, Structural, Debug)]
pub enum LaneKind {
    Driving,
    Parking,
    Walking,
}

/// How traffic on a lane is controlled at its destination end.
#[derive(Clone, Copy, PartialEq, Eq, Structural, Debug)]
pub enum TrafficControl {
    Always,
    StopSign,
    Lights { offset: u64, green: u64, orange: u64, red: u64 },
}

/// A road record, as consumed by this core: endpoints, width, generated
/// centerline, the swept shape used for exact clearance tests.
pub struct Road {
    pub src_i: usize,
    pub dst_i: usize,
    pub src_point: Vec2i,
    pub dst_point: Vec2i,
    pub width: i64,
    pub center: Polyline,
    pub swept: Polygon,
}

pub struct Intersection {
    pub polygon: Polygon,
}

pub struct Building {
    pub faces: Vec<Polygon>,
}

/// A lane of a road; `src_i`/`dst_i` are the terminal intersections in the
/// lane's travel direction.
pub struct Lane {
    pub parent: usize,
    pub src_i: usize,
    pub dst_i: usize,
    pub kind: LaneKind,
    pub control: TrafficControl,
    pub points: Polyline,
}

/// A polygon handed in by a caller: coordinates within the input bound.
/// Convexity is not required; for a non-convex polygon the intersection
/// predicate over-approximates (see the geometry module).
pub open spec fn input_poly_wf(s: Seq<Vec2i>) -> bool {
    &&& s.len() >= 3
    &&& forall|k: int| 0 <= k < s.len() ==> coord_ok(#[trigger] s[k], COORD_LIMIT as int)
    &&& poly_wf(s)
}

pub open spec fn road_wf(r: Road, n_inters: int) -> bool {
    &&& r.src_i < n_inters
    &&& r.dst_i < n_inters
    &&& polyline_wf(r.center@)
    &&& input_poly_wf(r.swept@)
    &&& coord_ok(r.src_point, COORD_LIMIT as int)
    &&& coord_ok(r.dst_point, COORD_LIMIT as int)
    &&& 0 <= r.width <= WIDTH_LIMIT
}

pub open spec fn building_wf(b: Building) -> bool {
    &&& b.faces@.len() >= 1
    &&& forall|f: int| 0 <= f < b.faces@.len() ==> input_poly_wf(#[trigger] b.faces@[f]@)
}

pub open spec fn lane_wf(l: Lane, n_roads: int, n_inters: int) -> bool {
    &&& l.parent < n_roads
    &&& l.src_i < n_inters
    &&& l.dst_i < n_inters
    &&& polyline_wf(l.points@)
}

/// `bb` contains the bounding box of the vertex set `s`.
pub open spec fn box_covers(bb: Aabb, s: Seq<Vec2i>) -> bool {
    bb.min.x <= bb_min_x(s) && bb_max_x(s) <= bb.max.x && bb.min.y <= bb_min_y(s) && bb_max_y(s)
        <= bb.max.y
}

pub struct WorldMap {
    pub roads: Vec<Road>,
    pub road_live: Vec<bool>,
    pub road_lots: Vec<Vec<u64>>,
    pub road_lanes: Vec<Vec<usize>>,
    pub lanes: Vec<Lane>,
    pub inters: Vec<Intersection>,
    pub buildings: Vec<Building>,
    pub lots: LotStore,
    pub index: SpatialIndex,
    pub terrain: Terrain,
}

impl WorldMap {
    /// The parcel collection as the proofs see it.
    pub open spec fn table(self) -> Map<u64, Lot> {
        lot_table(self.lots)
    }

    pub open spec fn wf_structure(self) -> bool {
        &&& self.road_live@.len() == self.roads@.len()
        &&& self.road_lots@.len() == self.roads@.len()
        &&& self.road_lanes@.len() == self.roads@.len()
        &&& forall|r: int|
            0 <= r < self.roads@.len() ==> road_wf(
                #[trigger] self.roads@[r],
                self.inters@.len() as int,
            )
        &&& forall|j: int|
            0 <= j < self.inters@.len() ==> input_poly_wf(#[trigger] self.inters@[j].polygon@)
        &&& forall|b: int| 0 <= b < self.buildings@.len() ==> building_wf(#[trigger] self.buildings@[b])
        &&& forall|l: int|
            0 <= l < self.lanes@.len() ==> lane_wf(
                #[trigger] self.lanes@[l],
                self.roads@.len() as int,
                self.inters@.len() as int,
            )
        &&& forall|r: int, p: int|
            0 <= r < self.roads@.len() && 0 <= p < self.road_lanes@[r]@.len() ==> (
            #[trigger] self.road_lanes@[r]@[p]) < self.lanes@.len() && self.lanes@[self.road_lanes@[r]@[p] as int].parent
                == r
    }

    /// Every live parcel is well-formed: live odd key, live parent road,
    /// well-formed shape.
    pub open spec fn lots_wf(self) -> bool {
        &&& self.table().dom().finite()
        &&& forall|k: u64| #[trigger] self.table().dom().contains(k) ==> lot_key_wf(k)
        &&& forall|k: u64| #[trigger]
            self.table().dom().contains(k) ==> self.table()[k].parent < self.roads@.len()
                && self.road_live@[self.table()[k].parent as int] && poly_wf(
                self.table()[k].shape@,
            )
    }

    /// No two live parcels intersect.
    pub open spec fn lots_disjoint(self) -> bool {
        forall|k1: u64, k2: u64|
            #![trigger self.table()[k1], self.table()[k2]]
            self.table().dom().contains(k1) && self.table().dom().contains(k2) && k1 != k2
                ==> !polys_intersect(self.table()[k1].shape@, self.table()[k2].shape@)
    }

    /// No live parcel intersects any live road sweep, intersection polygon
    /// or building face.
    pub open spec fn lots_clear(self) -> bool {
        &&& forall|k: u64, r: usize|
            #![trigger self.table()[k], self.roads@[r as int]]
            self.table().dom().contains(k) && r < self.roads@.len() && self.road_live@[r as int]
                ==> !polys_intersect(self.table()[k].shape@, self.roads@[r as int].swept@)
        &&& forall|k: u64, j: usize|
            #![trigger self.table()[k], self.inters@[j as int]]
            self.table().dom().contains(k) && j < self.inters@.len() ==> !polys_intersect(
                self.table()[k].shape@,
                self.inters@[j as int].polygon@,
            )
        &&& forall|k: u64, b: usize, f: int|
            #![trigger self.table()[k], self.buildings@[b as int].faces@[f]]
            self.table().dom().contains(k) && b < self.buildings@.len() && 0 <= f
                < self.buildings@[b as int].faces@.len() ==> !polys_intersect(
                self.table()[k].shape@,
                self.buildings@[b as int].faces@[f]@,
            )
    }

    /// One index entry per live object, carrying its current bounding box.
    pub open spec fn index_entry_ok(self, e: (ProjectKind, Aabb)) -> bool {
        match e.0 {
            ProjectKind::Lot(id) => self.table().dom().contains(id) && bbox_eq(
                e.1,
                self.table()[id].shape@,
            ),
            ProjectKind::Road(r) => r < self.roads@.len() && self.road_live@[r as int] && bbox_eq(
                e.1,
                self.roads@[r as int].swept@,
            ),
            ProjectKind::Inter(j) => j < self.inters@.len() && bbox_eq(
                e.1,
                self.inters@[j as int].polygon@,
            ),
            ProjectKind::Building(b) => b < self.buildings@.len() && forall|f: int|
                0 <= f < self.buildings@[b as int].faces@.len() ==> box_covers(
                    e.1,
                    #[trigger] self.buildings@[b as int].faces@[f]@,
                ),
            ProjectKind::Ground => false,
        }
    }

    pub open spec fn index_coherent(self) -> bool {
        &&& self.index.wf()
        &&& forall|i: int|
            0 <= i < self.index@.len() ==> self.index_entry_ok(#[trigger] self.index@[i])
        &&& forall|k: u64| #[trigger]
            self.table().dom().contains(k) ==> contains_key(self.index@, ProjectKind::Lot(k))
        &&& forall|r: usize|
            r < self.roads@.len() && self.road_live@[r as int] ==> #[trigger] contains_key(
                self.index@,
                ProjectKind::Road(r),
            )
        &&& forall|j: usize|
            j < self.inters@.len() ==> #[trigger] contains_key(
                self.index@,
                ProjectKind::Inter(j),
            )
        &&& forall|b: usize|
            b < self.buildings@.len() ==> #[trigger] contains_key(
                self.index@,
                ProjectKind::Building(b),
            )
    }

    /// Each road's parcel list holds exactly the identifiers of the live
    /// parcels whose parent it is, without duplicates; dead roads hold none.
    pub open spec fn ownership_coherent(self) -> bool {
        &&& forall|r: int| 0 <= r < self.roads@.len() ==> (#[trigger] self.road_lots@[r])@.no_duplicates()
        &&& forall|r: int|
            0 <= r < self.roads@.len() && !self.road_live@[r] ==> (#[trigger] self.road_lots@[r])@.len() == 0
        &&& forall|r: int, p: int|
            0 <= r < self.roads@.len() && 0 <= p < self.road_lots@[r]@.len() ==> self.table().dom().contains(
                #[trigger] self.road_lots@[r]@[p],
            ) && self.table()[self.road_lots@[r]@[p]].parent == r
        &&& forall|k: u64| #[trigger]
            self.table().dom().contains(k) ==> self.road_lots@[self.table()[k].parent as int]@.contains(
                k,
            )
    }

    /// The aggregate's well-formedness: structure plus the four parcel
    /// guarantees.
    pub open spec fn inv(self) -> bool {
        &&& self.wf_structure()
        &&& self.lots_wf()
        &&& self.lots_disjoint()
        &&& self.lots_clear()
        &&& self.index_coherent()
        &&& self.ownership_coherent()
    }

    /// An empty map over the given terrain.
    pub fn new(terrain: Terrain) -> (r: WorldMap)
        ensures
            r.inv(),
            r.table() =~= Map::empty(),
            r.roads@.len() == 0,
            r.inters@.len() == 0,
            r.buildings@.len() == 0,
            r.lanes@.len() == 0,
            r.index@.len() == 0,
            r.terrain == terrain,
    {
        WorldMap {
            roads: Vec::new(),
            road_live: Vec::new(),
            road_lots: Vec::new(),
            road_lanes: Vec::new(),
            lanes: Vec::new(),
            inters: Vec::new(),
            buildings: Vec::new(),
            lots: crate::lots::lots_new(),
            index: SpatialIndex::new(),
            terrain,
        }
    }

    /// The parcel stored under `id`, if it is live.
    pub fn lot(&self, id: u64) -> (r: Option<&Lot>)
        requires
            self.lots_wf(),
        ensures
            match r {
                Some(l) => self.table().dom().contains(id) && *l == self.table()[id],
                None => !self.table().dom().contains(id),
            },
    {
        if (id >> 32) & 1 == 1 {
            crate::lots::lots_get(&self.lots, id)
        } else {
            proof {
                if self.table().dom().contains(id) {
                    assert(lot_key_wf(id));
                }
            }
            None
        }
    }

    /// Number of live parcels.
    pub fn lot_count(&self) -> (r: usize)
        ensures
            r == self.table().dom().len(),
    {
        crate::lots::lots_len(&self.lots)
    }

    /// Every live parcel identifier, each once.
    pub fn lot_ids(&self) -> (r: Vec<u64>)
        ensures
            r@.no_duplicates(),
            forall|k: u64| #[trigger] r@.contains(k) <==> self.table().dom().contains(k),
    {
        crate::lots::lots_keys(&self.lots)
    }

    /// The parcel list of a road.
    pub fn parcels_of(&self, road: usize) -> (r: &Vec<u64>)
        requires
            road < self.roads@.len(),
            self.road_lots@.len() == self.roads@.len(),
        ensures
            r@ == self.road_lots@[road as int]@,
    {
        &self.road_lots[road]
    }

    /// Whether the spatial index carries an entry for this parcel key.
    pub fn index_has_lot(&self, id: u64) -> (r: bool)
        ensures
            r == contains_key(self.index@, ProjectKind::Lot(id)),
    {
        self.index.contains(ProjectKind::Lot(id))
    }
}

/// A copy of a parcel-identifier list with one identifier left out.
pub(crate) fn list_without(v: &Vec<u64>, id: u64) -> (r: Vec<u64>)
    requires
        v@.no_duplicates(),
    ensures
        r@.no_duplicates(),
        forall|x: u64| #[trigger] r@.contains(x) <==> v@.contains(x) && x != id,
{
    let n = v.len();
    let mut out: Vec<u64> = Vec::new();
    let mut i: usize = 0;
    while i < n
        invariant
            0 <= i <= n,
            n == v@.len(),
            out@.no_duplicates(),
            forall|x: u64| #[trigger] out@.contains(x) <==> v@.take(i as int).contains(x) && x
                != id,
        decreases n - i,
    {
        let x = v[i];
        proof {
            assert forall|y: u64| #[trigger] v@.take(i + 1).contains(y) implies v@.take(
                i as int,
            ).contains(y) || y == v@[i as int] by {
                let j = choose|j: int| 0 <= j < i + 1 && #[trigger] v@.take(i + 1)[j] == y;
                if j < i {
                    assert(v@.take(i as int)[j] == y);
                }
            }
            assert forall|y: u64|
                v@.take(i as int).contains(y) || y == v@[i as int] implies #[trigger] v@.take(
                i + 1,
            ).contains(y) by {
                if v@.take(i as int).contains(y) {
                    let j = choose|j: int| 0 <= j < i && #[trigger] v@.take(i as int)[j] == y;
                    assert(v@.take(i + 1)[j] == y);
                } else {
                    assert(v@.take(i + 1)[i as int] == y);
                }
            }
            // x cannot be in the output yet: that would repeat an element of v
            if out@.contains(x) {
                assert(v@.take(i as int).contains(x));
                let j = choose|j: int| 0 <= j < i && #[trigger] v@.take(i as int)[j] == x;
                assert(v@[j] == v@[i as int]);
                assert(false);
            }
        }
        if x != id {
            let ghost pre = out@;
            out.push(x);
            proof {
                assert(out@.drop_last() =~= pre);
                assert forall|y: u64| #[trigger] out@.contains(y) implies v@.take(i + 1).contains(
                    y,
                ) && y != id by {
                    let j = choose|j: int| 0 <= j < out@.len() && #[trigger] out@[j] == y;
                    if j < out@.len() - 1 {
                        assert(pre[j] == y);
                        assert(pre.contains(y));
                    } else {
                        assert(y == x);
                    }
                }
                assert forall|y: u64| v@.take(i + 1).contains(y) && y != id implies #[trigger] out@.contains(
                    y,
                ) by {
                    if y == x {
                        assert(out@[out@.len() - 1] == y);
                    } else {
                        assert(v@.take(i as int).contains(y));
                        assert(pre.contains(y));
                        let j = choose|j: int| 0 <= j < pre.len() && #[trigger] pre[j] == y;
                        assert(out@[j] == y);
                    }
                }
                assert forall|p: int, q: int| 0 <= p < q < out@.len() implies out@[p] != out@[q] by {
                    if q < out@.len() - 1 {
                        assert(pre[p] != pre[q]);
                    } else {
                        assert(out@[q] == x);
                        if out@[p] == x {
                            assert(pre[p] == x);
                            assert(pre.contains(x));
                            assert(v@.take(i as int).contains(x));
                            let j = choose|j: int| 0 <= j < i && #[trigger] v@.take(i as int)[j]
                                == x;
                            assert(v@[j] == v@[i as int]);
                            assert(false);
                        }
                    }
                }
            }
        }
        i = i + 1;
    }
    proof {
        assert(v@.take(n as int) =~= v@);
    }
    out
}


// ---------------------------------------------------------------------------
// the placement algorithm
// ---------------------------------------------------------------------------

/// Squared length of a vector.
pub open spec fn vec_sq(v: Vec2i) -> int {
    v.x * v.x + v.y * v.y
}

/// Integer length of a vector.
pub open spec fn vec_len(v: Vec2i) -> int {
    isqrt_spec(vec_sq(v))
}

pub proof fn lemma_vec_len_props(v: Vec2i)
    requires
        coord_ok(v, 2 * COORD_LIMIT as int),
        !(v.x == 0 && v.y == 0),
    ensures
        1 <= vec_len(v) < 4194304,
        -vec_len(v) <= v.x <= vec_len(v),
        -vec_len(v) <= v.y <= vec_len(v),
        0 <= vec_sq(v) <= 0x80000000000,
{
    lemma_mul_bound(v.x as int, v.x as int, 2097152, 2097152);
    lemma_mul_bound(v.y as int, v.y as int, 2097152, 2097152);
    lemma_square_nonneg(v.x as int);
    lemma_square_nonneg(v.y as int);
    crate::polyline::lemma_isqrt_props(vec_sq(v));
    let l = vec_len(v);
    if l >= 4194304 {
        if 4194304 < l {
            lemma_square_monotonic(4194304, l);
        }
        assert(4194304 * 4194304 <= l * l) by (nonlinear_arith)
            requires
                4194304 <= l,
        ;
        assert(false);
    }
    assert(vec_sq(v) >= 1) by (nonlinear_arith)
        requires
            v.x != 0 || v.y != 0,
            vec_sq(v) == v.x * v.x + v.y * v.y,
    ;
    if l < 1 {
        assert((l + 1) * (l + 1) == 1) by (nonlinear_arith)
            requires
                l == 0,
        ;
        assert(false);
    }
    // each component is bounded by the length
    if v.x > l || v.x < -l {
        assert((l + 1) * (l + 1) <= v.x * v.x) by (nonlinear_arith)
            requires
                v.x >= l + 1 || v.x <= -(l + 1),
                l + 1 >= 0,
        ;
        assert(false);
    }
    if v.y > l || v.y < -l {
        assert((l + 1) * (l + 1) <= v.y * v.y) by (nonlinear_arith)
            requires
                v.y >= l + 1 || v.y <= -(l + 1),
                l + 1 >= 0,
        ;
        assert(false);
    }
}

/// The candidate parcel shape: a square of edge `size` whose near edge
/// midpoint sits at `at`, pushed outward along `axis`; with integer
/// coordinates it is the quadrilateral below, exactly a square whenever the
/// axis is grid-aligned.
pub open spec fn lot_shape_spec(at: Vec2i, axis: Vec2i, size: int) -> Seq<Vec2i> {
    let l = vec_len(axis);
    let h = size / 2;
    let ux = div_trunc(axis.x * h, l);
    let uy = div_trunc(axis.y * h, l);
    let vx = div_trunc(-axis.y * h, l);
    let vy = div_trunc(axis.x * h, l);
    let cx = at.x + ux;
    let cy = at.y + uy;
    seq![
        Vec2i { x: (cx - ux - vx) as i64, y: (cy - uy - vy) as i64 },
        Vec2i { x: (cx + ux - vx) as i64, y: (cy + uy - vy) as i64 },
        Vec2i { x: (cx + ux + vx) as i64, y: (cy + uy + vy) as i64 },
        Vec2i { x: (cx - ux + vx) as i64, y: (cy - uy + vy) as i64 },
    ]
}

/// Acceptable placement arguments: bounded anchor, non-zero bounded axis,
/// positive bounded size.
pub open spec fn placement_inputs_ok(at: Vec2i, axis: Vec2i, size: int) -> bool {
    &&& coord_ok(at, ANCHOR_LIMIT as int)
    &&& coord_ok(axis, 2 * COORD_LIMIT as int)
    &&& !(axis.x == 0 && axis.y == 0)
    &&& 1 <= size <= SIZE_LIMIT
}

/// Something registered in the map intersects the candidate shape.
pub open spec fn shape_blocked(m: WorldMap, cand: Seq<Vec2i>) -> bool {
    ||| exists|r: usize|
        r < m.roads@.len() && m.road_live@[r as int] && polys_intersect(
            #[trigger] m.roads@[r as int].swept@,
            cand,
        )
    ||| exists|j: usize|
        j < m.inters@.len() && polys_intersect(#[trigger] m.inters@[j as int].polygon@, cand)
    ||| exists|id: u64|
        #[trigger] m.table().dom().contains(id) && polys_intersect(m.table()[id].shape@, cand)
    ||| exists|b: usize, f: int|
        b < m.buildings@.len() && 0 <= f < m.buildings@[b as int].faces@.len() && polys_intersect(
            #[trigger] m.buildings@[b as int].faces@[f]@,
            cand,
        )
}

/// Placement succeeds exactly here: room in the store, ground high enough,
/// and nothing registered intersects the candidate shape.
pub open spec fn can_place(m: WorldMap, at: Vec2i, axis: Vec2i, size: int) -> bool {
    &&& m.table().dom().len() < LOT_CAP
    &&& m.terrain.ok_spec(at)
    &&& !shape_blocked(m, lot_shape_spec(at, axis, size))
}

/// What a successful placement does to the map: one fresh parcel in the
/// store, one fresh index entry, the identifier appended to the owner's
/// list, and nothing else.
pub open spec fn try_make_effect(
    m0: WorldMap,
    m1: WorldMap,
    parent: usize,
    at: Vec2i,
    axis: Vec2i,
    size: int,
    id: u64,
) -> bool {
    &&& !m0.table().dom().contains(id)
    &&& lot_key_wf(id)
    &&& m1.table().dom() =~= m0.table().dom().insert(id)
    &&& m1.table()[id].parent == parent
    &&& m1.table()[id].kind == LotKind::Residential
    &&& m1.table()[id].shape@ == lot_shape_spec(at, axis, size)
    &&& m1.table()[id].size == size
    &&& forall|k: u64| #[trigger] m0.table().dom().contains(k) ==> m1.table()[k] == m0.table()[k]
    &&& m1.roads == m0.roads
    &&& m1.road_live == m0.road_live
    &&& m1.inters == m0.inters
    &&& m1.buildings == m0.buildings
    &&& m1.lanes == m0.lanes
    &&& m1.road_lanes == m0.road_lanes
    &&& m1.terrain == m0.terrain
    &&& m1.road_lots@.len() == m0.road_lots@.len()
    &&& m1.road_lots@[parent as int]@ == m0.road_lots@[parent as int]@.push(id)
    &&& forall|r: int|
        0 <= r < m0.road_lots@.len() && r != parent ==> #[trigger] m1.road_lots@[r]
            == m0.road_lots@[r]
    &&& m1.index@.len() == m0.index@.len() + 1
    &&& m1.index@.drop_last() == m0.index@
    &&& m1.index@.last().0 == ProjectKind::Lot(id)
    &&& bbox_eq(m1.index@.last().1, lot_shape_spec(at, axis, size))
}

/// One geometry candidate does not collide with the shape.
pub open spec fn cand_clear(m: WorldMap, c: ProjectKind, cand: Seq<Vec2i>) -> bool {
    match c {
        ProjectKind::Road(r) => !polys_intersect(m.roads@[r as int].swept@, cand),
        ProjectKind::Inter(j) => !polys_intersect(m.inters@[j as int].polygon@, cand),
        ProjectKind::Lot(id) => !polys_intersect(m.table()[id].shape@, cand),
        ProjectKind::Building(b) => forall|f: int|
            0 <= f < m.buildings@[b as int].faces@.len() ==> !polys_intersect(
                #[trigger] m.buildings@[b as int].faces@[f]@,
                cand,
            ),
        ProjectKind::Ground => true,
    }
}

/// A copy of an identifier list.
pub(crate) fn copy_ids<T: Copy>(v: &Vec<T>) -> (r: Vec<T>)
    ensures
        r@ =~= v@,
{
    let n = v.len();
    let mut out: Vec<T> = Vec::new();
    let mut i: usize = 0;
    while i < n
        invariant
            0 <= i <= n,
            n == v@.len(),
            out@ =~= v@.take(i as int),
        decreases n - i,
    {
        out.push(v[i]);
        proof {
            assert(out@ =~= v@.take(i + 1));
        }
        i = i + 1;
    }
    proof {
        assert(v@.take(n as int) =~= v@);
    }
    out
}

/// Build the candidate shape.
pub fn make_lot_shape(at: Vec2i, axis: Vec2i, size: i64) -> (p: Polygon)
    requires
        placement_inputs_ok(at, axis, size as int),
    ensures
        p@ == lot_shape_spec(at, axis, size as int),
        p.wf(),
        p@.len() == 4,
{
    proof {
        lemma_vec_len_props(axis);
        lemma_mul_bound(axis.x as int, axis.x as int, 2097152, 2097152);
        lemma_mul_bound(axis.y as int, axis.y as int, 2097152, 2097152);
        lemma_square_nonneg(axis.x as int);
        lemma_square_nonneg(axis.y as int);
    }
    let l = isqrt(axis.x * axis.x + axis.y * axis.y);
    let h = size / 2;
    proof {
        lemma_mul_bound(axis.x as int, h as int, vec_len(axis), 2048);
        lemma_mul_bound(axis.y as int, h as int, vec_len(axis), 2048);
        lemma_mul_bound(-(axis.y as int), h as int, vec_len(axis), 2048);
        lemma_div_trunc_bound((axis.x * h) as int, l as int, 2048);
        lemma_div_trunc_bound((axis.y * h) as int, l as int, 2048);
        lemma_div_trunc_bound((-(axis.y as int) * h) as int, l as int, 2048);
    }
    let ux = div_t(axis.x * h, l);
    let uy = div_t(axis.y * h, l);
    let vx = div_t(-axis.y * h, l);
    let vy = ux;
    let cx = at.x + ux;
    let cy = at.y + uy;
    let mut pts: Vec<Vec2i> = Vec::new();
    pts.push(Vec2i { x: cx - ux - vx, y: cy - uy - vy });
    pts.push(Vec2i { x: cx + ux - vx, y: cy + uy - vy });
    pts.push(Vec2i { x: cx + ux + vx, y: cy + uy + vy });
    pts.push(Vec2i { x: cx - ux + vx, y: cy - uy + vy });
    let p = Polygon { pts };
    proof {
        assert(p@ =~= lot_shape_spec(at, axis, size as int));
        assert(poly_wf(p@)) by {
            assert(forall|k: int| 0 <= k < p@.len() ==> coord_ok(#[trigger] p@[k], 4194304));
        }
    }
    p
}

impl WorldMap {
    /// Try to place one parcel for `parent` at the given anchor, axis and
    /// size. On success the parcel is stored, indexed, and appended to the
    /// owner's parcel list; on failure nothing changes. Success happens
    /// exactly when the store has room (a machine limit, `LOT_CAP`, far
    /// below the store's own capacity), the ground is high enough, and no
    /// registered road sweep, intersection polygon, parcel or building face
    /// intersects the candidate shape.
    pub fn try_make_parcel(&mut self, parent: usize, at: Vec2i, axis: Vec2i, size: i64) -> (r:
        Option<u64>)
        requires
            old(self).inv(),
            parent < old(self).roads@.len(),
            old(self).road_live@[parent as int],
            placement_inputs_ok(at, axis, size as int),
        ensures
            final(self).inv(),
            (r is Some) == can_place(*old(self), at, axis, size as int),
            r is None ==> *final(self) == *old(self),
            r is Some ==> try_make_effect(
                *old(self),
                *final(self),
                parent,
                at,
                axis,
                size as int,
                r->Some_0,
            ),
    {
        let shape = make_lot_shape(at, axis, size);
        let ghost cand = shape@;
        let bb = shape.bbox();
        if crate::lots::lots_len(&self.lots) >= LOT_CAP {
            return None;
        }
        if !self.terrain.ground_ok(at) {
            return None;
        }
        let cands = self.index.query(&bb);
        proof {
            lemma_query_spec(self.index@, bb);
        }
        let n = cands.len();
        let mut i: usize = 0;
        while i < n
            invariant
                0 <= i <= n,
                n == cands@.len(),
                forall|j: int| 0 <= j < i ==> cand_clear(*self, #[trigger] cands@[j], cand),
            decreases n - i,
        {
            let c = cands[i];
            proof {
                assert(cands@.contains(c));
                assert(exists|e: int|
                    0 <= e < self.index@.len() && #[trigger] self.index@[e].0 == c && boxes_overlap(
                        self.index@[e].1,
                        bb,
                    ));
                let e = choose|e: int|
                    0 <= e < self.index@.len() && #[trigger] self.index@[e].0 == c && boxes_overlap(
                        self.index@[e].1,
                        bb,
                    );
                assert(self.index_entry_ok(self.index@[e]));
            }
            match c {
                ProjectKind::Road(rr) => {
                    if polys_intersect_ex(&self.roads[rr].swept, &shape) {
                        proof {
                            assert(shape_blocked(*self, cand));
                        }
                        return None;
                    }
                },
                ProjectKind::Inter(jj) => {
                    if polys_intersect_ex(&self.inters[jj].polygon, &shape) {
                        proof {
                            assert(shape_blocked(*self, cand));
                        }
                        return None;
                    }
                },
                ProjectKind::Lot(idk) => {
                    let hit = match crate::lots::lots_get(&self.lots, idk) {
                        Some(other) => polys_intersect_ex(&other.shape, &shape),
                        None => false,
                    };
                    if hit {
                        proof {
                            assert(shape_blocked(*self, cand));
                        }
                        return None;
                    }
                },
                ProjectKind::Building(bbi) => {
                    let faces = &self.buildings[bbi].faces;
                    let nf = faces.len();
                    let mut f: usize = 0;
                    while f < nf
                        invariant
                            0 <= f <= nf,
                            nf == faces@.len(),
                            faces@ == self.buildings@[bbi as int].faces@,
                            forall|g: int|
                                0 <= g < f ==> !polys_intersect(#[trigger] faces@[g]@, cand),
                        decreases nf - f,
                    {
                        if polys_intersect_ex(&faces[f], &shape) {
                            proof {
                                assert(shape_blocked(*self, cand));
                            }
                            return None;
                        }
                        f = f + 1;
                    }
                },
                ProjectKind::Ground => {},
            }
            i = i + 1;
        }
        // nothing registered intersects the shape: the index covers every
        // object, the exact predicate implies a box overlap, so any blocker
        // would have been a candidate and been tested in the loop
        proof {
            assert(!shape_blocked(*self, cand)) by {
                if exists|r: usize|
                    r < self.roads@.len() && self.road_live@[r as int] && polys_intersect(
                        #[trigger] self.roads@[r as int].swept@,
                        cand,
                    ) {
                    let r = choose|r: usize|
                        r < self.roads@.len() && self.road_live@[r as int] && polys_intersect(
                            #[trigger] self.roads@[r as int].swept@,
                            cand,
                        );
                    assert(contains_key(self.index@, ProjectKind::Road(r)));
                    let e = choose|e: int|
                        0 <= e < self.index@.len() && #[trigger] self.index@[e].0
                            == ProjectKind::Road(r);
                    assert(self.index_entry_ok(self.index@[e]));
                    assert(bbox_eq(self.index@[e].1, self.roads@[r as int].swept@));
                    assert(poly_boxes_overlap(self.roads@[r as int].swept@, cand));
                    assert(bbox_eq(bb, cand));
                    assert(boxes_overlap(self.index@[e].1, bb));
                    assert(cands@.contains(ProjectKind::Road(r)));
                    let j = choose|j: int|
                        0 <= j < cands@.len() && #[trigger] cands@[j] == ProjectKind::Road(r);
                    assert(cand_clear(*self, cands@[j], cand));
                    assert(false);
                }
                if exists|jx: usize|
                    jx < self.inters@.len() && polys_intersect(
                        #[trigger] self.inters@[jx as int].polygon@,
                        cand,
                    ) {
                    let jx = choose|jx: usize|
                        jx < self.inters@.len() && polys_intersect(
                            #[trigger] self.inters@[jx as int].polygon@,
                            cand,
                        );
                    assert(contains_key(self.index@, ProjectKind::Inter(jx)));
                    let e = choose|e: int|
                        0 <= e < self.index@.len() && #[trigger] self.index@[e].0
                            == ProjectKind::Inter(jx);
                    assert(self.index_entry_ok(self.index@[e]));
                    assert(bbox_eq(self.index@[e].1, self.inters@[jx as int].polygon@));
                    assert(poly_boxes_overlap(self.inters@[jx as int].polygon@, cand));
                    assert(bbox_eq(bb, cand));
                    assert(boxes_overlap(self.index@[e].1, bb));
                    assert(cands@.contains(ProjectKind::Inter(jx)));
                    let j = choose|j: int|
                        0 <= j < cands@.len() && #[trigger] cands@[j] == ProjectKind::Inter(jx);
                    assert(cand_clear(*self, cands@[j], cand));
                    assert(false);
                }
                if exists|id: u64|
                    #[trigger] self.table().dom().contains(id) && polys_intersect(
                        self.table()[id].shape@,
                        cand,
                    ) {
                    let id = choose|id: u64|
                        #[trigger] self.table().dom().contains(id) && polys_intersect(
                            self.table()[id].shape@,
                            cand,
                        );
                    assert(contains_key(self.index@, ProjectKind::Lot(id)));
                    let e = choose|e: int|
                        0 <= e < self.index@.len() && #[trigger] self.index@[e].0
                            == ProjectKind::Lot(id);
                    assert(self.index_entry_ok(self.index@[e]));
                    assert(bbox_eq(self.index@[e].1, self.table()[id].shape@));
                    assert(poly_boxes_overlap(self.table()[id].shape@, cand));
                    assert(bbox_eq(bb, cand));
                    assert(boxes_overlap(self.index@[e].1, bb));
                    assert(cands@.contains(ProjectKind::Lot(id)));
                    let j = choose|j: int|
                        0 <= j < cands@.len() && #[trigger] cands@[j] == ProjectKind::Lot(id);
                    assert(cand_clear(*self, cands@[j], cand));
                    assert(false);
                }
                if exists|b: usize, f: int|
                    b < self.buildings@.len() && 0 <= f < self.buildings@[b as int].faces@.len()
                        && polys_intersect(#[trigger] self.buildings@[b as int].faces@[f]@, cand) {
                    let (b, f) = choose|b: usize, f: int|
                        b < self.buildings@.len() && 0 <= f < self.buildings@[b as int].faces@.len()
                            && polys_intersect(
                            #[trigger] self.buildings@[b as int].faces@[f]@,
                            cand,
                        );
                    assert(contains_key(self.index@, ProjectKind::Building(b)));
                    let e = choose|e: int|
                        0 <= e < self.index@.len() && #[trigger] self.index@[e].0
                            == ProjectKind::Building(b);
                    assert(self.index_entry_ok(self.index@[e]));
                    assert(box_covers(self.index@[e].1, self.buildings@[b as int].faces@[f]@));
                    assert(poly_boxes_overlap(self.buildings@[b as int].faces@[f]@, cand));
                    assert(bbox_eq(bb, cand));
                    assert(boxes_overlap(self.index@[e].1, bb));
                    assert(cands@.contains(ProjectKind::Building(b)));
                    let j = choose|j: int|
                        0 <= j < cands@.len() && #[trigger] cands@[j] == ProjectKind::Building(b);
                    assert(cand_clear(*self, cands@[j], cand));
                    assert(false);
                }
            }
        }
        let ghost m0 = *self;
        // commit: store, index, and the owner's list, in that order
        let lot = Lot { parent, kind: LotKind::Residential, shape, size };
        let id = crate::lots::lots_insert(&mut self.lots, lot);
        proof {
            if contains_key(self.index@, ProjectKind::Lot(id)) {
                let e = choose|e: int|
                    0 <= e < self.index@.len() && #[trigger] self.index@[e].0 == ProjectKind::Lot(
                        id,
                    );
                assert(m0.index_entry_ok(self.index@[e]));
                assert(false);
            }
        }
        self.index.insert(ProjectKind::Lot(id), bb);
        let mut newlist = copy_ids(&self.road_lots[parent]);
        newlist.push(id);
        self.road_lots.set(parent, newlist);
        let ghost m1 = *self;
        proof {
            assert(m1.table() == m0.table().insert(id, lot));
            assert(m1.table().dom() =~= m0.table().dom().insert(id));
            // the new parcel is disjoint from everything: no blocker existed
            assert forall|k: u64| #[trigger] m1.table().dom().contains(k) && k != id implies
                m1.table()[k] == m0.table()[k] && m0.table().dom().contains(k) by {}
            lemma_intersect_symmetric_all(cand);
            // lots_wf
            assert(m1.lots_wf()) by {
                assert(m1.table().dom().finite());
            }
            // lots_disjoint
            assert(m1.lots_disjoint()) by {
                assert forall|k1: u64, k2: u64|
                    #![trigger m1.table()[k1], m1.table()[k2]]
                    m1.table().dom().contains(k1) && m1.table().dom().contains(k2) && k1
                        != k2 implies !polys_intersect(m1.table()[k1].shape@, m1.table()[k2].shape@) by {
                    if k1 == id {
                        assert(!polys_intersect(m0.table()[k2].shape@, cand));
                        lemma_intersect_symmetric(m1.table()[k1].shape@, m1.table()[k2].shape@);
                    } else if k2 == id {
                        assert(!polys_intersect(m0.table()[k1].shape@, cand));
                        lemma_intersect_symmetric(m1.table()[k1].shape@, m1.table()[k2].shape@);
                    } else {
                        assert(m0.table()[k1] == m1.table()[k1]);
                    }
                }
            }
            // lots_clear
            assert(m1.lots_clear()) by {
                assert forall|k: u64, r: usize|
                    #![trigger m1.table()[k], m1.roads@[r as int]]
                    m1.table().dom().contains(k) && r < m1.roads@.len() && m1.road_live@[r as int] implies !polys_intersect(
                    m1.table()[k].shape@,
                    m1.roads@[r as int].swept@,
                ) by {
                    if k == id {
                        assert(!polys_intersect(m0.roads@[r as int].swept@, cand));
                        lemma_intersect_symmetric(cand, m0.roads@[r as int].swept@);
                    } else {
                        assert(m0.table()[k] == m1.table()[k]);
                    }
                }
                assert forall|k: u64, j: usize|
                    #![trigger m1.table()[k], m1.inters@[j as int]]
                    m1.table().dom().contains(k) && j < m1.inters@.len() implies !polys_intersect(
                    m1.table()[k].shape@,
                    m1.inters@[j as int].polygon@,
                ) by {
                    if k == id {
                        assert(!polys_intersect(m0.inters@[j as int].polygon@, cand));
                        lemma_intersect_symmetric(cand, m0.inters@[j as int].polygon@);
                    } else {
                        assert(m0.table()[k] == m1.table()[k]);
                    }
                }
                assert forall|k: u64, b: usize, f: int|
                    #![trigger m1.table()[k], m1.buildings@[b as int].faces@[f]]
                    m1.table().dom().contains(k) && b < m1.buildings@.len() && 0 <= f
                        < m1.buildings@[b as int].faces@.len() implies !polys_intersect(
                    m1.table()[k].shape@,
                    m1.buildings@[b as int].faces@[f]@,
                ) by {
                    if k == id {
                        assert(!polys_intersect(m0.buildings@[b as int].faces@[f]@, cand));
                        lemma_intersect_symmetric(cand, m0.buildings@[b as int].faces@[f]@);
                    } else {
                        assert(m0.table()[k] == m1.table()[k]);
                    }
                }
            }
            // index_coherent
            assert(m1.index_coherent()) by {
                assert(m1.index@ == m0.index@.push((ProjectKind::Lot(id), bb)));
                assert forall|e: int| 0 <= e < m1.index@.len() implies m1.index_entry_ok(
                    #[trigger] m1.index@[e],
                ) by {
                    if e < m0.index@.len() {
                        assert(m1.index@[e] == m0.index@[e]);
                        assert(m0.index_entry_ok(m0.index@[e]));
                        match m0.index@[e].0 {
                            ProjectKind::Lot(id2) => {
                                assert(m1.table()[id2] == m0.table()[id2]);
                            },
                            _ => {},
                        }
                    } else {
                        assert(m1.index@[e] == (ProjectKind::Lot(id), bb));
                    }
                }
                assert forall|k: u64| #[trigger] m1.table().dom().contains(k) implies contains_key(
                    m1.index@,
                    ProjectKind::Lot(k),
                ) by {
                    if k == id {
                        assert(m1.index@[m1.index@.len() - 1].0 == ProjectKind::Lot(id));
                    } else {
                        assert(contains_key(m0.index@, ProjectKind::Lot(k)));
                        let e = choose|e: int|
                            0 <= e < m0.index@.len() && #[trigger] m0.index@[e].0
                                == ProjectKind::Lot(k);
                        assert(m1.index@[e].0 == ProjectKind::Lot(k));
                    }
                }
                assert forall|r: usize|
                    r < m1.roads@.len() && m1.road_live@[r as int] implies #[trigger] contains_key(
                    m1.index@,
                    ProjectKind::Road(r),
                ) by {
                    assert(contains_key(m0.index@, ProjectKind::Road(r)));
                    let e = choose|e: int|
                        0 <= e < m0.index@.len() && #[trigger] m0.index@[e].0 == ProjectKind::Road(
                            r,
                        );
                    assert(m1.index@[e].0 == ProjectKind::Road(r));
                }
                assert forall|j: usize| j < m1.inters@.len() implies #[trigger] contains_key(
                    m1.index@,
                    ProjectKind::Inter(j),
                ) by {
                    assert(contains_key(m0.index@, ProjectKind::Inter(j)));
                    let e = choose|e: int|
                        0 <= e < m0.index@.len() && #[trigger] m0.index@[e].0 == ProjectKind::Inter(
                            j,
                        );
                    assert(m1.index@[e].0 == ProjectKind::Inter(j));
                }
                assert forall|b: usize| b < m1.buildings@.len() implies #[trigger] contains_key(
                    m1.index@,
                    ProjectKind::Building(b),
                ) by {
                    assert(contains_key(m0.index@, ProjectKind::Building(b)));
                    let e = choose|e: int|
                        0 <= e < m0.index@.len() && #[trigger] m0.index@[e].0
                            == ProjectKind::Building(b);
                    assert(m1.index@[e].0 == ProjectKind::Building(b));
                }
            }
            // ownership_coherent
            assert(m1.ownership_coherent()) by {
                let nl = m1.road_lots@[parent as int]@;
                assert(nl == m0.road_lots@[parent as int]@.push(id));
                assert(!m0.road_lots@[parent as int]@.contains(id)) by {
                    if m0.road_lots@[parent as int]@.contains(id) {
                        let p = choose|p: int|
                            0 <= p < m0.road_lots@[parent as int]@.len()
                                && #[trigger] m0.road_lots@[parent as int]@[p] == id;
                        assert(m0.table().dom().contains(id));
                        assert(false);
                    }
                }
                assert forall|r: int| 0 <= r < m1.roads@.len() implies (
                #[trigger] m1.road_lots@[r])@.no_duplicates() by {
                    if r == parent {
                        assert forall|p: int, q: int| 0 <= p < q < nl.len() implies nl[p]
                            != nl[q] by {
                            if q < nl.len() - 1 {
                                assert(m0.road_lots@[parent as int]@[p] != m0.road_lots@[parent as int]@[q]);
                            } else {
                                assert(nl[q] == id);
                                if nl[p] == id {
                                    assert(m0.road_lots@[parent as int]@.contains(id));
                                    assert(false);
                                }
                            }
                        }
                    } else {
                        assert(m1.road_lots@[r] == m0.road_lots@[r]);
                    }
                }
                assert forall|r: int|
                    0 <= r < m1.roads@.len() && !m1.road_live@[r] implies (
                #[trigger] m1.road_lots@[r])@.len() == 0 by {
                    if r == parent {
                        assert(m1.road_live@[parent as int]);
                    } else {
                        assert(m1.road_lots@[r] == m0.road_lots@[r]);
                    }
                }
                assert forall|r: int, p: int|
                    0 <= r < m1.roads@.len() && 0 <= p
                        < m1.road_lots@[r]@.len() implies m1.table().dom().contains(
                    #[trigger] m1.road_lots@[r]@[p],
                ) && m1.table()[m1.road_lots@[r]@[p]].parent == r by {
                    if r == parent && p == nl.len() - 1 {
                        assert(nl[p] == id);
                    } else {
                        let k = m1.road_lots@[r]@[p];
                        assert(k == m0.road_lots@[r]@[p]);
                        assert(m0.table().dom().contains(k));
                        assert(m1.table()[k] == m0.table()[k]);
                    }
                }
                assert forall|k: u64| #[trigger] m1.table().dom().contains(k) implies
                    m1.road_lots@[m1.table()[k].parent as int]@.contains(k) by {
                    if k == id {
                        assert(nl[nl.len() - 1] == id);
                    } else {
                        assert(m1.table()[k] == m0.table()[k]);
                        let pr = m0.table()[k].parent as int;
                        assert(m0.road_lots@[pr]@.contains(k));
                        let p = choose|p: int|
                            0 <= p < m0.road_lots@[pr]@.len() && #[trigger] m0.road_lots@[pr]@[p]
                                == k;
                        if pr == parent {
                            assert(nl[p] == k);
                        } else {
                            assert(m1.road_lots@[pr] == m0.road_lots@[pr]);
                        }
                    }
                }
            }
            assert(m1.wf_structure());
            assert(try_make_effect(m0, m1, parent, at, axis, size as int, id)) by {
                assert(m1.index@.drop_last() =~= m0.index@);
                assert(m1.road_lots@[parent as int]@ =~= m0.road_lots@[parent as int]@.push(id));
                assert(m1.index@.last() == (ProjectKind::Lot(id), bb));
            }
        }
        Some(id)
    }
}

/// Every blocker relation can be read in either orientation.
proof fn lemma_intersect_symmetric_all(cand: Seq<Vec2i>)
    ensures
        forall|a: Seq<Vec2i>| #[trigger] polys_intersect(a, cand) == polys_intersect(cand, a),
{
    assert forall|a: Seq<Vec2i>| #[trigger] polys_intersect(a, cand) == polys_intersect(
        cand,
        a,
    ) by {
        lemma_intersect_symmetric(a, cand);
    }
}

/// The geometry of `b` matches `a` everywhere outside the parcel stores.
pub open spec fn unchanged_geometry(a: WorldMap, b: WorldMap) -> bool {
    &&& b.roads == a.roads
    &&& b.road_live == a.road_live
    &&& b.road_lanes == a.road_lanes
    &&& b.lanes == a.lanes
    &&& b.inters == a.inters
    &&& b.buildings == a.buildings
    &&& b.terrain == a.terrain
}

impl WorldMap {
    /// Append to `out` every live parcel whose shape intersects `target`.
    /// Two-phase retraction starts here: candidates come from the coarse
    /// index query and are confirmed by the exact test, before any store is
    /// touched.
    fn collect_hitting(&self, target: &Polygon, out: &mut Vec<u64>)
        requires
            self.inv(),
            target.wf(),
        ensures
            forall|x: u64| #[trigger] final(out)@.contains(x) <==> old(out)@.contains(x) || (
            self.table().dom().contains(x) && polys_intersect(self.table()[x].shape@, target@)),
    {
        let bb = target.bbox();
        let cands = self.index.query(&bb);
        proof {
            lemma_query_spec(self.index@, bb);
        }
        let ghost out0 = out@;
        let n = cands.len();
        let mut i: usize = 0;
        while i < n
            invariant
                0 <= i <= n,
                n == cands@.len(),
                forall|x: u64| #[trigger] out@.contains(x) <==> out0.contains(x) || (
                self.table().dom().contains(x) && polys_intersect(
                    self.table()[x].shape@,
                    target@,
                ) && cands@.take(i as int).contains(ProjectKind::Lot(x))),
            decreases n - i,
        {
            let ghost pre = out@;
            let c = cands[i];
            proof {
                assert(cands@.contains(c));
                let e = choose|e: int|
                    0 <= e < self.index@.len() && #[trigger] self.index@[e].0 == c && boxes_overlap(
                        self.index@[e].1,
                        bb,
                    );
                assert(self.index_entry_ok(self.index@[e]));
                assert forall|y: ProjectKind| #[trigger] cands@.take(i + 1).contains(y) implies
                    cands@.take(i as int).contains(y) || y == cands@[i as int] by {
                    let j = choose|j: int| 0 <= j < i + 1 && #[trigger] cands@.take(i + 1)[j] == y;
                    if j < i {
                        assert(cands@.take(i as int)[j] == y);
                    }
                }
                assert forall|y: ProjectKind|
                    cands@.take(i as int).contains(y) || y == cands@[i as int] implies #[trigger] cands@.take(
                    i + 1,
                ).contains(y) by {
                    if cands@.take(i as int).contains(y) {
                        let j = choose|j: int|
                            0 <= j < i && #[trigger] cands@.take(i as int)[j] == y;
                        assert(cands@.take(i + 1)[j] == y);
                    } else {
                        assert(cands@.take(i + 1)[i as int] == y);
                    }
                }
            }
            match c {
                ProjectKind::Lot(id) => {
                    let hit = match crate::lots::lots_get(&self.lots, id) {
                        Some(other) => polys_intersect_ex(&other.shape, target),
                        None => false,
                    };
                    proof {
                        assert(hit == (self.table().dom().contains(id) && polys_intersect(
                            self.table()[id].shape@,
                            target@,
                        )));
                    }
                    if hit {
                        out.push(id);
                        proof {
                            assert(out@.drop_last() =~= pre);
                            assert(out@.contains(id)) by {
                                assert(out@[out@.len() - 1] == id);
                            }
                            assert forall|x: u64| pre.contains(x) implies out@.contains(x) by {
                                let j = choose|j: int| 0 <= j < pre.len() && #[trigger] pre[j] == x;
                                assert(out@[j] == x);
                            }
                            assert forall|x: u64| #[trigger] out@.contains(x) implies pre.contains(
                                x,
                            ) || x == id by {
                                let j = choose|j: int|
                                    0 <= j < out@.len() && #[trigger] out@[j] == x;
                                if j < out@.len() - 1 {
                                    assert(pre[j] == x);
                                }
                            }
                        }
                    }
                },
                _ => {},
            }
            proof {
                assert forall|x: u64| #[trigger] out@.contains(x) implies out0.contains(x) || (
                self.table().dom().contains(x) && polys_intersect(
                    self.table()[x].shape@,
                    target@,
                ) && cands@.take(i + 1).contains(ProjectKind::Lot(x))) by {}
                assert forall|x: u64|
                    out0.contains(x) || (self.table().dom().contains(x) && polys_intersect(
                        self.table()[x].shape@,
                        target@,
                    ) && cands@.take(i + 1).contains(ProjectKind::Lot(x))) implies #[trigger] out@.contains(
                    x,
                ) by {
                    if out0.contains(x) {
                        assert(pre.contains(x));
                        assert(out@.contains(x));
                    } else {
                        if cands@.take(i as int).contains(ProjectKind::Lot(x)) {
                            assert(pre.contains(x));
                            assert(out@.contains(x));
                        } else {
                            assert(ProjectKind::Lot(x) == cands@[i as int]);
                            assert(cands@[i as int] == c);
                            match c {
                                ProjectKind::Lot(id2) => {
                                    assert(x == id2);
                                    assert(self.table().dom().contains(id2));
                                    assert(polys_intersect(self.table()[id2].shape@, target@));
                                    assert(out@.contains(id2));
                                },
                                _ => {
                                    assert(false);
                                },
                            }
                        }
                    }
                }
            }
            i = i + 1;
        }
        // completeness: a hit that was not collected would have been a
        // candidate, since exact intersection implies a box overlap
        proof {
            assert(cands@.take(n as int) =~= cands@);
            assert forall|x: u64|
                self.table().dom().contains(x) && polys_intersect(
                    self.table()[x].shape@,
                    target@,
                ) implies cands@.contains(ProjectKind::Lot(x)) by {
                assert(contains_key(self.index@, ProjectKind::Lot(x)));
                let e = choose|e: int|
                    0 <= e < self.index@.len() && #[trigger] self.index@[e].0 == ProjectKind::Lot(
                        x,
                    );
                assert(self.index_entry_ok(self.index@[e]));
                assert(bbox_eq(self.index@[e].1, self.table()[x].shape@));
                assert(poly_boxes_overlap(self.table()[x].shape@, target@));
                assert(bbox_eq(bb, target@));
                assert(boxes_overlap(self.index@[e].1, bb));
            }
        }
    }

    /// Remove one parcel from all three stores: the collection, the
    /// spatial index, and its owner's parcel list. A stale identifier is a
    /// no-op on all three.
    fn remove_lot_by_id(&mut self, id: u64)
        requires
            old(self).inv(),
            lot_key_wf(id),
        ensures
            final(self).inv(),
            unchanged_geometry(*old(self), *final(self)),
            final(self).table() =~= old(self).table().remove(id),
            final(self).road_lots@.len() == old(self).road_lots@.len(),
            forall|r: int, x: u64|
                0 <= r < old(self).road_lots@.len() ==> (#[trigger] final(self).road_lots@[r]@.contains(x) <==> old(self).road_lots@[r]@.contains(x) && x
                    != id),
            forall|e: (ProjectKind, Aabb)| #[trigger] final(self).index@.contains(e) <==> old(self).index@.contains(e) && e.0 != ProjectKind::Lot(id),
    {
        let ghost m0 = *old(self);
        let removed = crate::lots::lots_remove(&mut self.lots, id);
        match removed {
            None => {
                proof {
                    assert(self.table() =~= m0.table().remove(id));
                    assert(self.table() =~= m0.table());
                    assert(*self == WorldMap { lots: self.lots, ..m0 });
                    assert forall|e: (ProjectKind, Aabb)| #[trigger] self.index@.contains(
                        e,
                    ) implies e.0 != ProjectKind::Lot(id) by {
                        let j = choose|j: int|
                            0 <= j < self.index@.len() && #[trigger] self.index@[j] == e;
                        assert(m0.index_entry_ok(e));
                        if e.0 == ProjectKind::Lot(id) {
                            assert(m0.table().dom().contains(id));
                            assert(false);
                        }
                    }
                    assert forall|r: int, x: u64|
                        0 <= r < m0.road_lots@.len() && #[trigger] self.road_lots@[r]@.contains(
                            x,
                        ) implies x != id by {
                        let p = choose|p: int|
                            0 <= p < self.road_lots@[r]@.len() && #[trigger] self.road_lots@[r]@[p]
                                == x;
                        assert(m0.table().dom().contains(x));
                        if x == id {
                            assert(false);
                        }
                    }
                    assert(self.inv());
                }
            },
            Some(l) => {
                let parent = l.parent;
                proof {
                    assert(m0.table().dom().contains(id));
                    assert(parent < self.roads@.len());
                }
                let newlist = list_without(&self.road_lots[parent], id);
                self.road_lots.set(parent, newlist);
                self.index.remove(ProjectKind::Lot(id));
                let ghost m1 = *self;
                proof {
                    assert(m1.table() =~= m0.table().remove(id));
                    // lists: only the parent's list changed, and only by
                    // dropping `id`; no other list ever held `id`
                    assert forall|r: int, x: u64|
                        0 <= r < m0.road_lots@.len() implies (#[trigger] m1.road_lots@[r]@.contains(
                        x,
                    ) <==> m0.road_lots@[r]@.contains(x) && x != id) by {
                        if r == parent {
                        } else {
                            assert(m1.road_lots@[r] == m0.road_lots@[r]);
                            if m0.road_lots@[r]@.contains(x) && x == id {
                                let p = choose|p: int|
                                    0 <= p < m0.road_lots@[r]@.len()
                                        && #[trigger] m0.road_lots@[r]@[p] == x;
                                assert(m0.table()[x].parent == r);
                                assert(m0.road_lots@[r]@[p] == id);
                                assert(m0.table()[id].parent == parent);
                                assert(false);
                            }
                        }
                    }
                    // invariant parts
                    assert(m1.lots_wf()) by {
                        assert forall|k: u64| #[trigger] m1.table().dom().contains(k) implies
                            lot_key_wf(k) && m1.table()[k].parent < m1.roads@.len()
                            && m1.road_live@[m1.table()[k].parent as int] && poly_wf(
                            m1.table()[k].shape@,
                        ) by {
                            assert(m0.table().dom().contains(k));
                            assert(m1.table()[k] == m0.table()[k]);
                        }
                    }
                    assert(m1.lots_disjoint()) by {
                        assert forall|k1: u64, k2: u64|
                            #![trigger m1.table()[k1], m1.table()[k2]]
                            m1.table().dom().contains(k1) && m1.table().dom().contains(k2) && k1
                                != k2 implies !polys_intersect(
                            m1.table()[k1].shape@,
                            m1.table()[k2].shape@,
                        ) by {
                            assert(m1.table()[k1] == m0.table()[k1]);
                            assert(m1.table()[k2] == m0.table()[k2]);
                        }
                    }
                    assert(m1.lots_clear()) by {
                        assert forall|k: u64, r: usize|
                            #![trigger m1.table()[k], m1.roads@[r as int]]
                            m1.table().dom().contains(k) && r < m1.roads@.len()
                                && m1.road_live@[r as int] implies !polys_intersect(
                            m1.table()[k].shape@,
                            m1.roads@[r as int].swept@,
                        ) by {
                            assert(m1.table()[k] == m0.table()[k]);
                        }
                        assert forall|k: u64, j: usize|
                            #![trigger m1.table()[k], m1.inters@[j as int]]
                            m1.table().dom().contains(k) && j
                                < m1.inters@.len() implies !polys_intersect(
                            m1.table()[k].shape@,
                            m1.inters@[j as int].polygon@,
                        ) by {
                            assert(m1.table()[k] == m0.table()[k]);
                        }
                        assert forall|k: u64, b: usize, f: int|
                            #![trigger m1.table()[k], m1.buildings@[b as int].faces@[f]]
                            m1.table().dom().contains(k) && b < m1.buildings@.len() && 0 <= f
                                < m1.buildings@[b as int].faces@.len() implies !polys_intersect(
                            m1.table()[k].shape@,
                            m1.buildings@[b as int].faces@[f]@,
                        ) by {
                            assert(m1.table()[k] == m0.table()[k]);
                        }
                    }
                    assert(m1.index_coherent()) by {
                        assert forall|i: int| 0 <= i < m1.index@.len() implies m1.index_entry_ok(
                            #[trigger] m1.index@[i],
                        ) by {
                            let e = m1.index@[i];
                            assert(m1.index@.contains(e));
                            assert(m0.index@.contains(e) && e.0 != ProjectKind::Lot(id));
                            let j = choose|j: int|
                                0 <= j < m0.index@.len() && #[trigger] m0.index@[j] == e;
                            assert(m0.index_entry_ok(e));
                            match e.0 {
                                ProjectKind::Lot(id2) => {
                                    assert(id2 != id);
                                    assert(m1.table()[id2] == m0.table()[id2]);
                                },
                                _ => {},
                            }
                        }
                        assert forall|k: u64| #[trigger] m1.table().dom().contains(k) implies
                            contains_key(m1.index@, ProjectKind::Lot(k)) by {
                            assert(m0.table().dom().contains(k) && k != id);
                            assert(contains_key(m0.index@, ProjectKind::Lot(k)));
                            crate::spatial::lemma_contains_key_carries(m0.index@, m1.index@, ProjectKind::Lot(k));
                        }
                        assert forall|r: usize|
                            r < m1.roads@.len() && m1.road_live@[r as int] implies #[trigger] contains_key(
                            m1.index@,
                            ProjectKind::Road(r),
                        ) by {
                            assert(contains_key(m0.index@, ProjectKind::Road(r)));
                            crate::spatial::lemma_contains_key_carries(m0.index@, m1.index@, ProjectKind::Road(r));
                        }
                        assert forall|jx: usize| jx < m1.inters@.len() implies #[trigger] contains_key(
                            m1.index@,
                            ProjectKind::Inter(jx),
                        ) by {
                            assert(contains_key(m0.index@, ProjectKind::Inter(jx)));
                            crate::spatial::lemma_contains_key_carries(m0.index@, m1.index@, ProjectKind::Inter(jx));
                        }
                        assert forall|b: usize| b < m1.buildings@.len() implies #[trigger] contains_key(
                            m1.index@,
                            ProjectKind::Building(b),
                        ) by {
                            assert(contains_key(m0.index@, ProjectKind::Building(b)));
                            crate::spatial::lemma_contains_key_carries(m0.index@, m1.index@, ProjectKind::Building(b));
                        }
                    }
                    assert(m1.ownership_coherent()) by {
                        assert forall|r: int| 0 <= r < m1.roads@.len() implies (
                        #[trigger] m1.road_lots@[r])@.no_duplicates() by {
                            if r != parent {
                                assert(m1.road_lots@[r] == m0.road_lots@[r]);
                            }
                        }
                        assert forall|r: int|
                            0 <= r < m1.roads@.len() && !m1.road_live@[r] implies (
                        #[trigger] m1.road_lots@[r])@.len() == 0 by {
                            if r == parent {
                                assert(m0.road_live@[parent as int]);
                            } else {
                                assert(m1.road_lots@[r] == m0.road_lots@[r]);
                            }
                        }
                        assert forall|r: int, p: int|
                            0 <= r < m1.roads@.len() && 0 <= p
                                < m1.road_lots@[r]@.len() implies m1.table().dom().contains(
                            #[trigger] m1.road_lots@[r]@[p],
                        ) && m1.table()[m1.road_lots@[r]@[p]].parent == r by {
                            let x = m1.road_lots@[r]@[p];
                            assert(m1.road_lots@[r]@.contains(x));
                            assert(m0.road_lots@[r]@.contains(x) && x != id);
                            let q = choose|q: int|
                                0 <= q < m0.road_lots@[r]@.len() && #[trigger] m0.road_lots@[r]@[q]
                                    == x;
                            assert(m0.table().dom().contains(x));
                            assert(m1.table()[x] == m0.table()[x]);
                        }
                        assert forall|k: u64| #[trigger] m1.table().dom().contains(k) implies
                            m1.road_lots@[m1.table()[k].parent as int]@.contains(k) by {
                            assert(m0.table().dom().contains(k) && k != id);
                            assert(m1.table()[k] == m0.table()[k]);
                            assert(m0.road_lots@[m0.table()[k].parent as int]@.contains(k));
                        }
                    }
                    assert(m1.wf_structure());
                }
            },
        }
    }

    /// Remove every parcel named in `ids` from all three stores.
    fn remove_all(&mut self, ids: &Vec<u64>)
        requires
            old(self).inv(),
            forall|x: u64| #[trigger] ids@.contains(x) ==> old(self).table().dom().contains(x),
        ensures
            final(self).inv(),
            unchanged_geometry(*old(self), *final(self)),
            forall|k: u64| #[trigger]
                final(self).table().dom().contains(k) <==> old(self).table().dom().contains(k)
                    && !ids@.contains(k),
            forall|k: u64| #[trigger]
                final(self).table().dom().contains(k) ==> final(self).table()[k] == old(self).table()[k],
            final(self).road_lots@.len() == old(self).road_lots@.len(),
            forall|r: int, x: u64|
                0 <= r < old(self).road_lots@.len() ==> (#[trigger] final(self).road_lots@[r]@.contains(x) <==> old(self).road_lots@[r]@.contains(x)
                    && !ids@.contains(x)),
            forall|e: (ProjectKind, Aabb)| #[trigger]
                final(self).index@.contains(e) <==> old(self).index@.contains(e) && match e.0 {
                    ProjectKind::Lot(x) => !ids@.contains(x),
                    _ => true,
                },
    {
        let ghost m0 = *old(self);
        let n = ids.len();
        let mut i: usize = 0;
        while i < n
            invariant
                0 <= i <= n,
                n == ids@.len(),
                self.inv(),
                unchanged_geometry(m0, *self),
                forall|k: u64| #[trigger]
                    self.table().dom().contains(k) <==> m0.table().dom().contains(k)
                        && !ids@.take(i as int).contains(k),
                forall|k: u64| #[trigger]
                    self.table().dom().contains(k) ==> self.table()[k] == m0.table()[k],
                self.road_lots@.len() == m0.road_lots@.len(),
                forall|r: int, x: u64|
                    0 <= r < m0.road_lots@.len() ==> (#[trigger] self.road_lots@[r]@.contains(x)
                        <==> m0.road_lots@[r]@.contains(x) && !ids@.take(i as int).contains(x)),
                forall|e: (ProjectKind, Aabb)| #[trigger]
                    self.index@.contains(e) <==> m0.index@.contains(e) && match e.0 {
                        ProjectKind::Lot(x) => !ids@.take(i as int).contains(x),
                        _ => true,
                    },
            decreases n - i,
        {
            let id = ids[i];
            proof {
                assert(ids@.contains(id));
                assert(lot_key_wf(id));
                assert forall|y: u64| #[trigger] ids@.take(i + 1).contains(y) implies ids@.take(
                    i as int,
                ).contains(y) || y == ids@[i as int] by {
                    let j = choose|j: int| 0 <= j < i + 1 && #[trigger] ids@.take(i + 1)[j] == y;
                    if j < i {
                        assert(ids@.take(i as int)[j] == y);
                    }
                }
                assert forall|y: u64|
                    ids@.take(i as int).contains(y) || y == ids@[i as int] implies #[trigger] ids@.take(
                    i + 1,
                ).contains(y) by {
                    if ids@.take(i as int).contains(y) {
                        let j = choose|j: int| 0 <= j < i && #[trigger] ids@.take(i as int)[j] == y;
                        assert(ids@.take(i + 1)[j] == y);
                    } else {
                        assert(ids@.take(i + 1)[i as int] == y);
                    }
                }
            }
            let ghost pre = *self;
            self.remove_lot_by_id(id);
            proof {
                assert forall|k: u64| #[trigger] self.table().dom().contains(k) implies
                    self.table()[k] == m0.table()[k] by {
                    assert(pre.table().dom().contains(k));
                }
            }
            i = i + 1;
        }
        proof {
            assert(ids@.take(n as int) =~= ids@);
        }
    }
}

impl WorldMap {
    /// Explicitly remove one parcel, if it is live: it leaves the
    /// collection, the spatial index and its owner's parcel list together.
    /// A stale or unknown identifier is a no-op.
    pub fn remove_parcel(&mut self, id: u64) -> (removed: bool)
        requires
            old(self).inv(),
        ensures
            final(self).inv(),
            unchanged_geometry(*old(self), *final(self)),
            removed == old(self).table().dom().contains(id),
            final(self).table() =~= old(self).table().remove(id),
            !contains_key(final(self).index@, ProjectKind::Lot(id)),
            forall|e: (ProjectKind, Aabb)| #[trigger]
                final(self).index@.contains(e) <==> old(self).index@.contains(e) && e.0
                    != ProjectKind::Lot(id),
            forall|r: int, x: u64|
                0 <= r < old(self).road_lots@.len() ==> (#[trigger] final(self).road_lots@[r]@.contains(x) <==> old(self).road_lots@[r]@.contains(x) && x
                    != id),
    {
        if (id >> 32) & 1 == 1 {
            let was_there = match crate::lots::lots_get(&self.lots, id) {
                Some(_) => true,
                None => false,
            };
            self.remove_lot_by_id(id);
            proof {
                if contains_key(self.index@, ProjectKind::Lot(id)) {
                    let e = choose|e: int|
                        0 <= e < self.index@.len() && #[trigger] self.index@[e].0
                            == ProjectKind::Lot(id);
                    assert(self.index@.contains(self.index@[e]));
                    assert(false);
                }
            }
            was_there
        } else {
            proof {
                if self.table().dom().contains(id) {
                    assert(lot_key_wf(id));
                }
                assert(self.table() =~= self.table().remove(id));
                if contains_key(self.index@, ProjectKind::Lot(id)) {
                    let e = choose|e: int|
                        0 <= e < self.index@.len() && #[trigger] self.index@[e].0
                            == ProjectKind::Lot(id);
                    assert(self.index_entry_ok(self.index@[e]));
                    assert(false);
                }
                assert forall|e: (ProjectKind, Aabb)| #[trigger] self.index@.contains(e) implies
                    e.0 != ProjectKind::Lot(id) by {
                    let j = choose|j: int|
                        0 <= j < self.index@.len() && #[trigger] self.index@[j] == e;
                    if e.0 == ProjectKind::Lot(id) {
                        assert(self.index@[j].0 == ProjectKind::Lot(id));
                        assert(contains_key(self.index@, ProjectKind::Lot(id)));
                        assert(false);
                    }
                }
                assert forall|r: int, x: u64|
                    0 <= r < self.road_lots@.len() && #[trigger] self.road_lots@[r]@.contains(
                        x,
                    ) implies x != id by {
                    let p = choose|p: int|
                        0 <= p < self.road_lots@[r]@.len() && #[trigger] self.road_lots@[r]@[p]
                            == x;
                    assert(self.table().dom().contains(x));
                }
            }
            false
        }
    }
}

/// A parcel hit by a road's replacement geometry: its shape intersects
/// the new swept shape or one of the two terminal intersection polygons.
pub open spec fn retraction_hit(
    m: WorldMap,
    id: u64,
    swept: Seq<Vec2i>,
    src_poly: Seq<Vec2i>,
    dst_poly: Seq<Vec2i>,
) -> bool {
    m.table().dom().contains(id) && (polys_intersect(m.table()[id].shape@, swept)
        || polys_intersect(m.table()[id].shape@, src_poly) || polys_intersect(
        m.table()[id].shape@,
        dst_poly,
    ))
}

impl WorldMap {
    /// Retract every parcel invalidated by a road's replacement geometry:
    /// any parcel intersecting the new swept shape or either terminal
    /// intersection polygon leaves the collection, the index and its
    /// owner's parcel list. The three shapes are supplied by the caller:
    /// they belong to the road's *new* geometry, which is not part of the
    /// map yet (every registered shape is already clear of all parcels).
    /// The candidates are selected before any store is mutated, so the
    /// removals are independent of each other.
    pub fn remove_intersecting_parcels(
        &mut self,
        swept: &Polygon,
        src_polygon: &Polygon,
        dst_polygon: &Polygon,
    )
        requires
            old(self).inv(),
            input_poly_wf(swept@),
            input_poly_wf(src_polygon@),
            input_poly_wf(dst_polygon@),
        ensures
            final(self).inv(),
            unchanged_geometry(*old(self), *final(self)),
            forall|k: u64| #[trigger]
                final(self).table().dom().contains(k) <==> old(self).table().dom().contains(k)
                    && !retraction_hit(*old(self), k, swept@, src_polygon@, dst_polygon@),
            forall|k: u64| #[trigger]
                final(self).table().dom().contains(k) ==> final(self).table()[k] == old(self).table()[k],
            final(self).road_lots@.len() == old(self).road_lots@.len(),
            forall|r: int, x: u64|
                0 <= r < old(self).road_lots@.len() ==> (#[trigger] final(self).road_lots@[r]@.contains(x) <==> old(self).road_lots@[r]@.contains(x)
                    && !retraction_hit(*old(self), x, swept@, src_polygon@, dst_polygon@)),
            forall|e: (ProjectKind, Aabb)| #[trigger]
                final(self).index@.contains(e) <==> old(self).index@.contains(e) && match e.0 {
                    ProjectKind::Lot(x) => !retraction_hit(
                        *old(self),
                        x,
                        swept@,
                        src_polygon@,
                        dst_polygon@,
                    ),
                    _ => true,
                },
            forall|k: u64| #[trigger]
                final(self).table().dom().contains(k) ==> !polys_intersect(
                    final(self).table()[k].shape@,
                    swept@,
                ) && !polys_intersect(final(self).table()[k].shape@, src_polygon@)
                    && !polys_intersect(final(self).table()[k].shape@, dst_polygon@),
    {
        let ghost m0 = *self;
        let mut marked: Vec<u64> = Vec::new();
        self.collect_hitting(swept, &mut marked);
        self.collect_hitting(src_polygon, &mut marked);
        self.collect_hitting(dst_polygon, &mut marked);
        proof {
            assert forall|x: u64| #[trigger] marked@.contains(x) <==> retraction_hit(
                m0,
                x,
                swept@,
                src_polygon@,
                dst_polygon@,
            ) by {}
        }
        self.remove_all(&marked);
    }
}

impl WorldMap {
    /// Register an intersection record. Any parcel intersecting its polygon
    /// is retracted first, so parcel clearance still holds afterward.
    pub fn register_intersection(&mut self, polygon: Polygon) -> (j: usize)
        requires
            old(self).inv(),
            input_poly_wf(polygon@),
        ensures
            final(self).inv(),
            j == old(self).inters@.len(),
            final(self).inters@.len() == j + 1,
            final(self).inters@[j as int].polygon == polygon,
            forall|jx: int|
                0 <= jx < j ==> #[trigger] final(self).inters@[jx] == old(self).inters@[jx],
            final(self).roads == old(self).roads,
            final(self).road_live == old(self).road_live,
            final(self).road_lanes == old(self).road_lanes,
            final(self).lanes == old(self).lanes,
            final(self).buildings == old(self).buildings,
            final(self).terrain == old(self).terrain,
            forall|k: u64| #[trigger]
                final(self).table().dom().contains(k) <==> old(self).table().dom().contains(k)
                    && !polys_intersect(old(self).table()[k].shape@, polygon@),
            forall|k: u64| #[trigger]
                final(self).table().dom().contains(k) ==> final(self).table()[k] == old(self).table()[k],
        {
        let ghost m0 = *self;
        let mut marked: Vec<u64> = Vec::new();
        self.collect_hitting(&polygon, &mut marked);
        self.remove_all(&marked);
        let ghost mid = *self;
        let j = self.inters.len();
        let bb = polygon.bbox();
        self.inters.push(Intersection { polygon });
        proof {
            if contains_key(self.index@, ProjectKind::Inter(j)) {
                let e = choose|e: int|
                    0 <= e < self.index@.len() && #[trigger] self.index@[e].0 == ProjectKind::Inter(
                        j,
                    );
                assert(mid.index_entry_ok(self.index@[e]));
                assert(false);
            }
        }
        self.index.insert(ProjectKind::Inter(j), bb);
        let ghost m1 = *self;
        proof {
            assert(m1.inters@.drop_last() =~= mid.inters@);
            assert(forall|jx: int| 0 <= jx < j ==> #[trigger] m1.inters@[jx] == mid.inters@[jx]);
            lemma_reestablish_after_register(mid, m1, ProjectKind::Inter(j), bb);
            assert(m1.lots_clear()) by {
                assert forall|k: u64, jx: usize|
                    #![trigger m1.table()[k], m1.inters@[jx as int]]
                    m1.table().dom().contains(k) && jx < m1.inters@.len() implies !polys_intersect(
                    m1.table()[k].shape@,
                    m1.inters@[jx as int].polygon@,
                ) by {
                    if jx as int == j {
                        assert(!marked@.contains(k));
                        assert(mid.table().dom().contains(k));
                        assert(m0.table().dom().contains(k));
                    } else {
                        assert(m1.inters@[jx as int] == mid.inters@[jx as int]);
                        assert(mid.table()[k] == m1.table()[k]);
                    }
                }
            }
        }
        j
    }
}

/// After the geometric stores have grown by one record and the index by its
/// entry, everything except the clearance conjunct for the new record can be
/// carried over mechanically; this lemma does that carrying for the parts
/// that do not mention the new record's kind.
proof fn lemma_reestablish_after_register(mid: WorldMap, m1: WorldMap, key: ProjectKind, bb: Aabb)
    requires
        mid.inv(),
        m1.lots == mid.lots,
        m1.road_lots@.len() == m1.roads@.len(),
        m1.road_lanes@.len() == m1.roads@.len(),
        m1.road_live@.len() == m1.roads@.len(),
        forall|r: int| 0 <= r < mid.roads@.len() ==> #[trigger] m1.road_lots@[r] == mid.road_lots@[r],
        forall|r: int|
            0 <= r < mid.roads@.len() ==> #[trigger] m1.road_lanes@[r] == mid.road_lanes@[r],
        forall|r: int|
            0 <= r < mid.roads@.len() ==> #[trigger] m1.road_live@[r] == mid.road_live@[r],
        m1.index@ == mid.index@.push((key, bb)),
        m1.index_entry_ok((key, bb)),
        m1.roads@.len() >= mid.roads@.len(),
        m1.inters@.len() >= mid.inters@.len(),
        m1.buildings@.len() >= mid.buildings@.len(),
        m1.lanes == mid.lanes,
        forall|r: int| 0 <= r < mid.roads@.len() ==> #[trigger] m1.roads@[r] == mid.roads@[r],
        forall|jx: int| 0 <= jx < mid.inters@.len() ==> #[trigger] m1.inters@[jx] == mid.inters@[jx],
        forall|b: int|
            0 <= b < mid.buildings@.len() ==> #[trigger] m1.buildings@[b] == mid.buildings@[b],
        // the stores grow by at most the registered record
        m1.roads@.len() <= mid.roads@.len() + 1,
        m1.inters@.len() <= mid.inters@.len() + 1,
        m1.buildings@.len() <= mid.buildings@.len() + 1,
        m1.roads@.len() + m1.inters@.len() + m1.buildings@.len() == mid.roads@.len()
            + mid.inters@.len() + mid.buildings@.len() + 1,
        match key {
            ProjectKind::Road(r) => r == mid.roads@.len() && m1.roads@.len() == mid.roads@.len()
                + 1 && road_wf(m1.roads@[r as int], m1.inters@.len() as int)
                && m1.road_lots@[r as int]@.len() == 0 && m1.road_lanes@[r as int]@.len() == 0
                && m1.road_live@[r as int],
            ProjectKind::Inter(j) => j == mid.inters@.len() && m1.inters@.len()
                == mid.inters@.len() + 1 && input_poly_wf(m1.inters@[j as int].polygon@),
            ProjectKind::Building(b) => b == mid.buildings@.len() && m1.buildings@.len()
                == mid.buildings@.len() + 1 && building_wf(m1.buildings@[b as int]),
            _ => false,
        },
        match key {
            ProjectKind::Road(_) => true,
            _ => m1.roads == mid.roads && m1.road_live == mid.road_live && m1.road_lots
                == mid.road_lots && m1.road_lanes == mid.road_lanes,
        },
    ensures
        m1.wf_structure(),
        m1.lots_wf(),
        m1.lots_disjoint(),
        m1.index_coherent(),
        m1.ownership_coherent(),
        m1.table() == mid.table(),
    decreases 0int,
{
    assert(m1.table() == mid.table());
    assert(m1.wf_structure()) by {
        assert forall|r: int| 0 <= r < m1.roads@.len() implies road_wf(
            #[trigger] m1.roads@[r],
            m1.inters@.len() as int,
        ) by {
            if r < mid.roads@.len() {
                assert(m1.roads@[r] == mid.roads@[r]);
                assert(road_wf(mid.roads@[r], mid.inters@.len() as int));
            }
        }
        assert forall|jx: int| 0 <= jx < m1.inters@.len() implies input_poly_wf(
            #[trigger] m1.inters@[jx].polygon@,
        ) by {
            if jx < mid.inters@.len() {
                assert(m1.inters@[jx] == mid.inters@[jx]);
            }
        }
        assert forall|b: int| 0 <= b < m1.buildings@.len() implies building_wf(
            #[trigger] m1.buildings@[b],
        ) by {
            if b < mid.buildings@.len() {
                assert(m1.buildings@[b] == mid.buildings@[b]);
            }
        }
        assert forall|l: int| 0 <= l < m1.lanes@.len() implies lane_wf(
            #[trigger] m1.lanes@[l],
            m1.roads@.len() as int,
            m1.inters@.len() as int,
        ) by {
            assert(lane_wf(mid.lanes@[l], mid.roads@.len() as int, mid.inters@.len() as int));
        }
        assert forall|r: int, p: int|
            0 <= r < m1.roads@.len() && 0 <= p < m1.road_lanes@[r]@.len() implies (
        #[trigger] m1.road_lanes@[r]@[p]) < m1.lanes@.len()
            && m1.lanes@[m1.road_lanes@[r]@[p] as int].parent == r by {
            if r < mid.roads@.len() {
                assert(m1.road_lanes@[r] == mid.road_lanes@[r]);
                let li = mid.road_lanes@[r]@[p];
                assert(li < mid.lanes@.len() && mid.lanes@[li as int].parent == r);
            } else {
                match key {
                    ProjectKind::Road(rr) => {
                        assert(m1.road_lanes@[r]@.len() == 0 || true);
                    },
                    _ => {
                        assert(false);
                    },
                }
            }
        }
    }
    assert(m1.lots_wf()) by {
        assert forall|k: u64| #[trigger] m1.table().dom().contains(k) implies lot_key_wf(k)
            && m1.table()[k].parent < m1.roads@.len()
            && m1.road_live@[m1.table()[k].parent as int] && poly_wf(m1.table()[k].shape@) by {
            assert(mid.table().dom().contains(k));
            assert(mid.table()[k].parent < mid.roads@.len());
            let pr = mid.table()[k].parent as int;
            assert(m1.road_live@[pr] == mid.road_live@[pr]);
        }
    }
    assert(m1.index_coherent()) by {
        assert forall|i: int| 0 <= i < m1.index@.len() implies m1.index_entry_ok(
            #[trigger] m1.index@[i],
        ) by {
            if i < mid.index@.len() {
                assert(m1.index@[i] == mid.index@[i]);
                assert(mid.index_entry_ok(mid.index@[i]));
                match mid.index@[i].0 {
                    ProjectKind::Lot(id2) => {},
                    ProjectKind::Road(rr) => {
                        assert(m1.roads@[rr as int] == mid.roads@[rr as int]);
                        assert(m1.road_live@[rr as int] == mid.road_live@[rr as int]);
                    },
                    ProjectKind::Inter(jj) => {
                        assert(m1.inters@[jj as int] == mid.inters@[jj as int]);
                    },
                    ProjectKind::Building(bb2) => {
                        assert(m1.buildings@[bb2 as int] == mid.buildings@[bb2 as int]);
                    },
                    ProjectKind::Ground => {},
                }
            } else {
                assert(m1.index@[i] == (key, bb));
            }
        }
        assert forall|k: u64| #[trigger] m1.table().dom().contains(k) implies contains_key(
            m1.index@,
            ProjectKind::Lot(k),
        ) by {
            assert(contains_key(mid.index@, ProjectKind::Lot(k)));
            let e = choose|e: int|
                0 <= e < mid.index@.len() && #[trigger] mid.index@[e].0 == ProjectKind::Lot(k);
            assert(m1.index@[e].0 == ProjectKind::Lot(k));
        }
        assert forall|r: usize|
            r < m1.roads@.len() && m1.road_live@[r as int] implies #[trigger] contains_key(
            m1.index@,
            ProjectKind::Road(r),
        ) by {
            if r < mid.roads@.len() {
                assert(m1.road_live@[r as int] == mid.road_live@[r as int]);
                assert(contains_key(mid.index@, ProjectKind::Road(r)));
                let e = choose|e: int|
                    0 <= e < mid.index@.len() && #[trigger] mid.index@[e].0 == ProjectKind::Road(r);
                assert(m1.index@[e].0 == ProjectKind::Road(r));
            } else {
                assert(key == ProjectKind::Road(r));
                assert(m1.index@[m1.index@.len() - 1].0 == key);
            }
        }
        assert forall|jx: usize| jx < m1.inters@.len() implies #[trigger] contains_key(
            m1.index@,
            ProjectKind::Inter(jx),
        ) by {
            if jx < mid.inters@.len() {
                assert(contains_key(mid.index@, ProjectKind::Inter(jx)));
                let e = choose|e: int|
                    0 <= e < mid.index@.len() && #[trigger] mid.index@[e].0 == ProjectKind::Inter(
                        jx,
                    );
                assert(m1.index@[e].0 == ProjectKind::Inter(jx));
            } else {
                assert(key == ProjectKind::Inter(jx));
                assert(m1.index@[m1.index@.len() - 1].0 == key);
            }
        }
        assert forall|b: usize| b < m1.buildings@.len() implies #[trigger] contains_key(
            m1.index@,
            ProjectKind::Building(b),
        ) by {
            if b < mid.buildings@.len() {
                assert(contains_key(mid.index@, ProjectKind::Building(b)));
                let e = choose|e: int|
                    0 <= e < mid.index@.len() && #[trigger] mid.index@[e].0
                        == ProjectKind::Building(b);
                assert(m1.index@[e].0 == ProjectKind::Building(b));
            } else {
                assert(key == ProjectKind::Building(b));
                assert(m1.index@[m1.index@.len() - 1].0 == key);
            }
        }
        assert(m1.index.wf()) by {
            assert forall|i: int, jj: int| 0 <= i < jj < m1.index@.len() implies #[trigger] m1.index@[i].0
                != #[trigger] m1.index@[jj].0 by {
                if jj < mid.index@.len() {
                } else {
                    assert(m1.index@[jj] == (key, bb));
                    if m1.index@[i].0 == key {
                        assert(mid.index_entry_ok(mid.index@[i]));
                        assert(false);
                    }
                }
            }
        }
    }
    assert(m1.ownership_coherent()) by {
        assert forall|r: int| 0 <= r < m1.roads@.len() implies (
        #[trigger] m1.road_lots@[r])@.no_duplicates() by {
            if r < mid.roads@.len() {
                assert(m1.road_lots@[r] == mid.road_lots@[r]);
            } else {
                assert(m1.road_lots@[r]@.len() == 0);
            }
        }
        assert forall|r: int|
            0 <= r < m1.roads@.len() && !m1.road_live@[r] implies (
        #[trigger] m1.road_lots@[r])@.len() == 0 by {
            if r < mid.roads@.len() {
                assert(m1.road_lots@[r] == mid.road_lots@[r]);
                assert(m1.road_live@[r] == mid.road_live@[r]);
            } else {
                assert(m1.road_lots@[r]@.len() == 0);
            }
        }
        assert forall|r: int, p: int|
            0 <= r < m1.roads@.len() && 0 <= p
                < m1.road_lots@[r]@.len() implies m1.table().dom().contains(
            #[trigger] m1.road_lots@[r]@[p],
        ) && m1.table()[m1.road_lots@[r]@[p]].parent == r by {
            if r < mid.roads@.len() {
                assert(m1.road_lots@[r] == mid.road_lots@[r]);
                assert(mid.table().dom().contains(mid.road_lots@[r]@[p]));
            } else {
                assert(m1.road_lots@[r]@.len() == 0);
            }
        }
        assert forall|k: u64| #[trigger] m1.table().dom().contains(k) implies
            m1.road_lots@[m1.table()[k].parent as int]@.contains(k) by {
            assert(mid.table().dom().contains(k));
            assert(mid.road_lots@[mid.table()[k].parent as int]@.contains(k));
            assert(mid.table()[k].parent < mid.roads@.len());
            assert(m1.road_lots@[mid.table()[k].parent as int]
                == mid.road_lots@[mid.table()[k].parent as int]);
        }
    }
}

/// Componentwise union of two boxes.
pub fn box_union(a: &Aabb, b: &Aabb) -> (r: Aabb)
    ensures
        r.min.x == if a.min.x <= b.min.x { a.min.x } else { b.min.x },
        r.min.y == if a.min.y <= b.min.y { a.min.y } else { b.min.y },
        r.max.x == if a.max.x >= b.max.x { a.max.x } else { b.max.x },
        r.max.y == if a.max.y >= b.max.y { a.max.y } else { b.max.y },
{
    Aabb {
        min: Vec2i {
            x: if a.min.x <= b.min.x { a.min.x } else { b.min.x },
            y: if a.min.y <= b.min.y { a.min.y } else { b.min.y },
        },
        max: Vec2i {
            x: if a.max.x >= b.max.x { a.max.x } else { b.max.x },
            y: if a.max.y >= b.max.y { a.max.y } else { b.max.y },
        },
    }
}

impl WorldMap {
    /// Register a building record. Any parcel intersecting one of its face
    /// polygons is retracted first; the index entry's box covers every
    /// face.
    pub fn register_building(&mut self, faces: Vec<Polygon>) -> (b: usize)
        requires
            old(self).inv(),
            faces@.len() >= 1,
            forall|f: int| 0 <= f < faces@.len() ==> input_poly_wf(#[trigger] faces@[f]@),
        ensures
            final(self).inv(),
            b == old(self).buildings@.len(),
            final(self).buildings@.len() == b + 1,
            final(self).buildings@[b as int].faces == faces,
            final(self).roads == old(self).roads,
            final(self).road_live == old(self).road_live,
            final(self).inters == old(self).inters,
            final(self).lanes == old(self).lanes,
            final(self).terrain == old(self).terrain,
            forall|k: u64| #[trigger]
                final(self).table().dom().contains(k) <==> old(self).table().dom().contains(k)
                    && !(exists|f: int|
                    0 <= f < faces@.len() && polys_intersect(
                        old(self).table()[k].shape@,
                        #[trigger] faces@[f]@,
                    )),
            forall|k: u64| #[trigger]
                final(self).table().dom().contains(k) ==> final(self).table()[k] == old(self).table()[k],
    {
        let ghost m0 = *self;
        let mut marked: Vec<u64> = Vec::new();
        let nf = faces.len();
        let mut f: usize = 0;
        while f < nf
            invariant
                0 <= f <= nf,
                nf == faces@.len(),
                *self == m0,
                forall|x: u64| #[trigger] marked@.contains(x) <==> self.table().dom().contains(x)
                    && (exists|g: int|
                    0 <= g < f && polys_intersect(
                        self.table()[x].shape@,
                        #[trigger] faces@[g]@,
                    )),
            decreases nf - f,
        {
            let ghost pre = marked@;
            self.collect_hitting(&faces[f], &mut marked);
            proof {
                assert forall|x: u64| #[trigger] marked@.contains(x) implies
                    self.table().dom().contains(x) && (exists|g: int|
                    0 <= g < f + 1 && polys_intersect(
                        self.table()[x].shape@,
                        #[trigger] faces@[g]@,
                    )) by {
                    if pre.contains(x) {
                        let g = choose|g: int|
                            0 <= g < f && polys_intersect(
                                self.table()[x].shape@,
                                #[trigger] faces@[g]@,
                            );
                        assert(0 <= g < f + 1 && polys_intersect(
                            self.table()[x].shape@,
                            faces@[g]@,
                        ));
                    } else {
                        assert(polys_intersect(self.table()[x].shape@, faces@[f as int]@));
                    }
                }
                assert forall|x: u64|
                    self.table().dom().contains(x) && (exists|g: int|
                        0 <= g < f + 1 && polys_intersect(
                            self.table()[x].shape@,
                            #[trigger] faces@[g]@,
                        )) implies #[trigger] marked@.contains(x) by {
                    let g = choose|g: int|
                        0 <= g < f + 1 && polys_intersect(
                            self.table()[x].shape@,
                            #[trigger] faces@[g]@,
                        );
                    if g < f {
                        assert(pre.contains(x));
                    }
                }
            }
            f = f + 1;
        }
        self.remove_all(&marked);
        let ghost mid = *self;
        // the index entry's box: the union of the face boxes
        let mut bb = faces[0].bbox();
        let mut f2: usize = 1;
        proof {
            assert(box_covers(bb, faces@[0]@));
        }
        while f2 < nf
            invariant
                1 <= f2 <= nf,
                nf == faces@.len(),
                forall|g: int| 0 <= g < f2 ==> box_covers(bb, #[trigger] faces@[g]@),
            decreases nf - f2,
        {
            let fb = faces[f2].bbox();
            bb = box_union(&bb, &fb);
            proof {
                assert(box_covers(bb, faces@[f2 as int]@));
            }
            f2 = f2 + 1;
        }
        let b = self.buildings.len();
        self.buildings.push(Building { faces });
        proof {
            if contains_key(self.index@, ProjectKind::Building(b)) {
                let e = choose|e: int|
                    0 <= e < self.index@.len() && #[trigger] self.index@[e].0
                        == ProjectKind::Building(b);
                assert(mid.index_entry_ok(self.index@[e]));
                assert(false);
            }
        }
        self.index.insert(ProjectKind::Building(b), bb);
        let ghost m1 = *self;
        proof {
            assert(m1.buildings@.drop_last() =~= mid.buildings@);
            assert(forall|bx: int|
                0 <= bx < b ==> #[trigger] m1.buildings@[bx] == mid.buildings@[bx]);
            assert(m1.index_entry_ok((ProjectKind::Building(b), bb)));
            lemma_reestablish_after_register(mid, m1, ProjectKind::Building(b), bb);
            assert(m1.lots_clear()) by {
                assert forall|k: u64, bx: usize, fx: int|
                    #![trigger m1.table()[k], m1.buildings@[bx as int].faces@[fx]]
                    m1.table().dom().contains(k) && bx < m1.buildings@.len() && 0 <= fx
                        < m1.buildings@[bx as int].faces@.len() implies !polys_intersect(
                    m1.table()[k].shape@,
                    m1.buildings@[bx as int].faces@[fx]@,
                ) by {
                    if bx as int == b {
                        assert(!marked@.contains(k));
                        assert(mid.table().dom().contains(k));
                        assert(m0.table().dom().contains(k));
                    } else {
                        assert(m1.buildings@[bx as int] == mid.buildings@[bx as int]);
                        assert(mid.table()[k] == m1.table()[k]);
                    }
                }
            }
        }
        b
    }

    /// Register a road record, with no lanes and no parcels yet. Any parcel
    /// intersecting its swept shape is retracted first.
    pub fn register_road(&mut self, road: Road) -> (r: usize)
        requires
            old(self).inv(),
            road_wf(road, old(self).inters@.len() as int),
        ensures
            final(self).inv(),
            r == old(self).roads@.len(),
            final(self).roads@.len() == r + 1,
            final(self).roads@[r as int] == road,
            forall|rx: int| 0 <= rx < r ==> #[trigger] final(self).roads@[rx] == old(self).roads@[rx],
            final(self).road_live@ == old(self).road_live@.push(true),
            final(self).road_lots@.len() == r + 1,
            final(self).road_lots@[r as int]@.len() == 0,
            forall|rx: int, x: u64|
                0 <= rx < r ==> (#[trigger] final(self).road_lots@[rx]@.contains(x) <==> old(self).road_lots@[rx]@.contains(x) && !polys_intersect(
                    old(self).table()[x].shape@,
                    road.swept@,
                )),
            final(self).inters == old(self).inters,
            final(self).buildings == old(self).buildings,
            final(self).lanes == old(self).lanes,
            final(self).terrain == old(self).terrain,
            forall|k: u64| #[trigger]
                final(self).table().dom().contains(k) <==> old(self).table().dom().contains(k)
                    && !polys_intersect(old(self).table()[k].shape@, road.swept@),
            forall|k: u64| #[trigger]
                final(self).table().dom().contains(k) ==> final(self).table()[k] == old(self).table()[k],
    {
        let ghost m0 = *self;
        let mut marked: Vec<u64> = Vec::new();
        self.collect_hitting(&road.swept, &mut marked);
        self.remove_all(&marked);
        let ghost mid = *self;
        let r = self.roads.len();
        let bb = road.swept.bbox();
        self.roads.push(road);
        self.road_live.push(true);
        self.road_lots.push(Vec::new());
        self.road_lanes.push(Vec::new());
        proof {
            if contains_key(self.index@, ProjectKind::Road(r)) {
                let e = choose|e: int|
                    0 <= e < self.index@.len() && #[trigger] self.index@[e].0 == ProjectKind::Road(
                        r,
                    );
                assert(mid.index_entry_ok(self.index@[e]));
                assert(false);
            }
        }
        self.index.insert(ProjectKind::Road(r), bb);
        let ghost m1 = *self;
        proof {
            assert(m1.roads@.drop_last() =~= mid.roads@);
            assert(forall|rx: int| 0 <= rx < r ==> #[trigger] m1.roads@[rx] == mid.roads@[rx]);
            assert(forall|rx: int|
                0 <= rx < r ==> #[trigger] m1.road_lots@[rx] == mid.road_lots@[rx]);
            assert(forall|rx: int|
                0 <= rx < r ==> #[trigger] m1.road_lanes@[rx] == mid.road_lanes@[rx]);
            assert(forall|rx: int|
                0 <= rx < r ==> #[trigger] m1.road_live@[rx] == mid.road_live@[rx]);
            assert(m1.index_entry_ok((ProjectKind::Road(r), bb)));
            lemma_reestablish_after_register(mid, m1, ProjectKind::Road(r), bb);
            assert(m1.lots_clear()) by {
                assert forall|k: u64, rx: usize|
                    #![trigger m1.table()[k], m1.roads@[rx as int]]
                    m1.table().dom().contains(k) && rx < m1.roads@.len()
                        && m1.road_live@[rx as int] implies !polys_intersect(
                    m1.table()[k].shape@,
                    m1.roads@[rx as int].swept@,
                ) by {
                    if rx as int == r {
                        assert(!marked@.contains(k));
                        assert(mid.table().dom().contains(k));
                        assert(m0.table().dom().contains(k));
                    } else {
                        assert(m1.roads@[rx as int] == mid.roads@[rx as int]);
                        assert(mid.table()[k] == m1.table()[k]);
                    }
                }
            }
        }
        r
    }

    /// Register a lane of an existing road.
    pub fn register_lane(&mut self, lane: Lane) -> (l: usize)
        requires
            old(self).inv(),
            lane_wf(lane, old(self).roads@.len() as int, old(self).inters@.len() as int),
        ensures
            final(self).inv(),
            l == old(self).lanes@.len(),
            final(self).lanes@ == old(self).lanes@.push(lane),
            final(self).roads == old(self).roads,
            final(self).road_live == old(self).road_live,
            final(self).road_lots == old(self).road_lots,
            final(self).inters == old(self).inters,
            final(self).buildings == old(self).buildings,
            final(self).index == old(self).index,
            final(self).lots == old(self).lots,
            final(self).terrain == old(self).terrain,
            final(self).road_lanes@[lane.parent as int]@ == old(self).road_lanes@[lane.parent as int]@.push(
                l as usize,
            ),
            forall|rx: int|
                0 <= rx < old(self).roads@.len() && rx != lane.parent ==> #[trigger] final(self).road_lanes@[rx] == old(self).road_lanes@[rx],
    {
        let ghost m0 = *self;
        let l = self.lanes.len();
        let parent = lane.parent;
        self.lanes.push(lane);
        let mut nl = copy_ids(&self.road_lanes[parent]);
        nl.push(l);
        self.road_lanes.set(parent, nl);
        let ghost m1 = *self;
        proof {
            assert(m1.lanes@.drop_last() =~= m0.lanes@);
            assert(forall|lx: int| 0 <= lx < l ==> #[trigger] m1.lanes@[lx] == m0.lanes@[lx]);
            assert(m1.road_lanes@[parent as int]@ =~= m0.road_lanes@[parent as int]@.push(l));
            assert(m1.wf_structure()) by {
                assert forall|lx: int| 0 <= lx < m1.lanes@.len() implies lane_wf(
                    #[trigger] m1.lanes@[lx],
                    m1.roads@.len() as int,
                    m1.inters@.len() as int,
                ) by {
                    if lx < l {
                        assert(m1.lanes@[lx] == m0.lanes@[lx]);
                    } else {
                        assert(m1.lanes@[lx] == lane);
                    }
                }
                assert forall|rx: int, p: int|
                    0 <= rx < m1.roads@.len() && 0 <= p < m1.road_lanes@[rx]@.len() implies (
                #[trigger] m1.road_lanes@[rx]@[p]) < m1.lanes@.len()
                    && m1.lanes@[m1.road_lanes@[rx]@[p] as int].parent == rx by {
                    if rx == parent as int {
                        if p < m1.road_lanes@[rx]@.len() - 1 {
                            let li = m0.road_lanes@[rx]@[p];
                            assert(m1.road_lanes@[rx]@[p] == li);
                            assert(li < m0.lanes@.len() && m0.lanes@[li as int].parent == rx);
                            assert(m1.lanes@[li as int] == m0.lanes@[li as int]);
                        } else {
                            assert(m1.road_lanes@[rx]@[p] == l);
                            assert(m1.lanes@[l as int] == lane);
                        }
                    } else {
                        assert(m1.road_lanes@[rx] == m0.road_lanes@[rx]);
                        let li = m0.road_lanes@[rx]@[p];
                        assert(li < m0.lanes@.len() && m0.lanes@[li as int].parent == rx);
                        assert(m1.lanes@[li as int] == m0.lanes@[li as int]);
                    }
                }
            }
            assert(m1.lots_wf());
            assert(m1.lots_disjoint()) by {
                assert forall|k1: u64, k2: u64|
                    #![trigger m1.table()[k1], m1.table()[k2]]
                    m1.table().dom().contains(k1) && m1.table().dom().contains(k2) && k1
                        != k2 implies !polys_intersect(
                    m1.table()[k1].shape@,
                    m1.table()[k2].shape@,
                ) by {
                    assert(m0.table()[k1] == m1.table()[k1]);
                    assert(m0.table()[k2] == m1.table()[k2]);
                }
            }
            assert(m1.lots_clear()) by {
                assert forall|k: u64, rx: usize|
                    #![trigger m1.table()[k], m1.roads@[rx as int]]
                    m1.table().dom().contains(k) && rx < m1.roads@.len()
                        && m1.road_live@[rx as int] implies !polys_intersect(
                    m1.table()[k].shape@,
                    m1.roads@[rx as int].swept@,
                ) by {
                    assert(m0.table()[k] == m1.table()[k]);
                }
                assert forall|k: u64, jx: usize|
                    #![trigger m1.table()[k], m1.inters@[jx as int]]
                    m1.table().dom().contains(k) && jx < m1.inters@.len() implies !polys_intersect(
                    m1.table()[k].shape@,
                    m1.inters@[jx as int].polygon@,
                ) by {
                    assert(m0.table()[k] == m1.table()[k]);
                }
                assert forall|k: u64, bx: usize, fx: int|
                    #![trigger m1.table()[k], m1.buildings@[bx as int].faces@[fx]]
                    m1.table().dom().contains(k) && bx < m1.buildings@.len() && 0 <= fx
                        < m1.buildings@[bx as int].faces@.len() implies !polys_intersect(
                    m1.table()[k].shape@,
                    m1.buildings@[bx as int].faces@[fx]@,
                ) by {
                    assert(m0.table()[k] == m1.table()[k]);
                }
            }
            assert(m1.index_coherent()) by {
                assert forall|i: int| 0 <= i < m1.index@.len() implies m1.index_entry_ok(
                    #[trigger] m1.index@[i],
                ) by {
                    assert(m0.index_entry_ok(m0.index@[i]));
                }
            }
            assert(m1.ownership_coherent());
        }
        l
    }

    /// Remove a road and every parcel it owns from all stores; the road's
    /// record stays but is marked dead and leaves the index.
    pub fn unregister_road(&mut self, road: usize)
        requires
            old(self).inv(),
            road < old(self).roads@.len(),
            old(self).road_live@[road as int],
        ensures
            final(self).inv(),
            final(self).roads == old(self).roads,
            final(self).inters == old(self).inters,
            final(self).buildings == old(self).buildings,
            final(self).lanes == old(self).lanes,
            final(self).road_lanes == old(self).road_lanes,
            final(self).terrain == old(self).terrain,
            final(self).road_live@.len() == old(self).road_live@.len(),
            !final(self).road_live@[road as int],
            forall|rx: int|
                0 <= rx < old(self).road_live@.len() && rx != road ==> #[trigger] final(self).road_live@[rx] == old(self).road_live@[rx],
            forall|k: u64| #[trigger]
                final(self).table().dom().contains(k) <==> old(self).table().dom().contains(k)
                    && old(self).table()[k].parent != road,
            forall|k: u64| #[trigger]
                final(self).table().dom().contains(k) ==> final(self).table()[k] == old(self).table()[k],
            final(self).road_lots@.len() == old(self).road_lots@.len(),
            final(self).road_lots@[road as int]@.len() == 0,
            !contains_key(final(self).index@, ProjectKind::Road(road)),
            forall|k: u64|
                old(self).table().dom().contains(k) && old(self).table()[k].parent
                    == road ==> !#[trigger] contains_key(final(self).index@, ProjectKind::Lot(k)),
            forall|e: (ProjectKind, Aabb)| #[trigger]
                final(self).index@.contains(e) <==> old(self).index@.contains(e) && e.0
                    != ProjectKind::Road(road) && match e.0 {
                    ProjectKind::Lot(x) => !(old(self).table().dom().contains(x) && old(
                        self,
                    ).table()[x].parent == road),
                    _ => true,
                },
    {
        let ghost m0 = *self;
        let owned = copy_ids(&self.road_lots[road]);
        proof {
            assert forall|x: u64| #[trigger] owned@.contains(x) implies
                m0.table().dom().contains(x) && m0.table()[x].parent == road by {
                let p = choose|p: int| 0 <= p < owned@.len() && #[trigger] owned@[p] == x;
                assert(m0.road_lots@[road as int]@[p] == x);
            }
            assert forall|x: u64|
                m0.table().dom().contains(x) && m0.table()[x].parent == road implies #[trigger] owned@.contains(
                x,
            ) by {
                assert(m0.road_lots@[m0.table()[x].parent as int]@.contains(x));
            }
        }
        self.remove_all(&owned);
        let ghost mid = *self;
        self.road_lots.set(road, Vec::new());
        self.road_live.set(road, false);
        self.index.remove(ProjectKind::Road(road));
        let ghost m1 = *self;
        proof {
            assert forall|k: u64| #[trigger] m1.table().dom().contains(k) implies
                m0.table().dom().contains(k) && m0.table()[k].parent != road && m1.table()[k]
                == m0.table()[k] by {
                assert(mid.table().dom().contains(k));
                if m0.table()[k].parent == road {
                    assert(owned@.contains(k));
                    assert(false);
                }
            }
            assert forall|k: u64|
                m0.table().dom().contains(k) && m0.table()[k].parent != road implies #[trigger] m1.table().dom().contains(
                k,
            ) by {
                if owned@.contains(k) {
                    assert(false);
                }
            }
            assert(m1.lots_wf()) by {
                assert forall|k: u64| #[trigger] m1.table().dom().contains(k) implies lot_key_wf(k)
                    && m1.table()[k].parent < m1.roads@.len()
                    && m1.road_live@[m1.table()[k].parent as int] && poly_wf(
                    m1.table()[k].shape@,
                ) by {
                    assert(mid.table().dom().contains(k));
                    assert(m0.table()[k].parent != road);
                }
            }
            assert(m1.lots_disjoint()) by {
                assert forall|k1: u64, k2: u64|
                    #![trigger m1.table()[k1], m1.table()[k2]]
                    m1.table().dom().contains(k1) && m1.table().dom().contains(k2) && k1
                        != k2 implies !polys_intersect(
                    m1.table()[k1].shape@,
                    m1.table()[k2].shape@,
                ) by {
                    assert(mid.table().dom().contains(k1) && mid.table().dom().contains(k2));
                    assert(mid.table()[k1] == m1.table()[k1]);
                    assert(mid.table()[k2] == m1.table()[k2]);
                }
            }
            assert(m1.lots_clear()) by {
                assert forall|k: u64, rx: usize|
                    #![trigger m1.table()[k], m1.roads@[rx as int]]
                    m1.table().dom().contains(k) && rx < m1.roads@.len()
                        && m1.road_live@[rx as int] implies !polys_intersect(
                    m1.table()[k].shape@,
                    m1.roads@[rx as int].swept@,
                ) by {
                    assert(mid.table().dom().contains(k));
                    assert(mid.table()[k] == m1.table()[k]);
                    assert(mid.road_live@[rx as int]);
                }
                assert forall|k: u64, jx: usize|
                    #![trigger m1.table()[k], m1.inters@[jx as int]]
                    m1.table().dom().contains(k) && jx < m1.inters@.len() implies !polys_intersect(
                    m1.table()[k].shape@,
                    m1.inters@[jx as int].polygon@,
                ) by {
                    assert(mid.table().dom().contains(k));
                    assert(mid.table()[k] == m1.table()[k]);
                }
                assert forall|k: u64, bx: usize, fx: int|
                    #![trigger m1.table()[k], m1.buildings@[bx as int].faces@[fx]]
                    m1.table().dom().contains(k) && bx < m1.buildings@.len() && 0 <= fx
                        < m1.buildings@[bx as int].faces@.len() implies !polys_intersect(
                    m1.table()[k].shape@,
                    m1.buildings@[bx as int].faces@[fx]@,
                ) by {
                    assert(mid.table().dom().contains(k));
                    assert(mid.table()[k] == m1.table()[k]);
                }
            }
            assert(m1.index_coherent()) by {
                assert forall|i: int| 0 <= i < m1.index@.len() implies m1.index_entry_ok(
                    #[trigger] m1.index@[i],
                ) by {
                    let e = m1.index@[i];
                    assert(m1.index@.contains(e));
                    assert(mid.index@.contains(e) && e.0 != ProjectKind::Road(road));
                    let j = choose|j: int| 0 <= j < mid.index@.len() && #[trigger] mid.index@[j] == e;
                    assert(mid.index_entry_ok(e));
                    match e.0 {
                        ProjectKind::Lot(id2) => {
                            assert(mid.table()[id2] == m1.table()[id2]);
                        },
                        ProjectKind::Road(rr) => {
                            assert(rr != road);
                            assert(m1.road_live@[rr as int] == mid.road_live@[rr as int]);
                        },
                        _ => {},
                    }
                }
                assert forall|k: u64| #[trigger] m1.table().dom().contains(k) implies contains_key(
                    m1.index@,
                    ProjectKind::Lot(k),
                ) by {
                    assert(mid.table().dom().contains(k));
                    assert(contains_key(mid.index@, ProjectKind::Lot(k)));
                    let e = choose|e: int|
                        0 <= e < mid.index@.len() && #[trigger] mid.index@[e].0 == ProjectKind::Lot(
                            k,
                        );
                    assert(mid.index@.contains(mid.index@[e]));
                    assert(m1.index@.contains(mid.index@[e]));
                    let j = choose|j: int|
                        0 <= j < m1.index@.len() && #[trigger] m1.index@[j] == mid.index@[e];
                    assert(m1.index@[j].0 == ProjectKind::Lot(k));
                }
                assert forall|rx: usize|
                    rx < m1.roads@.len() && m1.road_live@[rx as int] implies #[trigger] contains_key(
                    m1.index@,
                    ProjectKind::Road(rx),
                ) by {
                    assert(rx != road);
                    assert(mid.road_live@[rx as int]);
                    assert(contains_key(mid.index@, ProjectKind::Road(rx)));
                    crate::spatial::lemma_contains_key_carries(mid.index@, m1.index@, ProjectKind::Road(rx));
                }
                assert forall|jx: usize| jx < m1.inters@.len() implies #[trigger] contains_key(
                    m1.index@,
                    ProjectKind::Inter(jx),
                ) by {
                    assert(contains_key(mid.index@, ProjectKind::Inter(jx)));
                    crate::spatial::lemma_contains_key_carries(mid.index@, m1.index@, ProjectKind::Inter(jx));
                }
                assert forall|bx: usize| bx < m1.buildings@.len() implies #[trigger] contains_key(
                    m1.index@,
                    ProjectKind::Building(bx),
                ) by {
                    assert(contains_key(mid.index@, ProjectKind::Building(bx)));
                    crate::spatial::lemma_contains_key_carries(mid.index@, m1.index@, ProjectKind::Building(bx));
                }
            }
            assert(m1.ownership_coherent()) by {
                assert forall|rx: int| 0 <= rx < m1.roads@.len() implies (
                #[trigger] m1.road_lots@[rx])@.no_duplicates() by {
                    if rx != road {
                        assert(m1.road_lots@[rx] == mid.road_lots@[rx]);
                    }
                }
                assert forall|rx: int|
                    0 <= rx < m1.roads@.len() && !m1.road_live@[rx] implies (
                #[trigger] m1.road_lots@[rx])@.len() == 0 by {
                    if rx != road {
                        assert(m1.road_lots@[rx] == mid.road_lots@[rx]);
                        assert(m1.road_live@[rx] == mid.road_live@[rx]);
                    }
                }
                assert forall|rx: int, p: int|
                    0 <= rx < m1.roads@.len() && 0 <= p
                        < m1.road_lots@[rx]@.len() implies m1.table().dom().contains(
                    #[trigger] m1.road_lots@[rx]@[p],
                ) && m1.table()[m1.road_lots@[rx]@[p]].parent == rx by {
                    assert(rx != road);
                    assert(m1.road_lots@[rx] == mid.road_lots@[rx]);
                    let x = mid.road_lots@[rx]@[p];
                    assert(mid.table().dom().contains(x));
                    assert(mid.table()[x] == m1.table()[x]);
                }
                assert forall|k: u64| #[trigger] m1.table().dom().contains(k) implies
                    m1.road_lots@[m1.table()[k].parent as int]@.contains(k) by {
                    assert(mid.table().dom().contains(k));
                    assert(mid.table()[k] == m1.table()[k]);
                    assert(mid.road_lots@[mid.table()[k].parent as int]@.contains(k));
                    assert(m1.table()[k].parent != road);
                    assert(m1.road_lots@[m1.table()[k].parent as int]
                        == mid.road_lots@[mid.table()[k].parent as int]);
                }
            }
            assert(m1.wf_structure());
            assert forall|k: u64|
                m0.table().dom().contains(k) && m0.table()[k].parent == road implies !#[trigger] contains_key(
                m1.index@,
                ProjectKind::Lot(k),
            ) by {
                if contains_key(m1.index@, ProjectKind::Lot(k)) {
                    let e = choose|e: int|
                        0 <= e < m1.index@.len() && #[trigger] m1.index@[e].0 == ProjectKind::Lot(
                            k,
                        );
                    assert(m1.index_entry_ok(m1.index@[e]));
                    assert(m1.table().dom().contains(k));
                    assert(false);
                }
            }
        }
    }
}

/// The anchor of a placement attempt: the walk position pushed one curb
/// margin (half the road width plus one) outward along the axis.
pub open spec fn frontage_anchor(pos: Vec2i, axis: Vec2i, width: i64) -> Vec2i {
    let l = vec_len(axis);
    let off = width / 2 + 1;
    Vec2i {
        x: (pos.x + div_trunc(axis.x * off, l)) as i64,
        y: (pos.y + div_trunc(axis.y * off, l)) as i64,
    }
}

pub fn frontage_anchor_ex(pos: Vec2i, axis: Vec2i, width: i64) -> (r: Vec2i)
    requires
        coord_ok(pos, COORD_LIMIT as int),
        coord_ok(axis, 2 * COORD_LIMIT as int),
        !(axis.x == 0 && axis.y == 0),
        0 <= width <= WIDTH_LIMIT,
    ensures
        r == frontage_anchor(pos, axis, width),
        coord_ok(r, ANCHOR_LIMIT as int),
{
    proof {
        lemma_vec_len_props(axis);
        lemma_mul_bound(axis.x as int, axis.x as int, 2097152, 2097152);
        lemma_mul_bound(axis.y as int, axis.y as int, 2097152, 2097152);
        lemma_square_nonneg(axis.x as int);
        lemma_square_nonneg(axis.y as int);
    }
    let l = isqrt(axis.x * axis.x + axis.y * axis.y);
    let off = width / 2 + 1;
    proof {
        lemma_mul_bound(axis.x as int, off as int, vec_len(axis), 2049);
        lemma_mul_bound(axis.y as int, off as int, vec_len(axis), 2049);
        lemma_div_trunc_bound((axis.x * off) as int, l as int, 2049);
        lemma_div_trunc_bound((axis.y * off) as int, l as int, 2049);
    }
    Vec2i { x: pos.x + div_t(axis.x * off, l), y: pos.y + div_t(axis.y * off, l) }
}

} // verus!
