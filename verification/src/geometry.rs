//! Exact integer 2-D geometry: points, axis-aligned boxes, convex polygons.
//!
//! All coordinates are `i64`. A polygon intersection test is the classical
//! separating-axis test, decided exactly in integer arithmetic; by definition
//! it only reports an intersection when the bounding boxes overlap, so the
//! coarse box filter used by the spatial index can never miss a hit.
//!
//! The separating-axis test equals geometric intersection only for convex
//! polygons. Nothing here requires convexity, so a caller who registers a
//! non-convex polygon gets the test's over-approximation: two disjoint
//! non-convex shapes may count as intersecting (placement turns more
//! cautious, retraction removes more), never the other way around for
//! convex ones.

use vstd::prelude::*;

verus! {

/// Largest magnitude accepted for coordinates handed in by callers.
pub const COORD_LIMIT: i64 = 1048576;

/// Largest magnitude a stored shape coordinate may reach; generous enough
/// that every product in the separating-axis test fits in an `i64`.
pub const SHAPE_LIMIT: i64 = 4194304;

#[derive(Clone, Copy, PartialEq, Eq, Structural, Debug)]
pub struct Vec2i {
    pub x: i64,
    pub y: i64,
}

#[derive(Clone, Copy, PartialEq, Eq, Structural, Debug)]
pub struct Aabb {
    pub min: Vec2i,
    pub max: Vec2i,
}

pub open spec fn coord_ok(v: Vec2i, bound: int) -> bool {
    -bound <= v.x <= bound && -bound <= v.y <= bound
}

/// Bound products `a*b` by the bounds of the factors.
pub proof fn lemma_mul_bound(a: int, b: int, m: int, n: int)
    by (nonlinear_arith)
    requires
        -m <= a <= m,
        -n <= b <= n,
        0 <= m,
        0 <= n,
    ensures
        -(m * n) <= a * b <= m * n,
        -(n * m) <= a * b <= n * m,
{
}

/// Signs of products follow the signs of the factors.
pub proof fn lemma_mul_sign(a: int, b: int)
    by (nonlinear_arith)
    ensures
        a >= 0 && b >= 0 ==> a * b >= 0,
        a <= 0 && b >= 0 ==> a * b <= 0,
{
}

/// Squares are never negative.
pub proof fn lemma_square_nonneg(a: int)
    by (nonlinear_arith)
    ensures
        0 <= a * a,
{
}

/// Strictly increasing squares on non-negative integers.
pub proof fn lemma_square_monotonic(a: int, b: int)
    by (nonlinear_arith)
    requires
        0 <= a < b,
    ensures
        a * a < b * b,
{
}

// ---------------------------------------------------------------------------
// min/max folds over integer sequences
// ---------------------------------------------------------------------------

pub open spec fn ints_min(s: Seq<int>) -> int
    recommends
        s.len() >= 1,
    decreases s.len(),
{
    if s.len() <= 1 {
        s[0]
    } else if ints_min(s.drop_last()) <= s.last() {
        ints_min(s.drop_last())
    } else {
        s.last()
    }
}

pub open spec fn ints_max(s: Seq<int>) -> int
    recommends
        s.len() >= 1,
    decreases s.len(),
{
    if s.len() <= 1 {
        s[0]
    } else if ints_max(s.drop_last()) >= s.last() {
        ints_max(s.drop_last())
    } else {
        s.last()
    }
}

// ---------------------------------------------------------------------------
// polygons
// ---------------------------------------------------------------------------

/// A polygon given by its vertices. The intersection predicate below is
/// exact for convex polygons; parcels, swept road shapes and building faces
/// are all stored in this form.
pub struct Polygon {
    pub pts: Vec<Vec2i>,
}

impl View for Polygon {
    type V = Seq<Vec2i>;

    open spec fn view(&self) -> Seq<Vec2i> {
        self.pts@
    }
}

impl Polygon {
    /// Well-formed: at least a triangle, coordinates within the shape bound.
    pub open spec fn wf(self) -> bool {
        poly_wf(self@)
    }
}

pub open spec fn poly_wf(s: Seq<Vec2i>) -> bool {
    s.len() >= 3 && forall|k: int| 0 <= k < s.len() ==> coord_ok(#[trigger] s[k], SHAPE_LIMIT as int)
}

pub open spec fn xs(s: Seq<Vec2i>) -> Seq<int> {
    s.map_values(|v: Vec2i| v.x as int)
}

pub open spec fn ys(s: Seq<Vec2i>) -> Seq<int> {
    s.map_values(|v: Vec2i| v.y as int)
}

pub open spec fn bb_min_x(s: Seq<Vec2i>) -> int {
    ints_min(xs(s))
}

pub open spec fn bb_max_x(s: Seq<Vec2i>) -> int {
    ints_max(xs(s))
}

pub open spec fn bb_min_y(s: Seq<Vec2i>) -> int {
    ints_min(ys(s))
}

pub open spec fn bb_max_y(s: Seq<Vec2i>) -> int {
    ints_max(ys(s))
}

/// `bb` is the bounding box of the vertex set `s`.
pub open spec fn bbox_eq(bb: Aabb, s: Seq<Vec2i>) -> bool {
    bb.min.x == bb_min_x(s) && bb.max.x == bb_max_x(s) && bb.min.y == bb_min_y(s) && bb.max.y
        == bb_max_y(s)
}

pub open spec fn boxes_overlap(a: Aabb, b: Aabb) -> bool {
    a.min.x <= b.max.x && b.min.x <= a.max.x && a.min.y <= b.max.y && b.min.y <= a.max.y
}

/// Bounding boxes of the two vertex sets overlap.
pub open spec fn poly_boxes_overlap(a: Seq<Vec2i>, b: Seq<Vec2i>) -> bool {
    bb_min_x(a) <= bb_max_x(b) && bb_min_x(b) <= bb_max_x(a) && bb_min_y(a) <= bb_max_y(b)
        && bb_min_y(b) <= bb_max_y(a)
}

/// Dot product of the axis `(nx, ny)` with vertex `v`.
pub open spec fn dot_axis(nx: int, ny: int, v: Vec2i) -> int {
    nx * v.x + ny * v.y
}

/// Outward normal of edge `i` of the polygon (edges wrap around).
pub open spec fn edge_normal(s: Seq<Vec2i>, i: int) -> (int, int)
    recommends
        0 <= i < s.len(),
{
    let p = s[i];
    let q = s[if i + 1 == s.len() { 0int } else { i + 1 }];
    (-((q.y - p.y) as int), (q.x - p.x) as int)
}

/// Every projection of `a` onto the axis lies strictly below every
/// projection of `b`.
pub open spec fn all_below(nx: int, ny: int, a: Seq<Vec2i>, b: Seq<Vec2i>) -> bool {
    forall|k: int, j: int|
        0 <= k < a.len() && 0 <= j < b.len() ==> #[trigger] dot_axis(nx, ny, a[k])
            < #[trigger] dot_axis(nx, ny, b[j])
}

/// The axis separates the two vertex sets.
pub open spec fn axis_separates(nx: int, ny: int, a: Seq<Vec2i>, b: Seq<Vec2i>) -> bool {
    all_below(nx, ny, a, b) || all_below(nx, ny, b, a)
}

/// Some edge of `a` yields a separating axis.
pub open spec fn edges_separate(a: Seq<Vec2i>, b: Seq<Vec2i>) -> bool {
    exists|i: int|
        0 <= i < a.len() && #[trigger] axis_separates(
            edge_normal(a, i).0,
            edge_normal(a, i).1,
            a,
            b,
        )
}

/// The polygon intersection predicate of this crate: bounding boxes overlap
/// and no edge of either polygon provides a separating axis. For convex
/// polygons this is exactly geometric intersection.
pub open spec fn polys_intersect(a: Seq<Vec2i>, b: Seq<Vec2i>) -> bool {
    poly_boxes_overlap(a, b) && !edges_separate(a, b) && !edges_separate(b, a)
}

/// The predicate is symmetric in its two arguments.
pub proof fn lemma_intersect_symmetric(a: Seq<Vec2i>, b: Seq<Vec2i>)
    ensures
        polys_intersect(a, b) == polys_intersect(b, a),
{
}

// ---------------------------------------------------------------------------
// executable computations
// ---------------------------------------------------------------------------

impl Polygon {
    /// Bounding box of this polygon's vertices.
    pub fn bbox(&self) -> (bb: Aabb)
        requires
            self@.len() >= 1,
        ensures
            bbox_eq(bb, self@),
    {
        let first = self.pts[0];
        let mut lo_x: i64 = first.x;
        let mut hi_x: i64 = first.x;
        let mut lo_y: i64 = first.y;
        let mut hi_y: i64 = first.y;
        let n = self.pts.len();
        let mut i: usize = 1;
        while i < n
            invariant
                1 <= i <= n,
                n == self@.len(),
                lo_x == bb_min_x(self@.take(i as int)),
                hi_x == bb_max_x(self@.take(i as int)),
                lo_y == bb_min_y(self@.take(i as int)),
                hi_y == bb_max_y(self@.take(i as int)),
            decreases n - i,
        {
            let v = self.pts[i];
            proof {
                assert(xs(self@.take(i + 1)).drop_last() =~= xs(self@.take(i as int)));
                assert(ys(self@.take(i + 1)).drop_last() =~= ys(self@.take(i as int)));
                assert(xs(self@.take(i + 1)).last() == v.x as int);
                assert(ys(self@.take(i + 1)).last() == v.y as int);
            }
            if v.x < lo_x {
                lo_x = v.x;
            }
            if v.x > hi_x {
                hi_x = v.x;
            }
            if v.y < lo_y {
                lo_y = v.y;
            }
            if v.y > hi_y {
                hi_y = v.y;
            }
            i = i + 1;
        }
        proof {
            assert(self@.take(n as int) =~= self@);
        }
        Aabb { min: Vec2i { x: lo_x, y: lo_y }, max: Vec2i { x: hi_x, y: hi_y } }
    }
}

pub fn boxes_overlap_ex(a: &Aabb, b: &Aabb) -> (r: bool)
    ensures
        r == boxes_overlap(*a, *b),
{
    a.min.x <= b.max.x && b.min.x <= a.max.x && a.min.y <= b.max.y && b.min.y <= a.max.y
}

/// Smallest and largest projection of the polygon's vertices onto an axis.
fn dot_range(p: &Polygon, nx: i64, ny: i64) -> (r: (i64, i64))
    requires
        p@.len() >= 1,
        forall|k: int| 0 <= k < p@.len() ==> coord_ok(#[trigger] p@[k], SHAPE_LIMIT as int),
        -2 * SHAPE_LIMIT <= nx <= 2 * SHAPE_LIMIT,
        -2 * SHAPE_LIMIT <= ny <= 2 * SHAPE_LIMIT,
    ensures
        forall|k: int| 0 <= k < p@.len() ==> r.0 <= #[trigger] dot_axis(nx as int, ny as int, p@[k]) <= r.1,
        exists|k: int| 0 <= k < p@.len() && #[trigger] dot_axis(nx as int, ny as int, p@[k]) == r.0,
        exists|k: int| 0 <= k < p@.len() && #[trigger] dot_axis(nx as int, ny as int, p@[k]) == r.1,
{
    let n = p.pts.len();
    proof {
        lemma_mul_bound(nx as int, p@[0].x as int, 2 * SHAPE_LIMIT as int, SHAPE_LIMIT as int);
        lemma_mul_bound(ny as int, p@[0].y as int, 2 * SHAPE_LIMIT as int, SHAPE_LIMIT as int);
    }
    let first = p.pts[0];
    let d0 = nx * first.x + ny * first.y;
    assert(dot_axis(nx as int, ny as int, p@[0]) == d0);
    let mut lo: i64 = d0;
    let mut hi: i64 = d0;
    let mut i: usize = 1;
    while i < n
        invariant
            1 <= i <= n,
            n == p@.len(),
            forall|k: int| 0 <= k < p@.len() ==> coord_ok(#[trigger] p@[k], SHAPE_LIMIT as int),
            -2 * SHAPE_LIMIT <= nx <= 2 * SHAPE_LIMIT,
            -2 * SHAPE_LIMIT <= ny <= 2 * SHAPE_LIMIT,
            forall|k: int| 0 <= k < i ==> lo <= #[trigger] dot_axis(nx as int, ny as int, p@[k]) <= hi,
            exists|k: int| 0 <= k < i && #[trigger] dot_axis(nx as int, ny as int, p@[k]) == lo,
            exists|k: int| 0 <= k < i && #[trigger] dot_axis(nx as int, ny as int, p@[k]) == hi,
        decreases n - i,
    {
        let v = p.pts[i];
        proof {
            lemma_mul_bound(nx as int, v.x as int, 2 * SHAPE_LIMIT as int, SHAPE_LIMIT as int);
            lemma_mul_bound(ny as int, v.y as int, 2 * SHAPE_LIMIT as int, SHAPE_LIMIT as int);
        }
        let d = nx * v.x + ny * v.y;
        assert(dot_axis(nx as int, ny as int, p@[i as int]) == d);
        if d < lo {
            lo = d;
        }
        if d > hi {
            hi = d;
        }
        i = i + 1;
    }
    (lo, hi)
}

/// True when some edge of `a` yields an axis separating `a` from `b`.
fn edges_separate_ex(a: &Polygon, b: &Polygon) -> (r: bool)
    requires
        a.wf(),
        b.wf(),
    ensures
        r == edges_separate(a@, b@),
{
    let n = a.pts.len();
    let mut i: usize = 0;
    while i < n
        invariant
            0 <= i <= n,
            n == a@.len(),
            a.wf(),
            b.wf(),
            forall|j: int|
                0 <= j < i ==> !#[trigger] axis_separates(
                    edge_normal(a@, j).0,
                    edge_normal(a@, j).1,
                    a@,
                    b@,
                ),
        decreases n - i,
    {
        let p = a.pts[i];
        let q = if i + 1 == n {
            a.pts[0]
        } else {
            a.pts[i + 1]
        };
        let nx = -(q.y - p.y);
        let ny = q.x - p.x;
        assert(nx as int == edge_normal(a@, i as int).0);
        assert(ny as int == edge_normal(a@, i as int).1);
        let (lo_a, hi_a) = dot_range(a, nx, ny);
        let (lo_b, hi_b) = dot_range(b, nx, ny);
        if hi_a < lo_b || hi_b < lo_a {
            proof {
                if hi_a < lo_b {
                    assert(all_below(nx as int, ny as int, a@, b@));
                } else {
                    assert(all_below(nx as int, ny as int, b@, a@));
                }
                assert(axis_separates(
                    edge_normal(a@, i as int).0,
                    edge_normal(a@, i as int).1,
                    a@,
                    b@,
                ));
            }
            return true;
        }
        proof {
            let witness_a = choose|k: int|
                0 <= k < a@.len() && #[trigger] dot_axis(nx as int, ny as int, a@[k]) == hi_a;
            let witness_b = choose|k: int|
                0 <= k < b@.len() && #[trigger] dot_axis(nx as int, ny as int, b@[k]) == hi_b;
            assert(!all_below(nx as int, ny as int, a@, b@)) by {
                let k0 = choose|k: int|
                    0 <= k < b@.len() && #[trigger] dot_axis(nx as int, ny as int, b@[k]) == lo_b;
                assert(dot_axis(nx as int, ny as int, a@[witness_a]) >= dot_axis(
                    nx as int,
                    ny as int,
                    b@[k0],
                ));
            }
            assert(!all_below(nx as int, ny as int, b@, a@)) by {
                let k1 = choose|k: int|
                    0 <= k < a@.len() && #[trigger] dot_axis(nx as int, ny as int, a@[k]) == lo_a;
                assert(dot_axis(nx as int, ny as int, b@[witness_b]) >= dot_axis(
                    nx as int,
                    ny as int,
                    a@[k1],
                ));
            }
            assert(!axis_separates(
                edge_normal(a@, i as int).0,
                edge_normal(a@, i as int).1,
                a@,
                b@,
            ));
        }
        i = i + 1;
    }
    false
}

/// Exact intersection test between two well-formed polygons.
pub fn polys_intersect_ex(a: &Polygon, b: &Polygon) -> (r: bool)
    requires
        a.wf(),
        b.wf(),
    ensures
        r == polys_intersect(a@, b@),
{
    let bb_a = a.bbox();
    let bb_b = b.bbox();
    if !boxes_overlap_ex(&bb_a, &bb_b) {
        return false;
    }
    if edges_separate_ex(a, b) {
        return false;
    }
    if edges_separate_ex(b, a) {
        return false;
    }
    true
}

} // verus!
