//! Polylines with exact integer arc-length stepping.
//!
//! A road's generated centerline is a polyline. The length of a segment is
//! the integer square root of its squared Euclidean length, and walking a
//! distance `d` along the polyline interpolates within the segment that
//! contains `d`, with truncating division. Both operations have spec-level
//! mirrors, so everything built on the walk is a mathematical function of
//! the polyline and the distance.

use vstd::prelude::*;
use crate::geometry::{coord_ok, lemma_mul_bound, lemma_mul_sign, lemma_square_monotonic, lemma_square_nonneg, Vec2i, COORD_LIMIT};

verus! {

/// Cap on the number of polyline vertices, so arc lengths stay small.
pub const MAX_POLYLINE_PTS: usize = 4096;

/// Upper bound (exclusive) of any single segment length.
pub const MAX_SEG_LEN: i64 = 4194304;

// ---------------------------------------------------------------------------
// integer square root
// ---------------------------------------------------------------------------

pub open spec fn isqrt_spec(n: int) -> int
    decreases n,
{
    if n < 1 {
        0
    } else {
        let r = isqrt_spec(n - 1);
        if (r + 1) * (r + 1) <= n {
            r + 1
        } else {
            r
        }
    }
}

pub proof fn lemma_isqrt_props(n: int)
    requires
        0 <= n,
    ensures
        0 <= isqrt_spec(n),
        isqrt_spec(n) * isqrt_spec(n) <= n,
        n < (isqrt_spec(n) + 1) * (isqrt_spec(n) + 1),
    decreases n,
{
    if n == 0 {
    } else {
        lemma_isqrt_props(n - 1);
        let r = isqrt_spec(n - 1);
        if (r + 1) * (r + 1) <= n {
            // n - 1 < (r + 1) * (r + 1) <= n, so n == (r + 1) * (r + 1)
            assert(n == (r + 1) * (r + 1));
            lemma_square_monotonic(r + 1, r + 2);
        }
    }
}

pub proof fn lemma_isqrt_unique(n: int, r: int)
    requires
        0 <= r,
        r * r <= n,
        n < (r + 1) * (r + 1),
    ensures
        r == isqrt_spec(n),
{
    lemma_isqrt_props(n);
    let q = isqrt_spec(n);
    if r < q {
        if r + 1 < q {
            lemma_square_monotonic(r + 1, q);
        }
        assert((r + 1) * (r + 1) <= q * q);
        assert(false);
    }
    if q < r {
        if q + 1 < r {
            lemma_square_monotonic(q + 1, r);
        }
        assert((q + 1) * (q + 1) <= r * r);
        assert(false);
    }
}

/// Integer square root by binary search.
pub fn isqrt(n: i64) -> (r: i64)
    requires
        0 <= n < 0x4000000000000,
    ensures
        0 <= r < 0x2000000,
        r * r <= n,
        n < (r + 1) * (r + 1),
        r == isqrt_spec(n as int),
{
    let mut lo: i64 = 0;
    let mut hi: i64 = 0x2000000;
    proof {
        lemma_mul_bound(hi as int, hi as int, 0x2000000, 0x2000000);
    }
    while hi - lo > 1
        invariant
            0 <= lo < hi <= 0x2000000,
            lo * lo <= n,
            n < hi * hi,
        decreases hi - lo,
    {
        let mid = lo + (hi - lo) / 2;
        proof {
            lemma_mul_bound(mid as int, mid as int, 0x2000000, 0x2000000);
        }
        if mid * mid <= n {
            lo = mid;
        } else {
            hi = mid;
        }
    }
    proof {
        assert(hi == lo + 1);
        lemma_isqrt_unique(n as int, lo as int);
    }
    lo
}

// ---------------------------------------------------------------------------
// truncating division
// ---------------------------------------------------------------------------

/// Division truncating toward zero, as Rust's `/` computes it.
pub open spec fn div_trunc(a: int, b: int) -> int
    recommends
        b >= 1,
{
    if a >= 0 {
        a / b
    } else {
        -((-a) / b)
    }
}

/// A quotient of non-negative integers is at most the numerator.
pub proof fn lemma_div_le_self(num: int, l: int)
    by (nonlinear_arith)
    requires
        l >= 1,
        0 <= num,
    ensures
        0 <= num / l <= num,
{
}

/// Quotients of non-negative integers stay within multiples of the divisor.
pub proof fn lemma_div_bound(num: int, l: int, m: int)
    by (nonlinear_arith)
    requires
        l >= 1,
        0 <= num,
        num <= m * l,
    ensures
        0 <= num / l <= m,
{
}

/// `div_trunc` keeps the sign of the numerator and its magnitude is at most
/// `m` whenever `|num| <= m * l`.
pub proof fn lemma_div_trunc_bound(num: int, l: int, m: int)
    requires
        l >= 1,
        0 <= m,
        -(m * l) <= num <= m * l,
    ensures
        -m <= div_trunc(num, l) <= m,
        num >= 0 ==> div_trunc(num, l) >= 0,
        num <= 0 ==> div_trunc(num, l) <= 0,
{
    if num >= 0 {
        lemma_div_bound(num, l, m);
    } else {
        lemma_div_bound(-num, l, m);
    }
}

/// Truncating division on machine integers.
pub fn div_t(a: i64, b: i64) -> (r: i64)
    requires
        1 <= b,
        -0x4000000000000000 <= a <= 0x4000000000000000,
    ensures
        r == div_trunc(a as int, b as int),
{
    if a >= 0 {
        let q = (a as u64) / (b as u64);
        proof {
            lemma_div_le_self(a as int, b as int);
        }
        q as i64
    } else {
        let q = ((-a) as u64) / (b as u64);
        proof {
            lemma_div_le_self(-(a as int), b as int);
        }
        -(q as i64)
    }
}

// ---------------------------------------------------------------------------
// polylines
// ---------------------------------------------------------------------------

pub struct Polyline {
    pub pts: Vec<Vec2i>,
}

impl View for Polyline {
    type V = Seq<Vec2i>;

    open spec fn view(&self) -> Seq<Vec2i> {
        self.pts@
    }
}

pub open spec fn polyline_wf(s: Seq<Vec2i>) -> bool {
    &&& 2 <= s.len() <= MAX_POLYLINE_PTS
    &&& forall|k: int| 0 <= k < s.len() ==> coord_ok(#[trigger] s[k], COORD_LIMIT as int)
    &&& forall|k: int| 0 <= k < s.len() - 1 ==> #[trigger] s[k] != s[k + 1]
}

impl Polyline {
    pub open spec fn wf(self) -> bool {
        polyline_wf(self@)
    }
}

/// Squared Euclidean length of the segment from `a` to `b`.
pub open spec fn seg_sq(a: Vec2i, b: Vec2i) -> int {
    (b.x - a.x) * (b.x - a.x) + (b.y - a.y) * (b.y - a.y)
}

/// Integer length of the segment from `a` to `b`.
pub open spec fn seg_len(a: Vec2i, b: Vec2i) -> int {
    isqrt_spec(seg_sq(a, b))
}

pub proof fn lemma_seg_len_bounds(a: Vec2i, b: Vec2i)
    requires
        coord_ok(a, COORD_LIMIT as int),
        coord_ok(b, COORD_LIMIT as int),
    ensures
        0 <= seg_len(a, b) < MAX_SEG_LEN,
        a != b ==> 1 <= seg_len(a, b),
        seg_sq(a, b) < 0x4000000000000,
{
    lemma_mul_bound(b.x - a.x, b.x - a.x, 2097152, 2097152);
    lemma_mul_bound(b.y - a.y, b.y - a.y, 2097152, 2097152);
    lemma_square_nonneg(b.x - a.x);
    lemma_square_nonneg(b.y - a.y);
    lemma_isqrt_props(seg_sq(a, b));
    assert(seg_sq(a, b) <= 0x80000000000);
    if seg_len(a, b) >= MAX_SEG_LEN {
        if MAX_SEG_LEN < seg_len(a, b) {
            lemma_square_monotonic(4194304, seg_len(a, b));
        }
        lemma_mul_bound(4194304, 4194304, 4194304, 4194304);
        assert(4194304 * 4194304 <= seg_len(a, b) * seg_len(a, b));
        assert(false);
    }
    if a != b {
        assert(seg_sq(a, b) >= 1) by (nonlinear_arith)
            requires
                (b.x - a.x) != 0 || (b.y - a.y) != 0,
                seg_sq(a, b) == (b.x - a.x) * (b.x - a.x) + (b.y - a.y) * (b.y - a.y),
        ;
        if seg_len(a, b) < 1 {
            assert(seg_len(a, b) == 0);
            assert(seg_sq(a, b) < (seg_len(a, b) + 1) * (seg_len(a, b) + 1));
            assert((seg_len(a, b) + 1) * (seg_len(a, b) + 1) == 1) by (nonlinear_arith)
                requires
                    seg_len(a, b) == 0,
            ;
            assert(false);
        }
    }
}

/// Total arc length of the polyline.
pub open spec fn total_len(s: Seq<Vec2i>) -> int
    decreases s.len(),
{
    if s.len() <= 1 {
        0
    } else {
        seg_len(s[0], s[1]) + total_len(s.drop_first())
    }
}

pub proof fn lemma_total_len_bounds(s: Seq<Vec2i>)
    requires
        forall|k: int| 0 <= k < s.len() ==> coord_ok(#[trigger] s[k], COORD_LIMIT as int),
    ensures
        0 <= total_len(s),
        total_len(s) <= (s.len() as int) * (MAX_SEG_LEN as int),
    decreases s.len(),
{
    if s.len() > 1 {
        lemma_seg_len_bounds(s[0], s[1]);
        lemma_total_len_bounds(s.drop_first());
    }
}

/// Position and direction at arc length `d` along the polyline, or `None`
/// once `d` runs off the end. The position is the truncating-division
/// interpolation within the segment containing `d`; the direction is the
/// (unnormalized) segment delta.
pub open spec fn point_dir_at(s: Seq<Vec2i>, d: int) -> Option<(Vec2i, Vec2i)>
    decreases s.len(),
{
    if s.len() < 2 || d < 0 {
        None
    } else {
        let sl = seg_len(s[0], s[1]);
        if d <= sl {
            let dx = s[1].x - s[0].x;
            let dy = s[1].y - s[0].y;
            let pos = Vec2i {
                x: (s[0].x + div_trunc(dx * d, sl)) as i64,
                y: (s[0].y + div_trunc(dy * d, sl)) as i64,
            };
            Some((pos, Vec2i { x: dx as i64, y: dy as i64 }))
        } else {
            point_dir_at(s.drop_first(), d - sl)
        }
    }
}

/// On a well-formed polyline, a hit stays inside the coordinate bound and
/// its direction is a non-zero segment delta.
pub proof fn lemma_point_dir_props(s: Seq<Vec2i>, d: int)
    requires
        polyline_wf(s),
        point_dir_at(s, d) is Some,
    ensures
        coord_ok(point_dir_at(s, d)->Some_0.0, COORD_LIMIT as int),
        point_dir_at(s, d)->Some_0.1 != (Vec2i { x: 0, y: 0 }),
        coord_ok(point_dir_at(s, d)->Some_0.1, 2 * COORD_LIMIT as int),
    decreases s.len(),
{
    let sl = seg_len(s[0], s[1]);
    lemma_seg_len_bounds(s[0], s[1]);
    if d <= sl {
        let dx = s[1].x - s[0].x;
        let dy = s[1].y - s[0].y;
        lemma_mul_sign(dx, d);
        lemma_mul_sign(dy, d);
        if dx >= 0 {
            lemma_mul_bound(dx, d, dx, sl);
            lemma_div_trunc_bound(dx * d, sl, dx);
        } else {
            lemma_mul_bound(dx, d, -dx, sl);
            lemma_div_trunc_bound(dx * d, sl, -dx);
        }
        if dy >= 0 {
            lemma_mul_bound(dy, d, dy, sl);
            lemma_div_trunc_bound(dy * d, sl, dy);
        } else {
            lemma_mul_bound(dy, d, -dy, sl);
            lemma_div_trunc_bound(dy * d, sl, -dy);
        }
        assert(s[0] != s[1]);
    } else {
        let t = s.drop_first();
        assert(point_dir_at(t, d - sl) is Some);
        assert(t.len() >= 2);
        assert forall|k: int| 0 <= k < t.len() implies coord_ok(#[trigger] t[k], COORD_LIMIT as int) by {
            assert(t[k] == s[k + 1]);
        }
        assert forall|k: int| 0 <= k < t.len() - 1 implies #[trigger] t[k] != t[k + 1] by {
            assert(t[k] == s[k + 1] && t[k + 1] == s[k + 2]);
        }
        assert(polyline_wf(t));
        lemma_point_dir_props(t, d - sl);
    }
}

impl Polyline {
    /// Total arc length.
    pub fn length(&self) -> (r: i64)
        requires
            self.wf(),
        ensures
            r == total_len(self@),
    {
        let n = self.pts.len();
        let mut acc: i64 = 0;
        // walk segments back to front so the spec's head recursion unfolds
        let mut j: usize = n - 1;
        proof {
            assert(self@.skip(n as int - 1).len() <= 1);
        }
        while j > 0
            invariant
                0 <= j <= n - 1,
                n == self@.len(),
                self.wf(),
                acc == total_len(self@.skip(j as int)),
                0 <= acc <= (n - j) * MAX_SEG_LEN,
            decreases j,
        {
            let a = self.pts[j - 1];
            let b = self.pts[j];
            proof {
                lemma_seg_len_bounds(a, b);
                lemma_total_len_bounds(self@.skip(j as int));
            }
            let sl = seg_length(a, b);
            proof {
                let t = self@.skip(j as int - 1);
                assert(t[0] == a && t[1] == b);
                assert(t.drop_first() =~= self@.skip(j as int));
            }
            acc = acc + sl;
            j = j - 1;
        }
        proof {
            assert(self@.skip(0) =~= self@);
        }
        acc
    }

    /// Position and direction at arc length `d`, or `None` past the end.
    pub fn at_distance(&self, d: i64) -> (r: Option<(Vec2i, Vec2i)>)
        requires
            self.wf(),
            0 <= d,
        ensures
            r == point_dir_at(self@, d as int),
    {
        let n = self.pts.len();
        let mut i: usize = 0;
        let mut rem: i64 = d;
        proof {
            assert(self@.skip(0) =~= self@);
        }
        while i < n - 1
            invariant
                0 <= i <= n - 1,
                n == self@.len(),
                self.wf(),
                0 <= rem <= d,
                point_dir_at(self@, d as int) == point_dir_at(self@.skip(i as int), rem as int),
            decreases n - i,
        {
            let a = self.pts[i];
            let b = self.pts[i + 1];
            proof {
                lemma_seg_len_bounds(a, b);
                assert(self@.skip(i as int)[0] == a && self@.skip(i as int)[1] == b);
            }
            let sl = seg_length(a, b);
            if rem <= sl {
                let dx = b.x - a.x;
                let dy = b.y - a.y;
                proof {
                    lemma_mul_bound(dx as int, rem as int, 2097152, 4194304);
                    lemma_mul_bound(dy as int, rem as int, 2097152, 4194304);
                    lemma_mul_sign(dx as int, rem as int);
                    lemma_mul_sign(dy as int, rem as int);
                    if dx >= 0 {
                        lemma_mul_bound(dx as int, rem as int, dx as int, sl as int);
                    } else {
                        lemma_mul_bound(dx as int, rem as int, -(dx as int), sl as int);
                    }
                    if dy >= 0 {
                        lemma_mul_bound(dy as int, rem as int, dy as int, sl as int);
                    } else {
                        lemma_mul_bound(dy as int, rem as int, -(dy as int), sl as int);
                    }
                }
                let ox = div_t(dx * rem, sl);
                let oy = div_t(dy * rem, sl);
                proof {
                    if dx >= 0 {
                        lemma_div_trunc_bound((dx * rem) as int, sl as int, dx as int);
                    } else {
                        lemma_div_trunc_bound((dx * rem) as int, sl as int, -(dx as int));
                    }
                    if dy >= 0 {
                        lemma_div_trunc_bound((dy * rem) as int, sl as int, dy as int);
                    } else {
                        lemma_div_trunc_bound((dy * rem) as int, sl as int, -(dy as int));
                    }
                }
                let pos = Vec2i { x: a.x + ox, y: a.y + oy };
                return Some((pos, Vec2i { x: dx, y: dy }));
            }
            proof {
                assert(self@.skip(i as int).drop_first() =~= self@.skip(i + 1));
            }
            rem = rem - sl;
            i = i + 1;
        }
        proof {
            assert(self@.skip(n as int - 1).len() < 2);
        }
        None
    }
}

/// Integer length of one segment.
pub fn seg_length(a: Vec2i, b: Vec2i) -> (r: i64)
    requires
        coord_ok(a, COORD_LIMIT as int),
        coord_ok(b, COORD_LIMIT as int),
    ensures
        r == seg_len(a, b),
        0 <= r < MAX_SEG_LEN,
        a != b ==> 1 <= r,
{
    proof {
        lemma_mul_bound((b.x - a.x) as int, (b.x - a.x) as int, 2097152, 2097152);
        lemma_mul_bound((b.y - a.y) as int, (b.y - a.y) as int, 2097152, 2097152);
        lemma_square_nonneg((b.x - a.x) as int);
        lemma_square_nonneg((b.y - a.y) as int);
        lemma_seg_len_bounds(a, b);
    }
    let dx = b.x - a.x;
    let dy = b.y - a.y;
    isqrt(dx * dx + dy * dy)
}

} // verus!
