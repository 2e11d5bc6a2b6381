//! The terrain height field, in thousandths of the normalized height.
//!
//! A terrain is a base height plus rectangular patches; the height at a
//! point is the height of the first patch containing it, or the base. A
//! parcel may only be placed where the height reaches the water threshold.

use vstd::prelude::*;
use crate::geometry::{Aabb, Vec2i};

verus! {

/// Minimum height (in thousandths) at which ground can carry a parcel;
/// lower ground counts as water or otherwise invalid.
pub const LOW_HEIGHT_MILLI: i64 = 120;

#[derive(Clone, Copy, PartialEq, Eq, Structural, Debug)]
pub struct TerrainPatch {
    pub area: Aabb,
    pub height_milli: i64,
}

pub struct Terrain {
    pub base_milli: i64,
    pub patches: Vec<TerrainPatch>,
}

pub open spec fn point_in_box(p: Vec2i, bb: Aabb) -> bool {
    bb.min.x <= p.x <= bb.max.x && bb.min.y <= p.y <= bb.max.y
}

pub open spec fn patches_height(s: Seq<TerrainPatch>, p: Vec2i, base: int) -> int
    decreases s.len(),
{
    if s.len() == 0 {
        base
    } else if point_in_box(p, s[0].area) {
        s[0].height_milli as int
    } else {
        patches_height(s.drop_first(), p, base)
    }
}

impl Terrain {
    /// Height sampled at `p`, in thousandths.
    pub open spec fn height_spec(self, p: Vec2i) -> int {
        patches_height(self.patches@, p, self.base_milli as int)
    }

    /// The ground at `p` can carry a parcel.
    pub open spec fn ok_spec(self, p: Vec2i) -> bool {
        self.height_spec(p) >= LOW_HEIGHT_MILLI
    }

    /// Terrain that is everywhere at one height.
    pub fn flat(base_milli: i64) -> (r: Terrain)
        ensures
            r.patches@.len() == 0,
            r.base_milli == base_milli,
    {
        Terrain { base_milli, patches: Vec::new() }
    }

    pub fn height_at(&self, p: Vec2i) -> (r: i64)
        ensures
            r == self.height_spec(p),
    {
        let n = self.patches.len();
        let mut i: usize = 0;
        proof {
            assert(self.patches@.skip(0) =~= self.patches@);
        }
        while i < n
            invariant
                0 <= i <= n,
                n == self.patches@.len(),
                self.height_spec(p) == patches_height(
                    self.patches@.skip(i as int),
                    p,
                    self.base_milli as int,
                ),
            decreases n - i,
        {
            let patch = self.patches[i];
            proof {
                assert(self.patches@.skip(i as int)[0] == patch);
                assert(self.patches@.skip(i as int).drop_first() =~= self.patches@.skip(i + 1));
            }
            if patch.area.min.x <= p.x && p.x <= patch.area.max.x && patch.area.min.y <= p.y && p.y
                <= patch.area.max.y {
                return patch.height_milli;
            }
            i = i + 1;
        }
        self.base_milli
    }

    /// Whether a parcel may be anchored at `p`.
    pub fn ground_ok(&self, p: Vec2i) -> (r: bool)
        ensures
            r == self.ok_spec(p),
    {
        self.height_at(p) >= LOW_HEIGHT_MILLI
    }
}

} // verus!
