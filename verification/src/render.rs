//! Traffic-signal rendering over the map, as a verified command recorder.
//!
//! The tesselator records drawing commands instead of driving a GPU; sizes
//! and positions of signal primitives are in hundredths of a map unit. The
//! culling pass uses the spatial index's rectangle query to restrict signal
//! drawing to roads whose bounding box meets the cull rectangle, and each
//! lane's signal is a pure function of the lane and the time.

use vstd::prelude::*;
use crate::geometry::{coord_ok, Aabb, Vec2i, COORD_LIMIT};
use crate::polyline::{div_t, div_trunc, isqrt, polyline_wf};
use crate::spatial::{query_spec, ProjectKind};
use crate::world::{
    lemma_vec_len_props, vec_len, Lane, TrafficControl, WorldMap,
};
use crate::geometry::{lemma_mul_bound, lemma_square_nonneg};

verus! {

/// Height (z layer) signals are drawn at, in hundredths.
pub const Z_SIGNAL: i64 = 29;

/// Cull rectangles wider or taller than this draw no signals.
pub const SIGNAL_CULL_LIMIT: i64 = 1500;

#[derive(Clone, Copy, PartialEq, Eq, Structural, Debug)]
pub enum TrafficBehavior {
    Red,
    Orange,
    Green,
    Stop,
}

#[derive(Clone, Copy, PartialEq, Eq, Structural, Debug)]
pub enum DrawColor {
    White,
    Red,
    Orange,
    Green,
    /// Gray level in hundredths.
    Gray(u8),
}

/// One recorded drawing primitive; coordinates and sizes in hundredths of
/// a map unit, z layers in hundredths.
#[derive(Clone, Copy, PartialEq, Eq, Structural, Debug)]
pub enum DrawCmd {
    Circle { center: Vec2i, z: i64, radius: i64, color: DrawColor },
    RegularPolygon { center: Vec2i, z: i64, radius: i64, sides: u32, color: DrawColor },
    Rect { center: Vec2i, z: i64, width: i64, height: i64, dir: Vec2i, color: DrawColor },
}

/// What a traffic control shows at the given time.
pub open spec fn behavior_spec(c: TrafficControl, time: u64) -> TrafficBehavior {
    match c {
        TrafficControl::Always => TrafficBehavior::Green,
        TrafficControl::StopSign => TrafficBehavior::Stop,
        TrafficControl::Lights { offset, green, orange, red } => {
            let cycle = green + orange + red;
            if cycle == 0 {
                TrafficBehavior::Red
            } else {
                let phase = (time + offset) % cycle;
                if phase < green {
                    TrafficBehavior::Green
                } else if phase < green + orange {
                    TrafficBehavior::Orange
                } else {
                    TrafficBehavior::Red
                }
            }
        },
    }
}

/// The behavior of a traffic control at a time.
pub fn control_behavior(c: &TrafficControl, time: u64) -> (r: TrafficBehavior)
    ensures
        r == behavior_spec(*c, time),
{
    match c {
        TrafficControl::Always => TrafficBehavior::Green,
        TrafficControl::StopSign => TrafficBehavior::Stop,
        TrafficControl::Lights { offset, green, orange, red } => {
            let cycle = (*green as u128) + (*orange as u128) + (*red as u128);
            if cycle == 0 {
                TrafficBehavior::Red
            } else {
                let phase = ((time as u128) + (*offset as u128)) % cycle;
                if phase < (*green as u128) {
                    TrafficBehavior::Green
                } else if phase < (*green as u128) + (*orange as u128) {
                    TrafficBehavior::Orange
                } else {
                    TrafficBehavior::Red
                }
            }
        },
    }
}

/// Direction back along the lane at its destination end, unnormalized.
pub open spec fn end_dir(lane: Lane) -> Vec2i {
    let pts = lane.points@;
    let last = pts[pts.len() - 1];
    let prev = pts[pts.len() - 2];
    Vec2i { x: (prev.x - last.x) as i64, y: (prev.y - last.y) as i64 }
}

/// Offset of length `mag` (hundredths) along `v`, by truncating division.
pub open spec fn along(v: Vec2i, mag: int) -> Vec2i {
    let l = vec_len(v);
    Vec2i { x: div_trunc(v.x * mag, l) as i64, y: div_trunc(v.y * mag, l) as i64 }
}

pub open spec fn perp_of(v: Vec2i) -> Vec2i {
    Vec2i { x: (-v.y) as i64, y: v.x }
}

/// Where the lane's signal is drawn: the lane end pushed back along the
/// lane and sideways, in hundredths of a map unit.
pub open spec fn signal_center(lane: Lane) -> Vec2i {
    let pts = lane.points@;
    let last = pts[pts.len() - 1];
    let d = end_dir(lane);
    let p = perp_of(d);
    let a = along(d, 250);
    let b = along(p, 250);
    Vec2i {
        x: (100 * last.x + a.x + b.x) as i64,
        y: (100 * last.y + a.y + b.y) as i64,
    }
}

pub open spec fn vadd(a: Vec2i, b: Vec2i) -> Vec2i {
    Vec2i { x: (a.x + b.x) as i64, y: (a.y + b.y) as i64 }
}

pub open spec fn vsub(a: Vec2i, b: Vec2i) -> Vec2i {
    Vec2i { x: (a.x - b.x) as i64, y: (a.y - b.y) as i64 }
}

/// The commands one lane's signal adds: nothing when uncontrolled, the two
/// stop-sign octagons, or the light housing with its three sockets and the
/// lit lamp picked by the behavior at `time`.
pub open spec fn lane_signal_cmds(lane: Lane, time: u64) -> Seq<DrawCmd> {
    let c = signal_center(lane);
    let d = end_dir(lane);
    let p = perp_of(d);
    let off = along(p, 50);
    match lane.control {
        TrafficControl::Always => Seq::empty(),
        TrafficControl::StopSign => seq![
            DrawCmd::RegularPolygon {
                center: c,
                z: Z_SIGNAL,
                radius: 50,
                sides: 8,
                color: DrawColor::White,
            },
            DrawCmd::RegularPolygon {
                center: c,
                z: Z_SIGNAL,
                radius: 40,
                sides: 8,
                color: DrawColor::Red,
            },
        ],
        TrafficControl::Lights { .. } => {
            let lamp_color = match behavior_spec(lane.control, time) {
                TrafficBehavior::Red => DrawColor::Red,
                TrafficBehavior::Stop => DrawColor::Red,
                TrafficBehavior::Orange => DrawColor::Orange,
                TrafficBehavior::Green => DrawColor::Green,
            };
            let lamp_center = match behavior_spec(lane.control, time) {
                TrafficBehavior::Red => vsub(c, off),
                TrafficBehavior::Orange => c,
                _ => vadd(c, off),
            };
            seq![
                DrawCmd::Rect {
                    center: c,
                    z: Z_SIGNAL,
                    width: 60,
                    height: 160,
                    dir: d,
                    color: DrawColor::Gray(30),
                },
                DrawCmd::Circle {
                    center: vsub(c, off),
                    z: Z_SIGNAL,
                    radius: 25,
                    color: DrawColor::Gray(30),
                },
                DrawCmd::Circle { center: c, z: Z_SIGNAL, radius: 25, color: DrawColor::Gray(30) },
                DrawCmd::Circle {
                    center: vadd(c, off),
                    z: Z_SIGNAL,
                    radius: 25,
                    color: DrawColor::Gray(30),
                },
                DrawCmd::Circle {
                    center: lamp_center,
                    z: Z_SIGNAL,
                    radius: 25,
                    color: lamp_color,
                },
            ]
        },
    }
}

/// Records drawing commands; `cull_rect` restricts bulk passes.
pub struct Tesselator {
    pub color: DrawColor,
    pub cull_rect: Option<Aabb>,
    pub cmds: Vec<DrawCmd>,
}

impl Tesselator {
    pub fn new(cull_rect: Option<Aabb>) -> (r: Tesselator)
        ensures
            r.cmds@.len() == 0,
            r.cull_rect == cull_rect,
    {
        Tesselator { color: DrawColor::White, cull_rect, cmds: Vec::new() }
    }

    pub fn set_color(&mut self, color: DrawColor)
        ensures
            final(self).color == color,
            final(self).cmds == old(self).cmds,
            final(self).cull_rect == old(self).cull_rect,
    {
        self.color = color;
    }
}

/// Offset of magnitude `mag` along `v`, executable form.
fn along_ex(v: Vec2i, mag: i64) -> (r: Vec2i)
    requires
        coord_ok(v, 2 * COORD_LIMIT as int),
        !(v.x == 0 && v.y == 0),
        0 <= mag <= 1000,
    ensures
        r == along(v, mag as int),
        coord_ok(r, 1000),
{
    proof {
        lemma_vec_len_props(v);
        lemma_mul_bound(v.x as int, v.x as int, 2097152, 2097152);
        lemma_mul_bound(v.y as int, v.y as int, 2097152, 2097152);
        lemma_square_nonneg(v.x as int);
        lemma_square_nonneg(v.y as int);
    }
    let l = isqrt(v.x * v.x + v.y * v.y);
    proof {
        lemma_mul_bound(v.x as int, mag as int, vec_len(v), 1000);
        lemma_mul_bound(v.y as int, mag as int, vec_len(v), 1000);
        crate::polyline::lemma_div_trunc_bound((v.x * mag) as int, l as int, 1000);
        crate::polyline::lemma_div_trunc_bound((v.y * mag) as int, l as int, 1000);
    }
    Vec2i { x: div_t(v.x * mag, l), y: div_t(v.y * mag, l) }
}

pub struct RoadRenderer {}

impl RoadRenderer {
    pub fn new() -> (r: RoadRenderer) {
        RoadRenderer {}
    }

    /// Draw one lane's signal: nothing when the lane is uncontrolled, a
    /// stop sign's octagons, or a light housing with the lamp matching the
    /// control's behavior at `time`.
    pub fn render_lane_signals(n: &Lane, sr: &mut Tesselator, time: u64)
        requires
            polyline_wf(n.points@),
        ensures
            final(sr).cmds@ == old(sr).cmds@ + lane_signal_cmds(*n, time),
            final(sr).cull_rect == old(sr).cull_rect,
            final(sr).color == old(sr).color,
    {
        let ghost cmds0 = sr.cmds@;
        match n.control {
            TrafficControl::Always => {
                proof {
                    assert(cmds0 + lane_signal_cmds(*n, time) =~= cmds0);
                }
                return ;
            },
            _ => {},
        }
        let np = n.points.pts.len();
        let last = n.points.pts[np - 1];
        let prev = n.points.pts[np - 2];
        let d = Vec2i { x: prev.x - last.x, y: prev.y - last.y };
        proof {
            assert(d == end_dir(*n));
            assert(d != (Vec2i { x: 0, y: 0 }));
        }
        let p = Vec2i { x: -d.y, y: d.x };
        let a = along_ex(d, 250);
        let b = along_ex(p, 250);
        let c = Vec2i { x: 100 * last.x + a.x + b.x, y: 100 * last.y + a.y + b.y };
        proof {
            assert(c == signal_center(*n));
        }
        match n.control {
            TrafficControl::StopSign => {
                sr.cmds.push(
                    DrawCmd::RegularPolygon {
                        center: c,
                        z: Z_SIGNAL,
                        radius: 50,
                        sides: 8,
                        color: DrawColor::White,
                    },
                );
                sr.cmds.push(
                    DrawCmd::RegularPolygon {
                        center: c,
                        z: Z_SIGNAL,
                        radius: 40,
                        sides: 8,
                        color: DrawColor::Red,
                    },
                );
                proof {
                    assert(sr.cmds@ =~= cmds0 + lane_signal_cmds(*n, time));
                }
            },
            TrafficControl::Lights { .. } => {
                let off = along_ex(p, 50);
                let housing = DrawColor::Gray(30);
                sr.cmds.push(
                    DrawCmd::Rect {
                        center: c,
                        z: Z_SIGNAL,
                        width: 60,
                        height: 160,
                        dir: d,
                        color: housing,
                    },
                );
                sr.cmds.push(
                    DrawCmd::Circle {
                        center: Vec2i { x: c.x - off.x, y: c.y - off.y },
                        z: Z_SIGNAL,
                        radius: 25,
                        color: housing,
                    },
                );
                sr.cmds.push(DrawCmd::Circle { center: c, z: Z_SIGNAL, radius: 25, color: housing });
                sr.cmds.push(
                    DrawCmd::Circle {
                        center: Vec2i { x: c.x + off.x, y: c.y + off.y },
                        z: Z_SIGNAL,
                        radius: 25,
                        color: housing,
                    },
                );
                let beh = control_behavior(&n.control, time);
                let lamp_color = match beh {
                    TrafficBehavior::Red => DrawColor::Red,
                    TrafficBehavior::Stop => DrawColor::Red,
                    TrafficBehavior::Orange => DrawColor::Orange,
                    TrafficBehavior::Green => DrawColor::Green,
                };
                let lamp_center = match beh {
                    TrafficBehavior::Red => Vec2i { x: c.x - off.x, y: c.y - off.y },
                    TrafficBehavior::Orange => c,
                    _ => Vec2i { x: c.x + off.x, y: c.y + off.y },
                };
                sr.cmds.push(
                    DrawCmd::Circle {
                        center: lamp_center,
                        z: Z_SIGNAL,
                        radius: 25,
                        color: lamp_color,
                    },
                );
                proof {
                    assert(sr.cmds@ =~= cmds0 + lane_signal_cmds(*n, time));
                }
            },
            TrafficControl::Always => {
                proof {
                    assert(false);
                }
            },
        }
    }
}

/// The signal commands of the lanes named in `list`, in order.
pub open spec fn lanes_cmds(m: WorldMap, list: Seq<usize>, time: u64) -> Seq<DrawCmd>
    decreases list.len(),
{
    if list.len() == 0 {
        Seq::empty()
    } else {
        lanes_cmds(m, list.drop_last(), time) + lane_signal_cmds(
            m.lanes@[list.last() as int],
            time,
        )
    }
}

/// The signal commands of every road key in `keys`, in order; keys of
/// other kinds contribute nothing.
pub open spec fn keys_cmds(m: WorldMap, keys: Seq<ProjectKind>, time: u64) -> Seq<DrawCmd>
    decreases keys.len(),
{
    if keys.len() == 0 {
        Seq::empty()
    } else {
        keys_cmds(m, keys.drop_last(), time) + match keys.last() {
            ProjectKind::Road(r) => lanes_cmds(m, m.road_lanes@[r as int]@, time),
            _ => Seq::empty(),
        }
    }
}

/// Sequence of indices `0 .. n`.
pub open spec fn index_range(n: int) -> Seq<usize>
    recommends
        n >= 0,
{
    Seq::new(n as nat, |i: int| i as usize)
}

/// What `signals_render` draws: nothing when the cull rectangle is too
/// large; the lanes of every road whose index box meets the cull rectangle
/// when one is set; every lane otherwise.
pub open spec fn signals_cmds(m: WorldMap, time: u64, cull: Option<Aabb>) -> Seq<DrawCmd> {
    match cull {
        Some(rect) => {
            if rect.max.x - rect.min.x > SIGNAL_CULL_LIMIT || rect.max.y - rect.min.y
                > SIGNAL_CULL_LIMIT {
                Seq::empty()
            } else {
                keys_cmds(m, query_spec(m.index@, rect), time)
            }
        },
        None => lanes_cmds(m, index_range(m.lanes@.len() as int), time),
    }
}

impl RoadRenderer {
    /// Draw the signals of the visible part of the map: with a cull
    /// rectangle, only roads the spatial index reports for it; without
    /// one, every lane.
    pub fn signals_render(map: &WorldMap, time: u64, sr: &mut Tesselator)
        requires
            map.inv(),
        ensures
            final(sr).cmds@ == old(sr).cmds@ + signals_cmds(*map, time, old(sr).cull_rect),
            final(sr).cull_rect == old(sr).cull_rect,
            final(sr).color == old(sr).color,
    {
        let ghost cmds0 = sr.cmds@;
        match sr.cull_rect {
            Some(rect) => {
                if (rect.max.x as i128) - (rect.min.x as i128) > SIGNAL_CULL_LIMIT as i128 || (
                rect.max.y as i128) - (rect.min.y as i128) > SIGNAL_CULL_LIMIT as i128 {
                    proof {
                        assert(cmds0 + signals_cmds(*map, time, sr.cull_rect) =~= cmds0);
                    }
                    return ;
                }
                let keys = map.index.query_rect(&rect);
                let nk = keys.len();
                let mut i: usize = 0;
                proof {
                    assert(keys@.take(0) =~= Seq::<ProjectKind>::empty());
                }
                while i < nk
                    invariant
                        0 <= i <= nk,
                        nk == keys@.len(),
                        sr.cmds@ == cmds0 + keys_cmds(*map, keys@.take(i as int), time),
                        sr.cull_rect == old(sr).cull_rect,
                        sr.color == old(sr).color,
                    decreases nk - i,
                {
                    proof {
                        assert(keys@.take(i + 1).drop_last() =~= keys@.take(i as int));
                        assert(keys@.take(i + 1).last() == keys@[i as int]);
                        crate::spatial::lemma_query_spec(map.index@, rect);
                    }
                    match keys[i] {
                        ProjectKind::Road(r) => {
                            proof {
                                assert(keys@.contains(keys@[i as int]));
                                let e = choose|e: int|
                                    0 <= e < map.index@.len() && #[trigger] map.index@[e].0
                                        == keys@[i as int];
                                assert(map.index_entry_ok(map.index@[e]));
                            }
                            let list = &map.road_lanes[r];
                            let nl = list.len();
                            let mut p: usize = 0;
                            proof {
                                assert(list@.take(0) =~= Seq::<usize>::empty());
                            }
                            while p < nl
                                invariant
                                    0 <= p <= nl,
                                    nl == list@.len(),
                                    list@ == map.road_lanes@[r as int]@,
                                    r < map.roads@.len(),
                                    map.inv(),
                                    sr.cmds@ == cmds0 + keys_cmds(*map, keys@.take(i as int), time)
                                        + lanes_cmds(*map, list@.take(p as int), time),
                                    sr.cull_rect == old(sr).cull_rect,
                                    sr.color == old(sr).color,
                                decreases nl - p,
                            {
                                proof {
                                    assert(list@.take(p + 1).drop_last() =~= list@.take(p as int));
                                    assert(list@.take(p + 1).last() == list@[p as int]);
                                }
                                let li = list[p];
                                Self::render_lane_signals(&map.lanes[li], sr, time);
                                p = p + 1;
                            }
                            proof {
                                assert(list@.take(nl as int) =~= list@);
                                assert(sr.cmds@ =~= cmds0 + keys_cmds(
                                    *map,
                                    keys@.take(i + 1),
                                    time,
                                ));
                            }
                        },
                        _ => {
                            proof {
                                assert(keys_cmds(*map, keys@.take(i + 1), time) =~= keys_cmds(
                                    *map,
                                    keys@.take(i as int),
                                    time,
                                ));
                            }
                        },
                    }
                    i = i + 1;
                }
                proof {
                    assert(keys@.take(nk as int) =~= keys@);
                }
            },
            None => {
                let nl = map.lanes.len();
                let mut l: usize = 0;
                proof {
                    assert(index_range(0) =~= Seq::<usize>::empty());
                }
                while l < nl
                    invariant
                        0 <= l <= nl,
                        nl == map.lanes@.len(),
                        map.inv(),
                        sr.cmds@ == cmds0 + lanes_cmds(*map, index_range(l as int), time),
                        sr.cull_rect == old(sr).cull_rect,
                        sr.color == old(sr).color,
                    decreases nl - l,
                {
                    proof {
                        assert(index_range(l + 1).drop_last() =~= index_range(l as int));
                        assert(index_range(l + 1).last() == l as usize);
                    }
                    Self::render_lane_signals(&map.lanes[l], sr, time);
                    l = l + 1;
                }
            },
        }
    }
}

} // verus!
