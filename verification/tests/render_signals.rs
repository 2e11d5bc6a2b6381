use parcelmap::geometry::{Aabb, Polygon, Vec2i};
use parcelmap::polyline::Polyline;
use parcelmap::render::{
    control_behavior, DrawCmd, DrawColor, RoadRenderer, Tesselator, TrafficBehavior, Z_SIGNAL,
};
use parcelmap::terrain::Terrain;
use parcelmap::world::{Lane, LaneKind, Road, TrafficControl, WorldMap};

fn v(x: i64, y: i64) -> Vec2i {
    Vec2i { x, y }
}

fn lane_with(control: TrafficControl) -> Lane {
    Lane {
        parent: 0,
        src_i: 0,
        dst_i: 1,
        kind: LaneKind::Driving,
        control,
        points: Polyline { pts: vec![v(0, 0), v(10, 0)] },
    }
}

#[test]
fn behavior_cycles_through_phases() {
    let lights = TrafficControl::Lights { offset: 0, green: 10, orange: 5, red: 10 };
    assert_eq!(control_behavior(&lights, 0), TrafficBehavior::Green);
    assert_eq!(control_behavior(&lights, 9), TrafficBehavior::Green);
    assert_eq!(control_behavior(&lights, 10), TrafficBehavior::Orange);
    assert_eq!(control_behavior(&lights, 14), TrafficBehavior::Orange);
    assert_eq!(control_behavior(&lights, 15), TrafficBehavior::Red);
    assert_eq!(control_behavior(&lights, 24), TrafficBehavior::Red);
    assert_eq!(control_behavior(&lights, 25), TrafficBehavior::Green);
    assert_eq!(control_behavior(&TrafficControl::StopSign, 7), TrafficBehavior::Stop);
}

#[test]
fn uncontrolled_lane_draws_nothing() {
    let lane = lane_with(TrafficControl::Always);
    let mut t = Tesselator::new(None);
    RoadRenderer::render_lane_signals(&lane, &mut t, 0);
    assert_eq!(t.cmds.len(), 0);
}

#[test]
fn stop_sign_draws_two_octagons() {
    let lane = lane_with(TrafficControl::StopSign);
    let mut t = Tesselator::new(None);
    RoadRenderer::render_lane_signals(&lane, &mut t, 0);
    // the signal anchor: lane end (10,0) in hundredths, pushed back along
    // the lane and sideways by 2.5 units each
    let c = v(750, -250);
    assert_eq!(t.cmds.len(), 2);
    assert_eq!(
        t.cmds[0],
        DrawCmd::RegularPolygon { center: c, z: Z_SIGNAL, radius: 50, sides: 8, color: DrawColor::White },
    );
    assert_eq!(
        t.cmds[1],
        DrawCmd::RegularPolygon { center: c, z: Z_SIGNAL, radius: 40, sides: 8, color: DrawColor::Red },
    );
}

#[test]
fn lights_draw_housing_and_lamp() {
    let lights = TrafficControl::Lights { offset: 0, green: 10, orange: 5, red: 10 };
    let lane = lane_with(lights);
    let c = v(750, -250);
    let off = v(0, -50);

    // green phase: lamp on the positive perpendicular side
    let mut t = Tesselator::new(None);
    RoadRenderer::render_lane_signals(&lane, &mut t, 0);
    assert_eq!(t.cmds.len(), 5);
    assert_eq!(
        t.cmds[0],
        DrawCmd::Rect {
            center: c,
            z: Z_SIGNAL,
            width: 60,
            height: 160,
            dir: v(-10, 0),
            color: DrawColor::Gray(30),
        },
    );
    assert_eq!(
        t.cmds[4],
        DrawCmd::Circle {
            center: v(c.x + off.x, c.y + off.y),
            z: Z_SIGNAL,
            radius: 25,
            color: DrawColor::Green,
        },
    );

    // red phase: lamp on the other side
    let mut t2 = Tesselator::new(None);
    RoadRenderer::render_lane_signals(&lane, &mut t2, 20);
    assert_eq!(
        t2.cmds[4],
        DrawCmd::Circle {
            center: v(c.x - off.x, c.y - off.y),
            z: Z_SIGNAL,
            radius: 25,
            color: DrawColor::Red,
        },
    );
}

fn map_with_signal_lane() -> WorldMap {
    let mut map = WorldMap::new(Terrain::flat(1000));
    map.register_intersection(Polygon { pts: vec![v(-3, -1), v(-1, -1), v(-1, 1), v(-3, 1)] });
    map.register_intersection(Polygon {
        pts: vec![v(101, -1), v(103, -1), v(103, 1), v(101, 1)],
    });
    let road = map.register_road(Road {
        src_i: 0,
        dst_i: 1,
        src_point: v(0, 0),
        dst_point: v(100, 0),
        width: 10,
        center: Polyline { pts: vec![v(0, 0), v(100, 0)] },
        swept: Polygon { pts: vec![v(0, -5), v(100, -5), v(100, 5), v(0, 5)] },
    });
    map.register_lane(Lane {
        parent: road,
        src_i: 0,
        dst_i: 1,
        kind: LaneKind::Driving,
        control: TrafficControl::StopSign,
        points: Polyline { pts: vec![v(0, 0), v(100, 0)] },
    });
    map
}

#[test]
fn signals_render_all_lanes_without_cull() {
    let map = map_with_signal_lane();
    let mut t = Tesselator::new(None);
    RoadRenderer::signals_render(&map, 0, &mut t);
    assert_eq!(t.cmds.len(), 2);
}

#[test]
fn signals_render_respects_cull_rect() {
    let map = map_with_signal_lane();

    // a rectangle covering the road draws its lane's signal
    let near = Aabb { min: v(-10, -10), max: v(110, 10) };
    let mut t = Tesselator::new(Some(near));
    RoadRenderer::signals_render(&map, 0, &mut t);
    assert_eq!(t.cmds.len(), 2);

    // a rectangle away from the road draws nothing
    let far = Aabb { min: v(500, 500), max: v(600, 600) };
    let mut t2 = Tesselator::new(Some(far));
    RoadRenderer::signals_render(&map, 0, &mut t2);
    assert_eq!(t2.cmds.len(), 0);

    // an oversized rectangle is culled entirely
    let huge = Aabb { min: v(-2000, -2000), max: v(2000, 2000) };
    let mut t3 = Tesselator::new(Some(huge));
    RoadRenderer::signals_render(&map, 0, &mut t3);
    assert_eq!(t3.cmds.len(), 0);
}
