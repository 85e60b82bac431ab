//! The parts of the engine on their own: lanes, tracks, moves, drives, texts and
//! lowering.

use botrail_scene::coverage::{arm_coverage, UncoveredArm};
use botrail_scene::engine::{Phase, Reply};
use botrail_scene::error::{forced_note, SeqError};
use botrail_scene::export::{copied_test, same_test, Command, DigitalTest, PlainTests};
use botrail_scene::fixed::{wrap_angle, Pose, Vec3, PI, TAU, UNIT};
use botrail_scene::flat::flatten;
use botrail_scene::gait::Ride;
use botrail_scene::lanes::{BoolTrack, LaneKind, Lanes};
use botrail_scene::lower::{digital_test, lower_condition, lower_device, SequenceIo};
use botrail_scene::motion::{ActiveMove, Bake, Trajectory, Waypoint};
use botrail_scene::program::{compound_tests, driven_robot_name};
use botrail_scene::rollout::RolloutOptions;
use botrail_scene::scene::{Obstacle, Robot, Scene, Signal};
use botrail_scene::script::{distance, Lowering};
use botrail_scene::sensors::{occluded, Reading};
use botrail_scene::seq::{Action, Condition, DeviceCommand, SelectArm, Sequence, Step};
use botrail_scene::simulate::SequenceFault;
use botrail_scene::text::{places_text, plain_text};
use botrail_scene::timeline::{
    BasePose, Bearing, PlannedMove, ProcessSpan, RobotTrack, SequenceTimeline, StepSpan,
};
use botrail_scene::tracks::{
    push_vehicle_span, ObjectTrack, Placement, TrackSpan, Tracks, VehiclePiece,
};
use botrail_scene::vehicle::{
    body_profile, build_legs, vehicle_route, walk_legs, Drive, Leg,
};
use botrail_scene::walk::{support, swing_lift, tread_covers, tread_tops, Cover};
use botrail_scene::zone::{inside_zone, mark_zone};

fn pc(x: f64) -> i64 {
    (x * 1e12).round() as i64
}

fn v3(x: f64, y: f64, z: f64) -> Vec3 {
    Vec3 { x: pc(x), y: pc(y), z: pc(z) }
}

fn iso(x: f64, y: f64, z: f64) -> Pose {
    Pose { at: v3(x, y, z), i: 0, j: 0, k: 0, w: UNIT }
}

fn text(s: &str) -> String {
    s.to_string()
}

fn scene() -> Scene {
    Scene {
        signals: Vec::new(),
        sensors: Vec::new(),
        cameras: Vec::new(),
        lidars: Vec::new(),
        devices: Vec::new(),
        robots: Vec::new(),
        obstacles: Vec::new(),
        attachments: Vec::new(),
        motions: Vec::new(),
        toolpaths: Vec::new(),
        sequences: Vec::new(),
        forced_inputs: Vec::new(),
    }
}

fn step(name: &str, transition: Condition) -> Step {
    Step { name: text(name), actions: Vec::new(), transition, select: Vec::new() }
}

fn branch(name: &str, arms: Vec<(Condition, Vec<Step>)>) -> Step {
    Step {
        name: text(name),
        actions: Vec::new(),
        transition: Condition::Immediately,
        select: arms.into_iter().map(|(condition, steps)| SelectArm { condition, steps }).collect(),
    }
}

fn signal(name: &str, value: bool) -> Condition {
    Condition::Signal { name: text(name), value }
}

fn robot_track(name: &str, moves: Vec<(f64, f64)>, sprays: Vec<Vec<(f64, f64)>>) -> RobotTrack {
    RobotTrack {
        name: text(name),
        trajectory: Bake { waypoints: Vec::new() },
        moves: moves
            .into_iter()
            .map(|(a, b)| StepSpan {
                name: text("move"),
                start: pc(a),
                end: pc(b),
                sequence: text("s"),
                step: 0,
            })
            .collect(),
        planned: sprays
            .into_iter()
            .map(|spans| PlannedMove {
                sequence: text("s"),
                step: 0,
                motion: Some(text("paint")),
                segments: Vec::new(),
                duration: 0,
                feed_report: Some(0),
                process_spans: spans
                    .into_iter()
                    .map(|(a, b)| ProcessSpan { start: pc(a), end: pc(b), brush: None })
                    .collect(),
            })
            .collect(),
        base: None,
        footfalls: Vec::new(),
        sway: Vec::new(),
        pitch: Vec::new(),
        rise: Vec::new(),
    }
}

fn timeline(duration: f64, robots: Vec<RobotTrack>) -> SequenceTimeline {
    SequenceTimeline {
        duration: pc(duration),
        sequences: vec![text("s")],
        scenario: None,
        robots,
        objects: Vec::new(),
        vehicles: Vec::new(),
        signals: Vec::new(),
        step_spans: Vec::new(),
        branches: Vec::new(),
    }
}

fn lanes(names: &[&str], forced: Vec<(usize, bool)>) -> Lanes {
    Lanes {
        tracks: names
            .iter()
            .map(|n| BoolTrack { name: text(n), edges: vec![(0, false)], kind: LaneKind::Signal })
            .collect(),
        forced,
    }
}

// Lanes.

#[test]
fn lane_kinds_are_labelled() {
    assert_eq!(LaneKind::Signal.as_str(), "signal");
    assert_eq!(LaneKind::Sensor.as_str(), "sensor");
    assert_eq!(LaneKind::Device.as_str(), "device");
}

#[test]
fn a_lane_is_a_step_function() {
    let lane = BoolTrack {
        name: text("go"),
        edges: vec![(0, false), (pc(1.0), true), (pc(2.5), false)],
        kind: LaneKind::Signal,
    };
    assert!(!lane.value_at(0));
    assert!(!lane.value_at(pc(0.999)));
    assert!(lane.value_at(pc(1.0)));
    assert!(lane.value_at(pc(2.499)));
    assert!(!lane.value_at(pc(2.5)));
    assert!(!lane.value_at(pc(99.0)));
    let empty = BoolTrack { name: text("x"), edges: Vec::new(), kind: LaneKind::Signal };
    assert!(!empty.value_at(0));
}

#[test]
fn writes_read_back_and_repeats_add_no_edge() {
    let mut l = lanes(&["a", "b"], Vec::new());
    l.set_lane(1, pc(1.0), true);
    assert_eq!(l.lane_index("b"), Some(1));
    assert_eq!(l.lane_index("c"), None);
    assert!(l.lane_value(1));
    assert_eq!(l.snapshot(), vec![false, true]);
    l.set_lane(1, pc(2.0), true);
    assert_eq!(l.tracks[1].edges, vec![(0, false), (pc(1.0), true)]);
    l.set_lanes(&vec![(0, true), (1, false)], pc(3.0));
    assert_eq!(l.snapshot(), vec![true, false]);
}

#[test]
fn a_pinned_lane_keeps_its_level() {
    let mut l = lanes(&["a"], vec![(0, false)]);
    l.set_lane(0, pc(1.0), true);
    assert!(!l.lane_value(0));
    assert_eq!(l.tracks[0].edges, vec![(0, false)]);
}

// Tracks.

#[test]
fn spans_have_ranges_and_place_their_object() {
    let hold = TrackSpan::Hold { t0: 0, t1: pc(1.0), pose: iso(1.0, 0.0, 0.0) };
    let ride = TrackSpan::Linear {
        t0: pc(1.0),
        t1: pc(3.0),
        from: iso(1.0, 0.0, 0.0),
        velocity: v3(0.5, 0.0, 0.0),
    };
    let turn = TrackSpan::Pivot {
        t0: pc(3.0),
        t1: pc(4.0),
        from: iso(2.0, 0.0, 0.0),
        center: v3(2.0, 1.0, 0.0),
        omega: UNIT,
    };
    assert_eq!(ride.range(), (pc(1.0), pc(3.0)));
    assert_eq!(turn.range(), (pc(3.0), pc(4.0)));
    let spans = vec![hold, ride, turn];
    let at = |t: f64| SequenceTimeline::span_pose(&spans, pc(t)).unwrap();
    assert_eq!(at(0.5), Placement::At(iso(1.0, 0.0, 0.0)));
    assert_eq!(at(2.0), Placement::At(iso(1.5, 0.0, 0.0)));
    assert_eq!(
        at(3.5),
        Placement::Turned {
            from: iso(2.0, 0.0, 0.0),
            center: v3(2.0, 1.0, 0.0),
            phi: pc(0.5),
        },
    );
    // The last span extends past its end.
    assert_eq!(
        at(9.0),
        Placement::Turned { from: iso(2.0, 0.0, 0.0), center: v3(2.0, 1.0, 0.0), phi: pc(1.0) },
    );
    assert_eq!(SequenceTimeline::span_pose(&Vec::new(), 0), None);
}

#[test]
fn a_walking_base_is_lifted_tilted_and_swayed() {
    let ride = |t0: f64, t1: f64| Ride { t0: pc(t0), t1: pc(t1), plan: 0 };
    let spans = || {
        vec![
            TrackSpan::Linear {
                t0: 0,
                t1: pc(2.0),
                from: iso(1.0, 0.0, 0.3),
                velocity: v3(0.5, 0.0, 0.0),
            },
            TrackSpan::Pivot {
                t0: pc(2.0),
                t1: pc(4.0),
                from: iso(2.0, 0.0, 0.3),
                center: v3(2.0, 1.0, 0.0),
                omega: UNIT,
            },
        ]
    };
    let pitch = iso(0.01, 0.0, 0.02);
    let sway = iso(0.0, 0.03, 0.0);
    let bearing = Bearing { rise: pc(0.125), pitch, sway };
    let mut track = RobotTrack { base: Some(spans()), ..robot_track("dog", Vec::new(), Vec::new()) };
    // It does not walk: its base rides rigidly.
    assert_eq!(
        SequenceTimeline::base_pose(&track, pc(1.0), &bearing),
        Some(BasePose {
            ride: Placement::At(iso(1.5, 0.0, 0.3)),
            pitch: iso(0.0, 0.0, 0.0),
            sway: iso(0.0, 0.0, 0.0),
        }),
    );
    // It walks: the ride is lifted in the world, and the tilt and the sway follow.
    track.rise = vec![ride(0.0, 4.0)];
    track.pitch = vec![ride(0.0, 4.0)];
    track.sway = vec![ride(0.0, 4.0)];
    assert_eq!(
        SequenceTimeline::base_pose(&track, pc(1.0), &bearing),
        Some(BasePose { ride: Placement::At(iso(1.5, 0.0, 0.425)), pitch, sway }),
    );
    assert_eq!(
        SequenceTimeline::base_pose(&track, pc(3.0), &bearing),
        Some(BasePose {
            ride: Placement::Turned {
                from: iso(2.0, 0.0, 0.425),
                center: v3(2.0, 1.0, 0.0),
                phi: pc(1.0),
            },
            pitch,
            sway,
        }),
    );
    // It sways on the level.
    track.rise.clear();
    track.pitch.clear();
    assert_eq!(
        SequenceTimeline::base_pose(&track, pc(1.0), &bearing),
        Some(BasePose {
            ride: Placement::At(iso(1.5, 0.0, 0.3)),
            pitch: iso(0.0, 0.0, 0.0),
            sway,
        }),
    );
    // It rides nothing.
    track.base = None;
    assert_eq!(SequenceTimeline::base_pose(&track, pc(1.0), &bearing), None);
    track.base = Some(Vec::new());
    assert_eq!(SequenceTimeline::base_pose(&track, pc(1.0), &bearing), None);
}

#[test]
fn stowed_objects_are_not_drawn() {
    let track = ObjectTrack {
        name: text("part"),
        spans: vec![
            TrackSpan::Stowed { t0: 0, t1: pc(1.0), pose: iso(9.0, 0.0, 0.0) },
            TrackSpan::Hold { t0: pc(1.0), t1: pc(2.0), pose: iso(0.0, 0.0, 0.0) },
        ],
    };
    assert!(!SequenceTimeline::object_visible(&track, pc(0.5)));
    assert!(SequenceTimeline::object_visible(&track, pc(1.5)));
    assert_eq!(
        SequenceTimeline::object_pose(&track, pc(0.5)),
        Some(Placement::At(iso(9.0, 0.0, 0.0))),
    );
}

#[test]
fn tracks_tile_the_cycle() {
    let mut t = Tracks { list: Vec::new() };
    let span = TrackSpan::Follow {
        t0: pc(2.0),
        t1: pc(2.0),
        robot: 0,
        link: 1,
        offset: iso(0.0, 0.0, 0.0),
    };
    // It rests until it is taken.
    t.jump("part", iso(1.0, 0.0, 0.0), pc(2.0), span);
    // It is set down, and then conveyed.
    t.jump(
        "part",
        iso(3.0, 0.0, 0.0),
        pc(3.0),
        TrackSpan::Hold { t0: pc(3.0), t1: pc(3.0), pose: iso(3.0, 0.0, 0.0) },
    );
    t.extend_linear_span("part", iso(3.0, 0.0, 0.0), pc(4.0), pc(4.1), v3(1.0, 0.0, 0.0));
    t.extend_linear_span("part", iso(3.1, 0.0, 0.0), pc(4.1), pc(4.2), v3(1.0, 0.0, 0.0));
    t.finish(pc(4.2));
    let ranges: Vec<(i64, i64)> = t.list[0].spans.iter().map(|s| s.range()).collect();
    assert_eq!(
        ranges,
        vec![(0, pc(2.0)), (pc(2.0), pc(3.0)), (pc(3.0), pc(4.0)), (pc(4.0), pc(4.2))],
    );
}

#[test]
fn a_leg_is_one_span() {
    let mut spans: Vec<TrackSpan> = Vec::new();
    let go = VehiclePiece::Lin { velocity: v3(1.0, 0.0, 0.0) };
    push_vehicle_span(&mut spans, iso(0.0, 0.0, 0.0), pc(1.0), pc(1.1), &go);
    push_vehicle_span(&mut spans, iso(0.1, 0.0, 0.0), pc(1.1), pc(1.2), &go);
    assert_eq!(spans.len(), 2);
    assert_eq!(spans[0].range(), (0, pc(1.0)));
    assert_eq!(spans[1].range(), (pc(1.0), pc(1.2)));
    // It stood still for a second, then went on the same way: that is a rest
    // and a new leg.
    push_vehicle_span(&mut spans, iso(0.2, 0.0, 0.0), pc(2.2), pc(2.3), &go);
    let ranges: Vec<(i64, i64)> = spans.iter().map(|s| s.range()).collect();
    assert_eq!(ranges[2..], [(pc(1.2), pc(2.2)), (pc(2.2), pc(2.3))]);
}

// Moves.

#[test]
fn a_ramp_eases_from_end_to_end() {
    let ramp = ActiveMove::Ramp {
        start: pc(1.0),
        duration: pc(2.0),
        from: vec![0, pc(1.0)],
        to: vec![pc(1.0), pc(1.0)],
    };
    let at = |t: f64| ramp.sample(pc(t), &Vec::new());
    assert_eq!(at(0.0), vec![0, pc(1.0)]);
    assert_eq!(at(1.0), vec![0, pc(1.0)]);
    // u²(3 − 2u) at a quarter and at a half.
    assert_eq!(at(1.5)[0], pc(0.15625));
    assert_eq!(at(2.0)[0], pc(0.5));
    assert_eq!(at(3.0), vec![pc(1.0), pc(1.0)]);
    assert_eq!(at(9.0), vec![pc(1.0), pc(1.0)]);
    assert_eq!(ramp.end(), pc(3.0));
    assert!(ramp.ramp_driving(0, pc(2.0)));
    assert!(!ramp.ramp_driving(1, pc(2.0)));
    assert!(!ramp.ramp_driving(0, pc(3.5)));
}

#[test]
fn a_bake_runs_forward() {
    let mut bake = Bake { waypoints: Vec::new() };
    bake.append_waypoint(0, vec![0], vec![0]);
    bake.append_waypoint(pc(1.0), vec![1], vec![0]);
    // Not at the same instant again, nor earlier.
    bake.append_waypoint(pc(1.0), vec![2], vec![0]);
    bake.append_waypoint(pc(0.5), vec![3], vec![0]);
    assert_eq!(bake.waypoints.len(), 2);
    assert_eq!(bake.last(), Some(pc(1.0)));
    let traj = Trajectory {
        waypoints: vec![
            Waypoint { t: 0, q: vec![1], v: vec![0] },
            Waypoint { t: pc(0.5), q: vec![5], v: vec![0] },
        ],
        duration: pc(0.5),
    };
    bake.append_trajectory(pc(1.0), &traj);
    assert_eq!(bake.last(), Some(pc(1.5)));
    bake.truncate_after(pc(1.2));
    assert_eq!(bake.last(), Some(pc(1.0)));
    let again = ActiveMove::Traj { start: pc(1.0), traj };
    bake.rebake_tail(&again, pc(1.2));
    let times: Vec<i64> = bake.waypoints.iter().map(|w| w.t).collect();
    assert_eq!(times, vec![0, pc(1.0), pc(1.5)]);
}

// Drives.

#[test]
fn a_ring_takes_the_shorter_way() {
    let square =
        vec![v3(0.0, 0.0, 0.0), v3(4.0, 0.0, 0.0), v3(4.0, 1.0, 0.0), v3(0.0, 1.0, 0.0)];
    assert_eq!(vehicle_route(&square, false, 0, 3), vec![1, 2, 3]);
    assert_eq!(vehicle_route(&square, true, 0, 3), vec![3]);
    assert_eq!(vehicle_route(&square, true, 0, 1), vec![1]);
    // As long either way: up the indices.
    assert_eq!(vehicle_route(&square, true, 0, 2), vec![1, 2]);
    assert_eq!(vehicle_route(&square, true, 3, 2), vec![2]);
    assert_eq!(vehicle_route(&square, false, 2, 0), vec![1, 0]);
    assert_eq!(vehicle_route(&square, true, 1, 1), Vec::<usize>::new());
}

#[test]
fn a_tie_goes_forward_however_the_edges_are_rounded() {
    // Along a line: three metres' diagonal one way, three of one metre the other.
    let line = vec![v3(0.0, 0.0, 0.0), v3(3.0, 3.0, 3.0), v3(2.0, 2.0, 2.0), v3(1.0, 1.0, 1.0)];
    assert_eq!(vehicle_route(&line, true, 0, 1), vec![1]);
    assert_eq!(vehicle_route(&line, true, 1, 0), vec![2, 3, 0]);
    // Irrational edges in both ways around a kite.
    let kite = vec![v3(0.0, 0.0, 0.0), v3(1.0, 1.0, 0.0), v3(3.0, 0.0, 0.0), v3(1.0, -1.0, 0.0)];
    assert_eq!(vehicle_route(&kite, true, 0, 2), vec![1, 2]);
    assert_eq!(vehicle_route(&kite, true, 2, 0), vec![3, 0]);
    // A hundredth of a millimetre decides.
    let mut bent = kite;
    bent[1].y += 10_000_000;
    assert_eq!(vehicle_route(&bent, true, 0, 2), vec![3, 2]);
}

#[test]
fn a_drive_ends_where_its_profile_says() {
    let bend = vec![v3(0.0, 0.0, 0.0), v3(1.0, 0.0, 0.0), v3(1.0, 1.0, 0.0)];
    let route = vehicle_route(&bend, false, 0, 2);
    let legs = build_legs(
        &bend,
        &route,
        &vec![0, 1_570_796_326_795],
        bend[0],
        0,
        pc(0.5),
        pc(1.0),
        &Drive::Differential { allow_reverse: false },
    );
    assert_eq!(legs.len(), 3);
    assert!(matches!(legs[1], Leg::Turn { .. }));
    let profile = body_profile(&legs, bend[0], 0, pc(2.0));
    // Two metres at half a metre a second, and a quarter turn.
    assert_eq!(profile.t_end, pc(2.0) + pc(4.0) + 1_570_796_326_795);
    assert_eq!(profile.end_position, bend[2]);

    let mut left = build_legs(
        &bend,
        &route,
        &vec![0, 1_570_796_326_795],
        bend[0],
        0,
        pc(0.5),
        pc(1.0),
        &Drive::Differential { allow_reverse: false },
    );
    let (mut at, mut heading, mut t) = (bend[0], 0, pc(2.0));
    while !left.is_empty() {
        t += pc(0.01);
        walk_legs(&mut left, &mut at, &mut heading, pc(0.01), t);
    }
    assert_eq!(at, profile.end_position);
    assert_eq!(heading, profile.end_heading);
    assert!(t >= profile.t_end && t - profile.t_end < pc(0.01));
}

#[test]
fn headings_wrap_to_a_half_turn() {
    assert_eq!(wrap_angle(0), 0);
    assert_eq!(wrap_angle(PI as i128), PI);
    assert_eq!(wrap_angle(-(PI as i128)), PI);
    assert_eq!(wrap_angle(PI as i128 + 1), 1 - PI);
    assert_eq!(wrap_angle(3 * TAU as i128 + 5), 5);
    assert_eq!(wrap_angle(-(TAU as i128) - 7), -7);
}

#[test]
fn a_foot_swings_over_half_of_what_it_climbs() {
    assert_eq!(swing_lift(pc(0.05), 0, 0), pc(0.05));
    assert_eq!(swing_lift(pc(0.05), 0, pc(0.2)), pc(0.15));
    assert_eq!(swing_lift(pc(0.05), pc(0.2), 0), pc(0.15));
}

#[test]
fn a_foothold_lies_inside_the_edges_of_its_tread() {
    let tread = |walkable: bool, half: Option<Vec3>| Obstacle {
        name: text("tread"),
        pose: iso(0.0, 0.0, 0.1),
        enabled: true,
        walkable,
        half,
    };
    let half = Some(v3(0.5, 0.2, 0.1));
    // A body that is no box, or not to be walked on, is no tread.
    let bodies = vec![tread(true, None), tread(true, half), tread(false, half)];
    assert_eq!(tread_tops(&bodies), vec![pc(0.2)]);
    assert_eq!(
        tread_covers(&bodies, &vec![v3(-0.4, 0.3, 0.0)]),
        vec![Cover { mx: pc(0.1), my: pc(-0.1) }],
    );
}

#[test]
fn a_foot_stands_on_the_highest_tread_in_reach() {
    let tops = vec![0, pc(0.1), pc(0.5)];
    let inside = Cover { mx: pc(0.2), my: pc(0.2) };
    let edge = Cover { mx: pc(0.01), my: pc(0.2) };
    let off = Cover { mx: pc(-0.1), my: pc(0.2) };
    let on = |covers: Vec<Cover>| {
        support(&tops, &covers, 0, pc(0.2), pc(0.02)).map(|s| (s.tread, s.top))
    };
    assert_eq!(on(vec![inside, inside, inside]), Some((1, pc(0.1))));
    assert_eq!(on(vec![inside, off, inside]), Some((0, 0)));
    assert_eq!(on(vec![off, edge, off]), Some((1, pc(0.1))));
    assert_eq!(on(vec![off, off, inside]), None);
}

// What a timeline says.

#[test]
fn busy_time_counts_overlaps_once() {
    let tl = timeline(
        10.0,
        vec![
            robot_track("a", vec![(0.0, 2.0), (1.0, 3.0), (5.0, 6.0)], Vec::new()),
            robot_track("b", Vec::new(), Vec::new()),
        ],
    );
    assert_eq!(tl.busy_seconds("a"), Some(pc(4.0)));
    assert_eq!(tl.utilization("a"), Some(pc(0.4)));
    assert_eq!(tl.busy_seconds("b"), Some(0));
    assert_eq!(tl.utilization("b"), Some(0));
    assert_eq!(tl.busy_seconds("c"), None);
    assert_eq!(tl.utilization("c"), None);
    assert_eq!(tl.robot_track("b").unwrap().name, "b");
    assert!(tl.robot_track("c").is_none());
    let nothing = timeline(0.0, vec![robot_track("a", Vec::new(), Vec::new())]);
    assert_eq!(nothing.utilization("a"), Some(0));
}

#[test]
fn process_spans_are_merged_in_time_order() {
    let tl = timeline(
        10.0,
        vec![
            robot_track(
                "a",
                Vec::new(),
                vec![vec![(3.0, 4.0), (4.0, 4.5)], vec![(1.0, 2.0), (5.0, 6.0)]],
            ),
            robot_track("b", Vec::new(), Vec::new()),
        ],
    );
    let spans: Vec<(i64, i64)> =
        tl.process_spans(0).unwrap().iter().map(|s| (s.start, s.end)).collect();
    assert_eq!(spans, vec![(pc(1.0), pc(2.0)), (pc(3.0), pc(4.5)), (pc(5.0), pc(6.0))]);
    // It ran no toolpath; and there is no such robot.
    assert!(tl.process_spans(1).is_none());
    assert!(tl.process_spans(2).is_none());
}

#[test]
fn time_off_the_ground_is_exact() {
    let mut tl = timeline(10.0, Vec::new());
    tl.vehicles.push(ObjectTrack {
        name: text("drone"),
        spans: vec![
            TrackSpan::Hold { t0: 0, t1: pc(1.0), pose: iso(0.0, 0.0, 0.0) },
            TrackSpan::Linear {
                t0: pc(1.0),
                t1: pc(3.0),
                from: iso(0.0, 0.0, 0.0),
                velocity: v3(0.0, 0.0, 1.0),
            },
            TrackSpan::Hold { t0: pc(3.0), t1: pc(7.5), pose: iso(0.0, 0.0, 2.0) },
        ],
    });
    tl.vehicles.push(ObjectTrack { name: text("idle"), spans: Vec::new() });
    assert_eq!(tl.vehicle_airborne("drone"), Some(pc(6.5)));
    assert_eq!(tl.vehicle_airborne("idle"), None);
    assert_eq!(tl.vehicle_airborne("none"), None);
}

// Zones.

#[test]
fn a_zone_reaches_half_its_size_either_way() {
    let size = v3(1.0, 2.0, 0.5);
    assert!(inside_zone(v3(0.0, 0.0, 0.0), size));
    assert!(inside_zone(v3(0.5, -1.0, 0.25), size));
    assert!(!inside_zone(Vec3 { x: pc(0.5) + 1, y: 0, z: 0 }, size));
    assert!(!inside_zone(v3(0.0, 1.1, 0.0), size));
    assert!(!inside_zone(v3(0.0, 0.0, -0.3), size));
    let points = vec![v3(0.0, 0.0, 0.0), v3(2.0, 0.0, 0.0)];
    assert_eq!(mark_zone(&points, Some(size)), vec![true, false]);
    assert_eq!(mark_zone(&points, None), vec![false, false]);
}

// Sight.

#[test]
fn a_body_in_front_hides_the_one_behind() {
    let body = |name: &str, x: f64| Obstacle {
        name: text(name),
        pose: iso(x, 0.0, 0.0),
        enabled: true,
        walkable: false,
        half: None,
    };
    let mut bodies = vec![body("front", 1.0), body("back", 2.0)];
    let reading = Reading {
        pose: iso(0.0, 0.0, 0.0),
        hits: vec![true, true],
        rays: vec![vec![Some(pc(0.9)), None], vec![Some(pc(0.45)), Some(pc(0.95))]],
        robots: Vec::new(),
    };
    assert!(!occluded(&reading, &bodies, 0, &Vec::new()));
    assert!(occluded(&reading, &bodies, 1, &Vec::new()));
    // What carries the sensor is looked past, and so is what is switched off.
    assert!(!occluded(&reading, &bodies, 1, &vec![0]));
    bodies[0].enabled = false;
    assert!(!occluded(&reading, &bodies, 1, &Vec::new()));
}

// Texts.

#[test]
fn numbers_are_written_as_they_are_read() {
    assert_eq!(plain_text(pc(30.0)), "30");
    assert_eq!(plain_text(pc(0.25)), "0.25");
    assert_eq!(plain_text(pc(-1.5)), "-1.5");
    assert_eq!(plain_text(1), "0.000000000001");
    assert_eq!(places_text(pc(1.2345), 3), "1.234");
    assert_eq!(places_text(pc(1.2346), 3), "1.235");
    assert_eq!(places_text(pc(-0.5), 3), "-0.500");
    assert_eq!(places_text(pc(2.0), 2), "2.00");
}

#[test]
fn forced_inputs_are_named_in_one_breath() {
    assert_eq!(forced_note(&Vec::new()), "");
    assert_eq!(
        forced_note(&vec![(text("a"), false), (text("b"), true)]),
        " — forced: a=false, b=true",
    );
}

#[test]
fn every_error_says_what_went_wrong() {
    let name = || text("pick");
    let says = |e: SeqError, want: &str| assert_eq!(e.text(), want);
    says(SeqError::UnknownSequence(text("cycle")), "unknown sequence `cycle`");
    says(SeqError::Validation { step: Some(3), message: text("bad") }, "step 3: bad");
    says(SeqError::Validation { step: None, message: text("bad") }, "step -: bad");
    says(
        SeqError::PlanFailed { step: 1, name: name(), message: text("no path") },
        "step 1 (`pick`): planning failed: no path",
    );
    says(
        SeqError::Action { step: 1, name: name(), message: text("no gripper") },
        "step 1 (`pick`): no gripper",
    );
    says(
        SeqError::Timeout { step: 2, name: name(), limit: pc(30.0), forced: Vec::new() },
        "timed out after 30s waiting in step 2 (`pick`)",
    );
    says(
        SeqError::Timeout {
            step: 2,
            name: name(),
            limit: pc(30.0),
            forced: vec![(text("eye"), false)],
        },
        "timed out after 30s waiting in step 2 (`pick`) — forced: eye=false",
    );
    says(
        SeqError::ProgramsTimeout {
            at: text("a: step 0 (`x`)"),
            limit: pc(2.5),
            forced: Vec::new(),
        },
        "timed out after 2.5s; programs waiting at: a: step 0 (`x`)",
    );
    says(
        SeqError::ImmediateLoop { step: 4, name: name(), limit: 64 },
        "step 4 (`pick`): >64 instantaneous steps in one scan tick (immediate loop?)",
    );
    says(
        SeqError::RobotCollision {
            t: pc(1.25),
            a: text("a"),
            b: text("b"),
            link_a: text("l1"),
            link_b: text("l2"),
        },
        "robots `a` and `b` collide at t = 1.250s (l1 × l2); add an interlock (zone sensor / robot_done) so one waits for the other",
    );
    says(
        SeqError::VehicleCollision {
            t: pc(1.25),
            vehicle: text("agv"),
            body: text("deck"),
            obstacle: text("shelf"),
        },
        "vehicle `agv` collides with `shelf` at t = 1.250s (body part `deck`); widen the aisle or re-teach the path",
    );
    says(
        SeqError::RiderCollision {
            t: pc(1.25),
            vehicle: text("agv"),
            robot: text("arm"),
            part: text("wrist"),
            obstacle: text("shelf"),
        },
        "robot `arm` riding `agv` collides with `shelf` at t = 1.250s (`wrist`); widen the aisle or re-teach the path",
    );
    says(
        SeqError::GaitReach {
            t: pc(1.25),
            robot: text("dog"),
            leg: text("fl"),
            stride: pc(0.2),
            reach: pc(0.45),
            drop: pc(0.3),
            detail: text("short by 5 mm"),
        },
        "robot `dog`: leg `fl` cannot reach its footfall at t = 1.250s — 0.450 m from the hip to a foot +0.300 m below the body, on a 0.200 m stride (short by 5 mm); lower the vehicle speed, shorten the gait period, or take the grade in smaller steps",
    );
    says(
        SeqError::StepHeight {
            t: pc(1.25),
            robot: text("dog"),
            leg: text("fl"),
            rise: pc(0.3),
            max_step: pc(0.2),
            x: pc(1.0),
            y: pc(-0.5),
            z: pc(0.3),
        },
        "robot `dog`: leg `fl` would step 0.300 m at (1.000, -0.500, 0.300) on the walk dispatched at t = 1.250s, over the gait's max_step 0.200 m; smaller risers, or a machine that climbs higher",
    );
    says(
        SeqError::FootOverhang {
            t: pc(1.25),
            robot: text("dog"),
            leg: text("fl"),
            obstacle: text("tread"),
            margin: pc(0.01),
            need: pc(0.02),
        },
        "robot `dog`: leg `fl` lands 0.010 m inside the edge of `tread` at t = 1.250s (the foot needs 0.020 m); move the path, the stride or the stairs so the foot is on the tread",
    );
    says(
        SeqError::VehicleRobotCollision {
            t: pc(1.25),
            vehicle: text("agv"),
            body: text("deck"),
            robot: text("arm"),
            link: text("elbow"),
        },
        "vehicle `agv`: `deck` hits robot `arm` (link `elbow`) at t = 1.250s while driving; hold the robot clear with an interlock or re-teach the path",
    );
}

#[test]
fn an_arm_that_was_not_taken_is_named() {
    let arm = UncoveredArm {
        sequence: text("cycle"),
        step: text("judge"),
        select: 0,
        arm: 1,
        condition: text("signal ng = true"),
    };
    assert_eq!(arm.text(), "`cycle` step `judge` arm 2 (when signal ng = true)");
    match arm_coverage(&scene(), &[], &Vec::new()) {
        Err(why) => assert_eq!(why, "no timelines to measure coverage over"),
        Ok(_) => panic!("covered"),
    }
}

// Compiled steps.

#[test]
fn compiled_steps_only_lead_forward() {
    let steps = vec![
        step("a", Condition::Immediately),
        branch(
            "b",
            vec![
                (signal("x", true), vec![step("b1", Condition::Done), step("b2", Condition::Done)]),
                (signal("x", false), Vec::new()),
            ],
        ),
        step("c", Condition::Done),
    ];
    let flat = flatten(&steps);
    let names: Vec<&str> = flat.iter().map(|f| f.step.name.as_str()).collect();
    assert_eq!(names, vec!["a", "b", "b1", "b2", "c"]);
    let exits: Vec<Vec<usize>> = flat.iter().map(|f| f.exits.clone()).collect();
    assert_eq!(exits, vec![vec![1], vec![2, 4], vec![3], vec![4], vec![5]]);
    assert_eq!(flat[1].select, Some(0));
    for (i, f) in flat.iter().enumerate() {
        assert!(f.exits.iter().all(|e| *e > i));
    }
}

// Lowering.

/// A simplifier that leaves every test as it is.
fn as_written() -> PlainTests {
    PlainTests { list: Vec::new() }
}

#[test]
fn ports_are_bound_as_they_are() {
    let io = SequenceIo::from_ports(vec![(text("start"), 4)], vec![(text("lamp"), 7)]);
    assert_eq!(io.inputs.len(), 1);
    assert_eq!((io.inputs[0].1.port, io.inputs[0].1.invert), (4, false));
    assert_eq!((io.outputs[0].1.port, io.outputs[0].1.invert), (7, false));
    assert!(io.self_robot.is_none());
    match digital_test(&signal("start", false), &io, "step 1") {
        Ok(DigitalTest::Input { port, value }) => assert_eq!((port, value), (4, false)),
        other => panic!("{other:?}"),
    }
    assert!(matches!(digital_test(&Condition::Immediately, &io, "x"), Ok(DigitalTest::Always)));
}

#[test]
fn an_inverted_port_tests_the_other_level() {
    let mut io = SequenceIo::from_ports(vec![(text("start"), 4)], Vec::new());
    io.inputs[0].1.invert = true;
    match digital_test(&signal("start", true), &io, "step 1") {
        Ok(DigitalTest::Input { port, value }) => assert_eq!((port, value), (4, false)),
        other => panic!("{other:?}"),
    }
}

#[test]
fn what_has_no_port_is_refused_by_name() {
    let io = SequenceIo::from_ports(Vec::new(), Vec::new());
    let refused = digital_test(&signal("start", true), &io, "step 1 `go`");
    assert!(refused.unwrap_err().starts_with(
        "step 1 `go`: signal `start` has no input port — bind it on the robot controller node"
    ));
    let mut commands = Vec::new();
    let mut warnings = Vec::new();
    assert!(lower_condition(
        &signal("start", true),
        &io,
        &as_written(),
        "step 1 `go`",
        false,
        &mut commands,
        &mut warnings,
    )
    .is_err());
    // A device has no port to be commanded through: that is a warning.
    lower_device(
        "belt",
        &DeviceCommand::Start,
        &io,
        "step 1 `go`",
        &mut commands,
        &mut warnings,
    );
    assert_eq!(warnings.len(), 1);
    assert!(warnings[0].contains("belt"), "{}", warnings[0]);
}

#[test]
fn a_refused_alternative_emits_nothing() {
    let io = SequenceIo::from_ports(vec![(text("start"), 4)], Vec::new());
    let timer = Condition::Elapsed { seconds: pc(1.0) };
    let mut commands = vec![Command::Comment { text: text("before") }];
    let mut warnings = vec![text("before")];
    let either = Condition::Any(vec![signal("start", true), timer]);
    let err =
        lower_condition(&either, &io, &as_written(), "step 1", true, &mut commands, &mut warnings).unwrap_err();
    assert!(err.contains("timer"), "{err}");
    assert_eq!((commands.len(), warnings.len()), (1, 1));
    // What is waited for in turn stands up to what is refused.
    let both = Condition::All(vec![
        signal("start", true),
        Condition::Elapsed { seconds: pc(1.0) },
        signal("ghost", true),
    ]);
    assert!(lower_condition(&both, &io, &as_written(), "step 1", false, &mut commands, &mut warnings).is_err());
    assert_eq!((commands.len(), warnings.len()), (3, 1));
}

#[test]
fn a_compound_wait_is_emitted_in_its_plainest_form() {
    let io = SequenceIo::from_ports(vec![(text("start"), 4), (text("stop"), 5)], Vec::new());
    let test = |c: &Condition| digital_test(c, &io, "step 1").unwrap();
    let both = Condition::All(vec![signal("start", true), signal("stop", false)]);
    let sole = Condition::All(vec![signal("start", true), Condition::Immediately]);
    let none = Condition::Any(vec![signal("stop", true), Condition::Done]);
    let plain = PlainTests {
        list: vec![
            (test(&sole), DigitalTest::Input { port: 4, value: true }),
            (test(&none), DigitalTest::Always),
        ],
    };
    let mut commands = Vec::new();
    let mut warnings = Vec::new();
    for condition in [&sole, &none, &both] {
        lower_condition(condition, &io, &plain, "step 1", false, &mut commands, &mut warnings)
            .unwrap();
    }
    // The vacuous wait left nothing; what is not listed stands as it is.
    assert_eq!(commands.len(), 2, "{commands:?}");
    assert!(matches!(commands[0], Command::WaitDigitalIn { port: 4, value: true }));
    match &commands[1] {
        Command::WaitTest { test: DigitalTest::AllOf(tests) } => {
            assert!(same_test(&tests[0], &DigitalTest::Input { port: 4, value: true }));
            assert!(same_test(&tests[1], &DigitalTest::Input { port: 5, value: false }));
            assert!(!same_test(&tests[0], &tests[1]));
        }
        other => panic!("{other:?}"),
    }
    // A vacuous wait beside a move is warned of all the same.
    lower_condition(&none, &io, &plain, "step 1", true, &mut commands, &mut warnings).unwrap();
    assert_eq!((commands.len(), warnings.len()), (2, 1));
    assert!(warnings[0].contains("the compound wait"), "{warnings:?}");
    // One test in another order is another test.
    let other = Condition::All(vec![signal("stop", false), signal("start", true)]);
    assert!(!same_test(&test(&both), &test(&other)));
    assert!(same_test(&copied_test(&test(&both)), &test(&both)));
    // Nothing is plainer than a lone input.
    let odd = PlainTests {
        list: vec![(DigitalTest::Input { port: 4, value: true }, DigitalTest::Always)],
    };
    let kept = odd.simplify(DigitalTest::Input { port: 4, value: true });
    assert!(matches!(kept, DigitalTest::Input { port: 4, value: true }));
}

#[test]
fn an_export_asks_for_the_tests_of_its_waits_and_guards() {
    let wired = SequenceIo::from_ports(vec![(text("start"), 4), (text("stop"), 5)], Vec::new());
    let io = wired.run_by("arm");
    assert_eq!(io.self_robot, Some(text("arm")));
    let timer = || Condition::Elapsed { seconds: pc(1.0) };
    let both = || Condition::All(vec![signal("start", true), signal("stop", false)]);
    let idle = || Condition::RobotDone { robot: text("arm") };
    let steps = vec![
        // A lone contact is waited for as it is.
        step("one", signal("start", true)),
        step("two", both()),
        // Each in turn: the timer, and what can be tested.
        step("three", Condition::All(vec![timer(), both()])),
        // The only alternative.
        step("four", Condition::Any(vec![Condition::Any(vec![idle(), signal("stop", true)])])),
        // No test at all.
        step("five", Condition::Any(vec![timer(), signal("stop", true)])),
        branch(
            "six",
            vec![
                (signal("stop", true), vec![step("seven", both())]),
                (timer(), Vec::new()),
            ],
        ),
    ];
    let tests = compound_tests(&steps, &io);
    let test = |c: &Condition| digital_test(c, &io, "step").unwrap();
    let want = [
        test(&both()),
        test(&both()),
        DigitalTest::AnyOf(vec![DigitalTest::Always, DigitalTest::Input { port: 5, value: true }]),
        DigitalTest::Input { port: 5, value: true },
        test(&both()),
    ];
    assert_eq!(tests.len(), want.len(), "{tests:?}");
    for (a, b) in tests.iter().zip(&want) {
        assert!(same_test(a, b), "{a:?} {b:?}");
    }
}

fn bare_robot() -> Robot {
    Robot {
        name: text("arm"),
        links: vec![text("base")],
        joints: Vec::new(),
        actuated: Vec::new(),
        tool_mount_link: 0,
        q: Vec::new(),
        base: iso(0.0, 0.0, 0.0),
        mount: None,
    }
}

#[test]
fn a_refused_action_emits_nothing() {
    let io = SequenceIo::from_ports(Vec::new(), vec![(text("lamp"), 7)]);
    let robot = bare_robot();
    let mut lowering = Lowering {
        io: &io,
        plain: &as_written(),
        robot: &robot,
        blend_radius: 0,
        joint_velocity: UNIT,
        joint_acceleration: UNIT,
        tcp_velocity: UNIT,
        tcp_acceleration: UNIT,
        sources: Vec::new(),
        warnings: Vec::new(),
        step_no: 0,
        selects_seen: 0,
        pending_rejoin: None,
    };
    let (mut q, mut out) = (vec![pc(0.3)], Vec::new());
    let set = |signal: &str| Action::SetSignal { signal: text(signal), value: true };
    let none: Vec<usize> = Vec::new();
    assert!(lowering.lower_action(&set("lamp"), &none, None, "s", &mut q, &mut out).is_ok());
    assert!(matches!(out[..], [Command::SetDigitalOut { port: 7, value: true }]));
    let err = lowering.lower_action(&set("horn"), &none, None, "s", &mut q, &mut out).unwrap_err();
    assert!(err.contains("horn") && err.contains("outputs="), "{err}");
    let go = Action::StartMotion { motion: text("reach") };
    let err = lowering.lower_action(&go, &none, None, "s", &mut q, &mut out).unwrap_err();
    assert!(err.contains("never planned") && err.contains("reach"), "{err}");
    assert_eq!((out.len(), q), (1, vec![pc(0.3)]));
    assert!(lowering.warnings.is_empty());
}

#[test]
fn configurations_are_as_far_apart_as_their_farthest_joint() {
    assert_eq!(distance(&vec![0, 0], &vec![pc(3.0), pc(-4.0)]), pc(4.0));
    assert_eq!(distance(&vec![pc(1.0)], &vec![pc(1.0)]), 0);
}

#[test]
fn the_driven_robot_is_named() {
    let mut cell = scene();
    cell.robots.push(Robot {
        name: text("arm"),
        links: vec![text("base")],
        joints: Vec::new(),
        actuated: Vec::new(),
        tool_mount_link: 0,
        q: Vec::new(),
        base: iso(0.0, 0.0, 0.0),
        mount: None,
    });
    cell.sequences.push(Sequence {
        name: text("s"),
        steps: vec![Step {
            name: text("close"),
            actions: vec![Action::StartRamp {
                robot: None,
                targets: Vec::new(),
                duration: UNIT,
            }],
            transition: Condition::Done,
            select: Vec::new(),
        }],
    });
    let tl = timeline(1.0, Vec::new());
    assert_eq!(driven_robot_name(&cell, &tl, None, &vec![Ok(0)]), Ok(text("arm")));
    assert_eq!(driven_robot_name(&cell, &tl, Some("s"), &vec![Ok(0)]), Ok(text("arm")));
    match driven_robot_name(&cell, &tl, Some("t"), &Vec::new()) {
        Err(why) => assert_eq!(
            why,
            "sequence `t` was not part of this rollout (rolled: `s`) — simulate it, together with the programs it runs beside, first",
        ),
        Ok(_) => panic!("resolved"),
    }
}

// Starting a run.

#[test]
fn runs_are_refused_before_they_start() {
    let mut cell = scene();
    cell.signals.push(Signal { name: text("go"), initial: false });
    cell.sequences.push(Sequence {
        name: text("s"),
        steps: vec![step("wait", signal("go", true))],
    });
    cell.sequences.push(Sequence { name: text("empty"), steps: Vec::new() });
    let options = RolloutOptions::default();
    let start = |names: &[&str], faults: Vec<Option<SequenceFault>>, shared: Option<String>| {
        assert!(cell.is_rollable(names, &faults));
        match cell.simulate_sequences(names, options, &faults, &shared) {
            Ok(_) => text("started"),
            Err(e) => e.text(),
        }
    };
    assert_eq!(start(&["s"], vec![None], None), "started");
    assert_eq!(start(&[], Vec::new(), None), "step -: no sequences to simulate");
    assert_eq!(start(&["s", "s"], vec![None, None], None), "step -: sequence `s` is listed twice");
    assert_eq!(start(&["t"], vec![None], None), "unknown sequence `t`");
    let fault = |m: &str| Some(SequenceFault { step: Some(0), message: text(m) });
    assert_eq!(start(&["empty"], vec![fault("no steps")], None), "step 0: no steps");
    assert_eq!(
        start(&["s", "empty"], vec![None, fault("no steps")], None),
        "step 0: sequence `empty`: no steps",
    );
    // An empty sequence in which no fault was found cannot be rolled out.
    assert!(!cell.is_rollable(&["empty"], &vec![None]));
    assert!(!cell.is_rollable(&["s"], &Vec::new()));
}

#[test]
fn a_run_says_which_reply_it_waits_for() {
    let mut cell = scene();
    cell.signals.push(Signal { name: text("go"), initial: false });
    cell.sequences.push(Sequence {
        name: text("s"),
        steps: vec![step("wait", Condition::Elapsed { seconds: pc(0.02) })],
    });
    let mut run = cell
        .simulate_sequence("s", RolloutOptions::default(), &vec![None])
        .unwrap();
    assert_eq!(run.phase, Phase::Sense { starting: true });
    assert!(!run.accepts(&Reply::Sampled(Vec::new())));
    assert!(!run.accepts(&Reply::Sensed(vec![Reading {
        pose: iso(0.0, 0.0, 0.0),
        hits: Vec::new(),
        rays: Vec::new(),
        robots: Vec::new(),
    }])));
    assert!(run.accepts(&Reply::Sensed(Vec::new())));
    run.advance(Reply::Sensed(Vec::new())).unwrap();
    assert_eq!(run.phase, Phase::Joints);
    assert!(run.accepts(&Reply::Sampled(Vec::new())));
    // Instants are whole scans.
    assert_eq!(run.world.t, pc(0.01));
}
