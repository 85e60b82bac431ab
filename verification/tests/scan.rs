//! Sweeps of a scanner over hand-made geometry.

use botrail_scene::accept::{is_answer_fitting, is_sweepable};
use botrail_scene::fixed::{Pose, Vec3, UNIT};
use botrail_scene::motion::Bake;
use botrail_scene::scan::{
    beam_angles, beam_grid, frame_times, lidar_scan, lidar_scan_at, mount_exclusions, noise_key, noise_keys,
    reach_cull, scan_base, scan_bodies, scan_placements, scan_sweep, splitmix64, sweep, LidarScan,
    ScanBase, ScanNoise, SceneError, SweepAnswer, SweepReply,
};
use botrail_scene::scene::{
    DeviceKind, DeviceSpec, Lidar, Obstacle, OpticMount, Robot, Scene, VehiclePath,
};
use botrail_scene::timeline::{RobotTrack, SequenceTimeline};
use botrail_scene::tracks::{ObjectTrack, Placement, TrackSpan};
use botrail_scene::vehicle::Drive;

fn pc(x: f64) -> i64 {
    (x * 1e12).round() as i64
}

fn v3(x: f64, y: f64, z: f64) -> Vec3 {
    Vec3 { x: pc(x), y: pc(y), z: pc(z) }
}

fn iso(x: f64, y: f64, z: f64) -> Pose {
    Pose { at: v3(x, y, z), i: 0, j: 0, k: 0, w: UNIT }
}

fn body(name: &str, x: f64) -> Obstacle {
    Obstacle {
        name: name.to_string(),
        pose: iso(x, 0.0, 0.0),
        enabled: true,
        walkable: false,
        half: None,
    }
}

/// Five beams over 40 degrees: 0.5 to 10.
fn scanner(mount: OpticMount) -> Lidar {
    Lidar {
        name: "front".to_string(),
        mount,
        pose: iso(0.0, 0.0, 0.0),
        fov_deg: pc(40.0),
        resolution_deg: pc(10.0),
        channels: 1,
        vfov_deg: 0,
        range: (pc(0.5), pc(10.0)),
    }
}

fn arm() -> Robot {
    Robot {
        name: "arm".to_string(),
        links: vec!["base".to_string(), "flange".to_string()],
        joints: Vec::new(),
        actuated: Vec::new(),
        tool_mount_link: 1,
        q: Vec::new(),
        base: iso(0.0, 0.0, 0.0),
        mount: None,
    }
}

fn cell(mount: OpticMount, obstacles: Vec<Obstacle>, robots: Vec<Robot>) -> Scene {
    Scene {
        signals: Vec::new(),
        sensors: Vec::new(),
        cameras: Vec::new(),
        lidars: vec![scanner(mount)],
        devices: vec![DeviceSpec {
            name: "agv".to_string(),
            kind: DeviceKind::Vehicle {
                path: VehiclePath {
                    waypoints: vec![v3(0.0, 0.0, 0.0), v3(4.0, 0.0, 0.0)],
                    stations: vec![("home".to_string(), 0)],
                    ring: false,
                    headings: vec![0, 0],
                },
                body: vec!["deck".to_string(), "gone".to_string()],
                speed: UNIT,
                turn_speed: UNIT,
                start: "home".to_string(),
                drive: Drive::Differential { allow_reverse: false },
                tray: None,
            },
        }],
        robots,
        obstacles,
        attachments: Vec::new(),
        motions: Vec::new(),
        toolpaths: Vec::new(),
        sequences: Vec::new(),
        forced_inputs: Vec::new(),
    }
}

fn cycle(duration: f64, robots: Vec<RobotTrack>, objects: Vec<ObjectTrack>) -> SequenceTimeline {
    SequenceTimeline {
        duration: pc(duration),
        sequences: vec!["cycle".to_string()],
        scenario: None,
        robots,
        objects,
        vehicles: Vec::new(),
        signals: Vec::new(),
        step_spans: Vec::new(),
        branches: Vec::new(),
    }
}

/// Nothing met by any beam; the draws are for the given noise.
fn empty_sweep(scene: &Scene, noise: Option<ScanNoise>, instant: u64) -> SweepReply {
    let (rings, beams) = beam_grid(&scene.lidars[0]);
    let n = rings * beams;
    let keys = match noise {
        Some(noise) => noise_keys(&scene.lidars[0], noise, instant),
        None => vec![0; n],
    };
    SweepReply {
        frame: iso(0.0, 0.0, 0.0),
        bodies: (0..n).map(|_| vec![None; scene.obstacles.len()]).collect(),
        links: (0..n)
            .map(|_| scene.robots.iter().map(|r| vec![None; r.links.len()]).collect())
            .collect(),
        boxes: vec![None; scene.obstacles.len()],
        instant,
        draws: keys.into_iter().map(|k| (k, pc(1.0))).collect(),
    }
}

fn hits(scan: &LidarScan) -> Vec<Option<&str>> {
    scan.hits.iter().map(|h| h.as_deref()).collect()
}

#[test]
fn the_hash_is_splitmix64() {
    assert_eq!(splitmix64(0), 0xE220_A839_7B1D_CDAF);
    assert_eq!(splitmix64(1), 0x910A_2DEC_8902_5CC1);
    assert_eq!(noise_key(0, 0, 0), 0xA706_DD2F_4D19_7E6F);
    assert_eq!(noise_key(7, 3, 5), 0xF401_F15C_FEE7_47E8);
}

#[test]
fn every_beam_has_its_own_noise_key() {
    let scene = cell(OpticMount::World, Vec::new(), Vec::new());
    let noise = ScanNoise { sigma: pc(0.01), seed: 7 };
    let keys = noise_keys(&scene.lidars[0], noise, 5);
    assert_eq!(keys.len(), 5);
    assert_eq!(keys[3], noise_key(7, 3, 5));
    for i in 0..keys.len() {
        for j in 0..i {
            assert_ne!(keys[i], keys[j]);
        }
    }
    assert_ne!(noise_keys(&scene.lidars[0], noise, 6), keys);
}

#[test]
fn the_beam_grid_spans_the_field() {
    let scene = cell(OpticMount::World, Vec::new(), Vec::new());
    assert_eq!(beam_grid(&scene.lidars[0]), (1, 5));
    let scan = lidar_scan(&scene, "front", None, &empty_sweep(&scene, None, 0)).unwrap();
    assert_eq!(scan.angles, vec![pc(-20.0), pc(-10.0), 0, pc(10.0), pc(20.0)]);
    assert_eq!(scan.elevations, vec![0; 5]);
    assert_eq!(scan.t, None);
    assert_eq!(scan.pose, iso(0.0, 0.0, 0.0));
}

#[test]
fn a_full_circle_drops_the_closing_beam() {
    let mut lidar = scanner(OpticMount::World);
    lidar.fov_deg = pc(360.0);
    lidar.resolution_deg = pc(90.0);
    assert_eq!(beam_grid(&lidar), (1, 4));
    lidar.fov_deg = pc(270.0);
    assert_eq!(beam_grid(&lidar), (1, 4));
    lidar.fov_deg = 0;
    assert_eq!(beam_grid(&lidar), (1, 2));
}

#[test]
fn rings_spread_over_the_vertical_field_bottom_first() {
    let mut scene = cell(OpticMount::World, Vec::new(), Vec::new());
    scene.lidars[0].channels = 3;
    scene.lidars[0].vfov_deg = pc(30.0);
    assert_eq!(beam_grid(&scene.lidars[0]), (3, 5));
    let scan = lidar_scan(&scene, "front", None, &empty_sweep(&scene, None, 0)).unwrap();
    assert_eq!(scan.elevations[0], pc(-15.0));
    assert_eq!(scan.elevations[5], 0);
    assert_eq!(scan.elevations[14], pc(15.0));
    assert_eq!(scan.angles[5], pc(-20.0));
    let ways: Vec<(i64, i64)> =
        scan.angles.iter().copied().zip(scan.elevations.iter().copied()).collect();
    assert_eq!(beam_angles(&scene.lidars[0]), ways);
}

#[test]
fn a_scanner_needs_a_grid() {
    let mut lidar = scanner(OpticMount::World);
    assert!(is_sweepable(&lidar));
    lidar.resolution_deg = 0;
    assert!(!is_sweepable(&lidar));
    lidar = scanner(OpticMount::World);
    lidar.range = (pc(2.0), pc(1.0));
    assert!(!is_sweepable(&lidar));
    lidar = scanner(OpticMount::World);
    lidar.resolution_deg = 1;
    lidar.fov_deg = i64::MAX;
    lidar.channels = u32::MAX;
    assert!(!is_sweepable(&lidar));
}

#[test]
fn each_beam_returns_the_nearest_hit() {
    let scene = cell(OpticMount::World, vec![body("far", 3.0), body("near", 2.0)], vec![arm()]);
    let mut reply = empty_sweep(&scene, None, 0);
    reply.bodies[2] = vec![Some(pc(3.0)), Some(pc(2.0))];
    // As near as the first: the first keeps the return.
    reply.bodies[3] = vec![Some(pc(2.0)), Some(pc(2.0))];
    // A link in front of both.
    reply.bodies[4] = vec![Some(pc(3.0)), None];
    reply.links[4][0] = vec![None, Some(pc(1.5))];
    let scan = lidar_scan(&scene, "front", None, &reply).unwrap();
    assert_eq!(scan.ranges, vec![0, 0, pc(2.0), pc(2.0), pc(1.5)]);
    assert_eq!(hits(&scan), vec![None, None, Some("near"), Some("far"), Some("arm/flange")]);
}

#[test]
fn a_hit_inside_the_blind_ring_is_no_return() {
    let scene = cell(OpticMount::World, vec![body("a", 0.4), body("b", 2.0)], Vec::new());
    let mut reply = empty_sweep(&scene, None, 0);
    // What is too near to measure still hides what is behind it.
    reply.bodies[0] = vec![Some(pc(0.4)), Some(pc(2.0))];
    reply.bodies[1] = vec![Some(pc(0.5)), None];
    let scan = lidar_scan(&scene, "front", None, &reply).unwrap();
    assert_eq!(scan.ranges[0], 0);
    assert_eq!(scan.hits[0], None);
    assert_eq!(scan.ranges[1], pc(0.5));
    assert_eq!(hits(&scan)[1], Some("a"));
    // Nor is one beyond the reach of the scanner.
    reply.bodies[2] = vec![None, Some(pc(10.0))];
    reply.bodies[3] = vec![None, Some(pc(10.0) + 1)];
    let scan = lidar_scan(&scene, "front", None, &reply).unwrap();
    assert_eq!(hits(&scan)[2], Some("b"));
    assert_eq!(scan.hits[3], None);
    assert_eq!(scan.ranges[3], 0);
}

#[test]
fn bodies_out_of_reach_are_left_out() {
    assert!(reach_cull(v3(0.0, 0.0, 0.0), None, 0));
    let cube = Some((v3(3.0, 4.0, 0.0), v3(5.0, 6.0, 1.0)));
    assert!(reach_cull(v3(0.0, 0.0, 0.0), cube, pc(5.0)));
    assert!(!reach_cull(v3(0.0, 0.0, 0.0), cube, pc(5.0) - 1));
    assert!(reach_cull(v3(4.0, 5.0, 0.5), cube, 0));

    let scene = cell(OpticMount::World, vec![body("a", 0.0)], Vec::new());
    let mut reply = empty_sweep(&scene, None, 0);
    reply.bodies[0] = vec![Some(pc(9.0))];
    reply.boxes[0] = Some((v3(20.0, 0.0, 0.0), v3(21.0, 1.0, 1.0)));
    let scan = lidar_scan(&scene, "front", None, &reply).unwrap();
    assert_eq!(scan.hits[0], None);
}

#[test]
fn what_is_switched_off_or_stowed_is_not_swept() {
    let mut scene = cell(
        OpticMount::World,
        vec![body("off", 1.0), body("part", 2.0), body("wall", 3.0)],
        Vec::new(),
    );
    scene.obstacles[0].enabled = false;
    let stowed = cycle(
        4.0,
        Vec::new(),
        vec![ObjectTrack {
            name: "part".to_string(),
            spans: vec![
                TrackSpan::Stowed { t0: 0, t1: pc(1.0), pose: iso(9.0, 0.0, 0.0) },
                TrackSpan::Hold { t0: pc(1.0), t1: pc(4.0), pose: iso(2.5, 0.0, 0.0) },
            ],
        }],
    );
    assert_eq!(scan_bodies(&scene, &scene.lidars[0], None), vec![false, true, true]);
    assert_eq!(
        scan_bodies(&scene, &scene.lidars[0], Some((&stowed, pc(0.5)))),
        vec![false, false, true],
    );
    assert_eq!(
        scan_bodies(&scene, &scene.lidars[0], Some((&stowed, pc(2.0)))),
        vec![false, true, true],
    );
    assert_eq!(
        scan_placements(&scene, &stowed, pc(2.0)),
        vec![None, Some(Placement::At(iso(2.5, 0.0, 0.0))), None],
    );

    let mut reply = empty_sweep(&scene, None, 0);
    reply.bodies[0] = vec![Some(pc(1.0)), Some(pc(2.0)), Some(pc(3.0))];
    let answer = SweepAnswer::Swept(reply);
    let early = lidar_scan_at(&scene, &stowed, "front", pc(0.5), None, &answer).unwrap();
    assert_eq!(hits(&early)[0], Some("wall"));
    let late = lidar_scan_at(&scene, &stowed, "front", pc(2.0), None, &answer).unwrap();
    assert_eq!(hits(&late)[0], Some("part"));
    assert_eq!(late.t, Some(pc(2.0)));
}

#[test]
fn a_sweep_past_the_end_is_taken_at_the_end() {
    let scene = cell(OpticMount::World, Vec::new(), Vec::new());
    let tl = cycle(4.0, Vec::new(), Vec::new());
    let answer = SweepAnswer::Swept(empty_sweep(&scene, None, 0));
    let late = lidar_scan_at(&scene, &tl, "front", pc(7.0), None, &answer).unwrap();
    assert_eq!(late.t, Some(pc(4.0)));
    let early = lidar_scan_at(&scene, &tl, "front", pc(-1.0), None, &answer).unwrap();
    assert_eq!(early.t, Some(0));
}

#[test]
fn a_mount_hides_itself() {
    let riding = cell(
        OpticMount::Vehicle { device: "agv".to_string() },
        vec![body("wall", 1.0), body("deck", 0.0)],
        vec![arm()],
    );
    assert_eq!(mount_exclusions(&riding, &riding.lidars[0]), (vec![1], None));
    assert_eq!(scan_bodies(&riding, &riding.lidars[0], None), vec![true, false]);

    let held = cell(
        OpticMount::Link { robot: "arm".to_string(), link: "flange".to_string() },
        vec![body("wall", 1.0)],
        vec![arm()],
    );
    assert_eq!(mount_exclusions(&held, &held.lidars[0]), (Vec::new(), Some((0, 1))));
    assert_eq!(scan_base(&held, &held.lidars[0], None), ScanBase::Link { robot: 0, link: 1 });
    let mut reply = empty_sweep(&held, None, 0);
    reply.bodies[0] = vec![Some(pc(3.0))];
    reply.links[0][0] = vec![None, Some(pc(1.0))];
    reply.links[1][0] = vec![Some(pc(2.0)), Some(pc(1.0))];
    let scan = lidar_scan(&held, "front", None, &reply).unwrap();
    assert_eq!(hits(&scan)[0], Some("wall"));
    assert_eq!(hits(&scan)[1], Some("arm/base"));

    let lost = cell(
        OpticMount::Link { robot: "arm".to_string(), link: "nowhere".to_string() },
        Vec::new(),
        vec![arm()],
    );
    assert_eq!(mount_exclusions(&lost, &lost.lidars[0]), (Vec::new(), None));
    assert_eq!(scan_base(&lost, &lost.lidars[0], None), ScanBase::World);
}

#[test]
fn a_riding_scanner_follows_its_vehicle() {
    let scene =
        cell(OpticMount::Vehicle { device: "agv".to_string() }, Vec::new(), Vec::new());
    let mut tl = cycle(4.0, Vec::new(), Vec::new());
    assert_eq!(scan_base(&scene, &scene.lidars[0], None), ScanBase::Parked);
    assert_eq!(scan_base(&scene, &scene.lidars[0], Some((&tl, pc(1.0)))), ScanBase::Parked);
    tl.vehicles.push(ObjectTrack {
        name: "agv".to_string(),
        spans: vec![TrackSpan::Linear {
            t0: 0,
            t1: pc(4.0),
            from: iso(0.0, 0.0, 0.0),
            velocity: v3(1.0, 0.0, 0.0),
        }],
    });
    assert_eq!(
        scan_base(&scene, &scene.lidars[0], Some((&tl, pc(1.5)))),
        ScanBase::Riding(Placement::At(iso(1.5, 0.0, 0.0))),
    );
}

#[test]
fn noise_moves_the_range_and_never_the_hit() {
    let scene = cell(OpticMount::World, vec![body("wall", 3.0)], Vec::new());
    let noise = Some(ScanNoise { sigma: pc(0.02), seed: 7 });
    let mut reply = empty_sweep(&scene, noise, 0);
    reply.bodies[0] = vec![Some(pc(3.0))];
    reply.bodies[1] = vec![Some(pc(9.99))];
    reply.bodies[2] = vec![Some(pc(0.5))];
    reply.draws[0].1 = pc(-1.5);
    reply.draws[1].1 = pc(2.0);
    reply.draws[2].1 = pc(-3.0);
    let clean = lidar_scan(&scene, "front", None, &reply).unwrap();
    let noisy = lidar_scan(&scene, "front", noise, &reply).unwrap();
    assert_eq!(hits(&clean), hits(&noisy));
    assert_eq!(clean.ranges[0], pc(3.0));
    assert_eq!(noisy.ranges[0], pc(2.97));
    // Kept within the measuring band.
    assert_eq!(noisy.ranges[1], pc(10.0));
    assert_eq!(noisy.ranges[2], pc(0.5));
    // A beam without a return stays without.
    assert_eq!(noisy.ranges[3], 0);

    // The beams and the pose are the same too.
    assert_eq!(clean.angles, noisy.angles);
    assert_eq!(clean.elevations, noisy.elevations);
    assert_eq!(clean.pose, noisy.pose);
    let (scanner, active) = (&scene.lidars[0], vec![true]);
    let bare = sweep(&scene, scanner, &active, None, &reply, None, noise);
    assert_eq!((hits(&bare), &bare.ranges), (hits(&noisy), &noisy.ranges));

    // The same seed and instant sweep the same.
    let again = lidar_scan(&scene, "front", noise, &reply).unwrap();
    assert_eq!(again.ranges, noisy.ranges);

    // No deviation is no noise.
    let still = Some(ScanNoise { sigma: 0, seed: 7 });
    let same = lidar_scan(&scene, "front", still, &reply).unwrap();
    assert_eq!(same.ranges, clean.ranges);
}

#[test]
fn points_are_thinned_before_returns_are_picked() {
    let scan = LidarScan {
        angles: vec![0; 5],
        elevations: vec![0; 5],
        ranges: vec![pc(1.0), pc(2.0), 0, pc(4.0), pc(5.0)],
        hits: vec![None, None, None, None, None],
        pose: iso(0.0, 0.0, 0.0),
        t: None,
    };
    let points: Vec<Vec3> = (0..5).map(|i| v3(i as f64, 0.0, 0.0)).collect();
    let at = |i: usize| points[i];
    assert_eq!(scan.points(1, &points), vec![at(0), at(1), at(3), at(4)]);
    assert_eq!(scan.points(0, &points), scan.points(1, &points));
    assert_eq!(scan.points(2, &points), vec![at(0), at(4)]);
    assert_eq!(scan.points(9, &points), vec![at(0)]);
}

#[test]
fn frames_fill_the_cycle_and_end_with_it() {
    assert_eq!(frame_times(pc(1.0), pc(4.0)), vec![0, pc(0.25), pc(0.5), pc(0.75), pc(1.0)]);
    assert_eq!(frame_times(pc(0.6), pc(4.0)), vec![0, pc(0.25), pc(0.5), pc(0.6)]);
    assert_eq!(frame_times(0, pc(4.0)), vec![0]);
    // An end that falls on the grid but for rounding is one frame.
    assert_eq!(frame_times(pc(0.5) + 500, pc(4.0)), vec![0, pc(0.25), pc(0.5) + 500]);
    assert_eq!(frame_times(pc(1.0), pc(3.0))[1], 333_333_333_333);
}

#[test]
fn a_sweep_over_the_cycle_has_one_scan_a_frame() {
    let scene = cell(OpticMount::World, vec![body("wall", 3.0)], Vec::new());
    let tl = cycle(1.0, Vec::new(), Vec::new());
    let answers: Vec<SweepAnswer> = frame_times(tl.duration, pc(2.0))
        .iter()
        .map(|_| {
            let mut reply = empty_sweep(&scene, None, 0);
            reply.bodies[2] = vec![Some(pc(3.0))];
            SweepAnswer::Swept(reply)
        })
        .collect();
    let scans = scan_sweep(&scene, &tl, "front", pc(2.0), None, &answers).unwrap();
    let times: Vec<Option<i64>> = scans.iter().map(|s| s.t).collect();
    assert_eq!(times, vec![Some(0), Some(pc(0.5)), Some(pc(1.0))]);
    assert!(scans.iter().all(|s| s.ranges[2] == pc(3.0)));
}

#[test]
fn scans_say_what_is_wrong() {
    let scene = cell(OpticMount::World, Vec::new(), vec![arm()]);
    let reply = empty_sweep(&scene, None, 0);
    match lidar_scan(&scene, "rear", None, &reply) {
        Err(SceneError::UnknownLidar(name)) => assert_eq!(name, "rear"),
        other => panic!("{other:?}"),
    }

    let track = |base: Option<Vec<TrackSpan>>| RobotTrack {
        name: "arm".to_string(),
        trajectory: Bake { waypoints: Vec::new() },
        moves: Vec::new(),
        planned: Vec::new(),
        base,
        footfalls: Vec::new(),
        sway: Vec::new(),
        pitch: Vec::new(),
        rise: Vec::new(),
    };
    let refused =
        SweepAnswer::Refused { robot: 0, message: "3 joints, not 6".to_string() };
    let standing = cycle(4.0, vec![track(None)], Vec::new());
    match lidar_scan_at(&scene, &standing, "front", pc(1.5), None, &refused) {
        Err(SceneError::Kinematics(message)) => assert_eq!(message, "3 joints, not 6"),
        other => panic!("{other:?}"),
    }
    let hold = TrackSpan::Hold { t0: 0, t1: pc(4.0), pose: iso(0.0, 0.0, 0.0) };
    let riding = cycle(4.0, vec![track(Some(vec![hold]))], Vec::new());
    match lidar_scan_at(&scene, &riding, "front", pc(1.5), None, &refused) {
        Err(SceneError::BadLidar(message)) => {
            assert_eq!(message, "scan at t=1.5: 3 joints, not 6")
        }
        other => panic!("{other:?}"),
    }
    match lidar_scan_at(&scene, &riding, "rear", 0, None, &refused) {
        Err(SceneError::UnknownLidar(name)) => assert_eq!(name, "rear"),
        other => panic!("{other:?}"),
    }
    match scan_sweep(&scene, &riding, "front", 0, None, &Vec::new()) {
        Err(SceneError::BadLidar(message)) => {
            assert_eq!(message, "scan sweep: fps must be positive, got 0")
        }
        other => panic!("{other:?}"),
    }
    match scan_sweep(&scene, &riding, "front", pc(-2.5), None, &Vec::new()) {
        Err(SceneError::BadLidar(message)) => {
            assert_eq!(message, "scan sweep: fps must be positive, got -2.5")
        }
        other => panic!("{other:?}"),
    }
}

#[test]
fn an_answer_speaks_of_every_beam_body_and_link() {
    let scene = cell(OpticMount::World, vec![body("wall", 1.0)], vec![arm()]);
    let tl = cycle(1.0, Vec::new(), Vec::new());
    let noise = Some(ScanNoise { sigma: pc(0.01), seed: 3 });
    let fits = |reply: SweepReply| {
        is_answer_fitting(&scene, &tl, "front", noise, &SweepAnswer::Swept(reply))
    };
    assert!(fits(empty_sweep(&scene, noise, 9)));
    let mut short = empty_sweep(&scene, noise, 9);
    short.bodies.pop();
    assert!(!fits(short));
    let mut wide = empty_sweep(&scene, noise, 9);
    wide.links[1][0].push(None);
    assert!(!fits(wide));
    // A draw for another beam's key is no draw for this one.
    let mut swapped = empty_sweep(&scene, noise, 9);
    swapped.draws.swap(0, 1);
    assert!(!fits(swapped));
    let refused = SweepAnswer::Refused { robot: 0, message: String::new() };
    assert!(!is_answer_fitting(&scene, &tl, "front", None, &refused));
    assert!(is_answer_fitting(&scene, &tl, "rear", None, &refused));
}
