//! Whole runs: sequences rolled out over a scene, with the outside answered by
//! a small planar world.
#![allow(dead_code)]

use botrail_scene::coverage::arm_coverage;
use botrail_scene::devices::DeviceRuntime;
use botrail_scene::dispatch::{DeviceReply, FireReply};
use botrail_scene::engine::{Phase, Reply, Run};
use botrail_scene::error::SeqError;
use botrail_scene::export::{Command, DigitalTest, PlainTests, ProgramArm};
use botrail_scene::fire::{Approach, MotionPlan, PathSample, ToolpathPlan, ToolpathReply};
use botrail_scene::fixed::{Pose, Vec3};
use botrail_scene::flat::flatten;
use botrail_scene::gait::{Footfall, GaitPlan};
use botrail_scene::lower::SequenceIo;
use botrail_scene::motion::{ActiveMove, Bake, Trajectory, Waypoint};
use botrail_scene::program::{
    compound_tests, merged_sequence_program, sequence_program, walk_actions, ExportFacts,
    ProgramOptions, SequenceProgram,
};
use botrail_scene::ride::{CarryReply, DeckReply};
use botrail_scene::rollout::RolloutOptions;
use botrail_scene::lanes::BoolTrack;
use botrail_scene::scene::{
    Attachment, DeviceKind, DeviceSpec, Gait, GaitLeg, Joint, Motion, Mount, Obstacle, Robot, Scene, Sensor,
    SensorKind, SensorWatch, Signal, ToolMove, Toolpath, VehiclePath,
};
use botrail_scene::sensors::{Optics, Reading, SensorAnchor};
use botrail_scene::seq::{
    enumerate_selects, Action, Condition, DeviceCommand, SelectArm, Sequence, Step,
};
use botrail_scene::simulate::SequenceFault;
use botrail_scene::stride::{LegReply, StrideReply};
use botrail_scene::timeline::{
    Bearing, BranchTaken, PlannedMove, PlannedSegment, RobotTrack, SegmentKind, SequenceTimeline,
};
use botrail_scene::tracks::{ObjectTrack, Placement, TrackSpan, VehiclePiece};
use botrail_scene::vehicle::{AerialYaw, Drive, Piece};
use botrail_scene::walk::{step_reach, support, tread_covers, tread_tops, GaitReply};
use botrail_scene::world::{ColliderId, TrackReply};

// ---------------------------------------------------------------------------
// The outside world of these tests: it plans, places and measures, and answers
// what a run asks for.

const EPS: f64 = 1e-9;

fn pc(x: f64) -> i64 {
    (x * 1e12).round() as i64
}

fn fl(x: i64) -> f64 {
    x as f64 / 1e12
}

fn v3(x: f64, y: f64, z: f64) -> Vec3 {
    Vec3 { x: pc(x), y: pc(y), z: pc(z) }
}

fn iso(x: f64, y: f64, z: f64) -> Pose {
    Pose { at: v3(x, y, z), i: 0, j: 0, k: 0, w: pc(1.0) }
}

fn turned_iso(x: f64, y: f64, z: f64, yaw: f64) -> Pose {
    Pose { at: v3(x, y, z), i: 0, j: 0, k: pc((yaw / 2.0).sin()), w: pc((yaw / 2.0).cos()) }
}

/// A rigid motion of the plane, lifted by `z`.
#[derive(Clone, Copy, Debug)]
struct Frame {
    t: [f64; 3],
    yaw: f64,
}

fn frame(p: Pose) -> Frame {
    Frame {
        t: [fl(p.at.x), fl(p.at.y), fl(p.at.z)],
        yaw: 2.0 * fl(p.k).atan2(fl(p.w)),
    }
}

fn pose(f: Frame) -> Pose {
    turned_iso(f.t[0], f.t[1], f.t[2], f.yaw)
}

fn rotate(v: [f64; 3], yaw: f64) -> [f64; 3] {
    let (s, c) = yaw.sin_cos();
    [c * v[0] - s * v[1], s * v[0] + c * v[1], v[2]]
}

fn compose(a: Frame, b: Frame) -> Frame {
    let r = rotate(b.t, a.yaw);
    Frame { t: [a.t[0] + r[0], a.t[1] + r[1], a.t[2] + r[2]], yaw: a.yaw + b.yaw }
}

fn inverse(a: Frame) -> Frame {
    let r = rotate([-a.t[0], -a.t[1], -a.t[2]], -a.yaw);
    Frame { t: r, yaw: -a.yaw }
}

// Poses that may be tilted, too.

fn hamilton(a: [f64; 4], b: [f64; 4]) -> [f64; 4] {
    [
        a[3] * b[0] + a[0] * b[3] + a[1] * b[2] - a[2] * b[1],
        a[3] * b[1] - a[0] * b[2] + a[1] * b[3] + a[2] * b[0],
        a[3] * b[2] + a[0] * b[1] - a[1] * b[0] + a[2] * b[3],
        a[3] * b[3] - a[0] * b[0] - a[1] * b[1] - a[2] * b[2],
    ]
}

fn spin_of(p: Pose) -> [f64; 4] {
    let q = [fl(p.i), fl(p.j), fl(p.k), fl(p.w)];
    let n = q.iter().map(|x| x * x).sum::<f64>().sqrt();
    q.map(|x| x / n)
}

fn turn(q: [f64; 4], v: [f64; 3]) -> [f64; 3] {
    let c = [-q[0], -q[1], -q[2], q[3]];
    let r = hamilton(hamilton(q, [v[0], v[1], v[2], 0.0]), c);
    [r[0], r[1], r[2]]
}

fn posed(t: [f64; 3], q: [f64; 4]) -> Pose {
    Pose { at: v3(t[0], t[1], t[2]), i: pc(q[0]), j: pc(q[1]), k: pc(q[2]), w: pc(q[3]) }
}

fn chain(a: Pose, b: Pose) -> Pose {
    let (q, t, u) = (spin_of(a), triple(a.at), turn(spin_of(a), triple(b.at)));
    posed([t[0] + u[0], t[1] + u[1], t[2] + u[2]], hamilton(q, spin_of(b)))
}

fn undone(a: Pose) -> Pose {
    let q = spin_of(a);
    let c = [-q[0], -q[1], -q[2], q[3]];
    let t = turn(c, triple(a.at));
    posed([-t[0], -t[1], -t[2]], c)
}

/// How far apart two poses are, and by what angle they are turned.
fn apart(a: Pose, b: Pose) -> (f64, f64) {
    let d = chain(undone(a), b);
    let t = triple(d.at);
    let q = spin_of(d);
    let sine = (q[0] * q[0] + q[1] * q[1] + q[2] * q[2]).sqrt();
    ((t[0] * t[0] + t[1] * t[1] + t[2] * t[2]).sqrt(), 2.0 * sine.atan2(q[3].abs()))
}

/// Where a pivot about `center` by `phi` takes a frame.
fn pivot(f: Frame, center: Vec3, phi: f64) -> Frame {
    let c = [fl(center.x), fl(center.y), fl(center.z)];
    let d = rotate([f.t[0] - c[0], f.t[1] - c[1], f.t[2] - c[2]], phi);
    Frame { t: [c[0] + d[0], c[1] + d[1], c[2] + d[2]], yaw: f.yaw + phi }
}

fn hermite(w: &[Waypoint], t: i64) -> Vec<i64> {
    if t <= w[0].t {
        return w[0].q.clone();
    }
    for i in 1..w.len() {
        if t <= w[i].t {
            let (a, b) = (&w[i - 1], &w[i]);
            let h = fl(b.t - a.t);
            if h <= 0.0 {
                return b.q.clone();
            }
            let s = fl(t - a.t) / h;
            return (0..a.q.len())
                .map(|j| {
                    let (p0, p1) = (fl(a.q[j]), fl(b.q[j]));
                    let (m0, m1) = (fl(a.v[j]) * h, fl(b.v[j]) * h);
                    let (s2, s3) = (s * s, s * s * s);
                    pc((2.0 * s3 - 3.0 * s2 + 1.0) * p0
                        + (s3 - 2.0 * s2 + s) * m0
                        + (-2.0 * s3 + 3.0 * s2) * p1
                        + (s3 - s2) * m1)
                })
                .collect();
        }
    }
    w[w.len() - 1].q.clone()
}

/// Where the hips of the walking machine are, the stance of a leg, and how far
/// below its hip a foot then stands.
const HIPS: [[f64; 2]; 4] = [[0.19, 0.15], [0.19, -0.15], [-0.19, 0.15], [-0.19, -0.15]];
const STANCE: [f64; 3] = [0.0, 0.7, -1.4];
const DEPTH: f64 = 0.3;

/// The outside of a run.
struct Outside {
    /// Half-extents of the bodies.
    shapes: Vec<(String, [f64; 3])>,
    /// Goals of the named motions.
    goals: Vec<(String, Vec<f64>)>,
    /// The links of a robot at a configuration, on a base.
    fk: fn(&str, &[f64], Frame) -> Vec<Frame>,
    /// The box of a robot's link, where it has a shape: where it is on the link,
    /// and its half-extents.
    links: fn(&str, usize) -> Option<([f64; 3], [f64; 3])>,
    /// How far a walking body stands above its way, and how far its nose is up,
    /// that far along the way.
    body: fn(f64) -> (f64, f64),
}

fn upright(_: f64) -> (f64, f64) {
    (0.0, 0.0)
}

fn no_links(_: &str, _: usize) -> Option<([f64; 3], [f64; 3])> {
    None
}

/// The arm with one joint: a turn about the vertical at z = 0.5.
fn arm_fk(_: &str, q: &[f64], base: Frame) -> Vec<Frame> {
    vec![base, compose(base, Frame { t: [0.0, 0.0, 0.5], yaw: q[0] })]
}

fn cubes(_: &str, _: usize) -> Option<([f64; 3], [f64; 3])> {
    Some(([0.0; 3], [0.05, 0.05, 0.05]))
}

fn overlap(a: Frame, ha: [f64; 3], b: Frame, hb: [f64; 3]) -> bool {
    // Two upright boxes meet where no axis of either parts them.
    if (a.t[2] - b.t[2]).abs() > ha[2] + hb[2] {
        return false;
    }
    let d = [b.t[0] - a.t[0], b.t[1] - a.t[1], 0.0];
    for axis in [a.yaw, a.yaw + 1.5707963267948966, b.yaw, b.yaw + 1.5707963267948966] {
        let u = [axis.cos(), axis.sin()];
        let span = |f: Frame, h: [f64; 3]| {
            let x = rotate([1.0, 0.0, 0.0], f.yaw);
            let y = rotate([0.0, 1.0, 0.0], f.yaw);
            h[0] * (x[0] * u[0] + x[1] * u[1]).abs() + h[1] * (y[0] * u[0] + y[1] * u[1]).abs()
        };
        if (d[0] * u[0] + d[1] * u[1]).abs() > span(a, ha) + span(b, hb) {
            return false;
        }
    }
    true
}

/// A point in a zone's frame.
fn local(zone: Frame, point: [f64; 3]) -> Vec3 {
    let p = compose(inverse(zone), Frame { t: point, yaw: 0.0 }).t;
    v3(p[0], p[1], p[2])
}

fn triple(v: Vec3) -> [f64; 3] {
    [fl(v.x), fl(v.y), fl(v.z)]
}

impl Outside {
    fn half(&self, name: &str) -> [f64; 3] {
        self.shapes.iter().find(|(n, _)| n == name).map_or([0.02, 0.02, 0.02], |(_, h)| *h)
    }

    fn links_of(&self, run: &Run, r: usize) -> Vec<Frame> {
        let q: Vec<f64> = run.world.robots[r].q.iter().map(|x| fl(*x)).collect();
        (self.fk)(&run.world.scene.robots[r].name, &q, frame(run.world.bases[r]))
    }

    /// The boxes of a robot's links: which link, where, how large.
    fn boxes_of(&self, run: &Run, r: usize) -> Vec<(usize, Frame, [f64; 3])> {
        self.links_of(run, r)
            .into_iter()
            .enumerate()
            .filter_map(|(l, f)| {
                let (at, half) = (self.links)(&run.world.scene.robots[r].name, l)?;
                Some((l, compose(f, Frame { t: at, yaw: 0.0 }), half))
            })
            .collect()
    }

    fn robot_of(&self, run: &Run, name: &Option<String>) -> Result<usize, String> {
        let robots = &run.world.scene.robots;
        match name {
            Some(n) => robots
                .iter()
                .position(|r| &r.name == n)
                .ok_or(format!("unknown robot `{n}`")),
            None if robots.len() == 1 => Ok(0),
            None => Err("several robots: name one".to_string()),
        }
    }

    fn device_frame(&self, run: &Run, d: usize) -> Frame {
        match &run.world.devices[d].state {
            DeviceRuntime::Vehicle(v) => Frame { t: triple(v.position), yaw: fl(v.heading) },
            _ => Frame { t: [0.0; 3], yaw: 0.0 },
        }
    }

    fn sense(&self, run: &Run) -> Vec<Reading> {
        let w = &run.world;
        w.sensors
            .iter()
            .map(|s| {
                let at = match s.anchor {
                    SensorAnchor::Fixture => frame(s.pose),
                    SensorAnchor::Vehicle(d) => compose(self.device_frame(run, d), frame(s.pose)),
                    SensorAnchor::Link { robot, link } => {
                        compose(self.links_of(run, robot)[link], frame(s.pose))
                    }
                };
                let meets = |f: Frame, h: [f64; 3]| match s.optics {
                    Optics::Zone { size } => {
                        let z = triple(size);
                        overlap(at, [z[0] / 2.0, z[1] / 2.0, z[2] / 2.0], f, h)
                    }
                    Optics::Beam { from, to, radius } => {
                        let (a, b) = (triple(from), triple(to));
                        (0..=400).any(|k| {
                            let u = k as f64 / 400.0;
                            let p = [
                                a[0] + (b[0] - a[0]) * u,
                                a[1] + (b[1] - a[1]) * u,
                                a[2] + (b[2] - a[2]) * u,
                            ];
                            let p = compose(at, Frame { t: p, yaw: 0.0 });
                            let l = compose(inverse(f), p).t;
                            let d2: f64 =
                                (0..3).map(|k| (l[k].abs() - h[k]).max(0.0).powi(2)).sum();
                            d2 <= fl(radius) * fl(radius)
                        })
                    }
                    _ => false,
                };
                Reading {
                    pose: pose(at),
                    hits: w.obstacles.iter().map(|o| meets(frame(o.pose), self.half(&o.name))).collect(),
                    rays: w.obstacles.iter().map(|_| vec![None; w.obstacles.len()]).collect(),
                    robots: (0..w.scene.robots.len())
                        .map(|r| {
                            self.boxes_of(run, r).iter().any(|(_, f, h)| meets(*f, *h))
                        })
                        .collect(),
                }
            })
            .collect()
    }

    /// A rest-to-rest move: one cubic, as fast as one unit a second.
    fn plan(&self, from: &[i64], goal: &[f64]) -> MotionPlan {
        let far = from.iter().zip(goal).map(|(a, b)| (fl(*a) - b).abs()).fold(0.0, f64::max);
        let duration = pc(1.5 * far);
        let still = vec![0; from.len()];
        let to: Vec<i64> = goal.iter().map(|g| pc(*g)).collect();
        MotionPlan {
            trajectory: Trajectory {
                waypoints: vec![
                    Waypoint { t: 0, q: from.to_vec(), v: still.clone() },
                    Waypoint { t: duration, q: to.clone(), v: still },
                ],
                duration,
            },
            segments: vec![PlannedSegment {
                kind: SegmentKind::Joint,
                waypoints: vec![from.to_vec(), to],
                tcp_speed: None,
            }],
        }
    }

    /// A straight cut of a robot with one joint, at 20 mm/s and sampled every
    /// centimetre, and the way to where it starts.
    fn cut(&self, q: &[i64], toolpath: &str) -> ToolpathReply {
        const FEED: f64 = 0.02;
        let goal = match self.goals.iter().find(|(n, _)| n == toolpath) {
            Some((_, goal)) => goal,
            None => {
                return ToolpathReply {
                    plan: Err(format!("toolpath `{toolpath}` is out of reach")),
                    approach: None,
                    rapid_speed: None,
                };
            }
        };
        let (from, to) = (goal[0], goal[1]);
        let n = ((to - from).abs() / 0.01).round() as usize;
        let at = |k: usize| from + (to - from) * k as f64 / n as f64;
        let path: Vec<Vec<i64>> = (0..=n).map(|k| vec![pc(at(k))]).collect();
        let times: Vec<i64> = (0..=n).map(|k| pc((at(k) - from).abs() / FEED)).collect();
        let rate = vec![pc(FEED * (to - from).signum())];
        let waypoints = |start: i64| -> Vec<Waypoint> {
            (0..=n)
                .map(|k| Waypoint { t: start + times[k], q: path[k].clone(), v: rate.clone() })
                .collect()
        };
        let way = self.plan(q, &[from]).trajectory;
        let mut whole = way.waypoints;
        whole.extend(waypoints(way.duration).into_iter().skip(1));
        ToolpathReply {
            plan: Ok(ToolpathPlan {
                samples: (0..=n)
                    .map(|k| PathSample {
                        move_index: if k == 0 { 0 } else { 1 },
                        feed: if k == 0 { None } else { Some(pc(FEED)) },
                    })
                    .collect(),
                trajectory: Trajectory { waypoints: waypoints(0), duration: times[n] },
                path: path.clone(),
                sample_times: times.clone(),
                feed_report: 0,
            }),
            approach: Some(Ok(Approach {
                path: vec![q.to_vec(), path[0].clone()],
                trajectory: Trajectory { waypoints: whole, duration: way.duration + times[n] },
            })),
            rapid_speed: None,
        }
    }

    fn fire(&self, run: &Run, action: &Action) -> FireReply {
        let w = &run.world;
        match action {
            Action::StartMotion { motion } => {
                let r = w.scene.motions.iter().find(|m| &m.name == motion).unwrap().robot;
                let goal = &self.goals.iter().find(|(n, _)| n == motion).unwrap().1;
                FireReply::Motion(Ok(self.plan(&w.robots[r].q, goal)))
            }
            Action::StartToolpath { robot, toolpath } => {
                let robot = self.robot_of(run, robot);
                let reply = match &robot {
                    Ok(r) => self.cut(&w.robots[*r].q, toolpath),
                    Err(why) => ToolpathReply {
                        plan: Err(why.clone()),
                        approach: None,
                        rapid_speed: None,
                    },
                };
                FireReply::Toolpath { robot, reply }
            }
            Action::StartRamp { robot, .. }
            | Action::Track { robot, .. }
            | Action::Untrack { robot } => FireReply::Robot(self.robot_of(run, robot)),
            Action::Attach { robot, object, link, .. } => {
                let robot = self.robot_of(run, robot);
                let grasp = match &robot {
                    Err(e) => Err(e.clone()),
                    Ok(r) => {
                        let model = &w.scene.robots[*r];
                        let l = match link {
                            Some(l) => model.links.iter().position(|x| x == l).unwrap(),
                            None => model.tool_mount_link,
                        };
                        match w.obstacles.iter().find(|o| &o.name == object) {
                            None => Err(format!("unknown obstacle `{object}`")),
                            Some(o) => Ok(Attachment {
                                object: object.clone(),
                                robot: *r,
                                link: l,
                                grasp: pose(compose(
                                    inverse(self.links_of(run, *r)[l]),
                                    frame(o.pose),
                                )),
                            }),
                        }
                    }
                };
                FireReply::Grasp { robot, grasp }
            }
            Action::Detach { object } => FireReply::Release(
                w.obstacles
                    .iter()
                    .find(|o| &o.name == object)
                    .map(|o| o.pose)
                    .ok_or(format!("unknown obstacle `{object}`")),
            ),
            Action::SetSignal { .. } => FireReply::Nothing,
            Action::Device { device, command } => {
                let courses = match w.goto_route(device, command) {
                    None => vec![],
                    Some(route) => {
                        let d = w.devices.iter().position(|d| &d.name == device).unwrap();
                        let DeviceRuntime::Vehicle(v) = &w.devices[d].state else {
                            panic!("a route of what does not drive")
                        };
                        let mut at = v.position;
                        route
                            .iter()
                            .map(|k| {
                                let to = v.waypoints[*k];
                                let course = fl(to.y - at.y).atan2(fl(to.x - at.x));
                                at = to;
                                pc(course)
                            })
                            .collect()
                    }
                };
                let zone = w
                    .devices
                    .iter()
                    .find(|d| &d.name == device)
                    .and_then(|d| match &d.state {
                        // The zone rides with the car.
                        DeviceRuntime::Lift(l) => {
                            let up = fl(l.position);
                            let a = triple(l.axis);
                            let at = frame(l.zone);
                            let t = [0, 1, 2].map(|k| at.t[k] + up * a[k]);
                            Some(Frame { t, ..at })
                        }
                        _ => None,
                    })
                    .unwrap_or(Frame { t: [0.0; 3], yaw: 0.0 });
                let walks = (0..w.robots.len())
                    .map(|r| self.walk(run, r, device, command, &courses))
                    .collect();
                FireReply::Device(DeviceReply {
                    courses,
                    walks,
                    standing: (0..w.devices.len())
                        .map(|d| local(zone, self.device_frame(run, d).t))
                        .collect(),
                    aboard: w.obstacles.iter().map(|o| local(zone, triple(o.pose.at))).collect(),
                })
            }
        }
    }

    /// Where the machine's load is on a base.
    fn load(&self, run: &Run, r: usize, base: Pose) -> Vec<Pose> {
        match &run.world.robots[r].gait {
            Some(g) => g.carried.iter().map(|(_, o)| chain(base, *o)).collect(),
            None => vec![],
        }
    }

    /// Where the ride alone puts a walking robot's base.
    fn ride(&self, run: &Run, r: usize) -> Option<Frame> {
        let mount = run.world.scene.robots[r].mount.as_ref()?;
        mount.gait.as_ref()?;
        let d = run.world.devices.iter().position(|d| d.name == mount.device)?;
        Some(compose(self.device_frame(run, d), frame(mount.offset)))
    }

    /// A walking body on its ride: lifted, and with its nose up.
    fn standing(&self, ride: Frame) -> Pose {
        let (rise, pitch) = (self.body)(ride.t[0]);
        let lifted = Frame { t: [ride.t[0], ride.t[1], ride.t[2] + rise], ..ride };
        chain(pose(lifted), posed([0.0; 3], [0.0, -(pitch / 2.0).sin(), 0.0, (pitch / 2.0).cos()]))
    }

    /// Where each foot stands at a configuration.
    fn feet(&self, q: &[i64], base: Frame) -> Vec<[f64; 3]> {
        HIPS.iter()
            .enumerate()
            .map(|(i, hip)| {
                let at = |k: usize| fl(q[3 * i + k]) - STANCE[k];
                let local = [hip[0] + at(0), hip[1] + at(1), at(2) - DEPTH];
                compose(base, Frame { t: local, yaw: 0.0 }).t
            })
            .collect()
    }

    /// A trot: diagonal legs step together, half a period in the air, each
    /// foothold under the hip where the body will be, or on the tread there.
    fn walk(
        &self,
        run: &Run,
        r: usize,
        device: &str,
        command: &DeviceCommand,
        courses: &Vec<i64>,
    ) -> Option<GaitReply> {
        let w = &run.world;
        let mount = w.scene.robots[r].mount.as_ref()?;
        let gait = mount.gait.as_ref()?;
        let profile = w.goto_profile(device, command, courses)?;
        if mount.device != device {
            return None;
        }
        let body = |t: i64| {
            for p in &profile.pieces {
                if t < p.t1 {
                    let f = Frame { t: triple(p.position), yaw: fl(p.heading) };
                    let dt = fl(t.max(p.t0) - p.t0);
                    return match p.motion {
                        VehiclePiece::Lin { velocity } => {
                            let v = triple(velocity);
                            Frame {
                                t: [f.t[0] + v[0] * dt, f.t[1] + v[1] * dt, f.t[2] + v[2] * dt],
                                yaw: f.yaw,
                            }
                        }
                        VehiclePiece::Piv { center, omega } => pivot(f, center, fl(omega) * dt),
                    };
                }
            }
            Frame { t: triple(profile.end_position), yaw: fl(profile.end_heading) }
        };
        let tops = tread_tops(&w.obstacles);
        let in_treads = |x: f64, y: f64| -> Vec<Vec3> {
            w.obstacles
                .iter()
                .filter(|o| o.walkable && o.half.is_some())
                .map(|o| {
                    let at = frame(o.pose);
                    local(at, [x, y, at.t[2]])
                })
                .collect()
        };
        let least_reach = pc(0.3);
        let feet = self.feet(&w.robots[r].q, self.ride(run, r)?);
        let period = pc(0.5);
        let mut legs = vec![];
        let mut under = vec![];
        let mut done = profile.t0;
        for (i, hip) in HIPS.iter().enumerate() {
            let mut steps: Vec<Footfall> = vec![];
            let mut lift = profile.t0 + if i == 0 || i == 3 { 0 } else { period / 2 };
            loop {
                let land = lift + period / 2;
                let last = lift >= profile.t_end;
                let f = if last {
                    body(profile.t_end)
                } else {
                    body((land + period / 4).min(profile.t_end))
                };
                let p = compose(f, Frame { t: [hip[0], hip[1], 0.0], yaw: 0.0 }).t;
                let hint = steps.last().map_or(pc(feet[i][2]), |s: &Footfall| s.position.z)
                    - gait.foot_radius;
                let reach = step_reach(gait.max_step, least_reach);
                let covers = tread_covers(&w.obstacles, &in_treads(p[0], p[1]));
                let found = support(&tops, &covers, hint, reach, gait.foot_radius);
                let ground = found.map_or(pc(p[2]), |s| s.top);
                steps.push(Footfall {
                    leg: i,
                    lift,
                    land,
                    position: Vec3 {
                        x: pc(p[0]),
                        y: pc(p[1]),
                        z: ground + gait.foot_radius,
                    },
                    yaw: pc(f.yaw),
                });
                done = done.max(land);
                if last {
                    break;
                }
                lift += period;
            }
            under.push(
                steps.iter().map(|s| in_treads(fl(s.position.x), fl(s.position.y))).collect(),
            );
            legs.push(steps);
        }
        Some(GaitReply {
            feet: feet.iter().map(|p| v3(p[0], p[1], p[2])).collect(),
            carry: vec![None; legs.len()],
            plan: GaitPlan {
                t0: profile.t0,
                done,
                legs,
                swing: vec![],
                owned: vec![],
                rest: (0..w.robots[r].q.len())
                    .map(|k| if k < 12 { pc(STANCE[k % 3]) } else { w.robots[r].q[k] })
                    .collect(),
                pitch: vec![],
                rise: vec![],
                sway: None,
            },
            points: under,
            least_reach,
        })
    }

    /// One scan of a walk: every foot on its foothold or on its arc.
    fn stride(&self, run: &Run, r: usize) -> Option<StrideReply> {
        let w = &run.world;
        let plan = w.robots[r].gait.as_ref()?.plan.as_ref()?;
        let mount = w.scene.robots[r].mount.as_ref()?;
        let d = w.devices.iter().position(|d| d.name == mount.device)?;
        let base = compose(self.device_frame(run, d), frame(mount.offset));
        let legs = (0..HIPS.len())
            .map(|i| {
                let steps = &plan.legs[i];
                let mut at = self.feet(&w.scene.robots[r].q, frame(w.scene.robots[r].base))[i];
                let mut airborne = false;
                for s in steps {
                    let to = triple(s.position);
                    if w.t >= s.land {
                        at = to;
                    } else if w.t > s.lift {
                        let u = fl(w.t - s.lift) / fl(s.land - s.lift);
                        let up = 0.05 * (std::f64::consts::PI * u).sin();
                        at = [
                            at[0] + (to[0] - at[0]) * u,
                            at[1] + (to[1] - at[1]) * u,
                            at[2] + (to[2] - at[2]) * u + up,
                        ];
                        airborne = true;
                    }
                }
                let local = compose(inverse(base), Frame { t: at, yaw: 0.0 }).t;
                let hip = HIPS[i];
                let off = [local[0] - hip[0], local[1] - hip[1], local[2] + DEPTH];
                let far = off[0].hypot(off[1]);
                let mut q = w.robots[r].q.clone();
                for k in 0..3 {
                    q[3 * i + k] = pc(off[k] + STANCE[k]);
                }
                LegReply {
                    airborne,
                    level_only: false,
                    converged: far <= 0.35,
                    pos_error: pc((far - 0.35).max(0.0)),
                    rot_error: 0,
                    pos_text: format!("{:.1e}", (far - 0.35).max(0.0)),
                    rot_text: "0.0e0".to_string(),
                    iters: 40,
                    stride: pc(far),
                    reach: pc(far.hypot(local[2])),
                    drop: pc(-local[2]),
                    q,
                }
            })
            .collect();
        let phase = std::f64::consts::TAU * fl(w.t - plan.t0) / 0.5;
        Some(StrideReply {
            base: self.standing(base),
            sway: iso(0.0, 0.0, 0.0),
            pitch: iso(0.0, 0.0, 0.0),
            rise: 0,
            legs,
            wave: pc(phase.sin()),
            load: self.load(run, r, self.standing(base)),
        })
    }

    fn zones(&self, run: &Run) -> Vec<Vec<Vec3>> {
        let w = &run.world;
        w.devices
            .iter()
            .map(|d| {
                let zone = match &d.state {
                    DeviceRuntime::Conveyor(c) => frame(c.zone),
                    DeviceRuntime::Sink(s) => frame(s.zone),
                    _ => Frame { t: [0.0; 3], yaw: 0.0 },
                };
                w.obstacles.iter().map(|o| local(zone, triple(o.pose.at))).collect()
            })
            .collect()
    }

    fn decks(&self, run: &Run) -> Vec<DeckReply> {
        let w = &run.world;
        run.pending
            .moves
            .iter()
            .map(|m| {
                let at = Frame { t: triple(m.position), yaw: fl(m.heading) };
                let deck = match &w.devices[m.device].state {
                    DeviceRuntime::Vehicle(v) => match v.tray {
                        Some((p, _)) => compose(at, frame(p)),
                        None => at,
                    },
                    _ => at,
                };
                DeckReply {
                    points: w.obstacles.iter().map(|o| local(deck, triple(o.pose.at))).collect(),
                    offsets: w
                        .obstacles
                        .iter()
                        .map(|o| match w.bases.first() {
                            Some(b) => chain(undone(*b), o.pose),
                            None => o.pose,
                        })
                        .collect(),
                }
            })
            .collect()
    }

    /// What each piece of a move leaves a pose at.
    fn along(&self, from: Frame, pieces: &[Piece]) -> Vec<Frame> {
        let mut f = from;
        pieces
            .iter()
            .map(|p| {
                let dt = fl(p.t1 - p.t0);
                f = match p.motion {
                    VehiclePiece::Lin { velocity } => {
                        let v = triple(velocity);
                        Frame {
                            t: [f.t[0] + v[0] * dt, f.t[1] + v[1] * dt, f.t[2] + v[2] * dt],
                            yaw: f.yaw,
                        }
                    }
                    VehiclePiece::Piv { center, omega } => pivot(f, center, fl(omega) * dt),
                };
                f
            })
            .collect()
    }

    fn carry(&self, run: &Run, next: usize) -> CarryReply {
        let w = &run.world;
        let m = &run.pending.moves[next];
        let start = Frame { t: triple(m.position), yaw: fl(m.heading) };
        let poses = |f: Frame| -> Vec<Pose> {
            self.along(f, &m.pieces).into_iter().map(pose).collect()
        };
        let body: Vec<String> = match &w.devices[m.device].state {
            DeviceRuntime::Vehicle(v) => v.body.clone(),
            _ => vec![],
        };
        let members = body.iter().chain(run.riders[next].iter());
        // Of a robot that walks, the ride as it sets out on the move; nothing is
        // known of another.
        let nowhere = iso(99.0, 99.0, 99.0);
        let rides: Vec<Option<Frame>> = w
            .scene
            .robots
            .iter()
            .map(|robot| {
                let mount = robot.mount.as_ref()?;
                mount.gait.as_ref()?;
                Some(compose(start, frame(mount.offset)))
            })
            .collect();
        CarryReply {
            frame: Pose { at: v3(99.0, 99.0, 99.0), ..pose(start) },
            frame_turned: poses(start),
            members_turned: members
                .map(|n| match w.obstacles.iter().find(|o| &o.name == n) {
                    Some(o) => poses(frame(o.pose)),
                    None => m.pieces.iter().map(|_| iso(0.0, 0.0, 0.0)).collect(),
                })
                .collect(),
            bases: rides.iter().map(|b| b.map_or(nowhere, pose)).collect(),
            bases_turned: w
                .bases
                .iter()
                .zip(&rides)
                .map(|(b, ride)| poses(ride.unwrap_or(frame(*b))))
                .collect(),
            bases_after: rides
                .iter()
                .map(|b| match b {
                    Some(f) => {
                        self.standing(*self.along(*f, &m.pieces).last().unwrap_or(f))
                    }
                    None => nowhere,
                })
                .collect(),
        }
    }

    fn clear(&self, run: &Run) -> Reply {
        let w = &run.world;
        let at: Vec<(Frame, [f64; 3])> =
            w.obstacles.iter().map(|o| (frame(o.pose), self.half(&o.name))).collect();
        Reply::Cleared {
            loads: run
                .pending
                .moves
                .iter()
                .map(|m| match w.walker_on(&w.devices[m.device].name) {
                    Some(r) => self.load(run, r, w.bases[r]),
                    None => vec![],
                })
                .collect(),
            meets: at
                .iter()
                .map(|(fa, ha)| at.iter().map(|(fb, hb)| overlap(*fa, *ha, *fb, *hb)).collect())
                .collect(),
            touched: run
                .pending
                .moves
                .iter()
                .enumerate()
                .map(|(i, m)| {
                    let body: Vec<String> = match &w.devices[m.device].state {
                        DeviceRuntime::Vehicle(v) => v.body.clone(),
                        _ => vec![],
                    };
                    (0..w.scene.robots.len())
                        .map(|r| {
                            let model = &w.scene.robots[r];
                            for n in body.iter().chain(run.riders[i].iter()) {
                                let k = w.obstacles.iter().position(|o| &o.name == n)?;
                                for (l, f, h) in self.boxes_of(run, r) {
                                    if overlap(f, h, at[k].0, at[k].1) {
                                        return Some((model.links[l].clone(), n.clone()));
                                    }
                                }
                            }
                            None
                        })
                        .collect()
                })
                .collect(),
        }
    }

    fn contacts(&self, run: &Run) -> Reply {
        let w = &run.world;
        let held: Vec<Pose> = w
            .attachments
            .iter()
            .map(|a| pose(compose(self.links_of(run, a.robot)[a.link], frame(a.grasp))))
            .collect();
        let mut pairs = vec![];
        let n = w.scene.robots.len();
        for a in 0..n {
            for b in a + 1..n {
                for (i, fa, ha) in self.boxes_of(run, a) {
                    for (j, fb, hb) in self.boxes_of(run, b) {
                        if overlap(fa, ha, fb, hb) {
                            pairs.push((
                                ColliderId::Link { robot: a, link: i },
                                ColliderId::Link { robot: b, link: j },
                            ));
                        }
                    }
                }
            }
        }
        Reply::Contacts {
            held,
            touched: (0..w.moving.len())
                .map(|m| {
                    (0..n)
                        .map(|r| {
                            let skip = w.rider_skip(m, r);
                            for (l, f, h) in self.boxes_of(run, r) {
                                for o in &w.obstacles {
                                    if !skip.contains(&o.name)
                                        && overlap(f, h, frame(o.pose), self.half(&o.name))
                                    {
                                        let part = w.scene.robots[r].links[l].clone();
                                        return Some((part, o.name.clone()));
                                    }
                                }
                            }
                            None
                        })
                        .collect()
                })
                .collect(),
            pairs,
        }
    }

    fn answer(&self, run: &Run) -> Reply {
        let w = &run.world;
        match run.phase {
            Phase::Sense { .. } => Reply::Sensed(self.sense(run)),
            Phase::Fire { action, .. } => {
                let program = &w.programs[w.current];
                let action = program.flat[program.step].action(action);
                Reply::Fired(self.fire(run, action))
            }
            Phase::Joints => Reply::Sampled(
                w.robots
                    .iter()
                    .map(|r| match &r.active {
                        Some(ActiveMove::Traj { start, traj }) => {
                            hermite(&traj.waypoints, w.t - start)
                        }
                        _ => r.q.clone(),
                    })
                    .collect(),
            ),
            Phase::Devices => Reply::Zones(self.zones(run)),
            Phase::Board => Reply::Decks(self.decks(run)),
            Phase::Carry { next } => Reply::Carried(self.carry(run, next)),
            Phase::Clear => self.clear(run),
            Phase::Gaits => {
                Reply::Walked((0..w.robots.len()).map(|r| self.stride(run, r)).collect())
            }
            Phase::Follow => Reply::Followed(
                w.robots
                    .iter()
                    .map(|r| {
                        // What the part has moved since the latch, and the
                        // nominal pose shifted by it.
                        let (offset, q) = match &r.tracking {
                            None => (iso(0.0, 0.0, 0.0), r.q.clone()),
                            Some(latch) => {
                                let at = w
                                    .obstacles
                                    .iter()
                                    .find(|o| o.name == latch.object)
                                    .map_or(latch.origin, |o| o.pose)
                                    .at;
                                let from = latch.origin.at;
                                let moved = if latch.frozen {
                                    latch.offset
                                } else {
                                    Pose {
                                        at: Vec3 {
                                            x: at.x - from.x,
                                            y: at.y - from.y,
                                            z: at.z - from.z,
                                        },
                                        ..iso(0.0, 0.0, 0.0)
                                    }
                                };
                                let d = [moved.at.x, moved.at.y, moved.at.z];
                                let mut q = r.track_seed();
                                for k in 0..q.len().min(3) {
                                    q[k] = r.q_nom[k] + d[k];
                                }
                                (moved, q)
                            }
                        };
                        (offset, q)
                    })
                    .map(|(offset, q)| TrackReply {
                        offset,
                        q,
                        converged: true,
                        pos_error: 0,
                        rot_error: 0,
                        iters: 1,
                    })
                    .collect(),
            ),
            Phase::Contacts => self.contacts(run),
            Phase::Done => unreachable!(),
        }
    }

    fn drive(&self, mut run: Run) -> Result<SequenceTimeline, SeqError> {
        while !matches!(run.phase, Phase::Done) {
            let reply = self.answer(&run);
            assert!(run.accepts(&reply));
            run.advance(reply)?;
        }
        let rests = (0..run.world.bases.len())
            .map(|r| self.ride(&run, r).map_or(run.world.bases[r], pose))
            .collect();
        Ok(run.finish(&rests))
    }

    fn simulate(
        &self,
        scene: &Scene,
        names: &[&str],
        options: RolloutOptions,
    ) -> Result<SequenceTimeline, SeqError> {
        let faults: Vec<Option<SequenceFault>> = names.iter().map(|_| None).collect();
        assert!(scene.is_rollable(names, &faults));
        self.drive(scene.simulate_sequences(names, options, &faults, &None)?)
    }
}

fn outside() -> Outside {
    Outside { shapes: vec![], goals: vec![], fk: arm_fk, links: no_links, body: upright }
}

fn joint_motion(scene: &mut Scene, outside: &mut Outside, name: &str, goal: f64) {
    scene.motions.push(Motion { name: name.to_string(), robot: 0 });
    outside.goals.push((name.to_string(), vec![goal]));
}

/// The arm with one joint.
fn arm(name: &str, base: Pose) -> Robot {
    Robot {
        name: name.to_string(),
        links: vec!["a".to_string(), "b".to_string()],
        joints: vec![Joint { name: "j".to_string(), q_index: Some(0) }],
        actuated: vec![0],
        tool_mount_link: 1,
        q: vec![0],
        base,
        mount: None,
    }
}

fn empty_scene() -> Scene {
    Scene {
        signals: vec![],
        sensors: vec![],
        cameras: vec![],
        lidars: vec![],
        devices: vec![],
        robots: vec![],
        obstacles: vec![],
        attachments: vec![],
        motions: vec![],
        toolpaths: vec![],
        sequences: vec![],
        forced_inputs: vec![],
    }
}

fn sample_scene() -> Scene {
    let mut scene = empty_scene();
    scene.robots.push(arm("r", iso(0.0, 0.0, 0.0)));
    scene
}

fn define_signal(scene: &mut Scene, name: &str, initial: bool) {
    match scene.signals.iter_mut().find(|s| s.name == name) {
        Some(s) => s.initial = initial,
        None => scene.signals.push(Signal { name: name.to_string(), initial }),
    }
}

fn sequence(scene: &mut Scene, name: &str, steps: Vec<Step>) {
    scene.sequences.retain(|s| s.name != name);
    scene.sequences.push(Sequence { name: name.to_string(), steps });
}

fn step(name: &str, actions: Vec<Action>, transition: Condition) -> Step {
    Step { name: name.to_string(), actions, transition, select: vec![] }
}

fn sel(name: &str, arms: Vec<(Condition, Vec<Step>)>) -> Step {
    Step {
        name: name.to_string(),
        actions: vec![],
        transition: Condition::Immediately,
        select: arms
            .into_iter()
            .map(|(condition, steps)| SelectArm { condition, steps })
            .collect(),
    }
}

fn set(signal: &str, value: bool) -> Action {
    Action::SetSignal { signal: signal.to_string(), value }
}

fn signal(name: &str, value: bool) -> Condition {
    Condition::Signal { name: name.to_string(), value }
}

fn elapsed(seconds: f64) -> Condition {
    Condition::Elapsed { seconds: pc(seconds) }
}

fn motion(name: &str) -> Action {
    Action::StartMotion { motion: name.to_string() }
}

fn obstacle(scene: &mut Scene, outside: &mut Outside, name: &str, half: [f64; 3], at: Pose) {
    scene.obstacles.push(Obstacle {
        name: name.to_string(),
        pose: at,
        enabled: true,
        walkable: false,
        half: Some(v3(half[0], half[1], half[2])),
    });
    outside.shapes.push((name.to_string(), half));
}

fn sample(tl: &SequenceTimeline, t: i64) -> Vec<f64> {
    hermite(&tl.robots[0].trajectory.waypoints, t).iter().map(|x| fl(*x)).collect()
}

/// Where a body was at `t`, and how it was turned.
fn stance(spans: &Vec<TrackSpan>, t: i64) -> Frame {
    match SequenceTimeline::span_pose(spans, t) {
        Some(Placement::At(p)) => frame(p),
        Some(Placement::Turned { from, center, phi }) => pivot(frame(from), center, fl(phi)),
        other => panic!("no place of its own: {other:?}"),
    }
}

/// Where a base that does not walk was at `t`, and how it was turned.
fn base_frame(track: &RobotTrack, t: i64) -> Frame {
    let walk = Bearing { rise: pc(9.0), pitch: iso(9.0, 0.0, 0.0), sway: iso(0.0, 9.0, 0.0) };
    let base = SequenceTimeline::base_pose(track, t, &walk).expect("a base track");
    assert_eq!((base.pitch, base.sway), (iso(0.0, 0.0, 0.0), iso(0.0, 0.0, 0.0)));
    match base.ride {
        Placement::At(p) => frame(p),
        Placement::Turned { from, center, phi } => pivot(frame(from), center, fl(phi)),
        other => panic!("no place of its own: {other:?}"),
    }
}

fn place(track: &ObjectTrack, t: i64) -> [f64; 3] {
    stance(&track.spans, t).t
}

fn near(a: [f64; 3], b: [f64; 3]) -> bool {
    (0..3).map(|k| (a[k] - b[k]).powi(2)).sum::<f64>().sqrt() < 1e-9
}

fn faces(f: Frame, yaw: f64) -> bool {
    let d = f.yaw - yaw;
    d.sin().atan2(d.cos()).abs() < 1e-9
}

/// A path, with the heading of each waypoint: along the run that leaves it, or
/// the last one.
fn path(waypoints: &[[f64; 3]], stations: &[(&str, usize)], ring: bool) -> VehiclePath {
    let n = waypoints.len();
    let course = |a: usize, b: usize| {
        let (p, q) = (waypoints[a], waypoints[b]);
        let (x, y) = (q[0] - p[0], q[1] - p[1]);
        if x.hypot(y) > 1e-9 {
            Some(y.atan2(x))
        } else {
            None
        }
    };
    let headings = (0..n)
        .map(|i| {
            (i..n - 1)
                .find_map(|k| course(k, k + 1))
                .or_else(|| (0..i).rev().find_map(|k| course(k, k + 1)))
                .unwrap_or(0.0)
        })
        .map(pc)
        .collect();
    VehiclePath {
        waypoints: waypoints.iter().map(|p| v3(p[0], p[1], p[2])).collect(),
        stations: stations.iter().map(|(n, k)| (n.to_string(), *k)).collect(),
        ring,
        headings,
    }
}

fn goto(device: &str, station: &str) -> Action {
    command(device, DeviceCommand::Goto { station: station.to_string() })
}

fn arrived(device: &str) -> Condition {
    Condition::DeviceDone { device: device.to_string() }
}

fn vehicle<'a>(tl: &'a SequenceTimeline, name: &str) -> &'a ObjectTrack {
    tl.vehicles.iter().find(|v| v.name == name).unwrap()
}

fn names(list: &[&str]) -> Vec<String> {
    list.iter().map(|n| n.to_string()).collect()
}

fn device(scene: &mut Scene, name: &str, kind: DeviceKind) {
    scene.devices.push(DeviceSpec { name: name.to_string(), kind });
}

fn command(device: &str, command: DeviceCommand) -> Action {
    Action::Device { device: device.to_string(), command }
}

fn lane<'a>(tl: &'a SequenceTimeline, name: &str) -> &'a BoolTrack {
    tl.signals.iter().find(|s| s.name == name).unwrap()
}

fn object<'a>(tl: &'a SequenceTimeline, name: &str) -> &'a ObjectTrack {
    tl.objects.iter().find(|o| o.name == name).unwrap_or_else(|| panic!("no track for {name}"))
}

// ---------------------------------------------------------------------------

#[test]
fn motions_waits_and_step_spans_line_up() {
    let mut scene = sample_scene();
    let mut out = outside();
    joint_motion(&mut scene, &mut out, "go", 0.8);
    joint_motion(&mut scene, &mut out, "back", 0.0);
    sequence(
        &mut scene,
        "cycle",
        vec![
            step("run", vec![motion("go")], Condition::Done),
            step("wait", vec![], elapsed(0.5)),
            step("return", vec![motion("back")], Condition::Done),
        ],
    );
    let options = RolloutOptions::default();
    let tl = out.simulate(&scene, &["cycle"], options).unwrap();

    assert_eq!(tl.step_spans.len(), 3);
    let run = &tl.step_spans[0];
    let wait = &tl.step_spans[1];
    let ret = &tl.step_spans[2];
    // Step boundaries quantize up to the scan period.
    assert!(run.start == 0 && fl(run.end) > 0.2);
    assert!((sample(&tl, run.end)[0] - 0.8).abs() < 1e-9);
    let wait_len = fl(wait.end - wait.start);
    assert!(
        (0.5 - 1e-9..=0.5 + fl(options.dt) + 1e-9).contains(&wait_len),
        "wait_len = {wait_len}"
    );
    // The robot holds still through the wait.
    assert!((sample(&tl, wait.start + pc(0.25))[0] - 0.8).abs() < 1e-9);
    // The return motion starts where the previous ended and comes home.
    assert!(sample(&tl, tl.duration)[0].abs() < 1e-9);
    assert_eq!(ret.end, tl.duration);
    // Cycle time covers both motions plus the wait.
    assert!(fl(tl.duration) > fl(run.end) + 0.5);
}

#[test]
fn edges_fire_on_transitions_not_startup_state() {
    let mut scene = sample_scene();
    define_signal(&mut scene, "flag", true);
    sequence(
        &mut scene,
        "watch_r",
        vec![step("r", vec![], Condition::Rising { name: "flag".to_string() })],
    );
    sequence(
        &mut scene,
        "watch_f",
        vec![step("f", vec![], Condition::Falling { name: "flag".to_string() })],
    );
    sequence(
        &mut scene,
        "pulse",
        vec![
            step("hold", vec![], elapsed(0.2)),
            step("off", vec![set("flag", false)], Condition::Immediately),
            step("hold2", vec![], elapsed(0.2)),
            step("on", vec![set("flag", true)], Condition::Immediately),
        ],
    );
    let tl = outside()
        .simulate(&scene, &["watch_r", "watch_f", "pulse"], RolloutOptions::default())
        .unwrap();
    let span = |name: &str| {
        tl.step_spans
            .iter()
            .find(|s| s.name == name)
            .unwrap_or_else(|| panic!("no span `{name}`"))
    };
    // The startup level is not an edge, so the rising watcher waits for the
    // next off and on, while the falling watcher catches the drop.
    let f = span("watch_f/f");
    let r = span("watch_r/r");
    assert!((0.2..=0.23).contains(&fl(f.end)), "falling at {} (wanted ~0.21)", fl(f.end));
    assert!((0.4..=0.43).contains(&fl(r.end)), "rising at {} (wanted ~0.41)", fl(r.end));
}

#[test]
fn same_scan_set_edges_for_later_programs() {
    let mut scene = sample_scene();
    define_signal(&mut scene, "go", false);
    sequence(
        &mut scene,
        "boss",
        vec![step("release", vec![set("go", true)], Condition::Immediately)],
    );
    sequence(
        &mut scene,
        "station",
        vec![step("await", vec![], Condition::Rising { name: "go".to_string() })],
    );
    let tl =
        outside().simulate(&scene, &["boss", "station"], RolloutOptions::default()).unwrap();
    // The set fires in the very first scan; the station, scanned after the
    // boss, sees the edge in that same scan.
    let await_span = tl.step_spans.iter().find(|s| s.name == "station/await").unwrap();
    assert_eq!(await_span.end, 0);
}

#[test]
fn select_takes_the_first_true_arm_and_records_it() {
    let mut scene = sample_scene();
    for name in ["ok", "ng", "did_a", "did_b", "joined"] {
        define_signal(&mut scene, name, false);
    }
    // The world says NG: the second arm runs, the first never bakes.
    define_signal(&mut scene, "ng", true);
    sequence(
        &mut scene,
        "s",
        vec![
            sel(
                "judge",
                vec![
                    (
                        signal("ok", true),
                        vec![step("pass", vec![set("did_a", true)], Condition::Immediately)],
                    ),
                    (
                        signal("ng", true),
                        vec![step("reject", vec![set("did_b", true)], Condition::Immediately)],
                    ),
                ],
            ),
            step("rejoin", vec![set("joined", true)], Condition::Immediately),
        ],
    );
    let tl = outside().simulate(&scene, &["s"], RolloutOptions::default()).unwrap();
    let names: Vec<&str> = tl.step_spans.iter().map(|s| s.name.as_str()).collect();
    assert_eq!(names, ["judge", "reject", "rejoin"]);
    assert_eq!(tl.branches.len(), 1);
    assert_eq!(
        (
            tl.branches[0].sequence.as_str(),
            tl.branches[0].step.as_str(),
            tl.branches[0].arm
        ),
        ("s", "judge", 1)
    );
    let latched =
        |name: &str| tl.signals.iter().find(|s| s.name == name).unwrap().edges.last().unwrap().1;
    assert!(latched("did_b") && !latched("did_a") && latched("joined"));

    // Both true: authored order is the priority, the first arm wins.
    define_signal(&mut scene, "ok", true);
    let tl = outside().simulate(&scene, &["s"], RolloutOptions::default()).unwrap();
    assert_eq!(tl.branches[0].arm, 0);
    assert!(tl.step_spans.iter().any(|s| s.name == "pass"));
    assert!(!tl.step_spans.iter().any(|s| s.name == "reject"));
}

#[test]
fn select_waits_for_an_arm_and_empty_arms_skip() {
    let mut scene = sample_scene();
    define_signal(&mut scene, "late", false);
    define_signal(&mut scene, "skip", false);
    sequence(
        &mut scene,
        "waiter",
        vec![
            sel(
                "gate",
                vec![
                    (
                        signal("skip", true),
                        vec![step("never", vec![], Condition::Immediately)],
                    ),
                    // An empty arm: straight to the rejoin.
                    (signal("late", true), vec![]),
                ],
            ),
            step("after", vec![], Condition::Immediately),
        ],
    );
    sequence(
        &mut scene,
        "writer",
        vec![
            step("hold", vec![], elapsed(0.3)),
            step("go", vec![set("late", true)], Condition::Immediately),
        ],
    );
    let tl =
        outside().simulate(&scene, &["waiter", "writer"], RolloutOptions::default()).unwrap();
    // The branching step itself is the wait.
    let gate = tl.step_spans.iter().find(|s| s.name == "waiter/gate").unwrap();
    assert!((0.3..=0.32).contains(&fl(gate.end)), "gate.end = {}", fl(gate.end));
    assert!(!tl.step_spans.iter().any(|s| s.name == "waiter/never"));
    let after = tl.step_spans.iter().find(|s| s.name == "waiter/after").unwrap();
    assert_eq!(after.start, gate.end);
    assert_eq!(tl.branches[0].arm, 1);
}

fn attribution_a() -> Vec<Step> {
    vec![
        step("wait", vec![], elapsed(0.1)),
        step("wait", vec![motion("go")], Condition::Done),
        sel(
            "gate",
            vec![
                (signal("skip", true), vec![step("never", vec![], Condition::Immediately)]),
                // The taken arm is empty: only the branches record the decision.
                (signal("late", true), vec![]),
            ],
        ),
        step("wait", vec![], Condition::Immediately),
    ]
}

fn attribution_b() -> Vec<Step> {
    vec![
        step("wait", vec![], elapsed(0.05)),
        step("go", vec![set("late", true)], Condition::Immediately),
    ]
}

#[test]
fn spans_and_moves_carry_structural_attribution() {
    let mut scene = sample_scene();
    let mut out = outside();
    joint_motion(&mut scene, &mut out, "go", 0.8);
    define_signal(&mut scene, "skip", false);
    define_signal(&mut scene, "late", false);
    sequence(&mut scene, "a", attribution_a());
    sequence(&mut scene, "b", attribution_b());
    let tl = out.simulate(&scene, &["a", "b"], RolloutOptions::default()).unwrap();

    // Every span's sequence and step index the owning flatten, and the display
    // name is that node's name behind the prefix.
    let (a_steps, b_steps) = (attribution_a(), attribution_b());
    let flat_a = flatten(&a_steps);
    let flat_b = flatten(&b_steps);
    for span in &tl.step_spans {
        let flat = match span.sequence.as_str() {
            "a" => &flat_a,
            "b" => &flat_b,
            other => panic!("unexpected sequence `{other}`"),
        };
        assert_eq!(span.name, format!("{}/{}", span.sequence, flat[span.step].step.name));
    }
    // The three duplicate "wait" spans resolve to distinct flat steps.
    let waits: Vec<usize> = tl
        .step_spans
        .iter()
        .filter(|s| s.sequence == "a" && s.name == "a/wait")
        .map(|s| s.step)
        .collect();
    assert_eq!(waits, [0, 1, 4]);
    assert!(!tl.step_spans.iter().any(|s| s.name == "a/never"));
    assert_eq!(
        (
            tl.branches[0].sequence.as_str(),
            tl.branches[0].select,
            tl.branches[0].arm
        ),
        ("a", 0, 1)
    );
    // Robot move spans carry the step that started them.
    assert_eq!(tl.robots[0].moves.len(), 1);
    assert_eq!(
        (tl.robots[0].moves[0].sequence.as_str(), tl.robots[0].moves[0].step),
        ("a", 1)
    );

    // One program alone fills the same fields, names unprefixed.
    let tl = out.simulate(&scene, &["b"], RolloutOptions::default()).unwrap();
    let attribution: Vec<(&str, &str, usize)> = tl
        .step_spans
        .iter()
        .map(|s| (s.name.as_str(), s.sequence.as_str(), s.step))
        .collect();
    assert_eq!(attribution, [("wait", "b", 0), ("go", "b", 1)]);
}

#[test]
fn nested_selects_record_both_decisions() {
    let mut scene = sample_scene();
    for name in ["outer", "inner"] {
        define_signal(&mut scene, name, true);
    }
    sequence(
        &mut scene,
        "s",
        vec![sel(
            "level1",
            vec![(
                signal("outer", true),
                vec![sel(
                    "level2",
                    vec![
                        (
                            signal("inner", false),
                            vec![step("no", vec![], Condition::Immediately)],
                        ),
                        (
                            signal("inner", true),
                            vec![step("yes", vec![], Condition::Immediately)],
                        ),
                    ],
                )],
            )],
        )],
    );
    let tl = outside().simulate(&scene, &["s"], RolloutOptions::default()).unwrap();
    let names: Vec<&str> = tl.step_spans.iter().map(|s| s.name.as_str()).collect();
    assert_eq!(names, ["level1", "level2", "yes"]);
    let taken: Vec<(&str, usize)> =
        tl.branches.iter().map(|b| (b.step.as_str(), b.arm)).collect();
    assert_eq!(taken, [("level1", 0), ("level2", 1)]);
    // Decisions carry the authored pre-order ordinal too.
    let ordinals: Vec<usize> = tl.branches.iter().map(|b| b.select).collect();
    assert_eq!(ordinals, [0, 1]);
}

/// A part sits in the zone of an eye; `forced` is what a scenario pins.
fn eye_scene(out: &mut Outside, part: bool, forced: &[(&str, bool)]) -> Scene {
    let mut scene = sample_scene();
    if part {
        obstacle(&mut scene, out, "part", [0.02, 0.02, 0.02], iso(0.3, 0.0, 0.5));
    }
    scene.sensors.push(Sensor {
        name: "eye".to_string(),
        mount: None,
        kind: SensorKind::Zone { pose: iso(0.3, 0.0, 0.5), size: v3(0.1, 0.1, 0.1) },
        watch: SensorWatch::AllObjects,
    });
    define_signal(&mut scene, "flag", false);
    joint_motion(&mut scene, out, "go", 0.5);
    sequence(
        &mut scene,
        "s",
        vec![
            step("await part", vec![], signal("eye", true)),
            step("raise", vec![set("flag", true)], signal("flag", true)),
            step("go", vec![motion("go")], Condition::Done),
        ],
    );
    for (name, value) in forced {
        scene.forced_inputs.push((name.to_string(), *value));
    }
    scene
}

fn under<'a>(
    out: &Outside,
    scene: &'a Scene,
    scenario: Option<&str>,
    applied: Result<&'a Scene, String>,
    options: RolloutOptions,
) -> Result<SequenceTimeline, SeqError> {
    out.drive(scene.simulate_sequences_scenario(
        &["s"],
        scenario,
        applied,
        options,
        &vec![None],
        &None,
    )?)
}


#[test]
fn faults_pin_inputs_and_name_themselves_in_timeouts() {
    let mut out = outside();
    let scene = eye_scene(&mut out, true, &[]);
    let options = RolloutOptions { max_duration: pc(5.0), ..RolloutOptions::default() };
    let base = out.simulate(&scene, &["s"], options).unwrap();
    assert!(base.duration > 0);

    // A stuck-low eye ignores the part sitting in it: the program never leaves
    // its first step, and the timeout says why.
    let stuck = eye_scene(&mut out, true, &[("eye", false)]);
    let err = under(&out, &scene, Some("eye_stuck"), Ok(&stuck), options).unwrap_err();
    assert!(
        matches!(&err, SeqError::Timeout { name, forced, .. }
            if name == "await part" && forced == &[("eye".to_string(), false)]),
        "{err:?}"
    );
    assert_eq!(
        err.text(),
        "timed out after 5s waiting in step 0 (`await part`) — forced: eye=false"
    );

    // A stuck internal signal drops the program's own set: it waits for its
    // own flag forever.
    let stuck = eye_scene(&mut out, true, &[("flag", false)]);
    let err = under(&out, &scene, Some("flag_stuck"), Ok(&stuck), options).unwrap_err();
    assert!(matches!(&err, SeqError::Timeout { name, .. } if name == "raise"), "{err:?}");

    // What applying the scenario refuses is what the run refuses.
    let refusal = Err("`flag` has no input wire to open".to_string());
    let err = under(&out, &scene, Some("flag_open"), refusal, options).unwrap_err();
    assert!(err.text().contains("no input wire to open"), "{}", err.text());

    // The part is gone: geometry says off, the open wire that reads high says
    // on.
    let wired = eye_scene(&mut out, false, &[]);
    assert!(matches!(
        out.simulate(&wired, &["s"], options),
        Err(SeqError::Timeout { .. })
    ));
    let open = eye_scene(&mut out, false, &[("eye", true)]);
    let tl = under(&out, &wired, Some("eye_open"), Ok(&open), options).unwrap();
    let eye = tl.signals.iter().find(|s| s.name == "eye").unwrap();
    assert_eq!(eye.edges, vec![(0, true)], "a pinned level, not an edge");
    assert_eq!(tl.scenario.as_deref(), Some("eye_open"));

    // No faults: identical to the baseline.
    let same = eye_scene(&mut out, true, &[]);
    let clean = under(&out, &scene, Some("clean"), Ok(&same), options).unwrap();
    assert_eq!(clean.duration, base.duration);
    let points = |tl: &SequenceTimeline| -> Vec<(i64, Vec<i64>)> {
        tl.robots[0].trajectory.waypoints.iter().map(|w| (w.t, w.q.clone())).collect()
    };
    assert_eq!(points(&clean), points(&base));
    assert!(clean
        .signals
        .iter()
        .zip(&base.signals)
        .all(|(a, b)| a.name == b.name && a.edges == b.edges));
    assert!(scene.forced_inputs.is_empty());
}

fn judged(ok: bool, ng: bool) -> Scene {
    let mut scene = sample_scene();
    define_signal(&mut scene, "ok", ok);
    define_signal(&mut scene, "ng", ng);
    sequence(
        &mut scene,
        "s",
        vec![
            sel(
                "judge",
                vec![
                    (signal("ok", true), vec![step("pass", vec![], Condition::Immediately)]),
                    (signal("ng", true), vec![step("reject", vec![], Condition::Immediately)]),
                ],
            ),
            step("rejoin", vec![], Condition::Immediately),
        ],
    );
    scene
}

#[test]
fn scenarios_steer_branches_without_touching_the_live_scene() {
    let out = outside();
    let scene = judged(true, false);
    let ng_part = judged(false, true);
    let options = RolloutOptions::default();

    let baseline = under(&out, &scene, None, Ok(&ng_part), options).unwrap();
    assert_eq!(baseline.scenario, None);
    assert_eq!(baseline.branches[0].arm, 0);

    let named = under(&out, &scene, Some("baseline"), Ok(&ng_part), options).unwrap();
    assert_eq!(named.scenario, None);
    assert_eq!(named.branches[0].arm, 0);

    let ng = under(&out, &scene, Some("ng_part"), Ok(&ng_part), options).unwrap();
    assert_eq!(ng.scenario.as_deref(), Some("ng_part"));
    assert_eq!(ng.branches[0].arm, 1);
    assert!(ng.step_spans.iter().any(|s| s.name == "reject"));

    // The live scene still bakes the baseline path afterwards.
    assert!(scene.signals.iter().any(|s| s.name == "ok" && s.initial));
    let again = under(&out, &scene, None, Ok(&ng_part), options).unwrap();
    assert_eq!(again.branches[0].arm, 0);

    let unknown = Err("unknown scenario `ghost`".to_string());
    let err = under(&out, &scene, Some("ghost"), unknown, options).unwrap_err();
    assert!(err.text().contains("unknown scenario"), "{}", err.text());
}

fn graded(ok: bool, ng: bool, fine: bool) -> Scene {
    let mut scene = sample_scene();
    for (name, initial) in [("ok", ok), ("ng", ng), ("fine", fine)] {
        define_signal(&mut scene, name, initial);
    }
    sequence(
        &mut scene,
        "s",
        vec![
            sel(
                "judge",
                vec![
                    (
                        signal("ok", true),
                        vec![sel(
                            "grade",
                            vec![
                                (signal("fine", true), vec![]),
                                (
                                    signal("fine", false),
                                    vec![step("rework", vec![], Condition::Immediately)],
                                ),
                            ],
                        )],
                    ),
                    (
                        signal("ng", true),
                        vec![step("reject", vec![], Condition::Immediately)],
                    ),
                ],
            ),
            step("end", vec![], Condition::Immediately),
        ],
    );
    scene
}

/// How guards are written.
fn written(scene: &Scene) -> Vec<Vec<Vec<String>>> {
    let guard = |c: &Condition| match c {
        Condition::Signal { name, value } => {
            format!("bt.seq.signal(\"{name}\", {})", if *value { "True" } else { "False" })
        }
        Condition::Immediately => "bt.seq.immediately()".to_string(),
        _ => "?".to_string(),
    };
    scene
        .sequences
        .iter()
        .map(|s| {
            enumerate_selects(&s.steps)
                .iter()
                .map(|step| step.select.iter().map(|a| guard(&a.condition)).collect())
                .collect()
        })
        .collect()
}

#[test]
fn coverage_names_untaken_arms_until_scenarios_take_them() {
    let out = outside();
    let scene = graded(true, false, true);
    let options = RolloutOptions::default();
    let base = under(&out, &scene, None, Ok(&scene), options).unwrap();
    // The baseline takes judge/ok then grade/fine; the two other arms are named
    // in enumeration order.
    let guards = written(&scene);
    let uncovered = arm_coverage(&scene, &[&base], &guards).unwrap();
    let rows: Vec<(&str, usize, usize)> =
        uncovered.iter().map(|u| (u.step.as_str(), u.select, u.arm)).collect();
    assert_eq!(rows, [("judge", 0, 1), ("grade", 1, 1)]);
    assert!(
        uncovered[0].condition.contains("bt.seq.signal(\"ng\", True)"),
        "{}",
        uncovered[0].condition
    );
    assert!(uncovered[1].text().contains("`grade` arm 2"), "{}", uncovered[1].text());

    // Each scenario buys coverage; the full set drains the report.
    let ng_part = graded(false, true, true);
    let coarse = graded(true, false, false);
    let ng = under(&out, &scene, Some("ng_part"), Ok(&ng_part), options).unwrap();
    let after_ng = arm_coverage(&scene, &[&base, &ng], &guards).unwrap();
    assert_eq!(after_ng.len(), 1);
    assert_eq!(after_ng[0].step, "grade");
    let coarse = under(&out, &scene, Some("coarse"), Ok(&coarse), options).unwrap();
    assert!(arm_coverage(&scene, &[&base, &ng, &coarse], &guards).unwrap().is_empty());
}

#[test]
fn neither_order_nor_repetition_changes_the_coverage() {
    let out = outside();
    let scene = graded(true, false, true);
    let options = RolloutOptions::default();
    let base = under(&out, &scene, None, Ok(&scene), options).unwrap();
    let ng_part = graded(false, true, true);
    let ng = under(&out, &scene, Some("ng_part"), Ok(&ng_part), options).unwrap();
    let guards = written(&scene);
    let rows = |runs: &[&SequenceTimeline]| -> Vec<(usize, usize)> {
        let report = arm_coverage(&scene, runs, &guards).unwrap();
        report.iter().map(|u| (u.select, u.arm)).collect()
    };
    let all = rows(&[&base, &ng]);
    assert_eq!(all, [(1, 1)]);
    assert_eq!(rows(&[&ng, &base]), all);
    assert_eq!(rows(&[&ng, &base, &ng, &ng]), all);
    // Another run strikes arms out, and adds none.
    let before = rows(&[&base]);
    assert_eq!(before, [(0, 1), (1, 1)]);
    assert!(all.iter().all(|r| before.contains(r)));
}

#[test]
fn coverage_requires_one_shared_sequence_set() {
    let mut scene = sample_scene();
    let out = outside();
    define_signal(&mut scene, "go", false);
    sequence(
        &mut scene,
        "s",
        vec![sel(
            "gate",
            vec![(signal("go", true), vec![]), (Condition::Immediately, vec![])],
        )],
    );
    sequence(
        &mut scene,
        "boss",
        vec![sel(
            "mode",
            vec![(
                Condition::Immediately,
                vec![step("fire", vec![set("go", true)], Condition::Immediately)],
            )],
        )],
    );
    let options = RolloutOptions::default();
    let guards = written(&scene);
    let pair = out.simulate(&scene, &["s", "boss"], options).unwrap();
    // The boss's sole arm is covered, the first of the other is not: it scans
    // before the boss, so the signal is still low at its gate.
    let uncovered = arm_coverage(&scene, &[&pair], &guards).unwrap();
    let rows: Vec<(&str, &str, usize)> =
        uncovered.iter().map(|u| (u.sequence.as_str(), u.step.as_str(), u.arm)).collect();
    assert_eq!(rows, [("s", "gate", 0)]);

    assert!(arm_coverage(&scene, &[], &guards).unwrap_err().contains("no timelines"));
    let solo = out.simulate(&scene, &["boss"], options).unwrap();
    let err = arm_coverage(&scene, &[&pair, &solo], &guards).unwrap_err();
    assert!(err.contains("different sequence sets"), "{err}");
}

#[test]
fn select_ordinals_match_the_shared_enumeration() {
    // Two selects nested inside the first arm plus one top-level sibling:
    // pre-order must number them alike in the enumeration and the flattening.
    let inner = sel("inner", vec![(Condition::Immediately, vec![])]);
    let steps = vec![
        sel(
            "outer",
            vec![(Condition::Immediately, vec![inner]), (Condition::Immediately, vec![])],
        ),
        step("between", vec![], Condition::Immediately),
        sel("sibling", vec![(Condition::Immediately, vec![])]),
    ];

    let enumerated: Vec<&str> =
        enumerate_selects(&steps).iter().map(|s| s.name.as_str()).collect();
    assert_eq!(enumerated, ["outer", "inner", "sibling"]);

    let flat = flatten(&steps);
    let flat_selects: Vec<(usize, &str)> =
        flat.iter().filter_map(|s| s.select.map(|o| (o, s.step.name.as_str()))).collect();
    assert_eq!(flat_selects, [(0, "outer"), (1, "inner"), (2, "sibling")]);
}

#[test]
fn ramp_signals_and_instant_chains() {
    let mut scene = sample_scene();
    define_signal(&mut scene, "flag", false);
    sequence(
        &mut scene,
        "s",
        vec![
            step(
                "ramp",
                vec![Action::StartRamp {
                    robot: None,
                    targets: vec![("j".to_string(), pc(0.6))],
                    duration: pc(0.3),
                }],
                Condition::Done,
            ),
            step("mark", vec![set("flag", true)], Condition::Immediately),
            step("gate", vec![], signal("flag", true)),
        ],
    );
    let tl = outside().simulate(&scene, &["s"], RolloutOptions::default()).unwrap();

    // Cubic rest-to-rest ramp: exact midpoint halfway through.
    assert!((sample(&tl, pc(0.15))[0] - 0.3).abs() < 1e-9);
    assert!((sample(&tl, pc(0.3))[0] - 0.6).abs() < 1e-9);
    // The last two steps resolve in the same scan as the ramp's end.
    let flag = &tl.signals[0];
    assert_eq!(flag.edges.first(), Some(&(0, false)));
    assert_eq!(flag.edges.len(), 2);
    let (edge_t, v) = flag.edges[1];
    assert!(v && edge_t == tl.duration);
    assert!(!flag.value_at(pc(0.1)) && flag.value_at(tl.duration));
    // Instantaneous steps leave zero-width spans at the end.
    assert_eq!(tl.step_spans[1].start, tl.step_spans[1].end);
    assert!((fl(tl.duration) - 0.3).abs() < 0.011);
}

fn attach(object: &str) -> Action {
    Action::Attach {
        robot: None,
        object: object.to_string(),
        link: None,
        touch_links: None,
    }
}

#[test]
fn attach_detach_object_tracks() {
    let mut scene = sample_scene();
    let mut out = outside();
    obstacle(&mut scene, &mut out, "box", [0.02, 0.02, 0.02], iso(0.1, 0.0, 0.5));
    joint_motion(&mut scene, &mut out, "go", 0.8);
    sequence(
        &mut scene,
        "pick",
        vec![
            step("grasp", vec![attach("box")], Condition::Immediately),
            step("move", vec![motion("go")], Condition::Done),
            step(
                "drop",
                vec![Action::Detach { object: "box".to_string() }],
                Condition::Immediately,
            ),
            step("settle", vec![], elapsed(0.2)),
        ],
    );
    let tl = out.simulate(&scene, &["pick"], RolloutOptions::default()).unwrap();

    assert_eq!(tl.objects.len(), 1);
    let track = &tl.objects[0];
    assert_eq!(track.name, "box");
    assert_eq!(track.spans.len(), 2);
    let TrackSpan::Follow { t0, t1, robot, link, offset } = track.spans[0] else {
        panic!("expected follow span, got {track:?}");
    };
    assert!(t0 == 0 && fl(t1) > 0.2 && robot == 0 && link == 1);
    // Mid-motion the box rides its link at its grasp.
    let t_mid = (t0 + t1) / 2;
    assert_eq!(
        SequenceTimeline::object_pose(track, t_mid),
        Some(Placement::OnLink { robot: 0, link: 1, offset })
    );
    assert!((fl(offset.at.x) - 0.1).abs() < 1e-12);
    // After detach it holds at the rotated position for the rest.
    let TrackSpan::Hold { t1: hold_end, pose, .. } = track.spans[1] else {
        panic!("expected hold span");
    };
    assert_eq!(hold_end, tl.duration);
    let expected = [0.1 * 0.8f64.cos(), 0.1 * 0.8f64.sin(), 0.5];
    for (a, b) in triple(pose.at).iter().zip(expected) {
        assert!((a - b).abs() < 1e-9);
    }
    // The live scene is untouched by the rollout.
    assert!(scene.attachments.is_empty());
    assert!((fl(scene.obstacles[0].pose.at.x) - 0.1).abs() < 1e-12);
}

#[test]
fn mid_sequence_attach_prepends_a_rest_hold() {
    let mut scene = sample_scene();
    let mut out = outside();
    obstacle(&mut scene, &mut out, "box", [0.02, 0.02, 0.02], iso(0.1, 0.0, 0.5));
    joint_motion(&mut scene, &mut out, "go", 0.8);
    sequence(
        &mut scene,
        "s",
        vec![
            step("wait", vec![], elapsed(0.4)),
            step("grasp", vec![attach("box")], Condition::Immediately),
            step("move", vec![motion("go")], Condition::Done),
        ],
    );
    let tl = out.simulate(&scene, &["s"], RolloutOptions::default()).unwrap();
    // Before the grasp the object rests at its scene pose: the track tiles the
    // cycle with a leading hold.
    let track = &tl.objects[0];
    let TrackSpan::Hold { t0, t1, pose } = track.spans[0] else {
        panic!("expected leading hold, got {track:?}");
    };
    assert!(t0 == 0 && (fl(t1) - 0.4).abs() < 0.011);
    assert_eq!(pose, iso(0.1, 0.0, 0.5));
    assert_eq!(
        SequenceTimeline::object_pose(track, pc(0.2)),
        Some(Placement::At(iso(0.1, 0.0, 0.5)))
    );
    assert!(matches!(track.spans[1], TrackSpan::Follow { .. }));
}

#[test]
fn timeout_and_immediate_loop_guards() {
    let mut scene = sample_scene();
    let out = outside();
    define_signal(&mut scene, "never", false);
    sequence(
        &mut scene,
        "stuck",
        vec![step("wait forever", vec![], signal("never", true))],
    );
    let options = RolloutOptions { max_duration: pc(0.5), ..RolloutOptions::default() };
    assert!(matches!(
        out.simulate(&scene, &["stuck"], options),
        Err(SeqError::Timeout { .. })
    ));

    let many: Vec<Step> =
        (0..10).map(|i| step(&format!("s{i}"), vec![], Condition::Immediately)).collect();
    sequence(&mut scene, "chain", many);
    let tight = RolloutOptions { immediate_chain_limit: 5, ..RolloutOptions::default() };
    assert!(matches!(
        out.simulate(&scene, &["chain"], tight),
        Err(SeqError::ImmediateLoop { .. })
    ));
    // Under the limit the chain is fine.
    let ok = out.simulate(&scene, &["chain"], RolloutOptions::default()).unwrap();
    assert_eq!(ok.duration, 0);
    assert_eq!(ok.step_spans.len(), 10);
}

#[test]
fn rollouts_are_deterministic() {
    let mut scene = sample_scene();
    let mut out = outside();
    define_signal(&mut scene, "flag", true);
    joint_motion(&mut scene, &mut out, "go", 0.7);
    sequence(
        &mut scene,
        "s",
        vec![
            step(
                "run",
                vec![motion("go")],
                Condition::All(vec![Condition::Done, signal("flag", true)]),
            ),
            step("wait", vec![], elapsed(0.25)),
        ],
    );
    let a = out.simulate(&scene, &["s"], RolloutOptions::default()).unwrap();
    let b = out.simulate(&scene, &["s"], RolloutOptions::default()).unwrap();
    assert_eq!(a.duration, b.duration);
    let points = |tl: &SequenceTimeline| -> Vec<(i64, Vec<i64>)> {
        tl.robots[0].trajectory.waypoints.iter().map(|w| (w.t, w.q.clone())).collect()
    };
    assert_eq!(points(&a), points(&b));
    assert_eq!(a.step_spans.len(), b.step_spans.len());
}

#[test]
fn signal_defs_shape_the_initial_state() {
    let mut scene = sample_scene();
    define_signal(&mut scene, "armed", true);
    sequence(&mut scene, "s", vec![step("gate", vec![], signal("armed", true))]);
    let tl = outside().simulate(&scene, &["s"], RolloutOptions::default()).unwrap();
    // A signal that is high at the start is waited for no time.
    assert_eq!(tl.duration, 0);
    assert_eq!(tl.signals[0].edges, vec![(0, true)]);
}

/// A magazine, a belt and a sink are an endless line built out of a finite
/// pool: every carrier goes round more than once, and the object tracks stay
/// continuous across the jumps.
#[test]
fn a_source_and_sink_recirculate_a_finite_pool() {
    let mut scene = sample_scene();
    let mut out = outside();
    let pool: Vec<String> = (0..3).map(|i| format!("c{i}")).collect();
    for (i, name) in pool.iter().enumerate() {
        obstacle(
            &mut scene,
            &mut out,
            name,
            [0.02, 0.02, 0.02],
            iso(-1.5, 0.5 - 0.1 * i as f64, 0.5),
        );
    }
    device(
        &mut scene,
        "feed",
        DeviceKind::Source {
            pool: pool.clone(),
            park: iso(-1.5, 0.5, 0.5),
            pitch: v3(0.0, -0.1, 0.0),
            pose: iso(-0.8, 0.5, 0.5),
            interval: pc(1.0),
            running: true,
        },
    );
    device(
        &mut scene,
        "belt",
        DeviceKind::Conveyor {
            zone: iso(0.0, 0.5, 0.5),
            size: v3(2.0, 0.3, 0.3),
            velocity: v3(0.4, 0.0, 0.0),
            running: true,
        },
    );
    device(
        &mut scene,
        "out",
        DeviceKind::Sink {
            zone: iso(0.9, 0.5, 0.5),
            size: v3(0.2, 0.3, 0.3),
            source: "feed".to_string(),
        },
    );
    sequence(&mut scene, "run", vec![step("run", vec![], elapsed(12.0))]);
    let tl = out.simulate(&scene, &["run"], RolloutOptions::default()).unwrap();
    for name in &pool {
        let t = object(&tl, name);
        // Spans tile the whole run with no gap: a jump must close the span it
        // interrupts, not leave a hole in the timeline.
        let mut cursor = 0;
        for span in &t.spans {
            let (t0, t1) = span.range();
            assert!((t0 - cursor).abs() < 1000, "{name}: gap before {t0} (cursor {cursor})");
            cursor = t1;
        }
        assert!(fl(cursor) >= 12.0 - 1e-6, "{name}: track ends at {cursor}");

        // Went round more than once: each lap is one jump upstream.
        let laps = (0..1200)
            .map(|i| place(t, i * pc(0.01))[0])
            .collect::<Vec<_>>()
            .windows(2)
            .filter(|w| w[1] < w[0] - 0.5)
            .count();
        assert!(laps >= 2, "{name} only went round {laps} time(s)");
    }
}

/// A carrier that the robot is holding must not be swept up by the sink it
/// happens to be carried over.
#[test]
fn a_sink_leaves_grasped_carriers_alone() {
    let mut scene = sample_scene();
    let mut out = outside();
    obstacle(&mut scene, &mut out, "c0", [0.02, 0.02, 0.02], iso(0.9, 0.5, 0.5));
    device(
        &mut scene,
        "feed",
        DeviceKind::Source {
            pool: vec!["c0".to_string()],
            park: iso(-1.5, 0.5, 0.5),
            pitch: v3(0.0, 0.0, 0.0),
            pose: iso(-0.8, 0.5, 0.5),
            interval: pc(1.0),
            running: false,
        },
    );
    device(
        &mut scene,
        "out",
        DeviceKind::Sink {
            zone: iso(0.9, 0.5, 0.5),
            size: v3(0.4, 0.4, 0.4),
            source: "feed".to_string(),
        },
    );
    scene.attachments.push(Attachment {
        object: "c0".to_string(),
        robot: 0,
        link: 1,
        grasp: iso(0.9, 0.5, 0.0),
    });
    sequence(&mut scene, "hold", vec![step("hold", vec![], elapsed(1.0))]);
    let tl = out.simulate(&scene, &["hold"], RolloutOptions::default()).unwrap();
    let track = object(&tl, "c0");
    assert!(
        track.spans.iter().all(|s| matches!(s, TrackSpan::Follow { .. })),
        "the sink took a carrier out of the gripper: {:?}",
        track.spans
    );
}

/// Conveyor feed with a photoelectric beam: the box trips the beam at the
/// analytic time and the conveyor stops on the next scan.
#[test]
fn conveyor_feed_trips_the_beam_on_time() {
    let mut scene = sample_scene();
    let mut out = outside();
    obstacle(&mut scene, &mut out, "box", [0.02, 0.02, 0.02], iso(-0.5, 0.5, 0.5));
    device(
        &mut scene,
        "conv",
        DeviceKind::Conveyor {
            zone: iso(-0.2, 0.5, 0.5),
            size: v3(1.2, 0.3, 0.3),
            velocity: v3(0.25, 0.0, 0.0),
            running: false,
        },
    );
    scene.sensors.push(Sensor {
        name: "beam".to_string(),
        mount: None,
        kind: SensorKind::Beam {
            from: v3(0.0, 0.3, 0.5),
            to: v3(0.0, 0.7, 0.5),
            radius: pc(0.005),
        },
        watch: SensorWatch::AllObjects,
    });
    sequence(
        &mut scene,
        "feed",
        vec![
            step("feed", vec![command("conv", DeviceCommand::Start)], signal("beam", true)),
            step("stop", vec![command("conv", DeviceCommand::Stop)], elapsed(0.1)),
        ],
    );
    let options = RolloutOptions::default();
    let tl = out.simulate(&scene, &["feed"], options).unwrap();

    // Contact when the box face (half 0.02) meets the beam surface (radius
    // 0.005): origin at -0.025, i.e. 0.475 m / 0.25 m/s = 1.9 s.
    let feed_end = tl.step_spans[0].end;
    assert!((fl(feed_end) - 1.9).abs() <= fl(options.dt) + 1e-9, "feed_end = {feed_end}");
    // Lanes: the beam input edge and the conveyor output edges line up.
    let beam = lane(&tl, "beam");
    assert_eq!(beam.edges.len(), 2);
    assert!(beam.edges[1].0 == feed_end && beam.edges[1].1);
    let conv = lane(&tl, "conv");
    assert!(conv.value_at(pc(1.0)));
    assert!(!conv.value_at(tl.duration));
    // The box rode a linear span then settled; total travel matches.
    let track = &tl.objects[0];
    assert!(matches!(track.spans[0], TrackSpan::Linear { .. }));
    assert!(matches!(track.spans.last(), Some(TrackSpan::Hold { .. })));
    let travelled = place(track, tl.duration)[0] - (-0.5);
    assert!((travelled - 0.25 * fl(feed_end)).abs() < 1e-9, "travelled = {travelled}");
    // The live scene's box stays where it was authored.
    assert!((fl(scene.obstacles[0].pose.at.x) - (-0.5)).abs() < 1e-12);
}

/// A linear axis positions its payload exactly and reports in-position.
#[test]
fn linear_axis_moves_exactly_and_reports_done() {
    let mut scene = sample_scene();
    let mut out = outside();
    obstacle(&mut scene, &mut out, "door", [0.05, 0.05, 0.05], iso(0.6, 0.0, 0.2));
    device(
        &mut scene,
        "lift",
        DeviceKind::LinearAxis {
            objects: vec!["door".to_string()],
            axis: v3(0.0, 0.0, 1.0),
            speed: pc(0.5),
            position: 0,
        },
    );
    sequence(
        &mut scene,
        "open",
        vec![
            step(
                "raise",
                vec![command("lift", DeviceCommand::MoveTo(pc(0.3)))],
                Condition::DeviceDone { device: "lift".to_string() },
            ),
            step("hold", vec![], elapsed(0.1)),
        ],
    );
    let options = RolloutOptions::default();
    let tl = out.simulate(&scene, &["open"], options).unwrap();

    // 0.3 m at 0.5 m/s = 0.6 s (+ scan quantization).
    let raise_end = fl(tl.step_spans[0].end);
    assert!((raise_end - 0.6).abs() <= fl(options.dt) + 1e-9, "{raise_end}");
    // The door lands exactly 0.3 above its rest height.
    let track = &tl.objects[0];
    assert_eq!(pc(place(track, tl.duration)[2]), pc(0.5));
    // Mid-travel sampling is linear (exact at 0.3 s: half way).
    let mid = place(track, pc(0.3))[2];
    assert!((mid - 0.35).abs() < 1e-9, "{mid}");
    // The moving lane pulses during travel only.
    let moving = lane(&tl, "lift");
    assert!(moving.value_at(pc(0.3)) && !moving.value_at(tl.duration));
}

/// A zone sensor that watches the robot fires on what is in it.
#[test]
fn robot_watch_zone_fires_on_intrusion() {
    let mut scene = sample_scene();
    let out = Outside { links: cubes, ..outside() };
    scene.sensors.push(Sensor {
        name: "curtain".to_string(),
        mount: None,
        kind: SensorKind::Zone { pose: iso(0.0, 0.0, 0.5), size: v3(0.4, 0.4, 0.4) },
        watch: SensorWatch::Robot,
    });
    sequence(
        &mut scene,
        "s",
        vec![step("wait for the arm", vec![], signal("curtain", true))],
    );
    // The arm is already inside the curtain at rest: fires at t = 0.
    let tl = out.simulate(&scene, &["s"], RolloutOptions::default()).unwrap();
    assert_eq!(tl.duration, 0);
    assert!(lane(&tl, "curtain").value_at(0));
}

/// A slider: a rod that a prismatic joint pushes out along y, at z = 0.3.
fn slider_fk(_: &str, q: &[f64], base: Frame) -> Vec<Frame> {
    vec![base, compose(base, Frame { t: [0.0, q[0], 0.3], yaw: 0.0 })]
}

fn rods(_: &str, link: usize) -> Option<([f64; 3], [f64; 3])> {
    if link == 1 {
        Some(([0.0, 0.25, 0.0], [0.04, 0.25, 0.04]))
    } else {
        None
    }
}

fn slider(name: &str, base: Pose) -> Robot {
    Robot {
        name: name.to_string(),
        links: vec!["base".to_string(), "rod".to_string()],
        joints: vec![Joint { name: "s".to_string(), q_index: Some(0) }],
        actuated: vec![0],
        tool_mount_link: 1,
        q: vec![0],
        base,
        mount: None,
    }
}

/// Two sliders that face each other across a shared middle band, with a zone
/// over the band that watches only the first. Fully extended rods overlap; one
/// at a time clears.
fn dual_cell() -> (Scene, Outside) {
    let mut scene = empty_scene();
    let mut out = Outside { shapes: vec![], goals: vec![], fk: slider_fk, links: rods, body: upright };
    scene.robots.push(slider("a", iso(0.0, -0.75, 0.0)));
    scene.robots.push(slider("b", turned_iso(0.0, 0.75, 0.0, std::f64::consts::PI)));
    for (robot, name, goal) in
        [(0, "a_in", 0.45), (0, "a_out", 0.0), (1, "b_in", 0.45), (1, "b_out", 0.0)]
    {
        scene.motions.push(Motion { name: name.to_string(), robot });
        out.goals.push((name.to_string(), vec![goal]));
    }
    scene.sensors.push(Sensor {
        name: "zone".to_string(),
        mount: None,
        kind: SensorKind::Zone { pose: iso(0.0, 0.0, 0.3), size: v3(0.4, 0.4, 0.4) },
        watch: SensorWatch::Robots(vec!["a".to_string()]),
    });
    (scene, out)
}

/// With the interlock in place: one works the shared band first, the other
/// waits for the zone to clear, and both retreats run concurrently.
/// A slider that trims 6 cm, parked elsewhere.
fn trim_scene(sprays: bool) -> (Scene, Outside) {
    let mut scene = empty_scene();
    scene.robots.push(slider("r", iso(0.0, 0.0, 0.0)));
    scene.robots[0].q = vec![pc(0.2)];
    let mut out = Outside { shapes: vec![], goals: vec![], fk: slider_fk, links: no_links, body: upright };
    out.goals.push(("trim".to_string(), vec![0.47, 0.53]));
    scene.toolpaths.push(Toolpath {
        name: "trim".to_string(),
        moves: vec![
            ToolMove { sprays: false, brush: None },
            ToolMove { sprays, brush: Some("fan".to_string()) },
        ],
    });
    sequence(
        &mut scene,
        "cycle",
        vec![step(
            "cut",
            vec![Action::StartToolpath { robot: None, toolpath: "trim".to_string() }],
            Condition::Done,
        )],
    );
    (scene, out)
}

#[test]
fn start_toolpath_approaches_then_holds_the_feed() {
    let (scene, out) = trim_scene(false);
    let tl = out.simulate(&scene, &["cycle"], RolloutOptions::default()).unwrap();
    // 6 cm at 20 mm/s: the cut alone takes 3 s.
    assert!(tl.duration > pc(3.0), "cut alone is 3 s, got {}", fl(tl.duration));

    // The bake starts at the park pose: no teleport.
    assert!((sample(&tl, 0)[0] - 0.2).abs() < EPS);
    // The tail of the cycle holds the commanded feed.
    let t1 = tl.duration - pc(1.5);
    let tcp = |t: i64| {
        let q = sample(&tl, t);
        slider_fk("r", &q, Frame { t: [0.0; 3], yaw: 0.0 })[1].t[1]
    };
    let speed = (tcp(t1 + pc(0.5)) - tcp(t1)) / 0.5;
    assert!((speed - 0.02).abs() < 0.004, "mid-cut speed {speed}, commanded 0.02");

    // The planned record carries the approach and the segments of the feed.
    let planned = &tl.robots[0].planned[0];
    assert_eq!(planned.motion.as_deref(), Some("trim"));
    assert_eq!(planned.segments[0].kind, SegmentKind::Joint);
    assert!(planned
        .segments
        .iter()
        .any(|s| s.kind == SegmentKind::CartesianLine && s.tcp_speed == Some(pc(0.02))));

    // Deterministic, like every bake.
    let again = out.simulate(&scene, &["cycle"], RolloutOptions::default()).unwrap();
    let points = |tl: &SequenceTimeline| -> Vec<(i64, Vec<i64>)> {
        tl.robots[0].trajectory.waypoints.iter().map(|w| (w.t, w.q.clone())).collect()
    };
    assert_eq!(points(&tl), points(&again));
}

#[test]
fn strokes_are_recorded_where_the_process_is_on() {
    let (scene, out) = trim_scene(true);
    let tl = out.simulate(&scene, &["cycle"], RolloutOptions::default()).unwrap();
    let spans = tl.process_spans(0).unwrap();
    assert_eq!(spans.len(), 1);
    // The approach is 0.27 at one unit a second and a half, the stroke 3 s.
    assert_eq!((spans[0].start, spans[0].end), (pc(0.405), pc(3.405)));
    assert_eq!(spans[0].brush.as_deref(), Some("fan"));
    let (dry, out) = trim_scene(false);
    let tl = out.simulate(&dry, &["cycle"], RolloutOptions::default()).unwrap();
    assert!(tl.process_spans(0).unwrap().is_empty());
}

#[test]
fn a_toolpath_that_cannot_be_planned_is_named() {
    let (scene, mut out) = trim_scene(false);
    out.goals.clear();
    match out.simulate(&scene, &["cycle"], RolloutOptions::default()) {
        Err(e) => assert_eq!(
            e.text(),
            "step 0 (`cut`): planning failed: toolpath `trim` is out of reach",
        ),
        Ok(_) => panic!("planned"),
    }
}

#[test]
fn zone_interlock_serializes_the_shared_band() {
    let (mut scene, out) = dual_cell();
    sequence(
        &mut scene,
        "cell",
        vec![
            step("A enter", vec![motion("a_in")], Condition::Done),
            // Async: A retreats while B already waits on the interlock.
            step("A retreat", vec![motion("a_out")], Condition::Immediately),
            step("B interlock", vec![], signal("zone", false)),
            step("B enter", vec![motion("b_in")], Condition::Done),
            step("B retreat", vec![motion("b_out")], Condition::Immediately),
            step(
                "cycle end",
                vec![],
                Condition::All(vec![
                    Condition::RobotDone { robot: "a".to_string() },
                    Condition::RobotDone { robot: "b".to_string() },
                ]),
            ),
        ],
    );
    let tl = out.simulate(&scene, &["cell"], RolloutOptions::default()).unwrap();

    assert_eq!(tl.robots.len(), 2);
    assert_eq!(tl.robots[0].name, "a");
    assert_eq!(tl.robots[1].name, "b");
    // Both arms actually ran their strokes.
    let a_moves = &tl.robots[0].moves;
    let b_moves = &tl.robots[1].moves;
    assert_eq!(a_moves.iter().map(|m| m.name.as_str()).collect::<Vec<_>>(), ["a_in", "a_out"]);
    assert_eq!(b_moves.iter().map(|m| m.name.as_str()).collect::<Vec<_>>(), ["b_in", "b_out"]);
    // B enters while A is still retreating: the interlock released on zone
    // exit, not on A's completion...
    assert!(
        fl(b_moves[0].start) < fl(a_moves[1].end) - 1e-9,
        "B started at {} but A finished retreating at {}",
        b_moves[0].start,
        a_moves[1].end
    );
    // ...but never before A cleared the shared band.
    let cleared =
        lane(&tl, "zone").edges.iter().rev().find(|(_, v)| !*v).map(|(t, _)| *t).unwrap();
    assert!(b_moves[0].start >= cleared);
    // The cycle ends when both robots are idle.
    let last_end = a_moves[1].end.max(b_moves[1].end);
    assert!(fl(tl.duration - last_end).abs() <= 0.011, "{}", tl.duration);

    // Deterministic: an identical run bakes identical tracks.
    let again = out.simulate(&scene, &["cell"], RolloutOptions::default()).unwrap();
    assert_eq!(tl.duration, again.duration);
    for (x, y) in tl.robots.iter().zip(&again.robots) {
        for (p, q) in x.trajectory.waypoints.iter().zip(&y.trajectory.waypoints) {
            assert_eq!((p.t, &p.q), (q.t, &q.q));
        }
        assert_eq!(x.trajectory.waypoints.len(), y.trajectory.waypoints.len());
    }
}

/// Without the interlock both rods sweep into the band mid-flight, and the
/// check of each scan reports the collision with its time.
#[test]
fn dropping_the_interlock_reports_a_robot_collision() {
    let (mut scene, out) = dual_cell();
    sequence(
        &mut scene,
        "clash",
        vec![step("both enter", vec![motion("a_in"), motion("b_in")], Condition::Done)],
    );
    let err = out.simulate(&scene, &["clash"], RolloutOptions::default()).unwrap_err();
    let SeqError::RobotCollision { t, a, b, link_a, .. } = &err else {
        panic!("expected RobotCollision, got {}", err.text());
    };
    assert_eq!((a.as_str(), b.as_str()), ("a", "b"));
    assert!(fl(*t) > 0.1 && fl(*t) < 1.0, "t = {t}");
    assert!(link_a.contains("rod"));
    assert!(err.text().contains("interlock"), "{}", err.text());
}

/// A handover writes as detach then attach: the object's track follows one
/// robot, holds, then follows the other.
#[test]
fn handover_switches_the_carrier() {
    let (mut scene, mut out) = dual_cell();
    obstacle(&mut scene, &mut out, "box", [0.02, 0.02, 0.02], iso(0.0, 0.0, 0.3));
    let grasp = |robot: &str| Action::Attach {
        robot: Some(robot.to_string()),
        object: "box".to_string(),
        link: None,
        touch_links: None,
    };
    sequence(
        &mut scene,
        "pass",
        vec![
            step("A grasp", vec![grasp("a")], elapsed(0.2)),
            step(
                "A place",
                vec![Action::Detach { object: "box".to_string() }],
                elapsed(0.2),
            ),
            step("B grasp", vec![grasp("b")], elapsed(0.2)),
        ],
    );
    let tl = out.simulate(&scene, &["pass"], RolloutOptions::default()).unwrap();
    let track = &tl.objects[0];
    let carriers: Vec<Option<usize>> = track
        .spans
        .iter()
        .map(|s| match s {
            TrackSpan::Follow { robot, .. } => Some(*robot),
            _ => None,
        })
        .collect();
    assert_eq!(carriers, [Some(0), None, Some(1)], "{track:?}");
    // The live scene is untouched.
    assert!(scene.attachments.is_empty());
}

/// A gantry of three axes: enough freedom to hold a pose while a part slides
/// by.
fn gantry_fk(_: &str, q: &[f64], base: Frame) -> Vec<Frame> {
    let at = |x: f64, y: f64, z: f64| compose(base, Frame { t: [x, y, z], yaw: 0.0 });
    vec![base, at(q[0], 0.0, 0.0), at(q[0], q[1], 0.0), at(q[0], q[1], q[2])]
}

/// A belt at 0.2 m/s with the part starting under the taught pose.
fn tracking_cell() -> (Scene, Outside) {
    let mut scene = empty_scene();
    let mut out = Outside { shapes: vec![], goals: vec![], fk: gantry_fk, links: no_links, body: upright };
    scene.robots.push(Robot {
        name: "gantry".to_string(),
        links: names(&["base", "bridge", "carriage", "tool"]),
        joints: ["jx", "jy", "jz"]
            .iter()
            .enumerate()
            .map(|(i, n)| Joint { name: n.to_string(), q_index: Some(i) })
            .collect(),
        actuated: vec![0, 1, 2],
        tool_mount_link: 3,
        q: vec![0, 0, pc(0.4)],
        base: iso(0.0, 0.0, 0.0),
        mount: None,
    });
    obstacle(&mut scene, &mut out, "part", [0.025, 0.025, 0.025], iso(0.0, 0.0, 0.0));
    device(
        &mut scene,
        "belt",
        DeviceKind::Conveyor {
            zone: iso(0.5, 0.0, 0.0),
            size: v3(3.0, 0.4, 0.4),
            velocity: v3(0.2, 0.0, 0.0),
            running: true,
        },
    );
    (scene, out)
}

fn tool(tl: &SequenceTimeline, t: i64) -> [f64; 3] {
    gantry_fk("gantry", &sample(tl, t), Frame { t: [0.0; 3], yaw: 0.0 })[3].t
}

fn latch() -> Action {
    Action::Track {
        robot: None,
        object: "part".to_string(),
        link: Some("tool".to_string()),
    }
}

fn ramp(joint: &str, to: f64, seconds: f64) -> Action {
    Action::StartRamp {
        robot: None,
        targets: vec![(joint.to_string(), pc(to))],
        duration: pc(seconds),
    }
}

/// The taught descent is carried by the belt: the tool meets the part where
/// the part is, not where it was taught.
#[test]
fn tracked_ramp_follows_the_moving_part() {
    let (mut scene, out) = tracking_cell();
    sequence(
        &mut scene,
        "pick",
        vec![
            step("latch", vec![latch()], Condition::Immediately),
            // Taught: straight down onto the part at x = 0.
            step("descend", vec![ramp("jz", 0.05, 0.5)], Condition::Done),
        ],
    );
    let tl = out.simulate(&scene, &["pick"], RolloutOptions::default()).unwrap();
    assert!((fl(tl.duration) - 0.5).abs() < 1e-9, "{}", tl.duration);

    // The part has travelled 0.2 * 0.5 = 0.1 m; so has the tool, which also
    // completed the taught 0.35 m descent.
    let end = tool(&tl, tl.duration);
    assert!((end[0] - 0.1).abs() < 1e-4, "{}", end[0]);
    assert!((end[2] - 0.05).abs() < 1e-4, "{}", end[2]);
    // Mid-ramp the tool sits over the part throughout, not behind it.
    for i in 0..=10 {
        let t = tl.duration * i / 10;
        let x = tool(&tl, t)[0];
        assert!((x - 0.2 * fl(t)).abs() < 1e-3, "t={t}: tool x {x} vs part {}", 0.2 * fl(t));
    }
}

/// Grasping the part that is followed freezes the offset, so the lift after it
/// is straight up: the part is not dragged back to the taught station.
#[test]
fn grasp_freezes_the_offset_and_the_lift_stays_put() {
    let (mut scene, out) = tracking_cell();
    sequence(
        &mut scene,
        "pick",
        vec![
            step("latch", vec![latch()], Condition::Immediately),
            step("descend", vec![ramp("jz", 0.05, 0.5)], Condition::Done),
            step(
                "grasp",
                vec![Action::Attach {
                    robot: None,
                    object: "part".to_string(),
                    link: Some("tool".to_string()),
                    touch_links: Some(names(&["tool"])),
                }],
                Condition::Immediately,
            ),
            step("lift", vec![ramp("jz", 0.4, 0.5)], Condition::Done),
            step("release", vec![Action::Untrack { robot: None }], Condition::Immediately),
        ],
    );
    let tl = out.simulate(&scene, &["pick"], RolloutOptions::default()).unwrap();
    let track = object(&tl, "part");
    let part = |t: i64| match SequenceTimeline::object_pose(track, t) {
        Some(Placement::At(p)) => triple(p.at),
        Some(Placement::OnLink { link: 3, offset, .. }) => {
            let (a, b) = (tool(&tl, t), triple(offset.at));
            [a[0] + b[0], a[1] + b[1], a[2] + b[2]]
        }
        other => panic!("{other:?}"),
    };
    let at_grasp = part(pc(0.5));
    let at_end = part(tl.duration);
    // Lifted straight up from where it was caught.
    assert!((at_end[0] - at_grasp[0]).abs() < 1e-6);
    assert!((at_end[2] - at_grasp[2] - 0.35).abs() < 1e-4);
    // ... and it is still in the gripper.
    assert!((tool(&tl, tl.duration)[0] - at_end[0]).abs() < 1e-5);
}

/// Releasing a track never moves the robot: what comes after starts from
/// wherever the part left the arm.
#[test]
fn untrack_holds_the_pose_it_reached() {
    let (mut scene, out) = tracking_cell();
    sequence(
        &mut scene,
        "pick",
        vec![
            step("latch", vec![latch()], Condition::Immediately),
            step("follow", vec![], elapsed(0.5)),
            step("release", vec![Action::Untrack { robot: None }], Condition::Immediately),
            step("settle", vec![], elapsed(0.2)),
        ],
    );
    let tl = out.simulate(&scene, &["pick"], RolloutOptions::default()).unwrap();
    let at_release = tool(&tl, pc(0.5));
    let at_end = tool(&tl, tl.duration);
    assert!((at_release[0] - 0.1).abs() < 1e-4);
    assert!(near(at_end, at_release), "the robot moved after the release");
}

/// An L: 2 m along +x, then 1 m along +y. 0.5 m/s cruise, 90 degrees a second
/// pivot: it takes 4 + 1 + 2 = 7 s.
fn agv(scene: &mut Scene, body: &[&str], drive: Drive) {
    device(
        scene,
        "agv",
        DeviceKind::Vehicle {
            path: path(
                &[[0.0, 0.0, 0.0], [2.0, 0.0, 0.0], [2.0, 1.0, 0.0]],
                &[("a", 0), ("c", 2)],
                false,
            ),
            body: names(body),
            speed: pc(0.5),
            turn_speed: pc(std::f64::consts::FRAC_PI_2),
            start: "a".to_string(),
            drive,
            tray: None,
        },
    );
}

const WHEELS: Drive = Drive::Differential { allow_reverse: false };
const QUARTER: f64 = std::f64::consts::FRAC_PI_2;

fn chassis_scene() -> (Scene, Outside) {
    let mut scene = sample_scene();
    let mut out = outside();
    obstacle(&mut scene, &mut out, "chassis", [0.1, 0.1, 0.1], iso(0.3, 0.2, 0.1));
    agv(&mut scene, &["chassis"], WHEELS);
    (scene, out)
}

#[test]
fn vehicle_arrives_at_the_analytic_time_with_the_body_carried() {
    let (mut scene, out) = chassis_scene();
    sequence(
        &mut scene,
        "out",
        vec![
            step("go", vec![goto("agv", "c")], arrived("agv")),
            step("dwell", vec![], elapsed(0.2)),
        ],
    );
    let tl = out.simulate(&scene, &["out"], RolloutOptions::default()).unwrap();

    // 2 m at 0.5 + 90 degrees + 1 m at 0.5, plus the dwell.
    assert!((fl(tl.duration) - 7.2).abs() < 0.021, "duration = {}", tl.duration);
    let arrival = fl(tl.step_spans[0].end);
    assert!((arrival - 7.0).abs() < 0.011, "arrival = {arrival}");

    // The moving lane goes on at dispatch, off at arrival.
    let moving = lane(&tl, "agv");
    assert_eq!(moving.edges.len(), 3, "{:?}", moving.edges);
    assert_eq!(moving.edges[1], (0, true));
    assert!(!moving.edges[2].1 && (fl(moving.edges[2].0) - 7.0).abs() < 0.011);

    // Net rigid motion: +2 x, pivot by a quarter about (2, 0), +1 y.
    let track = object(&tl, "chassis");
    let end = stance(&track.spans, tl.duration);
    assert!(near(end.t, [1.8, 1.3, 0.1]), "end = {end:?}");
    assert!(faces(end, QUARTER));
    // After arrival the body settles into a hold at the parked pose.
    assert!(matches!(track.spans.last(), Some(TrackSpan::Hold { .. })));
}

#[test]
fn vehicle_spans_bake_one_span_per_leg_and_resample_exactly() {
    let (mut scene, out) = chassis_scene();
    sequence(&mut scene, "out", vec![step("go", vec![goto("agv", "c")], arrived("agv"))]);
    let tl = out.simulate(&scene, &["out"], RolloutOptions::default()).unwrap();
    let track = object(&tl, "chassis");

    // Whole legs merge: straight, pivot, straight; three spans, not 700.
    assert_eq!(track.spans.len(), 3, "{:?}", track.spans);
    assert!(matches!(track.spans[0], TrackSpan::Linear { .. }));
    assert!(matches!(track.spans[1], TrackSpan::Pivot { .. }));
    assert!(matches!(track.spans[2], TrackSpan::Linear { .. }));

    // Mid-straight: 1 s at 0.5 m/s along +x.
    assert!(near(place(track, pc(1.0)), [0.8, 0.2, 0.1]));
    // Mid-turn (t = 4.5: an eighth about (2, 0)): closed form.
    let mid = stance(&track.spans, pc(4.5));
    let phi = QUARTER * 0.5;
    let expected = [
        2.0 + 0.3 * phi.cos() - 0.2 * phi.sin(),
        0.3 * phi.sin() + 0.2 * phi.cos(),
        0.1,
    ];
    assert!(near(mid.t, expected), "mid = {mid:?}, expected = {expected:?}");
    assert!(faces(mid, phi));
}

/// A 3 m run rising 0.3 m, at 0.5 m/s.
fn climbing(scene: &mut Scene, waypoints: &[[f64; 3]], drive: Drive) {
    device(
        scene,
        "agv",
        DeviceKind::Vehicle {
            path: path(waypoints, &[("a", 0), ("b", 1)], false),
            body: names(&["chassis"]),
            speed: pc(0.5),
            turn_speed: pc(QUARTER),
            start: "a".to_string(),
            drive,
            tray: None,
        },
    );
    sequence(scene, "up", vec![step("go", vec![goto("agv", "b")], arrived("agv"))]);
}

fn ramp_scene(drive: Drive) -> (Scene, Outside) {
    let mut scene = sample_scene();
    let mut out = outside();
    obstacle(&mut scene, &mut out, "chassis", [0.1, 0.1, 0.1], iso(0.3, 0.2, 0.1));
    climbing(&mut scene, &[[0.0, 0.0, 0.0], [3.0, 0.0, 0.3]], drive);
    (scene, out)
}

#[test]
fn a_graded_leg_climbs_at_the_analytic_rate() {
    let (scene, out) = ramp_scene(WHEELS);
    let tl = out.simulate(&scene, &["up"], RolloutOptions::default()).unwrap();
    // Cruise speed is spent along the path, so the climb takes a hair longer
    // than its plan view.
    let length = (3.0f64.powi(2) + 0.3f64.powi(2)).sqrt();
    assert!((fl(tl.duration) - length / 0.5).abs() < 0.011, "duration = {}", tl.duration);
    let track = object(&tl, "chassis");
    let end = place(track, tl.duration);
    assert!(near(end, [3.3, 0.2, 0.4]), "end = {end:?}");
    // Halfway through the drive, halfway up.
    let mid = place(track, pc(length / 0.5 / 2.0));
    assert!(near(mid, [1.8, 0.2, 0.25]), "mid = {mid:?}");
}

#[test]
fn the_vehicle_frame_is_its_own_track() {
    // On the slope: the frame climbs to the top and never turns.
    let (scene, out) = ramp_scene(WHEELS);
    let tl = out.simulate(&scene, &["up"], RolloutOptions::default()).unwrap();
    let end = stance(&vehicle(&tl, "agv").spans, tl.duration);
    assert!(near(end.t, [3.0, 0.0, 0.3]), "end = {end:?}");
    assert!(faces(end, 0.0));

    // On the L: the frame arrives at the far station turned with the machine.
    let (mut scene, out) = chassis_scene();
    sequence(&mut scene, "out", vec![step("go", vec![goto("agv", "c")], arrived("agv"))]);
    let tl = out.simulate(&scene, &["out"], RolloutOptions::default()).unwrap();
    let track = vehicle(&tl, "agv");
    // One span per leg, then the arrival hold at the parked frame.
    assert_eq!(track.spans.len(), 4, "{:?}", track.spans);
    assert!(matches!(track.spans.last(), Some(TrackSpan::Hold { .. })));
    let end = stance(&track.spans, tl.duration);
    assert!(near(end.t, [2.0, 1.0, 0.0]), "end = {end:?}");
    assert!(faces(end, QUARTER));
}

#[test]
fn a_wheeled_vehicle_still_hits_a_tread() {
    // What can be walked on only excuses the machine that walks on it.
    let (mut scene, mut out) = ramp_scene(WHEELS);
    obstacle(&mut scene, &mut out, "tread", [0.15, 0.5, 0.05], iso(1.5, 0.2, 0.1));
    scene.obstacles[1].walkable = true;
    let err = out.simulate(&scene, &["up"], RolloutOptions::default()).unwrap_err();
    assert!(matches!(err, SeqError::VehicleCollision { .. }), "{}", err.text());
}

#[test]
fn a_drive_through_a_parked_robot_is_named() {
    let mut scene = sample_scene();
    let mut out = Outside { links: cubes, ..outside() };
    obstacle(&mut scene, &mut out, "chassis", [0.1, 0.1, 0.1], iso(-0.7, 0.0, 0.1));
    climbing(&mut scene, &[[-1.0, 0.0, 0.0], [1.0, 0.0, 0.0]], WHEELS);
    let err = out.simulate(&scene, &["up"], RolloutOptions::default()).unwrap_err();
    assert!(
        matches!(&err, SeqError::VehicleRobotCollision { body, .. } if body == "chassis"),
        "{}",
        err.text()
    );
    assert!(err.text().contains("hits robot"), "{}", err.text());
}

/// A shaft next to a path of two floors: lobby to car, a lift edge up to the
/// car above, then a dock. The robot rides the vehicle; the tote rides its
/// deck; `loose` sits on the car floor; `bystander` watches from outside.
fn lift_scene(body: &[&str], stops: &[(&str, f64)]) -> (Scene, Outside) {
    let mut scene = sample_scene();
    let mut out = outside();
    obstacle(&mut scene, &mut out, "chassis", [0.25, 0.2, 0.1], iso(0.0, 0.0, 0.15));
    obstacle(&mut scene, &mut out, "tote", [0.1, 0.1, 0.05], iso(0.0, 0.0, 0.35));
    obstacle(&mut scene, &mut out, "loose", [0.075, 0.075, 0.075], iso(1.8, 0.3, 0.075));
    obstacle(&mut scene, &mut out, "bystander", [0.05, 0.05, 0.05], iso(0.0, 1.5, 0.05));
    device(
        &mut scene,
        "agv",
        DeviceKind::Vehicle {
            path: path(
                &[[0.0, 0.0, 0.0], [1.5, 0.0, 0.0], [1.5, 0.0, 2.0], [2.3, 0.0, 2.0]],
                &[("lobby", 0), ("car", 1), ("dock", 3)],
                false,
            ),
            body: names(body),
            speed: pc(0.5),
            turn_speed: pc(QUARTER),
            start: "lobby".to_string(),
            drive: WHEELS,
            tray: Some((iso(0.0, 0.0, 0.35), v3(0.5, 0.4, 0.2))),
        },
    );
    device(
        &mut scene,
        "lift",
        DeviceKind::Lift {
            car: vec![],
            zone: iso(1.5, 0.0, 1.0),
            size: v3(1.2, 1.2, 2.2),
            axis: v3(0.0, 0.0, 1.0),
            speed: pc(0.6),
            stops: stops.iter().map(|(n, z)| (n.to_string(), pc(*z))).collect(),
            start: "a".to_string(),
        },
    );
    scene.robots[0].base = iso(0.1, 0.0, 0.3);
    scene.robots[0].mount = Some(Mount {
        device: "agv".to_string(),
        offset: iso(0.1, 0.0, 0.3),
        gait: None,
        spin: vec![],
    });
    (scene, out)
}

fn to_stop(stop: &str) -> Action {
    command("lift", DeviceCommand::MoveToStop(stop.to_string()))
}

const FLOORS: [(&str, f64); 2] = [("a", 0.0), ("b", 2.0)];

#[test]
fn a_lift_carries_the_vehicle_whole() {
    let (mut scene, out) = lift_scene(&["chassis"], &FLOORS);
    sequence(
        &mut scene,
        "up",
        vec![
            step("board", vec![goto("agv", "car")], arrived("agv")),
            step("ride", vec![to_stop("b")], arrived("lift")),
            step("alight", vec![goto("agv", "dock")], arrived("agv")),
        ],
    );
    let tl = out.simulate(&scene, &["up"], RolloutOptions::default()).unwrap();
    // 1.5 m at 0.5 + 2.0 m at 0.6 + 0.8 m at 0.5 (no turns).
    assert!(
        (fl(tl.duration) - (3.0 + 2.0 / 0.6 + 1.6)).abs() < 0.05,
        "duration = {}",
        tl.duration
    );
    let end_of = |name: &str| place(object(&tl, name), tl.duration);
    // The chassis, the deck load and the part on the car floor all rode; the
    // bystander did not.
    assert!(near(end_of("chassis"), [2.3, 0.0, 2.15]), "{:?}", end_of("chassis"));
    assert!(near(end_of("tote"), [2.3, 0.0, 2.35]));
    assert!(near(end_of("loose"), [1.8, 0.3, 2.075]));
    assert!(tl.objects.iter().all(|o| o.name != "bystander"));
    // The mounted robot's base rode the same rigid motion.
    let base = base_frame(&tl.robots[0], tl.duration);
    assert!(near(base.t, [2.4, 0.0, 2.3]), "base = {base:?}");
    // And the vehicle's own frame track ends at the dock.
    let end = stance(&vehicle(&tl, "agv").spans, tl.duration);
    assert!(near(end.t, [2.3, 0.0, 2.0]));
    // The lift's lane went on at dispatch, off at arrival.
    assert_eq!(lane(&tl, "lift").edges.len(), 3, "{:?}", lane(&tl, "lift").edges);
}

#[test]
fn boarding_half_out_is_refused_by_name() {
    let (mut scene, mut out) = lift_scene(&["chassis", "mast"], &FLOORS);
    // A mast bolted to the chassis but standing outside the zone.
    obstacle(&mut scene, &mut out, "mast", [0.025, 0.025, 0.3], iso(0.8, 0.0, 0.3));
    sequence(
        &mut scene,
        "up",
        vec![
            step("board", vec![goto("agv", "car")], arrived("agv")),
            step("ride", vec![to_stop("b")], arrived("lift")),
        ],
    );
    let err = out.simulate(&scene, &["up"], RolloutOptions::default()).unwrap_err().text();
    assert!(err.contains("half out") && err.contains("mast"), "{err}");
}

#[test]
fn a_goto_across_the_lift_edge_is_refused() {
    let (mut scene, out) = lift_scene(&["chassis"], &FLOORS);
    sequence(&mut scene, "jump", vec![step("go", vec![goto("agv", "dock")], arrived("agv"))]);
    let err = out.simulate(&scene, &["jump"], RolloutOptions::default()).unwrap_err().text();
    assert!(err.contains("across the lift edge"), "{err}");
}

#[test]
fn riding_and_travelling_guard_each_other() {
    // The lift must not move while its passenger still drives...
    let (mut scene, out) = lift_scene(&["chassis"], &FLOORS);
    sequence(
        &mut scene,
        "early",
        vec![
            // Inside the zone but still driving.
            step("board", vec![goto("agv", "car")], elapsed(2.5)),
            step("ride", vec![to_stop("b")], arrived("lift")),
        ],
    );
    let err = out.simulate(&scene, &["early"], RolloutOptions::default()).unwrap_err().text();
    assert!(err.contains("still travelling"), "{err}");

    // ...and the passenger must not drive while the lift still moves.
    let (mut scene, out) = lift_scene(&["chassis"], &FLOORS);
    sequence(
        &mut scene,
        "eager",
        vec![
            step("board", vec![goto("agv", "car")], arrived("agv")),
            step("ride", vec![to_stop("b")], elapsed(0.5)),
            step("alight", vec![goto("agv", "dock")], arrived("agv")),
        ],
    );
    let err = out.simulate(&scene, &["eager"], RolloutOptions::default()).unwrap_err().text();
    assert!(err.contains("riding lift"), "{err}");
}

#[test]
fn a_stop_between_floors_leaves_the_vehicle_off_its_path() {
    let (mut scene, out) = lift_scene(&["chassis"], &[("a", 0.0), ("b", 2.0), ("mid", 1.0)]);
    sequence(
        &mut scene,
        "half",
        vec![
            step("board", vec![goto("agv", "car")], arrived("agv")),
            step("ride", vec![to_stop("mid")], arrived("lift")),
            step("alight", vec![goto("agv", "dock")], arrived("agv")),
        ],
    );
    let err = out.simulate(&scene, &["half"], RolloutOptions::default()).unwrap_err().text();
    assert!(err.contains("off its path"), "{err}");
}

fn drone(
    scene: &mut Scene,
    waypoints: &[[f64; 3]],
    stations: &[(&str, usize)],
    body: &[&str],
    yaw: AerialYaw,
) {
    device(
        scene,
        "drone",
        DeviceKind::Vehicle {
            path: path(waypoints, stations, false),
            body: names(body),
            speed: pc(0.8),
            turn_speed: pc(QUARTER),
            start: "pad".to_string(),
            drive: Drive::Aerial { climb_speed: pc(0.6), descent_speed: pc(0.9), yaw },
            tray: None,
        },
    );
}

fn drone_scene(
    waypoints: &[[f64; 3]],
    stations: &[(&str, usize)],
    yaw: AerialYaw,
    at: Pose,
) -> (Scene, Outside) {
    let mut scene = sample_scene();
    let mut out = outside();
    obstacle(&mut scene, &mut out, "airframe", [0.18, 0.18, 0.06], at);
    drone(&mut scene, waypoints, stations, &["airframe"], yaw);
    (scene, out)
}

#[test]
fn an_aerial_leg_flies_each_axis_at_its_own_limit() {
    // Up (climb-limited), out (cruise-limited), down-and-out (cruise-limited
    // diagonal).
    let (mut scene, out) = drone_scene(
        &[[0.0, 2.0, 0.0], [0.0, 2.0, 2.4], [3.0, 2.0, 2.4], [6.0, 2.0, 1.2]],
        &[("pad", 0), ("away", 3)],
        AerialYaw::Course,
        iso(0.0, 2.0, 0.06),
    );
    sequence(
        &mut scene,
        "fly",
        vec![step("go", vec![goto("drone", "away")], arrived("drone"))],
    );
    let tl = out.simulate(&scene, &["fly"], RolloutOptions::default()).unwrap();
    // 2.4/0.6 + 3/0.8 + max(3/0.8, 1.2/0.9) = 4.0 + 3.75 + 3.75.
    assert!((fl(tl.duration) - 11.5).abs() < 0.03, "duration = {}", tl.duration);
    let track = object(&tl, "airframe");
    // Mid-climb, and mid-diagonal.
    assert!(near(place(track, pc(2.0)), [0.0, 2.0, 1.26]));
    // 2.0 s into the last leg: x += 1.6, z -= 0.64.
    let mid = place(track, pc(9.75));
    assert!(near(mid, [4.6, 2.0, 1.82]), "mid = {mid:?}");
}

#[test]
fn airborne_counts_flight_and_hover_but_not_the_pad() {
    // Up, hover 1.5 s, down, 2 s on the pad, up again: everything counts
    // except the wait on the pad.
    let (mut scene, out) = drone_scene(
        &[[0.0, 2.0, 0.0], [0.0, 2.0, 2.4]],
        &[("pad", 0), ("up", 1)],
        AerialYaw::Course,
        iso(0.0, 2.0, 0.06),
    );
    sequence(
        &mut scene,
        "fly",
        vec![
            step("t1", vec![goto("drone", "up")], arrived("drone")),
            step("hover", vec![], elapsed(1.5)),
            step("l1", vec![goto("drone", "pad")], arrived("drone")),
            step("recharge", vec![], elapsed(2.0)),
            step("t2", vec![goto("drone", "up")], arrived("drone")),
        ],
    );
    let tl = out.simulate(&scene, &["fly"], RolloutOptions::default()).unwrap();
    let airborne = fl(tl.vehicle_airborne("drone").unwrap());
    let expect = 2.4 / 0.6 + 1.5 + 2.4 / 0.9 + 2.4 / 0.6;
    assert!((airborne - expect).abs() < 0.05, "airborne = {airborne}, expect {expect}");
    assert!((fl(tl.duration) - (expect + 2.0)).abs() < 0.05);
    assert!(tl.vehicle_airborne("nope").is_none());
}

/// A machine with one free-spinning rotor and one fin.
fn rotor_fk(_: &str, _: &[f64], base: Frame) -> Vec<Frame> {
    vec![base, base, base]
}

#[test]
fn a_spinning_mount_turns_in_the_air_and_rests_on_the_pad() {
    // The rotor's total turn is its rate times the airborne seconds: it spins
    // through the climb, the hover and the descent, not across the wait on the
    // pad, and the fin never moves.
    let mut scene = empty_scene();
    let out = Outside { shapes: vec![], goals: vec![], fk: rotor_fk, links: no_links, body: upright };
    scene.robots.push(Robot {
        name: "rotorcraft".to_string(),
        links: names(&["body", "rotor", "fin"]),
        joints: ["rotor_joint", "tilt"]
            .iter()
            .enumerate()
            .map(|(i, n)| Joint { name: n.to_string(), q_index: Some(i) })
            .collect(),
        actuated: vec![0, 1],
        tool_mount_link: 0,
        q: vec![0, 0],
        base: iso(0.0, 2.0, 0.0),
        mount: Some(Mount {
            device: "drone".to_string(),
            offset: iso(0.0, 0.0, 0.0),
            gait: None,
            spin: vec![("rotor_joint".to_string(), pc(40.0))],
        }),
    });
    // The machine is the robot: the vehicle has no body.
    drone(
        &mut scene,
        &[[0.0, 2.0, 0.0], [0.0, 2.0, 1.2]],
        &[("pad", 0), ("up", 1)],
        &[],
        AerialYaw::Course,
    );
    sequence(
        &mut scene,
        "fly",
        vec![
            step("t1", vec![goto("drone", "up")], arrived("drone")),
            step("hover", vec![], elapsed(1.0)),
            step("l1", vec![goto("drone", "pad")], arrived("drone")),
            step("recharge", vec![], elapsed(2.0)),
            step("t2", vec![goto("drone", "up")], arrived("drone")),
        ],
    );
    let tl = out.simulate(&scene, &["fly"], RolloutOptions::default()).unwrap();
    let airborne = fl(tl.vehicle_airborne("drone").unwrap());
    let total = sample(&tl, tl.duration)[0] - sample(&tl, 0)[0];
    assert!(
        (total - 40.0 * airborne).abs() < 1.0,
        "rotor turned {total:.1} rad over {airborne:.2} s airborne"
    );
    // The wait on the pad spans about 4.34 to 6.34: the phase holds across it.
    let parked = sample(&tl, pc(4.6))[0];
    assert!(
        (sample(&tl, pc(6.2))[0] - parked).abs() < 1e-9,
        "the rotor must rest on the pad"
    );
    assert!(parked > 1.0, "it flew first");
    // The fin is never touched.
    assert!(sample(&tl, tl.duration)[1].abs() < 1e-12);
}

#[test]
fn course_yaw_turns_and_fixed_yaw_holds() {
    // Up, out along +x, then out along +y: the course changes mid-flight.
    let way = [[0.0, 2.0, 0.0], [0.0, 2.0, 2.0], [2.0, 2.0, 2.0], [2.0, 5.0, 2.0]];
    let stations = [("pad", 0), ("away", 3)];
    let fly = |yaw: AerialYaw| {
        let (mut scene, out) = drone_scene(&way, &stations, yaw, iso(0.0, 2.0, 0.06));
        sequence(
            &mut scene,
            "fly",
            vec![step("go", vec![goto("drone", "away")], arrived("drone"))],
        );
        out.simulate(&scene, &["fly"], RolloutOptions::default()).unwrap()
    };
    let tl = fly(AerialYaw::Course);
    // 2/0.6 + 2/0.8 + a quarter turn + 3/0.8.
    assert!(
        (fl(tl.duration) - (2.0 / 0.6 + 2.5 + 1.0 + 3.75)).abs() < 0.03,
        "duration = {}",
        tl.duration
    );
    assert!(faces(stance(&vehicle(&tl, "drone").spans, tl.duration), QUARTER));

    // Fixed: one turn to the held yaw, then straights only.
    let tl = fly(AerialYaw::Fixed(pc(0.7)));
    assert!(
        (fl(tl.duration) - (0.7 / QUARTER + 2.0 / 0.6 + 2.5 + 3.75)).abs() < 0.03,
        "duration = {}",
        tl.duration
    );
    for t in [pc(3.0), pc(6.0), tl.duration] {
        assert!(faces(stance(&vehicle(&tl, "drone").spans, t), 0.7), "t = {t}");
    }
}

#[test]
fn a_low_corridor_through_the_arm_is_refused() {
    let (mut scene, out) = drone_scene(
        &[[-1.0, 0.0, 0.1], [1.0, 0.0, 0.1]],
        &[("pad", 0), ("away", 1)],
        AerialYaw::Course,
        iso(-1.0, 0.0, 0.1),
    );
    let out = Outside { links: cubes, ..out };
    sequence(
        &mut scene,
        "fly",
        vec![step("go", vec![goto("drone", "away")], arrived("drone"))],
    );
    let err = out.simulate(&scene, &["fly"], RolloutOptions::default()).unwrap_err();
    assert!(matches!(err, SeqError::VehicleRobotCollision { .. }), "{}", err.text());
}

#[test]
fn a_holonomic_vehicle_docks_without_turning() {
    let mut scene = sample_scene();
    let mut out = outside();
    obstacle(&mut scene, &mut out, "chassis", [0.1, 0.1, 0.1], iso(0.3, 0.2, 0.1));
    agv(&mut scene, &["chassis"], Drive::Holonomic);
    sequence(&mut scene, "out", vec![step("go", vec![goto("agv", "c")], arrived("agv"))]);
    let tl = out.simulate(&scene, &["out"], RolloutOptions::default()).unwrap();
    // The L costs only its length: 3 m at 0.5.
    assert!((fl(tl.duration) - 6.0).abs() < 0.021, "duration = {}", tl.duration);
    // Pure translation: the body ends +2 x, +1 y, unrotated.
    let end = stance(&object(&tl, "chassis").spans, tl.duration);
    assert!(near(end.t, [2.3, 1.2, 0.1]), "end = {end:?}");
    assert!(faces(end, 0.0));
    assert!(faces(stance(&vehicle(&tl, "agv").spans, tl.duration), 0.0));
}

#[test]
fn vehicle_round_trip_composes_to_a_half_turn_about_home() {
    let (mut scene, out) = chassis_scene();
    sequence(
        &mut scene,
        "cycle",
        vec![
            step("out", vec![goto("agv", "c")], arrived("agv")),
            step("back", vec![goto("agv", "a")], arrived("agv")),
        ],
    );
    let tl = out.simulate(&scene, &["cycle"], RolloutOptions::default()).unwrap();
    // Return: about-face (2 s) + 1 m (2 s) + a quarter (1 s) + 2 m (4 s) = 9 s.
    assert!((fl(tl.duration) - 16.0).abs() < 0.031, "duration = {}", tl.duration);
    // The vehicle is back home facing the other way: the cycle's net rigid
    // motion is a half turn about home, and the body carries it exactly.
    let end = stance(&object(&tl, "chassis").spans, tl.duration);
    assert!(near(end.t, [-0.3, -0.2, 0.1]), "end = {end:?}");
    assert!(faces(end, std::f64::consts::PI));
}

#[test]
fn a_vehicle_that_rests_on_its_way_leaves_no_gap_in_its_track() {
    let (mut scene, out) = chassis_scene();
    sequence(
        &mut scene,
        "cycle",
        vec![
            step("wait", vec![], elapsed(0.3)),
            step("out", vec![goto("agv", "c")], arrived("agv")),
            step("rest", vec![], elapsed(0.5)),
            step("back", vec![goto("agv", "a")], arrived("agv")),
            step("park", vec![], elapsed(0.2)),
        ],
    );
    let tl = out.simulate(&scene, &["cycle"], RolloutOptions::default()).unwrap();
    let ranges: Vec<(i64, i64)> = vehicle(&tl, "agv").spans.iter().map(|s| s.range()).collect();
    assert!(ranges.len() > 6, "{ranges:?}");
    assert_eq!(ranges[0].0, 0);
    for pair in ranges.windows(2) {
        assert_eq!(pair[0].1, pair[1].0, "{ranges:?}");
    }
    assert_eq!(ranges[ranges.len() - 1].1, tl.duration);
    // What it carries has a track without gaps too.
    let ranges: Vec<(i64, i64)> = object(&tl, "chassis").spans.iter().map(|s| s.range()).collect();
    assert!(ranges.len() > 6, "{ranges:?}");
    assert_eq!(ranges[0].0, 0);
    for pair in ranges.windows(2) {
        assert_eq!(pair[0].1, pair[1].0, "{ranges:?}");
    }
    assert_eq!(ranges[ranges.len() - 1].1, tl.duration);
}

#[test]
fn a_second_track_of_a_name_has_no_gap_either() {
    let (mut scene, out) = export_cell();
    for offset in [0.0, 0.1] {
        scene.attachments.push(Attachment {
            object: "part".to_string(),
            robot: 0,
            link: 1,
            grasp: iso(offset, 0.0, 0.0),
        });
    }
    sequence(
        &mut scene,
        "cycle",
        vec![
            step("go", vec![motion("go")], Condition::Done),
            step("drop", vec![Action::Detach { object: "part".to_string() }], elapsed(0.3)),
        ],
    );
    let tl = out.simulate(&scene, &["cycle"], RolloutOptions::default()).unwrap();
    let parts: Vec<&ObjectTrack> = tl.objects.iter().filter(|o| o.name == "part").collect();
    assert_eq!(parts.len(), 2);
    // What happens to the part is told by the first.
    assert!(parts[0].spans.len() > 1, "{parts:?}");
    assert_eq!(parts[1].spans.len(), 1, "{parts:?}");
    for part in parts {
        let ranges: Vec<(i64, i64)> = part.spans.iter().map(|s| s.range()).collect();
        assert_eq!(ranges[0].0, 0);
        for pair in ranges.windows(2) {
            assert_eq!(pair[0].1, pair[1].0, "{ranges:?}");
        }
        assert_eq!(ranges[ranges.len() - 1].1, tl.duration);
    }
}

#[test]
fn a_cycle_ends_with_a_step_and_its_lanes_alternate() {
    let (mut scene, out) = chassis_scene();
    define_signal(&mut scene, "lamp", false);
    sequence(
        &mut scene,
        "cycle",
        vec![
            step("on", vec![set("lamp", true)], elapsed(0.2)),
            step("again", vec![set("lamp", true)], elapsed(0.2)),
            step("off", vec![set("lamp", false), goto("agv", "c")], arrived("agv")),
        ],
    );
    let tl = out.simulate(&scene, &["cycle"], RolloutOptions::default()).unwrap();
    assert!(tl.step_spans.iter().any(|s| s.end == tl.duration));
    // A write of the level that is there is no edge.
    assert_eq!(lane(&tl, "lamp").edges.len(), 3);
    for lane in &tl.signals {
        assert_eq!(lane.edges[0].0, 0);
        for pair in lane.edges.windows(2) {
            assert!(pair[0].0 <= pair[1].0 && pair[0].1 != pair[1].1, "{lane:?}");
        }
        assert!(lane.edges[lane.edges.len() - 1].0 <= tl.duration);
    }
}

#[test]
fn vehicle_rollout_is_deterministic() {
    let (mut scene, out) = chassis_scene();
    sequence(&mut scene, "out", vec![step("go", vec![goto("agv", "c")], arrived("agv"))]);
    let a = out.simulate(&scene, &["out"], RolloutOptions::default()).unwrap();
    let b = out.simulate(&scene, &["out"], RolloutOptions::default()).unwrap();
    assert_eq!(a.duration, b.duration);
    assert_eq!(object(&a, "chassis").spans, object(&b, "chassis").spans);
    for k in 0..=72 {
        let t = k * pc(0.1);
        assert_eq!(
            SequenceTimeline::object_pose(object(&a, "chassis"), t),
            SequenceTimeline::object_pose(object(&b, "chassis"), t)
        );
    }
}

#[test]
fn a_travelling_vehicle_reports_the_aisle_collision() {
    let (mut scene, mut out) = chassis_scene();
    obstacle(&mut scene, &mut out, "wall", [0.1, 0.1, 0.1], iso(1.0, 0.2, 0.1));
    sequence(&mut scene, "out", vec![step("go", vec![goto("agv", "c")], arrived("agv"))]);
    match out.simulate(&scene, &["out"], RolloutOptions::default()).unwrap_err() {
        SeqError::VehicleCollision { t, vehicle, body, obstacle } => {
            // Faces touch after 0.5 m of travel at 0.5 m/s.
            assert!((0.99..=1.05).contains(&fl(t)), "t = {t}");
            assert_eq!(vehicle, "agv");
            assert_eq!(body, "chassis");
            assert_eq!(obstacle, "wall");
        }
        other => panic!("expected VehicleCollision, got {}", other.text()),
    }
}

#[test]
fn goto_while_travelling_is_rejected() {
    let (mut scene, out) = chassis_scene();
    sequence(
        &mut scene,
        "out",
        vec![
            step("go", vec![goto("agv", "c")], elapsed(0.5)),
            step("amend", vec![goto("agv", "a")], arrived("agv")),
        ],
    );
    let err = out.simulate(&scene, &["out"], RolloutOptions::default()).unwrap_err().text();
    assert!(err.contains("still travelling"), "unexpected error: {err}");
}

#[test]
fn a_ring_walks_the_shorter_way_around() {
    let mut scene = sample_scene();
    let mut out = outside();
    obstacle(&mut scene, &mut out, "cart", [0.05, 0.05, 0.05], iso(0.0, 0.0, 1.5));
    device(
        &mut scene,
        "agv",
        DeviceKind::Vehicle {
            path: path(
                &[[0.0, 0.0, 0.0], [2.0, 0.0, 0.0], [2.0, 2.0, 0.0], [0.0, 2.0, 0.0]],
                &[("a", 0), ("d", 3)],
                true,
            ),
            body: names(&["cart"]),
            speed: pc(0.5),
            turn_speed: pc(QUARTER),
            start: "a".to_string(),
            drive: WHEELS,
            tray: None,
        },
    );
    sequence(&mut scene, "out", vec![step("go", vec![goto("agv", "d")], arrived("agv"))]);
    let tl = out.simulate(&scene, &["out"], RolloutOptions::default()).unwrap();
    // Backward around the ring: a quarter turn (1 s) and one 2 m side (4 s),
    // not the walk of three sides (6 m).
    assert!((fl(tl.duration) - 5.0).abs() < 0.011, "duration = {}", tl.duration);
}

fn decked(scene: &mut Scene, tray: (Pose, Vec3)) {
    device(
        scene,
        "agv",
        DeviceKind::Vehicle {
            path: path(
                &[[0.0, 0.0, 0.0], [2.0, 0.0, 0.0], [2.0, 1.0, 0.0]],
                &[("a", 0), ("c", 2)],
                false,
            ),
            body: names(&["chassis"]),
            speed: pc(0.5),
            turn_speed: pc(QUARTER),
            start: "a".to_string(),
            drive: WHEELS,
            tray: Some(tray),
        },
    );
    sequence(scene, "haul", vec![step("go", vec![goto("agv", "c")], arrived("agv"))]);
}

#[test]
fn a_cell_with_no_robot_bakes_its_devices() {
    let mut scene = empty_scene();
    let mut out = outside();
    obstacle(&mut scene, &mut out, "chassis", [0.2, 0.15, 0.1], iso(0.0, 0.0, 0.1));
    obstacle(&mut scene, &mut out, "tote", [0.075, 0.075, 0.05], iso(0.0, 0.0, 0.27));
    decked(&mut scene, (iso(0.0, 0.0, 0.25), v3(0.35, 0.3, 0.2)));
    let tl = out.simulate(&scene, &["haul"], RolloutOptions::default()).unwrap();
    assert!(tl.robots.is_empty());
    assert!(tl.duration > 0);
    // The cargo went the whole route and its track says so.
    let end = place(object(&tl, "tote"), tl.duration);
    assert!((end[0] - 2.0).abs() < 1e-3, "{end:?}");
    assert!((end[1] - 1.0).abs() < 1e-3, "{end:?}");
    // The vehicle's frame is a track too.
    assert!(tl.vehicles.iter().any(|v| v.name == "agv"));
}

/// An L with a deck: a 0.4 m box centred over the frame, 0.2 m up. The arm
/// stands clear of the route.
fn deck_scene() -> (Scene, Outside) {
    let mut scene = sample_scene();
    let mut out = Outside { links: cubes, ..outside() };
    obstacle(&mut scene, &mut out, "chassis", [0.2, 0.15, 0.1], iso(0.0, 0.0, 0.1));
    decked(&mut scene, (iso(0.0, 0.0, 0.2), v3(0.4, 0.3, 0.2)));
    scene.robots[0].base = iso(-5.0, -5.0, 0.0);
    (scene, out)
}

#[test]
fn a_part_on_the_deck_rides_the_whole_route() {
    let (mut scene, mut out) = deck_scene();
    // Resting on the deck at the start: inside the tray zone.
    obstacle(&mut scene, &mut out, "carton", [0.05, 0.05, 0.05], iso(0.05, 0.0, 0.25));
    // Standing beside the vehicle, outside the zone: must not move.
    obstacle(&mut scene, &mut out, "bystander", [0.05, 0.05, 0.05], iso(0.0, 0.6, 0.05));
    let tl = out.simulate(&scene, &["haul"], RolloutOptions::default()).unwrap();

    let carton = object(&tl, "carton");
    let end = stance(&carton.spans, tl.duration);
    // Same rigid motion as the body: +2 x, a quarter about (2, 0), +1 y. The
    // load sat 0.05 ahead of the frame, so the turn swings it to +y.
    assert!(near(end.t, [2.0, 1.05, 0.25]), "end = {end:?}");
    assert!(faces(end, QUARTER));
    // It stayed on the deck the whole way: the offset to the body is constant.
    let chassis = object(&tl, "chassis");
    for k in 0..=70 {
        let t = k * pc(0.1);
        let c = stance(&carton.spans, t);
        let b = stance(&chassis.spans, t);
        let offset = compose(inverse(b), c).t;
        assert!(near(offset, [0.05, 0.0, 0.15]), "t = {t}: {offset:?}");
    }
    // Nothing was picked up that was not on the deck.
    assert!(
        tl.objects.iter().all(|o| o.name != "bystander"),
        "the bystander must not move"
    );
}

#[test]
fn a_part_the_deck_drives_under_joins_the_load() {
    let (mut scene, mut out) = deck_scene();
    // Hovering over the second leg, above the chassis but inside the deck zone:
    // the vehicle drives under it and it becomes cargo.
    obstacle(&mut scene, &mut out, "carton", [0.05, 0.05, 0.05], iso(2.0, 0.6, 0.28));
    let tl = out.simulate(&scene, &["haul"], RolloutOptions::default()).unwrap();
    let carton = object(&tl, "carton");

    // Still where it was left while the vehicle is on the first leg.
    let early = place(carton, pc(2.0));
    assert!(near(early, [2.0, 0.6, 0.28]), "early = {early:?}");
    // The deck's front edge reaches it at y = 0.4, i.e. t = 5.8 s, and from
    // there it travels the remaining 0.6 m with the vehicle.
    let end = place(carton, tl.duration);
    assert!(near(end, [2.0, 1.2, 0.28]), "end = {end:?}");
    // Its first span is the rest before it was picked up.
    assert!(matches!(carton.spans.first(), Some(TrackSpan::Hold { .. })));
}

#[test]
fn a_grasped_part_is_the_robots_not_the_decks() {
    let (mut scene, mut out) = deck_scene();
    obstacle(&mut scene, &mut out, "carton", [0.025, 0.025, 0.025], iso(0.0, 0.0, 0.25));
    sequence(
        &mut scene,
        "hold",
        vec![
            step("grasp", vec![attach("carton")], Condition::Immediately),
            step("go", vec![goto("agv", "c")], arrived("agv")),
        ],
    );
    let tl = out.simulate(&scene, &["hold"], RolloutOptions::default()).unwrap();
    let carton = object(&tl, "carton");
    // Grasp wins: every span is a follow, never a vehicle span.
    assert!(
        carton.spans.iter().all(|s| matches!(s, TrackSpan::Follow { .. })),
        "{:?}",
        carton.spans
    );
}

#[test]
fn a_mounted_sensor_travels_with_its_vehicle() {
    let (mut scene, mut out) = deck_scene();
    obstacle(&mut scene, &mut out, "carton", [0.05, 0.05, 0.05], iso(0.05, 0.0, 0.25));
    // An eye over the deck, authored in the vehicle frame, and the same zone
    // bolted to the floor, for contrast.
    for (name, mount) in [("loaded", Some("agv".to_string())), ("fixture", None)] {
        scene.sensors.push(Sensor {
            name: name.to_string(),
            mount,
            kind: SensorKind::Zone { pose: iso(0.0, 0.0, 0.25), size: v3(0.4, 0.3, 0.2) },
            watch: SensorWatch::Objects(names(&["carton"])),
        });
    }
    let tl = out.simulate(&scene, &["haul"], RolloutOptions::default()).unwrap();
    // The mounted eye sees its load for the whole run: it moves with it.
    assert_eq!(lane(&tl, "loaded").edges, vec![(0, false), (0, true)]);
    // The fixture sees the same load at the start and loses it as soon as the
    // vehicle pulls away.
    let fixture = lane(&tl, "fixture");
    assert_eq!(fixture.edges.len(), 3, "{:?}", fixture.edges);
    assert_eq!(&fixture.edges[..2], &[(0, false), (0, true)]);
    let (dropped_at, value) = fixture.edges[2];
    assert!(!value && fl(dropped_at) < 1.0, "dropped at {dropped_at}");
}

#[test]
fn the_load_is_checked_against_the_aisle_too() {
    let (mut scene, mut out) = deck_scene();
    // A tall load on the deck, and a bridge that the body clears but the load
    // does not.
    obstacle(&mut scene, &mut out, "carton", [0.1, 0.1, 0.2], iso(0.0, 0.0, 0.25));
    obstacle(&mut scene, &mut out, "bridge", [0.05, 0.5, 0.05], iso(1.0, 0.0, 0.45));
    match out.simulate(&scene, &["haul"], RolloutOptions::default()).unwrap_err() {
        SeqError::VehicleCollision { body, obstacle, .. } => {
            assert_eq!(body, "carton");
            assert_eq!(obstacle, "bridge");
        }
        other => panic!("expected VehicleCollision, got {}", other.text()),
    }
}

/// The arm with one joint, riding a chassis along the L. Mounted 0.3 m up.
fn amr_scene() -> (Scene, Outside) {
    let mut scene = sample_scene();
    let mut out = outside();
    obstacle(&mut scene, &mut out, "chassis", [0.2, 0.15, 0.1], iso(0.0, 0.0, 0.1));
    device(
        &mut scene,
        "amr",
        DeviceKind::Vehicle {
            path: path(
                &[[0.0, 0.0, 0.0], [2.0, 0.0, 0.0], [2.0, 1.0, 0.0]],
                &[("a", 0), ("c", 2)],
                false,
            ),
            body: names(&["chassis"]),
            speed: pc(0.5),
            turn_speed: pc(QUARTER),
            start: "a".to_string(),
            drive: WHEELS,
            tray: None,
        },
    );
    scene.robots[0].base = iso(0.0, 0.0, 0.3);
    scene.robots[0].mount = Some(Mount {
        device: "amr".to_string(),
        offset: iso(0.0, 0.0, 0.3),
        gait: None,
        spin: vec![],
    });
    (scene, out)
}

#[test]
fn the_base_rides_the_vehicle_and_rests_when_it_stops() {
    let (mut scene, out) = amr_scene();
    sequence(
        &mut scene,
        "go",
        vec![
            step("drive", vec![goto("amr", "c")], arrived("amr")),
            step("dwell", vec![], elapsed(2.0)),
        ],
    );
    let tl = out.simulate(&scene, &["go"], RolloutOptions::default()).unwrap();
    let base = tl.robots[0].base.as_ref().expect("a mounted robot has a base track");
    assert!(!base.is_empty());

    // Mid-straight, mid-turn, and after arrival.
    let at = |t: f64| base_frame(&tl.robots[0], pc(t));
    assert!(near(at(1.0).t, [0.5, 0.0, 0.3]));
    // The turn is about the vehicle frame, which the base sits directly above:
    // it turns on the spot and only its orientation changes.
    let mid = at(4.5);
    assert!(near(mid.t, [2.0, 0.0, 0.3]));
    assert!(faces(mid, QUARTER * 0.5));
    // Parked: the base rests instead of coasting on past the timeline.
    let there = at(7.05);
    for t in (71..=90).map(|k| k as f64 * 0.1) {
        assert!(near(at(t).t, there.t), "base drifted at t = {t}: {:?}", at(t));
    }
    // ...and it agrees with the body it is bolted to.
    let chassis = object(&tl, "chassis");
    for k in 0..=90 {
        let t = k as f64 * 0.1;
        let offset = compose(inverse(stance(&chassis.spans, pc(t))), at(t)).t;
        assert!(near(offset, [0.0, 0.0, 0.2]), "t = {t}: {offset:?}");
    }
}

#[test]
fn a_ramp_may_run_while_driving_but_a_plan_may_not() {
    let (mut scene, mut out) = amr_scene();
    joint_motion(&mut scene, &mut out, "reach", 0.5);
    // A ramp alongside the drive: allowed, and the arm ends up moved.
    sequence(
        &mut scene,
        "stow",
        vec![step("drive", vec![goto("amr", "c"), ramp("j", 0.4, 1.0)], arrived("amr"))],
    );
    let tl = out.simulate(&scene, &["stow"], RolloutOptions::default()).unwrap();
    assert!((sample(&tl, tl.duration)[0] - 0.4).abs() < 1e-9);

    // A planned motion in the same step: rejected by name.
    sequence(
        &mut scene,
        "bad",
        vec![step("drive", vec![goto("amr", "c"), motion("reach")], arrived("amr"))],
    );
    let err = out.simulate(&scene, &["bad"], RolloutOptions::default()).unwrap_err().text();
    assert!(err.contains("cannot start while `amr` is driving"), "unexpected: {err}");
}

/// The arm, a box parked on a belt, and the belt.
fn belt_scene(speed: f64) -> (Scene, Outside) {
    let mut scene = sample_scene();
    let mut out = outside();
    obstacle(&mut scene, &mut out, "box", [0.05, 0.05, 0.05], iso(0.0, 2.0, 0.5));
    device(
        &mut scene,
        "belt",
        DeviceKind::Conveyor {
            zone: iso(5.0, 2.0, 0.5),
            size: v3(20.0, 1.0, 1.0),
            velocity: v3(speed, 0.0, 0.0),
            running: false,
        },
    );
    (scene, out)
}

fn advance(distance: f64) -> Action {
    command("belt", DeviceCommand::Advance(pc(distance)))
}

#[test]
fn advance_moves_exactly_the_asked_distance() {
    // 0.123 m is deliberately not a whole number of scans: the last partial
    // scan has to make up the fraction.
    for (distance, speed) in [(3.2, 0.4), (0.123, 0.4), (0.05, 1.3)] {
        let (mut scene, out) = belt_scene(speed);
        sequence(
            &mut scene,
            "index",
            vec![step("advance", vec![advance(distance)], arrived("belt"))],
        );
        let tl = out.simulate(&scene, &["index"], RolloutOptions::default()).unwrap();
        let moved = place(object(&tl, "box"), tl.duration)[0];
        assert!(
            (moved - distance).abs() < 1e-12,
            "asked {distance}, moved {moved} (err {:+.3e})",
            moved - distance
        );
        // The belt lane pulses on for the advance and off at the end.
        let belt = lane(&tl, "belt");
        assert_eq!(belt.edges.first().map(|(_, v)| *v), Some(false));
        assert_eq!(belt.edges.last().map(|(_, v)| *v), Some(false));
        assert!(belt.edges.iter().any(|(_, v)| *v));
    }
}

#[test]
fn advance_rejects_free_running_and_double_commands() {
    let (mut scene, out) = belt_scene(0.4);
    sequence(
        &mut scene,
        "bad_running",
        vec![step(
            "go",
            vec![command("belt", DeviceCommand::Start), advance(1.0)],
            arrived("belt"),
        )],
    );
    let err =
        out.simulate(&scene, &["bad_running"], RolloutOptions::default()).unwrap_err().text();
    assert!(err.contains("free-running"), "{err}");

    let (mut scene, out) = belt_scene(0.4);
    sequence(
        &mut scene,
        "bad_double",
        vec![step("go", vec![advance(1.0), advance(1.0)], arrived("belt"))],
    );
    let err =
        out.simulate(&scene, &["bad_double"], RolloutOptions::default()).unwrap_err().text();
    assert!(err.contains("still advancing"), "{err}");
}

/// A run that has come to the first action it fires.
fn about_to_fire<'a>(out: &Outside, scene: &'a Scene, name: &str) -> Run<'a> {
    let faults: Vec<Option<SequenceFault>> = vec![None];
    let mut run =
        scene.simulate_sequences(&[name], RolloutOptions::default(), &faults, &None).unwrap();
    while !matches!(run.phase, Phase::Fire { .. }) {
        let reply = out.answer(&run);
        run.advance(reply).unwrap();
    }
    run
}

#[test]
fn a_refused_command_leaves_everything_as_it_was() {
    let (mut scene, out) = belt_scene(0.4);
    sequence(
        &mut scene,
        "double",
        vec![step("go", vec![advance(1.0), advance(1.0)], arrived("belt"))],
    );
    let mut run = about_to_fire(&out, &scene, "double");
    let action = advance(1.0);
    let reply = out.fire(&run, &action);
    assert!(run.world.fire(&action, reply).is_ok());
    let state = |run: &Run| {
        format!("{:?} {:?} {:?}", run.world.devices, run.world.lanes, run.world.objects)
    };
    let before = state(&run);
    let reply = out.fire(&run, &action);
    let err = run.world.fire(&action, reply).unwrap_err().text();
    assert!(
        err.contains(
            "conveyor `belt` is still advancing; wait for device_done before the next advance"
        ),
        "{err}"
    );
    assert_eq!(state(&run), before);
    let DeviceRuntime::Conveyor(belt) = &run.world.devices[0].state else { panic!() };
    assert_eq!(belt.remaining, Some(pc(1.0)));

    // A vehicle that is sent nowhere stays where it is, and its lane with it.
    let (mut scene, out) = chassis_scene();
    sequence(&mut scene, "lost", vec![step("go", vec![goto("agv", "nowhere")], arrived("agv"))]);
    let mut run = about_to_fire(&out, &scene, "lost");
    let action = goto("agv", "nowhere");
    let before = state(&run);
    let reply = out.fire(&run, &action);
    let err = run.world.fire(&action, reply).unwrap_err().text();
    assert!(err.contains("nowhere"), "{err}");
    assert_eq!(state(&run), before);
}

/// Two programs, one world: the bake lasts as long as the slower of the two.
#[test]
fn programs_run_concurrently_and_sync_through_signals() {
    let (mut scene, out) = belt_scene(0.4);
    define_signal(&mut scene, "welded", false);
    sequence(
        &mut scene,
        "station",
        vec![
            step("work", vec![ramp("j", 0.8, 1.0)], Condition::Done),
            step("done", vec![set("welded", true)], Condition::Immediately),
        ],
    );
    sequence(
        &mut scene,
        "transfer",
        vec![
            step("wait_station", vec![], signal("welded", true)),
            step("index", vec![advance(0.2)], arrived("belt")),
        ],
    );
    let tl =
        out.simulate(&scene, &["station", "transfer"], RolloutOptions::default()).unwrap();
    // The station ramps for 1.0 s; the transfer, gated on the weld, indexes for
    // 0.5 s.
    let span = |name: &str| {
        let s = tl.step_spans.iter().find(|s| s.name == name).expect(name);
        (fl(s.start), fl(s.end))
    };
    let work_end = span("station/work").1;
    let index_start = span("transfer/index").0;
    assert!(
        (index_start - work_end).abs() < 0.011,
        "transfer moved at {index_start}, station finished at {work_end}"
    );
    assert!((fl(tl.duration) - 1.51).abs() < 0.02, "duration {}", tl.duration);

    // And with no dependency, the two programs overlap.
    let (mut scene, out) = belt_scene(0.4);
    sequence(
        &mut scene,
        "station",
        vec![step("work", vec![ramp("j", 0.8, 1.0)], Condition::Done)],
    );
    sequence(
        &mut scene,
        "transfer",
        vec![step("index", vec![advance(0.2)], arrived("belt"))],
    );
    let tl =
        out.simulate(&scene, &["station", "transfer"], RolloutOptions::default()).unwrap();
    assert!(
        (fl(tl.duration) - 1.0).abs() < 0.02,
        "expected max(1.0, 0.5), got {}",
        tl.duration
    );
}

#[test]
fn rebaking_parallel_programs_is_bit_identical() {
    let bake = || {
        let (mut scene, out) = belt_scene(0.4);
        define_signal(&mut scene, "welded", false);
        sequence(
            &mut scene,
            "a",
            vec![
                step("work", vec![ramp("j", 0.7, 0.6)], Condition::Done),
                step("flag", vec![set("welded", true)], Condition::Immediately),
            ],
        );
        sequence(
            &mut scene,
            "b",
            vec![
                step("wait", vec![], signal("welded", true)),
                step("index", vec![advance(0.3)], arrived("belt")),
            ],
        );
        out.simulate(&scene, &["a", "b"], RolloutOptions::default()).unwrap()
    };
    let (one, two) = (bake(), bake());
    assert_eq!(one.duration, two.duration);
    let points = |tl: &SequenceTimeline| -> Vec<Vec<i64>> {
        tl.robots[0].trajectory.waypoints.iter().map(|w| w.q.clone()).collect()
    };
    assert_eq!(points(&one), points(&two));
    let edges = |tl: &SequenceTimeline| -> Vec<Vec<(i64, bool)>> {
        tl.signals.iter().map(|s| s.edges.clone()).collect()
    };
    assert_eq!(edges(&one), edges(&two));
}

#[test]
fn ownership_is_validated_up_front() {
    let (mut scene, out) = belt_scene(0.4);
    for name in ["a", "b"] {
        sequence(&mut scene, name, vec![step("x", vec![], Condition::Immediately)]);
    }
    // What two of them both drive is refused before anything runs.
    for thing in ["robot `r`", "signal `flag`", "device `belt`"] {
        let shared = Some(format!("{thing} is commanded by both `a` and `b`"));
        let err = scene
            .simulate_sequences(&["a", "b"], RolloutOptions::default(), &vec![None, None], &shared)
            .err()
            .unwrap()
            .text();
        assert!(err.contains(&format!("{thing} is commanded by both")), "{err}");
    }
    // The same list twice is its own mistake.
    let err = out.simulate(&scene, &["a", "a"], RolloutOptions::default()).unwrap_err().text();
    assert!(err.contains("listed twice"), "{err}");
}

#[test]
fn timeout_names_every_stuck_program() {
    let out = outside();
    let options = RolloutOptions { max_duration: pc(0.5), ..RolloutOptions::default() };
    let mut scene = sample_scene();
    define_signal(&mut scene, "never", false);
    define_signal(&mut scene, "also_never", false);
    sequence(&mut scene, "st1", vec![step("gate", vec![], signal("never", true))]);
    sequence(&mut scene, "st2", vec![step("gate", vec![], signal("also_never", true))]);
    let err = out.simulate(&scene, &["st1", "st2"], options).unwrap_err().text();
    assert!(err.contains("st1/gate") && err.contains("st2/gate"), "{err}");

    // A finished program is not on the list.
    sequence(&mut scene, "quick", vec![step("done", vec![], Condition::Immediately)]);
    let err = out.simulate(&scene, &["quick", "st2"], options).unwrap_err().text();
    assert!(err.contains("st2/gate") && !err.contains("quick"), "{err}");
}

// ---------------------------------------------------------------------------
// Programs lowered from runs.

fn io(inputs: &[(&str, u32)], outputs: &[(&str, u32)]) -> SequenceIo {
    SequenceIo::from_ports(
        inputs.iter().map(|(n, p)| (n.to_string(), *p)).collect(),
        outputs.iter().map(|(n, p)| (n.to_string(), *p)).collect(),
    )
}

/// A plainer test that says the same.
fn simplified(test: &DigitalTest) -> DigitalTest {
    let parts = |tests: &Vec<DigitalTest>| tests.iter().map(simplified).collect::<Vec<_>>();
    let sole = |mut tests: Vec<DigitalTest>, whole: fn(Vec<DigitalTest>) -> DigitalTest| {
        if tests.len() == 1 {
            tests.remove(0)
        } else {
            whole(tests)
        }
    };
    match test {
        DigitalTest::Always => DigitalTest::Always,
        DigitalTest::Input { port, value } => {
            DigitalTest::Input { port: *port, value: *value }
        }
        DigitalTest::AllOf(tests) => {
            let mut left = parts(tests);
            left.retain(|t| !matches!(t, DigitalTest::Always));
            if left.is_empty() {
                DigitalTest::Always
            } else {
                sole(left, DigitalTest::AllOf)
            }
        }
        DigitalTest::AnyOf(tests) => {
            let left = parts(tests);
            if left.iter().any(|t| matches!(t, DigitalTest::Always)) {
                DigitalTest::Always
            } else {
                sole(left, DigitalTest::AnyOf)
            }
        }
    }
}

/// What the simplifier makes of the compound tests of a sequence.
fn plain_tests(scene: &Scene, sequence: &str, io: &SequenceIo) -> PlainTests {
    let mut list = vec![];
    for robot in &scene.robots {
        for s in scene.sequences.iter().filter(|s| s.name == sequence) {
            for test in compound_tests(&s.steps, &io.run_by(&robot.name)) {
                let plain = simplified(&test);
                list.push((test, plain));
            }
        }
    }
    PlainTests { list }
}

const EXPORT: ProgramOptions = ProgramOptions {
    speed_scale: 1_000_000_000_000,
    tcp_speed: 250_000_000_000,
    tcp_accel: 1_000_000_000_000,
    blend_radius: 0,
    move_to_start: true,
};

/// What the scene says of an export.
fn facts(
    scene: &Scene,
    timelines: &[(&str, &SequenceTimeline)],
    sequence: Option<&str>,
    io: &SequenceIo,
) -> ExportFacts {
    let name = sequence.unwrap_or(&timelines[0].1.sequences[0]);
    let robot = |name: &Option<String>| match name {
        Some(n) => scene
            .robots
            .iter()
            .position(|r| &r.name == n)
            .ok_or(format!("unknown robot `{n}`")),
        None if scene.robots.len() == 1 => Ok(0),
        None => Err("several robots: name one".to_string()),
    };
    let resolved = match scene.sequences.iter().find(|s| s.name == name) {
        None => vec![],
        Some(s) => walk_actions(&s.steps)
            .into_iter()
            .filter_map(|a| match a {
                Action::StartToolpath { robot: r, .. }
                | Action::StartRamp { robot: r, .. }
                | Action::Attach { robot: r, .. }
                | Action::Track { robot: r, .. }
                | Action::Untrack { robot: r } => Some(robot(r)),
                _ => None,
            })
            .collect(),
    };
    ExportFacts {
        resolved,
        velocity_limits: vec![pc(1.0)],
        acceleration_limits: vec![pc(1.0)],
        starts: timelines
            .iter()
            .map(|(_, tl)| tl.robots[0].trajectory.waypoints[0].q.clone())
            .collect(),
        plain: plain_tests(scene, name, io),
    }
}

fn export(
    scene: &Scene,
    tl: &SequenceTimeline,
    sequence: Option<&str>,
    io: &SequenceIo,
) -> Result<SequenceProgram, String> {
    let facts = facts(scene, &[("baseline", tl)], sequence, io);
    sequence_program(scene, tl, sequence, io, EXPORT, &facts)
}

fn merged_export(
    scene: &Scene,
    timelines: &[(&str, &SequenceTimeline)],
    io: &SequenceIo,
) -> Result<SequenceProgram, String> {
    let facts = facts(scene, timelines, None, io);
    merged_sequence_program(scene, timelines, None, io, EXPORT, &facts)
}

/// A cell of one robot. The robot's own upper cube trips the zone from the
/// start, so a wait for it resolves at once.
fn export_cell() -> (Scene, Outside) {
    let mut scene = sample_scene();
    let mut out = Outside { links: cubes, ..outside() };
    joint_motion(&mut scene, &mut out, "go", 0.8);
    joint_motion(&mut scene, &mut out, "back", 0.0);
    define_signal(&mut scene, "vacuum", false);
    scene.sensors.push(Sensor {
        name: "part_here".to_string(),
        mount: None,
        kind: SensorKind::Zone { pose: iso(0.0, 0.0, 0.55), size: v3(2.0, 2.0, 0.4) },
        watch: SensorWatch::Robots(names(&["r"])),
    });
    obstacle(&mut scene, &mut out, "part", [0.025, 0.025, 0.025], iso(0.4, 0.0, 0.5));
    (scene, out)
}

#[test]
fn lowers_moves_io_and_waits_in_step_order() {
    let (mut scene, out) = export_cell();
    sequence(
        &mut scene,
        "pick",
        vec![
            step("wait part", vec![], signal("part_here", true)),
            step("approach", vec![motion("go")], Condition::Done),
            step("grip", vec![set("vacuum", true), attach("part")], elapsed(0.4)),
            step("return", vec![motion("back")], Condition::Done),
        ],
    );
    let tl = out.simulate(&scene, &["pick"], RolloutOptions::default()).unwrap();
    let program =
        export(&scene, &tl, None, &io(&[("part_here", 3)], &[("vacuum", 1)])).unwrap();
    let kinds: Vec<&'static str> = program
        .program
        .commands
        .iter()
        .map(|c| match c {
            Command::MoveJoint { .. } => "movej",
            Command::MoveLinear { .. } => "movel",
            Command::SetDigitalOut { .. } => "out",
            Command::WaitDigitalIn { .. } => "in",
            Command::WaitTest { .. } => "wait",
            Command::Sleep { .. } => "sleep",
            Command::Comment { .. } => "#",
            Command::Select { .. } => "select",
        })
        .collect();
    // The move to the start, then the steps in order.
    assert_eq!(&kinds[..3], &["movej", "#", "in"]);
    assert!(kinds.contains(&"out"));
    assert!(kinds.contains(&"sleep"));
    // Everything the sequence fires is present: the waypoints of two motions
    // and the move to the start.
    let moves = kinds.iter().filter(|k| **k == "movej").count();
    assert!(moves >= 3, "kinds = {kinds:?}");
    assert!(program.warnings.is_empty(), "warnings = {:?}", program.warnings);
}

#[test]
fn ramp_lowers_to_duration_paced_move_and_dwell() {
    let mut scene = sample_scene();
    sequence(
        &mut scene,
        "s",
        vec![
            step("close", vec![ramp("j", 0.5, 2.0)], Condition::Done),
            step("settle", vec![ramp("j", 0.5, 0.3)], Condition::Done),
        ],
    );
    let tl = outside().simulate(&scene, &["s"], RolloutOptions::default()).unwrap();
    let program = export(&scene, &tl, None, &io(&[], &[])).unwrap();
    let moves: Vec<i64> = program
        .program
        .commands
        .iter()
        .filter_map(|c| match c {
            Command::MoveJoint { velocity, .. } => Some(*velocity),
            _ => None,
        })
        .collect();
    // The move to the start and the paced ramp: 0.5 rad over 2 s.
    assert_eq!(moves.len(), 2);
    assert_eq!(moves[1], pc(0.25));
    // The ramp that goes nowhere keeps its time as a dwell.
    assert!(program
        .program
        .commands
        .iter()
        .any(|c| matches!(c, Command::Sleep { seconds } if *seconds == pc(0.3))));
}

#[test]
fn unmapped_names_are_actionable_errors() {
    let (mut scene, out) = export_cell();
    sequence(&mut scene, "s", vec![step("wait", vec![], signal("part_here", true))]);
    let tl = out.simulate(&scene, &["s"], RolloutOptions::default()).unwrap();
    // A sequence that only waits drives no robot.
    let err = export(&scene, &tl, None, &io(&[], &[])).unwrap_err();
    assert!(err.contains("drives no robot"), "{err}");

    let (mut scene, out) = export_cell();
    sequence(
        &mut scene,
        "s",
        vec![
            step("move", vec![motion("go")], Condition::Done),
            step("mark", vec![set("vacuum", true)], Condition::Immediately),
        ],
    );
    let tl = out.simulate(&scene, &["s"], RolloutOptions::default()).unwrap();
    let err = export(&scene, &tl, None, &io(&[], &[])).unwrap_err();
    assert!(err.contains("vacuum") && err.contains("outputs="), "{err}");
}

#[test]
fn any_of_lowers_to_a_compound_wait_unless_a_timer_hides_in_it() {
    // A timer has no digital snapshot: refused with guidance.
    let (mut scene, out) = export_cell();
    sequence(
        &mut scene,
        "s",
        vec![step(
            "race",
            vec![motion("go")],
            Condition::Any(vec![elapsed(1.0), signal("part_here", true)]),
        )],
    );
    let tl = out.simulate(&scene, &["s"], RolloutOptions::default()).unwrap();
    let err = export(&scene, &tl, None, &io(&[("part_here", 0)], &[])).unwrap_err();
    assert!(err.contains("timer"), "{err}");

    // Pure digital members wait as one boolean expression.
    let (mut scene, out) = export_cell();
    define_signal(&mut scene, "abort", false);
    sequence(
        &mut scene,
        "s",
        vec![step(
            "race",
            vec![motion("go")],
            Condition::Any(vec![signal("abort", true), signal("part_here", true)]),
        )],
    );
    let tl = out.simulate(&scene, &["s"], RolloutOptions::default()).unwrap();
    let program =
        export(&scene, &tl, None, &io(&[("part_here", 0), ("abort", 4)], &[])).unwrap();
    assert!(program.program.commands.iter().any(|c| matches!(
        c,
        Command::WaitTest { test: DigitalTest::AnyOf(tests) } if tests.len() == 2
    )));
}

#[test]
fn compound_waits_and_guards_stand_in_their_plainest_form() {
    let (mut scene, out) = export_cell();
    define_signal(&mut scene, "ok", true);
    define_signal(&mut scene, "ng", false);
    let idle = || Condition::RobotDone { robot: "r".to_string() };
    sequence(
        &mut scene,
        "s",
        vec![
            // Nothing but what a blocking controller has already passed.
            step("approach", vec![motion("go")], Condition::All(vec![Condition::Done, idle()])),
            // One input among such.
            step(
                "wait",
                vec![],
                Condition::All(vec![signal("part_here", true), Condition::Immediately]),
            ),
            sel(
                "judge",
                vec![
                    (
                        Condition::Any(vec![signal("ok", true)]),
                        vec![step("place", vec![motion("back")], Condition::Done)],
                    ),
                    (
                        Condition::All(vec![signal("ng", true), signal("ok", false)]),
                        vec![step("drop", vec![set("vacuum", false)], Condition::Immediately)],
                    ),
                ],
            ),
        ],
    );
    let tl = out.simulate(&scene, &["s"], RolloutOptions::default()).unwrap();
    let wired = io(&[("part_here", 3), ("ok", 5), ("ng", 6)], &[("vacuum", 1)]);
    let program = export(&scene, &tl, None, &wired).unwrap();
    let commands = &program.program.commands;
    assert!(!commands.iter().any(|c| matches!(c, Command::WaitTest { .. })), "{commands:?}");
    let waits: Vec<(u32, bool)> = commands
        .iter()
        .filter_map(|c| match c {
            Command::WaitDigitalIn { port, value } => Some((*port, *value)),
            _ => None,
        })
        .collect();
    assert_eq!(waits, [(3, true)]);
    let arms = arms_of(&program);
    assert!(matches!(arms[0].test, DigitalTest::Input { port: 5, value: true }), "{arms:?}");
    assert!(
        matches!(&arms[1].test, DigitalTest::AllOf(tests) if tests.len() == 2),
        "{arms:?}"
    );
}

#[test]
fn a_sequence_of_vacuous_waits_lowers_to_no_commands() {
    let (mut scene, out) = export_cell();
    let vacuous = Condition::All(vec![Condition::Done, Condition::Immediately]);
    sequence(&mut scene, "s", vec![step("grip", vec![attach("part")], vacuous)]);
    let tl = out.simulate(&scene, &["s"], RolloutOptions::default()).unwrap();
    let err = export(&scene, &tl, None, &io(&[], &[])).unwrap_err();
    assert_eq!(err, "sequence `s` lowers to no commands");
}

#[test]
fn concurrency_and_unmapped_devices_warn() {
    let (mut scene, out) = export_cell();
    device(
        &mut scene,
        "conv",
        DeviceKind::Conveyor {
            zone: iso(5.0, 0.0, 0.0),
            size: v3(1.0, 1.0, 0.2),
            velocity: v3(0.1, 0.0, 0.0),
            running: true,
        },
    );
    sequence(
        &mut scene,
        "s",
        vec![
            step("move while timing", vec![motion("go")], elapsed(3.0)),
            step("index", vec![command("conv", DeviceCommand::Stop)], Condition::Immediately),
        ],
    );
    let tl = out.simulate(&scene, &["s"], RolloutOptions::default()).unwrap();
    let program = export(&scene, &tl, None, &io(&[], &[])).unwrap();
    assert_eq!(program.warnings.len(), 2, "{:?}", program.warnings);
    assert!(program.warnings[0].contains("beside the move"));
    assert!(program.warnings[1].contains("conv"));
    // The unmapped stop is a comment, not a lost action.
    assert!(program.program.commands.iter().any(|c| matches!(
        c,
        Command::Comment { text } if text.contains("conv") && text.contains("stop")
    )));
}

fn arms_of(program: &SequenceProgram) -> &Vec<ProgramArm> {
    program
        .program
        .commands
        .iter()
        .find_map(|c| match c {
            Command::Select { arms } => Some(arms),
            _ => None,
        })
        .expect("a select command")
}

#[test]
fn branches_lower_to_if_chains_with_skipped_arms_carried() {
    let (mut scene, out) = export_cell();
    define_signal(&mut scene, "ok", true);
    define_signal(&mut scene, "ng", false);
    sequence(
        &mut scene,
        "s",
        vec![
            step("approach", vec![motion("go")], Condition::Done),
            sel(
                "judge",
                vec![
                    (
                        signal("ok", true),
                        vec![step("place", vec![motion("back")], Condition::Done)],
                    ),
                    (
                        signal("ng", true),
                        vec![step(
                            "purge",
                            vec![ramp("j", 0.3, 0.5), set("vacuum", false)],
                            Condition::Done,
                        )],
                    ),
                ],
            ),
        ],
    );
    let tl = out.simulate(&scene, &["s"], RolloutOptions::default()).unwrap();
    assert_eq!(tl.branches.len(), 1);
    assert_eq!(tl.branches[0].arm, 0);

    let program =
        export(&scene, &tl, None, &io(&[("ok", 1), ("ng", 2)], &[("vacuum", 3)])).unwrap();
    let select = arms_of(&program);
    assert_eq!(select.len(), 2);
    assert!(matches!(select[0].test, DigitalTest::Input { port: 1, value: true }));
    // The taken arm carries its planned motion.
    assert!(select[0].body.iter().any(|c| matches!(c, Command::MoveJoint { .. })));
    // The skipped arm still exports: its ramp goes from the configuration at
    // the branch (0.8) to the authored 0.3, paced by the authored duration.
    let (q, velocity) = select[1]
        .body
        .iter()
        .find_map(|c| match c {
            Command::MoveJoint { q, velocity, .. } => Some((q.clone(), *velocity)),
            _ => None,
        })
        .expect("a move for the ramp");
    assert_eq!(q, vec![pc(0.3)]);
    assert!((fl(velocity) - 0.5 / 0.5).abs() < 1e-9, "v = {velocity}");
    assert!(select[1]
        .body
        .iter()
        .any(|c| matches!(c, Command::SetDigitalOut { port: 3, value: false })));
}

fn last_target(body: &[Command]) -> Vec<i64> {
    body.iter()
        .rev()
        .find_map(|c| match c {
            Command::MoveJoint { q, .. } => Some(q.clone()),
            _ => None,
        })
        .expect("a joint move in the arm")
}

fn judged_moves(out: &mut Outside, ok: bool, start: f64, shared: bool) -> Scene {
    let mut scene = sample_scene();
    scene.robots[0].q = vec![pc(start)];
    define_signal(&mut scene, "ok", ok);
    define_signal(&mut scene, "ng", !ok);
    for (name, goal) in [("approach", 0.4), ("hi", 0.8), ("lo", -0.5), ("home", 0.0)] {
        joint_motion(&mut scene, out, name, goal);
    }
    let branch = sel(
        "judge",
        vec![
            (signal("ok", true), vec![step("good", vec![motion("hi")], Condition::Done)]),
            (signal("ng", true), vec![step("bad", vec![motion("lo")], Condition::Done)]),
        ],
    );
    let steps = if shared {
        vec![
            step("approach", vec![motion("approach")], Condition::Done),
            branch,
            step("home", vec![motion("home")], Condition::Done),
        ]
    } else {
        vec![branch]
    };
    sequence(&mut scene, "s", steps);
    scene
}

#[test]
fn merged_export_splices_donor_arms() {
    let mut out = outside();
    let scene = judged_moves(&mut out, true, 0.0, true);
    let ng_scene = judged_moves(&mut out, false, 0.0, true);
    let options = RolloutOptions::default();
    let base = under(&out, &scene, None, Ok(&ng_scene), options).unwrap();
    let ng = under(&out, &scene, Some("ng_part"), Ok(&ng_scene), options).unwrap();
    let wiring = io(&[("ok", 1), ("ng", 2)], &[]);

    // One bake alone cannot carry the other arm's motion.
    let err = export(&scene, &base, None, &wiring).unwrap_err();
    assert!(err.contains("never planned"), "{err}");

    // The pair merges: each arm's moves come from the bake that took it.
    let program =
        merged_export(&scene, &[("baseline", &base), ("ng_part", &ng)], &wiring).unwrap();
    let arms = arms_of(&program);
    assert_eq!(last_target(&arms[0].body), vec![pc(0.8)]);
    assert_eq!(last_target(&arms[1].body), vec![pc(-0.5)]);
    // Both approached to the same place, and the move after the branch is a
    // joint move: no warning.
    assert!(program.warnings.is_empty(), "{:?}", program.warnings);

    // Roles swap cleanly.
    let program =
        merged_export(&scene, &[("ng_part", &ng), ("baseline", &base)], &wiring).unwrap();
    let arms = arms_of(&program);
    assert_eq!(last_target(&arms[0].body), vec![pc(0.8)]);
    assert_eq!(last_target(&arms[1].body), vec![pc(-0.5)]);
}

#[test]
fn merge_refuses_scenarios_that_diverge_before_the_branch() {
    // No shared move before the branch: the configuration there is the start,
    // which the scenario shifts.
    let mut out = outside();
    let scene = judged_moves(&mut out, true, 0.0, false);
    let shifted_scene = judged_moves(&mut out, false, 0.5, false);
    let options = RolloutOptions::default();
    let base = under(&out, &scene, None, Ok(&scene), options).unwrap();
    let shifted = under(&out, &scene, Some("shifted"), Ok(&shifted_scene), options).unwrap();
    let err = merged_export(
        &scene,
        &[("baseline", &base), ("shifted", &shifted)],
        &io(&[("ok", 1), ("ng", 2)], &[]),
    )
    .unwrap_err();
    assert!(err.contains("diverged before the branch"), "{err}");
}

#[test]
fn straight_line_after_divergent_rejoin_warns() {
    // The arms rejoin 1.0 rad apart and the next planned move is a straight
    // line: the one case where the divergence changes the executed path.
    let mut scene = sample_scene();
    define_signal(&mut scene, "ok", true);
    define_signal(&mut scene, "ng", false);
    scene.motions.push(Motion { name: "slide".to_string(), robot: 0 });
    sequence(
        &mut scene,
        "s",
        vec![
            sel(
                "judge",
                vec![
                    (
                        signal("ok", true),
                        vec![step("good", vec![ramp("j", 0.5, 0.5)], Condition::Done)],
                    ),
                    (
                        signal("ng", true),
                        vec![step("bad", vec![ramp("j", -0.5, 0.5)], Condition::Done)],
                    ),
                ],
            ),
            step("slide", vec![motion("slide")], Condition::Done),
        ],
    );
    let planned = |step: usize, motion: Option<&str>, kind: SegmentKind, from: f64, to: f64| {
        PlannedMove {
            sequence: "s".to_string(),
            step,
            motion: motion.map(|m| m.to_string()),
            segments: vec![PlannedSegment {
                kind,
                waypoints: vec![vec![pc(from)], vec![pc(to)]],
                tcp_speed: None,
            }],
            duration: pc(0.5),
            feed_report: None,
            process_spans: vec![],
        }
    };
    let timeline = |ramp_to: f64, arm: usize| SequenceTimeline {
        duration: pc(1.0),
        sequences: names(&["s"]),
        scenario: None,
        robots: vec![RobotTrack {
            name: "r".to_string(),
            trajectory: Bake {
                waypoints: vec![
                    Waypoint { t: 0, q: vec![0], v: vec![0] },
                    Waypoint { t: pc(1.0), q: vec![pc(0.2)], v: vec![0] },
                ],
            },
            moves: vec![],
            planned: vec![
                planned(1, None, SegmentKind::Joint, 0.0, ramp_to),
                planned(2, Some("slide"), SegmentKind::CartesianLine, ramp_to, 0.2),
            ],
            base: None,
            footfalls: vec![],
            sway: vec![],
            pitch: vec![],
            rise: vec![],
        }],
        objects: vec![],
        vehicles: vec![],
        signals: vec![],
        step_spans: vec![],
        branches: vec![BranchTaken {
            sequence: "s".to_string(),
            step: "judge".to_string(),
            select: 0,
            arm,
        }],
    };
    let base = timeline(0.5, 0);
    let ng = timeline(-0.5, 1);
    let program = merged_export(
        &scene,
        &[("baseline", &base), ("ng", &ng)],
        &io(&[("ok", 1), ("ng", 2)], &[]),
    )
    .unwrap();
    assert!(
        program.warnings.iter().any(|w| w.contains("straight line") && w.contains("judge")),
        "{:?}",
        program.warnings
    );
}

#[test]
fn skipped_arm_motions_are_refused() {
    let (mut scene, out) = export_cell();
    define_signal(&mut scene, "ok", true);
    define_signal(&mut scene, "ng", false);
    sequence(
        &mut scene,
        "s",
        vec![
            step("approach", vec![motion("go")], Condition::Done),
            sel(
                "judge",
                vec![
                    (signal("ok", true), vec![]),
                    (
                        signal("ng", true),
                        vec![step("rework", vec![motion("back")], Condition::Done)],
                    ),
                ],
            ),
        ],
    );
    let tl = out.simulate(&scene, &["s"], RolloutOptions::default()).unwrap();
    let err = export(&scene, &tl, None, &io(&[("ok", 1), ("ng", 2)], &[])).unwrap_err();
    assert!(err.contains("never planned"), "{err}");
}

#[test]
fn edges_lower_to_two_stage_waits_and_cannot_guard_arms() {
    let rising = || Condition::Rising { name: "pulse".to_string() };
    let pulser = |seconds: f64| {
        vec![
            step("hold", vec![], elapsed(seconds)),
            step("fire", vec![set("pulse", true)], Condition::Immediately),
        ]
    };
    let (mut scene, out) = export_cell();
    define_signal(&mut scene, "pulse", false);
    sequence(
        &mut scene,
        "s",
        vec![
            step("next part", vec![], rising()),
            step("move", vec![motion("go")], Condition::Done),
        ],
    );
    sequence(&mut scene, "pulser", pulser(0.1));
    let tl = out.simulate(&scene, &["s", "pulser"], RolloutOptions::default()).unwrap();
    let program = export(&scene, &tl, Some("s"), &io(&[("pulse", 2)], &[])).unwrap();
    let waits: Vec<(u32, bool)> = program
        .program
        .commands
        .iter()
        .filter_map(|c| match c {
            Command::WaitDigitalIn { port, value } => Some((*port, *value)),
            _ => None,
        })
        .collect();
    // Wait low, then high: the next rising edge, not the level.
    assert_eq!(waits, vec![(2, false), (2, true)]);

    // As a branch guard an edge has no snapshot form: refused.
    let (mut scene, out) = export_cell();
    define_signal(&mut scene, "pulse", false);
    sequence(
        &mut scene,
        "s",
        vec![
            step("move", vec![motion("go")], Condition::Done),
            sel("gate", vec![(rising(), vec![])]),
        ],
    );
    sequence(&mut scene, "pulser", pulser(3.0));
    let tl = out.simulate(&scene, &["s", "pulser"], RolloutOptions::default()).unwrap();
    let err = export(&scene, &tl, Some("s"), &io(&[("pulse", 2)], &[])).unwrap_err();
    assert!(err.contains("latch the edge"), "{err}");
}

#[test]
fn tracking_steps_are_refused() {
    let (mut scene, out) = export_cell();
    sequence(
        &mut scene,
        "s",
        vec![
            step(
                "latch",
                vec![Action::Track { robot: None, object: "part".to_string(), link: None }],
                elapsed(0.1),
            ),
            step("release", vec![Action::Untrack { robot: None }], Condition::Immediately),
        ],
    );
    let tl = out.simulate(&scene, &["s"], RolloutOptions::default()).unwrap();
    let err = export(&scene, &tl, None, &io(&[], &[])).unwrap_err();
    assert!(err.contains("tracking"), "{err}");
}

#[test]
fn multi_robot_sequences_are_refused() {
    let mut scene = empty_scene();
    let mut out = outside();
    scene.robots.push(arm("a", iso(0.0, 0.0, 0.0)));
    scene.robots.push(arm("b", iso(0.0, 3.0, 0.0)));
    for (robot, name) in [(0, "a_go"), (1, "b_go")] {
        scene.motions.push(Motion { name: name.to_string(), robot });
        out.goals.push((name.to_string(), vec![0.5]));
    }
    sequence(
        &mut scene,
        "both",
        vec![
            step("a moves", vec![motion("a_go")], Condition::Done),
            step("b moves", vec![motion("b_go")], Condition::Done),
        ],
    );
    let tl = out.simulate(&scene, &["both"], RolloutOptions::default()).unwrap();
    let err = export(&scene, &tl, None, &io(&[], &[])).unwrap_err();
    assert!(err.contains("per-robot programs"), "{err}");
}

#[test]
fn wrong_or_foreign_sequences_are_refused() {
    let (mut scene, out) = export_cell();
    let go = || step("move", vec![motion("go")], Condition::Done);
    sequence(&mut scene, "s", vec![go()]);
    let tl = out.simulate(&scene, &["s"], RolloutOptions::default()).unwrap();
    let err = export(&scene, &tl, Some("other"), &io(&[], &[])).unwrap_err();
    assert!(err.contains("not part of this rollout"), "{err}");

    // Editing the sequence after the rollout must not export a mismatched
    // program.
    sequence(
        &mut scene,
        "s",
        vec![go(), step("extra", vec![motion("back")], Condition::Done)],
    );
    let err = export(&scene, &tl, None, &io(&[], &[])).unwrap_err();
    assert!(err.contains("re-simulate"), "{err}");
}

// ---------------------------------------------------------------------------
// A machine that walks its vehicle: four legs, each of which reaches straight
// for its foothold, a neck, and two arms.

fn dog_fk(_: &str, q: &[f64], base: Frame) -> Vec<Frame> {
    let mut links = vec![base];
    for (i, hip) in HIPS.iter().enumerate() {
        let at = |k: usize| q[3 * i + k] - STANCE[k];
        let foot = [hip[0] + at(0), hip[1] + at(1), at(2) - DEPTH];
        links.push(compose(base, Frame { t: foot, yaw: 0.0 }));
    }
    links
}

fn feet_only(_: &str, link: usize) -> Option<([f64; 3], [f64; 3])> {
    if link > 0 {
        Some(([0.0, 0.0, 0.1], [0.02, 0.02, 0.1]))
    } else {
        None
    }
}

const FOOT_R: f64 = 0.02;

struct Dog {
    waypoints: Vec<[f64; 3]>,
    speed: f64,
    max_step: Option<f64>,
    body: Vec<&'static str>,
    walks: bool,
}

fn l_dog() -> Dog {
    Dog {
        waypoints: vec![[0.0, 0.0, 0.0], [2.0, 0.0, 0.0], [2.0, 1.0, 0.0]],
        speed: 0.5,
        max_step: None,
        body: vec![],
        walks: true,
    }
}

fn straight_dog(top: f64, max_step: Option<f64>) -> Dog {
    Dog {
        waypoints: vec![[0.0, 0.0, 0.0], [3.0, 0.0, top]],
        speed: 0.4,
        max_step,
        ..l_dog()
    }
}

fn dog_scene(dog: Dog) -> (Scene, Outside) {
    let mut scene = empty_scene();
    let out = Outside { shapes: vec![], goals: vec![], fk: dog_fk, links: no_links, body: upright };
    let mut joints = vec![];
    for leg in ["FL", "FR", "RL", "RR"] {
        for part in ["hip", "thigh", "calf"] {
            joints.push(format!("{leg}_{part}_joint"));
        }
    }
    joints.extend(names(&["neck", "L_arm", "R_arm"]));
    let end = dog.waypoints.len() - 1;
    device(
        &mut scene,
        "dog",
        DeviceKind::Vehicle {
            path: path(&dog.waypoints, &[("a", 0), ("c", end)], false),
            body: names(&dog.body),
            speed: pc(dog.speed),
            turn_speed: pc(QUARTER),
            start: "a".to_string(),
            drive: WHEELS,
            tray: Some((iso(0.0, 0.0, 0.5), v3(0.4, 0.4, 0.3))),
        },
    );
    let height = DEPTH + FOOT_R;
    scene.robots.push(Robot {
        name: "quad".to_string(),
        links: names(&["body", "FL_foot", "FR_foot", "RL_foot", "RR_foot"]),
        joints: joints
            .iter()
            .enumerate()
            .map(|(i, n)| Joint { name: n.clone(), q_index: Some(i) })
            .collect(),
        actuated: (0..joints.len()).collect(),
        tool_mount_link: 0,
        q: (0..15).map(|k| if k < 12 { pc(STANCE[k % 3]) } else { 0 }).collect(),
        base: iso(0.0, 0.0, height),
        mount: Some(Mount {
            device: "dog".to_string(),
            offset: iso(0.0, 0.0, height),
            gait: if dog.walks {
                Some(Gait {
                    legs: ["FL", "FR", "RL", "RR"]
                        .iter()
                        .enumerate()
                        .map(|(i, n)| GaitLeg {
                            name: n.to_string(),
                            joints: vec![3 * i, 3 * i + 1, 3 * i + 2],
                        })
                        .collect(),
                    body: 0,
                    max_step: dog.max_step.map(pc),
                    foot_radius: pc(FOOT_R),
                    lift: pc(0.05),
                    arm_swing: vec![(13, pc(0.3)), (14, pc(-0.3))],
                })
            } else {
                None
            },
            spin: vec![],
        }),
    });
    (scene, out)
}

fn patrol(scene: &mut Scene, out: &Outside, dwell: f64, dt: f64) -> SequenceTimeline {
    sequence(
        scene,
        "patrol",
        vec![
            step("drive", vec![goto("dog", "c")], arrived("dog")),
            step("stand", vec![], elapsed(dwell)),
        ],
    );
    let options = RolloutOptions { dt: pc(dt), ..RolloutOptions::default() };
    out.simulate(scene, &["patrol"], options).unwrap()
}

fn patrol_fault(scene: &mut Scene, out: &Outside) -> SeqError {
    sequence(scene, "patrol", vec![step("drive", vec![goto("dog", "c")], arrived("dog"))]);
    out.simulate(scene, &["patrol"], RolloutOptions::default()).unwrap_err()
}

/// Two treads, at half the height and at the height, stand under the way.
fn stepped(top: f64, max_step: Option<f64>, footprint: bool) -> (Scene, Outside) {
    let mut dog = straight_dog(top, max_step);
    if footprint {
        dog.body = vec!["footprint"];
    }
    let (mut scene, mut out) = dog_scene(dog);
    if footprint {
        obstacle(&mut scene, &mut out, "footprint", [0.45, 0.3, 0.25], iso(0.0, 0.0, 0.25));
    }
    for (name, x0, x1, z) in [("tread1", 0.8, 1.9, top / 2.0), ("tread2", 1.9, 3.4, top)] {
        let half = [(x1 - x0) / 2.0, 0.6, 0.025];
        obstacle(&mut scene, &mut out, name, half, iso((x0 + x1) / 2.0, 0.0, z - 0.025));
        scene.obstacles.last_mut().unwrap().walkable = true;
    }
    (scene, out)
}

#[test]
fn the_walk_climbs_the_ramp_with_the_frame() {
    // The drive carries the altitude, the feet land on the climbing plane, and
    // the stance at the top stands a leg's depth above the raised floor.
    let (mut scene, out) = dog_scene(straight_dog(0.3, None));
    let tl = patrol(&mut scene, &out, 2.0, 0.01);
    let base = stance(tl.robots[0].base.as_ref().unwrap(), tl.duration);
    assert!((base.t[2] - (0.3 + DEPTH + FOOT_R)).abs() < 1e-6, "base = {base:?}");
    for foot in &dog_fk("quad", &sample(&tl, tl.duration), base)[1..] {
        assert!((foot.t[2] - (0.3 + FOOT_R)).abs() < 1e-4, "foot = {foot:?}");
    }
}

#[test]
fn the_feet_snap_onto_the_treads_and_the_walker_may_touch_them() {
    let top = 0.16;
    let (mut scene, out) = stepped(top, None, true);
    let tl = patrol(&mut scene, &out, 2.0, 0.01);
    // Every foothold over a tread stands exactly on it, not on the slope that
    // the way interpolates.
    let (mut on1, mut on2) = (0, 0);
    for f in &tl.robots[0].footfalls {
        let p = triple(f.position);
        if p[0] > 0.82 && p[0] < 1.88 {
            assert!((p[2] - (top / 2.0 + FOOT_R)).abs() < 1e-9, "{p:?}");
            on1 += 1;
        }
        if p[0] > 1.92 && p[0] < 3.38 {
            assert!((p[2] - (top + FOOT_R)).abs() < 1e-9, "{p:?}");
            on2 += 1;
        }
    }
    assert!(on1 > 0 && on2 > 0, "on1 = {on1}, on2 = {on2}");
    // That the run ends at all means that the checks excused the treads under
    // the machine that walks.
    let base = stance(tl.robots[0].base.as_ref().unwrap(), tl.duration);
    for foot in &dog_fk("quad", &sample(&tl, tl.duration), base)[1..] {
        assert!((foot.t[2] - (top + FOOT_R)).abs() < 1e-4, "parked foot = {foot:?}");
    }
    assert!((base.t[2] - (top + DEPTH + FOOT_R)).abs() < 1e-4);
}

#[test]
fn a_step_over_the_declared_ability_is_refused_by_name() {
    let (mut scene, out) = stepped(0.16, Some(0.05), false);
    let err = patrol_fault(&mut scene, &out);
    assert!(matches!(err, SeqError::StepHeight { .. }), "{}", err.text());
    assert!(err.text().contains("max_step"), "{}", err.text());
}

#[test]
fn a_foothold_on_a_tread_edge_is_named() {
    // Walk the flat once to learn where a foothold lands, and put a ledge under
    // it whose edge cuts the margin.
    let (mut scene, out) = dog_scene(straight_dog(0.0, None));
    let tl = patrol(&mut scene, &out, 1.0, 0.01);
    let f = triple(tl.robots[0].footfalls[4].position);

    let (mut scene, mut out) = dog_scene(straight_dog(0.0, None));
    // The foothold sits a quarter of a foot inside the edge.
    let at = iso(f[0] + 0.15 - FOOT_R * 0.25, f[1], 0.0);
    obstacle(&mut scene, &mut out, "ledge", [0.15, 0.2, 0.02], at);
    scene.obstacles[0].walkable = true;
    let err = patrol_fault(&mut scene, &out);
    assert!(
        matches!(&err, SeqError::FootOverhang { obstacle, .. } if obstacle == "ledge"),
        "{}",
        err.text()
    );
    assert!(err.text().contains("edge of `ledge`"), "{}", err.text());
}

#[test]
fn the_walk_is_deterministic_to_the_bit() {
    let bake = || {
        let (mut scene, out) = dog_scene(l_dog());
        patrol(&mut scene, &out, 1.0, 0.01)
    };
    let (a, b) = (bake(), bake());
    let points = |tl: &SequenceTimeline| -> Vec<Vec<i64>> {
        tl.robots[0].trajectory.waypoints.iter().map(|w| w.q.clone()).collect()
    };
    assert_eq!(points(&a), points(&b));
    assert_eq!(a.robots[0].footfalls, b.robots[0].footfalls);
}

#[test]
fn footfalls_do_not_depend_on_the_scan_period() {
    let (mut scene, out) = dog_scene(l_dog());
    let coarse = patrol(&mut scene, &out, 1.0, 0.01);
    let fine = patrol(&mut scene, &out, 1.0, 0.005);
    assert_eq!(coarse.robots[0].footfalls, fine.robots[0].footfalls);
    assert!(!coarse.robots[0].footfalls.is_empty());
}

#[test]
fn the_legs_settle_into_the_stance_after_arrival() {
    let (mut scene, out) = dog_scene(l_dog());
    let tl = patrol(&mut scene, &out, 2.0, 0.01);
    let done = tl.robots[0].footfalls.iter().map(|f| f.land).max().unwrap();
    // Arrival is at 7 s; the settle is at most one more cycle and a swing.
    assert!(fl(done) > 7.0 && fl(done) <= 7.0 + 1.5 * 0.5, "settled at {done}");
    for t in [done + pc(0.2), tl.duration] {
        let q = sample(&tl, t);
        for i in 0..4 {
            for k in 0..3 {
                assert!((q[3 * i + k] - STANCE[k]).abs() < 1e-9, "leg {i} at t = {t}: {q:?}");
            }
        }
    }
    // Parked facing +y: every foot stands under its hip.
    let base = stance(tl.robots[0].base.as_ref().unwrap(), tl.duration);
    for (i, foot) in dog_fk("quad", &sample(&tl, tl.duration), base)[1..].iter().enumerate() {
        let [x, y] = HIPS[i];
        assert!(near(foot.t, [2.0 - y, 1.0 + x, FOOT_R]), "{foot:?}");
    }
    // Footfalls are listed as they land.
    let lands: Vec<i64> = tl.robots[0].footfalls.iter().map(|f| f.land).collect();
    assert!(lands.windows(2).all(|w| w[0] <= w[1]));
}

#[test]
fn a_stride_the_legs_cannot_take_is_refused_by_name() {
    let (mut scene, out) = dog_scene(Dog { speed: 2.0, ..l_dog() });
    let err = patrol_fault(&mut scene, &out);
    assert!(matches!(err, SeqError::GaitReach { .. }), "unexpected: {}", err.text());
    assert!(err.text().contains("cannot reach its footfall"), "{}", err.text());
}

#[test]
fn a_leg_ramp_is_refused_mid_walk_while_the_head_may_nod() {
    let (mut scene, out) = dog_scene(l_dog());
    sequence(
        &mut scene,
        "nod",
        vec![
            step("drive", vec![goto("dog", "c"), ramp("neck", 0.5, 1.0)], arrived("dog")),
            step("stand", vec![], elapsed(1.0)),
        ],
    );
    let tl = out.simulate(&scene, &["nod"], RolloutOptions::default()).unwrap();
    assert!((sample(&tl, pc(0.5))[12] - 0.25).abs() < 1e-6);
    assert!((sample(&tl, tl.duration)[12] - 0.5).abs() < 1e-9);
    assert!(!tl.robots[0].footfalls.is_empty());

    sequence(
        &mut scene,
        "kick",
        vec![step(
            "drive",
            vec![goto("dog", "c"), ramp("FL_calf_joint", -1.0, 1.0)],
            arrived("dog"),
        )],
    );
    let err = out.simulate(&scene, &["kick"], RolloutOptions::default()).unwrap_err().text();
    assert!(err.contains("driven by the gait"), "{err}");

    // Standing, a leg may be ramped; the walk then starts from wherever the
    // legs are.
    sequence(
        &mut scene,
        "crouch",
        vec![
            step("crouch", vec![ramp("FL_calf_joint", -1.0, 1.0)], Condition::Done),
            step("drive", vec![goto("dog", "c")], arrived("dog")),
            step("stand", vec![], elapsed(1.0)),
        ],
    );
    let tl = out.simulate(&scene, &["crouch"], RolloutOptions::default()).unwrap();
    assert!((sample(&tl, pc(1.0))[2] + 1.0).abs() < 1e-9);
    assert!((sample(&tl, tl.duration)[2] + 1.4).abs() < 1e-9);

    // A ramp that still moves a leg is not walked over.
    sequence(
        &mut scene,
        "hurry",
        vec![
            step("crouch", vec![ramp("FL_calf_joint", -1.0, 1.0)], Condition::Immediately),
            step("drive", vec![goto("dog", "c")], arrived("dog")),
        ],
    );
    let err = out.simulate(&scene, &["hurry"], RolloutOptions::default()).unwrap_err().text();
    assert!(err.contains("a ramp is still moving leg `FL`"), "{err}");
}

#[test]
fn a_footprint_body_around_the_legs_is_not_a_collision() {
    // The machine stands inside its own footprint, and the footprint still
    // drives the aisle check: a post in the way fails the walk by name.
    let (mut scene, mut out) = dog_scene(Dog { body: vec!["footprint"], ..l_dog() });
    out.links = feet_only;
    obstacle(&mut scene, &mut out, "footprint", [0.4, 0.2, 0.2], iso(0.05, 0.0, 0.2));
    patrol(&mut scene, &out, 1.0, 0.01);
    obstacle(&mut scene, &mut out, "post", [0.05, 0.05, 0.5], iso(1.0, 0.0, 0.5));
    let err = patrol_fault(&mut scene, &out);
    assert!(matches!(err, SeqError::VehicleCollision { .. }), "{}", err.text());
}

#[test]
fn a_leg_that_meets_the_environment_mid_walk_is_named() {
    let (mut scene, mut out) = dog_scene(l_dog());
    out.links = feet_only;
    // A post in the lane that the left feet swing through.
    obstacle(&mut scene, &mut out, "post", [0.03, 0.03, 0.2], iso(1.0, 0.17, 0.2));
    let err = patrol_fault(&mut scene, &out);
    match &err {
        SeqError::RiderCollision { vehicle, robot, part, obstacle, .. } => {
            assert_eq!(vehicle, "dog");
            assert_eq!(robot, "quad");
            assert_eq!(obstacle, "post");
            assert!(part.starts_with("FL") || part.starts_with("RL"), "{part}");
        }
        other => panic!("unexpected: {}", other.text()),
    }
    assert!(err.text().contains("riding `dog`"), "{}", err.text());
    // Out of the legs' way, the walk goes through.
    scene.obstacles[0].pose = iso(1.0, 0.6, 0.2);
    out.simulate(&scene, &["patrol"], RolloutOptions::default()).unwrap();
}

#[test]
fn a_walking_robot_has_no_script_to_export() {
    let (mut scene, out) = dog_scene(l_dog());
    sequence(
        &mut scene,
        "nod",
        vec![
            step("nod", vec![ramp("neck", 0.3, 0.5)], Condition::Done),
            step("drive", vec![goto("dog", "c")], arrived("dog")),
        ],
    );
    let tl = out.simulate(&scene, &["nod"], RolloutOptions::default()).unwrap();
    let err = export(&scene, &tl, None, &io(&[], &[])).unwrap_err();
    assert!(err.contains("gait"), "{err}");
}

#[test]
fn walking_costs_no_cycle_time() {
    let (mut scene, out) = dog_scene(l_dog());
    let walked = patrol(&mut scene, &out, 1.0, 0.01);
    let (mut scene, out) = dog_scene(Dog { walks: false, ..l_dog() });
    let carried = patrol(&mut scene, &out, 1.0, 0.01);
    assert_eq!(walked.duration, carried.duration);
    assert!(carried.robots[0].footfalls.is_empty());
}

/// What a machine that walks carries is bound to its body: one follow span
/// with the offset it was picked up at.
#[test]
fn a_load_follows_the_body_that_walks() {
    let (mut scene, mut out) = dog_scene(straight_dog(0.16, None));
    obstacle(&mut scene, &mut out, "tote", [0.1, 0.1, 0.05], iso(0.0, 0.0, 0.5));
    let tl = patrol(&mut scene, &out, 2.0, 0.01);
    let track = object(&tl, "tote");
    let follows: Vec<&TrackSpan> =
        track.spans.iter().filter(|s| matches!(s, TrackSpan::Follow { .. })).collect();
    assert_eq!(follows.len(), 1, "{:?}", track.spans);
    let TrackSpan::Follow { robot, link, offset, .. } = follows[0] else { unreachable!() };
    assert_eq!((*robot, *link), (0, 0));
    assert!((fl(offset.at.z) - (0.5 - DEPTH - FOOT_R)).abs() < 1e-9, "{offset:?}");
}

/// Up a flight a body stands off its way, and has its nose up.
fn climbing_body(x: f64) -> (f64, f64) {
    let u = (std::f64::consts::PI * (x / 3.0).clamp(0.0, 1.0)).sin();
    (0.06 * u, 0.1 * u)
}

#[test]
fn what_a_walking_machine_carries_rides_its_body_not_its_route() {
    // A tote on the machine's back, up a flight. The body tilts and rides up the
    // steps while the route stays on the line between the waypoints: a load
    // pinned to the route would hold air on the way up.
    let top = 0.16;
    let (mut scene, out) = stepped(top, None, false);
    let mut out = Outside { body: climbing_body, ..out };
    obstacle(&mut scene, &mut out, "tote", [0.1, 0.1, 0.05], iso(0.0, 0.0, 0.5));
    sequence(
        &mut scene,
        "patrol",
        vec![
            step("drive", vec![goto("dog", "c")], arrived("dog")),
            step("stand", vec![], elapsed(2.0)),
        ],
    );
    let options = RolloutOptions { dt: pc(0.01), ..RolloutOptions::default() };
    let faults: Vec<Option<SequenceFault>> = vec![None];
    let mut run = scene.simulate_sequences(&["patrol"], options, &faults, &None).unwrap();
    let mut held: Option<Pose> = None;
    let mut pinned: Option<Pose> = None;
    let (mut off, mut tilt) = (0.0f64, 0.0f64);
    while !matches!(run.phase, Phase::Done) {
        let reply = out.answer(&run);
        assert!(run.accepts(&reply));
        run.advance(reply).unwrap();
        if !matches!(run.phase, Phase::Sense { .. }) {
            continue;
        }
        // Rigid with the body: the offset it was picked up at is the offset it
        // keeps, tilt and ride with it.
        let tote = run.world.obstacles.iter().find(|o| o.name == "tote").unwrap().pose;
        let on_body = chain(undone(run.world.bases[0]), tote);
        let first = *held.get_or_insert(on_body);
        let (slid, turned) = apart(first, on_body);
        assert!(slid < 1e-9 && turned < 1e-9, "slid {slid} m at t = {}", fl(run.world.t));
        // ...and not rigid with the route: that offset has to move.
        let on_route = chain(undone(pose(out.ride(&run, 0).unwrap())), tote);
        let first = *pinned.get_or_insert(on_route);
        let (moved, leant) = apart(first, on_route);
        off = off.max(moved);
        tilt = tilt.max(leant);
    }
    assert!(off > top / 4.0, "the load never rose off the route ({off})");
    assert!(tilt > 0.05, "the load never tilted with the body ({tilt})");

    let rests = vec![pose(out.ride(&run, 0).unwrap())];
    let tl = run.finish(&rests);
    let track = object(&tl, "tote");
    assert!(
        track.spans.iter().any(|s| matches!(s, TrackSpan::Follow { .. })),
        "the load follows the body, not the route: {:?}",
        track.spans
    );
    // Placed off the base track, the body composed onto it, it keeps its offset
    // too.
    let base = tl.robots[0].base.as_ref().unwrap();
    for i in 1..=40 {
        let t = tl.duration / 40 * i;
        let body = out.standing(stance(base, t));
        match SequenceTimeline::object_pose(track, t) {
            Some(Placement::OnLink { robot: 0, link: 0, offset }) => {
                let (slid, _) = apart(chain(body, offset), chain(body, held.unwrap()));
                assert!(slid < 1e-9, "slid {slid} m at t = {}", fl(t));
            }
            other => panic!("{other:?}"),
        }
    }
}

#[test]
fn arms_swing_in_step_unless_the_hands_are_full() {
    let (mut scene, out) = dog_scene(l_dog());
    let tl = patrol(&mut scene, &out, 2.0, 0.01);
    let mut peak = 0.0f64;
    for w in &tl.robots[0].trajectory.waypoints {
        assert!((fl(w.q[13]) + fl(w.q[14])).abs() < 1e-9, "arms out of step at {}", w.t);
        peak = peak.max(fl(w.q[13]).abs());
    }
    assert!(peak > 0.28, "peak swing {peak}");
    let rest = sample(&tl, tl.duration);
    assert!(rest[13].abs() < 1e-12 && rest[14].abs() < 1e-12);

    // Hands full: what is held rides still, and so do the arms.
    let (mut scene, mut out) = dog_scene(l_dog());
    obstacle(&mut scene, &mut out, "box", [0.04, 0.04, 0.04], iso(0.0, 0.0, 0.9));
    scene.attachments.push(Attachment {
        object: "box".to_string(),
        robot: 0,
        link: 0,
        grasp: iso(0.0, 0.0, 0.58),
    });
    let tl = patrol(&mut scene, &out, 2.0, 0.01);
    assert!(!tl.robots[0].footfalls.is_empty());
    for w in &tl.robots[0].trajectory.waypoints {
        assert!(w.q[13] == 0 && w.q[14] == 0);
    }
    // ...and the box went along for the walk.
    assert!(object(&tl, "box").spans.iter().all(|s| matches!(s, TrackSpan::Follow { .. })));
}

#[test]
fn a_ramped_arm_is_left_alone_and_a_swung_one_cannot_be_ramped() {
    let (mut scene, out) = dog_scene(l_dog());
    // A raise still in flight at dispatch finishes as ramped; the other arm
    // swings.
    sequence(
        &mut scene,
        "raise",
        vec![
            step("raise", vec![ramp("L_arm", -1.0, 3.0)], Condition::Immediately),
            step("go", vec![goto("dog", "c")], arrived("dog")),
            step("stand", vec![], elapsed(1.0)),
        ],
    );
    let tl = out.simulate(&scene, &["raise"], RolloutOptions::default()).unwrap();
    assert!((sample(&tl, pc(3.0))[13] + 1.0).abs() < 1e-6);
    assert!((sample(&tl, tl.duration)[13] + 1.0).abs() < 1e-9);
    let peak = tl.robots[0]
        .trajectory
        .waypoints
        .iter()
        .map(|w| fl(w.q[14]).abs())
        .fold(0.0, f64::max);
    assert!(peak > 0.28, "right arm did not swing: {peak}");

    // A ramp on a swinging arm mid-walk is refused by name.
    sequence(
        &mut scene,
        "wave",
        vec![step("go", vec![goto("dog", "c"), ramp("R_arm", 0.5, 1.0)], arrived("dog"))],
    );
    let err = out.simulate(&scene, &["wave"], RolloutOptions::default()).unwrap_err().text();
    assert!(err.contains("driven by the gait"), "{err}");
}

