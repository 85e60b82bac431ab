//! Simulated laser sweeps.
//!
//! A scan casts one ray per beam against the collision shapes of bodies and
//! robot links. The rays are cast outside; which of their returns a beam
//! reports, and how, is decided here. Sweeps repeat bit for bit: noise is a
//! hash of seed, beam and instant.

use vstd::prelude::*;

use crate::fixed::{clip, clipped, floor_div, muldiv, plus, scaled, Pico, Pose, Vec3, NANO, UNIT};
use crate::names::{find, find_named, names_of, same};
use crate::scene::{
    body_index, find_body, DeviceKind, DeviceSpec, Lidar, Obstacle, OpticMount, Robot, Scene,
};
use crate::text::{cat3, plain, plain_text};
use crate::timeline::SequenceTimeline;
use crate::tracks::{clamp, clamped, span_for, Placement, TrackSpan};
use crate::views::{opt, views};

verus! {

/// Measurement noise for a sweep: a different seed is an independent draw.
#[derive(Clone, Copy, Debug, PartialEq, Eq, Structural)]
pub struct ScanNoise {
    /// Range noise, one standard deviation. It changes how far a beam reports
    /// what it hits, never what it hits.
    pub sigma: Pico,
    pub seed: u64,
}

/// What is wrong with a scan.
#[derive(Debug)]
pub enum SceneError {
    UnknownLidar(String),
    BadLidar(String),
    /// What the kinematics refused.
    Kinematics(String),
}

pub enum SceneErrorView {
    UnknownLidar(Seq<char>),
    BadLidar(Seq<char>),
    Kinematics(Seq<char>),
}

impl View for SceneError {
    type V = SceneErrorView;

    open spec fn view(&self) -> SceneErrorView {
        match self {
            SceneError::UnknownLidar(name) => SceneErrorView::UnknownLidar(name@),
            SceneError::BadLidar(message) => SceneErrorView::BadLidar(message@),
            SceneError::Kinematics(message) => SceneErrorView::Kinematics(message@),
        }
    }
}

/// The SplitMix64 finalizer.
pub open spec fn mixed(x: u64) -> u64 {
    let a = vstd::wrapping::u64_specs::wrapping_add(x, 0x9E37_79B9_7F4A_7C15);
    let b = vstd::wrapping::u64_specs::wrapping_mul(a ^ (a >> 30), 0xBF58_476D_1CE4_E5B9);
    let c = vstd::wrapping::u64_specs::wrapping_mul(b ^ (b >> 27), 0x94D0_49BB_1331_11EB);
    c ^ (c >> 31)
}

/// SplitMix64, the 64-bit finalizer: enough hash for a noise stream.
pub fn splitmix64(x: u64) -> (r: u64)
    ensures
        r == mixed(x),
{
    let a: u64 = x.wrapping_add(0x9E37_79B9_7F4A_7C15);
    let b: u64 = (a ^ (a >> 30)).wrapping_mul(0xBF58_476D_1CE4_E5B9);
    let c: u64 = (b ^ (b >> 27)).wrapping_mul(0x94D0_49BB_1331_11EB);
    c ^ (c >> 31)
}

/// The key of a beam's noise: seed, beam and instant.
pub open spec fn noise_key_of(seed: u64, beam: u64, instant: u64) -> u64 {
    mixed(mixed(seed ^ beam) ^ instant)
}

/// The key of a beam's noise. `instant` is how the instant is stored, zero for
/// a scene as it stands.
pub fn noise_key(seed: u64, beam: u64, instant: u64) -> (r: u64)
    ensures
        r == noise_key_of(seed, beam, instant),
{
    splitmix64(splitmix64(seed ^ beam) ^ instant)
}

/// One simulated sweep. A scanner of several rings is ring-major, the lowest
/// ring first.
#[derive(Debug)]
pub struct LidarScan {
    /// Beam angles, in degrees in the scan frame.
    pub angles: Vec<Pico>,
    /// Beam elevations, in degrees above the scan plane.
    pub elevations: Vec<Pico>,
    /// Nearest hit along each beam; zero where there is no return.
    pub ranges: Vec<Pico>,
    /// What each beam hit.
    pub hits: Vec<Option<String>>,
    /// The scan frame.
    pub pose: Pose,
    /// The instant of the cycle; none is the scene as it stands.
    pub t: Option<Pico>,
}

#[verifier::ext_equal]
pub struct ScanView {
    pub angles: Seq<Pico>,
    pub elevations: Seq<Pico>,
    pub ranges: Seq<Pico>,
    pub hits: Seq<Option<Seq<char>>>,
    pub pose: Pose,
    pub t: Option<Pico>,
}

/// What beams hit, by name.
pub open spec fn hit_names(hits: Seq<Option<String>>) -> Seq<Option<Seq<char>>> {
    Seq::new(hits.len(), |i: int| opt(hits[i]))
}

impl View for LidarScan {
    type V = ScanView;

    open spec fn view(&self) -> ScanView {
        ScanView {
            angles: self.angles@,
            elevations: self.elevations@,
            ranges: self.ranges@,
            hits: hit_names(self.hits@),
            pose: self.pose,
            t: self.t,
        }
    }
}

/// Of the points of the beams `from`, `from + stride` and so on, those of the
/// beams with a return.
pub open spec fn picked(ranges: Seq<Pico>, points: Seq<Vec3>, from: int, stride: int) -> Seq<Vec3>
    decreases
        if from < ranges.len() {
            ranges.len() - from
        } else {
            0
        },
{
    if from < 0 || stride <= 0 || from >= ranges.len() {
        Seq::empty()
    } else if ranges[from] > 0 {
        seq![points[from]] + picked(ranges, points, from + stride, stride)
    } else {
        picked(ranges, points, from + stride, stride)
    }
}

impl LidarScan {
    /// The hit points of the beams with a return, `points` being where each
    /// beam ends in the frame that is asked for. `stride` thins the beam grid
    /// first, so the same stride picks the same beams on every call; zero
    /// counts as one.
    pub fn points(&self, stride: usize, points: &Vec<Vec3>) -> (r: Vec<Vec3>)
        requires
            points@.len() == self.ranges@.len(),
        ensures
            r@ == picked(
                self.ranges@,
                points@,
                0,
                if stride == 0 {
                    1
                } else {
                    stride as int
                },
            ),
    {
        let step: usize = if stride == 0 {
            1
        } else {
            stride
        };
        let mut out: Vec<Vec3> = Vec::new();
        let n: usize = self.ranges.len();
        let mut i: usize = 0;
        assert(out@ + picked(self.ranges@, points@, 0, step as int) =~= picked(
            self.ranges@,
            points@,
            0,
            step as int,
        ));
        while i < n
            invariant
                n == self.ranges@.len(),
                step >= 1,
                step as int == (if stride == 0 {
                    1
                } else {
                    stride as int
                }),
                points@.len() == self.ranges@.len(),
                out@ + picked(self.ranges@, points@, i as int, step as int) == picked(
                    self.ranges@,
                    points@,
                    0,
                    step as int,
                ),
            decreases n - i,
        {
            let ghost before = out@;
            let ghost rest = picked(self.ranges@, points@, i + step, step as int);
            if self.ranges[i] > 0 {
                out.push(points[i]);
                assert(out@ + rest =~= before + (seq![points@[i as int]] + rest));
            }
            if step > n - i {
                // The next beam is past the last.
                assert(rest =~= Seq::<Vec3>::empty());
                assert(out@ =~= out@ + rest);
                return out;
            }
            i = i + step;
        }
        assert(picked(self.ranges@, points@, i as int, step as int) =~= Seq::<Vec3>::empty());
        assert(out@ =~= picked(self.ranges@, points@, 0, step as int));
        out
    }
}

/// The body of the first vehicle of a name, from device `from` on.
pub open spec fn vehicle_body(devices: Seq<DeviceSpec>, device: Seq<char>, from: int) -> Option<
    Seq<String>,
>
    decreases devices.len() - from,
{
    if from < 0 || from >= devices.len() {
        None
    } else {
        match devices[from].kind {
            DeviceKind::Vehicle { body, .. } => if devices[from].name@ == device {
                Some(body@)
            } else {
                vehicle_body(devices, device, from + 1)
            },
            _ => vehicle_body(devices, device, from + 1),
        }
    }
}

/// The bodies of the given names; a name that is none is left out.
pub open spec fn bodies_of(names: Seq<String>, obstacles: Seq<Obstacle>, n: nat) -> Seq<usize>
    decreases n,
{
    if n == 0 {
        Seq::empty()
    } else {
        let less = bodies_of(names, obstacles, (n - 1) as nat);
        match body_index(obstacles, names[n - 1]@) {
            Some(k) => less.push(k as usize),
            None => less,
        }
    }
}

/// What a scanner's own mount hides from it.
pub open spec fn excluded(scene: Scene, lidar: Lidar) -> (Seq<usize>, Option<(usize, usize)>) {
    match lidar.mount {
        OpticMount::World => (Seq::empty(), None),
        OpticMount::Vehicle { device } => (
            match vehicle_body(scene.devices@, device@, 0) {
                Some(names) => bodies_of(names, scene.obstacles@, names.len()),
                None => Seq::empty(),
            },
            None,
        ),
        OpticMount::Link { robot, link } => (
            Seq::empty(),
            match find(names_of(scene.robots@), robot@) {
                Some(r) => match find(names_of(scene.robots@[r].links@), link@) {
                    Some(l) => Some((r as usize, l as usize)),
                    None => None,
                },
                None => None,
            },
        ),
    }
}

fn find_vehicle_body<'a>(devices: &'a Vec<DeviceSpec>, device: &str) -> (r: Option<&'a Vec<String>>)
    ensures
        (match r {
            Some(body) => Some(body@),
            None => None,
        }) == vehicle_body(devices@, device@, 0),
{
    let mut i: usize = 0;
    while i < devices.len()
        invariant
            i <= devices.len(),
            vehicle_body(devices@, device@, 0) == vehicle_body(devices@, device@, i as int),
        decreases devices.len() - i,
    {
        let mine: bool = same(devices[i].name.as_str(), device);
        match &devices[i].kind {
            DeviceKind::Vehicle { body, .. } => {
                if mine {
                    return Some(body);
                }
            },
            _ => {},
        }
        i = i + 1;
    }
    None
}

/// What a scanner's own mount hides from it: a vehicle mount's body, a link
/// mount's own link.
pub fn mount_exclusions(scene: &Scene, lidar: &Lidar) -> (r: (Vec<usize>, Option<(usize, usize)>))
    ensures
        (r.0@, r.1) == excluded(*scene, *lidar),
{
    match &lidar.mount {
        OpticMount::World => (Vec::new(), None),
        OpticMount::Vehicle { device } => {
            let mut out: Vec<usize> = Vec::new();
            match find_vehicle_body(&scene.devices, device.as_str()) {
                Some(names) => {
                    let mut n: usize = 0;
                    while n < names.len()
                        invariant
                            n <= names.len(),
                            out@ == bodies_of(names@, scene.obstacles@, n as nat),
                        decreases names.len() - n,
                    {
                        match find_body(&scene.obstacles, names[n].as_str()) {
                            Some(k) => {
                                out.push(k);
                            },
                            None => {},
                        }
                        n = n + 1;
                    }
                },
                None => {},
            }
            (out, None)
        },
        OpticMount::Link { robot, link } => {
            let none: Vec<usize> = Vec::new();
            match find_named(&scene.robots, robot.as_str()) {
                Some(r) => match find_named(&scene.robots[r].links, link.as_str()) {
                    Some(l) => (none, Some((r, l))),
                    None => (none, None),
                },
                None => (none, None),
            }
        },
    }
}

/// Whether a body is stowed at `t` of a cycle.
pub open spec fn stowed_at(timeline: SequenceTimeline, name: Seq<char>, t: Pico) -> bool {
    match find(names_of(timeline.objects@), name) {
        Some(k) => span_for(timeline.objects@[k].spans@, t as int) matches Some(
            TrackSpan::Stowed { .. },
        ),
        None => false,
    }
}

/// Which bodies take part in a sweep: enabled, not stowed, and not the
/// mount's own.
pub open spec fn active_bodies(
    scene: Scene,
    lidar: Lidar,
    cycle: Option<(SequenceTimeline, Pico)>,
) -> Seq<bool> {
    Seq::new(
        scene.obstacles@.len(),
        |i: int|
            scene.obstacles@[i].enabled && !excluded(scene, lidar).0.contains(i as usize) && !(
            cycle matches Some((timeline, t)) && stowed_at(
                timeline,
                scene.obstacles@[i].name@,
                t,
            )),
    )
}

/// The view of an instant of a cycle.
pub open spec fn cycle_view(cycle: Option<(&SequenceTimeline, Pico)>) -> Option<
    (SequenceTimeline, Pico),
> {
    match cycle {
        Some((timeline, t)) => Some((*timeline, t)),
        None => None,
    }
}

fn holds(list: &Vec<usize>, k: usize) -> (r: bool)
    ensures
        r == list@.contains(k),
{
    let mut i: usize = 0;
    while i < list.len()
        invariant
            i <= list.len(),
            forall|j: int| 0 <= j < i ==> list@[j] != k,
        decreases list.len() - i,
    {
        if list[i] == k {
            assert(list@[i as int] == k);
            return true;
        }
        i = i + 1;
    }
    false
}

/// Which bodies take part in a sweep.
pub fn scan_bodies(scene: &Scene, lidar: &Lidar, cycle: Option<(&SequenceTimeline, Pico)>) -> (r:
    Vec<bool>)
    ensures
        r@ == active_bodies(*scene, *lidar, cycle_view(cycle)),
{
    let ghost want = active_bodies(*scene, *lidar, cycle_view(cycle));
    let (hidden, _): (Vec<usize>, Option<(usize, usize)>) = mount_exclusions(scene, lidar);
    let mut out: Vec<bool> = Vec::new();
    let mut i: usize = 0;
    while i < scene.obstacles.len()
        invariant
            i <= scene.obstacles.len(),
            hidden@ == excluded(*scene, *lidar).0,
            want == active_bodies(*scene, *lidar, cycle_view(cycle)),
            out@ == want.take(i as int),
        decreases scene.obstacles.len() - i,
    {
        let o: &Obstacle = &scene.obstacles[i];
        let stowed: bool = match cycle {
            Some((timeline, t)) => match find_named(&timeline.objects, o.name.as_str()) {
                Some(k) => !SequenceTimeline::object_visible(&timeline.objects[k], t),
                None => false,
            },
            None => false,
        };
        out.push(o.enabled && !holds(&hidden, i) && !stowed);
        i = i + 1;
        assert(out@ =~= want.take(i as int));
    }
    assert(out@ =~= want);
    out
}

/// Where a body is at `t` of a cycle, where it has a track; without one it is
/// where the scene has it.
pub open spec fn placed_at(timeline: SequenceTimeline, name: Seq<char>, t: Pico) -> Option<Placement> {
    match find(names_of(timeline.objects@), name) {
        Some(k) => match span_for(timeline.objects@[k].spans@, t as int) {
            Some(span) => Some(span.placement(t as int)),
            None => None,
        },
        None => None,
    }
}

/// Where each body is at `t` of a cycle; none where the scene has it.
pub fn scan_placements(scene: &Scene, timeline: &SequenceTimeline, t: Pico) -> (r: Vec<
    Option<Placement>,
>)
    ensures
        r@ == Seq::new(
            scene.obstacles@.len(),
            |i: int| placed_at(*timeline, scene.obstacles@[i].name@, t),
        ),
{
    let ghost want = Seq::new(
        scene.obstacles@.len(),
        |i: int| placed_at(*timeline, scene.obstacles@[i].name@, t),
    );
    let mut out: Vec<Option<Placement>> = Vec::new();
    let mut i: usize = 0;
    while i < scene.obstacles.len()
        invariant
            i <= scene.obstacles.len(),
            want == Seq::new(
                scene.obstacles@.len(),
                |i: int| placed_at(*timeline, scene.obstacles@[i].name@, t),
            ),
            out@ == want.take(i as int),
        decreases scene.obstacles.len() - i,
    {
        let place: Option<Placement> = match find_named(
            &timeline.objects,
            scene.obstacles[i].name.as_str(),
        ) {
            Some(k) => SequenceTimeline::object_pose(&timeline.objects[k], t),
            None => None,
        };
        out.push(place);
        i = i + 1;
        assert(out@ =~= want.take(i as int));
    }
    assert(out@ =~= want);
    out
}

/// What carries a scanner.
#[derive(Clone, Copy, Debug, PartialEq, Eq, Structural)]
pub enum ScanBase {
    /// Nothing: its pose is in the world.
    World,
    /// Its vehicle, parked at its start.
    Parked,
    /// Its vehicle, somewhere on its track.
    Riding(Placement),
    /// A link of a robot.
    Link { robot: usize, link: usize },
}

/// What carries a scanner.
pub open spec fn base_of(scene: Scene, lidar: Lidar, cycle: Option<(SequenceTimeline, Pico)>) -> ScanBase {
    match lidar.mount {
        OpticMount::World => ScanBase::World,
        OpticMount::Vehicle { device } => match cycle {
            Some((timeline, t)) => match find(names_of(timeline.vehicles@), device@) {
                Some(k) => match span_for(timeline.vehicles@[k].spans@, t as int) {
                    Some(span) => ScanBase::Riding(span.placement(t as int)),
                    None => ScanBase::Parked,
                },
                None => ScanBase::Parked,
            },
            None => ScanBase::Parked,
        },
        OpticMount::Link { .. } => match excluded(scene, lidar).1 {
            Some((robot, link)) => ScanBase::Link { robot, link },
            None => ScanBase::World,
        },
    }
}

/// What carries a scanner. A vehicle that never drove has no track and stays
/// parked; a link that is not there leaves the scanner in the world.
pub fn scan_base(scene: &Scene, lidar: &Lidar, cycle: Option<(&SequenceTimeline, Pico)>) -> (r:
    ScanBase)
    ensures
        r == base_of(*scene, *lidar, cycle_view(cycle)),
{
    match &lidar.mount {
        OpticMount::World => ScanBase::World,
        OpticMount::Vehicle { device } => match cycle {
            Some((timeline, t)) => match find_named(&timeline.vehicles, device.as_str()) {
                Some(k) => match SequenceTimeline::object_pose(&timeline.vehicles[k], t) {
                    Some(placement) => ScanBase::Riding(placement),
                    None => ScanBase::Parked,
                },
                None => ScanBase::Parked,
            },
            None => ScanBase::Parked,
        },
        OpticMount::Link { .. } => {
            let (_, link): (Vec<usize>, Option<(usize, usize)>) = mount_exclusions(scene, lidar);
            match link {
                Some((robot, link)) => ScanBase::Link { robot, link },
                None => ScanBase::World,
            }
        },
    }
}

/// How many steps a sweep takes: its field by its resolution, to the nearest,
/// one at least.
pub open spec fn sweep_steps(lidar: Lidar) -> int {
    let n = (2 * lidar.fov_deg + lidar.resolution_deg) / (2 * lidar.resolution_deg);
    if n < 1 {
        1
    } else {
        n
    }
}

/// How many beams a ring has. A full circle drops the beam that would close
/// it.
pub open spec fn ring_beams(lidar: Lidar) -> int {
    if lidar.fov_deg >= 360 * UNIT - NANO {
        sweep_steps(lidar)
    } else {
        sweep_steps(lidar) + 1
    }
}

/// The angle of beam `i` of a ring: the grid spans the field exactly,
/// symmetric about zero.
pub open spec fn beam_angle(lidar: Lidar, i: int) -> Pico {
    clip(muldiv(lidar.fov_deg as int, i, sweep_steps(lidar)) - lidar.fov_deg / 2)
}

/// How many rings there are.
pub open spec fn ring_count(lidar: Lidar) -> nat {
    if lidar.channels <= 1 {
        1
    } else {
        lidar.channels as nat
    }
}

/// The elevation of ring `c`: spread over the vertical field, bottom first.
pub open spec fn ring_elevation(lidar: Lidar, c: int) -> Pico {
    if lidar.channels <= 1 {
        0
    } else {
        clip(
            muldiv(lidar.vfov_deg as int, c, lidar.channels - 1) - lidar.vfov_deg / 2,
        )
    }
}

/// A scanner whose beams can be laid out.
pub open spec fn sweepable(lidar: Lidar) -> bool {
    lidar.resolution_deg > 0 && lidar.fov_deg >= 0 && lidar.vfov_deg >= 0 && 0 <= lidar.range.0
        <= lidar.range.1 && ring_beams(lidar) * ring_count(lidar) <= usize::MAX
}

/// The beams of a scanner: how many rings, and how many to a ring.
pub fn beam_grid(lidar: &Lidar) -> (r: (usize, usize))
    requires
        sweepable(*lidar),
    ensures
        r.0 == ring_count(*lidar),
        r.1 == ring_beams(*lidar),
        r.1 >= 1,
{
    let rings: usize = if lidar.channels <= 1 {
        1
    } else {
        lidar.channels as usize
    };
    let n: i128 = floor_div(
        2 * lidar.fov_deg as i128 + lidar.resolution_deg as i128,
        2 * lidar.resolution_deg as i128,
    );
    let steps: i128 = if n < 1 {
        1
    } else {
        n
    };
    let full: bool = lidar.fov_deg as i128 >= 360 * UNIT as i128 - NANO as i128;
    let beams: i128 = if full {
        steps
    } else {
        steps + 1
    };
    assert(beams <= usize::MAX) by (nonlinear_arith)
        requires
            beams * ring_count(*lidar) <= usize::MAX,
            ring_count(*lidar) >= 1,
            beams >= 1,
    ;
    (rings, beams as usize)
}

/// What the geometry says of a sweep: how far along each beam it meets what.
#[derive(Debug)]
pub struct SweepReply {
    /// The scan frame.
    pub frame: Pose,
    /// Per beam and body.
    pub bodies: Vec<Vec<Option<Pico>>>,
    /// Per beam, robot and link.
    pub links: Vec<Vec<Vec<Option<Pico>>>>,
    /// Per body, its box in the world where it has one.
    pub boxes: Vec<Option<(Vec3, Vec3)>>,
    /// How the instant is stored; zero for a scene as it stands.
    pub instant: u64,
    /// Per beam, its noise key and the standard-normal draw for it.
    pub draws: Vec<(u64, Pico)>,
}

/// How far a coordinate is from a range.
pub open spec fn beyond(x: Pico, lo: Pico, hi: Pico) -> int {
    clamped(x as int, lo as int, hi as int) - x
}

/// Whether the box comes within `reach` of the origin. What has no box always
/// does.
pub open spec fn in_reach(origin: Vec3, extent: Option<(Vec3, Vec3)>, reach: Pico) -> bool {
    match extent {
        Some((lo, hi)) => {
            let x = beyond(origin.x, lo.x, hi.x);
            let y = beyond(origin.y, lo.y, hi.y);
            let z = beyond(origin.z, lo.z, hi.z);
            x * x + y * y + z * z <= reach * reach
        },
        None => true,
    }
}

fn short_of(x: Pico, lo: Pico, hi: Pico) -> (r: u128)
    ensures
        r == crate::fixed::abs(beyond(x, lo, hi)),
{
    let c: i128 = clamp(x, lo, hi) as i128 - x as i128;
    if c < 0 {
        (-c) as u128
    } else {
        c as u128
    }
}

proof fn lemma_square_over(a: int, b: int, rest: int)
    requires
        crate::fixed::abs(a) > b,
        b >= 0,
        rest >= 0,
    ensures
        a * a + rest > b * b,
{
    assert(a * a > b * b) by (nonlinear_arith)
        requires
            a > b || -a > b,
            b >= 0,
    ;
}

proof fn lemma_squares(a: int, n: int)
    requires
        n == crate::fixed::abs(a),
    ensures
        a * a == n * n,
        a * a >= 0,
{
    assert(a * a == n * n && a * a >= 0) by (nonlinear_arith)
        requires
            n == a || n == -a,
    ;
}

/// Whether the box comes within `reach` of the origin.
pub fn reach_cull(origin: Vec3, extent: Option<(Vec3, Vec3)>, reach: Pico) -> (r: bool)
    requires
        reach >= 0,
    ensures
        r == in_reach(origin, extent, reach),
{
    match extent {
        Some((lo, hi)) => {
            let x: u128 = short_of(origin.x, lo.x, hi.x);
            let y: u128 = short_of(origin.y, lo.y, hi.y);
            let z: u128 = short_of(origin.z, lo.z, hi.z);
            let limit: u128 = reach as u128;
            let ghost (a, b, c) = (
                beyond(origin.x, lo.x, hi.x),
                beyond(origin.y, lo.y, hi.y),
                beyond(origin.z, lo.z, hi.z),
            );
            proof {
                lemma_squares(a, x as int);
                lemma_squares(b, y as int);
                lemma_squares(c, z as int);
            }
            if x > limit {
                proof {
                    lemma_square_over(a, reach as int, b * b + c * c);
                }
                return false;
            }
            if y > limit {
                proof {
                    lemma_square_over(b, reach as int, a * a + c * c);
                }
                return false;
            }
            if z > limit {
                proof {
                    lemma_square_over(c, reach as int, a * a + b * b);
                }
                return false;
            }
            assert(x * x <= 0x3FFF_FFFF_FFFF_FFFF_0000_0000_0000_0001 && y * y
                <= 0x3FFF_FFFF_FFFF_FFFF_0000_0000_0000_0001 && z * z
                <= 0x3FFF_FFFF_FFFF_FFFF_0000_0000_0000_0001 && limit * limit
                <= 0x3FFF_FFFF_FFFF_FFFF_0000_0000_0000_0001) by (nonlinear_arith)
                requires
                    0 <= x <= 0x7FFF_FFFF_FFFF_FFFF,
                    0 <= y <= 0x7FFF_FFFF_FFFF_FFFF,
                    0 <= z <= 0x7FFF_FFFF_FFFF_FFFF,
                    0 <= limit <= 0x7FFF_FFFF_FFFF_FFFF,
            ;
            x * x + y * y + z * z <= limit * limit
        },
        None => true,
    }
}

/// The bodies that take part and come within reach of the scanner.
pub open spec fn candidates(active: Seq<bool>, lidar: Lidar, reply: SweepReply) -> Seq<bool> {
    Seq::new(
        active.len(),
        |i: int| active[i] && in_reach(reply.frame.at, reply.boxes@[i], lidar.range.1),
    )
}

fn pick_candidates(active: &Vec<bool>, lidar: &Lidar, reply: &SweepReply) -> (r: Vec<bool>)
    requires
        lidar.range.1 >= 0,
        reply.boxes@.len() == active@.len(),
    ensures
        r@ == candidates(active@, *lidar, *reply),
{
    let ghost want = candidates(active@, *lidar, *reply);
    let mut out: Vec<bool> = Vec::new();
    let mut i: usize = 0;
    while i < active.len()
        invariant
            i <= active.len(),
            lidar.range.1 >= 0,
            reply.boxes@.len() == active@.len(),
            want == candidates(active@, *lidar, *reply),
            out@ == want.take(i as int),
        decreases active.len() - i,
    {
        out.push(active[i] && reach_cull(reply.frame.at, reply.boxes[i], lidar.range.1));
        i = i + 1;
        assert(out@ =~= want.take(i as int));
    }
    assert(out@ =~= want);
    out
}

/// A return, and what gave it.
pub type Return = Option<(Pico, Seq<char>)>;

/// The nearer of two returns, the earlier where they are as near.
pub open spec fn nearer(best: Return, toi: Option<Pico>, name: Seq<char>) -> Return {
    match toi {
        Some(d) => match best {
            Some((b, _)) if b <= d => best,
            _ => Some((d, name)),
        },
        None => best,
    }
}

/// The nearest return of the first `n` bodies that take part.
pub open spec fn nearest_body(
    obstacles: Seq<Obstacle>,
    active: Seq<bool>,
    tois: Seq<Option<Pico>>,
    n: nat,
) -> Return
    decreases n,
{
    if n == 0 {
        None
    } else {
        let less = nearest_body(obstacles, active, tois, (n - 1) as nat);
        if active[n - 1] {
            nearer(less, tois[n - 1], obstacles[n - 1].name@)
        } else {
            less
        }
    }
}

/// The nearest return of `best` and the first `n` links of robot `r`.
pub open spec fn nearest_link(
    best: Return,
    robot: Robot,
    r: int,
    hidden: Option<(usize, usize)>,
    tois: Seq<Option<Pico>>,
    n: nat,
) -> Return
    decreases n,
{
    if n == 0 {
        best
    } else {
        let less = nearest_link(best, robot, r, hidden, tois, (n - 1) as nat);
        if hidden matches Some((hr, hl)) && hr == r && hl == n - 1 {
            less
        } else {
            nearer(less, tois[n - 1], robot.name@ + "/"@ + robot.links@[n - 1]@)
        }
    }
}

/// The nearest return of `best` and the links of the first `n` robots.
pub open spec fn nearest_robot(
    best: Return,
    robots: Seq<Robot>,
    hidden: Option<(usize, usize)>,
    tois: Seq<Vec<Option<Pico>>>,
    n: nat,
) -> Return
    decreases n,
{
    if n == 0 {
        best
    } else {
        nearest_link(
            nearest_robot(best, robots, hidden, tois, (n - 1) as nat),
            robots[n - 1],
            n - 1,
            hidden,
            tois[n - 1]@,
            robots[n - 1].links@.len(),
        )
    }
}

/// What a beam meets first.
pub open spec fn met(
    scene: Scene,
    lidar: Lidar,
    active: Seq<bool>,
    hidden: Option<(usize, usize)>,
    reply: SweepReply,
    beam: int,
) -> Return {
    nearest_robot(
        nearest_body(
            scene.obstacles@,
            candidates(active, lidar, reply),
            reply.bodies@[beam]@,
            scene.obstacles@.len(),
        ),
        scene.robots@,
        hidden,
        reply.links@[beam]@,
        scene.robots@.len(),
    )
}

/// How far a beam reports a hit: noise perturbs the distance, within the
/// measuring band.
pub open spec fn reported(lidar: Lidar, noise: Option<ScanNoise>, toi: Pico, draw: Pico) -> Pico {
    match noise {
        Some(n) if n.sigma > 0 => clamped(
            clip(toi + clip(muldiv(n.sigma as int, draw as int, UNIT as int))) as int,
            lidar.range.0 as int,
            lidar.range.1 as int,
        ) as Pico,
        _ => toi,
    }
}

/// What a beam returns: nothing where it meets nothing, or something out of
/// the measuring band.
pub open spec fn beam_return(lidar: Lidar, noise: Option<ScanNoise>, hit: Return, draw: Pico) -> (
    Pico,
    Option<Seq<char>>,
) {
    match hit {
        Some((toi, name)) if lidar.range.0 <= toi <= lidar.range.1 => (
            reported(lidar, noise, toi, draw),
            Some(name),
        ),
        _ => (0, None),
    }
}

/// How many beams a sweep has.
pub open spec fn beam_count(lidar: Lidar) -> nat {
    (ring_count(lidar) * ring_beams(lidar)) as nat
}

/// A sweep.
pub open spec fn swept(
    scene: Scene,
    lidar: Lidar,
    active: Seq<bool>,
    hidden: Option<(usize, usize)>,
    reply: SweepReply,
    t: Option<Pico>,
    noise: Option<ScanNoise>,
) -> ScanView {
    let beams = ring_beams(lidar);
    let n = beam_count(lidar);
    ScanView {
        angles: Seq::new(n, |i: int| beam_angle(lidar, i % beams)),
        elevations: Seq::new(n, |i: int| ring_elevation(lidar, i / beams)),
        ranges: Seq::new(
            n,
            |i: int|
                beam_return(
                    lidar,
                    noise,
                    met(scene, lidar, active, hidden, reply, i),
                    reply.draws@[i].1,
                ).0,
        ),
        hits: Seq::new(
            n,
            |i: int|
                beam_return(
                    lidar,
                    noise,
                    met(scene, lidar, active, hidden, reply, i),
                    reply.draws@[i].1,
                ).1,
        ),
        pose: reply.frame,
        t,
    }
}

/// A reply that speaks of every beam, body and link.
pub open spec fn sweep_answered(
    scene: Scene,
    lidar: Lidar,
    reply: SweepReply,
    noise: Option<ScanNoise>,
) -> bool {
    let n = beam_count(lidar);
    &&& reply.boxes@.len() == scene.obstacles@.len()
    &&& reply.bodies@.len() == n
    &&& forall|i: int| 0 <= i < n ==> (#[trigger] reply.bodies@[i])@.len()
        == scene.obstacles@.len()
    &&& reply.links@.len() == n
    &&& forall|i: int| 0 <= i < n ==> links_answered(scene.robots@, (#[trigger] reply.links@[i])@)
    &&& reply.draws@.len() == n
    &&& noise matches Some(noise) ==> noise.sigma > 0 ==> forall|i: int|
        0 <= i < n ==> (#[trigger] reply.draws@[i]).0 == noise_key_of(
            noise.seed,
            i as u64,
            reply.instant,
        )
}

/// A reply that speaks of every link.
pub open spec fn links_answered(robots: Seq<Robot>, tois: Seq<Vec<Option<Pico>>>) -> bool {
    tois.len() == robots.len() && forall|r: int|
        0 <= r < tois.len() ==> (#[trigger] tois[r])@.len() == robots[r].links@.len()
}

/// The view of a return.
pub open spec fn return_view(best: Option<(Pico, String)>) -> Return {
    match best {
        Some((d, name)) => Some((d, name@)),
        None => None,
    }
}

fn is_nearer(best: &Option<(Pico, String)>, d: Pico) -> (r: bool)
    ensures
        r == !(best matches Some((b, _)) && b <= d),
{
    match best {
        Some((b, _)) => *b > d,
        None => true,
    }
}

fn cast(
    scene: &Scene,
    active: &Vec<bool>,
    hidden: Option<(usize, usize)>,
    bodies: &Vec<Option<Pico>>,
    links: &Vec<Vec<Option<Pico>>>,
) -> (r: Option<(Pico, String)>)
    requires
        active@.len() == scene.obstacles@.len(),
        bodies@.len() == scene.obstacles@.len(),
        links_answered(scene.robots@, links@),
    ensures
        return_view(r) == nearest_robot(
            nearest_body(scene.obstacles@, active@, bodies@, scene.obstacles@.len()),
            scene.robots@,
            hidden,
            links@,
            scene.robots@.len(),
        ),
{
    let mut best: Option<(Pico, String)> = None;
    let mut n: usize = 0;
    while n < scene.obstacles.len()
        invariant
            n <= scene.obstacles.len(),
            active@.len() == scene.obstacles@.len(),
            bodies@.len() == scene.obstacles@.len(),
            return_view(best) == nearest_body(scene.obstacles@, active@, bodies@, n as nat),
        decreases scene.obstacles.len() - n,
    {
        if active[n] {
            match bodies[n] {
                Some(d) => {
                    if is_nearer(&best, d) {
                        best = Some((d, scene.obstacles[n].name.clone()));
                    }
                },
                None => {},
            }
        }
        n = n + 1;
    }
    let ghost start = return_view(best);
    let mut r: usize = 0;
    while r < scene.robots.len()
        invariant
            r <= scene.robots.len(),
            links_answered(scene.robots@, links@),
            return_view(best) == nearest_robot(start, scene.robots@, hidden, links@, r as nat),
        decreases scene.robots.len() - r,
    {
        let ghost before = return_view(best);
        let robot: &Robot = &scene.robots[r];
        assert(links@[r as int]@.len() == robot.links@.len());
        let mut l: usize = 0;
        while l < robot.links.len()
            invariant
                l <= robot.links.len(),
                r < links@.len(),
                *robot == scene.robots@[r as int],
                links@[r as int]@.len() == robot.links@.len(),
                return_view(best) == nearest_link(
                    before,
                    *robot,
                    r as int,
                    hidden,
                    links@[r as int]@,
                    l as nat,
                ),
            decreases robot.links.len() - l,
        {
            let own: bool = match hidden {
                Some((hr, hl)) => hr == r && hl == l,
                None => false,
            };
            if !own {
                match links[r][l] {
                    Some(d) => {
                        if is_nearer(&best, d) {
                            best = Some(
                                (d, cat3(robot.name.as_str(), "/", robot.links[l].as_str())),
                            );
                        }
                    },
                    None => {},
                }
            }
            l = l + 1;
        }
        r = r + 1;
    }
    best
}

fn report(lidar: &Lidar, noise: Option<ScanNoise>, toi: Pico, draw: Pico) -> (r: Pico)
    requires
        lidar.range.0 <= lidar.range.1,
    ensures
        r == reported(*lidar, noise, toi, draw),
{
    match noise {
        Some(n) => if n.sigma > 0 {
            clamp(plus(toi, scaled(n.sigma, draw, UNIT as i128)), lidar.range.0, lidar.range.1)
        } else {
            toi
        },
        None => toi,
    }
}

fn angle_of(lidar: &Lidar, i: usize) -> (r: Pico)
    requires
        sweepable(*lidar),
        i <= sweep_steps(*lidar),
    ensures
        r == beam_angle(*lidar, i as int),
{
    let n: i128 = floor_div(
        2 * lidar.fov_deg as i128 + lidar.resolution_deg as i128,
        2 * lidar.resolution_deg as i128,
    );
    let steps: i128 = if n < 1 {
        1
    } else {
        n
    };
    assert(0 <= lidar.fov_deg * i <= i64::MAX * u64::MAX) by (nonlinear_arith)
        requires
            0 <= lidar.fov_deg <= i64::MAX,
            0 <= i <= u64::MAX,
    ;
    let along: i128 = floor_div(lidar.fov_deg as i128 * i as i128, steps);
    assert(0 <= along <= lidar.fov_deg) by {
        assert(lidar.fov_deg * i <= lidar.fov_deg * steps) by (nonlinear_arith)
            requires
                i <= steps,
                0 <= lidar.fov_deg,
        ;
        vstd::arithmetic::div_mod::lemma_div_is_ordered(
            lidar.fov_deg * i,
            lidar.fov_deg * steps,
            steps as int,
        );
        vstd::arithmetic::div_mod::lemma_div_multiples_vanish(
            lidar.fov_deg as int,
            steps as int,
        );
        vstd::arithmetic::div_mod::lemma_div_pos_is_pos(lidar.fov_deg * i, steps as int);
        assert(steps * lidar.fov_deg == lidar.fov_deg * steps) by (nonlinear_arith);
    }
    clipped(along - floor_div(lidar.fov_deg as i128, 2))
}

fn elevation_of(lidar: &Lidar, c: usize) -> (r: Pico)
    requires
        sweepable(*lidar),
        c < ring_count(*lidar),
    ensures
        r == ring_elevation(*lidar, c as int),
{
    if lidar.channels <= 1 {
        return 0;
    }
    assert(0 <= lidar.vfov_deg * c <= i64::MAX * u32::MAX) by (nonlinear_arith)
        requires
            0 <= lidar.vfov_deg <= i64::MAX,
            0 <= c <= u32::MAX,
    ;
    let along: i128 = floor_div(lidar.vfov_deg as i128 * c as i128, (lidar.channels - 1) as i128);
    assert(0 <= along <= lidar.vfov_deg * c) by (nonlinear_arith)
        requires
            along == (lidar.vfov_deg * c) / (lidar.channels - 1),
            lidar.channels >= 2,
            0 <= lidar.vfov_deg * c,
    ;
    clipped(along - floor_div(lidar.vfov_deg as i128, 2))
}

/// The beam loop over one resolved instant.
pub fn sweep(
    scene: &Scene,
    lidar: &Lidar,
    active: &Vec<bool>,
    hidden: Option<(usize, usize)>,
    reply: &SweepReply,
    t: Option<Pico>,
    noise: Option<ScanNoise>,
) -> (r: LidarScan)
    requires
        sweepable(*lidar),
        active@.len() == scene.obstacles@.len(),
        sweep_answered(*scene, *lidar, *reply, noise),
    ensures
        r@ == swept(*scene, *lidar, active@, hidden, *reply, t, noise),
{
    let ghost want = swept(*scene, *lidar, active@, hidden, *reply, t, noise);
    let (rings, beams): (usize, usize) = beam_grid(lidar);
    let near: Vec<bool> = pick_candidates(active, lidar, reply);
    let ghost total = beam_count(*lidar);
    let mut angles: Vec<Pico> = Vec::new();
    let mut elevations: Vec<Pico> = Vec::new();
    let mut ranges: Vec<Pico> = Vec::new();
    let mut hits: Vec<Option<String>> = Vec::new();
    assert(hit_names(hits@) =~= want.hits.take(0));
    let mut c: usize = 0;
    while c < rings
        invariant
            c <= rings,
            rings == ring_count(*lidar),
            beams == ring_beams(*lidar),
            beams >= 1,
            total == beam_count(*lidar),
            total == rings * beams,
            total <= usize::MAX,
            sweepable(*lidar),
            near@ == candidates(active@, *lidar, *reply),
            active@.len() == scene.obstacles@.len(),
            sweep_answered(*scene, *lidar, *reply, noise),
            want == swept(*scene, *lidar, active@, hidden, *reply, t, noise),
            ranges@.len() == c * beams,
            angles@ == want.angles.take(c * beams),
            elevations@ == want.elevations.take(c * beams),
            ranges@ == want.ranges.take(c * beams),
            hit_names(hits@) == want.hits.take(c * beams),
        decreases rings - c,
    {
        let elevation: Pico = elevation_of(lidar, c);
        let mut i: usize = 0;
        while i < beams
            invariant
                i <= beams,
                c < rings,
                rings == ring_count(*lidar),
                beams == ring_beams(*lidar),
                beams >= 1,
                total == beam_count(*lidar),
                total == rings * beams,
                total <= usize::MAX,
                sweepable(*lidar),
                elevation == ring_elevation(*lidar, c as int),
                near@ == candidates(active@, *lidar, *reply),
                active@.len() == scene.obstacles@.len(),
                sweep_answered(*scene, *lidar, *reply, noise),
                want == swept(*scene, *lidar, active@, hidden, *reply, t, noise),
                ranges@.len() == c * beams + i,
                angles@ == want.angles.take(c * beams + i),
                elevations@ == want.elevations.take(c * beams + i),
                ranges@ == want.ranges.take(c * beams + i),
                hit_names(hits@) == want.hits.take(c * beams + i),
            decreases beams - i,
        {
            let ghost k = c * beams + i;
            assert(k < total) by (nonlinear_arith)
                requires
                    k == c * beams + i,
                    total == rings * beams,
                    i < beams,
                    c < rings,
            ;
            assert(k / (beams as int) == c && k % (beams as int) == i) by {
                vstd::arithmetic::div_mod::lemma_fundamental_div_mod_converse(
                    k,
                    beams as int,
                    c as int,
                    i as int,
                );
            }
            let beam: usize = ranges.len();
            assert(reply.bodies@[beam as int]@.len() == scene.obstacles@.len());
            assert(links_answered(scene.robots@, reply.links@[beam as int]@));
            let best: Option<(Pico, String)> = cast(
                scene,
                &near,
                hidden,
                &reply.bodies[beam],
                &reply.links[beam],
            );
            angles.push(angle_of(lidar, i));
            elevations.push(elevation);
            let ghost named = hit_names(hits@);
            match best {
                Some((toi, name)) => {
                    if lidar.range.0 <= toi && toi <= lidar.range.1 {
                        ranges.push(report(lidar, noise, toi, reply.draws[beam].1));
                        hits.push(Some(name));
                    } else {
                        ranges.push(0);
                        hits.push(None);
                    }
                },
                None => {
                    ranges.push(0);
                    hits.push(None);
                },
            }
            assert(hit_names(hits@) =~= named.push(want.hits[k]));
            i = i + 1;
            assert(angles@ =~= want.angles.take(c * beams + i));
            assert(elevations@ =~= want.elevations.take(c * beams + i));
            assert(ranges@ =~= want.ranges.take(c * beams + i));
            assert(hit_names(hits@) =~= want.hits.take(c * beams + i));
        }
        assert(c * beams + beams == (c + 1) * beams) by (nonlinear_arith);
        c = c + 1;
    }
    let scan: LidarScan = LidarScan { angles, elevations, ranges, hits, pose: reply.frame, t };
    assert(scan@ =~= want);
    scan
}

/// Where the beams of a sweep point, ring by ring: angle and elevation.
pub open spec fn beam_directions(lidar: Lidar) -> Seq<(Pico, Pico)> {
    let beams = ring_beams(lidar);
    Seq::new(
        beam_count(lidar),
        |i: int| (beam_angle(lidar, i % beams), ring_elevation(lidar, i / beams)),
    )
}

/// Where the beams of a sweep point, in their order: angle and elevation.
pub fn beam_angles(lidar: &Lidar) -> (r: Vec<(Pico, Pico)>)
    requires
        sweepable(*lidar),
    ensures
        r@ == beam_directions(*lidar),
{
    let ghost want = beam_directions(*lidar);
    let (rings, beams): (usize, usize) = beam_grid(lidar);
    let ghost total = beam_count(*lidar);
    let mut out: Vec<(Pico, Pico)> = Vec::new();
    let mut c: usize = 0;
    while c < rings
        invariant
            c <= rings,
            rings == ring_count(*lidar),
            beams == ring_beams(*lidar),
            beams >= 1,
            total == beam_count(*lidar),
            total == rings * beams,
            sweepable(*lidar),
            want == beam_directions(*lidar),
            out@ == want.take(c * beams),
        decreases rings - c,
    {
        let elevation: Pico = elevation_of(lidar, c);
        let mut i: usize = 0;
        while i < beams
            invariant
                i <= beams,
                c < rings,
                rings == ring_count(*lidar),
                beams == ring_beams(*lidar),
                beams >= 1,
                total == beam_count(*lidar),
                total == rings * beams,
                sweepable(*lidar),
                elevation == ring_elevation(*lidar, c as int),
                want == beam_directions(*lidar),
                out@ == want.take(c * beams + i),
            decreases beams - i,
        {
            let ghost k = c * beams + i;
            assert(k < total) by (nonlinear_arith)
                requires
                    k == c * beams + i,
                    total == rings * beams,
                    i < beams,
                    c < rings,
            ;
            assert(k / (beams as int) == c && k % (beams as int) == i) by {
                vstd::arithmetic::div_mod::lemma_fundamental_div_mod_converse(
                    k,
                    beams as int,
                    c as int,
                    i as int,
                );
            }
            out.push((angle_of(lidar, i), elevation));
            i = i + 1;
            assert(out@ =~= want.take(c * beams + i));
        }
        assert(c * beams + beams == (c + 1) * beams) by (nonlinear_arith);
        c = c + 1;
    }
    assert(out@ =~= want);
    out
}

/// The noise keys of a sweep's beams, in their order.
pub fn noise_keys(lidar: &Lidar, noise: ScanNoise, instant: u64) -> (r: Vec<u64>)
    requires
        sweepable(*lidar),
    ensures
        r@ == Seq::new(
            beam_count(*lidar),
            |i: int| noise_key_of(noise.seed, i as u64, instant),
        ),
{
    let ghost want = Seq::new(
        beam_count(*lidar),
        |i: int| noise_key_of(noise.seed, i as u64, instant),
    );
    let (rings, beams): (usize, usize) = beam_grid(lidar);
    assert(ring_beams(*lidar) * ring_count(*lidar) == ring_count(*lidar) * ring_beams(*lidar))
        by (nonlinear_arith);
    let total: usize = rings * beams;
    let mut out: Vec<u64> = Vec::new();
    let mut i: usize = 0;
    while i < total
        invariant
            i <= total,
            want == Seq::new(
                beam_count(*lidar),
                |i: int| noise_key_of(noise.seed, i as u64, instant),
            ),
            total == beam_count(*lidar),
            out@ == want.take(i as int),
        decreases total - i,
    {
        out.push(noise_key(noise.seed, i as u64, instant));
        i = i + 1;
        assert(out@ =~= want.take(i as int));
    }
    assert(out@ =~= want);
    out
}

/// What came of working out where a sweep's bodies and beams are: or what the
/// kinematics of a robot refused.
#[derive(Debug)]
pub enum SweepAnswer {
    Swept(SweepReply),
    Refused { robot: usize, message: String },
}

/// Sweeps the named scanner as the scene stands: a parked vehicle, the current
/// joints. Each beam returns the nearest hit within the measuring band.
pub fn lidar_scan(scene: &Scene, name: &str, noise: Option<ScanNoise>, reply: &SweepReply) -> (r:
    Result<LidarScan, SceneError>)
    requires
        find(names_of(scene.lidars@), name@) matches Some(k) ==> {
            &&& sweepable(scene.lidars@[k])
            &&& sweep_answered(*scene, scene.lidars@[k], *reply, noise)
            &&& reply.instant == 0
        },
    ensures
        match find(names_of(scene.lidars@), name@) {
            Some(k) => r matches Ok(scan) && scan@ == swept(
                *scene,
                scene.lidars@[k],
                active_bodies(*scene, scene.lidars@[k], None),
                excluded(*scene, scene.lidars@[k]).1,
                *reply,
                None,
                noise,
            ),
            None => r matches Err(e) && e@ == SceneErrorView::UnknownLidar(name@),
        },
{
    match find_named(&scene.lidars, name) {
        Some(k) => {
            let lidar: &Lidar = &scene.lidars[k];
            let (_, hidden): (Vec<usize>, Option<(usize, usize)>) = mount_exclusions(scene, lidar);
            let active: Vec<bool> = scan_bodies(scene, lidar, None);
            Ok(sweep(scene, lidar, &active, hidden, reply, None, noise))
        },
        None => Err(SceneError::UnknownLidar(String::from_str(name))),
    }
}

/// Whether a robot's base was baked at `t`.
pub open spec fn base_baked(timeline: SequenceTimeline, r: int, t: Pico) -> bool {
    match timeline.robots@[r].base {
        Some(spans) => span_for(spans@, t as int) is Some,
        None => false,
    }
}

/// The instant a sweep is taken at: within the cycle.
pub open spec fn scan_instant(timeline: SequenceTimeline, t: Pico) -> Pico {
    clamped(t as int, 0, timeline.duration as int) as Pico
}

/// What a sweep at `t` of a cycle comes to.
pub open spec fn scanned_at(
    scene: Scene,
    timeline: SequenceTimeline,
    name: Seq<char>,
    t: Pico,
    noise: Option<ScanNoise>,
    answer: SweepAnswer,
) -> Result<ScanView, SceneErrorView> {
    let at = scan_instant(timeline, t);
    match find(names_of(scene.lidars@), name) {
        Some(k) => match answer {
            SweepAnswer::Swept(reply) => Ok(
                swept(
                    scene,
                    scene.lidars@[k],
                    active_bodies(scene, scene.lidars@[k], Some((timeline, at))),
                    excluded(scene, scene.lidars@[k]).1,
                    reply,
                    Some(at),
                    noise,
                ),
            ),
            SweepAnswer::Refused { robot, message } => Err(
                if base_baked(timeline, robot as int, at) {
                    SceneErrorView::BadLidar(
                        "scan at t="@ + plain(at as int) + ": "@ + message@,
                    )
                } else {
                    SceneErrorView::Kinematics(message@)
                },
            ),
        },
        None => Err(SceneErrorView::UnknownLidar(name)),
    }
}

/// An answer that fits the sweep.
pub open spec fn answer_fits(
    scene: Scene,
    timeline: SequenceTimeline,
    name: Seq<char>,
    noise: Option<ScanNoise>,
    answer: SweepAnswer,
) -> bool {
    find(names_of(scene.lidars@), name) matches Some(k) ==> {
        &&& sweepable(scene.lidars@[k])
        &&& match answer {
            SweepAnswer::Swept(reply) => sweep_answered(scene, scene.lidars@[k], reply, noise),
            SweepAnswer::Refused { robot, .. } => robot < timeline.robots@.len(),
        }
    }
}

/// The view of a scan's result.
pub open spec fn scan_view(r: Result<LidarScan, SceneError>) -> Result<ScanView, SceneErrorView> {
    match r {
        Ok(scan) => Ok(scan@),
        Err(e) => Err(e@),
    }
}

/// Sweeps the named scanner at `t` of a baked cycle, clamped to the cycle. A
/// stowed body drops out of the sweep.
pub fn lidar_scan_at(
    scene: &Scene,
    timeline: &SequenceTimeline,
    name: &str,
    t: Pico,
    noise: Option<ScanNoise>,
    answer: &SweepAnswer,
) -> (r: Result<LidarScan, SceneError>)
    requires
        timeline.duration >= 0,
        answer_fits(*scene, *timeline, name@, noise, *answer),
    ensures
        scan_view(r) == scanned_at(*scene, *timeline, name@, t, noise, *answer),
{
    match find_named(&scene.lidars, name) {
        Some(k) => {
            let lidar: &Lidar = &scene.lidars[k];
            let at: Pico = clamp(t, 0, timeline.duration);
            match answer {
                SweepAnswer::Swept(reply) => {
                    let (_, hidden): (Vec<usize>, Option<(usize, usize)>) = mount_exclusions(
                        scene,
                        lidar,
                    );
                    let active: Vec<bool> = scan_bodies(scene, lidar, Some((timeline, at)));
                    Ok(sweep(scene, lidar, &active, hidden, reply, Some(at), noise))
                },
                SweepAnswer::Refused { robot, message } => {
                    let base: Option<Placement> = match &timeline.robots[*robot].base {
                        Some(spans) => SequenceTimeline::span_pose(spans, at),
                        None => None,
                    };
                    match base {
                        Some(_) => {
                            let mut text: String = cat3(
                                "scan at t=",
                                plain_text(at).as_str(),
                                ": ",
                            );
                            text.append(message.as_str());
                            Err(SceneError::BadLidar(text))
                        },
                        None => Err(SceneError::Kinematics(message.clone())),
                    }
                },
            }
        },
        None => Err(SceneError::UnknownLidar(String::from_str(name))),
    }
}

/// 10^24: the grid step of one frame per second, by the rate.
pub const SECOND_SQUARED: i128 = 1_000_000_000_000_000_000_000_000;

/// Instant `k` of the grid of `fps` frames per second.
pub open spec fn grid_instant(k: int, fps: Pico) -> int {
    (k * SECOND_SQUARED) / (fps as int)
}

/// How many frames come before the last.
pub open spec fn grid_frames(duration: Pico, fps: Pico) -> nat {
    if duration <= NANO {
        0
    } else {
        (((duration - NANO) * fps + (SECOND_SQUARED - 1)) / (SECOND_SQUARED as int)) as nat
    }
}

/// The instants of the export grid: steps of one frame, and the end.
pub open spec fn frame_instants(duration: Pico, fps: Pico) -> Seq<Pico> {
    let n = grid_frames(duration, fps);
    Seq::new(
        n + 1,
        |k: int|
            if k < n {
                grid_instant(k, fps) as Pico
            } else {
                duration
            },
    )
}

/// Grid instants before the last come before the end of the cycle, and the
/// grid leaves none of those out.
pub proof fn law_frames_fill_the_cycle(duration: Pico, fps: Pico, k: int)
    requires
        fps > 0,
        0 <= k,
    ensures
        k < grid_frames(duration, fps) <==> grid_instant(k, fps) < duration - NANO,
        frame_instants(duration, fps).last() == duration,
{
    let d = duration - NANO;
    let q = grid_instant(k, fps);
    let f = fps as int;
    assert(k * SECOND_SQUARED >= 0) by (nonlinear_arith)
        requires
            k >= 0,
    ;
    vstd::arithmetic::div_mod::lemma_fundamental_div_mod(k * SECOND_SQUARED, f);
    vstd::arithmetic::div_mod::lemma_div_pos_is_pos(k * SECOND_SQUARED, f);
    if d <= 0 {
        assert(q >= 0);
    } else {
        assert(q < d <==> k * SECOND_SQUARED < d * f) by (nonlinear_arith)
            requires
                k * SECOND_SQUARED == f * q + (k * SECOND_SQUARED) % f,
                0 <= (k * SECOND_SQUARED) % f < f,
                f > 0,
        ;
        let m = d * f + (SECOND_SQUARED - 1);
        assert(m >= 0) by (nonlinear_arith)
            requires
                m == d * f + (SECOND_SQUARED - 1),
                d > 0,
                f > 0,
                SECOND_SQUARED == 1_000_000_000_000_000_000_000_000,
        ;
        assert(k < m / (SECOND_SQUARED as int) <==> k * SECOND_SQUARED < d * f) by {
            vstd::arithmetic::div_mod::lemma_fundamental_div_mod(m, SECOND_SQUARED as int);
            let n = m / (SECOND_SQUARED as int);
            let rem = m % (SECOND_SQUARED as int);
            assert(m == 1_000_000_000_000_000_000_000_000 * n + rem);
            assert(d * f == 1_000_000_000_000_000_000_000_000 * n + rem
                - 999_999_999_999_999_999_999_999);
        }
    }
}

/// The instants of the export grid.
pub fn frame_times(duration: Pico, fps: Pico) -> (r: Vec<Pico>)
    requires
        fps > 0,
    ensures
        r@ == frame_instants(duration, fps),
{
    let ghost want = frame_instants(duration, fps);
    let mut out: Vec<Pico> = Vec::new();
    let mut k: i128 = 0;
    let count: i128 = if duration <= NANO {
        0
    } else {
        assert(0 < (duration - NANO) * fps <= 0x7FFF_FFFF_FFFF_FFFF * 0x7FFF_FFFF_FFFF_FFFF)
            by (nonlinear_arith)
            requires
                0 < duration - NANO <= 0x7FFF_FFFF_FFFF_FFFF,
                0 < fps <= 0x7FFF_FFFF_FFFF_FFFF,
        ;
        floor_div(
            (duration as i128 - NANO as i128) * fps as i128 + (SECOND_SQUARED - 1),
            SECOND_SQUARED,
        )
    };
    while k < count
        invariant
            0 <= k <= count,
            fps > 0,
            count == grid_frames(duration, fps),
            want == frame_instants(duration, fps),
            out@ == want.take(k as int),
            count <= 0x7FFF_FFFF_FFFF_FFFF,
        decreases count - k,
    {
        proof {
            law_frames_fill_the_cycle(duration, fps, k as int);
        }
        assert(0 <= k * SECOND_SQUARED < i128::MAX) by {
            let f = fps as int;
            vstd::arithmetic::div_mod::lemma_fundamental_div_mod(k * SECOND_SQUARED, f);
            assert(k * SECOND_SQUARED < duration * f) by (nonlinear_arith)
                requires
                    k * SECOND_SQUARED == f * grid_instant(k as int, fps) + (k * SECOND_SQUARED)
                        % f,
                    (k * SECOND_SQUARED) % f < f,
                    grid_instant(k as int, fps) < duration - NANO,
                    f > 0,
                    NANO == 1000,
            ;
            assert(duration * f <= 0x7FFF_FFFF_FFFF_FFFF * 0x7FFF_FFFF_FFFF_FFFF)
                by (nonlinear_arith)
                requires
                    0 <= duration <= 0x7FFF_FFFF_FFFF_FFFF,
                    0 < f <= 0x7FFF_FFFF_FFFF_FFFF,
            ;
        }
        let at: i128 = floor_div(k * SECOND_SQUARED, fps as i128);
        assert(0 <= at) by {
            vstd::arithmetic::div_mod::lemma_div_pos_is_pos(k * SECOND_SQUARED, fps as int);
        }
        out.push(at as Pico);
        k = k + 1;
        assert(out@ =~= want.take(k as int));
    }
    out.push(duration);
    assert(out@ =~= want);
    out
}

/// The sweeps at the first `n` of the given instants, or the first that
/// fails.
pub open spec fn all_scanned(
    scene: Scene,
    timeline: SequenceTimeline,
    name: Seq<char>,
    times: Seq<Pico>,
    noise: Option<ScanNoise>,
    answers: Seq<SweepAnswer>,
    n: nat,
) -> Result<Seq<ScanView>, SceneErrorView>
    decreases n,
{
    if n == 0 {
        Ok(Seq::empty())
    } else {
        match all_scanned(scene, timeline, name, times, noise, answers, (n - 1) as nat) {
            Ok(less) => match scanned_at(
                scene,
                timeline,
                name,
                times[n - 1],
                noise,
                answers[n - 1],
            ) {
                Ok(scan) => Ok(less.push(scan)),
                Err(e) => Err(e),
            },
            Err(e) => Err(e),
        }
    }
}

proof fn lemma_failed_stays(
    scene: Scene,
    timeline: SequenceTimeline,
    name: Seq<char>,
    times: Seq<Pico>,
    noise: Option<ScanNoise>,
    answers: Seq<SweepAnswer>,
    n: nat,
    m: nat,
)
    requires
        n <= m,
        all_scanned(scene, timeline, name, times, noise, answers, n) is Err,
    ensures
        all_scanned(scene, timeline, name, times, noise, answers, m) == all_scanned(
            scene,
            timeline,
            name,
            times,
            noise,
            answers,
            n,
        ),
    decreases m - n,
{
    if n < m {
        lemma_failed_stays(scene, timeline, name, times, noise, answers, n, (m - 1) as nat);
    }
}

/// One sweep per frame of the export grid, over the whole cycle.
pub fn scan_sweep(
    scene: &Scene,
    timeline: &SequenceTimeline,
    name: &str,
    fps: Pico,
    noise: Option<ScanNoise>,
    answers: &Vec<SweepAnswer>,
) -> (r: Result<Vec<LidarScan>, SceneError>)
    requires
        timeline.duration >= 0,
        fps > 0 ==> answers@.len() == frame_instants(timeline.duration, fps).len(),
        forall|k: int|
            0 <= k < answers@.len() ==> answer_fits(
                *scene,
                *timeline,
                name@,
                noise,
                #[trigger] answers@[k],
            ),
    ensures
        (match r {
            Ok(scans) => Ok(views(scans@)),
            Err(e) => Err(e@),
        }) == (if fps <= 0 {
            Err(
                SceneErrorView::BadLidar(
                    "scan sweep: fps must be positive, got "@ + plain(fps as int),
                ),
            )
        } else {
            all_scanned(
                *scene,
                *timeline,
                name@,
                frame_instants(timeline.duration, fps),
                noise,
                answers@,
                answers@.len(),
            )
        }),
{
    if fps <= 0 {
        let mut text: String = String::from_str("scan sweep: fps must be positive, got ");
        text.append(plain_text(fps).as_str());
        return Err(SceneError::BadLidar(text));
    }
    let times: Vec<Pico> = frame_times(timeline.duration, fps);
    let mut out: Vec<LidarScan> = Vec::new();
    assert(views(out@) =~= Seq::<ScanView>::empty());
    let mut n: usize = 0;
    while n < times.len()
        invariant
            n <= times.len(),
            fps > 0,
            times@ == frame_instants(timeline.duration, fps),
            timeline.duration >= 0,
            answers@.len() == times@.len(),
            forall|k: int|
                0 <= k < answers@.len() ==> answer_fits(
                    *scene,
                    *timeline,
                    name@,
                    noise,
                    #[trigger] answers@[k],
                ),
            all_scanned(
                *scene,
                *timeline,
                name@,
                times@,
                noise,
                answers@,
                n as nat,
            ) == Ok::<_, SceneErrorView>(views(out@)),
        decreases times.len() - n,
    {
        let ghost before = views(out@);
        match lidar_scan_at(scene, timeline, name, times[n], noise, &answers[n]) {
            Ok(scan) => {
                out.push(scan);
                assert(views(out@) =~= before.push(scan@));
            },
            Err(e) => {
                proof {
                    lemma_failed_stays(
                        *scene,
                        *timeline,
                        name@,
                        times@,
                        noise,
                        answers@,
                        (n + 1) as nat,
                        answers@.len(),
                    );
                }
                return Err(e);
            },
        }
        n = n + 1;
    }
    Ok(out)
}

/// Whether two replies speak of the same geometry; what they draw for noise may
/// differ.
pub open spec fn same_geometry(a: SweepReply, b: SweepReply) -> bool {
    a.frame == b.frame && a.boxes == b.boxes && a.bodies == b.bodies && a.links == b.links
}

/// A scan `b` that differs from `a` in its distances at most. A beam of `a` without
/// a return has none in `b`, and one with a return reports a distance within the
/// measuring band; with no spread the distances are the same too.
pub open spec fn distances_differ(a: ScanView, b: ScanView, lidar: Lidar, noise: ScanNoise) -> bool {
    &&& b.angles == a.angles
    &&& b.elevations == a.elevations
    &&& b.hits == a.hits
    &&& b.pose == a.pose
    &&& b.t == a.t
    &&& b.ranges.len() == a.ranges.len()
    &&& forall|i: int|
        0 <= i < a.ranges.len() ==> if (#[trigger] a.ranges[i]) == 0 {
            b.ranges[i] == 0
        } else {
            lidar.range.0 <= b.ranges[i] <= lidar.range.1
        }
    &&& noise.sigma <= 0 ==> b.ranges == a.ranges
}

/// Whether a ray meets body `k`, one that takes part and comes within reach, at `d`.
pub open spec fn meets_body(near: Seq<bool>, tois: Seq<Option<Pico>>, k: int, d: Pico) -> bool {
    0 <= k < near.len() && near[k] && tois[k] == Some(d)
}

/// Whether a ray meets link `l` of robot `r`, one that is not the scanner's own
/// mount, at `d`.
pub open spec fn meets_link(
    robots: Seq<Robot>,
    hidden: Option<(usize, usize)>,
    tois: Seq<Vec<Option<Pico>>>,
    r: int,
    l: int,
    d: Pico,
) -> bool {
    &&& 0 <= r < robots.len()
    &&& 0 <= l < robots[r].links@.len()
    &&& !(hidden matches Some((hr, hl)) && hr == r && hl == l)
    &&& tois[r]@[l] == Some(d)
}

/// The links as they are listed, robot by robot: which comes before which.
pub open spec fn listed_before(r: int, l: int, s: int, m: int) -> bool {
    r < s || (r == s && l < m)
}

/// What a ray meets first, at `d`: no body and no link is met nearer; of bodies that
/// are met there the first that is listed, and of links the first of those where no
/// body is.
pub open spec fn first_met(
    scene: Scene,
    near: Seq<bool>,
    hidden: Option<(usize, usize)>,
    bodies: Seq<Option<Pico>>,
    links: Seq<Vec<Option<Pico>>>,
    d: Pico,
    name: Seq<char>,
) -> bool {
    &&& forall|k: int, e: Pico| #[trigger] meets_body(near, bodies, k, e) ==> d <= e
    &&& forall|r: int, l: int, e: Pico| #[trigger]
        meets_link(scene.robots@, hidden, links, r, l, e) ==> d <= e
    &&& (exists|k: int| #[trigger] first_body(scene, near, bodies, k, d, name)) || ((forall|k: int|
        !#[trigger] meets_body(near, bodies, k, d)) && exists|r: int, l: int| #[trigger]
        first_link(scene, hidden, links, r, l, d, name))
}

/// Body `k`, of that name, is the first that a ray meets at `d`.
pub open spec fn first_body(
    scene: Scene,
    near: Seq<bool>,
    bodies: Seq<Option<Pico>>,
    k: int,
    d: Pico,
    name: Seq<char>,
) -> bool {
    &&& meets_body(near, bodies, k, d)
    &&& name == scene.obstacles@[k].name@
    &&& forall|j: int| 0 <= j < k ==> !#[trigger] meets_body(near, bodies, j, d)
}

/// Link `l` of robot `r`, of that name, is the first that a ray meets at `d`.
pub open spec fn first_link(
    scene: Scene,
    hidden: Option<(usize, usize)>,
    links: Seq<Vec<Option<Pico>>>,
    r: int,
    l: int,
    d: Pico,
    name: Seq<char>,
) -> bool {
    &&& meets_link(scene.robots@, hidden, links, r, l, d)
    &&& name == scene.robots@[r].name@ + "/"@ + scene.robots@[r].links@[l]@
    &&& forall|s: int, m: int|
        listed_before(s, m, r, l) ==> !#[trigger] meets_link(
            scene.robots@,
            hidden,
            links,
            s,
            m,
            d,
        )
}

/// Every beam of a sweep returns what its ray meets first, of the bodies that take
/// part and come within reach and of the links that are not the mount's own: it names
/// that, and without noise reports how far it is. Where that lies out of the
/// measuring band, or the ray meets nothing, there is no return. `near` says which
/// bodies take part and come within reach.
pub proof fn law_a_beam_returns_the_nearest_hit(
    scene: Scene,
    lidar: Lidar,
    active: Seq<bool>,
    hidden: Option<(usize, usize)>,
    reply: SweepReply,
    t: Option<Pico>,
    noise: Option<ScanNoise>,
    near: Seq<bool>,
    i: int,
    d: Pico,
    name: Seq<char>,
)
    requires
        sweepable(lidar),
        near.len() == active.len(),
        forall|k: int|
            0 <= k < near.len() ==> (#[trigger] near[k]) == (active[k] && in_reach(
                reply.frame.at,
                reply.boxes@[k],
                lidar.range.1,
            )),
        active.len() == scene.obstacles@.len(),
        sweep_answered(scene, lidar, reply, noise),
        0 <= i < beam_count(lidar),
    ensures
        first_met(scene, near, hidden, reply.bodies@[i]@, reply.links@[i]@, d, name) ==> {
            let scan = swept(scene, lidar, active, hidden, reply, t, noise);
            if lidar.range.0 <= d <= lidar.range.1 {
                scan.hits[i] == Some(name) && (noise is None ==> scan.ranges[i] == d)
            } else {
                scan.hits[i] is None && scan.ranges[i] == 0
            }
        },
        swept(scene, lidar, active, hidden, reply, t, noise).hits[i] matches Some(hit) ==> exists|
            e: Pico,
        | #[trigger]
            first_met(scene, near, hidden, reply.bodies@[i]@, reply.links@[i]@, e, hit),
        (forall|k: int, e: Pico| !#[trigger] meets_body(near, reply.bodies@[i]@, k, e)) && (forall|
            r: int,
            l: int,
            e: Pico,
        | !#[trigger] meets_link(scene.robots@, hidden, reply.links@[i]@, r, l, e)) ==> {
            let scan = swept(scene, lidar, active, hidden, reply, t, noise);
            scan.hits[i] is None && scan.ranges[i] == 0
        },
{
    let bodies = reply.bodies@[i]@;
    let links = reply.links@[i]@;
    assert(near =~= candidates(active, lidar, reply));
    lemma_met(scene, near, hidden, bodies, links);
    let hit = met(scene, lidar, active, hidden, reply, i);
    let scan = swept(scene, lidar, active, hidden, reply, t, noise);
    let back = beam_return(lidar, noise, hit, reply.draws@[i].1);
    assert(scan.hits[i] == back.1);
    assert(scan.ranges[i] == back.0);
    match hit {
        Some((e, other)) => {
            assert(first_met(scene, near, hidden, bodies, links, e, other));
            if exists|k: int| #[trigger] first_body(scene, near, bodies, k, e, other) {
                let k = choose|k: int| #[trigger] first_body(scene, near, bodies, k, e, other);
                assert(meets_body(near, bodies, k, e));
            } else {
                let (r, l) = choose|r: int, l: int| #[trigger]
                    first_link(scene, hidden, links, r, l, e, other);
                assert(meets_link(scene.robots@, hidden, links, r, l, e));
            }
        },
        None => {},
    }
    match scan.hits[i] {
        Some(h) => {
            let e = (hit->0).0;
            assert(h == (hit->0).1);
            assert(first_met(scene, near, hidden, reply.bodies@[i]@, reply.links@[i]@, e, h));
        },
        None => {},
    }
    if first_met(scene, near, hidden, bodies, links, d, name) {
        match hit {
            Some((e, other)) => {
                assert(first_met(scene, near, hidden, bodies, links, e, other));
                lemma_one_is_first(scene, near, hidden, bodies, links, d, name, e, other);
            },
            None => {
                if exists|k: int| #[trigger] first_body(scene, near, bodies, k, d, name) {
                    let k = choose|k: int| #[trigger] first_body(scene, near, bodies, k, d, name);
                    assert(meets_body(near, bodies, k, d));
                } else {
                    let (r, l) = choose|r: int, l: int| #[trigger]
                        first_link(scene, hidden, links, r, l, d, name);
                    assert(meets_link(scene.robots@, hidden, links, r, l, d));
                }
            },
        }
    }
}

/// No two things are met first.
proof fn lemma_one_is_first(
    scene: Scene,
    near: Seq<bool>,
    hidden: Option<(usize, usize)>,
    bodies: Seq<Option<Pico>>,
    links: Seq<Vec<Option<Pico>>>,
    d: Pico,
    name: Seq<char>,
    e: Pico,
    other: Seq<char>,
)
    requires
        first_met(scene, near, hidden, bodies, links, d, name),
        first_met(scene, near, hidden, bodies, links, e, other),
    ensures
        d == e,
        name == other,
{
    lemma_no_nearer(scene, near, hidden, bodies, links, d, name, e, other);
    lemma_no_nearer(scene, near, hidden, bodies, links, e, other, d, name);
    if exists|k: int| #[trigger] first_body(scene, near, bodies, k, d, name) {
        let k = choose|k: int| #[trigger] first_body(scene, near, bodies, k, d, name);
        assert(meets_body(near, bodies, k, e));
        let j = choose|j: int| #[trigger] first_body(scene, near, bodies, j, e, other);
        assert(first_body(scene, near, bodies, j, e, other));
        if j < k {
            assert(!meets_body(near, bodies, j, d));
        }
        if k < j {
            assert(!meets_body(near, bodies, k, e));
        }
    } else {
        let (r, l) = choose|r: int, l: int| #[trigger]
            first_link(scene, hidden, links, r, l, d, name);
        assert(first_link(scene, hidden, links, r, l, d, name));
        if exists|j: int| #[trigger] first_body(scene, near, bodies, j, e, other) {
            let j = choose|j: int| #[trigger] first_body(scene, near, bodies, j, e, other);
            assert(meets_body(near, bodies, j, d));
            assert(false);
        }
        let (s, m) = choose|s: int, m: int| #[trigger]
            first_link(scene, hidden, links, s, m, e, other);
        assert(first_link(scene, hidden, links, s, m, e, other));
        if listed_before(s, m, r, l) {
            assert(!meets_link(scene.robots@, hidden, links, s, m, d));
        }
        if listed_before(r, l, s, m) {
            assert(!meets_link(scene.robots@, hidden, links, r, l, e));
        }
    }
}

proof fn lemma_no_nearer(
    scene: Scene,
    near: Seq<bool>,
    hidden: Option<(usize, usize)>,
    bodies: Seq<Option<Pico>>,
    links: Seq<Vec<Option<Pico>>>,
    d: Pico,
    name: Seq<char>,
    e: Pico,
    other: Seq<char>,
)
    requires
        first_met(scene, near, hidden, bodies, links, d, name),
        first_met(scene, near, hidden, bodies, links, e, other),
    ensures
        d <= e,
{
    if exists|j: int| #[trigger] first_body(scene, near, bodies, j, e, other) {
        let j = choose|j: int| #[trigger] first_body(scene, near, bodies, j, e, other);
        assert(meets_body(near, bodies, j, e));
    } else {
        let (s, m) = choose|s: int, m: int| #[trigger]
            first_link(scene, hidden, links, s, m, e, other);
        assert(meets_link(scene.robots@, hidden, links, s, m, e));
    }
}

/// What the bodies and links of a beam come to is what its ray meets first.
proof fn lemma_met(
    scene: Scene,
    near: Seq<bool>,
    hidden: Option<(usize, usize)>,
    bodies: Seq<Option<Pico>>,
    links: Seq<Vec<Option<Pico>>>,
)
    requires
        near.len() == scene.obstacles@.len(),
        links_answered(scene.robots@, links),
    ensures
        ({
            let hit = nearest_robot(
                nearest_body(scene.obstacles@, near, bodies, scene.obstacles@.len()),
                scene.robots@,
                hidden,
                links,
                scene.robots@.len(),
            );
            match hit {
                Some((d, name)) => first_met(scene, near, hidden, bodies, links, d, name),
                None => (forall|k: int, e: Pico| !#[trigger] meets_body(near, bodies, k, e)) && (
                forall|r: int, l: int, e: Pico| !#[trigger]
                    meets_link(scene.robots@, hidden, links, r, l, e)),
            }
        }),
{
    let n = scene.obstacles@.len();
    let start = nearest_body(scene.obstacles@, near, bodies, n);
    lemma_nearest_body(scene, near, bodies, n);
    lemma_nearest_robot(scene, start, hidden, links, scene.robots@.len());
    let hit = nearest_robot(start, scene.robots@, hidden, links, scene.robots@.len());
    match hit {
        Some((d, name)) => {
            assert forall|k: int, e: Pico| #[trigger] meets_body(near, bodies, k, e) implies d
                <= e by {
                assert(start is Some);
            }
            if start == Some((d, name)) {
                let k = choose|k: int| #[trigger] first_body(scene, near, bodies, k, d, name);
                assert(first_body(scene, near, bodies, k, d, name));
            } else {
                assert forall|k: int| !#[trigger] meets_body(near, bodies, k, d) by {}
            }
        },
        None => {},
    }
}

proof fn lemma_nearest_body(scene: Scene, near: Seq<bool>, bodies: Seq<Option<Pico>>, n: nat)
    requires
        n <= near.len() <= scene.obstacles@.len(),
    ensures
        match nearest_body(scene.obstacles@, near, bodies, n) {
            Some((d, name)) => (exists|k: int|
                0 <= k < n && #[trigger] first_body(scene, near, bodies, k, d, name)) && (forall|
                k: int,
                e: Pico,
            | 0 <= k < n && #[trigger] meets_body(near, bodies, k, e) ==> d <= e),
            None => forall|k: int, e: Pico|
                0 <= k < n ==> !#[trigger] meets_body(near, bodies, k, e),
        },
    decreases n,
{
    if n > 0 {
        let m = (n - 1) as nat;
        lemma_nearest_body(scene, near, bodies, m);
        let less = nearest_body(scene.obstacles@, near, bodies, m);
        let all = nearest_body(scene.obstacles@, near, bodies, n);
        if near[n - 1] && bodies[n - 1] is Some {
            let d = bodies[n - 1]->0;
            assert(meets_body(near, bodies, n - 1, d));
            if all != less {
                assert forall|j: int| 0 <= j < n - 1 implies !#[trigger] meets_body(
                    near,
                    bodies,
                    j,
                    d,
                ) by {}
                assert(first_body(
                    scene,
                    near,
                    bodies,
                    n - 1,
                    d,
                    scene.obstacles@[n - 1].name@,
                ));
            }
        }
        match less {
            Some((d, name)) => {
                let k = choose|k: int|
                    0 <= k < m && #[trigger] first_body(scene, near, bodies, k, d, name);
                assert(0 <= k < n && first_body(scene, near, bodies, k, d, name));
            },
            None => {},
        }
        assert forall|k: int, e: Pico|
            0 <= k < n && #[trigger] meets_body(near, bodies, k, e) implies (all matches Some((d, _))
            && d <= e) by {
            if k < n - 1 {
                assert(less is Some);
            }
        }
        match all {
            Some((d, name)) => {
                if all == less {
                    let k = choose|k: int|
                        0 <= k < m && #[trigger] first_body(scene, near, bodies, k, d, name);
                    assert(0 <= k < n && first_body(scene, near, bodies, k, d, name));
                } else {
                    assert(0 <= n - 1 < n && first_body(scene, near, bodies, n - 1, d, name));
                }
            },
            None => {
                assert forall|k: int, e: Pico|
                    0 <= k < n implies !#[trigger] meets_body(near, bodies, k, e) by {}
            },
        }
    }
}

/// The nearest of a start and of the links up to link `n` of robot `r`.
spec fn nearest_so_far(
    scene: Scene,
    start: Return,
    hidden: Option<(usize, usize)>,
    links: Seq<Vec<Option<Pico>>>,
    hit: Return,
    r: int,
    n: int,
) -> bool {
    match hit {
        Some((d, name)) => {
            &&& start matches Some((b, _)) ==> d <= b
            &&& forall|s: int, m: int, e: Pico|
                listed_before(s, m, r, n) && #[trigger] meets_link(
                    scene.robots@,
                    hidden,
                    links,
                    s,
                    m,
                    e,
                ) ==> d <= e
            &&& start == Some((d, name)) || ((start matches Some((b, _)) ==> d < b) && exists|
                s: int,
                m: int,
            |
                listed_before(s, m, r, n) && #[trigger] first_link(
                    scene,
                    hidden,
                    links,
                    s,
                    m,
                    d,
                    name,
                ))
        },
        None => {
            &&& start is None
            &&& forall|s: int, m: int, e: Pico|
                listed_before(s, m, r, n) ==> !#[trigger] meets_link(
                    scene.robots@,
                    hidden,
                    links,
                    s,
                    m,
                    e,
                )
        },
    }
}

proof fn lemma_nearest_robot(
    scene: Scene,
    start: Return,
    hidden: Option<(usize, usize)>,
    links: Seq<Vec<Option<Pico>>>,
    n: nat,
)
    requires
        n <= scene.robots@.len(),
        links_answered(scene.robots@, links),
    ensures
        nearest_so_far(
            scene,
            start,
            hidden,
            links,
            nearest_robot(start, scene.robots@, hidden, links, n),
            n as int,
            0,
        ),
    decreases n,
{
    if n > 0 {
        let m = (n - 1) as nat;
        lemma_nearest_robot(scene, start, hidden, links, m);
        let before = nearest_robot(start, scene.robots@, hidden, links, m);
        let len = scene.robots@[m as int].links@.len();
        lemma_nearest_link(scene, start, hidden, links, before, m as int, len);
        let hit = nearest_robot(start, scene.robots@, hidden, links, n);
        assert(nearest_so_far(scene, start, hidden, links, hit, m as int, len as int));
        assert forall|s: int, k: int, e: Pico|
            listed_before(s, k, n as int, 0) && #[trigger] meets_link(
                scene.robots@,
                hidden,
                links,
                s,
                k,
                e,
            ) implies listed_before(s, k, m as int, len as int) by {}
        match hit {
            Some((d, name)) => {
                if start != Some((d, name)) {
                    let (s, k) = choose|s: int, k: int|
                        listed_before(s, k, m as int, len as int) && #[trigger] first_link(
                            scene,
                            hidden,
                            links,
                            s,
                            k,
                            d,
                            name,
                        );
                    assert(first_link(scene, hidden, links, s, k, d, name));
                    assert(meets_link(scene.robots@, hidden, links, s, k, d));
                    assert(listed_before(s, k, n as int, 0));
                }
            },
            None => {},
        }
    } else {
        assert forall|s: int, k: int, e: Pico|
            listed_before(s, k, 0, 0) implies !#[trigger] meets_link(
            scene.robots@,
            hidden,
            links,
            s,
            k,
            e,
        ) by {}
    }
}

proof fn lemma_nearest_link(
    scene: Scene,
    start: Return,
    hidden: Option<(usize, usize)>,
    links: Seq<Vec<Option<Pico>>>,
    before: Return,
    r: int,
    n: nat,
)
    requires
        0 <= r < scene.robots@.len(),
        links_answered(scene.robots@, links),
        n <= scene.robots@[r].links@.len(),
        nearest_so_far(scene, start, hidden, links, before, r, 0),
    ensures
        nearest_so_far(
            scene,
            start,
            hidden,
            links,
            nearest_link(before, scene.robots@[r], r, hidden, links[r]@, n),
            r,
            n as int,
        ),
    decreases n,
{
    if n > 0 {
        let m = (n - 1) as nat;
        lemma_nearest_link(scene, start, hidden, links, before, r, m);
        let less = nearest_link(before, scene.robots@[r], r, hidden, links[r]@, m);
        let all = nearest_link(before, scene.robots@[r], r, hidden, links[r]@, n);
        let own = hidden matches Some((hr, hl)) && hr == r && hl == m;
        assert forall|s: int, k: int| listed_before(s, k, r, n as int) && !listed_before(
            s,
            k,
            r,
            m as int,
        ) implies s == r && k == m by {}
        if !own && links[r]@[m as int] is Some {
            let d = links[r]@[m as int]->0;
            assert(meets_link(scene.robots@, hidden, links, r, m as int, d));
            if all != less {
                let name = scene.robots@[r].name@ + "/"@ + scene.robots@[r].links@[m as int]@;
                assert(all == Some((d, name)));
                assert forall|s: int, k: int|
                    listed_before(s, k, r, m as int) implies !#[trigger] meets_link(
                    scene.robots@,
                    hidden,
                    links,
                    s,
                    k,
                    d,
                ) by {}
                assert(first_link(scene, hidden, links, r, m as int, d, name));
                assert(listed_before(r, m as int, r, n as int));
            } else {
                assert(less is Some);
            }
        }
        match all {
            Some((d, name)) => {
                assert forall|s: int, k: int, e: Pico|
                    listed_before(s, k, r, n as int) && #[trigger] meets_link(
                        scene.robots@,
                        hidden,
                        links,
                        s,
                        k,
                        e,
                    ) implies d <= e by {
                    if listed_before(s, k, r, m as int) {
                        assert(less is Some);
                    }
                }
                if all == less && start != Some((d, name)) {
                    let (s, k) = choose|s: int, k: int|
                        listed_before(s, k, r, m as int) && #[trigger] first_link(
                            scene,
                            hidden,
                            links,
                            s,
                            k,
                            d,
                            name,
                        );
                    assert(first_link(scene, hidden, links, s, k, d, name));
                    assert(listed_before(s, k, r, n as int));
                }
            },
            None => {
                assert(less is None);
            },
        }
    }
}

/// A box is within reach exactly where some point of it is: none that a beam could
/// return from is left out.
pub proof fn law_a_box_is_in_reach_where_a_point_of_it_is(
    origin: Vec3,
    lo: Vec3,
    hi: Vec3,
    reach: Pico,
    p: Vec3,
)
    requires
        lo.x <= hi.x && lo.y <= hi.y && lo.z <= hi.z,
        reach >= 0,
    ensures
        in_reach(origin, None, reach),
        lo.x <= p.x <= hi.x && lo.y <= p.y <= hi.y && lo.z <= p.z <= hi.z && (p.x - origin.x) * (p.x
            - origin.x) + (p.y - origin.y) * (p.y - origin.y) + (p.z - origin.z) * (p.z - origin.z)
            <= reach * reach ==> in_reach(origin, Some((lo, hi)), reach),
        in_reach(origin, Some((lo, hi)), reach) ==> exists|q: Vec3|
            #![trigger q.x]
            lo.x <= q.x <= hi.x && lo.y <= q.y <= hi.y && lo.z <= q.z <= hi.z && (q.x - origin.x)
                * (q.x - origin.x) + (q.y - origin.y) * (q.y - origin.y) + (q.z - origin.z) * (q.z
                - origin.z) <= reach * reach,
{
    let q = Vec3 {
        x: clamped(origin.x as int, lo.x as int, hi.x as int) as i64,
        y: clamped(origin.y as int, lo.y as int, hi.y as int) as i64,
        z: clamped(origin.z as int, lo.z as int, hi.z as int) as i64,
    };
    assert(lo.x <= q.x <= hi.x);
    lemma_nearest_in_range(origin.x as int, lo.x as int, hi.x as int, p.x as int);
    lemma_nearest_in_range(origin.y as int, lo.y as int, hi.y as int, p.y as int);
    lemma_nearest_in_range(origin.z as int, lo.z as int, hi.z as int, p.z as int);
}

proof fn lemma_nearest_in_range(x: int, lo: int, hi: int, p: int)
    ensures
        lo <= p <= hi ==> (clamped(x, lo, hi) - x) * (clamped(x, lo, hi) - x) <= (p - x) * (p - x),
{
    if lo <= p <= hi {
        let c = clamped(x, lo, hi) - x;
        let e = p - x;
        assert(c * c <= e * e) by (nonlinear_arith)
            requires
                (0 <= c <= e) || (e <= c <= 0) || c == 0,
        ;
    }
}

/// A scene without noise reports what it measures; with it, a distance that lies off
/// by the spread times the draw, rounded down, kept within the measuring band.
pub proof fn law_noise_shifts_by_spread_and_draw(
    lidar: Lidar,
    noise: ScanNoise,
    toi: Pico,
    draw: Pico,
)
    requires
        lidar.range.0 <= toi <= lidar.range.1,
        0 <= lidar.range.0,
        noise.sigma > 0,
    ensures
        reported(lidar, None, toi, draw) == toi,
        ({
            let r = reported(lidar, Some(noise), toi, draw);
            let off = noise.sigma * draw;
            &&& lidar.range.0 <= r <= lidar.range.1
            &&& lidar.range.0 < r < lidar.range.1 ==> 1_000_000_000_000 * (r - toi) <= off
                < 1_000_000_000_000 * (r - toi) + 1_000_000_000_000
            &&& off >= 0 ==> r >= toi
            &&& off <= 0 ==> r <= toi
        }),
{
    crate::fixed::law_quotients_are_rounded_down(noise.sigma as int, draw as int, UNIT as int);
}

/// The beams of a ring are spread evenly over the field: each a step, of the
/// resolution to the nearest that fits, from the next; the first and the last, where
/// the ring is no full circle, at the ends of the field.
pub proof fn law_beams_span_the_field(lidar: Lidar, i: int)
    requires
        sweepable(lidar),
        0 <= i <= sweep_steps(lidar),
        lidar.fov_deg <= 360 * UNIT,
    ensures
        ({
            let steps = sweep_steps(lidar);
            let a = beam_angle(lidar, i);
            &&& beam_angle(lidar, 0) == -(lidar.fov_deg / 2)
            &&& beam_angle(lidar, steps) == lidar.fov_deg - lidar.fov_deg / 2
            &&& 0 <= lidar.fov_deg * i - steps * (a + lidar.fov_deg / 2) < steps
            &&& steps >= 1
            &&& steps > 1 ==> 2 * lidar.fov_deg <= 2 * lidar.resolution_deg * steps
                + lidar.resolution_deg && 2 * lidar.resolution_deg * steps <= 2 * lidar.fov_deg
                + lidar.resolution_deg
        }),
{
    let steps = sweep_steps(lidar);
    let f = lidar.fov_deg as int;
    let res = lidar.resolution_deg as int;
    crate::fixed::law_quotients_are_rounded_down(f, i, steps);
    crate::fixed::law_quotients_are_rounded_down(f, 0, steps);
    crate::fixed::law_quotients_are_rounded_down(f, steps, steps);
    let q = muldiv(f, i, steps);
    assert(0 <= f * i && f * i <= f * steps) by (nonlinear_arith)
        requires
            0 <= i <= steps,
            f >= 0,
    ;
    assert(0 <= q <= f) by (nonlinear_arith)
        requires
            steps * q <= f * i,
            f * i < steps * q + steps,
            0 <= f * i <= f * steps,
            steps >= 1,
    ;
    assert(muldiv(f, steps, steps) == f) by (nonlinear_arith)
        requires
            steps >= 1,
            steps * muldiv(f, steps, steps) <= f * steps,
            f * steps < steps * muldiv(f, steps, steps) + steps,
    ;
    assert(muldiv(f, 0, steps) == 0) by (nonlinear_arith)
        requires
            steps >= 1,
            steps * muldiv(f, 0, steps) <= f * 0,
            f * 0 < steps * muldiv(f, 0, steps) + steps,
    ;
    assert(steps * (q - f / 2 + f / 2) == steps * q);
    let n = (2 * f + res) / (2 * res);
    vstd::arithmetic::div_mod::lemma_fundamental_div_mod(2 * f + res, 2 * res);
    assert((2 * res) * n == 2 * res * n);
}

/// Noise changes how far a beam reports what it hits, and nothing else: a [`sweep`]
/// with noise has the beams, the hits and the pose of the sweep without.
pub proof fn law_noise_changes_distances_only(
    scene: Scene,
    lidar: Lidar,
    active: Seq<bool>,
    hidden: Option<(usize, usize)>,
    plain: SweepReply,
    noisy: SweepReply,
    t: Option<Pico>,
    noise: ScanNoise,
)
    requires
        same_geometry(plain, noisy),
        0 < lidar.range.0 <= lidar.range.1,
    ensures
        distances_differ(
            swept(scene, lidar, active, hidden, plain, t, None),
            swept(scene, lidar, active, hidden, noisy, t, Some(noise)),
            lidar,
            noise,
        ),
{
    let a = swept(scene, lidar, active, hidden, plain, t, None);
    let b = swept(scene, lidar, active, hidden, noisy, t, Some(noise));
    assert(candidates(active, lidar, plain) =~= candidates(active, lidar, noisy));
    assert forall|i: int| 0 <= i < a.ranges.len() implies met(
        scene,
        lidar,
        active,
        hidden,
        plain,
        i,
    ) == met(scene, lidar, active, hidden, noisy, i) by {}
    assert(a.hits =~= b.hits);
    assert(a.angles =~= b.angles);
    assert(a.elevations =~= b.elevations);
    if noise.sigma <= 0 {
        assert(a.ranges =~= b.ranges);
    }
}

/// A return lies within the measuring band, noise or no noise, and a beam
/// without a return reports zero.
pub proof fn law_returns_lie_in_the_band(
    scene: Scene,
    lidar: Lidar,
    active: Seq<bool>,
    hidden: Option<(usize, usize)>,
    reply: SweepReply,
    t: Option<Pico>,
    noise: Option<ScanNoise>,
    i: int,
)
    requires
        sweepable(lidar),
        0 <= i < beam_count(lidar),
    ensures
        ({
            let scan = swept(scene, lidar, active, hidden, reply, t, noise);
            if scan.hits[i] is Some {
                lidar.range.0 <= scan.ranges[i] <= lidar.range.1
            } else {
                scan.ranges[i] == 0
            }
        }),
{
}

/// What noise does to a sweep it does to a scan of a baked cycle: a
/// [`lidar_scan_at`] with noise differs from the one without in its distances at
/// most.
pub proof fn law_noise_changes_scanned_distances_only(
    scene: Scene,
    timeline: SequenceTimeline,
    name: Seq<char>,
    t: Pico,
    noise: ScanNoise,
    plain: SweepReply,
    noisy: SweepReply,
)
    requires
        same_geometry(plain, noisy),
        find(names_of(scene.lidars@), name) matches Some(k) ==> 0 < scene.lidars@[k].range.0
            <= scene.lidars@[k].range.1,
    ensures
        match (
            find(names_of(scene.lidars@), name),
            scanned_at(scene, timeline, name, t, None, SweepAnswer::Swept(plain)),
            scanned_at(scene, timeline, name, t, Some(noise), SweepAnswer::Swept(noisy)),
        ) {
            (Some(k), Ok(a), Ok(b)) => distances_differ(a, b, scene.lidars@[k], noise),
            (None, Err(a), Err(b)) => a == b,
            _ => false,
        },
{
    match find(names_of(scene.lidars@), name) {
        Some(k) => {
            let at = scan_instant(timeline, t);
            law_noise_changes_distances_only(
                scene,
                scene.lidars@[k],
                active_bodies(scene, scene.lidars@[k], Some((timeline, at))),
                excluded(scene, scene.lidars@[k]).1,
                plain,
                noisy,
                Some(at),
                noise,
            );
        },
        None => {},
    }
}

/// Noisy sweeps repeat: two sweeps of one seed at one instant, whose draws are
/// the same function of their keys, are the same.
pub proof fn law_noisy_sweeps_repeat(
    scene: Scene,
    lidar: Lidar,
    active: Seq<bool>,
    hidden: Option<(usize, usize)>,
    first: SweepReply,
    second: SweepReply,
    t: Option<Pico>,
    noise: ScanNoise,
    draw: spec_fn(u64) -> Pico,
)
    requires
        sweep_answered(scene, lidar, first, Some(noise)),
        sweep_answered(scene, lidar, second, Some(noise)),
        first.instant == second.instant,
        same_geometry(first, second),
        forall|i: int|
            0 <= i < beam_count(lidar) ==> (#[trigger] first.draws@[i]).1 == draw(
                first.draws@[i].0,
            ),
        forall|i: int|
            0 <= i < beam_count(lidar) ==> (#[trigger] second.draws@[i]).1 == draw(
                second.draws@[i].0,
            ),
    ensures
        swept(scene, lidar, active, hidden, first, t, Some(noise)) == swept(
            scene,
            lidar,
            active,
            hidden,
            second,
            t,
            Some(noise),
        ),
{
    let a = swept(scene, lidar, active, hidden, first, t, Some(noise));
    let b = swept(scene, lidar, active, hidden, second, t, Some(noise));
    if noise.sigma > 0 {
        assert forall|i: int| 0 <= i < beam_count(lidar) implies first.draws@[i]
            == second.draws@[i] by {
            assert(first.draws@[i].0 == second.draws@[i].0);
        }
    }
    assert(candidates(active, lidar, first) =~= candidates(active, lidar, second));
    assert(a.ranges =~= b.ranges);
    assert(a.hits =~= b.hits);
    assert(a =~= b);
}

/// The bodies that take part in a sweep are those that are enabled, that are none of the
/// vehicle's that carries the scanner, and that the cycle has not stowed at that
/// instant; and no other. `k` is any body, `o` its track.
pub proof fn law_what_takes_part_is_in_play_and_in_sight(
    scene: Scene,
    lidar: Lidar,
    timeline: SequenceTimeline,
    t: Pico,
    k: int,
    o: int,
)
    requires
        0 <= k < scene.obstacles@.len() <= usize::MAX,
    ensures
        ({
            let body = scene.obstacles@[k];
            let own = excluded(scene, lidar).0;
            let hidden = exists|i: int| 0 <= i < own.len() && #[trigger] own[i] == k;
            let still = active_bodies(scene, lidar, None);
            let baked = active_bodies(scene, lidar, Some((timeline, t)));
            &&& still.len() == scene.obstacles@.len()
            &&& baked.len() == scene.obstacles@.len()
            &&& still[k] <==> body.enabled && !hidden
            &&& baked[k] ==> still[k]
            &&& (forall|j: int|
                0 <= j < timeline.objects@.len() ==> (#[trigger] timeline.objects@[j]).name@
                    != body.name@) ==> baked[k] == still[k]
            &&& 0 <= o < timeline.objects@.len() && timeline.objects@[o].name@ == body.name@ && (
            forall|j: int|
                0 <= j < o ==> (#[trigger] timeline.objects@[j]).name@ != body.name@) ==> (baked[k]
                <==> still[k] && !(span_for(timeline.objects@[o].spans@, t as int) matches Some(
                TrackSpan::Stowed { .. },
            )))
        }),
{
    let body = scene.obstacles@[k];
    let own = excluded(scene, lidar).0;
    crate::names::law_a_name_stands_for_the_first(timeline.objects@, body.name@, o);
    if own.contains(k as usize) {
        let i = choose|i: int| 0 <= i < own.len() && own[i] == k as usize;
        assert(own[i] == k);
    }
    if exists|i: int| 0 <= i < own.len() && #[trigger] own[i] == k {
        let i = choose|i: int| 0 <= i < own.len() && #[trigger] own[i] == k;
        assert(own[i] == k as usize);
    }
}

/// A scanner does not see what carries it: on the floor nothing is hidden from it, on a
/// vehicle the vehicle's body is, and on a link that link. `d` is the first vehicle of
/// its name, `r` and `l` the first robot and link.
pub proof fn law_a_scanner_does_not_see_its_mount(scene: Scene, lidar: Lidar, d: int, r: int, l: int)
    requires
        scene.robots@.len() <= usize::MAX,
        0 <= r < scene.robots@.len() ==> scene.robots@[r].links@.len() <= usize::MAX,
    ensures
        match lidar.mount {
            OpticMount::World => excluded(scene, lidar).0.len() == 0 && excluded(scene, lidar).1
                is None,
            OpticMount::Vehicle { device } => {
                &&& excluded(scene, lidar).1 is None
                &&& 0 <= d < scene.devices@.len() && scene.devices@[d].name@ == device@
                    && scene.devices@[d].kind is Vehicle && (forall|j: int|
                    0 <= j < d ==> (#[trigger] scene.devices@[j]).name@ != device@
                        || !(scene.devices@[j].kind is Vehicle)) ==> excluded(scene, lidar).0
                    == bodies_of(
                    scene.devices@[d].kind->Vehicle_body@,
                    scene.obstacles@,
                    scene.devices@[d].kind->Vehicle_body@.len(),
                )
            },
            OpticMount::Link { robot, link } => {
                &&& excluded(scene, lidar).0.len() == 0
                &&& 0 <= r < scene.robots@.len() && scene.robots@[r].name@ == robot@ && (forall|
                    j: int,
                |
                    0 <= j < r ==> (#[trigger] scene.robots@[j]).name@ != robot@) && 0 <= l
                    < scene.robots@[r].links@.len() && scene.robots@[r].links@[l]@ == link@ && (
                forall|j: int|
                    0 <= j < l ==> (#[trigger] scene.robots@[r].links@[j])@ != link@) ==> excluded(
                    scene,
                    lidar,
                ).1 == Some((r as usize, l as usize))
            },
        },
{
    match lidar.mount {
        OpticMount::World => {},
        OpticMount::Vehicle { device } => {
            if 0 <= d < scene.devices@.len() && scene.devices@[d].name@ == device@
                && scene.devices@[d].kind is Vehicle && (forall|j: int|
                0 <= j < d ==> (#[trigger] scene.devices@[j]).name@ != device@
                    || !(scene.devices@[j].kind is Vehicle)) {
                lemma_vehicle_body(scene.devices@, device@, 0, d);
            }
        },
        OpticMount::Link { robot, link } => {
            crate::names::law_a_name_stands_for_the_first(scene.robots@, robot@, r);
            if 0 <= r < scene.robots@.len() {
                crate::names::law_a_name_stands_for_the_first(
                    scene.robots@[r].links@,
                    link@,
                    l,
                );
            }
        },
    }
}

proof fn lemma_vehicle_body(devices: Seq<DeviceSpec>, device: Seq<char>, from: int, d: int)
    requires
        0 <= from <= d < devices.len(),
        devices[d].name@ == device,
        devices[d].kind is Vehicle,
        forall|j: int|
            0 <= j < d ==> (#[trigger] devices[j]).name@ != device || !(devices[j].kind is Vehicle),
    ensures
        vehicle_body(devices, device, from) == Some(devices[d].kind->Vehicle_body@),
    decreases d - from,
{
    if from < d {
        assert(devices[from].name@ != device || !(devices[from].kind is Vehicle));
        lemma_vehicle_body(devices, device, from + 1, d);
    }
}

/// The bodies that names stand for are those of the names that stand for one, in order.
pub proof fn law_names_stand_for_their_bodies(
    names: Seq<String>,
    obstacles: Seq<Obstacle>,
    n: nat,
    k: int,
)
    requires
        n < names.len(),
        obstacles.len() <= usize::MAX,
    ensures
        bodies_of(names, obstacles, 0).len() == 0,
        0 <= k < obstacles.len() && obstacles[k].name@ == names[n as int]@ && (forall|j: int|
            0 <= j < k ==> (#[trigger] obstacles[j]).name@ != names[n as int]@) ==> bodies_of(
            names,
            obstacles,
            n + 1,
        ) == bodies_of(names, obstacles, n).push(k as usize),
        (forall|j: int|
            0 <= j < obstacles.len() ==> (#[trigger] obstacles[j]).name@ != names[n as int]@)
            ==> bodies_of(names, obstacles, n + 1) == bodies_of(names, obstacles, n),
{
    crate::names::law_a_name_stands_for_the_first(obstacles, names[n as int]@, k);
}

/// A scanner on a vehicle rides where the vehicle's track has it at that instant, and
/// stands where the vehicle is parked where it has no track; one on the floor stays, and
/// one on a link goes with the link.
pub proof fn law_a_scanner_goes_with_its_mount(
    scene: Scene,
    lidar: Lidar,
    timeline: SequenceTimeline,
    t: Pico,
    k: int,
)
    ensures
        lidar.mount is World ==> base_of(scene, lidar, Some((timeline, t))) is World && base_of(
            scene,
            lidar,
            None,
        ) is World,
        lidar.mount matches OpticMount::Vehicle { device } ==> {
            &&& base_of(scene, lidar, None) is Parked
            &&& (forall|j: int|
                0 <= j < timeline.vehicles@.len() ==> (#[trigger] timeline.vehicles@[j]).name@
                    != device@) ==> base_of(scene, lidar, Some((timeline, t))) is Parked
            &&& 0 <= k < timeline.vehicles@.len() && timeline.vehicles@[k].name@ == device@ && (
            forall|j: int|
                0 <= j < k ==> (#[trigger] timeline.vehicles@[j]).name@ != device@) ==> (span_for(
                timeline.vehicles@[k].spans@,
                t as int,
            ) matches Some(span) ==> base_of(scene, lidar, Some((timeline, t)))
                == ScanBase::Riding(span.placement(t as int)))
        },
        lidar.mount is Link ==> (excluded(scene, lidar).1 matches Some((robot, link)) ==> base_of(
            scene,
            lidar,
            Some((timeline, t)),
        ) == (ScanBase::Link { robot, link })),
{
    match lidar.mount {
        OpticMount::Vehicle { device } => {
            crate::names::law_a_name_stands_for_the_first(timeline.vehicles@, device@, k);
        },
        _ => {},
    }
}

/// Beams are laid out ring by ring, every ring over the whole field; the rings are spread
/// evenly over the vertical field, the first at its bottom and the last at its top, and a
/// single one lies level. A full circle has no beam twice.
pub proof fn law_beams_are_laid_out_ring_by_ring(lidar: Lidar, i: int, c: int)
    requires
        sweepable(lidar),
        0 <= i < beam_count(lidar),
        lidar.vfov_deg <= 360 * UNIT,
    ensures
        ({
            let dirs = beam_directions(lidar);
            let beams = ring_beams(lidar);
            let rings = if lidar.channels <= 1 {
                1
            } else {
                lidar.channels as int
            };
            let top = lidar.channels - 1;
            let e = ring_elevation(lidar, c);
            &&& dirs.len() == rings * beams
            &&& dirs[i].0 == beam_angle(lidar, i % beams)
            &&& dirs[i].1 == ring_elevation(lidar, i / beams)
            &&& lidar.fov_deg >= 360 * 1_000_000_000_000 - 1_000 ==> beams == sweep_steps(lidar)
            &&& lidar.fov_deg < 360 * 1_000_000_000_000 - 1_000 ==> beams == sweep_steps(lidar) + 1
            &&& lidar.channels <= 1 ==> e == 0
            &&& lidar.channels > 1 && 0 <= c <= top ==> 0 <= lidar.vfov_deg * c - top * (e
                + lidar.vfov_deg / 2) < top
        }),
{
    let top = lidar.channels - 1;
    let f = lidar.vfov_deg as int;
    if lidar.channels > 1 && 0 <= c <= top {
        crate::fixed::law_quotients_are_rounded_down(f, c, top);
        let q = muldiv(f, c, top);
        assert(0 <= f * c && f * c <= f * top) by (nonlinear_arith)
            requires
                0 <= c <= top,
                f >= 0,
        ;
        assert(0 <= q <= f) by (nonlinear_arith)
            requires
                top * q <= f * c,
                f * c < top * q + top,
                0 <= f * c <= f * top,
                top >= 1,
        ;
        assert(top * (q - f / 2 + f / 2) == top * q);
    }
}

/// A scan of a cycle is taken within it: at the instant asked for, or at the end of the
/// cycle that is nearer. It is of the scanner named; one that is not there is an error.
/// `k` is the first of that name.
pub proof fn law_a_scan_is_taken_within_the_cycle(
    scene: Scene,
    timeline: SequenceTimeline,
    name: Seq<char>,
    t: Pico,
    noise: Option<ScanNoise>,
    reply: SweepReply,
    k: int,
)
    requires
        timeline.duration >= 0,
    ensures
        ({
            let at = scan_instant(timeline, t);
            let r = scanned_at(scene, timeline, name, t, noise, SweepAnswer::Swept(reply));
            &&& 0 <= at <= timeline.duration
            &&& 0 <= t <= timeline.duration ==> at == t
            &&& t < 0 ==> at == 0
            &&& t > timeline.duration ==> at == timeline.duration
            &&& (forall|j: int| 0 <= j < scene.lidars@.len() ==> (#[trigger] scene.lidars@[j]).name@
                != name) ==> (r matches Err(e) && e == SceneErrorView::UnknownLidar(name))
            &&& 0 <= k < scene.lidars@.len() && scene.lidars@[k].name@ == name && (forall|j: int|
                0 <= j < k ==> (#[trigger] scene.lidars@[j]).name@ != name) ==> (r matches Ok(scan)
                && scan.t == Some(at) && scan == swept(
                scene,
                scene.lidars@[k],
                active_bodies(scene, scene.lidars@[k], Some((timeline, at))),
                excluded(scene, scene.lidars@[k]).1,
                reply,
                Some(at),
                noise,
            ))
        }),
{
    crate::names::law_a_name_stands_for_the_first(scene.lidars@, name, k);
}

/// A run of scans has one for each instant, in order, or the first error.
pub proof fn law_scans_are_taken_one_after_the_other(
    scene: Scene,
    timeline: SequenceTimeline,
    name: Seq<char>,
    times: Seq<Pico>,
    noise: Option<ScanNoise>,
    answers: Seq<SweepAnswer>,
    n: nat,
    i: int,
)
    requires
        0 <= i < n,
    ensures
        all_scanned(scene, timeline, name, times, noise, answers, n) matches Ok(list) ==> list.len()
            == n && scanned_at(scene, timeline, name, times[i], noise, answers[i]) == Ok::<
            ScanView,
            SceneErrorView,
        >(list[i]),
        scanned_at(scene, timeline, name, times[i], noise, answers[i]) is Err ==> all_scanned(
            scene,
            timeline,
            name,
            times,
            noise,
            answers,
            n,
        ) is Err,
    decreases n,
{
    let less = (n - 1) as nat;
    if i < less {
        law_scans_are_taken_one_after_the_other(
            scene,
            timeline,
            name,
            times,
            noise,
            answers,
            less,
            i,
        );
    } else if less > 0 {
        law_scans_are_taken_one_after_the_other(
            scene,
            timeline,
            name,
            times,
            noise,
            answers,
            less,
            0,
        );
    }
}

/// Of the points of a sweep every `stride`th is taken, those of beams without a return
/// left out.
pub proof fn law_points_are_those_of_returns(
    ranges: Seq<Pico>,
    points: Seq<Vec3>,
    from: int,
    stride: int,
)
    requires
        0 <= from,
        stride > 0,
    ensures
        from >= ranges.len() ==> picked(ranges, points, from, stride).len() == 0,
        from < ranges.len() && ranges[from] > 0 ==> picked(ranges, points, from, stride) == seq![
            points[from],
        ] + picked(ranges, points, from + stride, stride),
        from < ranges.len() && ranges[from] <= 0 ==> picked(ranges, points, from, stride) == picked(
            ranges,
            points,
            from + stride,
            stride,
        ),
{
}

/// Instant `k` of a grid lies `k` frames after the start, rounded down; the frames come in
/// order, and the end of the cycle behind them.
pub proof fn law_frames_come_one_by_one(duration: Pico, fps: Pico, k: int)
    requires
        fps > 0,
        0 <= k,
    ensures
        fps * grid_instant(k, fps) <= k * 1_000_000_000_000_000_000_000_000 < fps * (grid_instant(
            k,
            fps,
        ) + 1),
        ({
            let all = frame_instants(duration, fps);
            let n = grid_frames(duration, fps);
            &&& all.len() == n + 1
            &&& all[n as int] == duration
            &&& k < n && grid_instant(k, fps) <= i64::MAX ==> all[k] == grid_instant(k, fps)
        }),
{
    let f = fps as int;
    let m = k * SECOND_SQUARED;
    vstd::arithmetic::div_mod::lemma_fundamental_div_mod(m, f);
    vstd::arithmetic::div_mod::lemma_mod_bound(m, f);
    let q = m / f;
    assert(f * (q + 1) == f * q + f) by (nonlinear_arith);
    assert(m >= 0) by (nonlinear_arith)
        requires
            m == k * SECOND_SQUARED,
            k >= 0,
            SECOND_SQUARED == 1_000_000_000_000_000_000_000_000,
    ;
    vstd::arithmetic::div_mod::lemma_div_pos_is_pos(m, f);
}

/// A body is where its track has it at that instant; one without a track is where the scene
/// has it. `k` is the first track of its name.
pub proof fn law_a_body_is_where_its_track_has_it(
    timeline: SequenceTimeline,
    name: Seq<char>,
    t: Pico,
    k: int,
)
    ensures
        (forall|j: int|
            0 <= j < timeline.objects@.len() ==> (#[trigger] timeline.objects@[j]).name@ != name)
            ==> placed_at(timeline, name, t) is None,
        0 <= k < timeline.objects@.len() && timeline.objects@[k].name@ == name && (forall|j: int|
            0 <= j < k ==> (#[trigger] timeline.objects@[j]).name@ != name) ==> (span_for(
            timeline.objects@[k].spans@,
            t as int,
        ) matches Some(span) ==> placed_at(timeline, name, t) == Some(span.placement(t as int))),
{
    crate::names::law_a_name_stands_for_the_first(timeline.objects@, name, k);
}

/// A scan that the kinematics refuse is an error: of the scanner where the robot's base was
/// baked at that instant, and of the kinematics where it was not.
pub proof fn law_a_refused_scan_is_an_error(
    scene: Scene,
    timeline: SequenceTimeline,
    name: Seq<char>,
    t: Pico,
    noise: Option<ScanNoise>,
    robot: usize,
    message: String,
)
    requires
        find(names_of(scene.lidars@), name) is Some,
    ensures
        ({
            let r = scanned_at(
                scene,
                timeline,
                name,
                t,
                noise,
                SweepAnswer::Refused { robot, message },
            );
            let baked = timeline.robots@[robot as int].base matches Some(spans) && span_for(
                spans@,
                scan_instant(timeline, t) as int,
            ) is Some;
            &&& baked ==> (r matches Err(e) && e is BadLidar)
            &&& !baked ==> r == Err::<ScanView, SceneErrorView>(
                SceneErrorView::Kinematics(message@),
            )
        }),
{
}

/// Noise is drawn anew: beams of a sweep, sweeps at different instants, and runs with
/// different seeds, all else the same, have different keys.
pub proof fn law_no_two_beams_share_a_noise_key(
    seed: u64,
    beam: u64,
    instant: u64,
    seed2: u64,
    beam2: u64,
    instant2: u64,
)
    ensures
        beam != beam2 ==> noise_key_of(seed, beam, instant) != noise_key_of(seed, beam2, instant),
        instant != instant2 ==> noise_key_of(seed, beam, instant) != noise_key_of(
            seed,
            beam,
            instant2,
        ),
        seed != seed2 ==> noise_key_of(seed, beam, instant) != noise_key_of(seed2, beam, instant),
{
    let k = mixed(seed ^ beam);
    lemma_mixed_apart(k ^ instant, mixed(seed ^ beam2) ^ instant);
    lemma_mixed_apart(k ^ instant, k ^ instant2);
    lemma_mixed_apart(k ^ instant, mixed(seed2 ^ beam) ^ instant);
    lemma_mixed_apart(seed ^ beam, seed ^ beam2);
    lemma_mixed_apart(seed ^ beam, seed2 ^ beam);
    lemma_xor_apart(seed, beam, beam2);
    lemma_xor_apart(beam, seed, seed2);
    lemma_xor_apart(k, instant, instant2);
    lemma_xor_apart(instant, k, mixed(seed ^ beam2));
    lemma_xor_apart(instant, k, mixed(seed2 ^ beam));
}

proof fn lemma_xor_apart(x: u64, a: u64, b: u64)
    ensures
        a != b ==> x ^ a != x ^ b,
        a != b ==> a ^ x != b ^ x,
{
    assert(a != b ==> x ^ a != x ^ b) by (bit_vector);
    assert(a != b ==> a ^ x != b ^ x) by (bit_vector);
}

/// The finalizer takes different words to different words.
proof fn lemma_mixed_apart(x: u64, y: u64)
    ensures
        x != y ==> mixed(x) != mixed(y),
{
    let ax = vstd::wrapping::u64_specs::wrapping_add(x, 0x9E37_79B9_7F4A_7C15);
    let ay = vstd::wrapping::u64_specs::wrapping_add(y, 0x9E37_79B9_7F4A_7C15);
    assert(x != y ==> ax != ay);
    assert(ax != ay ==> ax ^ (ax >> 30) != ay ^ (ay >> 30)) by (bit_vector);
    let bx = vstd::wrapping::u64_specs::wrapping_mul(ax ^ (ax >> 30), 0xBF58_476D_1CE4_E5B9);
    let by = vstd::wrapping::u64_specs::wrapping_mul(ay ^ (ay >> 30), 0xBF58_476D_1CE4_E5B9);
    lemma_times_apart(
        ax ^ (ax >> 30),
        ay ^ (ay >> 30),
        0xBF58_476D_1CE4_E5B9,
        10_871_156_337_175_269_513,
        8_125_545_580_553_827_436,
    );
    assert(bx != by ==> bx ^ (bx >> 27) != by ^ (by >> 27)) by (bit_vector);
    let cx = vstd::wrapping::u64_specs::wrapping_mul(bx ^ (bx >> 27), 0x94D0_49BB_1331_11EB);
    let cy = vstd::wrapping::u64_specs::wrapping_mul(by ^ (by >> 27), 0x94D0_49BB_1331_11EB);
    lemma_times_apart(
        bx ^ (bx >> 27),
        by ^ (by >> 27),
        0x94D0_49BB_1331_11EB,
        3_573_116_690_164_977_347,
        2_077_064_247_507_883_091,
    );
    assert(cx != cy ==> cx ^ (cx >> 31) != cy ^ (cy >> 31)) by (bit_vector);
}

/// A factor that has an inverse takes different words to different words.
proof fn lemma_times_apart(x: u64, y: u64, c: u64, inverse: int, turns: int)
    requires
        c * inverse == 1 + turns * 0x1_0000_0000_0000_0000,
    ensures
        x != y ==> vstd::wrapping::u64_specs::wrapping_mul(x, c)
            != vstd::wrapping::u64_specs::wrapping_mul(y, c),
{
    let m = 0x1_0000_0000_0000_0000int;
    let p = x as int * c as int;
    let q = y as int * c as int;
    assert(p >= 0 && q >= 0) by (nonlinear_arith)
        requires
            p == x as int * c as int,
            q == y as int * c as int,
    ;
    vstd::arithmetic::div_mod::lemma_fundamental_div_mod(p, m);
    vstd::arithmetic::div_mod::lemma_fundamental_div_mod(q, m);
    vstd::arithmetic::div_mod::lemma_mod_bound(p, m);
    vstd::arithmetic::div_mod::lemma_mod_bound(q, m);
    if p % m == q % m {
        let d = x - y;
        let n = p / m - q / m;
        assert(d * c as int == m * n) by (nonlinear_arith)
            requires
                d == x - y,
                p == x as int * c as int,
                q == y as int * c as int,
                p - q == m * (p / m) - m * (q / m),
                n == p / m - q / m,
        ;
        let e = n * inverse - turns * d;
        assert(d == m * e) by (nonlinear_arith)
            requires
                d * c as int == m * n,
                c as int * inverse == 1 + turns * m,
                e == n * inverse - turns * d,
        {
            assert((d * c as int) * inverse == d * (c as int * inverse));
            assert((m * n) * inverse == m * (n * inverse));
            assert(d * (1 + turns * m) == d + m * (turns * d));
            assert(m * (n * inverse - turns * d) == m * (n * inverse) - m * (turns * d));
        }
        assert(e == 0) by (nonlinear_arith)
            requires
                d == m * e,
                -m < d < m,
                m == 0x1_0000_0000_0000_0000int,
        ;
    }
}

} // verus!
