//! The scene a rollout runs against: what is authored, as plain values.

use vstd::prelude::*;

use crate::fixed::{Pico, Pose, Vec3};
use crate::names::{find, find_named, index_view, names_of, Named};
use crate::seq::Sequence;
use crate::vehicle::Drive;

verus! {

/// An internal relay and its level at the start.
#[derive(Debug)]
pub struct Signal {
    pub name: String,
    pub initial: bool,
}

/// A body in the scene.
#[derive(Debug)]
pub struct Obstacle {
    pub name: String,
    pub pose: Pose,
    pub enabled: bool,
    /// A machine that walks may stand on it.
    pub walkable: bool,
    /// The half-extents, for a box.
    pub half: Option<Vec3>,
}

/// A body bound to a robot link, `grasp` in the link's frame.
#[derive(Debug)]
pub struct Attachment {
    pub object: String,
    pub robot: usize,
    pub link: usize,
    pub grasp: Pose,
}

/// A joint of a robot model; `q_index` is its place among the actuated ones.
#[derive(Debug)]
pub struct Joint {
    pub name: String,
    pub q_index: Option<usize>,
}

/// A leg of a gait: the actuated joints that it moves.
#[derive(Debug)]
pub struct GaitLeg {
    pub name: String,
    pub joints: Vec<usize>,
}

/// A gait as resolved against its robot's model.
#[derive(Debug)]
pub struct Gait {
    pub legs: Vec<GaitLeg>,
    /// The link that carries what the machine carries.
    pub body: usize,
    /// How high the machine can step, where it says so.
    pub max_step: Option<Pico>,
    pub foot_radius: Pico,
    /// How high a swinging foot is lifted.
    pub lift: Pico,
    /// The joints that swing along, with their amplitudes.
    pub arm_swing: Vec<(usize, Pico)>,
}

/// How a robot rides a vehicle.
#[derive(Debug)]
pub struct Mount {
    pub device: String,
    pub offset: Pose,
    pub gait: Option<Gait>,
    /// Joints that spin while the vehicle is off its ground, with their rates.
    pub spin: Vec<(String, Pico)>,
}

/// A robot instance.
#[derive(Debug)]
pub struct Robot {
    pub name: String,
    pub links: Vec<String>,
    pub joints: Vec<Joint>,
    /// The actuated joints, as indices into `joints`.
    pub actuated: Vec<usize>,
    /// The link a tool is mounted on.
    pub tool_mount_link: usize,
    pub q: Vec<Pico>,
    pub base: Pose,
    pub mount: Option<Mount>,
}

/// A named motion and the robot that makes it.
#[derive(Debug)]
pub struct Motion {
    pub name: String,
    pub robot: usize,
}

/// One move of a toolpath: whether the process is on, and with which brush.
#[derive(Debug)]
pub struct ToolMove {
    pub sprays: bool,
    pub brush: Option<String>,
}

/// A named toolpath.
#[derive(Debug)]
pub struct Toolpath {
    pub name: String,
    pub moves: Vec<ToolMove>,
}

/// What carries a camera or a lidar.
#[derive(Debug)]
pub enum OpticMount {
    World,
    Vehicle { device: String },
    Link { robot: String, link: String },
}

/// A camera.
#[derive(Debug)]
pub struct Camera {
    pub name: String,
    pub mount: OpticMount,
    pub pose: Pose,
    pub resolution: (u32, u32),
    /// Field of view, in degrees.
    pub fov_deg: Pico,
    pub near: Pico,
    pub far: Pico,
}

/// A lidar.
#[derive(Debug)]
pub struct Lidar {
    pub name: String,
    pub mount: OpticMount,
    pub pose: Pose,
    /// Field of view, in degrees.
    pub fov_deg: Pico,
    /// Angle between neighbouring beams, in degrees.
    pub resolution_deg: Pico,
    /// Rings of beams; a planar scanner has one.
    pub channels: u32,
    /// Vertical field of view, in degrees.
    pub vfov_deg: Pico,
    /// Nearest and farthest return.
    pub range: (Pico, Pico),
}

/// What trips a sensor.
#[derive(Debug)]
pub enum SensorWatch {
    /// Any robot.
    Robot,
    /// These robots.
    Robots(Vec<String>),
    /// These bodies.
    Objects(Vec<String>),
    AllObjects,
    All,
}

/// What a sensor is.
#[derive(Debug)]
pub enum SensorKind {
    Zone { pose: Pose, size: Vec3 },
    Beam { from: Vec3, to: Vec3, radius: Pico },
    /// What a camera sees, between two distances.
    Vision { camera: String, detect_range: Option<(Pico, Pico)>, occlusion: bool },
    /// What a lidar sweeps, within a radius and a window in degrees.
    Field {
        lidar: String,
        range: Option<Pico>,
        sector: Option<(Pico, Pico)>,
        shadowing: bool,
    },
}

/// A sensor: a read-only input.
#[derive(Debug)]
pub struct Sensor {
    pub name: String,
    /// The vehicle that carries it.
    pub mount: Option<String>,
    pub kind: SensorKind,
    pub watch: SensorWatch,
}

/// The path that guides a vehicle.
#[derive(Debug)]
pub struct VehiclePath {
    pub waypoints: Vec<Vec3>,
    pub stations: Vec<(String, usize)>,
    pub ring: bool,
    /// The heading that the path gives its vehicle at each waypoint.
    pub headings: Vec<Pico>,
}

/// What a device is.
#[derive(Debug)]
pub enum DeviceKind {
    Conveyor { zone: Pose, size: Vec3, velocity: Vec3, running: bool },
    LinearAxis { objects: Vec<String>, axis: Vec3, speed: Pico, position: Pico },
    Source {
        pool: Vec<String>,
        park: Pose,
        pitch: Vec3,
        pose: Pose,
        interval: Pico,
        running: bool,
    },
    Sink { zone: Pose, size: Vec3, source: String },
    Vehicle {
        path: VehiclePath,
        body: Vec<String>,
        speed: Pico,
        turn_speed: Pico,
        start: String,
        drive: Drive,
        tray: Option<(Pose, Vec3)>,
    },
    Lift {
        car: Vec<String>,
        zone: Pose,
        size: Vec3,
        axis: Vec3,
        speed: Pico,
        stops: Vec<(String, Pico)>,
        start: String,
    },
}

/// A device as authored.
#[derive(Debug)]
pub struct DeviceSpec {
    pub name: String,
    pub kind: DeviceKind,
}

/// A whole scene.
#[derive(Debug)]
pub struct Scene {
    pub signals: Vec<Signal>,
    pub sensors: Vec<Sensor>,
    pub cameras: Vec<Camera>,
    pub lidars: Vec<Lidar>,
    pub devices: Vec<DeviceSpec>,
    pub robots: Vec<Robot>,
    pub obstacles: Vec<Obstacle>,
    pub attachments: Vec<Attachment>,
    pub motions: Vec<Motion>,
    pub toolpaths: Vec<Toolpath>,
    pub sequences: Vec<Sequence>,
    /// The inputs that a scenario pins: `(lane name, value)`.
    pub forced_inputs: Vec<(String, bool)>,
}

impl Named for Signal {
    open spec fn named(&self) -> Seq<char> {
        self.name@
    }

    fn get_name(&self) -> (r: &String) {
        &self.name
    }
}

impl Named for Obstacle {
    open spec fn named(&self) -> Seq<char> {
        self.name@
    }

    fn get_name(&self) -> (r: &String) {
        &self.name
    }
}

impl Named for Attachment {
    open spec fn named(&self) -> Seq<char> {
        self.object@
    }

    fn get_name(&self) -> (r: &String) {
        &self.object
    }
}

impl Named for Joint {
    open spec fn named(&self) -> Seq<char> {
        self.name@
    }

    fn get_name(&self) -> (r: &String) {
        &self.name
    }
}

impl Named for Robot {
    open spec fn named(&self) -> Seq<char> {
        self.name@
    }

    fn get_name(&self) -> (r: &String) {
        &self.name
    }
}

impl Named for Motion {
    open spec fn named(&self) -> Seq<char> {
        self.name@
    }

    fn get_name(&self) -> (r: &String) {
        &self.name
    }
}

impl Named for Toolpath {
    open spec fn named(&self) -> Seq<char> {
        self.name@
    }

    fn get_name(&self) -> (r: &String) {
        &self.name
    }
}

impl Named for Camera {
    open spec fn named(&self) -> Seq<char> {
        self.name@
    }

    fn get_name(&self) -> (r: &String) {
        &self.name
    }
}

impl Named for Lidar {
    open spec fn named(&self) -> Seq<char> {
        self.name@
    }

    fn get_name(&self) -> (r: &String) {
        &self.name
    }
}

impl Named for DeviceSpec {
    open spec fn named(&self) -> Seq<char> {
        self.name@
    }

    fn get_name(&self) -> (r: &String) {
        &self.name
    }
}

impl Named for Sequence {
    open spec fn named(&self) -> Seq<char> {
        self.name@
    }

    fn get_name(&self) -> (r: &String) {
        &self.name
    }
}

impl Named for String {
    open spec fn named(&self) -> Seq<char> {
        self@
    }

    fn get_name(&self) -> (r: &String) {
        self
    }
}

/// A pair whose first part is its name.
impl<T> Named for (String, T) {
    open spec fn named(&self) -> Seq<char> {
        self.0@
    }

    fn get_name(&self) -> (r: &String) {
        &self.0
    }
}

/// Whether some robot holds the body named `name`.
pub open spec fn is_held(attachments: Seq<Attachment>, name: Seq<char>) -> bool {
    find(names_of(attachments), name) is Some
}

/// Whether some robot holds the body named `name`.
pub fn held(attachments: &Vec<Attachment>, name: &str) -> (r: bool)
    ensures
        r == is_held(attachments@, name@),
{
    find_named(attachments, name).is_some()
}

/// The first body named `name`.
pub open spec fn body_index(obstacles: Seq<Obstacle>, name: Seq<char>) -> Option<int> {
    find(names_of(obstacles), name)
}

/// The first body named `name`.
pub fn find_body(obstacles: &Vec<Obstacle>, name: &str) -> (r: Option<usize>)
    ensures
        index_view(r) == body_index(obstacles@, name@),
        r matches Some(k) ==> k < obstacles@.len() && obstacles@[k as int].name@ == name@,
{
    find_named(obstacles, name)
}

/// Whether the bodies of two lists differ in nothing but their poses.
pub open spec fn same_bodies(a: Seq<Obstacle>, b: Seq<Obstacle>) -> bool {
    a.len() == b.len() && forall|i: int|
        0 <= i < a.len() ==> (#[trigger] b[i]) == (Obstacle { pose: b[i].pose, ..a[i] })
}

/// Puts body `k` at `pose`.
pub open spec fn posed(obstacles: Seq<Obstacle>, k: int, pose: Pose) -> Seq<Obstacle> {
    obstacles.update(k, Obstacle { pose, ..obstacles[k] })
}

/// Puts body `k` at `pose`.
pub fn set_obstacle_pose(obstacles: &mut Vec<Obstacle>, k: usize, pose: Pose)
    requires
        k < old(obstacles)@.len(),
    ensures
        final(obstacles)@ == posed(old(obstacles)@, k as int, pose),
{
    obstacles[k].pose = pose;
    assert(obstacles@ =~= posed(old(obstacles)@, k as int, pose));
}

/// Names do not change when a body moves.
pub proof fn lemma_posed_names(obstacles: Seq<Obstacle>, k: int, pose: Pose)
    requires
        0 <= k < obstacles.len(),
    ensures
        names_of(posed(obstacles, k, pose)) == names_of(obstacles),
        same_bodies(obstacles, posed(obstacles, k, pose)),
{
    assert(names_of(posed(obstacles, k, pose)) =~= names_of(obstacles));
}

} // verus!
