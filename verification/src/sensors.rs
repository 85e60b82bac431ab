//! Sensors: what carries them, what they look at, and when they trip.

use vstd::prelude::*;

use crate::fixed::{differ, difference, floor_div, shorter_than, Pico, Pose, Vec3, MICRO, UNIT};
use crate::gait::{identity, still};
use crate::lanes::Lanes;
use crate::names::{contains_name, find, find_named, holds_name, names_of};
use crate::scene::{
    body_index, find_body, Camera, DeviceKind, DeviceSpec, Lidar, Obstacle, OpticMount, Robot,
    Scene, Sensor, SensorKind, SensorWatch,
};
use crate::views::views;

verus! {

/// The shape of what a sensor covers.
#[derive(Clone, Copy, Debug, PartialEq, Eq, Structural)]
pub enum Optics {
    Zone { size: Vec3 },
    Beam { from: Vec3, to: Vec3, radius: Pico },
    /// A camera's view between two distances; the aspect is `width : height`.
    Frustum { fov_deg: Pico, width: u32, height: u32, near: Pico, far: Pico },
    /// A lidar's window, in degrees.
    Sector { start_deg: Pico, end_deg: Pico, radius: Pico },
    /// Never trips: the camera or lidar it refers to is not there.
    Dead,
}

/// What a sensor's frame is fixed to.
#[derive(Clone, Copy, Debug, PartialEq, Eq, Structural)]
pub enum SensorAnchor {
    /// The floor.
    Fixture,
    /// A vehicle, by its device index.
    Vehicle(usize),
    Link { robot: usize, link: usize },
}

/// A sensor at run time.
#[derive(Debug)]
pub struct SensorRuntime {
    pub optics: Optics,
    /// The authored pose in the anchor's frame.
    pub pose: Pose,
    pub anchor: SensorAnchor,
    pub lane: usize,
    /// A candidate must also be in the line of sight.
    pub occlusion: bool,
    /// Bodies it never considers: the vehicle's own that carries it.
    pub exclude: Vec<usize>,
}

#[verifier::ext_equal]
pub struct SensorView {
    pub optics: Optics,
    pub pose: Pose,
    pub anchor: SensorAnchor,
    pub lane: usize,
    pub occlusion: bool,
    pub exclude: Seq<usize>,
}

impl View for SensorRuntime {
    type V = SensorView;

    open spec fn view(&self) -> SensorView {
        SensorView {
            optics: self.optics,
            pose: self.pose,
            anchor: self.anchor,
            lane: self.lane,
            occlusion: self.occlusion,
            exclude: self.exclude@,
        }
    }
}

/// The anchor of something that a vehicle carries, a fixture where there is
/// no such device.
pub open spec fn vehicle_anchor(devices: Seq<DeviceSpec>, device: Seq<char>) -> SensorAnchor {
    match find(names_of(devices), device) {
        Some(d) => SensorAnchor::Vehicle(d as usize),
        None => SensorAnchor::Fixture,
    }
}

/// The anchor of a sensor that may ride a vehicle.
pub open spec fn mount_anchor(devices: Seq<DeviceSpec>, mount: Option<String>) -> SensorAnchor {
    match mount {
        Some(device) => vehicle_anchor(devices, device@),
        None => SensorAnchor::Fixture,
    }
}

/// The anchor of a camera or a lidar.
pub open spec fn optic_anchor(scene: Scene, mount: OpticMount) -> SensorAnchor {
    match mount {
        OpticMount::World => SensorAnchor::Fixture,
        OpticMount::Vehicle { device } => vehicle_anchor(scene.devices@, device@),
        OpticMount::Link { robot, link } => match find(names_of(scene.robots@), robot@) {
            Some(r) => match find(names_of(scene.robots@[r].links@), link@) {
                Some(l) => SensorAnchor::Link { robot: r as usize, link: l as usize },
                None => SensorAnchor::Fixture,
            },
            None => SensorAnchor::Fixture,
        },
    }
}

/// At least one.
pub open spec fn at_least_one(n: u32) -> u32 {
    if n == 0 {
        1
    } else {
        n
    }
}

/// What a sensor covers, from where, fixed to what, and whether sight counts.
pub open spec fn sensor_optics(scene: Scene, sensor: Sensor) -> (
    Optics,
    Pose,
    SensorAnchor,
    bool,
) {
    let dead = (Optics::Dead, still(), SensorAnchor::Fixture, false);
    match sensor.kind {
        SensorKind::Zone { pose, size } => (
            Optics::Zone { size },
            pose,
            mount_anchor(scene.devices@, sensor.mount),
            false,
        ),
        SensorKind::Beam { from, to, radius } => (
            Optics::Beam { from, to, radius },
            still(),
            mount_anchor(scene.devices@, sensor.mount),
            false,
        ),
        SensorKind::Vision { camera, detect_range, occlusion } => match find(
            names_of(scene.cameras@),
            camera@,
        ) {
            None => dead,
            Some(c) => {
                let cam = scene.cameras@[c];
                let (near, far) = match detect_range {
                    Some(range) => range,
                    None => (cam.near, cam.far),
                };
                (
                    Optics::Frustum {
                        fov_deg: cam.fov_deg,
                        width: at_least_one(cam.resolution.0),
                        height: at_least_one(cam.resolution.1),
                        near,
                        far,
                    },
                    cam.pose,
                    optic_anchor(scene, cam.mount),
                    occlusion,
                )
            },
        },
        SensorKind::Field { lidar, range, sector, shadowing } => match find(
            names_of(scene.lidars@),
            lidar@,
        ) {
            None => dead,
            Some(l) => {
                let scanner = scene.lidars@[l];
                let half = scanner.fov_deg as int / 2;
                let (start, end) = match sector {
                    Some(window) => window,
                    None => ((-half) as i64, half as i64),
                };
                (
                    Optics::Sector {
                        start_deg: start,
                        end_deg: end,
                        radius: match range {
                            Some(r) => r,
                            None => scanner.range.1,
                        },
                    },
                    scanner.pose,
                    optic_anchor(scene, scanner.mount),
                    shadowing,
                )
            },
        },
    }
}

/// The bodies named in `names`, those that exist.
pub open spec fn body_indices(names: Seq<String>, obstacles: Seq<Obstacle>) -> Seq<usize>
    decreases names.len(),
{
    if names.len() == 0 {
        Seq::empty()
    } else {
        let less = body_indices(names.drop_last(), obstacles);
        match body_index(obstacles, names.last()@) {
            Some(k) => less.push(k as usize),
            None => less,
        }
    }
}

/// What a sensor never considers: a vehicle-mounted field ignores its own
/// machine's body.
pub open spec fn sensor_excludes(scene: Scene, sensor: Sensor, anchor: SensorAnchor) -> Seq<usize> {
    match (sensor.kind, anchor) {
        (SensorKind::Field { .. }, SensorAnchor::Vehicle(d)) => match scene.devices@[d as int].kind {
            DeviceKind::Vehicle { body, .. } => body_indices(body@, scene.obstacles@),
            _ => Seq::empty(),
        },
        _ => Seq::empty(),
    }
}

/// A sensor as a rollout starts it.
pub open spec fn sensor_start(scene: Scene, sensor: Sensor, lane: usize) -> SensorView {
    let (optics, pose, anchor, occlusion) = sensor_optics(scene, sensor);
    SensorView {
        optics,
        pose,
        anchor,
        lane,
        occlusion,
        exclude: sensor_excludes(scene, sensor, anchor),
    }
}

fn anchor_on(devices: &Vec<DeviceSpec>, device: &str) -> (r: SensorAnchor)
    ensures
        r == vehicle_anchor(devices@, device@),
        r matches SensorAnchor::Vehicle(d) ==> d < devices@.len(),
{
    match find_named(devices, device) {
        Some(d) => SensorAnchor::Vehicle(d),
        None => SensorAnchor::Fixture,
    }
}

fn anchor_of(scene: &Scene, mount: &OpticMount) -> (r: SensorAnchor)
    ensures
        r == optic_anchor(*scene, *mount),
        r matches SensorAnchor::Vehicle(d) ==> d < scene.devices@.len(),
{
    match mount {
        OpticMount::World => SensorAnchor::Fixture,
        OpticMount::Vehicle { device } => anchor_on(&scene.devices, device.as_str()),
        OpticMount::Link { robot, link } => match find_named(&scene.robots, robot.as_str()) {
            Some(r) => match find_named(&scene.robots[r].links, link.as_str()) {
                Some(l) => SensorAnchor::Link { robot: r, link: l },
                None => SensorAnchor::Fixture,
            },
            None => SensorAnchor::Fixture,
        },
    }
}

fn indices_of(names: &Vec<String>, obstacles: &Vec<Obstacle>) -> (r: Vec<usize>)
    ensures
        r@ == body_indices(names@, obstacles@),
{
    let mut out: Vec<usize> = Vec::new();
    let mut i: usize = 0;
    while i < names.len()
        invariant
            i <= names.len(),
            out@ == body_indices(names@.take(i as int), obstacles@),
        decreases names.len() - i,
    {
        assert(names@.take(i + 1).drop_last() =~= names@.take(i as int));
        match find_body(obstacles, names[i].as_str()) {
            Some(k) => {
                out.push(k);
            },
            None => {},
        }
        i = i + 1;
    }
    assert(names@.take(i as int) =~= names@);
    out
}

impl SensorRuntime {
    /// A sensor as a rollout starts it.
    pub fn start(scene: &Scene, sensor: &Sensor, lane: usize) -> (r: SensorRuntime)
        ensures
            r@ == sensor_start(*scene, *sensor, lane),
    {
        let mut optics: Optics = Optics::Dead;
        let mut pose: Pose = identity();
        let mut anchor: SensorAnchor = SensorAnchor::Fixture;
        let mut occlusion: bool = false;
        let mut is_field: bool = false;
        match &sensor.kind {
            SensorKind::Zone { pose: p, size } => {
                optics = Optics::Zone { size: *size };
                pose = *p;
                anchor = match &sensor.mount {
                    Some(device) => anchor_on(&scene.devices, device.as_str()),
                    None => SensorAnchor::Fixture,
                };
            },
            SensorKind::Beam { from, to, radius } => {
                optics = Optics::Beam { from: *from, to: *to, radius: *radius };
                anchor = match &sensor.mount {
                    Some(device) => anchor_on(&scene.devices, device.as_str()),
                    None => SensorAnchor::Fixture,
                };
            },
            SensorKind::Vision { camera, detect_range, occlusion: sight } => {
                match find_named(&scene.cameras, camera.as_str()) {
                    Some(c) => {
                        let cam: &Camera = &scene.cameras[c];
                        let (near, far): (Pico, Pico) = match detect_range {
                            Some(range) => *range,
                            None => (cam.near, cam.far),
                        };
                        optics = Optics::Frustum {
                            fov_deg: cam.fov_deg,
                            width: if cam.resolution.0 == 0 {
                                1
                            } else {
                                cam.resolution.0
                            },
                            height: if cam.resolution.1 == 0 {
                                1
                            } else {
                                cam.resolution.1
                            },
                            near,
                            far,
                        };
                        pose = cam.pose;
                        anchor = anchor_of(scene, &cam.mount);
                        occlusion = *sight;
                    },
                    None => {},
                }
            },
            SensorKind::Field { lidar, range, sector, shadowing } => {
                is_field = true;
                match find_named(&scene.lidars, lidar.as_str()) {
                    Some(l) => {
                        let scanner: &Lidar = &scene.lidars[l];
                        let half: i64 = floor_div(scanner.fov_deg as i128, 2) as i64;
                        let (start_deg, end_deg): (Pico, Pico) = match sector {
                            Some(window) => *window,
                            None => (-half, half),
                        };
                        optics = Optics::Sector {
                            start_deg,
                            end_deg,
                            radius: match range {
                                Some(r) => *r,
                                None => scanner.range.1,
                            },
                        };
                        pose = scanner.pose;
                        anchor = anchor_of(scene, &scanner.mount);
                        occlusion = *shadowing;
                    },
                    None => {},
                }
            },
        }
        let exclude: Vec<usize> = match anchor {
            SensorAnchor::Vehicle(d) => if is_field {
                match &scene.devices[d].kind {
                    DeviceKind::Vehicle { body, .. } => indices_of(body, &scene.obstacles),
                    _ => Vec::new(),
                }
            } else {
                Vec::new()
            },
            _ => Vec::new(),
        };
        let r: SensorRuntime = SensorRuntime { optics, pose, anchor, lane, occlusion, exclude };
        assert(r@ =~= sensor_start(*scene, *sensor, lane));
        r
    }
}

/// What the geometry says of one sensor right now.
#[derive(Debug)]
pub struct Reading {
    /// Where the sensor is.
    pub pose: Pose,
    /// Which bodies its shape meets.
    pub hits: Vec<bool>,
    /// `rays[k][j]`: how far along the ray from the sensor to the origin of
    /// body `k` the ray meets body `j`, out of [`UNIT`].
    pub rays: Vec<Vec<Option<Pico>>>,
    /// Which robots its shape meets.
    pub robots: Vec<bool>,
}

/// Whether the origin of body `target` is hidden behind another enabled body.
/// A ray that is met short of its end is blocked.
pub open spec fn hidden(
    reading: Reading,
    obstacles: Seq<Obstacle>,
    target: int,
    skip: Seq<usize>,
) -> bool {
    &&& difference(obstacles[target].pose.at, reading.pose.at).square() >= MICRO * MICRO
    &&& exists|j: int|
        0 <= j < obstacles.len() && #[trigger] blocks(reading, obstacles, target, skip, j)
}

/// Whether body `j` blocks the view of body `target`.
pub open spec fn blocks(
    reading: Reading,
    obstacles: Seq<Obstacle>,
    target: int,
    skip: Seq<usize>,
    j: int,
) -> bool {
    &&& j != target
    &&& obstacles[j].enabled
    &&& !skip.contains(j as usize)
    &&& reading.rays@[target]@[j] matches Some(toi) && toi < UNIT - MICRO
}

/// Whether a sensor watches bodies named `name`.
pub open spec fn watches_body(watch: SensorWatch, name: Seq<char>) -> bool {
    match watch {
        SensorWatch::Objects(names) => holds_name(names@, name),
        SensorWatch::AllObjects => true,
        SensorWatch::All => true,
        SensorWatch::Robot => false,
        SensorWatch::Robots(_) => false,
    }
}

/// Whether a sensor watches the robot named `name`.
pub open spec fn watches_robot(watch: SensorWatch, name: Seq<char>) -> bool {
    match watch {
        SensorWatch::Robots(names) => holds_name(names@, name),
        SensorWatch::Robot => true,
        SensorWatch::All => true,
        SensorWatch::Objects(_) => false,
        SensorWatch::AllObjects => false,
    }
}

/// Whether a sensor sees body `k`.
pub open spec fn sees(
    sensor: SensorView,
    watch: SensorWatch,
    reading: Reading,
    obstacles: Seq<Obstacle>,
    k: int,
) -> bool {
    &&& obstacles[k].enabled
    &&& watches_body(watch, obstacles[k].name@)
    &&& !sensor.exclude.contains(k as usize)
    &&& reading.hits@[k]
    &&& !(sensor.occlusion && hidden(reading, obstacles, k, sensor.exclude))
}

/// Whether a sensor trips: it sees a body, or a robot that it watches is in
/// it.
pub open spec fn trips(
    sensor: SensorView,
    watch: SensorWatch,
    reading: Reading,
    obstacles: Seq<Obstacle>,
    robots: Seq<Robot>,
) -> bool {
    ||| exists|k: int|
        0 <= k < obstacles.len() && #[trigger] sees(sensor, watch, reading, obstacles, k)
    ||| exists|r: int|
        0 <= r < robots.len() && watches_robot(watch, (#[trigger] robots[r]).name@)
            && reading.robots@[r]
}

/// A reading that speaks of every body and every robot.
pub open spec fn complete(reading: Reading, bodies: nat, robots: nat) -> bool {
    &&& reading.hits@.len() == bodies
    &&& reading.robots@.len() == robots
    &&& reading.rays@.len() == bodies
    &&& forall|k: int| 0 <= k < bodies ==> (#[trigger] reading.rays@[k])@.len() == bodies
}

fn holds_index(list: &Vec<usize>, k: usize) -> (r: bool)
    ensures
        r == list@.contains(k),
{
    let mut i: usize = 0;
    while i < list.len()
        invariant
            i <= list.len(),
            forall|j: int| 0 <= j < i ==> list@[j] != k,
        decreases list.len() - i,
    {
        if list[i] == k {
            assert(list@[i as int] == k);
            return true;
        }
        i = i + 1;
    }
    false
}

/// Whether the origin of body `target` is hidden from the sensor. One ray,
/// origin to origin; `skip` never blocks the view.
pub fn occluded(
    reading: &Reading,
    obstacles: &Vec<Obstacle>,
    target: usize,
    skip: &Vec<usize>,
) -> (r: bool)
    requires
        target < obstacles@.len(),
        reading.rays@.len() == obstacles@.len(),
        reading.rays@[target as int]@.len() == obstacles@.len(),
    ensures
        r == hidden(*reading, obstacles@, target as int, skip@),
{
    if shorter_than(differ(obstacles[target].pose.at, reading.pose.at), MICRO) {
        return false;
    }
    let mut j: usize = 0;
    while j < obstacles.len()
        invariant
            j <= obstacles.len(),
            target < obstacles@.len(),
            reading.rays@.len() == obstacles@.len(),
            reading.rays@[target as int]@.len() == obstacles@.len(),
            difference(obstacles@[target as int].pose.at, reading.pose.at).square() >= MICRO
                * MICRO,
            forall|i: int|
                0 <= i < j ==> !#[trigger] blocks(*reading, obstacles@, target as int, skip@, i),
        decreases obstacles.len() - j,
    {
        if j != target && obstacles[j].enabled && !holds_index(skip, j) {
            match reading.rays[target][j] {
                Some(toi) => {
                    if toi < UNIT - MICRO {
                        assert(blocks(*reading, obstacles@, target as int, skip@, j as int));
                        return true;
                    }
                },
                None => {},
            }
        }
        j = j + 1;
    }
    false
}

fn watching_body(watch: &SensorWatch, name: &str) -> (r: bool)
    ensures
        r == watches_body(*watch, name@),
{
    match watch {
        SensorWatch::Objects(names) => contains_name(names, name),
        SensorWatch::AllObjects => true,
        SensorWatch::All => true,
        SensorWatch::Robot => false,
        SensorWatch::Robots(_) => false,
    }
}

fn watching_robot(watch: &SensorWatch, name: &str) -> (r: bool)
    ensures
        r == watches_robot(*watch, name@),
{
    match watch {
        SensorWatch::Robots(names) => contains_name(names, name),
        SensorWatch::Robot => true,
        SensorWatch::All => true,
        SensorWatch::Objects(_) => false,
        SensorWatch::AllObjects => false,
    }
}

impl SensorRuntime {
    /// Whether the sensor trips.
    pub fn evaluate(
        &self,
        watch: &SensorWatch,
        reading: &Reading,
        obstacles: &Vec<Obstacle>,
        robots: &Vec<Robot>,
    ) -> (r: bool)
        requires
            complete(*reading, obstacles@.len(), robots@.len()),
        ensures
            r == trips(self@, *watch, *reading, obstacles@, robots@),
    {
        let mut k: usize = 0;
        while k < obstacles.len()
            invariant
                k <= obstacles.len(),
                complete(*reading, obstacles@.len(), robots@.len()),
                forall|i: int|
                    0 <= i < k ==> !#[trigger] sees(self@, *watch, *reading, obstacles@, i),
            decreases obstacles.len() - k,
        {
            let o: &Obstacle = &obstacles[k];
            assert(reading.rays@[k as int]@.len() == obstacles@.len());
            if o.enabled && watching_body(watch, o.name.as_str()) && !holds_index(&self.exclude, k)
                && reading.hits[k] && !(self.occlusion && occluded(
                reading,
                obstacles,
                k,
                &self.exclude,
            )) {
                assert(sees(self@, *watch, *reading, obstacles@, k as int));
                return true;
            }
            k = k + 1;
        }
        let mut r: usize = 0;
        while r < robots.len()
            invariant
                r <= robots.len(),
                complete(*reading, obstacles@.len(), robots@.len()),
                forall|i: int|
                    0 <= i < obstacles@.len() ==> !#[trigger] sees(
                        self@,
                        *watch,
                        *reading,
                        obstacles@,
                        i,
                    ),
                forall|i: int|
                    0 <= i < r ==> !(watches_robot(*watch, (#[trigger] robots@[i]).name@)
                        && reading.robots@[i]),
            decreases robots.len() - r,
        {
            if watching_robot(watch, robots[r].name.as_str()) && reading.robots[r] {
                assert(watches_robot(*watch, robots@[r as int].name@));
                return true;
            }
            r = r + 1;
        }
        false
    }
}

/// What the sensors write on their lanes.
pub open spec fn sensor_writes(
    sensors: Seq<SensorView>,
    authored: Seq<Sensor>,
    readings: Seq<Reading>,
    obstacles: Seq<Obstacle>,
    robots: Seq<Robot>,
) -> Seq<(usize, bool)> {
    Seq::new(
        sensors.len(),
        |i: int|
            (
                sensors[i].lane,
                trips(sensors[i], authored[i].watch, readings[i], obstacles, robots),
            ),
    )
}

/// Evaluates every sensor and records edges on its lane.
pub fn update_sensors(
    lanes: &mut Lanes,
    sensors: &Vec<SensorRuntime>,
    authored: &Vec<Sensor>,
    readings: &Vec<Reading>,
    obstacles: &Vec<Obstacle>,
    robots: &Vec<Robot>,
    t: Pico,
)
    requires
        sensors@.len() == authored@.len(),
        sensors@.len() == readings@.len(),
        forall|i: int|
            0 <= i < readings@.len() ==> complete(
                #[trigger] readings@[i],
                obstacles@.len(),
                robots@.len(),
            ),
        forall|i: int|
            0 <= i < sensors@.len() ==> (#[trigger] sensors@[i]).lane < old(lanes).tracks@.len(),
    ensures
        final(lanes)@ == old(lanes)@.set_all(
            sensor_writes(
                views(sensors@),
                authored@,
                readings@,
                obstacles@,
                robots@,
            ),
            t,
        ),
        final(lanes).tracks@.len() == old(lanes).tracks@.len(),
{
    let ghost want = sensor_writes(
        views(sensors@),
        authored@,
        readings@,
        obstacles@,
        robots@,
    );
    let mut writes: Vec<(usize, bool)> = Vec::new();
    let mut i: usize = 0;
    while i < sensors.len()
        invariant
            i <= sensors.len(),
            sensors@.len() == authored@.len(),
            sensors@.len() == readings@.len(),
            forall|k: int|
                0 <= k < readings@.len() ==> complete(
                    #[trigger] readings@[k],
                    obstacles@.len(),
                    robots@.len(),
                ),
            want == sensor_writes(
                views(sensors@),
                authored@,
                readings@,
                obstacles@,
                robots@,
            ),
            writes@ == want.take(i as int),
        decreases sensors.len() - i,
    {
        assert(complete(readings@[i as int], obstacles@.len(), robots@.len()));
        let value: bool = sensors[i].evaluate(&authored[i].watch, &readings[i], obstacles, robots);
        assert(want[i as int] == (sensors@[i as int].lane, value));
        writes.push((sensors[i].lane, value));
        i = i + 1;
        assert(writes@ =~= want.take(i as int));
    }
    assert(writes@ =~= want);
    lanes.set_lanes(&writes, t);
}

/// A sensor trips where a body that it watches, that is enabled and none of what it
/// never considers, is in it and in its sight, or a robot that it watches is in it;
/// and on nothing else. Out of sight, where sight counts, is a body at least 10^-6 m
/// away whose line of sight meets another enabled body, none of those never
/// considered, more than 10^-6 of the way short of it.
pub proof fn law_a_sensor_trips_on_what_it_watches(
    sensor: SensorView,
    watch: SensorWatch,
    reading: Reading,
    obstacles: Seq<Obstacle>,
    robots: Seq<Robot>,
    k: int,
)
    requires
        0 <= k < obstacles.len(),
        obstacles.len() <= usize::MAX,
    ensures
        sees(sensor, watch, reading, obstacles, k) <==> {
            let body = obstacles[k];
            let away = difference(body.pose.at, reading.pose.at);
            &&& body.enabled
            &&& match watch {
                SensorWatch::Objects(names) => exists|i: int|
                    0 <= i < names@.len() && (#[trigger] names@[i])@ == body.name@,
                SensorWatch::AllObjects => true,
                SensorWatch::All => true,
                SensorWatch::Robot => false,
                SensorWatch::Robots(_) => false,
            }
            &&& forall|i: int|
                0 <= i < sensor.exclude.len() ==> (#[trigger] sensor.exclude[i]) != k
            &&& reading.hits@[k]
            &&& !sensor.occlusion || away.x * away.x + away.y * away.y + away.z * away.z
                < 1_000_000_000_000 || forall|j: int|
                #![trigger obstacles[j]]
                0 <= j < obstacles.len() && j != k && obstacles[j].enabled && !sensor.exclude.contains(
                    j as usize,
                ) ==> !(reading.rays@[k]@[j] matches Some(toi) && toi < 1_000_000_000_000
                    - 1_000_000)
        },
        trips(sensor, watch, reading, obstacles, robots) <==> {
            ||| exists|b: int|
                0 <= b < obstacles.len() && #[trigger] sees(sensor, watch, reading, obstacles, b)
            ||| exists|r: int|
                0 <= r < robots.len() && reading.robots@[r] && match watch {
                    SensorWatch::Robots(names) => exists|i: int|
                        0 <= i < names@.len() && (#[trigger] names@[i])@ == (
                        #[trigger] robots[r]).name@,
                    SensorWatch::Robot => true,
                    SensorWatch::All => true,
                    SensorWatch::Objects(_) => false,
                    SensorWatch::AllObjects => false,
                }
        },
{
    assert(MICRO * MICRO == 1_000_000_000_000) by (nonlinear_arith)
        requires
            MICRO == 1_000_000i64,
    ;
    let body = obstacles[k];
    let away = difference(body.pose.at, reading.pose.at);
    assert(away.square() == away.x * away.x + away.y * away.y + away.z * away.z);
    let clear = forall|j: int|
        #![trigger obstacles[j]]
        0 <= j < obstacles.len() && j != k && obstacles[j].enabled && !sensor.exclude.contains(
            j as usize,
        ) ==> !(reading.rays@[k]@[j] matches Some(toi) && toi < 1_000_000_000_000 - 1_000_000);
    let blocked = exists|j: int|
        0 <= j < obstacles.len() && #[trigger] blocks(reading, obstacles, k, sensor.exclude, j);
    if clear && blocked {
        let j = choose|j: int|
            0 <= j < obstacles.len() && #[trigger] blocks(reading, obstacles, k, sensor.exclude, j);
        assert(obstacles[j].enabled);
    }
    if !clear && !blocked {
        let j = choose|j: int|
            #![trigger obstacles[j]]
            0 <= j < obstacles.len() && j != k && obstacles[j].enabled && !sensor.exclude.contains(
                j as usize,
            ) && (reading.rays@[k]@[j] matches Some(toi) && toi < 1_000_000_000_000 - 1_000_000);
        assert(blocks(reading, obstacles, k, sensor.exclude, j));
    }
    if sensor.exclude.contains(k as usize) {
        let i = choose|i: int| 0 <= i < sensor.exclude.len() && sensor.exclude[i] == k as usize;
        assert(sensor.exclude[i] == k);
    }
    if exists|i: int| 0 <= i < sensor.exclude.len() && (#[trigger] sensor.exclude[i]) == k {
        let i = choose|i: int| 0 <= i < sensor.exclude.len() && (#[trigger] sensor.exclude[i]) == k;
        assert(sensor.exclude[i] == k as usize);
    }
}

/// A sensor that watches everything trips where one that watches every body does, or
/// one that watches every robot.
pub proof fn law_watching_all_is_watching_bodies_and_robots(
    sensor: SensorView,
    reading: Reading,
    obstacles: Seq<Obstacle>,
    robots: Seq<Robot>,
)
    ensures
        trips(sensor, SensorWatch::All, reading, obstacles, robots) <==> trips(
            sensor,
            SensorWatch::AllObjects,
            reading,
            obstacles,
            robots,
        ) || trips(sensor, SensorWatch::Robot, reading, obstacles, robots),
{
    assert forall|k: int| sees(sensor, SensorWatch::All, reading, obstacles, k) == sees(
        sensor,
        SensorWatch::AllObjects,
        reading,
        obstacles,
        k,
    ) by {}
    if trips(sensor, SensorWatch::All, reading, obstacles, robots) {
        if exists|k: int|
            0 <= k < obstacles.len() && #[trigger]
                sees(sensor, SensorWatch::All, reading, obstacles, k) {
            let k = choose|k: int|
                0 <= k < obstacles.len() && #[trigger]
                    sees(sensor, SensorWatch::All, reading, obstacles, k);
            assert(sees(sensor, SensorWatch::AllObjects, reading, obstacles, k));
        } else {
            let r = choose|r: int|
                0 <= r < robots.len() && watches_robot(
                    SensorWatch::All,
                    (#[trigger] robots[r]).name@,
                ) && reading.robots@[r];
            assert(watches_robot(SensorWatch::Robot, robots[r].name@));
        }
    }
    if trips(sensor, SensorWatch::AllObjects, reading, obstacles, robots) {
        let k = choose|k: int|
            0 <= k < obstacles.len() && #[trigger]
                sees(sensor, SensorWatch::AllObjects, reading, obstacles, k);
        assert(sees(sensor, SensorWatch::All, reading, obstacles, k));
    }
    if trips(sensor, SensorWatch::Robot, reading, obstacles, robots) {
        let r = choose|r: int|
            0 <= r < robots.len() && watches_robot(
                SensorWatch::Robot,
                (#[trigger] robots[r]).name@,
            ) && reading.robots@[r];
        assert(watches_robot(SensorWatch::All, robots[r].name@));
    }
}

/// A sensor writes its own lane, high where it trips and low where it does not.
pub proof fn law_a_sensor_writes_what_it_sees(
    sensors: Seq<SensorView>,
    authored: Seq<Sensor>,
    readings: Seq<Reading>,
    obstacles: Seq<Obstacle>,
    robots: Seq<Robot>,
    i: int,
)
    requires
        0 <= i < sensors.len(),
    ensures
        ({
            let writes = sensor_writes(sensors, authored, readings, obstacles, robots);
            &&& writes.len() == sensors.len()
            &&& writes[i].0 == sensors[i].lane
            &&& writes[i].1 <==> trips(
                sensors[i],
                authored[i].watch,
                readings[i],
                obstacles,
                robots,
            )
        }),
{
}

/// Zones and beams cover what they are authored to cover, and ride what they are
/// mounted on; a camera looks between the distances that are asked for, or its own,
/// and a field spans the window that is asked for, or its scanner's, half to either
/// side, as far as is asked for, or as the scanner reaches. One whose camera or
/// scanner is not there never trips.
pub proof fn law_a_sensor_covers_what_it_is_authored_to(scene: Scene, sensor: Sensor, i: int)
    ensures
        ({
            let (optics, pose, anchor, sight) = sensor_optics(scene, sensor);
            match sensor.kind {
                SensorKind::Zone { pose: p, size } => optics == (Optics::Zone { size }) && pose == p
                    && !sight && anchor == mount_anchor(scene.devices@, sensor.mount),
                SensorKind::Beam { from, to, radius } => optics == (Optics::Beam {
                    from,
                    to,
                    radius,
                }) && !sight && anchor == mount_anchor(scene.devices@, sensor.mount),
                SensorKind::Vision { camera, detect_range, occlusion } => {
                    &&& (forall|j: int|
                        0 <= j < scene.cameras@.len() ==> (#[trigger] scene.cameras@[j]).name@
                            != camera@) ==> optics is Dead
                    &&& 0 <= i < scene.cameras@.len() && scene.cameras@[i].name@ == camera@ && (
                    forall|j: int|
                        0 <= j < i ==> (#[trigger] scene.cameras@[j]).name@ != camera@) ==> {
                        let cam = scene.cameras@[i];
                        &&& optics matches Optics::Frustum { fov_deg, width, height, near, far }
                            && fov_deg == cam.fov_deg && width >= 1 && height >= 1 && (
                        cam.resolution.0 >= 1 ==> width == cam.resolution.0) && (cam.resolution.1
                            >= 1 ==> height == cam.resolution.1) && (match detect_range {
                            Some(range) => near == range.0 && far == range.1,
                            None => near == cam.near && far == cam.far,
                        })
                        &&& pose == cam.pose
                        &&& anchor == optic_anchor(scene, cam.mount)
                        &&& sight == occlusion
                    }
                },
                SensorKind::Field { lidar, range, sector, shadowing } => {
                    &&& (forall|j: int|
                        0 <= j < scene.lidars@.len() ==> (#[trigger] scene.lidars@[j]).name@
                            != lidar@) ==> optics is Dead
                    &&& 0 <= i < scene.lidars@.len() && scene.lidars@[i].name@ == lidar@ && (
                    forall|j: int| 0 <= j < i ==> (#[trigger] scene.lidars@[j]).name@ != lidar@)
                        && scene.lidars@[i].fov_deg >= 0 ==> {
                        let scanner = scene.lidars@[i];
                        &&& optics matches Optics::Sector { start_deg, end_deg, radius } && (
                        match sector {
                            Some(window) => start_deg == window.0 && end_deg == window.1,
                            None => start_deg == -end_deg && 2 * end_deg <= scanner.fov_deg < 2
                                * end_deg + 2,
                        }) && (match range {
                            Some(r) => radius == r,
                            None => radius == scanner.range.1,
                        })
                        &&& pose == scanner.pose
                        &&& anchor == optic_anchor(scene, scanner.mount)
                        &&& sight == shadowing
                    }
                },
            }
        }),
{
    match sensor.kind {
        SensorKind::Vision { camera, .. } => {
            let names = names_of(scene.cameras@);
            crate::names::lemma_find(names, camera@, 0);
            match find(names, camera@) {
                Some(k) => {
                    assert(names[k] == scene.cameras@[k].name@);
                    if 0 <= i < scene.cameras@.len() {
                        assert(names[i] == scene.cameras@[i].name@);
                    }
                },
                None => {
                    if 0 <= i < scene.cameras@.len() {
                        assert(names[i] == scene.cameras@[i].name@);
                    }
                },
            }
        },
        SensorKind::Field { lidar, .. } => {
            let names = names_of(scene.lidars@);
            crate::names::lemma_find(names, lidar@, 0);
            match find(names, lidar@) {
                Some(k) => {
                    assert(names[k] == scene.lidars@[k].name@);
                    if 0 <= i < scene.lidars@.len() {
                        assert(names[i] == scene.lidars@[i].name@);
                    }
                },
                None => {
                    if 0 <= i < scene.lidars@.len() {
                        assert(names[i] == scene.lidars@[i].name@);
                    }
                },
            }
        },
        _ => {},
    }
}

/// What is mounted on a device goes with the first device of that name; what is not
/// mounted, or on one that is not there, stays where it is.
pub proof fn law_a_mount_is_found_by_name(devices: Seq<DeviceSpec>, device: String, i: int)
    requires
        devices.len() <= usize::MAX,
    ensures
        mount_anchor(devices, None) is Fixture,
        0 <= i < devices.len() && devices[i].name@ == device@ && (forall|j: int|
            0 <= j < i ==> (#[trigger] devices[j]).name@ != device@) ==> mount_anchor(
            devices,
            Some(device),
        ) == SensorAnchor::Vehicle(i as usize),
        (forall|j: int| 0 <= j < devices.len() ==> (#[trigger] devices[j]).name@ != device@)
            ==> mount_anchor(devices, Some(device)) is Fixture,
{
    let names = names_of(devices);
    crate::names::lemma_find(names, device@, 0);
    if 0 <= i < devices.len() {
        assert(names[i] == devices[i].name@);
    }
    match find(names, device@) {
        Some(k) => {
            assert(names[k] == devices[k].name@);
        },
        None => {},
    }
}

/// A field on a vehicle does not consider the vehicle's own bodies; every other sensor
/// considers everything.
pub proof fn law_a_field_ignores_its_own_vehicle(scene: Scene, sensor: Sensor, anchor: SensorAnchor)
    ensures
        !(sensor.kind is Field) || !(anchor is Vehicle) ==> sensor_excludes(scene, sensor, anchor).len()
            == 0,
        sensor.kind is Field ==> (anchor matches SensorAnchor::Vehicle(d)
            ==> (scene.devices@[d as int].kind matches DeviceKind::Vehicle { body, .. }
            ==> sensor_excludes(scene, sensor, anchor) == body_indices(
            body@,
            scene.obstacles@,
        ))),
{
}

/// The bodies of a list of names are those that the names stand for, in order.
pub proof fn law_bodies_are_listed_by_name(
    names: Seq<String>,
    one: String,
    obstacles: Seq<Obstacle>,
    k: int,
)
    requires
        obstacles.len() <= usize::MAX,
    ensures
        body_indices(seq![], obstacles).len() == 0,
        0 <= k < obstacles.len() && obstacles[k].name@ == one@ && (forall|j: int|
            0 <= j < k ==> (#[trigger] obstacles[j]).name@ != one@) ==> body_indices(
            names.push(one),
            obstacles,
        ) == body_indices(names, obstacles).push(k as usize),
        (forall|j: int| 0 <= j < obstacles.len() ==> (#[trigger] obstacles[j]).name@ != one@)
            ==> body_indices(names.push(one), obstacles) == body_indices(names, obstacles),
{
    assert(names.push(one).drop_last() =~= names);
    assert(names.push(one).last() == one);
    crate::names::law_a_name_stands_for_the_first(obstacles, one@, k);
}

/// What a camera or a scanner is mounted on is found by name: a vehicle, or a robot's link;
/// on the floor, or on what is not there, it stays. `r` and `l` are the first robot and
/// link of their names.
pub proof fn law_an_optic_is_mounted_where_its_mount_is(
    scene: Scene,
    device: String,
    robot: String,
    link: String,
    r: int,
    l: int,
)
    requires
        scene.robots@.len() <= usize::MAX,
        0 <= r < scene.robots@.len() ==> scene.robots@[r].links@.len() <= usize::MAX,
    ensures
        optic_anchor(scene, OpticMount::World) is Fixture,
        optic_anchor(scene, OpticMount::Vehicle { device }) == mount_anchor(
            scene.devices@,
            Some(device),
        ),
        (forall|j: int| 0 <= j < scene.robots@.len() ==> (#[trigger] scene.robots@[j]).name@
            != robot@) ==> optic_anchor(scene, OpticMount::Link { robot, link }) is Fixture,
        0 <= r < scene.robots@.len() && scene.robots@[r].name@ == robot@ && (forall|j: int|
            0 <= j < r ==> (#[trigger] scene.robots@[j]).name@ != robot@) && 0 <= l
            < scene.robots@[r].links@.len() && scene.robots@[r].links@[l]@ == link@ && (forall|
            j: int,
        |
            0 <= j < l ==> (#[trigger] scene.robots@[r].links@[j])@ != link@) ==> optic_anchor(
            scene,
            OpticMount::Link { robot, link },
        ) == (SensorAnchor::Link { robot: r as usize, link: l as usize }),
{
    crate::names::law_a_name_stands_for_the_first(scene.robots@, robot@, r);
    if 0 <= r < scene.robots@.len() {
        crate::names::law_a_name_stands_for_the_first(scene.robots@[r].links@, link@, l);
    }
}

/// A sensor starts on the lane it is given, with what it covers and ignores.
pub proof fn law_a_sensor_starts_as_it_is_authored(scene: Scene, sensor: Sensor, lane: usize)
    ensures
        ({
            let s = sensor_start(scene, sensor, lane);
            let (optics, pose, anchor, sight) = sensor_optics(scene, sensor);
            &&& s.lane == lane
            &&& s.optics == optics
            &&& s.pose == pose
            &&& s.anchor == anchor
            &&& s.occlusion == sight
            &&& s.exclude == sensor_excludes(scene, sensor, anchor)
        }),
{
}

} // verus!
