//! Devices at run time: conveyors, axes, sources, sinks, vehicles and lifts.

use vstd::prelude::*;

use crate::fixed::{clip, clipped, differ, difference, shorter_than, Pico, Pose, Vec3, MICRO, NANO};
use crate::names::{find, find_named, names_of, same, Named};
use crate::scene::{
    body_index, find_body, DeviceKind, DeviceSpec, Obstacle, VehiclePath,
};
use crate::vehicle::{Drive, Leg};
use crate::views::{copied, copied_names, views};

verus! {

/// A belt. While a fixed advance is pending it runs whatever `running` says.
#[derive(Clone, Copy, Debug, PartialEq, Eq, Structural)]
pub struct Conveyor {
    pub zone: Pose,
    pub size: Vec3,
    pub velocity: Vec3,
    pub running: bool,
    /// What is left of a fixed advance.
    pub remaining: Option<Pico>,
}

/// A linear axis and the bodies it moves.
#[derive(Debug)]
pub struct Axis {
    pub objects: Vec<String>,
    pub axis: Vec3,
    pub speed: Pico,
    pub position: Pico,
    pub target: Pico,
}

/// A feeder with a magazine of bodies.
#[derive(Debug)]
pub struct Source {
    pub pool: Vec<String>,
    pub park: Pose,
    pub pitch: Vec3,
    pub pose: Pose,
    pub interval: Pico,
    pub running: bool,
    /// Time until the next release is due.
    pub due: Pico,
    /// Per member of the pool: waiting in the magazine.
    pub parked: Vec<bool>,
}

/// A zone that takes bodies off the line, and the source they return to.
#[derive(Clone, Copy, Debug, PartialEq, Eq, Structural)]
pub struct Sink {
    pub zone: Pose,
    pub size: Vec3,
    pub source: Option<usize>,
}

/// A guided vehicle.
#[derive(Debug)]
pub struct Vehicle {
    pub waypoints: Vec<Vec3>,
    pub stations: Vec<(String, usize)>,
    pub ring: bool,
    pub body: Vec<String>,
    pub speed: Pico,
    pub turn_speed: Pico,
    pub drive: Drive,
    /// The load deck in the vehicle's frame: pose and size.
    pub tray: Option<(Pose, Vec3)>,
    pub position: Vec3,
    pub heading: Pico,
    /// The waypoint the vehicle is parked at; none while it travels.
    pub at: Option<usize>,
    /// The waypoint of the commanded station.
    pub target: usize,
    /// The remaining legs of the drive in progress.
    pub legs: Vec<Leg>,
}

/// An elevator: the car and whatever its zone held at dispatch ride between
/// named stops.
#[derive(Debug)]
pub struct Lift {
    pub car: Vec<String>,
    /// The capture zone at position zero; it rides with the car.
    pub zone: Pose,
    pub size: Vec3,
    pub axis: Vec3,
    pub speed: Pico,
    pub stops: Vec<(String, Pico)>,
    pub position: Pico,
    pub target: Pico,
    pub cargo_objects: Vec<String>,
    pub cargo_vehicles: Vec<String>,
}

/// What a device is doing.
#[derive(Debug)]
pub enum DeviceRuntime {
    Conveyor(Conveyor),
    Axis(Axis),
    Source(Source),
    Sink(Sink),
    Vehicle(Vehicle),
    Lift(Lift),
}

/// A device and its output lane.
#[derive(Debug)]
pub struct Device {
    pub name: String,
    pub lane: usize,
    pub state: DeviceRuntime,
}

#[verifier::ext_equal]
pub struct AxisView {
    pub objects: Seq<String>,
    pub axis: Vec3,
    pub speed: Pico,
    pub position: Pico,
    pub target: Pico,
}

#[verifier::ext_equal]
pub struct SourceView {
    pub pool: Seq<String>,
    pub park: Pose,
    pub pitch: Vec3,
    pub pose: Pose,
    pub interval: Pico,
    pub running: bool,
    pub due: Pico,
    pub parked: Seq<bool>,
}

#[verifier::ext_equal]
pub struct VehicleView {
    pub waypoints: Seq<Vec3>,
    pub stations: Seq<(String, usize)>,
    pub ring: bool,
    pub body: Seq<String>,
    pub speed: Pico,
    pub turn_speed: Pico,
    pub drive: Drive,
    pub tray: Option<(Pose, Vec3)>,
    pub position: Vec3,
    pub heading: Pico,
    pub at: Option<usize>,
    pub target: usize,
    pub legs: Seq<Leg>,
}

#[verifier::ext_equal]
pub struct LiftView {
    pub car: Seq<String>,
    pub zone: Pose,
    pub size: Vec3,
    pub axis: Vec3,
    pub speed: Pico,
    pub stops: Seq<(String, Pico)>,
    pub position: Pico,
    pub target: Pico,
    pub cargo_objects: Seq<String>,
    pub cargo_vehicles: Seq<String>,
}

/// What a device's state says.
#[verifier::ext_equal]
pub enum StateView {
    Conveyor(Conveyor),
    Axis(AxisView),
    Source(SourceView),
    Sink(Sink),
    Vehicle(VehicleView),
    Lift(LiftView),
}

/// What a device says.
#[verifier::ext_equal]
pub struct DeviceView {
    pub name: String,
    pub lane: usize,
    pub state: StateView,
}

impl View for Axis {
    type V = AxisView;

    open spec fn view(&self) -> AxisView {
        AxisView {
            objects: self.objects@,
            axis: self.axis,
            speed: self.speed,
            position: self.position,
            target: self.target,
        }
    }
}

impl View for Source {
    type V = SourceView;

    open spec fn view(&self) -> SourceView {
        SourceView {
            pool: self.pool@,
            park: self.park,
            pitch: self.pitch,
            pose: self.pose,
            interval: self.interval,
            running: self.running,
            due: self.due,
            parked: self.parked@,
        }
    }
}

impl View for Vehicle {
    type V = VehicleView;

    open spec fn view(&self) -> VehicleView {
        VehicleView {
            waypoints: self.waypoints@,
            stations: self.stations@,
            ring: self.ring,
            body: self.body@,
            speed: self.speed,
            turn_speed: self.turn_speed,
            drive: self.drive,
            tray: self.tray,
            position: self.position,
            heading: self.heading,
            at: self.at,
            target: self.target,
            legs: self.legs@,
        }
    }
}

impl View for Lift {
    type V = LiftView;

    open spec fn view(&self) -> LiftView {
        LiftView {
            car: self.car@,
            zone: self.zone,
            size: self.size,
            axis: self.axis,
            speed: self.speed,
            stops: self.stops@,
            position: self.position,
            target: self.target,
            cargo_objects: self.cargo_objects@,
            cargo_vehicles: self.cargo_vehicles@,
        }
    }
}

impl View for DeviceRuntime {
    type V = StateView;

    open spec fn view(&self) -> StateView {
        match self {
            DeviceRuntime::Conveyor(c) => StateView::Conveyor(*c),
            DeviceRuntime::Axis(a) => StateView::Axis(a@),
            DeviceRuntime::Source(s) => StateView::Source(s@),
            DeviceRuntime::Sink(s) => StateView::Sink(*s),
            DeviceRuntime::Vehicle(v) => StateView::Vehicle(v@),
            DeviceRuntime::Lift(l) => StateView::Lift(l@),
        }
    }
}

impl View for Device {
    type V = DeviceView;

    open spec fn view(&self) -> DeviceView {
        DeviceView { name: self.name, lane: self.lane, state: self.state@ }
    }
}

impl Named for Device {
    open spec fn named(&self) -> Seq<char> {
        self.name@
    }

    fn get_name(&self) -> (r: &String) {
        &self.name
    }
}

/// The names of a list of devices.
pub open spec fn device_names(devices: Seq<DeviceView>) -> Seq<Seq<char>> {
    Seq::new(devices.len(), |i: int| devices[i].name@)
}

/// The `i`th slot of a magazine.
pub open spec fn slot(park: Pose, pitch: Vec3, i: int) -> Pose {
    Pose {
        at: Vec3 {
            x: clip(park.at.x + pitch.x * i),
            y: clip(park.at.y + pitch.y * i),
            z: clip(park.at.z + pitch.z * i),
        },
        ..park
    }
}

fn slot_part(at: Pico, pitch: Pico, i: usize) -> (r: Pico)
    ensures
        r == clip(at + pitch * i),
{
    assert(-0x8000_0000_0000_0000 * 0xffff_ffff_ffff_ffff <= pitch * i
        <= 0x8000_0000_0000_0000 * 0xffff_ffff_ffff_ffff) by (nonlinear_arith)
        requires
            -0x8000_0000_0000_0000 <= pitch <= 0x7fff_ffff_ffff_ffff,
            0 <= i <= 0xffff_ffff_ffff_ffff,
    ;
    clipped(at as i128 + pitch as i128 * i as i128)
}

/// The `i`th slot of a magazine.
pub fn slot_at(park: Pose, pitch: Vec3, i: usize) -> (r: Pose)
    ensures
        r == slot(park, pitch, i as int),
{
    Pose {
        at: Vec3 {
            x: slot_part(park.at.x, pitch.x, i),
            y: slot_part(park.at.y, pitch.y, i),
            z: slot_part(park.at.z, pitch.z, i),
        },
        i: park.i,
        j: park.j,
        k: park.k,
        w: park.w,
    }
}

/// Whether a member of a pool sits on its slot.
pub open spec fn sits_in_slot(
    obstacles: Seq<Obstacle>,
    name: Seq<char>,
    park: Pose,
    pitch: Vec3,
    i: int,
) -> bool {
    match body_index(obstacles, name) {
        Some(k) => difference(obstacles[k].pose.at, slot(park, pitch, i).at).square() < MICRO
            * MICRO,
        None => false,
    }
}

/// The waypoint of a station.
pub open spec fn station_index(stations: Seq<(String, usize)>, station: Seq<char>) -> Option<usize> {
    match find(names_of(stations), station) {
        Some(i) => Some(stations[i].1),
        None => None,
    }
}

/// The position of a stop.
pub open spec fn stop_position(stops: Seq<(String, Pico)>, stop: Seq<char>) -> Option<Pico> {
    match find(names_of(stops), stop) {
        Some(i) => Some(stops[i].1),
        None => None,
    }
}

/// The waypoint of a station.
pub fn find_station(stations: &Vec<(String, usize)>, station: &str) -> (r: Option<usize>)
    ensures
        r == station_index(stations@, station@),
{
    match find_named(stations, station) {
        Some(i) => Some(stations[i].1),
        None => None,
    }
}

/// The position of a stop.
pub fn find_stop(stops: &Vec<(String, Pico)>, stop: &str) -> (r: Option<Pico>)
    ensures
        r == stop_position(stops@, stop@),
{
    match find_named(stops, stop) {
        Some(i) => Some(stops[i].1),
        None => None,
    }
}

/// Where a vehicle starts: the waypoint of its start station, the first where
/// there is none.
pub open spec fn start_waypoint(path: VehiclePath, start: Seq<char>) -> usize {
    match station_index(path.stations@, start) {
        Some(i) => i,
        None => 0,
    }
}

/// What a device starts as.
pub open spec fn started(
    kind: DeviceKind,
    specs: Seq<DeviceSpec>,
    obstacles: Seq<Obstacle>,
) -> StateView {
    match kind {
        DeviceKind::Conveyor { zone, size, velocity, running } => StateView::Conveyor(
            Conveyor { zone, size, velocity, running, remaining: None },
        ),
        DeviceKind::LinearAxis { objects, axis, speed, position } => StateView::Axis(
            AxisView { objects: objects@, axis, speed, position, target: position },
        ),
        DeviceKind::Source { pool, park, pitch, pose, interval, running } => StateView::Source(
            SourceView {
                pool: pool@,
                park,
                pitch,
                pose,
                interval,
                running,
                due: 0,
                parked: Seq::new(
                    pool@.len(),
                    |i: int| sits_in_slot(obstacles, pool@[i]@, park, pitch, i),
                ),
            },
        ),
        DeviceKind::Sink { zone, size, source } => StateView::Sink(
            Sink {
                zone,
                size,
                source: match find(names_of(specs), source@) {
                    Some(i) => Some(i as usize),
                    None => None,
                },
            },
        ),
        DeviceKind::Vehicle { path, body, speed, turn_speed, start, drive, tray } => {
            let at = start_waypoint(path, start@);
            StateView::Vehicle(
                VehicleView {
                    waypoints: path.waypoints@,
                    stations: path.stations@,
                    ring: path.ring,
                    body: body@,
                    speed,
                    turn_speed,
                    drive,
                    tray,
                    position: if at < path.waypoints@.len() {
                        path.waypoints@[at as int]
                    } else {
                        Vec3 { x: 0, y: 0, z: 0 }
                    },
                    heading: if at < path.headings@.len() {
                        path.headings@[at as int]
                    } else {
                        0
                    },
                    at: Some(at),
                    target: at,
                    legs: Seq::empty(),
                },
            )
        },
        DeviceKind::Lift { car, zone, size, axis, speed, stops, start } => {
            let position = match stop_position(stops@, start@) {
                Some(p) => p,
                None => 0,
            };
            StateView::Lift(
                LiftView {
                    car: car@,
                    zone,
                    size,
                    axis,
                    speed,
                    stops: stops@,
                    position,
                    target: position,
                    cargo_objects: Seq::empty(),
                    cargo_vehicles: Seq::empty(),
                },
            )
        },
    }
}

/// The level of a device's lane at the start: what runs from the start is
/// high.
pub open spec fn starts_high(kind: DeviceKind) -> bool {
    match kind {
        DeviceKind::Conveyor { running, .. } => running,
        DeviceKind::Source { running, .. } => running,
        _ => false,
    }
}

/// The level of a device's lane at the start.
pub fn initially_high(kind: &DeviceKind) -> (r: bool)
    ensures
        r == starts_high(*kind),
{
    match kind {
        DeviceKind::Conveyor { running, .. } => *running,
        DeviceKind::Source { running, .. } => *running,
        _ => false,
    }
}

fn copied_stations(list: &Vec<(String, usize)>) -> (r: Vec<(String, usize)>)
    ensures
        r@ == list@,
{
    let mut out: Vec<(String, usize)> = Vec::new();
    let mut i: usize = 0;
    while i < list.len()
        invariant
            i <= list.len(),
            out@ == list@.take(i as int),
        decreases list.len() - i,
    {
        out.push((list[i].0.clone(), list[i].1));
        i = i + 1;
        assert(out@ =~= list@.take(i as int));
    }
    assert(list@.take(i as int) =~= list@);
    out
}

fn copied_stops(list: &Vec<(String, Pico)>) -> (r: Vec<(String, Pico)>)
    ensures
        r@ == list@,
{
    let mut out: Vec<(String, Pico)> = Vec::new();
    let mut i: usize = 0;
    while i < list.len()
        invariant
            i <= list.len(),
            out@ == list@.take(i as int),
        decreases list.len() - i,
    {
        out.push((list[i].0.clone(), list[i].1));
        i = i + 1;
        assert(out@ =~= list@.take(i as int));
    }
    assert(list@.take(i as int) =~= list@);
    out
}

fn seed_magazine(
    pool: &Vec<String>,
    obstacles: &Vec<Obstacle>,
    park: Pose,
    pitch: Vec3,
) -> (r: Vec<bool>)
    ensures
        r@ == Seq::new(
            pool@.len(),
            |i: int| sits_in_slot(obstacles@, pool@[i]@, park, pitch, i),
        ),
{
    let ghost want = Seq::new(
        pool@.len(),
        |i: int| sits_in_slot(obstacles@, pool@[i]@, park, pitch, i),
    );
    let mut out: Vec<bool> = Vec::new();
    let mut i: usize = 0;
    while i < pool.len()
        invariant
            i <= pool.len(),
            want == Seq::new(
                pool@.len(),
                |k: int| sits_in_slot(obstacles@, pool@[k]@, park, pitch, k),
            ),
            out@ == want.take(i as int),
        decreases pool.len() - i,
    {
        let waiting: bool = match find_body(obstacles, pool[i].as_str()) {
            Some(k) => {
                let off: Vec3 = differ(obstacles[k].pose.at, slot_at(park, pitch, i).at);
                shorter_than(off, MICRO)
            },
            None => false,
        };
        assert(waiting == want[i as int]);
        out.push(waiting);
        i = i + 1;
        assert(out@ =~= want.take(i as int));
    }
    assert(out@ =~= want);
    out
}

impl DeviceRuntime {
    /// A device as it starts.
    pub fn start(
        kind: &DeviceKind,
        specs: &Vec<DeviceSpec>,
        obstacles: &Vec<Obstacle>,
    ) -> (r: DeviceRuntime)
        ensures
            r@ == started(*kind, specs@, obstacles@),
    {
        match kind {
            DeviceKind::Conveyor { zone, size, velocity, running } => DeviceRuntime::Conveyor(
                Conveyor {
                    zone: *zone,
                    size: *size,
                    velocity: *velocity,
                    running: *running,
                    remaining: None,
                },
            ),
            DeviceKind::LinearAxis { objects, axis, speed, position } => DeviceRuntime::Axis(
                Axis {
                    objects: copied_names(objects),
                    axis: *axis,
                    speed: *speed,
                    position: *position,
                    target: *position,
                },
            ),
            DeviceKind::Source { pool, park, pitch, pose, interval, running } => {
                // A member sitting on its parking slot is waiting, anything
                // else is already out on the line.
                let parked: Vec<bool> = seed_magazine(pool, obstacles, *park, *pitch);
                DeviceRuntime::Source(
                    Source {
                        pool: copied_names(pool),
                        park: *park,
                        pitch: *pitch,
                        pose: *pose,
                        interval: *interval,
                        running: *running,
                        due: 0,
                        parked,
                    },
                )
            },
            DeviceKind::Sink { zone, size, source } => DeviceRuntime::Sink(
                Sink { zone: *zone, size: *size, source: find_named(specs, source.as_str()) },
            ),
            DeviceKind::Vehicle { path, body, speed, turn_speed, start, drive, tray } => {
                let at: usize = match find_station(&path.stations, start.as_str()) {
                    Some(i) => i,
                    None => 0,
                };
                let position: Vec3 = if at < path.waypoints.len() {
                    path.waypoints[at]
                } else {
                    Vec3 { x: 0, y: 0, z: 0 }
                };
                let heading: Pico = if at < path.headings.len() {
                    path.headings[at]
                } else {
                    0
                };
                let v: Vehicle = Vehicle {
                    waypoints: copied(&path.waypoints),
                    stations: copied_stations(&path.stations),
                    ring: path.ring,
                    body: copied_names(body),
                    speed: *speed,
                    turn_speed: *turn_speed,
                    drive: *drive,
                    tray: *tray,
                    position,
                    heading,
                    at: Some(at),
                    target: at,
                    legs: Vec::new(),
                };
                DeviceRuntime::Vehicle(v)
            },
            DeviceKind::Lift { car, zone, size, axis, speed, stops, start } => {
                let position: Pico = match find_stop(stops, start.as_str()) {
                    Some(p) => p,
                    None => 0,
                };
                DeviceRuntime::Lift(
                    Lift {
                        car: copied_names(car),
                        zone: *zone,
                        size: *size,
                        axis: *axis,
                        speed: *speed,
                        stops: copied_stops(stops),
                        position,
                        target: position,
                        cargo_objects: Vec::new(),
                        cargo_vehicles: Vec::new(),
                    },
                )
            },
        }
    }
}

impl StateView {
    /// In position: nothing commanded is still under way. What runs
    /// continuously is never done.
    pub open spec fn done(self) -> bool {
        match self {
            StateView::Conveyor(c) => c.remaining is None,
            StateView::Axis(a) => -NANO < a.target - a.position < NANO,
            StateView::Lift(l) => -NANO < l.target - l.position < NANO,
            StateView::Vehicle(v) => v.legs.len() == 0,
            StateView::Source(_) => false,
            StateView::Sink(_) => false,
        }
    }

    /// A travelling vehicle.
    pub open spec fn travelling(self) -> bool {
        self matches StateView::Vehicle(v) && v.legs.len() > 0
    }
}

fn near(a: Pico, b: Pico) -> (r: bool)
    ensures
        r == (-NANO < a - b < NANO),
{
    let d: i128 = a as i128 - b as i128;
    -(NANO as i128) < d && d < NANO as i128
}

/// Whether a device of that name is in position.
pub open spec fn device_done(devices: Seq<DeviceView>, name: Seq<char>) -> bool {
    exists|i: int|
        0 <= i < devices.len() && (#[trigger] devices[i]).name@ == name && devices[i].state.done()
}

/// Whether a vehicle of that name is travelling.
pub open spec fn driving(devices: Seq<DeviceView>, name: Seq<char>) -> bool {
    exists|i: int|
        0 <= i < devices.len() && (#[trigger] devices[i]).name@ == name
            && devices[i].state.travelling()
}

impl DeviceRuntime {
    pub fn is_done(&self) -> (r: bool)
        ensures
            r == self@.done(),
    {
        match self {
            DeviceRuntime::Conveyor(c) => c.remaining.is_none(),
            DeviceRuntime::Axis(a) => near(a.target, a.position),
            DeviceRuntime::Lift(l) => near(l.target, l.position),
            DeviceRuntime::Vehicle(v) => v.legs.len() == 0,
            DeviceRuntime::Source(_) => false,
            DeviceRuntime::Sink(_) => false,
        }
    }

    pub fn is_travelling(&self) -> (r: bool)
        ensures
            r == self@.travelling(),
    {
        match self {
            DeviceRuntime::Vehicle(v) => v.legs.len() > 0,
            _ => false,
        }
    }
}

/// Whether a device of that name is in position.
pub fn is_device_done(devices: &Vec<Device>, name: &str) -> (r: bool)
    ensures
        r == device_done(views(devices@), name@),
{
    let mut i: usize = 0;
    let ghost all = views(devices@);
    while i < devices.len()
        invariant
            i <= devices.len(),
            all == views(devices@),
            forall|k: int|
                0 <= k < i ==> !((#[trigger] all[k]).name@ == name@ && all[k].state.done()),
        decreases devices.len() - i,
    {
        assert(all[i as int] == devices@[i as int]@);
        if same(devices[i].name.as_str(), name) && devices[i].state.is_done() {
            assert(all[i as int].name@ == name@);
            return true;
        }
        i = i + 1;
    }
    false
}

/// Whether a vehicle of that name is travelling.
pub fn is_driving(devices: &Vec<Device>, name: &str) -> (r: bool)
    ensures
        r == driving(views(devices@), name@),
{
    let mut i: usize = 0;
    let ghost all = views(devices@);
    while i < devices.len()
        invariant
            i <= devices.len(),
            all == views(devices@),
            forall|k: int|
                0 <= k < i ==> !((#[trigger] all[k]).name@ == name@ && all[k].state.travelling()),
        decreases devices.len() - i,
    {
        assert(all[i as int] == devices@[i as int]@);
        if same(devices[i].name.as_str(), name) && devices[i].state.is_travelling() {
            assert(all[i as int].name@ == name@);
            return true;
        }
        i = i + 1;
    }
    false
}

/// A member of a pool waits in its slot where its body is less than 10^-6 m from it.
pub proof fn law_a_member_waits_where_its_slot_is(
    obstacles: Seq<Obstacle>,
    name: Seq<char>,
    park: Pose,
    pitch: Vec3,
    i: int,
    k: int,
)
    ensures
        0 <= k < obstacles.len() && obstacles[k].name@ == name && (forall|j: int|
            0 <= j < k ==> (#[trigger] obstacles[j]).name@ != name) ==> {
            let d = difference(obstacles[k].pose.at, slot(park, pitch, i).at);
            sits_in_slot(obstacles, name, park, pitch, i) <==> d.x * d.x + d.y * d.y + d.z * d.z
                < 1_000_000_000_000
        },
        (forall|j: int| 0 <= j < obstacles.len() ==> (#[trigger] obstacles[j]).name@ != name)
            ==> !sits_in_slot(obstacles, name, park, pitch, i),
{
    crate::names::law_a_name_stands_for_the_first(obstacles, name, k);
    assert(MICRO * MICRO == 1_000_000_000_000) by (nonlinear_arith)
        requires
            MICRO == 1_000_000i64,
    ;
    if 0 <= k < obstacles.len() {
        let d = difference(obstacles[k].pose.at, slot(park, pitch, i).at);
        assert(d.square() == d.x * d.x + d.y * d.y + d.z * d.z);
    }
}

/// A station and a stop are found by name, the first that bears it.
pub proof fn law_stations_and_stops_are_found_by_name(
    stations: Seq<(String, usize)>,
    stops: Seq<(String, Pico)>,
    name: Seq<char>,
    i: int,
)
    ensures
        0 <= i < stations.len() && stations[i].0@ == name && (forall|j: int|
            0 <= j < i ==> (#[trigger] stations[j]).0@ != name) ==> station_index(stations, name)
            == Some(stations[i].1),
        (forall|j: int| 0 <= j < stations.len() ==> (#[trigger] stations[j]).0@ != name)
            ==> station_index(stations, name) is None,
        0 <= i < stops.len() && stops[i].0@ == name && (forall|j: int|
            0 <= j < i ==> (#[trigger] stops[j]).0@ != name) ==> stop_position(stops, name) == Some(
            stops[i].1,
        ),
        (forall|j: int| 0 <= j < stops.len() ==> (#[trigger] stops[j]).0@ != name)
            ==> stop_position(stops, name) is None,
{
    crate::names::law_a_name_stands_for_the_first(stations, name, i);
    crate::names::law_a_name_stands_for_the_first(stops, name, i);
}

/// A device starts as it is authored, and at rest: belts and sources run where they are
/// told to and have nothing left to do or due now; axes and lifts are where they are
/// heading; a vehicle is parked at its start station, facing as it does there.
pub proof fn law_devices_start_at_rest(
    kind: DeviceKind,
    specs: Seq<DeviceSpec>,
    obstacles: Seq<Obstacle>,
)
    ensures
        match (kind, started(kind, specs, obstacles)) {
            (DeviceKind::Conveyor { velocity, running, size, .. }, StateView::Conveyor(c)) => {
                c.velocity == velocity && c.running == running && c.size == size && c.remaining
                    is None
            },
            (DeviceKind::LinearAxis { position, speed, .. }, StateView::Axis(a)) => a.position
                == position && a.target == position && a.speed == speed,
            (DeviceKind::Source { pool, interval, running, pose, .. }, StateView::Source(s)) => {
                s.pool == pool@ && s.interval == interval && s.running == running && s.due == 0
                    && s.pose == pose && s.parked.len() == pool@.len()
            },
            (DeviceKind::Sink { size, .. }, StateView::Sink(s)) => s.size == size,
            (DeviceKind::Vehicle { path, start, speed, turn_speed, .. }, StateView::Vehicle(v)) => {
                let at = match station_index(path.stations@, start@) {
                    Some(i) => i,
                    None => 0,
                };
                &&& v.at == Some(at)
                &&& v.target == at
                &&& v.legs.len() == 0
                &&& v.speed == speed
                &&& v.turn_speed == turn_speed
                &&& at < path.waypoints@.len() ==> v.position == path.waypoints@[at as int]
                &&& at < path.headings@.len() ==> v.heading == path.headings@[at as int]
            },
            (DeviceKind::Lift { stops, start, speed, .. }, StateView::Lift(l)) => {
                let at = match stop_position(stops@, start@) {
                    Some(p) => p,
                    None => 0,
                };
                &&& l.position == at
                &&& l.target == at
                &&& l.speed == speed
                &&& l.cargo_objects.len() == 0
                &&& l.cargo_vehicles.len() == 0
            },
            _ => false,
        },
{
}

} // verus!
