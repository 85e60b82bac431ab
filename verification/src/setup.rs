//! Setting a rollout up from a scene.

use vstd::prelude::*;

use crate::command::{guided, sound};
use crate::devices::{
    initially_high, slot, slot_at, started, starts_high, Device, DeviceRuntime, DeviceView, Source,
    StateView,
};
use crate::fixed::{Pico, Pose};
use crate::flat::{flat_steps, flatten, law_flat_size, law_forward_only, lemma_formed, FlatStep};
use crate::lanes::{BoolTrack, LaneKind, LaneView, Lanes, LanesView};
use crate::names::{find, lemma_find, names_of};
use crate::robots::{lemma_spin_joints, robot_sound, robot_start, well_jointed, RobotRuntime};
use crate::rollout::{MovingView, Program, ProgramView, Rollout, RolloutOptions, RolloutView};
use crate::scene::{Attachment, DeviceKind, Obstacle, Robot, Scene, Sensor, Signal, VehiclePath};
use crate::sensors::{sensor_start, SensorRuntime};
use crate::seq::{size_steps, Sequence};
use crate::supply::lanes_exist;
use crate::tick::all_sound;
use crate::timeline::{BranchView, StepSpanView};
use crate::tracks::{ObjectTrack, TrackSpan, TrackView, Tracks};
use crate::views::views;
use crate::walk::{check_gait, gait_fits};

verus! {

/// A path whose stations are waypoints of it.
pub open spec fn valid_device(kind: DeviceKind) -> bool {
    match kind {
        DeviceKind::Vehicle { path, .. } => forall|i: int|
            0 <= i < path.stations@.len() ==> (#[trigger] path.stations@[i]).1
                < path.waypoints@.len(),
        _ => true,
    }
}

/// A robot whose joints and gait fit its configuration.
pub open spec fn valid_robot(robot: Robot) -> bool {
    &&& well_jointed(robot)
    &&& robot.actuated@.len() == robot.q@.len()
    &&& forall|i: int|
        0 <= i < robot.joints@.len() ==> ((#[trigger] robot.joints@[i]).q_index matches Some(qi)
            ==> qi < robot.q@.len())
    &&& robot.mount matches Some(m) ==> (m.gait matches Some(g) ==> gait_fits(robot, g))
}

/// A scene whose parts refer to parts that are there.
pub open spec fn valid(scene: Scene) -> bool {
    &&& forall|i: int| 0 <= i < scene.devices@.len() ==> valid_device((#[trigger] scene.devices@[i]).kind)
    &&& forall|i: int| 0 <= i < scene.robots@.len() ==> valid_robot(#[trigger] scene.robots@[i])
    &&& forall|i: int|
        0 <= i < scene.motions@.len() ==> (#[trigger] scene.motions@[i]).robot
            < scene.robots@.len()
    &&& forall|i: int|
        0 <= i < scene.attachments@.len() ==> (#[trigger] scene.attachments@[i]).robot
            < scene.robots@.len()
}

fn check_path(path: &VehiclePath) -> (r: bool)
    ensures
        r == (forall|i: int|
            0 <= i < path.stations@.len() ==> (#[trigger] path.stations@[i]).1
                < path.waypoints@.len()),
{
    let mut i: usize = 0;
    while i < path.stations.len()
        invariant
            i <= path.stations.len(),
            forall|k: int|
                0 <= k < i ==> (#[trigger] path.stations@[k]).1 < path.waypoints@.len(),
        decreases path.stations.len() - i,
    {
        if path.stations[i].1 >= path.waypoints.len() {
            assert(!(path.stations@[i as int].1 < path.waypoints@.len()));
            return false;
        }
        i = i + 1;
    }
    true
}

fn check_device(kind: &DeviceKind) -> (r: bool)
    ensures
        r == valid_device(*kind),
{
    match kind {
        DeviceKind::Vehicle { path, .. } => check_path(path),
        _ => true,
    }
}

fn check_robot(robot: &Robot) -> (r: bool)
    ensures
        r == valid_robot(*robot),
{
    let mut i: usize = 0;
    while i < robot.actuated.len()
        invariant
            i <= robot.actuated.len(),
            forall|k: int|
                0 <= k < i ==> (#[trigger] robot.actuated@[k]) < robot.joints@.len(),
        decreases robot.actuated.len() - i,
    {
        if robot.actuated[i] >= robot.joints.len() {
            assert(!(robot.actuated@[i as int] < robot.joints@.len()));
            return false;
        }
        i = i + 1;
    }
    if robot.actuated.len() != robot.q.len() {
        return false;
    }
    let mut j: usize = 0;
    while j < robot.joints.len()
        invariant
            j <= robot.joints.len(),
            forall|k: int|
                0 <= k < j ==> ((#[trigger] robot.joints@[k]).q_index matches Some(qi) ==> qi
                    < robot.q@.len()),
        decreases robot.joints.len() - j,
    {
        match robot.joints[j].q_index {
            Some(qi) => {
                if qi >= robot.q.len() {
                    assert(robot.joints@[j as int].q_index == Some(qi));
                    return false;
                }
            },
            None => {},
        }
        j = j + 1;
    }
    match &robot.mount {
        Some(m) => match &m.gait {
            Some(g) => check_gait(robot, g),
            None => true,
        },
        None => true,
    }
}

impl Scene {
    /// Whether the scene's parts refer to parts that are there.
    pub fn is_valid(&self) -> (r: bool)
        ensures
            r == valid(*self),
    {
        let mut i: usize = 0;
        while i < self.devices.len()
            invariant
                i <= self.devices.len(),
                forall|k: int| 0 <= k < i ==> valid_device((#[trigger] self.devices@[k]).kind),
            decreases self.devices.len() - i,
        {
            if !check_device(&self.devices[i].kind) {
                assert(!valid_device(self.devices@[i as int].kind));
                return false;
            }
            i = i + 1;
        }
        let mut r: usize = 0;
        while r < self.robots.len()
            invariant
                r <= self.robots.len(),
                forall|k: int| 0 <= k < r ==> valid_robot(#[trigger] self.robots@[k]),
            decreases self.robots.len() - r,
        {
            if !check_robot(&self.robots[r]) {
                assert(!valid_robot(self.robots@[r as int]));
                return false;
            }
            r = r + 1;
        }
        let mut m: usize = 0;
        while m < self.motions.len()
            invariant
                m <= self.motions.len(),
                forall|k: int|
                    0 <= k < m ==> (#[trigger] self.motions@[k]).robot < self.robots@.len(),
            decreases self.motions.len() - m,
        {
            if self.motions[m].robot >= self.robots.len() {
                assert(!(self.motions@[m as int].robot < self.robots@.len()));
                return false;
            }
            m = m + 1;
        }
        let mut a: usize = 0;
        while a < self.attachments.len()
            invariant
                a <= self.attachments.len(),
                forall|k: int|
                    0 <= k < a ==> (#[trigger] self.attachments@[k]).robot < self.robots@.len(),
            decreases self.attachments.len() - a,
        {
            if self.attachments[a].robot >= self.robots.len() {
                assert(!(self.attachments@[a as int].robot < self.robots@.len()));
                return false;
            }
            a = a + 1;
        }
        true
    }
}

/// A lane as it starts.
pub open spec fn fresh_lane(name: Seq<char>, value: bool, kind: LaneKind) -> LaneView {
    LaneView { name, edges: seq![(0i64, value)], kind }
}

/// The lanes of a scene: internal relays, then sensor inputs, then device
/// outputs.
pub open spec fn fresh_lanes(scene: Scene) -> Seq<LaneView> {
    Seq::new(
        scene.signals@.len(),
        |i: int| fresh_lane(scene.signals@[i].name@, scene.signals@[i].initial, LaneKind::Signal),
    ) + Seq::new(
        scene.sensors@.len(),
        |i: int| fresh_lane(scene.sensors@[i].name@, false, LaneKind::Sensor),
    ) + Seq::new(
        scene.devices@.len(),
        |i: int|
            fresh_lane(
                scene.devices@[i].name@,
                starts_high(scene.devices@[i].kind),
                LaneKind::Device,
            ),
    )
}

/// The names of a list of lanes.
pub open spec fn lane_names(tracks: Seq<LaneView>) -> Seq<Seq<char>> {
    Seq::new(tracks.len(), |i: int| tracks[i].name)
}

/// The lanes that a scenario pins; a name that is no lane is left out.
pub open spec fn pins(names: Seq<Seq<char>>, forced: Seq<(String, bool)>) -> Seq<(usize, bool)>
    decreases forced.len(),
{
    if forced.len() == 0 {
        Seq::empty()
    } else {
        let less = pins(names, forced.drop_last());
        match find(names, forced.last().0@) {
            Some(lane) => less.push((lane as usize, forced.last().1)),
            None => less,
        }
    }
}

/// Lanes seeded with the levels they are pinned to: a pinned input is a level
/// from the start, not an edge.
pub open spec fn seeded(tracks: Seq<LaneView>, forced: Seq<(usize, bool)>) -> Seq<LaneView>
    decreases forced.len(),
{
    if forced.len() == 0 {
        tracks
    } else {
        let less = seeded(tracks, forced.drop_last());
        let lane = forced.last().0 as int;
        less.update(lane, LaneView { edges: seq![(0i64, forced.last().1)], ..less[lane] })
    }
}

/// The lanes that a rollout starts with.
pub open spec fn start_lanes(scene: Scene) -> LanesView {
    let fresh = fresh_lanes(scene);
    let forced = pins(lane_names(fresh), scene.forced_inputs@);
    LanesView { tracks: seeded(fresh, forced), forced }
}

/// A device as a rollout starts it.
pub open spec fn start_device(scene: Scene, i: int) -> DeviceView {
    DeviceView {
        name: scene.devices@[i].name,
        lane: (scene.signals@.len() + scene.sensors@.len() + i) as usize,
        state: started(scene.devices@[i].kind, scene.devices@, scene.obstacles@),
    }
}

/// The tracks of what waits in a source's magazine among the first `n`
/// members of its pool: stock, not scenery.
pub open spec fn stock(pool: Seq<String>, parked: Seq<bool>, park: Pose, pitch: crate::fixed::Vec3, n: nat) -> Seq<
    TrackView,
>
    decreases n,
{
    if n == 0 {
        Seq::empty()
    } else {
        let less = stock(pool, parked, park, pitch, (n - 1) as nat);
        if parked[n - 1] {
            less.push(
                TrackView {
                    name: pool[n - 1]@,
                    spans: seq![
                        TrackSpan::Stowed { t0: 0, t1: 0, pose: slot(park, pitch, n - 1) },
                    ],
                },
            )
        } else {
            less
        }
    }
}

/// The tracks of what waits in the magazines of the first `n` devices.
pub open spec fn stowed_tracks(devices: Seq<DeviceView>, n: nat) -> Seq<TrackView>
    decreases n,
{
    if n == 0 {
        Seq::empty()
    } else {
        stowed_tracks(devices, (n - 1) as nat) + (match devices[n - 1].state {
            StateView::Source(s) => stock(s.pool, s.parked, s.park, s.pitch, s.pool.len()),
            _ => Seq::empty(),
        })
    }
}

/// The tracks of what robots hold from the start.
pub open spec fn grasped_tracks(attachments: Seq<Attachment>) -> Seq<TrackView> {
    Seq::new(
        attachments.len(),
        |i: int|
            TrackView {
                name: attachments[i].object@,
                spans: seq![
                    TrackSpan::Follow {
                        t0: 0,
                        t1: 0,
                        robot: attachments[i].robot,
                        link: attachments[i].link,
                        offset: attachments[i].grasp,
                    },
                ],
            },
    )
}

/// A program before its first step.
pub open spec fn start_program(sequence: Sequence) -> ProgramView {
    ProgramView {
        sequence,
        flat: flat_steps(sequence.steps@, 0, size_steps(sequence.steps@) as int, 0),
        step: 0,
        entered_at: 0,
        move_ends: Seq::empty(),
        open_span: 0,
        prev_signals: Seq::empty(),
    }
}

/// A rollout before its first scan.
pub open spec fn start(
    scene: Scene,
    sequences: Seq<&Sequence>,
    options: RolloutOptions,
) -> RolloutView {
    let devices = Seq::new(scene.devices@.len(), |i: int| start_device(scene, i));
    RolloutView {
        scene,
        options,
        programs: Seq::new(sequences.len(), |i: int| start_program(*sequences[i])),
        current: 0,
        t: 0,
        obstacles: scene.obstacles@,
        attachments: scene.attachments@,
        bases: Seq::new(scene.robots@.len(), |i: int| scene.robots@[i].base),
        robots: Seq::new(
            scene.robots@.len(),
            |i: int| robot_start(scene.robots@[i], scene.devices@),
        ),
        sensors: Seq::new(
            scene.sensors@.len(),
            |i: int|
                sensor_start(scene, scene.sensors@[i], (scene.signals@.len() + i) as usize),
        ),
        devices,
        lanes: start_lanes(scene),
        moving: Seq::empty(),
        objects: grasped_tracks(scene.attachments@) + stowed_tracks(devices, devices.len()),
        vehicles: Seq::empty(),
        step_spans: Seq::empty(),
        branches: Seq::empty(),
    }
}

fn push_lane(tracks: &mut Vec<BoolTrack>, name: &String, value: bool, kind: LaneKind)
    ensures
        views(final(tracks)@) == views(old(tracks)@).push(fresh_lane(name@, value, kind)),
{
    let ghost before = views(tracks@);
    let mut edges: Vec<(Pico, bool)> = Vec::new();
    edges.push((0, value));
    let track: BoolTrack = BoolTrack { name: name.clone(), edges, kind };
    assert(track@ =~= fresh_lane(name@, value, kind));
    tracks.push(track);
    assert(views(tracks@) =~= before.push(fresh_lane(name@, value, kind)));
}

fn build_lanes(scene: &Scene) -> (r: Vec<BoolTrack>)
    ensures
        views(r@) == fresh_lanes(*scene),
{
    let ghost want = fresh_lanes(*scene);
    let ns: usize = scene.signals.len();
    let mut tracks: Vec<BoolTrack> = Vec::new();
    let mut i: usize = 0;
    assert(views(tracks@) =~= want.take(0));
    while i < scene.signals.len()
        invariant
            i <= scene.signals.len(),
            want == fresh_lanes(*scene),
            views(tracks@) == want.take(i as int),
        decreases scene.signals.len() - i,
    {
        push_lane(
            &mut tracks,
            &scene.signals[i].name,
            scene.signals[i].initial,
            LaneKind::Signal,
        );
        i = i + 1;
        assert(views(tracks@) =~= want.take(i as int));
    }
    let mut j: usize = 0;
    while j < scene.sensors.len()
        invariant
            j <= scene.sensors.len(),
            want == fresh_lanes(*scene),
            views(tracks@) == want.take(scene.signals@.len() + j),
        decreases scene.sensors.len() - j,
    {
        push_lane(&mut tracks, &scene.sensors[j].name, false, LaneKind::Sensor);
        j = j + 1;
        assert(views(tracks@) =~= want.take(scene.signals@.len() + j));
    }
    let mut k: usize = 0;
    while k < scene.devices.len()
        invariant
            k <= scene.devices.len(),
            want == fresh_lanes(*scene),
            views(tracks@) == want.take(scene.signals@.len() + scene.sensors@.len() + k),
        decreases scene.devices.len() - k,
    {
        push_lane(
            &mut tracks,
            &scene.devices[k].name,
            initially_high(&scene.devices[k].kind),
            LaneKind::Device,
        );
        k = k + 1;
        assert(views(tracks@) =~= want.take(scene.signals@.len() + scene.sensors@.len() + k));
    }
    assert(views(tracks@) =~= want);
    tracks
}

pub proof fn lemma_pins(names: Seq<Seq<char>>, forced: Seq<(String, bool)>)
    requires
        names.len() <= usize::MAX,
    ensures
        forall|i: int|
            0 <= i < pins(names, forced).len() ==> (#[trigger] pins(names, forced)[i]).0
                < names.len(),
    decreases forced.len(),
{
    if forced.len() > 0 {
        let less = pins(names, forced.drop_last());
        let all = pins(names, forced);
        lemma_pins(names, forced.drop_last());
        lemma_find(names, forced.last().0@, 0);
        assert forall|i: int| 0 <= i < all.len() implies (#[trigger] all[i]).0 < names.len() by {
            if i < less.len() {
                assert(all[i] == less[i]);
            }
        }
    }
}

/// Pins the lanes of a scenario's faults.
fn pin_lanes(tracks: Vec<BoolTrack>, inputs: &Vec<(String, bool)>) -> (r: Lanes)
    ensures
        ({
            let fresh = views(tracks@);
            let forced = pins(lane_names(fresh), inputs@);
            r@ == (LanesView { tracks: seeded(fresh, forced), forced })
        }),
        r.tracks@.len() == tracks@.len(),
{
    let ghost fresh = views(tracks@);
    let count: usize = tracks.len();
    assert(fresh.len() == count);
    let mut lanes: Lanes = Lanes { tracks, forced: Vec::new() };
    let mut forced: Vec<(usize, bool)> = Vec::new();
    let mut i: usize = 0;
    assert(lanes@.tracks =~= fresh);
    while i < inputs.len()
        invariant
            i <= inputs.len(),
            lanes@.tracks == fresh,
            forced@ == pins(lane_names(fresh), inputs@.take(i as int)),
        decreases inputs.len() - i,
    {
        assert(inputs@.take(i + 1).drop_last() =~= inputs@.take(i as int));
        assert(lanes@.names() =~= lane_names(fresh));
        match lanes.lane_index(inputs[i].0.as_str()) {
            Some(lane) => {
                forced.push((lane, inputs[i].1));
            },
            None => {},
        }
        i = i + 1;
    }
    assert(inputs@.take(i as int) =~= inputs@);
    proof {
        lemma_pins(lane_names(fresh), inputs@);
    }
    let mut k: usize = 0;
    assert(forced@.take(0) =~= Seq::<(usize, bool)>::empty());
    while k < forced.len()
        invariant
            k <= forced.len(),
            lanes.tracks@.len() == fresh.len(),
            forall|n: int| 0 <= n < forced@.len() ==> (#[trigger] forced@[n]).0 < fresh.len(),
            lanes@.tracks == seeded(fresh, forced@.take(k as int)),
        decreases forced.len() - k,
    {
        let (lane, value): (usize, bool) = forced[k];
        assert(forced@[k as int].0 < fresh.len());
        assert(forced@.take(k + 1).drop_last() =~= forced@.take(k as int));
        let ghost before = lanes@.tracks;
        let mut edges: Vec<(Pico, bool)> = Vec::new();
        edges.push((0, value));
        assert(edges@ =~= seq![(0i64, value)]);
        lanes.tracks[lane].edges = edges;
        assert(lanes@.tracks =~= seeded(fresh, forced@.take(k + 1)));
        k = k + 1;
    }
    assert(forced@.take(k as int) =~= forced@);
    lanes.forced = forced;
    lanes
}

fn copied_obstacles(list: &Vec<Obstacle>) -> (r: Vec<Obstacle>)
    ensures
        r@ == list@,
{
    let mut out: Vec<Obstacle> = Vec::new();
    let mut i: usize = 0;
    while i < list.len()
        invariant
            i <= list.len(),
            out@ == list@.take(i as int),
        decreases list.len() - i,
    {
        let o: &Obstacle = &list[i];
        out.push(
            Obstacle {
                name: o.name.clone(),
                pose: o.pose,
                enabled: o.enabled,
                walkable: o.walkable,
                half: o.half,
            },
        );
        i = i + 1;
        assert(out@ =~= list@.take(i as int));
    }
    assert(list@.take(i as int) =~= list@);
    out
}

fn copied_attachments(list: &Vec<Attachment>) -> (r: Vec<Attachment>)
    ensures
        r@ == list@,
{
    let mut out: Vec<Attachment> = Vec::new();
    let mut i: usize = 0;
    while i < list.len()
        invariant
            i <= list.len(),
            out@ == list@.take(i as int),
        decreases list.len() - i,
    {
        let a: &Attachment = &list[i];
        out.push(
            Attachment { object: a.object.clone(), robot: a.robot, link: a.link, grasp: a.grasp },
        );
        i = i + 1;
        assert(out@ =~= list@.take(i as int));
    }
    assert(list@.take(i as int) =~= list@);
    out
}

fn push_track(list: &mut Vec<ObjectTrack>, name: &String, span: TrackSpan)
    ensures
        views(final(list)@) == views(old(list)@).push(
            TrackView { name: name@, spans: seq![span] },
        ),
{
    let ghost before = views(list@);
    let mut spans: Vec<TrackSpan> = Vec::new();
    spans.push(span);
    assert(spans@ =~= seq![span]);
    list.push(ObjectTrack { name: name.clone(), spans });
    assert(views(list@) =~= before.push(TrackView { name: name@, spans: seq![span] }));
}

fn push_stock(list: &mut Vec<ObjectTrack>, s: &Source)
    requires
        s.parked@.len() == s.pool@.len(),
    ensures
        views(final(list)@) == views(old(list)@) + stock(
            s.pool@,
            s.parked@,
            s.park,
            s.pitch,
            s.pool@.len(),
        ),
{
    let ghost before = views(list@);
    let mut i: usize = 0;
    assert(before =~= before + Seq::<TrackView>::empty());
    while i < s.pool.len()
        invariant
            i <= s.pool.len(),
            s.parked@.len() == s.pool@.len(),
            views(list@) == before + stock(s.pool@, s.parked@, s.park, s.pitch, i as nat),
        decreases s.pool.len() - i,
    {
        let ghost less = stock(s.pool@, s.parked@, s.park, s.pitch, i as nat);
        if s.parked[i] {
            let span: TrackSpan = TrackSpan::Stowed {
                t0: 0,
                t1: 0,
                pose: slot_at(s.park, s.pitch, i),
            };
            push_track(list, &s.pool[i], span);
            assert(views(list@) =~= before + less.push(
                TrackView { name: s.pool@[i as int]@, spans: seq![span] },
            ));
        }
        i = i + 1;
    }
}

fn build_objects(attachments: &Vec<Attachment>, devices: &Vec<Device>) -> (r: Tracks)
    requires
        all_sound(views(devices@)),
    ensures
        r@ == grasped_tracks(attachments@) + stowed_tracks(views(devices@), devices@.len()),
{
    let mut list: Vec<ObjectTrack> = Vec::new();
    let ghost held = grasped_tracks(attachments@);
    let mut i: usize = 0;
    assert(views(list@) =~= held.take(0));
    while i < attachments.len()
        invariant
            i <= attachments.len(),
            held == grasped_tracks(attachments@),
            views(list@) == held.take(i as int),
        decreases attachments.len() - i,
    {
        let a: &Attachment = &attachments[i];
        push_track(
            &mut list,
            &a.object,
            TrackSpan::Follow { t0: 0, t1: 0, robot: a.robot, link: a.link, offset: a.grasp },
        );
        i = i + 1;
        assert(views(list@) =~= held.take(i as int));
    }
    assert(held.take(i as int) =~= held);
    let mut d: usize = 0;
    assert(views(list@) =~= held + stowed_tracks(views(devices@), 0));
    while d < devices.len()
        invariant
            d <= devices.len(),
            all_sound(views(devices@)),
            views(list@) == held + stowed_tracks(views(devices@), d as nat),
        decreases devices.len() - d,
    {
        assert(views(devices@)[d as int] == devices@[d as int]@);
        assert(sound(views(devices@)[d as int]));
        let ghost so_far = stowed_tracks(views(devices@), d as nat);
        let ghost listed = views(list@);
        match &devices[d].state {
            DeviceRuntime::Source(s) => {
                push_stock(&mut list, s);
                assert(views(list@) =~= held + (so_far + stock(
                    s.pool@,
                    s.parked@,
                    s.park,
                    s.pitch,
                    s.pool@.len(),
                )));
            },
            _ => {
                assert(so_far + Seq::<TrackView>::empty() =~= so_far);
            },
        }
        d = d + 1;
    }
    let tracks: Tracks = Tracks { list };
    assert(tracks@ =~= views(tracks.list@));
    tracks
}

/// A device that starts from a valid description is sound.
proof fn lemma_started_sound(scene: Scene)
    requires
        valid(scene),
    ensures
        all_sound(Seq::new(scene.devices@.len(), |i: int| start_device(scene, i))),
{
    let devices = Seq::new(scene.devices@.len(), |i: int| start_device(scene, i));
    assert forall|i: int| 0 <= i < devices.len() implies sound(#[trigger] devices[i]) by {
        assert(valid_device(scene.devices@[i].kind));
        match scene.devices@[i].kind {
            DeviceKind::Vehicle { path, start, .. } => {
                lemma_find(names_of(path.stations@), start@, 0);
                let v = devices[i].state->Vehicle_0;
                assert(guided(v));
            },
            _ => {},
        }
    }
}

impl RolloutView {
    /// What holds of a rollout from its first scan to its last.
    pub open spec fn sound(self) -> bool {
        &&& self.scannable()
        &&& valid(self.scene)
        &&& self.options.dt > 0
        &&& crate::scene::same_bodies(self.scene.obstacles@, self.obstacles)
        &&& self.bases.len() == self.scene.robots@.len()
        &&& self.sensors.len() == self.scene.sensors@.len()
        &&& forall|i: int|
            0 <= i < self.sensors.len() ==> (#[trigger] self.sensors[i]).lane
                < self.lanes.tracks.len()
        &&& self.devices.len() == self.scene.devices@.len()
        &&& all_sound(self.devices)
        &&& lanes_exist(self.devices, self.lanes)
        &&& forall|i: int|
            0 <= i < self.attachments.len() ==> (#[trigger] self.attachments[i]).robot
                < self.robots.len()
        &&& forall|r: int|
            0 <= r < self.robots.len() ==> robot_sound(
                #[trigger] self.robots[r],
                self.scene.robots@[r].q@.len(),
            )
        &&& forall|r: int|
            0 <= r < self.robots.len() ==> ((#[trigger] self.robots[r]).tracking matches Some(latch)
                ==> latch.program < self.programs.len())
        &&& forall|r: int|
            0 <= r < self.robots.len() ==> ((#[trigger] self.robots[r]).gait is Some ==> (
            self.scene.robots@[r].mount matches Some(m) && m.gait is Some))
    }
}

/// Whether `w` follows from `v` by something that leaves the shape of things
/// as it is: the same programs, robots, sensors, devices and lanes.
pub open spec fn kept(v: RolloutView, w: RolloutView) -> bool {
    &&& w.scene == v.scene
    &&& w.options == v.options
    &&& w.current < w.programs.len()
    &&& w.programs.len() == v.programs.len()
    &&& forall|p: int| 0 <= p < v.programs.len() ==> (#[trigger] w.programs[p]).flat
        == v.programs[p].flat
    &&& w.robots.len() == v.robots.len()
    &&& forall|r: int|
        0 <= r < v.robots.len() ==> robot_sound(#[trigger] w.robots[r], v.robots[r].q.len())
            && (w.robots[r].gait is Some ==> v.robots[r].gait is Some)
    &&& forall|r: int|
        0 <= r < w.robots.len() ==> ((#[trigger] w.robots[r]).tracking matches Some(latch)
            ==> latch.program < v.programs.len())
    &&& crate::scene::same_bodies(v.obstacles, w.obstacles)
    &&& w.bases.len() == v.bases.len()
    &&& w.sensors == v.sensors
    &&& w.devices.len() == v.devices.len()
    &&& all_sound(w.devices)
    &&& forall|d: int| 0 <= d < v.devices.len() ==> (#[trigger] w.devices[d]).lane
        == v.devices[d].lane
    &&& w.lanes.tracks.len() == v.lanes.tracks.len()
    &&& w.lanes.forced == v.lanes.forced
    &&& forall|i: int|
        0 <= i < w.attachments.len() ==> (#[trigger] w.attachments[i]).robot < v.robots.len()
}

/// What keeps the shape of things keeps a rollout sound.
pub proof fn lemma_kept_sound(v: RolloutView, w: RolloutView)
    requires
        v.sound(),
        kept(v, w),
    ensures
        w.sound(),
{
    assert forall|p: int| 0 <= p < w.programs.len() implies (#[trigger] w.programs[p]).compiled() by {
        assert(v.programs[p].compiled());
        assert(w.programs[p].flat == v.programs[p].flat);
    }
    assert forall|i: int| 0 <= i < w.obstacles.len() implies (#[trigger] w.obstacles[i]) == (
    Obstacle { pose: w.obstacles[i].pose, ..w.scene.obstacles@[i] }) by {
        assert(v.obstacles[i] == (Obstacle {
            pose: v.obstacles[i].pose,
            ..v.scene.obstacles@[i]
        }));
    }
    assert forall|d: int| 0 <= d < w.devices.len() implies (#[trigger] w.devices[d]).lane
        < w.lanes.tracks.len() by {
        assert(v.devices[d].lane < v.lanes.tracks.len());
    }
    assert forall|r: int| 0 <= r < w.robots.len() implies robot_sound(
        #[trigger] w.robots[r],
        w.scene.robots@[r].q@.len(),
    ) && (w.robots[r].gait is Some ==> (w.scene.robots@[r].mount matches Some(m)
        && m.gait is Some)) by {
        assert(robot_sound(v.robots[r], v.scene.robots@[r].q@.len()));
    }
}

impl<'a> Rollout<'a> {
    /// Sets a rollout up.
    pub fn new(scene: &'a Scene, sequences: &Vec<&'a Sequence>, options: RolloutOptions) -> (r:
        Rollout<'a>)
        requires
            valid(*scene),
            options.dt > 0,
            sequences@.len() > 0,
            forall|i: int|
                0 <= i < sequences@.len() ==> size_steps((#[trigger] sequences@[i]).steps@)
                    <= usize::MAX,
        ensures
            r@ == start(*scene, sequences@, options),
            r@.sound(),
    {
        let ghost want = start(*scene, sequences@, options);
        let tracks: Vec<BoolTrack> = build_lanes(scene);
        let lanes: Lanes = pin_lanes(tracks, &scene.forced_inputs);
        assert(lanes.tracks@.len() == scene.signals@.len() + scene.sensors@.len()
            + scene.devices@.len());
        let count: usize = lanes.tracks.len();
        let ns: usize = scene.signals.len();
        let mut sensors: Vec<SensorRuntime> = Vec::new();
        let mut i: usize = 0;
        while i < scene.sensors.len()
            invariant
                i <= scene.sensors.len(),
                ns == scene.signals@.len(),
                ns + scene.sensors@.len() <= usize::MAX,
                want == start(*scene, sequences@, options),
                views(sensors@) == want.sensors.take(i as int),
            decreases scene.sensors.len() - i,
        {
            let s: SensorRuntime = SensorRuntime::start(scene, &scene.sensors[i], ns + i);
            let ghost before = views(sensors@);
            let ghost seen = s@;
            sensors.push(s);
            assert(views(sensors@) =~= before.push(seen));
            i = i + 1;
            assert(views(sensors@) =~= want.sensors.take(i as int));
        }
        assert(views(sensors@) =~= want.sensors);
        let nd: usize = ns + scene.sensors.len();
        let mut devices: Vec<Device> = Vec::new();
        let mut d: usize = 0;
        while d < scene.devices.len()
            invariant
                d <= scene.devices.len(),
                nd == scene.signals@.len() + scene.sensors@.len(),
                nd + scene.devices@.len() <= usize::MAX,
                want == start(*scene, sequences@, options),
                views(devices@) == want.devices.take(d as int),
            decreases scene.devices.len() - d,
        {
            let device: Device = Device {
                name: scene.devices[d].name.clone(),
                lane: nd + d,
                state: DeviceRuntime::start(
                    &scene.devices[d].kind,
                    &scene.devices,
                    &scene.obstacles,
                ),
            };
            let ghost before = views(devices@);
            let ghost seen = device@;
            assert(seen == want.devices[d as int]);
            devices.push(device);
            assert(views(devices@) =~= before.push(seen));
            d = d + 1;
            assert(views(devices@) =~= want.devices.take(d as int));
        }
        assert(views(devices@) =~= want.devices);
        proof {
            lemma_started_sound(*scene);
            assert(want.devices =~= Seq::new(
                scene.devices@.len(),
                |i: int| start_device(*scene, i),
            ));
        }
        let objects: Tracks = build_objects(&scene.attachments, &devices);
        let mut robots: Vec<RobotRuntime> = Vec::new();
        let mut bases: Vec<Pose> = Vec::new();
        let mut r: usize = 0;
        while r < scene.robots.len()
            invariant
                r <= scene.robots.len(),
                valid(*scene),
                want == start(*scene, sequences@, options),
                views(robots@) == want.robots.take(r as int),
                bases@ == want.bases.take(r as int),
            decreases scene.robots.len() - r,
        {
            assert(valid_robot(scene.robots@[r as int]));
            let rt: RobotRuntime = RobotRuntime::start(&scene.robots[r], &scene.devices);
            let ghost before = views(robots@);
            let ghost seen = rt@;
            robots.push(rt);
            assert(views(robots@) =~= before.push(seen));
            bases.push(scene.robots[r].base);
            r = r + 1;
            assert(views(robots@) =~= want.robots.take(r as int));
            assert(bases@ =~= want.bases.take(r as int));
        }
        assert(views(robots@) =~= want.robots);
        assert(bases@ =~= want.bases);
        let mut programs: Vec<Program<'a>> = Vec::new();
        let mut p: usize = 0;
        while p < sequences.len()
            invariant
                p <= sequences.len(),
                want == start(*scene, sequences@, options),
                forall|k: int|
                    0 <= k < sequences@.len() ==> size_steps((#[trigger] sequences@[k]).steps@)
                        <= usize::MAX,
                views(programs@) == want.programs.take(p as int),
            decreases sequences.len() - p,
        {
            let sequence: &'a Sequence = sequences[p];
            assert(size_steps(sequences@[p as int].steps@) <= usize::MAX);
            let flat: Vec<FlatStep<'a>> = flatten(&sequence.steps);
            let program: Program<'a> = Program {
                sequence,
                flat,
                step: 0,
                entered_at: 0,
                move_ends: Vec::new(),
                open_span: 0,
                prev_signals: Vec::new(),
            };
            let ghost before = views(programs@);
            let ghost seen = program@;
            assert(seen =~= want.programs[p as int]);
            programs.push(program);
            assert(views(programs@) =~= before.push(seen));
            p = p + 1;
            assert(views(programs@) =~= want.programs.take(p as int));
        }
        assert(views(programs@) =~= want.programs);
        let out: Rollout<'a> = Rollout {
            scene,
            options,
            programs,
            current: 0,
            t: 0,
            obstacles: copied_obstacles(&scene.obstacles),
            attachments: copied_attachments(&scene.attachments),
            bases,
            robots,
            sensors,
            devices,
            lanes,
            moving: Vec::new(),
            objects,
            vehicles: Tracks { list: Vec::new() },
            step_spans: Vec::new(),
            branches: Vec::new(),
        };
        assert(out@.moving =~= Seq::<MovingView>::empty());
        assert(out@.vehicles =~= Seq::<TrackView>::empty());
        assert(out@.step_spans =~= Seq::<StepSpanView>::empty());
        assert(out@.branches =~= Seq::<BranchView>::empty());
        assert(fresh_lanes(*scene).len() == lanes.tracks@.len());
        assert(out@ =~= want);
        proof {
            lemma_pins(lane_names(fresh_lanes(*scene)), scene.forced_inputs@);
            assert forall|k: int| 0 <= k < out@.robots.len() implies robot_sound(
                #[trigger] out@.robots[k],
                scene.robots@[k].q@.len(),
            ) by {
                assert(valid_robot(scene.robots@[k]));
                match scene.robots@[k].mount {
                    Some(m) => {
                        lemma_spin_joints(scene.robots@[k], m.spin@);
                    },
                    None => {},
                }
            }
            assert forall|q: int| 0 <= q < out@.programs.len() implies (
            #[trigger] out@.programs[q]).compiled() by {
                let steps = sequences@[q].steps@;
                let size = size_steps(sequences@[q].steps@);
                assert(size <= usize::MAX);
                law_flat_size(steps, 0, size as int, 0);
                law_forward_only(steps, 0, size as int, 0);
                lemma_formed(steps, 0, size as int, 0);
            }
        }
        out
    }
}

/// A pinned lane starts at the level it is pinned to, and as a level: its
/// only edge is the one at zero.
pub proof fn law_pinned_lanes_start_as_levels(tracks: Seq<LaneView>, forced: Seq<(usize, bool)>)
    requires
        forall|i: int| 0 <= i < forced.len() ==> (#[trigger] forced[i]).0 < tracks.len(),
    ensures
        seeded(tracks, forced).len() == tracks.len(),
        forall|i: int|
            0 <= i < forced.len() ==> (#[trigger] seeded(
                tracks,
                forced,
            )[forced[i].0 as int]).edges.len() == 1,
    decreases forced.len(),
{
    if forced.len() > 0 {
        let less = forced.drop_last();
        assert forall|i: int| 0 <= i < less.len() implies (#[trigger] less[i]).0 < tracks.len() by {
            assert(less[i] == forced[i]);
        }
        law_pinned_lanes_start_as_levels(tracks, less);
        let all = seeded(tracks, forced);
        assert forall|i: int| 0 <= i < forced.len() implies (
        #[trigger] all[forced[i].0 as int]).edges.len() == 1 by {
            if i < less.len() {
                assert(less[i] == forced[i]);
                assert(seeded(tracks, less)[less[i].0 as int].edges.len() == 1);
            }
            assert(forced.last().0 < tracks.len()) by {
                assert(forced[forced.len() - 1].0 < tracks.len());
            }
        }
    }
}

/// A lane starts with one edge, at zero: relays at the level they are given, sensors low,
/// devices high where they run from the start. They are listed in that order.
pub proof fn law_lanes_start_in_order(scene: Scene, i: int)
    ensures
        ({
            let lanes = fresh_lanes(scene);
            let s = scene.signals@.len() as int;
            let n = scene.sensors@.len() as int;
            let d = scene.devices@.len() as int;
            &&& lanes.len() == s + n + d
            &&& 0 <= i < s ==> lanes[i].name == scene.signals@[i].name@ && lanes[i].edges.len() == 1
                && lanes[i].edges[0].0 == 0 && lanes[i].edges[0].1 == scene.signals@[i].initial
                && lanes[i].kind is Signal
            &&& 0 <= i < n ==> lanes[s + i].name == scene.sensors@[i].name@ && lanes[s
                + i].edges.len() == 1 && lanes[s + i].edges[0].0 == 0 && !lanes[s + i].edges[0].1
                && lanes[s + i].kind is Sensor
            &&& 0 <= i < d ==> lanes[s + n + i].name == scene.devices@[i].name@ && lanes[s + n
                + i].edges.len() == 1 && lanes[s + n + i].edges[0].0 == 0 && (lanes[s + n
                + i].edges[0].1 <==> (match scene.devices@[i].kind {
                crate::scene::DeviceKind::Conveyor { running, .. } => running,
                crate::scene::DeviceKind::Source { running, .. } => running,
                _ => false,
            })) && lanes[s + n + i].kind is Device
        }),
{
}

/// A fault pins the first lane that it names, at the level that it gives; a name that is
/// no lane pins nothing. A pinned lane starts at that level; every other one as it would.
pub proof fn law_a_fault_pins_the_lane_it_names(
    names: Seq<Seq<char>>,
    forced: Seq<(String, bool)>,
    one: (String, bool),
    tracks: Seq<LaneView>,
    pinned: Seq<(usize, bool)>,
    pin: (usize, bool),
    i: int,
)
    requires
        names.len() <= usize::MAX,
    ensures
        pins(names, seq![]).len() == 0,
        0 <= i < names.len() && names[i] == one.0@ && (forall|j: int|
            0 <= j < i ==> #[trigger] names[j] != one.0@) ==> pins(names, forced.push(one)) == pins(
            names,
            forced,
        ).push((i as usize, one.1)),
        (forall|j: int| 0 <= j < names.len() ==> #[trigger] names[j] != one.0@) ==> pins(
            names,
            forced.push(one),
        ) == pins(names, forced),
        seeded(tracks, seq![]) == tracks,
        pin.0 < seeded(tracks, pinned).len() ==> {
            let before = seeded(tracks, pinned);
            let after = seeded(tracks, pinned.push(pin));
            &&& after.len() == before.len()
            &&& after[pin.0 as int].name == before[pin.0 as int].name
            &&& after[pin.0 as int].edges.len() == 1
            &&& after[pin.0 as int].edges[0].0 == 0
            &&& after[pin.0 as int].edges[0].1 == pin.1
            &&& forall|k: int| 0 <= k < before.len() && k != pin.0 ==> #[trigger] after[k]
                == before[k]
        },
{
    assert(forced.push(one).drop_last() =~= forced);
    assert(forced.push(one).last() == one);
    assert(pinned.push(pin).drop_last() =~= pinned);
    assert(pinned.push(pin).last() == pin);
    crate::names::lemma_find(names, one.0@, 0);
}

/// What waits in a magazine when a run starts is stowed in its slot; a member that does
/// not wait has no track yet.
pub proof fn law_stock_starts_stowed(
    pool: Seq<String>,
    parked: Seq<bool>,
    park: Pose,
    pitch: crate::fixed::Vec3,
    n: nat,
)
    requires
        n < pool.len(),
    ensures
        stock(pool, parked, park, pitch, 0).len() == 0,
        !parked[n as int] ==> stock(pool, parked, park, pitch, n + 1) == stock(
            pool,
            parked,
            park,
            pitch,
            n,
        ),
        parked[n as int] ==> {
            let before = stock(pool, parked, park, pitch, n);
            let after = stock(pool, parked, park, pitch, n + 1);
            &&& after.len() == before.len() + 1
            &&& after.drop_last() == before
            &&& after.last().name == pool[n as int]@
            &&& after.last().spans.len() == 1
            &&& after.last().spans[0] == (TrackSpan::Stowed {
                t0: 0,
                t1: 0,
                pose: slot(park, pitch, n as int),
            })
        },
{
    let before = stock(pool, parked, park, pitch, n);
    let after = stock(pool, parked, park, pitch, n + 1);
    if parked[n as int] {
        assert(after.drop_last() =~= before);
    }
}

/// A run starts at zero with the scene as it stands: its bodies and grasps, its bases,
/// and every program before its first step. `i` is any device, `p` any program.
pub proof fn law_a_run_starts_with_the_scene(
    scene: Scene,
    sequences: Seq<&Sequence>,
    options: RolloutOptions,
    i: int,
    p: int,
)
    ensures
        ({
            let v = start(scene, sequences, options);
            &&& v.t == 0
            &&& v.current == 0
            &&& v.obstacles == scene.obstacles@
            &&& v.attachments == scene.attachments@
            &&& v.options == options
            &&& v.programs.len() == sequences.len()
            &&& 0 <= p < sequences.len() ==> v.programs[p].step == 0 && v.programs[p].entered_at == 0
                && v.programs[p].sequence == *sequences[p]
            &&& v.devices.len() == scene.devices@.len()
            &&& 0 <= i < scene.devices@.len() ==> v.devices[i].name == scene.devices@[i].name
            &&& 0 <= i < scene.devices@.len() && scene.signals@.len() + scene.sensors@.len() + i
                <= usize::MAX ==> v.devices[i].lane == scene.signals@.len() + scene.sensors@.len()
                + i
            &&& 0 <= i < scene.sensors@.len() && scene.signals@.len() + i <= usize::MAX
                ==> v.sensors[i].lane == scene.signals@.len() + i
            &&& v.moving.len() == 0
            &&& v.vehicles.len() == 0
            &&& v.step_spans.len() == 0
            &&& v.branches.len() == 0
        }),
{
}

} // verus!
