//! What enters and leaves the line: magazines, sources, sinks, and a lift's
//! cargo.

use vstd::prelude::*;

use crate::command::sound;
use crate::devices::{
    slot, slot_at, Device, DeviceRuntime, DeviceView, Lift, LiftView, Source, SourceView,
    StateView, Vehicle,
};
use crate::fixed::{clip, minus, Pico, Pose};
use crate::lanes::{Lanes, LanesView};
use crate::names::{contains_name, find, find_named, holds_name, index_view, names_of, same};
use crate::scene::{
    body_index, find_body, held, is_held, lemma_posed_names, posed, same_bodies, set_obstacle_pose,
    Attachment, Obstacle,
};
use crate::text::{cat3, cat5, cat7};
use crate::tick::{all_sound, Bodies, Returned};
use crate::tracks::{jumped, TrackSpan, Tracks};
use crate::views::{copied_names, views};

verus! {

/// The span that follows a teleport.
pub open spec fn resting(t: Pico, pose: Pose, stowed: bool) -> TrackSpan {
    if stowed {
        TrackSpan::Stowed { t0: t, t1: t, pose }
    } else {
        TrackSpan::Hold { t0: t, t1: t, pose }
    }
}

/// The bodies after `name` jumps to a pose; nothing where there is no such
/// body.
pub open spec fn teleported(b: Bodies, name: Seq<char>, to: Pose, stowed: bool, t: Pico) -> Bodies {
    match body_index(b.obstacles, name) {
        None => b,
        Some(k) => Bodies {
            obstacles: posed(b.obstacles, k, to),
            tracks: jumped(b.tracks, name, b.obstacles[k].pose, t, resting(t, to, stowed)),
        },
    }
}

/// Records an instantaneous jump: how a magazine takes a carrier back, and
/// how a source puts one on the line.
pub fn teleport_object(
    obstacles: &mut Vec<Obstacle>,
    tracks: &mut Tracks,
    name: &str,
    to: Pose,
    stowed: bool,
    t: Pico,
)
    ensures
        (Bodies { obstacles: final(obstacles)@, tracks: final(tracks)@ }) == teleported(
            Bodies { obstacles: old(obstacles)@, tracks: old(tracks)@ },
            name@,
            to,
            stowed,
            t,
        ),
        same_bodies(old(obstacles)@, final(obstacles)@),
{
    match find_body(obstacles, name) {
        None => {},
        Some(k) => {
            let from: Pose = obstacles[k].pose;
            proof {
                lemma_posed_names(obstacles@, k as int, to);
            }
            set_obstacle_pose(obstacles, k, to);
            let span: TrackSpan = if stowed {
                TrackSpan::Stowed { t0: t, t1: t, pose: to }
            } else {
                TrackSpan::Hold { t0: t, t1: t, pose: to }
            };
            tracks.jump(name, from, t, span);
        },
    }
}

/// The devices, the bodies and the lanes, as supply changes them.
#[verifier::ext_equal]
pub struct Line {
    pub devices: Seq<DeviceView>,
    pub bodies: Bodies,
    pub lanes: LanesView,
}

/// Which member of a source's pool a caught body is, where it is one that is
/// out on the line.
pub open spec fn owned_member(line: Line, r: Returned) -> Option<int> {
    match r.source {
        None => None,
        Some(d) => if d < line.devices.len() {
            match line.devices[d as int].state {
                StateView::Source(s) => match find(
                    names_of(s.pool),
                    line.bodies.obstacles[r.obstacle as int].name@,
                ) {
                    Some(i) => if s.parked[i] {
                        None
                    } else {
                        Some(i)
                    },
                    None => None,
                },
                _ => None,
            }
        } else {
            None
        },
    }
}

/// One body back in its magazine.
pub open spec fn stocked(line: Line, r: Returned, t: Pico) -> Line {
    match owned_member(line, r) {
        None => line,
        Some(i) => {
            let d = r.source->0 as int;
            let s = line.devices[d].state->Source_0;
            Line {
                devices: line.devices.update(
                    d,
                    DeviceView {
                        state: StateView::Source(
                            SourceView { parked: s.parked.update(i, true), ..s },
                        ),
                        ..line.devices[d]
                    },
                ),
                bodies: teleported(
                    line.bodies,
                    line.bodies.obstacles[r.obstacle as int].name@,
                    slot(s.park, s.pitch, i),
                    true,
                    t,
                ),
                ..line
            }
        },
    }
}

/// Every caught body back in the magazine it came from, first to last.
pub open spec fn restocked(line: Line, returned: Seq<Returned>, t: Pico) -> Line
    decreases returned.len(),
{
    if returned.len() == 0 {
        line
    } else {
        stocked(restocked(line, returned.drop_last(), t), returned.last(), t)
    }
}

/// The first `true` from `from` on.
pub open spec fn first_true(list: Seq<bool>, from: int) -> Option<int>
    decreases list.len() - from,
{
    if from < 0 || from >= list.len() {
        None
    } else if list[from] {
        Some(from)
    } else {
        first_true(list, from + 1)
    }
}

/// A source after its clock has run for `dt`: what it is then, and which
/// member it releases.
pub open spec fn fed(s: SourceView, dt: Pico) -> (SourceView, Option<int>) {
    let due = clip(s.due - dt);
    if !s.running {
        (s, None)
    } else if due > 1 {
        (SourceView { due, ..s }, None)
    } else {
        match first_true(s.parked, 0) {
            // An empty magazine stays due: the next return feeds at once.
            None => (SourceView { due: 0, ..s }, None),
            Some(i) => (
                if s.interval <= 0 {
                    // An indexing feeder: one carrier per start.
                    SourceView { due, running: false, parked: s.parked.update(i, false), ..s }
                } else {
                    SourceView { due: s.interval, parked: s.parked.update(i, false), ..s }
                },
                Some(i),
            ),
        }
    }
}

proof fn lemma_first_true(list: Seq<bool>, from: int)
    requires
        0 <= from,
    ensures
        first_true(list, from) matches Some(i) ==> from <= i < list.len() && list[i],
    decreases list.len() - from,
{
    if from < list.len() && !list[from] {
        lemma_first_true(list, from + 1);
    }
}

/// A source only releases what waits in its magazine, one carrier at a time,
/// and the others stay as they are: the pool is finite, and no carrier is out
/// twice.
pub proof fn law_a_source_releases_what_waits(s: SourceView, dt: Pico)
    ensures
        ({
            let (after, released) = fed(s, dt);
            &&& after.pool == s.pool
            &&& match released {
                Some(i) => 0 <= i < s.parked.len() && s.parked[i] && after.parked
                    == s.parked.update(i, false),
                None => after.parked == s.parked,
            }
        }),
{
    lemma_first_true(s.parked, 0);
}

/// What a source releases and a sink catches waits again: the magazine is as
/// it was before, and the carrier is back in its slot.
pub proof fn law_a_carrier_recirculates(line: Line, r: Returned, dt: Pico, t: Pico)
    requires
        r.source matches Some(d) && 0 <= d < line.devices.len() && line.devices[d as int].state
            is Source,
        0 <= r.obstacle < line.bodies.obstacles.len(),
        ({
            let s = line.devices[r.source->0 as int].state->Source_0;
            let name = line.bodies.obstacles[r.obstacle as int].name@;
            &&& s.parked.len() == s.pool.len()
            &&& fed(s, dt).1 matches Some(i) && find(names_of(s.pool), name) == Some(i)
        }),
    ensures
        ({
            let d = r.source->0 as int;
            let s = line.devices[d].state->Source_0;
            let out = Line {
                devices: line.devices.update(
                    d,
                    DeviceView { state: StateView::Source(fed(s, dt).0), ..line.devices[d] },
                ),
                ..line
            };
            let back = stocked(out, r, t);
            &&& (back.devices[d].state->Source_0).parked == s.parked
            &&& back.bodies == teleported(
                line.bodies,
                line.bodies.obstacles[r.obstacle as int].name@,
                slot(s.park, s.pitch, fed(s, dt).1->0),
                true,
                t,
            )
        }),
{
    let s = line.devices[r.source->0 as int].state->Source_0;
    law_a_source_releases_what_waits(s, dt);
    let i = fed(s, dt).1->0;
    assert(s.parked.update(i, false).update(i, true) =~= s.parked);
}

/// The line after device `d` has had its turn to feed.
pub open spec fn fed_by(line: Line, d: int, dt: Pico, t: Pico) -> Line {
    match line.devices[d].state {
        StateView::Source(s) => {
            let (after, released) = fed(s, dt);
            let devices = line.devices.update(
                d,
                DeviceView { state: StateView::Source(after), ..line.devices[d] },
            );
            match released {
                None => Line { devices, ..line },
                Some(i) => Line {
                    devices,
                    bodies: teleported(line.bodies, s.pool[i]@, s.pose, false, t),
                    lanes: if s.interval <= 0 {
                        line.lanes.set(line.devices[d].lane as int, t, false)
                    } else {
                        line.lanes
                    },
                },
            }
        },
        _ => line,
    }
}

/// The line after the first `n` devices have had their turn to feed.
pub open spec fn fed_line(line: Line, n: nat, dt: Pico, t: Pico) -> Line
    decreases n,
{
    if n == 0 {
        line
    } else {
        fed_by(fed_line(line, (n - 1) as nat, dt, t), n - 1, dt, t)
    }
}

pub open spec fn line_of(
    devices: Seq<Device>,
    obstacles: Seq<Obstacle>,
    tracks: Tracks,
    lanes: Lanes,
) -> Line {
    Line {
        devices: views(devices),
        bodies: Bodies { obstacles, tracks: tracks@ },
        lanes: lanes@,
    }
}

/// Sinks: puts what reached them back in the magazine it came from.
pub fn return_to_magazines(
    devices: &mut Vec<Device>,
    obstacles: &mut Vec<Obstacle>,
    tracks: &mut Tracks,
    lanes: &Lanes,
    returned: &Vec<Returned>,
    t: Pico,
)
    requires
        all_sound(views(old(devices)@)),
        forall|i: int|
            0 <= i < returned@.len() ==> (#[trigger] returned@[i]).obstacle < old(obstacles)@.len(),
    ensures
        line_of(final(devices)@, final(obstacles)@, *final(tracks), *lanes) == restocked(
            line_of(old(devices)@, old(obstacles)@, *old(tracks), *lanes),
            returned@,
            t,
        ),
        same_bodies(old(obstacles)@, final(obstacles)@),
        all_sound(views(final(devices)@)),
        final(devices)@.len() == old(devices)@.len(),
{
    let ghost line = line_of(devices@, obstacles@, *tracks, *lanes);
    let mut n: usize = 0;
    while n < returned.len()
        invariant
            n <= returned.len(),
            all_sound(views(devices@)),
            devices@.len() == old(devices)@.len(),
            same_bodies(line.bodies.obstacles, obstacles@),
            forall|i: int|
                0 <= i < returned@.len() ==> (#[trigger] returned@[i]).obstacle < obstacles@.len(),
            line_of(devices@, obstacles@, *tracks, *lanes) == restocked(
                line,
                returned@.take(n as int),
                t,
            ),
        decreases returned.len() - n,
    {
        let r: Returned = returned[n];
        assert(returned@.take(n + 1).drop_last() =~= returned@.take(n as int));
        let ghost now = line_of(devices@, obstacles@, *tracks, *lanes);
        let ghost done = stocked(now, r, t);
        n = n + 1;
        let d: usize = match r.source {
            Some(d) => d,
            None => {
                continue ;
            },
        };
        if d >= devices.len() {
            continue ;
        }
        let name: String = obstacles[r.obstacle].name.clone();
        assert(devices@[d as int]@ == now.devices[d as int]);
        assert(sound(now.devices[d as int]));
        let mut back: Option<Pose> = None;
        match &mut devices[d].state {
            DeviceRuntime::Source(s) => {
                match find_named(&s.pool, name.as_str()) {
                    Some(i) => {
                        if !s.parked[i] {
                            s.parked.set(i, true);
                            back = Some(slot_at(s.park, s.pitch, i));
                        }
                    },
                    None => {},
                }
            },
            _ => {},
        }
        assert(views(devices@) =~= done.devices);
        assert forall|j: int| 0 <= j < views(devices@).len() implies sound(
            #[trigger] views(devices@)[j],
        ) by {
            if j != d {
                assert(views(devices@)[j] == now.devices[j]);
            }
        }
        match back {
            Some(pose) => {
                teleport_object(obstacles, tracks, name.as_str(), pose, true, t);
            },
            None => {},
        }
    }
    assert(returned@.take(n as int) =~= returned@);
}

fn find_true(list: &Vec<bool>) -> (r: Option<usize>)
    ensures
        index_view(r) == first_true(list@, 0),
        r matches Some(i) ==> i < list@.len(),
{
    let mut i: usize = 0;
    while i < list.len()
        invariant
            i <= list.len(),
            first_true(list@, 0) == first_true(list@, i as int),
        decreases list.len() - i,
    {
        if list[i] {
            return Some(i);
        }
        i = i + 1;
    }
    None
}

impl Source {
    fn feed(&mut self, dt: Pico) -> (r: Option<usize>)
        ensures
            (final(self)@, index_view(r)) == fed(old(self)@, dt),
            r matches Some(i) ==> i < old(self).parked@.len(),
    {
        if !self.running {
            return None;
        }
        self.due = minus(self.due, dt);
        if self.due > 1 {
            return None;
        }
        match find_true(&self.parked) {
            None => {
                self.due = 0;
                None
            },
            Some(i) => {
                self.parked.set(i, false);
                if self.interval <= 0 {
                    self.running = false;
                } else {
                    self.due = self.interval;
                }
                Some(i)
            },
        }
    }
}

/// Every device's lane is there.
pub open spec fn lanes_exist(devices: Seq<DeviceView>, lanes: LanesView) -> bool {
    forall|i: int| 0 <= i < devices.len() ==> (#[trigger] devices[i]).lane < lanes.tracks.len()
}

/// Sources: releases the next waiting carrier where one is due.
pub fn feed_from_sources(
    devices: &mut Vec<Device>,
    obstacles: &mut Vec<Obstacle>,
    tracks: &mut Tracks,
    lanes: &mut Lanes,
    dt: Pico,
    t: Pico,
)
    requires
        all_sound(views(old(devices)@)),
        lanes_exist(views(old(devices)@), old(lanes)@),
    ensures
        line_of(final(devices)@, final(obstacles)@, *final(tracks), *final(lanes)) == fed_line(
            line_of(old(devices)@, old(obstacles)@, *old(tracks), *old(lanes)),
            old(devices)@.len(),
            dt,
            t,
        ),
        same_bodies(old(obstacles)@, final(obstacles)@),
        all_sound(views(final(devices)@)),
        final(devices)@.len() == old(devices)@.len(),
        lanes_exist(views(final(devices)@), final(lanes)@),
        final(lanes).tracks@.len() == old(lanes).tracks@.len(),
{
    let ghost line = line_of(devices@, obstacles@, *tracks, *lanes);
    let mut d: usize = 0;
    while d < devices.len()
        invariant
            d <= devices@.len(),
            devices@.len() == old(devices)@.len(),
            lanes.tracks@.len() == old(lanes).tracks@.len(),
            all_sound(views(devices@)),
            lanes_exist(views(devices@), lanes@),
            same_bodies(line.bodies.obstacles, obstacles@),
            line_of(devices@, obstacles@, *tracks, *lanes) == fed_line(line, d as nat, dt, t),
        decreases devices.len() - d,
    {
        let ghost now = line_of(devices@, obstacles@, *tracks, *lanes);
        assert(devices@[d as int]@ == now.devices[d as int]);
        assert(sound(now.devices[d as int]));
        let lane: usize = devices[d].lane;
        let mut release: Option<(String, Pose, bool)> = None;
        match &mut devices[d].state {
            DeviceRuntime::Source(s) => {
                match s.feed(dt) {
                    Some(i) => {
                        release = Some((s.pool[i].clone(), s.pose, s.interval <= 0));
                    },
                    None => {},
                }
            },
            _ => {},
        }
        let ghost after = fed_by(now, d as int, dt, t);
        assert(views(devices@) =~= after.devices);
        assert forall|j: int| 0 <= j < views(devices@).len() implies sound(
            #[trigger] views(devices@)[j],
        ) && views(devices@)[j].lane < lanes@.tracks.len() by {
            assert(views(devices@)[j].lane == now.devices[j].lane);
            if j != d {
                assert(views(devices@)[j] == now.devices[j]);
            }
        }
        match release {
            Some((name, pose, one_shot)) => {
                teleport_object(obstacles, tracks, name.as_str(), pose, false, t);
                if one_shot {
                    lanes.set_lane(lane, t, false);
                }
            },
            None => {},
        }
        d = d + 1;
    }
}

/// The first body of a vehicle that stands outside a lift's zone. A member
/// that is no body of the scene counts as aboard.
pub open spec fn first_outside(
    body: Seq<String>,
    obstacles: Seq<Obstacle>,
    aboard: Seq<bool>,
    from: int,
) -> Option<int>
    decreases body.len() - from,
{
    if from < 0 || from >= body.len() {
        None
    } else {
        match body_index(obstacles, body[from]@) {
            Some(k) => if aboard[k] {
                first_outside(body, obstacles, aboard, from + 1)
            } else {
                Some(from)
            },
            None => first_outside(body, obstacles, aboard, from + 1),
        }
    }
}

/// Why a vehicle that stands in a lift's zone cannot ride.
pub open spec fn boarding_refusal(
    d: DeviceView,
    lift: Seq<char>,
    obstacles: Seq<Obstacle>,
    aboard: Seq<bool>,
) -> Option<Seq<char>> {
    match d.state {
        StateView::Vehicle(v) => if v.legs.len() > 0 {
            Some(
                "vehicle `"@ + d.name@
                    + "` is still travelling; wait for its device_done before moving lift `"@ + lift
                    + "`"@,
            )
        } else {
            match first_outside(v.body, obstacles, aboard, 0) {
                Some(i) => Some(
                    "vehicle `"@ + d.name@ + "` is boarding lift `"@ + lift + "` half out: `"@
                        + v.body[i]@ + "` stands outside the capture zone"@,
                ),
                None => None,
            }
        },
        _ => None,
    }
}

/// A lift's cargo: the vehicles that stand in its zone, and their bodies.
#[verifier::ext_equal]
pub struct Boarding {
    pub vehicles: Seq<String>,
    pub bodies: Seq<String>,
    pub refusal: Option<Seq<char>>,
}

/// What of the first `n` devices boards a lift, up to the first refusal.
pub open spec fn boarding(
    devices: Seq<DeviceView>,
    standing: Seq<bool>,
    lift: Seq<char>,
    obstacles: Seq<Obstacle>,
    aboard: Seq<bool>,
    n: nat,
) -> Boarding
    decreases n,
{
    if n == 0 {
        Boarding { vehicles: Seq::empty(), bodies: Seq::empty(), refusal: None }
    } else {
        let less = boarding(devices, standing, lift, obstacles, aboard, (n - 1) as nat);
        let d = devices[n - 1];
        if less.refusal is Some || !standing[n - 1] || !(d.state is Vehicle) {
            less
        } else if boarding_refusal(d, lift, obstacles, aboard) is Some {
            Boarding { refusal: boarding_refusal(d, lift, obstacles, aboard), ..less }
        } else {
            Boarding {
                vehicles: less.vehicles.push(d.name),
                bodies: less.bodies + d.state->Vehicle_0.body,
                ..less
            }
        }
    }
}

proof fn lemma_nobody_outside(
    body: Seq<String>,
    obstacles: Seq<Obstacle>,
    aboard: Seq<bool>,
    from: int,
    m: int,
)
    requires
        first_outside(body, obstacles, aboard, from) is None,
        0 <= from <= m < body.len(),
    ensures
        body_index(obstacles, body[m]@) matches Some(k) ==> aboard[k],
    decreases m - from,
{
    if from < m {
        lemma_nobody_outside(body, obstacles, aboard, from + 1, m);
    }
}

proof fn lemma_boards(
    devices: Seq<DeviceView>,
    standing: Seq<bool>,
    lift: Seq<char>,
    obstacles: Seq<Obstacle>,
    aboard: Seq<bool>,
    n: nat,
    i: int,
)
    requires
        boarding(devices, standing, lift, obstacles, aboard, n).refusal is None,
        0 <= i < n,
        standing[i],
        devices[i].state is Vehicle,
    ensures
        boarding_refusal(devices[i], lift, obstacles, aboard) is None,
    decreases n,
{
    if i < n - 1 {
        lemma_boards(devices, standing, lift, obstacles, aboard, (n - 1) as nat, i);
    }
}

/// A lift that leaves takes the vehicles in its zone whole: each has parked,
/// and every part of its body is aboard.
pub proof fn law_a_lift_takes_vehicles_whole(
    devices: Seq<DeviceView>,
    lift: Seq<char>,
    standing: Seq<bool>,
    obstacles: Seq<Obstacle>,
    aboard: Seq<bool>,
    i: int,
    m: int,
)
    requires
        capture_refusal(devices, lift, standing, obstacles, aboard) is None,
        0 <= i < devices.len(),
        standing[i],
        devices[i].state is Vehicle,
        0 <= m < (devices[i].state->Vehicle_0).body.len(),
    ensures
        (devices[i].state->Vehicle_0).legs.len() == 0,
        body_index(obstacles, (devices[i].state->Vehicle_0).body[m]@) matches Some(k) ==> aboard[k],
{
    lemma_boards(devices, standing, lift, obstacles, aboard, devices.len(), i);
    lemma_nobody_outside((devices[i].state->Vehicle_0).body, obstacles, aboard, 0, m);
}

/// The loose bodies in a lift's zone among the first `n`: not the car's, not
/// a boarding vehicle's, not held.
pub open spec fn loose_cargo(
    obstacles: Seq<Obstacle>,
    attachments: Seq<Attachment>,
    aboard: Seq<bool>,
    car: Seq<String>,
    bodies: Seq<String>,
    n: nat,
) -> Seq<String>
    decreases n,
{
    if n == 0 {
        Seq::empty()
    } else {
        let o = obstacles[n - 1];
        let less = loose_cargo(obstacles, attachments, aboard, car, bodies, (n - 1) as nat);
        if !holds_name(car, o.name@) && !holds_name(bodies, o.name@) && !is_held(
            attachments,
            o.name@,
        ) && aboard[n - 1] {
            less.push(o.name)
        } else {
            less
        }
    }
}

/// The first lift named `name`.
pub open spec fn lift_index(devices: Seq<DeviceView>, name: Seq<char>, from: int) -> Option<int>
    decreases devices.len() - from,
{
    if from < 0 || from >= devices.len() {
        None
    } else if devices[from].name@ == name && devices[from].state is Lift {
        Some(from)
    } else {
        lift_index(devices, name, from + 1)
    }
}

/// Why a lift does not take its cargo on.
pub open spec fn capture_refusal(
    devices: Seq<DeviceView>,
    lift: Seq<char>,
    standing: Seq<bool>,
    obstacles: Seq<Obstacle>,
    aboard: Seq<bool>,
) -> Option<Seq<char>> {
    match lift_index(devices, lift, 0) {
        None => Some("unknown lift `"@ + lift + "`"@),
        Some(_) => boarding(devices, standing, lift, obstacles, aboard, devices.len()).refusal,
    }
}

/// The devices once a lift has closed its doors on its cargo.
pub open spec fn captured(
    devices: Seq<DeviceView>,
    lift: Seq<char>,
    standing: Seq<bool>,
    obstacles: Seq<Obstacle>,
    attachments: Seq<Attachment>,
    aboard: Seq<bool>,
) -> Seq<DeviceView> {
    let i = lift_index(devices, lift, 0)->0;
    let l = devices[i].state->Lift_0;
    let b = boarding(devices, standing, lift, obstacles, aboard, devices.len());
    devices.update(
        i,
        DeviceView {
            state: StateView::Lift(
                LiftView {
                    cargo_objects: loose_cargo(
                        obstacles,
                        attachments,
                        aboard,
                        l.car,
                        b.bodies,
                        obstacles.len(),
                    ),
                    cargo_vehicles: b.vehicles,
                    ..l
                },
            ),
            ..devices[i]
        },
    )
}

/// A source that runs releases the first carrier that waits once its time is due, to
/// within 10^-12 s; until then its clock runs, and a source that does not run stands
/// still. A release sets the clock to the interval; a source without one stops with
/// it. Where nothing waits it stays due, and releases the next carrier that is back
/// at once. `i` is any member.
pub proof fn law_a_source_releases_on_time(s: SourceView, dt: Pico, i: int)
    requires
        s.due - dt >= i64::MIN,
        s.due - dt <= i64::MAX,
    ensures
        ({
            let (after, released) = fed(s, dt);
            let first = 0 <= i < s.parked.len() && s.parked[i] && forall|j: int|
                0 <= j < i ==> !#[trigger] s.parked[j];
            &&& !s.running ==> released is None && after == s
            &&& s.running && s.due - dt > 1 ==> released is None && after == (SourceView {
                due: after.due,
                ..s
            }) && after.due == s.due - dt
            &&& s.running && s.due - dt <= 1 && first ==> {
                &&& released == Some(i)
                &&& s.interval > 0 ==> after.running && after.due == s.interval
                &&& s.interval <= 0 ==> !after.running
                &&& !after.parked[i]
            }
            &&& s.running && s.due - dt <= 1 && (forall|j: int|
                0 <= j < s.parked.len() ==> !#[trigger] s.parked[j]) ==> released is None
                && after.running && after.due == 0
        }),
{
    lemma_first_waiting(s.parked, 0, i);
}

proof fn lemma_first_waiting(list: Seq<bool>, from: int, i: int)
    requires
        0 <= from,
    ensures
        from <= i < list.len() && list[i] && (forall|j: int| from <= j < i ==> !#[trigger] list[j])
            ==> first_true(list, from) == Some(i),
        (forall|j: int| from <= j < list.len() ==> !#[trigger] list[j]) ==> first_true(list, from)
            is None,
    decreases list.len() - from,
{
    if from < list.len() {
        let here = list[from];
        lemma_first_waiting(list, from + 1, i);
    }
}

/// A slot of a magazine lies as many pitches from where the magazine is parked as
/// its number says, where that leaves room, and faces as it does.
pub proof fn law_slots_lie_a_pitch_apart(park: Pose, pitch: crate::fixed::Vec3, i: int)
    requires
        i64::MIN <= park.at.x + pitch.x * i <= i64::MAX,
        i64::MIN <= park.at.y + pitch.y * i <= i64::MAX,
        i64::MIN <= park.at.z + pitch.z * i <= i64::MAX,
    ensures
        ({
            let at = slot(park, pitch, i);
            &&& at.at.x == park.at.x + pitch.x * i
            &&& at.at.y == park.at.y + pitch.y * i
            &&& at.at.z == park.at.z + pitch.z * i
            &&& at == (Pose { at: at.at, ..park })
        }),
{
}

/// A body that jumps ends at the pose it jumps to, and no other body moves; its track
/// ends with a span there, from that instant on, which is stowed or not as asked. `k`
/// is the first body of that name.
pub proof fn law_a_jump_puts_one_body_elsewhere(
    b: Bodies,
    name: Seq<char>,
    to: Pose,
    stowed: bool,
    t: Pico,
    k: int,
)
    requires
        0 <= k < b.obstacles.len(),
        b.obstacles[k].name@ == name,
        forall|j: int| 0 <= j < k ==> (#[trigger] b.obstacles[j]).name@ != name,
    ensures
        ({
            let after = teleported(b, name, to, stowed, t);
            &&& after.obstacles == b.obstacles.update(k, Obstacle { pose: to, ..b.obstacles[k] })
            &&& stowed ==> exists|i: int| #[trigger]
                ends_with(after.tracks, name, i, TrackSpan::Stowed { t0: t, t1: t, pose: to })
            &&& !stowed ==> exists|i: int| #[trigger]
                ends_with(after.tracks, name, i, TrackSpan::Hold { t0: t, t1: t, pose: to })
        }),
{
    let names = names_of(b.obstacles);
    crate::names::lemma_find(names, name, 0);
    assert(names[k] == name);
    match body_index(b.obstacles, name) {
        Some(i) => {
            assert(names[i] == b.obstacles[i].name@);
            if i < k {
                assert(b.obstacles[i].name@ != name);
            }
        },
        None => {},
    }
    let after = teleported(b, name, to, stowed, t);
    let i = crate::tracks::open_index(b.tracks, name);
    let all = crate::tracks::track_names(b.tracks);
    crate::names::lemma_find(all, name, 0);
    match find(all, name) {
        Some(j) => {
            assert(all[j] == b.tracks[j].name);
        },
        None => {},
    }
    assert(ends_with(after.tracks, name, i, resting(t, to, stowed)));
}

/// Track `i` is of that name and ends with a span.
pub open spec fn ends_with(
    tracks: Seq<crate::tracks::TrackView>,
    name: Seq<char>,
    i: int,
    span: TrackSpan,
) -> bool {
    0 <= i < tracks.len() && tracks[i].name == name && tracks[i].spans.len() > 0
        && tracks[i].spans.last() == span
}

/// A carrier that a source releases stands where the source puts them out, in sight;
/// no other body moves. A source without an interval says by its lane that it has
/// stopped; one with an interval writes no lane.
pub proof fn law_a_released_carrier_stands_at_the_source(
    line: Line,
    d: int,
    dt: Pico,
    t: Pico,
    k: int,
)
    requires
        0 <= d < line.devices.len(),
        line.devices[d].state is Source,
        fed(line.devices[d].state->Source_0, dt).1 is Some,
        ({
            let s = line.devices[d].state->Source_0;
            let name = s.pool[fed(s, dt).1->0]@;
            &&& 0 <= k < line.bodies.obstacles.len()
            &&& line.bodies.obstacles[k].name@ == name
            &&& forall|j: int| 0 <= j < k ==> (#[trigger] line.bodies.obstacles[j]).name@ != name
        }),
    ensures
        ({
            let s = line.devices[d].state->Source_0;
            let name = s.pool[fed(s, dt).1->0]@;
            let after = fed_by(line, d, dt, t);
            &&& after.bodies.obstacles == line.bodies.obstacles.update(
                k,
                Obstacle { pose: s.pose, ..line.bodies.obstacles[k] },
            )
            &&& exists|i: int| #[trigger]
                ends_with(
                    after.bodies.tracks,
                    name,
                    i,
                    TrackSpan::Hold { t0: t, t1: t, pose: s.pose },
                )
            &&& s.interval > 0 ==> after.lanes == line.lanes
            &&& s.interval <= 0 ==> after.lanes == line.lanes.set(
                line.devices[d].lane as int,
                t,
                false,
            )
        }),
{
    let s = line.devices[d].state->Source_0;
    law_a_jump_puts_one_body_elsewhere(
        line.bodies,
        s.pool[fed(s, dt).1->0]@,
        s.pose,
        false,
        t,
        k,
    );
    let i = fed(s, dt).1->0;
    let after = fed_by(line, d, dt, t);
    assert(after.bodies == teleported(line.bodies, s.pool[i]@, s.pose, false, t));
}

/// A carrier that a sink catches goes back to the source that it came from: it waits
/// again, stowed in its own slot, and no other body moves. What is no carrier of that
/// source, and what waits already, is left where it is. `i` is the first member of
/// the pool of the caught body's name.
pub proof fn law_a_caught_carrier_goes_back_to_its_slot(line: Line, r: Returned, t: Pico, i: int)
    requires
        r.source matches Some(d) && 0 <= d < line.devices.len() && line.devices[d as int].state
            is Source,
        0 <= r.obstacle < line.bodies.obstacles.len(),
        forall|j: int|
            0 <= j < r.obstacle ==> (#[trigger] line.bodies.obstacles[j]).name@
                != line.bodies.obstacles[r.obstacle as int].name@,
    ensures
        ({
            let d = r.source->0 as int;
            let s = line.devices[d].state->Source_0;
            let name = line.bodies.obstacles[r.obstacle as int].name@;
            let back = stocked(line, r, t);
            let member = 0 <= i < s.pool.len() && s.pool[i]@ == name && forall|j: int|
                0 <= j < i ==> (#[trigger] s.pool[j])@ != name;
            &&& member && !s.parked[i] ==> {
                &&& back.bodies.obstacles == line.bodies.obstacles.update(
                    r.obstacle as int,
                    Obstacle {
                        pose: slot(s.park, s.pitch, i),
                        ..line.bodies.obstacles[r.obstacle as int]
                    },
                )
                &&& exists|n: int| #[trigger]
                    ends_with(
                        back.bodies.tracks,
                        name,
                        n,
                        TrackSpan::Stowed { t0: t, t1: t, pose: slot(s.park, s.pitch, i) },
                    )
                &&& back.devices == line.devices.update(
                    d,
                    DeviceView {
                        state: StateView::Source(
                            SourceView { parked: s.parked.update(i, true), ..s },
                        ),
                        ..line.devices[d]
                    },
                )
                &&& back.lanes == line.lanes
            }
            &&& member && s.parked[i] ==> back == line
            &&& (forall|j: int| 0 <= j < s.pool.len() ==> (#[trigger] s.pool[j])@ != name) ==> back
                == line
        }),
{
    let d = r.source->0 as int;
    let s = line.devices[d].state->Source_0;
    let name = line.bodies.obstacles[r.obstacle as int].name@;
    let names = names_of(s.pool);
    crate::names::lemma_find(names, name, 0);
    match find(names, name) {
        Some(m) => {
            assert(names[m] == s.pool[m]@);
            if 0 <= i < s.pool.len() {
                assert(names[i] == s.pool[i]@);
                if i < m {
                    assert(names[i] != name);
                }
            }
        },
        None => {
            if 0 <= i < s.pool.len() {
                assert(names[i] == s.pool[i]@);
            }
        },
    }
    if 0 <= i < s.pool.len() && s.pool[i]@ == name && !s.parked[i] {
        law_a_jump_puts_one_body_elsewhere(
            line.bodies,
            name,
            slot(s.park, s.pitch, i),
            true,
            t,
            r.obstacle as int,
        );
    }
    let back = stocked(line, r, t);
    if 0 <= i < s.pool.len() && s.pool[i]@ == name && (forall|j: int|
        0 <= j < i ==> (#[trigger] s.pool[j])@ != name) {
        assert(find(names, name) == Some(i));
        if s.parked[i] {
            assert(back == line);
        } else {
            assert(owned_member(line, r) == Some(i));
            assert(back.bodies == teleported(line.bodies, name, slot(s.park, s.pitch, i), true, t));
        }
    }
}

/// A lift that leaves takes every vehicle that stands in its zone, and every body in
/// it that is none of its own, no part of such a vehicle, and that no robot holds;
/// it takes nothing else, and no other device changes. `i` is any device, `k` any
/// body.
pub proof fn law_a_lift_takes_what_stands_in_its_zone(
    devices: Seq<DeviceView>,
    lift: Seq<char>,
    standing: Seq<bool>,
    obstacles: Seq<Obstacle>,
    attachments: Seq<Attachment>,
    aboard: Seq<bool>,
    d: int,
    i: int,
    k: int,
)
    requires
        capture_refusal(devices, lift, standing, obstacles, aboard) is None,
        0 <= d < devices.len(),
        devices[d].name@ == lift,
        devices[d].state is Lift,
        forall|j: int|
            0 <= j < d ==> (#[trigger] devices[j]).name@ != lift || !(devices[j].state is Lift),
        0 <= i < devices.len(),
        0 <= k < obstacles.len(),
    ensures
        ({
            let after = captured(devices, lift, standing, obstacles, attachments, aboard);
            let l = devices[d].state->Lift_0;
            &&& after.len() == devices.len()
            &&& i != d ==> after[i] == devices[i]
            &&& after[d].state matches StateView::Lift(m) && {
                &&& m == (LiftView {
                    cargo_objects: m.cargo_objects,
                    cargo_vehicles: m.cargo_vehicles,
                    ..l
                })
                &&& standing[i] && devices[i].state is Vehicle ==> m.cargo_vehicles.contains(
                    devices[i].name,
                )
                &&& forall|n: int|
                    0 <= n < m.cargo_vehicles.len() ==> exists|j: int|
                        0 <= j < devices.len() && standing[j] && (#[trigger] devices[j]).state
                            is Vehicle && devices[j].name == #[trigger] m.cargo_vehicles[n]
                &&& aboard[k] && !names_it(l.car, obstacles[k].name@) && !is_grasped(
                    attachments,
                    obstacles[k].name@,
                ) && (forall|j: int|
                    0 <= j < devices.len() && standing[j] && (#[trigger] devices[j]).state
                        is Vehicle ==> !names_it(
                        (devices[j].state->Vehicle_0).body,
                        obstacles[k].name@,
                    )) ==> m.cargo_objects.contains(obstacles[k].name)
                &&& forall|n: int|
                    0 <= n < m.cargo_objects.len() ==> !names_it(
                        l.car,
                        (#[trigger] m.cargo_objects[n])@,
                    ) && !is_grasped(attachments, m.cargo_objects[n]@) && exists|j: int|
                        0 <= j < obstacles.len() && aboard[j] && (#[trigger] obstacles[j]).name
                            == m.cargo_objects[n]
            }
        }),
{
    lemma_lift_index(devices, lift, 0, d);
    let l = devices[d].state->Lift_0;
    let b = boarding(devices, standing, lift, obstacles, aboard, devices.len());
    lemma_boarded_vehicles(devices, standing, lift, obstacles, aboard, devices.len(), i);
    lemma_loose(obstacles, attachments, aboard, l.car, b.bodies, obstacles.len(), k);
    if holds_name(b.bodies, obstacles[k].name@) {
        lemma_boarded_bodies(
            devices,
            standing,
            lift,
            obstacles,
            aboard,
            devices.len(),
            obstacles[k].name@,
        );
    }
    lemma_grasped(attachments, obstacles[k].name@);
}

/// A list names a body.
pub open spec fn names_it(list: Seq<String>, name: Seq<char>) -> bool {
    exists|i: int| 0 <= i < list.len() && (#[trigger] list[i])@ == name
}

/// A robot holds a body.
pub open spec fn is_grasped(attachments: Seq<Attachment>, name: Seq<char>) -> bool {
    exists|a: int| 0 <= a < attachments.len() && (#[trigger] attachments[a]).object@ == name
}

proof fn lemma_grasped(attachments: Seq<Attachment>, name: Seq<char>)
    ensures
        is_held(attachments, name) == is_grasped(attachments, name),
{
    let names = names_of(attachments);
    crate::names::lemma_find(names, name, 0);
    match find(names, name) {
        Some(i) => {
            assert(names[i] == attachments[i].object@);
        },
        None => {
            assert forall|a: int| 0 <= a < attachments.len() implies (
            #[trigger] attachments[a]).object@ != name by {
                assert(names[a] == attachments[a].object@);
            }
        },
    }
}

proof fn lemma_lift_index(devices: Seq<DeviceView>, lift: Seq<char>, from: int, d: int)
    requires
        0 <= from <= d < devices.len(),
        devices[d].name@ == lift,
        devices[d].state is Lift,
        forall|j: int|
            0 <= j < d ==> (#[trigger] devices[j]).name@ != lift || !(devices[j].state is Lift),
    ensures
        lift_index(devices, lift, from) == Some(d),
    decreases d - from,
{
    if from < d {
        assert(devices[from].name@ != lift || !(devices[from].state is Lift));
        lemma_lift_index(devices, lift, from + 1, d);
    }
}

proof fn lemma_boarded_vehicles(
    devices: Seq<DeviceView>,
    standing: Seq<bool>,
    lift: Seq<char>,
    obstacles: Seq<Obstacle>,
    aboard: Seq<bool>,
    n: nat,
    i: int,
)
    requires
        boarding(devices, standing, lift, obstacles, aboard, n).refusal is None,
        n <= devices.len(),
    ensures
        ({
            let b = boarding(devices, standing, lift, obstacles, aboard, n);
            &&& 0 <= i < n && standing[i] && devices[i].state is Vehicle ==> b.vehicles.contains(
                devices[i].name,
            )
            &&& forall|m: int|
                0 <= m < b.vehicles.len() ==> exists|j: int|
                    0 <= j < n && standing[j] && (#[trigger] devices[j]).state is Vehicle
                        && devices[j].name == #[trigger] b.vehicles[m]
        }),
    decreases n,
{
    if n > 0 {
        let fewer = (n - 1) as nat;
        let less = boarding(devices, standing, lift, obstacles, aboard, fewer);
        let b = boarding(devices, standing, lift, obstacles, aboard, n);
        lemma_boarded_vehicles(devices, standing, lift, obstacles, aboard, fewer, i);
        if 0 <= i < fewer && standing[i] && devices[i].state is Vehicle {
            let m = choose|m: int| 0 <= m < less.vehicles.len() && less.vehicles[m] == devices[i].name;
            assert(b.vehicles[m] == devices[i].name);
        }
        if b != less {
            assert(b.vehicles == less.vehicles.push(devices[n - 1].name));
            assert(b.vehicles[b.vehicles.len() - 1] == devices[n - 1].name);
        }
        assert forall|m: int| 0 <= m < b.vehicles.len() implies exists|j: int|
            0 <= j < n && standing[j] && (#[trigger] devices[j]).state is Vehicle && devices[j].name
                == #[trigger] b.vehicles[m] by {
            if m < less.vehicles.len() {
                assert(less.vehicles[m] == b.vehicles[m]);
                let j = choose|j: int|
                    0 <= j < fewer && standing[j] && (#[trigger] devices[j]).state is Vehicle
                        && devices[j].name == less.vehicles[m];
                assert(devices[j].state is Vehicle);
            } else {
                assert(devices[n - 1].state is Vehicle);
            }
        }
    }
}

proof fn lemma_boarded_bodies(
    devices: Seq<DeviceView>,
    standing: Seq<bool>,
    lift: Seq<char>,
    obstacles: Seq<Obstacle>,
    aboard: Seq<bool>,
    n: nat,
    name: Seq<char>,
)
    requires
        holds_name(boarding(devices, standing, lift, obstacles, aboard, n).bodies, name),
        n <= devices.len(),
    ensures
        exists|j: int|
            0 <= j < n && standing[j] && (#[trigger] devices[j]).state is Vehicle && names_it(
                (devices[j].state->Vehicle_0).body,
                name,
            ),
    decreases n,
{
    if n > 0 {
        let fewer = (n - 1) as nat;
        let less = boarding(devices, standing, lift, obstacles, aboard, fewer);
        let b = boarding(devices, standing, lift, obstacles, aboard, n);
        let m = choose|m: int| 0 <= m < b.bodies.len() && #[trigger] b.bodies[m]@ == name;
        if m < less.bodies.len() {
            assert(less.bodies[m]@ == name);
            lemma_boarded_bodies(devices, standing, lift, obstacles, aboard, fewer, name);
            let j = choose|j: int|
                0 <= j < fewer && standing[j] && (#[trigger] devices[j]).state is Vehicle
                    && names_it((devices[j].state->Vehicle_0).body, name);
            assert(devices[j].state is Vehicle);
        } else {
            let body = (devices[n - 1].state->Vehicle_0).body;
            assert(body[m - less.bodies.len()]@ == name);
            assert(devices[n - 1].state is Vehicle);
        }
    }
}

proof fn lemma_loose(
    obstacles: Seq<Obstacle>,
    attachments: Seq<Attachment>,
    aboard: Seq<bool>,
    car: Seq<String>,
    bodies: Seq<String>,
    n: nat,
    k: int,
)
    requires
        n <= obstacles.len(),
    ensures
        ({
            let loose = loose_cargo(obstacles, attachments, aboard, car, bodies, n);
            &&& 0 <= k < n && aboard[k] && !holds_name(car, obstacles[k].name@) && !holds_name(
                bodies,
                obstacles[k].name@,
            ) && !is_held(attachments, obstacles[k].name@) ==> loose.contains(obstacles[k].name)
            &&& forall|m: int|
                0 <= m < loose.len() ==> !names_it(car, (#[trigger] loose[m])@) && !is_grasped(
                    attachments,
                    loose[m]@,
                ) && exists|j: int|
                    0 <= j < n && aboard[j] && (#[trigger] obstacles[j]).name == loose[m]
        }),
    decreases n,
{
    if n > 0 {
        let fewer = (n - 1) as nat;
        lemma_loose(obstacles, attachments, aboard, car, bodies, fewer, k);
        let less = loose_cargo(obstacles, attachments, aboard, car, bodies, fewer);
        let loose = loose_cargo(obstacles, attachments, aboard, car, bodies, n);
        let o = obstacles[n - 1];
        lemma_grasped(attachments, o.name@);
        if loose != less {
            assert(loose == less.push(o.name));
            assert(loose[loose.len() - 1] == o.name);
        }
        if less.contains(obstacles[k].name) {
            let m = choose|m: int| 0 <= m < less.len() && less[m] == obstacles[k].name;
            assert(loose[m] == obstacles[k].name);
        }
        assert forall|m: int| 0 <= m < loose.len() implies !names_it(car, (#[trigger] loose[m])@)
            && !is_grasped(attachments, loose[m]@) && exists|j: int|
            0 <= j < n && aboard[j] && (#[trigger] obstacles[j]).name == loose[m] by {
            if m < less.len() {
                assert(less[m] == loose[m]);
                let j = choose|j: int|
                    0 <= j < fewer && aboard[j] && (#[trigger] obstacles[j]).name == less[m];
                assert(obstacles[j].name == loose[m]);
            } else {
                assert(obstacles[n - 1].name == loose[m]);
                assert(names_it(car, o.name@) == holds_name(car, o.name@));
            }
        }
    }
}

/// The first lift named `name`.
pub fn find_lift(devices: &Vec<Device>, name: &str) -> (r: Option<usize>)
    ensures
        index_view(r) == lift_index(views(devices@), name@, 0),
        r matches Some(i) ==> i < devices@.len() && devices@[i as int]@.state is Lift,
{
    let mut i: usize = 0;
    while i < devices.len()
        invariant
            i <= devices.len(),
            lift_index(views(devices@), name@, 0) == lift_index(views(devices@), name@, i as int),
        decreases devices.len() - i,
    {
        assert(views(devices@)[i as int] == devices@[i as int]@);
        let is: bool = match &devices[i].state {
            DeviceRuntime::Lift(_) => true,
            _ => false,
        };
        if is && same(devices[i].name.as_str(), name) {
            return Some(i);
        }
        i = i + 1;
    }
    None
}

fn find_outside(body: &Vec<String>, obstacles: &Vec<Obstacle>, aboard: &Vec<bool>) -> (r: Option<
    usize,
>)
    requires
        aboard@.len() == obstacles@.len(),
    ensures
        index_view(r) == first_outside(body@, obstacles@, aboard@, 0),
        r matches Some(i) ==> i < body@.len(),
{
    let mut i: usize = 0;
    while i < body.len()
        invariant
            i <= body.len(),
            aboard@.len() == obstacles@.len(),
            first_outside(body@, obstacles@, aboard@, 0) == first_outside(
                body@,
                obstacles@,
                aboard@,
                i as int,
            ),
        decreases body.len() - i,
    {
        match find_body(obstacles, body[i].as_str()) {
            Some(k) => {
                if !aboard[k] {
                    return Some(i);
                }
            },
            None => {},
        }
        i = i + 1;
    }
    None
}

/// Fixes a lift's cargo at dispatch: every vehicle whose reference point
/// stands in the capture zone (its whole body must be aboard), and every loose
/// body whose origin does. `standing` says it of the devices, `aboard` of the
/// bodies.
pub fn capture_lift(
    devices: &mut Vec<Device>,
    lift: &str,
    standing: &Vec<bool>,
    obstacles: &Vec<Obstacle>,
    attachments: &Vec<Attachment>,
    aboard: &Vec<bool>,
) -> (r: Result<(), String>)
    requires
        standing@.len() == old(devices)@.len(),
        aboard@.len() == obstacles@.len(),
        all_sound(views(old(devices)@)),
    ensures
        all_sound(views(final(devices)@)),
        final(devices)@.len() == old(devices)@.len(),
        forall|j: int|
            0 <= j < old(devices)@.len() ==> (#[trigger] views(final(devices)@)[j]).lane == views(
                old(devices)@,
            )[j].lane,
        ({
            let why = capture_refusal(
                views(old(devices)@),
                lift@,
                standing@,
                obstacles@,
                aboard@,
            );
            match r {
                Err(message) => why == Some(message@) && final(devices)@ == old(devices)@,
                Ok(_) => why is None && views(final(devices)@) == captured(
                    views(old(devices)@),
                    lift@,
                    standing@,
                    obstacles@,
                    attachments@,
                    aboard@,
                ),
            }
        }),
{
    let ghost all = views(devices@);
    let at: usize = match find_lift(devices, lift) {
        Some(i) => i,
        None => {
            return Err(cat3("unknown lift `", lift, "`"));
        },
    };
    let mut vehicles: Vec<String> = Vec::new();
    let mut bodies: Vec<String> = Vec::new();
    let mut n: usize = 0;
    while n < devices.len()
        invariant
            n <= devices.len(),
            devices@ == old(devices)@,
            all == views(devices@),
            standing@.len() == devices@.len(),
            aboard@.len() == obstacles@.len(),
            lift_index(all, lift@, 0) == Some(at as int),
            ({
                let b = boarding(all, standing@, lift@, obstacles@, aboard@, n as nat);
                &&& b.refusal is None
                &&& b.vehicles == vehicles@
                &&& b.bodies == bodies@
            }),
            all_sound(views(devices@)),
        decreases devices.len() - n,
    {
        assert(all[n as int] == devices@[n as int]@);
        let d: &Device = &devices[n];
        let ghost upto = boarding(all, standing@, lift@, obstacles@, aboard@, (n + 1) as nat);
        match &d.state {
            DeviceRuntime::Vehicle(v) => {
                if standing[n] {
                    if v.legs.len() > 0 {
                        proof {
                            lemma_boarding_refusal(
                                all,
                                standing@,
                                lift@,
                                obstacles@,
                                aboard@,
                                (n + 1) as nat,
                                all.len(),
                            );
                        }
                        return Err(
                            cat5(
                                "vehicle `",
                                d.name.as_str(),
                                "` is still travelling; wait for its device_done before moving lift `",
                                lift,
                                "`",
                            ),
                        );
                    }
                    match find_outside(&v.body, obstacles, aboard) {
                        Some(i) => {
                            proof {
                                lemma_boarding_refusal(
                                    all,
                                    standing@,
                                    lift@,
                                    obstacles@,
                                    aboard@,
                                    (n + 1) as nat,
                                    all.len(),
                                );
                            }
                            return Err(
                                cat7(
                                    "vehicle `",
                                    d.name.as_str(),
                                    "` is boarding lift `",
                                    lift,
                                    "` half out: `",
                                    v.body[i].as_str(),
                                    "` stands outside the capture zone",
                                ),
                            );
                        },
                        None => {},
                    }
                    vehicles.push(d.name.clone());
                    let mut more: Vec<String> = copied_names(&v.body);
                    bodies.append(&mut more);
                }
            },
            _ => {},
        }
        n = n + 1;
    }
    let ghost b = boarding(all, standing@, lift@, obstacles@, aboard@, all.len());
    match &mut devices[at].state {
        DeviceRuntime::Lift(l) => {
            let mut objects: Vec<String> = Vec::new();
            let mut k: usize = 0;
            while k < obstacles.len()
                invariant
                    k <= obstacles.len(),
                    aboard@.len() == obstacles@.len(),
                    objects@ == loose_cargo(
                        obstacles@,
                        attachments@,
                        aboard@,
                        l.car@,
                        bodies@,
                        k as nat,
                    ),
                decreases obstacles.len() - k,
            {
                let name: &str = obstacles[k].name.as_str();
                if !contains_name(&l.car, name) && !contains_name(&bodies, name) && !held(
                    attachments,
                    name,
                ) && aboard[k] {
                    objects.push(obstacles[k].name.clone());
                }
                k = k + 1;
            }
            l.cargo_objects = objects;
            l.cargo_vehicles = vehicles;
        },
        _ => {},
    }
    proof {
        assert forall|j: int| 0 <= j < all.len() implies (#[trigger] views(devices@)[j]).lane
            == all[j].lane by {
            if j != at {
                assert(devices@[j] == old(devices)@[j]);
            }
        }
        assert(views(devices@) =~= captured(
            all,
            lift@,
            standing@,
            obstacles@,
            attachments@,
            aboard@,
        ));
        assert forall|j: int| 0 <= j < views(devices@).len() implies sound(
            #[trigger] views(devices@)[j],
        ) by {
            assert(sound(all[j]));
        }
    }
    Ok(())
}

proof fn lemma_boarding_refusal(
    devices: Seq<DeviceView>,
    standing: Seq<bool>,
    lift: Seq<char>,
    obstacles: Seq<Obstacle>,
    aboard: Seq<bool>,
    k: nat,
    n: nat,
)
    requires
        k <= n,
        boarding(devices, standing, lift, obstacles, aboard, k).refusal is Some,
    ensures
        boarding(devices, standing, lift, obstacles, aboard, n) == boarding(
            devices,
            standing,
            lift,
            obstacles,
            aboard,
            k,
        ),
    decreases n - k,
{
    if k < n {
        lemma_boarding_refusal(devices, standing, lift, obstacles, aboard, k, (n - 1) as nat);
    }
}

/// Returns leave the devices on their lanes, and the lanes as they are.
pub proof fn lemma_restocked_devices(line: Line, returned: Seq<Returned>, t: Pico)
    ensures
        restocked(line, returned, t).devices.len() == line.devices.len(),
        forall|d: int|
            0 <= d < line.devices.len() ==> (#[trigger] restocked(line, returned, t).devices[d]).lane
                == line.devices[d].lane,
        restocked(line, returned, t).lanes == line.lanes,
    decreases returned.len(),
{
    if returned.len() > 0 {
        lemma_restocked_devices(line, returned.drop_last(), t);
        let less = restocked(line, returned.drop_last(), t);
        let all = restocked(line, returned, t);
        assert forall|d: int| 0 <= d < line.devices.len() implies (#[trigger] all.devices[d]).lane
            == line.devices[d].lane by {
            assert(less.devices[d].lane == line.devices[d].lane);
        }
    }
}

/// Feeding leaves the devices on their lanes, and pins nothing.
pub proof fn lemma_fed_devices(line: Line, n: nat, dt: Pico, t: Pico)
    requires
        n <= line.devices.len(),
    ensures
        fed_line(line, n, dt, t).devices.len() == line.devices.len(),
        forall|d: int|
            0 <= d < line.devices.len() ==> (#[trigger] fed_line(line, n, dt, t).devices[d]).lane
                == line.devices[d].lane,
        fed_line(line, n, dt, t).lanes.forced == line.lanes.forced,
    decreases n,
{
    if n > 0 {
        lemma_fed_devices(line, (n - 1) as nat, dt, t);
        let less = fed_line(line, (n - 1) as nat, dt, t);
        let all = fed_line(line, n, dt, t);
        assert forall|d: int| 0 <= d < line.devices.len() implies (#[trigger] all.devices[d]).lane
            == line.devices[d].lane by {
            assert(less.devices[d].lane == line.devices[d].lane);
        }
    }
}

/// A lift takes its cargo on unless a vehicle in its zone is still driving or stands half
/// out of it; a lift that is not there takes none.
pub proof fn law_a_lift_refuses_what_drives_or_stands_half_out(
    devices: Seq<DeviceView>,
    lift: Seq<char>,
    standing: Seq<bool>,
    obstacles: Seq<Obstacle>,
    aboard: Seq<bool>,
)
    ensures
        lift_index(devices, lift, 0) is None ==> capture_refusal(
            devices,
            lift,
            standing,
            obstacles,
            aboard,
        ) is Some,
        lift_index(devices, lift, 0) is Some ==> (capture_refusal(
            devices,
            lift,
            standing,
            obstacles,
            aboard,
        ) is None <==> forall|i: int|
            0 <= i < devices.len() && standing[i] ==> fit_to_ride(
                #[trigger] devices[i],
                obstacles,
                aboard,
            )),
{
    lemma_all_fit(devices, standing, lift, obstacles, aboard, devices.len());
}

/// Whether a device that stands in a lift's zone can ride: what is no vehicle can, and a
/// vehicle that does not drive and has every body of it in the zone.
pub open spec fn fit_to_ride(d: DeviceView, obstacles: Seq<Obstacle>, aboard: Seq<bool>) -> bool {
    d.state matches StateView::Vehicle(v) ==> v.legs.len() == 0 && forall|k: int|
        0 <= k < v.body.len() ==> (body_index(obstacles, (#[trigger] v.body[k])@) matches Some(b)
            ==> aboard[b])
}

proof fn lemma_all_fit(
    devices: Seq<DeviceView>,
    standing: Seq<bool>,
    lift: Seq<char>,
    obstacles: Seq<Obstacle>,
    aboard: Seq<bool>,
    n: nat,
)
    requires
        n <= devices.len(),
    ensures
        boarding(devices, standing, lift, obstacles, aboard, n).refusal is None <==> forall|i: int|
            0 <= i < n && standing[i] ==> fit_to_ride(#[trigger] devices[i], obstacles, aboard),
    decreases n,
{
    if n > 0 {
        let less = (n - 1) as nat;
        lemma_all_fit(devices, standing, lift, obstacles, aboard, less);
        let d = devices[n - 1];
        match d.state {
            StateView::Vehicle(v) => {
                lemma_first_outside(v.body, obstacles, aboard, 0);
                assert(fit_to_ride(d, obstacles, aboard) <==> boarding_refusal(
                    d,
                    lift,
                    obstacles,
                    aboard,
                ) is None);
            },
            _ => {
                assert(fit_to_ride(d, obstacles, aboard));
            },
        }
    }
}

proof fn lemma_first_outside(
    body: Seq<String>,
    obstacles: Seq<Obstacle>,
    aboard: Seq<bool>,
    from: int,
)
    requires
        0 <= from,
    ensures
        first_outside(body, obstacles, aboard, from) is None <==> forall|k: int|
            from <= k < body.len() ==> (body_index(obstacles, (#[trigger] body[k])@) matches Some(b)
                ==> aboard[b]),
    decreases body.len() - from,
{
    if from < body.len() {
        let here = body[from];
        lemma_first_outside(body, obstacles, aboard, from + 1);
    }
}

/// What sinks caught goes back one after the other, in order; then the devices feed one
/// after the other, in order.
pub proof fn law_supply_goes_in_order(
    line: Line,
    returned: Seq<Returned>,
    r: Returned,
    n: nat,
    dt: Pico,
    t: Pico,
)
    ensures
        restocked(line, seq![], t) == line,
        restocked(line, returned.push(r), t) == stocked(restocked(line, returned, t), r, t),
        fed_line(line, 0, dt, t) == line,
        fed_line(line, n + 1, dt, t) == fed_by(fed_line(line, n, dt, t), n as int, dt, t),
{
    assert(returned.push(r).drop_last() =~= returned);
    assert(returned.push(r).last() == r);
}

/// What no source owns stays where a sink caught it. A device that is no source feeds
/// nothing, and one that releases nothing changes nothing but its own clock.
pub proof fn law_only_sources_feed_and_take_back(
    line: Line,
    r: Returned,
    d: int,
    dt: Pico,
    t: Pico,
    i: int,
)
    requires
        0 <= d < line.devices.len(),
        0 <= i < line.devices.len(),
    ensures
        r.source is None ==> stocked(line, r, t) == line,
        !(line.devices[d].state is Source) ==> fed_by(line, d, dt, t) == line,
        line.devices[d].state matches StateView::Source(s) ==> {
            let after = fed_by(line, d, dt, t);
            &&& after.devices.len() == line.devices.len()
            &&& i != d ==> after.devices[i] == line.devices[i]
            &&& after.devices[d].name == line.devices[d].name
            &&& after.devices[d].lane == line.devices[d].lane
            &&& after.devices[d].state == StateView::Source(fed(s, dt).0)
            &&& fed(s, dt).1 is None ==> after.bodies == line.bodies && after.lanes == line.lanes
        },
{
}

} // verus!
