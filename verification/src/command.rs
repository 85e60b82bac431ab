//! Commanding devices.

use vstd::prelude::*;

use crate::devices::{
    find_station, find_stop, station_index, stop_position, Axis, AxisView, Conveyor, Device,
    DeviceRuntime, DeviceView, Lift, LiftView, Source, SourceView, StateView, Vehicle, VehicleView,
};
use crate::fixed::{differ, difference, longer_than, norm, scaled, Pico, Vec3, MILLI, NANO};
use crate::seq::DeviceCommand;
use crate::text::{cat3, cat5, cat7, decimal, decimal_places, decimal_text, places_text};
use crate::vehicle::{
    build_legs, cruise, goes_along, law_cruising_is_along_the_way,
    law_cruising_keeps_the_direction_and_takes_the_speed, law_no_part_is_longer_than_the_whole,
    legs_of, level_part, route_of, shares_out, vehicle_route, Drive,
};

verus! {

/// What a command does: refused with a reason, or taken.
#[verifier::ext_equal]
pub enum Outcome {
    Refused(Seq<char>),
    Taken {
        state: StateView,
        /// The level that the device's lane takes on.
        lane: Option<bool>,
        /// A vehicle sets out.
        dispatched: bool,
        /// A lift closes its doors on its cargo.
        capture: bool,
    },
}

/// What a command that was taken asks for besides.
#[derive(Clone, Copy, Debug, PartialEq, Eq, Structural)]
pub struct Taken {
    pub lane: Option<bool>,
    pub dispatched: bool,
    pub capture: bool,
}

/// Whether two positions lie more than 10^-9 m apart.
pub open spec fn apart(a: Pico, b: Pico) -> bool {
    a - b > NANO || b - a > NANO
}

fn are_apart(a: Pico, b: Pico) -> (r: bool)
    ensures
        r == apart(a, b),
{
    let d: i128 = a as i128 - b as i128;
    d > NANO as i128 || -d > NANO as i128
}

/// A vehicle whose path, position and target fit together.
pub open spec fn guided(v: VehicleView) -> bool {
    &&& forall|i: int| 0 <= i < v.stations.len() ==> (#[trigger] v.stations[i]).1 < v.waypoints.len()
    &&& v.waypoints.len() > 0 ==> v.target < v.waypoints.len()
    &&& v.waypoints.len() > 0 ==> (v.at matches Some(a) ==> a < v.waypoints.len())
}

/// A device whose parts fit together: a vehicle is guided, and a source knows
/// of each member of its pool whether it waits.
pub open spec fn sound(d: DeviceView) -> bool {
    match d.state {
        StateView::Vehicle(v) => guided(v),
        StateView::Source(s) => s.parked.len() == s.pool.len(),
        _ => true,
    }
}

/// Whether the run from one waypoint to the next is a lift's: up or down by
/// more than a millimetre, and along by no more than one.
pub open spec fn lift_edge(waypoints: Seq<Vec3>, prev: int, k: int) -> bool {
    let d = difference(waypoints[k], waypoints[prev]);
    (d.z > MILLI || d.z < -MILLI) && level_part(d).square() <= MILLI * MILLI
}

/// The first lift edge on a route.
pub open spec fn crossing(waypoints: Seq<Vec3>, prev: int, route: Seq<usize>) -> Option<(int, int)>
    decreases route.len(),
{
    if route.len() == 0 {
        None
    } else if lift_edge(waypoints, prev, route[0] as int) {
        Some((prev, route[0] as int))
    } else {
        crossing(waypoints, route[0] as int, route.drop_first())
    }
}

/// Where a drive would start from.
pub open spec fn setting_out(v: VehicleView) -> usize {
    match v.at {
        Some(a) => a,
        None => v.target,
    }
}

/// Why a vehicle does not set out for a station.
pub open spec fn goto_refusal(
    device: Seq<char>,
    v: VehicleView,
    station: Seq<char>,
    riding: Option<Seq<char>>,
) -> Option<Seq<char>> {
    if v.legs.len() > 0 {
        Some(
            "vehicle `"@ + device
                + "` is still travelling; wait for device_done before the next goto"@,
        )
    } else if riding is Some {
        Some(
            "vehicle `"@ + device + "` is riding lift `"@ + riding->0
                + "`; wait for the lift's device_done before the next goto"@,
        )
    } else if station_index(v.stations, station) is None {
        Some("vehicle `"@ + device + "` has no station `"@ + station + "`"@)
    } else if v.at is None && difference(v.waypoints[v.target as int], v.position).square() > MILLI
        * MILLI {
        Some(
            "vehicle `"@ + device
                + "` is off its path (a lift ride ended between stations?) — no waypoint within 1 mm of ("@
                + decimal_places(v.position.x as int, 3) + ", "@ + decimal_places(
                v.position.y as int,
                3,
            ) + ", "@ + decimal_places(v.position.z as int, 3) + ")"@,
        )
    } else {
        let route = route_of(
            v.waypoints,
            v.ring,
            setting_out(v) as int,
            station_index(v.stations, station)->0 as int,
        );
        match (v.drive, crossing(v.waypoints, setting_out(v) as int, route)) {
            (Drive::Aerial { .. }, _) => None,
            (_, None) => None,
            (_, Some(edge)) => Some(
                "station `"@ + station + "` is across the lift edge (waypoints "@ + decimal(
                    edge.0 as nat,
                ) + "–"@ + decimal(edge.1 as nat)
                    + "): goto the near side, ride the lift, then continue"@,
            ),
        }
    }
}

/// The route of a goto that is taken.
pub open spec fn goto_route_of(
    device: DeviceView,
    command: DeviceCommand,
    riding: Option<Seq<char>>,
) -> Option<Seq<usize>> {
    match (device.state, command) {
        (StateView::Vehicle(v), DeviceCommand::Goto { station }) => {
            if goto_refusal(device.name@, v, station@, riding) is Some {
                None
            } else {
                Some(
                    route_of(
                        v.waypoints,
                        v.ring,
                        setting_out(v) as int,
                        station_index(v.stations, station@)->0 as int,
                    ),
                )
            }
        },
        _ => None,
    }
}

/// A vehicle that sets out for waypoint `to`, or is there already.
pub open spec fn sent(v: VehicleView, to: usize, courses: Seq<Pico>) -> VehicleView {
    let route = route_of(v.waypoints, v.ring, setting_out(v) as int, to as int);
    let legs = legs_of(
        v.waypoints,
        route,
        courses,
        v.position,
        v.heading,
        v.speed,
        v.turn_speed,
        v.drive,
    );
    VehicleView {
        legs,
        target: to,
        at: if legs.len() == 0 {
            Some(to)
        } else {
            None
        },
        ..v
    }
}

pub open spec fn taken(state: StateView, lane: Option<bool>) -> Outcome {
    Outcome::Taken { state, lane, dispatched: false, capture: false }
}

/// What a command does to a device. `riding` names the lift that carries it,
/// `courses` the directions of the runs of the route it would take.
pub open spec fn commanded(
    device: DeviceView,
    command: DeviceCommand,
    riding: Option<Seq<char>>,
    courses: Seq<Pico>,
) -> Outcome {
    match (device.state, command) {
        (StateView::Conveyor(c), DeviceCommand::Start) => taken(
            StateView::Conveyor(Conveyor { running: true, ..c }),
            Some(true),
        ),
        (StateView::Conveyor(c), DeviceCommand::Stop) => taken(
            StateView::Conveyor(Conveyor { running: false, ..c }),
            Some(false),
        ),
        // A start always yields a carrier: the feed is due now.
        (StateView::Source(s), DeviceCommand::Start) => taken(
            StateView::Source(SourceView { running: true, due: 0, ..s }),
            Some(true),
        ),
        (StateView::Source(s), DeviceCommand::Stop) => taken(
            StateView::Source(SourceView { running: false, ..s }),
            Some(false),
        ),
        (StateView::Source(s), DeviceCommand::SetSpeed(period)) => taken(
            StateView::Source(SourceView { interval: period, ..s }),
            None,
        ),
        (StateView::Conveyor(c), DeviceCommand::SetSpeed(speed)) => taken(
            StateView::Conveyor(
                Conveyor {
                    velocity: if c.velocity.square() > 1 {
                        cruise(c.velocity, speed)
                    } else {
                        c.velocity
                    },
                    ..c
                },
            ),
            None,
        ),
        (StateView::Conveyor(c), DeviceCommand::Advance(distance)) => {
            if c.running {
                Outcome::Refused(
                    "conveyor `"@ + device.name@
                        + "` is free-running; stop it before a fixed advance"@,
                )
            } else if c.remaining is Some {
                Outcome::Refused(
                    "conveyor `"@ + device.name@
                        + "` is still advancing; wait for device_done before the next advance"@,
                )
            } else if distance > 0 {
                taken(
                    StateView::Conveyor(Conveyor { remaining: Some(distance), ..c }),
                    Some(true),
                )
            } else {
                taken(device.state, None)
            }
        },
        (StateView::Axis(a), DeviceCommand::MoveTo(goal)) => taken(
            StateView::Axis(AxisView { target: goal, ..a }),
            if apart(goal, a.position) {
                Some(true)
            } else {
                None
            },
        ),
        (StateView::Vehicle(v), DeviceCommand::Goto { station }) => match goto_refusal(
            device.name@,
            v,
            station@,
            riding,
        ) {
            Some(why) => Outcome::Refused(why),
            None => {
                let after = sent(v, station_index(v.stations, station@)->0, courses);
                let leaves = after.legs.len() > 0;
                Outcome::Taken {
                    state: StateView::Vehicle(after),
                    lane: if leaves {
                        Some(true)
                    } else {
                        None
                    },
                    dispatched: leaves,
                    capture: false,
                }
            },
        },
        (StateView::Lift(l), DeviceCommand::MoveToStop(stop)) => {
            if apart(l.target, l.position) {
                Outcome::Refused(
                    "lift `"@ + device.name@
                        + "` is still moving; wait for device_done before the next move_to"@,
                )
            } else {
                match stop_position(l.stops, stop@) {
                    None => Outcome::Refused(
                        "lift `"@ + device.name@ + "` has no stop `"@ + stop@ + "`"@,
                    ),
                    Some(goal) => {
                        let leaves = apart(goal, l.position);
                        Outcome::Taken {
                            state: StateView::Lift(LiftView { target: goal, ..l }),
                            lane: if leaves {
                                Some(true)
                            } else {
                                None
                            },
                            dispatched: false,
                            capture: leaves,
                        }
                    },
                }
            }
        },
        _ => Outcome::Refused("invalid command for device `"@ + device.name@ + "`"@),
    }
}

/// A belt whose speed is set goes on the way it went, at that speed, running or
/// not; nothing else of it changes, nor does its lane. A belt without a velocity
/// has no way to go and stays as it is.
pub proof fn law_a_belt_takes_the_speed_it_is_set(
    device: DeviceView,
    c: Conveyor,
    speed: Pico,
    riding: Option<Seq<char>>,
    courses: Seq<Pico>,
)
    requires
        device.state == StateView::Conveyor(c),
        speed > i64::MIN,
    ensures
        ({
            let way = c.velocity.x * c.velocity.x + c.velocity.y * c.velocity.y + c.velocity.z
                * c.velocity.z;
            &&& commanded(device, DeviceCommand::SetSpeed(speed), riding, courses)
                matches Outcome::Taken { state: StateView::Conveyor(after), lane, dispatched, capture }
            &&& lane is None && !dispatched && !capture
            &&& after == (Conveyor { velocity: after.velocity, ..c })
            &&& way <= 1 ==> after.velocity == c.velocity
            &&& way > 1 ==> shares_out(after.velocity, c.velocity, speed as int)
            &&& way > 1 && speed >= 0 ==> goes_along(after.velocity, c.velocity, speed as int)
        }),
{
    let way = c.velocity.square();
    if way > 1 {
        law_no_part_is_longer_than_the_whole(c.velocity);
        let n = crate::fixed::length(c.velocity);
        assert(n > 0) by (nonlinear_arith)
            requires
                way > 1,
                way < (n + 1) * (n + 1),
                n >= 0,
        ;
        law_cruising_is_along_the_way(c.velocity, speed);
        if speed >= 0 {
            law_cruising_keeps_the_direction_and_takes_the_speed(c.velocity, speed);
        }
    }
}

/// A belt that is started runs and one that is stopped does not, its lane saying
/// so; where it lies, which way and how fast it goes, and what is left of an
/// advance, stay as they are.
pub proof fn law_start_and_stop_switch_a_belt(
    device: DeviceView,
    c: Conveyor,
    on: bool,
    riding: Option<Seq<char>>,
    courses: Seq<Pico>,
)
    requires
        device.state == StateView::Conveyor(c),
    ensures
        commanded(
            device,
            if on {
                DeviceCommand::Start
            } else {
                DeviceCommand::Stop
            },
            riding,
            courses,
        ) matches Outcome::Taken { state: StateView::Conveyor(after), lane, dispatched, capture }
            && after.running == on && lane == Some(on) && !dispatched && !capture && after.zone
            == c.zone && after.size == c.size && after.velocity == c.velocity && after.remaining
            == c.remaining,
{
}

/// A source that is started runs, and its next carrier is due at once; one that is
/// stopped runs no more and keeps its clock. Its magazine stays as it is, and its
/// lane says which.
pub proof fn law_start_and_stop_switch_a_source(
    device: DeviceView,
    s: SourceView,
    on: bool,
    riding: Option<Seq<char>>,
    courses: Seq<Pico>,
)
    requires
        device.state == StateView::Source(s),
    ensures
        commanded(
            device,
            if on {
                DeviceCommand::Start
            } else {
                DeviceCommand::Stop
            },
            riding,
            courses,
        ) matches Outcome::Taken { state: StateView::Source(after), lane, dispatched, capture }
            && after.running == on && lane == Some(on) && !dispatched && !capture && after.due == (
        if on {
            0
        } else {
            s.due
        }) && after.interval == s.interval && after.parked == s.parked && after.pool == s.pool
            && after.pose == s.pose && after.park == s.park && after.pitch == s.pitch,
{
}

/// What is set of a source is its interval, and nothing else.
pub proof fn law_a_source_takes_the_interval_it_is_set(
    device: DeviceView,
    s: SourceView,
    period: Pico,
    riding: Option<Seq<char>>,
    courses: Seq<Pico>,
)
    requires
        device.state == StateView::Source(s),
    ensures
        commanded(device, DeviceCommand::SetSpeed(period), riding, courses) matches Outcome::Taken {
            state: StateView::Source(after),
            lane,
            dispatched,
            capture,
        } && after.interval == period && lane is None && !dispatched && !capture && after.due
            == s.due && after.running == s.running && after.parked == s.parked && after.pool
            == s.pool && after.pose == s.pose && after.park == s.park && after.pitch == s.pitch,
{
}

/// A belt is advanced by exactly the distance asked for, its lane high until it
/// has run it, and by nothing where the distance is none. It takes no advance
/// while it runs, nor while one is still under way.
pub proof fn law_a_belt_advances_when_it_stands(
    device: DeviceView,
    c: Conveyor,
    distance: Pico,
    riding: Option<Seq<char>>,
    courses: Seq<Pico>,
)
    requires
        device.state == StateView::Conveyor(c),
    ensures
        ({
            let r = commanded(device, DeviceCommand::Advance(distance), riding, courses);
            &&& (r is Refused) == (c.running || c.remaining is Some)
            &&& r matches Outcome::Taken { state, lane, dispatched, capture } ==> {
                &&& !dispatched && !capture
                &&& state matches StateView::Conveyor(after) && after.velocity == c.velocity
                    && !after.running && after.zone == c.zone && after.size == c.size
                    && after.remaining == (if distance > 0 {
                    Some(distance)
                } else {
                    None::<Pico>
                })
                &&& lane == (if distance > 0 {
                    Some(true)
                } else {
                    None::<bool>
                })
            }
        }),
{
}

/// An axis is sent where it is told, and stays where it is until it moves; its
/// lane goes high where it has more than 10^-9 m to go.
pub proof fn law_an_axis_is_sent_where_it_is_told(
    device: DeviceView,
    a: AxisView,
    goal: Pico,
    riding: Option<Seq<char>>,
    courses: Seq<Pico>,
)
    requires
        device.state == StateView::Axis(a),
    ensures
        commanded(device, DeviceCommand::MoveTo(goal), riding, courses) matches Outcome::Taken {
            state: StateView::Axis(after),
            lane,
            dispatched,
            capture,
        } && after.target == goal && after.position == a.position && after.speed == a.speed
            && after.axis == a.axis && after.objects == a.objects && !dispatched && !capture
            && lane == (if goal > a.position + 1_000 || a.position > goal + 1_000 {
            Some(true)
        } else {
            None::<bool>
        }),
{
}

/// A lift that has come to rest is sent to the position of the stop that is named,
/// closing its doors on its cargo where that is more than 10^-9 m away. It takes no
/// other command while it moves, and none for a stop that it does not have. `k` is
/// the first stop of that name.
pub proof fn law_a_lift_is_sent_to_the_stop_it_is_told(
    device: DeviceView,
    l: LiftView,
    stop: String,
    riding: Option<Seq<char>>,
    courses: Seq<Pico>,
    k: int,
)
    requires
        device.state == StateView::Lift(l),
    ensures
        ({
            let r = commanded(device, DeviceCommand::MoveToStop(stop), riding, courses);
            let moves = l.target > l.position + 1_000 || l.position > l.target + 1_000;
            &&& moves ==> r is Refused
            &&& (forall|j: int| 0 <= j < l.stops.len() ==> (#[trigger] l.stops[j]).0@ != stop@)
                ==> r is Refused
            &&& !moves && 0 <= k < l.stops.len() && l.stops[k].0@ == stop@ && (forall|j: int|
                0 <= j < k ==> (#[trigger] l.stops[j]).0@ != stop@) ==> {
                let goal = l.stops[k].1;
                let leaves = goal > l.position + 1_000 || l.position > goal + 1_000;
                &&& r matches Outcome::Taken { state, lane, dispatched, capture }
                &&& state == StateView::Lift(LiftView { target: goal, ..l })
                &&& !dispatched && capture == leaves
                &&& lane == (if leaves {
                    Some(true)
                } else {
                    None::<bool>
                })
            }
        }),
{
    let names = crate::names::names_of(l.stops);
    crate::names::lemma_find(names, stop@, 0);
    match crate::names::find(names, stop@) {
        Some(i) => {
            assert(names[i] == l.stops[i].0@);
            if 0 <= k < l.stops.len() {
                assert(names[k] == l.stops[k].0@);
                if k < i {
                    assert(names[k] != stop@);
                }
            }
        },
        None => {
            if 0 <= k < l.stops.len() {
                assert(names[k] == l.stops[k].0@);
            }
        },
    }
}

/// A vehicle that is sent to a station sets out for its waypoint, by legs that lead
/// there, and is at no waypoint until it arrives; where it is there already it stays.
/// It takes no other station while it travels, none while it rides a lift, and none
/// that it does not have. `k` is the first station of that name.
pub proof fn law_a_vehicle_is_sent_to_the_station_it_is_told(
    device: DeviceView,
    v: VehicleView,
    station: String,
    riding: Option<Seq<char>>,
    courses: Seq<Pico>,
    k: int,
)
    requires
        device.state == StateView::Vehicle(v),
        guided(v),
    ensures
        ({
            let r = commanded(device, DeviceCommand::Goto { station }, riding, courses);
            &&& v.legs.len() > 0 || riding is Some ==> r is Refused
            &&& (forall|j: int| 0 <= j < v.stations.len() ==> (#[trigger] v.stations[j]).0@
                != station@) ==> r is Refused
            &&& r matches Outcome::Taken { state, lane, dispatched, capture } ==> {
                &&& !capture
                &&& state matches StateView::Vehicle(after) && {
                    &&& after == (VehicleView {
                        legs: after.legs,
                        target: after.target,
                        at: after.at,
                        ..v
                    })
                    &&& dispatched == (after.legs.len() > 0)
                    &&& lane == (if dispatched {
                        Some(true)
                    } else {
                        None::<bool>
                    })
                    &&& after.at == (if dispatched {
                        None
                    } else {
                        Some(after.target)
                    })
                    &&& 0 <= k < v.stations.len() && v.stations[k].0@ == station@ && (forall|
                        j: int,
                    |
                        0 <= j < k ==> (#[trigger] v.stations[j]).0@ != station@)
                        ==> after.target == v.stations[k].1
                }
            }
        }),
{
    let names = crate::names::names_of(v.stations);
    crate::names::lemma_find(names, station@, 0);
    match crate::names::find(names, station@) {
        Some(i) => {
            assert(names[i] == v.stations[i].0@);
            if 0 <= k < v.stations.len() {
                assert(names[k] == v.stations[k].0@);
                if k < i {
                    assert(names[k] != station@);
                }
            }
        },
        None => {
            if 0 <= k < v.stations.len() {
                assert(names[k] == v.stations[k].0@);
            }
        },
    }
}

/// A vehicle that drives goes over no edge of its path that a lift runs on: a goto
/// whose route has one, more than a millimetre up or down and no more than one
/// along, is refused to all but what flies. `i` is a place on the route.
pub proof fn law_no_vehicle_drives_up_a_shaft(
    device: DeviceView,
    v: VehicleView,
    station: String,
    riding: Option<Seq<char>>,
    courses: Seq<Pico>,
    i: int,
)
    requires
        device.state == StateView::Vehicle(v),
        !(v.drive is Aerial),
        commanded(device, DeviceCommand::Goto { station }, riding, courses) is Taken,
    ensures
        ({
            let from = match v.at {
                Some(a) => a,
                None => v.target,
            };
            let route = route_of(
                v.waypoints,
                v.ring,
                from as int,
                station_index(v.stations, station@)->0 as int,
            );
            0 <= i < route.len() ==> {
                let a = v.waypoints[if i == 0 {
                    from as int
                } else {
                    route[i - 1] as int
                }];
                let d = difference(v.waypoints[route[i] as int], a);
                -1_000_000_000 <= d.z <= 1_000_000_000 || d.x * d.x + d.y * d.y > 1_000_000_000
                    * 1_000_000_000
            }
        }),
{
    let from = setting_out(v) as int;
    let route = route_of(
        v.waypoints,
        v.ring,
        from,
        station_index(v.stations, station@)->0 as int,
    );
    if 0 <= i < route.len() {
        lemma_no_crossing(v.waypoints, from, route, i);
    }
}

/// Whether a way goes up or down a shaft: more than a millimetre up or down and no more
/// than one along.
pub open spec fn goes_up_a_shaft(a: Vec3, b: Vec3) -> bool {
    let d = difference(b, a);
    (d.z > 1_000_000_000 || d.z < -1_000_000_000) && d.x * d.x + d.y * d.y <= 1_000_000_000
        * 1_000_000_000
}

/// A vehicle is refused a station only for cause: it is under way, rides a lift, is off its
/// path by more than a millimetre, does not know the station, or would drive up a shaft.
pub proof fn law_a_goto_is_refused_only_for_cause(
    device: Seq<char>,
    v: VehicleView,
    station: Seq<char>,
    riding: Option<Seq<char>>,
)
    ensures
        ({
            let off = difference(v.waypoints[v.target as int], v.position);
            let from = match v.at {
                Some(a) => a as int,
                None => v.target as int,
            };
            let route = route_of(
                v.waypoints,
                v.ring,
                from,
                station_index(v.stations, station)->0 as int,
            );
            goto_refusal(device, v, station, riding) is None <==> {
                &&& v.legs.len() == 0
                &&& riding is None
                &&& station_index(v.stations, station) is Some
                &&& v.at is Some || off.x * off.x + off.y * off.y + off.z * off.z <= 1_000_000_000
                    * 1_000_000_000
                &&& v.drive is Aerial || no_shaft(v.waypoints, from, route)
            }
        }),
{
    let off = difference(v.waypoints[v.target as int], v.position);
    assert(off.square() == off.x * off.x + off.y * off.y + off.z * off.z);
    let from = setting_out(v) as int;
    let route = route_of(v.waypoints, v.ring, from, station_index(v.stations, station)->0 as int);
    lemma_crossing(v.waypoints, from, route);
}

/// Whether no edge of a route goes up a shaft.
pub open spec fn no_shaft(waypoints: Seq<Vec3>, from: int, route: Seq<usize>) -> bool
    decreases route.len(),
{
    route.len() > 0 ==> !goes_up_a_shaft(waypoints[from], waypoints[route[0] as int]) && no_shaft(
        waypoints,
        route[0] as int,
        route.drop_first(),
    )
}

proof fn lemma_crossing(waypoints: Seq<Vec3>, prev: int, route: Seq<usize>)
    ensures
        crossing(waypoints, prev, route) is None <==> no_shaft(waypoints, prev, route),
    decreases route.len(),
{
    if route.len() > 0 {
        let d = difference(waypoints[route[0] as int], waypoints[prev]);
        assert(level_part(d).square() == d.x * d.x + d.y * d.y);
        lemma_crossing(waypoints, route[0] as int, route.drop_first());
    }
}

proof fn lemma_no_crossing(waypoints: Seq<Vec3>, prev: int, route: Seq<usize>, i: int)
    requires
        crossing(waypoints, prev, route) is None,
        0 <= i < route.len(),
    ensures
        ({
            let a = if i == 0 {
                prev
            } else {
                route[i - 1] as int
            };
            let d = difference(waypoints[route[i] as int], waypoints[a]);
            -1_000_000_000 <= d.z <= 1_000_000_000 || d.x * d.x + d.y * d.y > 1_000_000_000
                * 1_000_000_000
        }),
    decreases route.len(),
{
    let d = difference(waypoints[route[0] as int], waypoints[prev]);
    assert(level_part(d).square() == d.x * d.x + d.y * d.y);
    if i > 0 {
        let rest = route.drop_first();
        lemma_no_crossing(waypoints, route[0] as int, rest, i - 1);
        assert(rest[i - 1] == route[i]);
        if i > 1 {
            assert(rest[i - 2] == route[i - 1]);
        }
    }
}

/// A device takes the commands of its kind and no others.
pub proof fn law_devices_take_the_commands_of_their_kind(
    device: DeviceView,
    command: DeviceCommand,
    riding: Option<Seq<char>>,
    courses: Seq<Pico>,
)
    ensures
        commanded(device, command, riding, courses) is Taken ==> match command {
            DeviceCommand::Start => device.state is Conveyor || device.state is Source,
            DeviceCommand::Stop => device.state is Conveyor || device.state is Source,
            DeviceCommand::SetSpeed(_) => device.state is Conveyor || device.state is Source,
            DeviceCommand::Advance(_) => device.state is Conveyor,
            DeviceCommand::MoveTo(_) => device.state is Axis,
            DeviceCommand::Goto { .. } => device.state is Vehicle,
            DeviceCommand::MoveToStop(_) => device.state is Lift,
        },
{
}

/// The first lift edge on a route.
fn find_crossing(waypoints: &Vec<Vec3>, from: usize, route: &Vec<usize>) -> (r: Option<
    (usize, usize),
>)
    requires
        from < waypoints@.len(),
        forall|k: int| 0 <= k < route@.len() ==> (#[trigger] route@[k]) < waypoints@.len(),
    ensures
        match crossing(waypoints@, from as int, route@) {
            Some(edge) => r == Some((edge.0 as usize, edge.1 as usize)) && 0 <= edge.0 <= usize::MAX
                && 0 <= edge.1 <= usize::MAX,
            None => r is None,
        },
{
    let mut prev: usize = from;
    let mut i: usize = 0;
    assert(route@.skip(0) =~= route@);
    while i < route.len()
        invariant
            i <= route.len(),
            prev < waypoints@.len(),
            forall|k: int| 0 <= k < route@.len() ==> (#[trigger] route@[k]) < waypoints@.len(),
            crossing(waypoints@, from as int, route@) == crossing(
                waypoints@,
                prev as int,
                route@.skip(i as int),
            ),
        decreases route.len() - i,
    {
        assert(route@.skip(i as int)[0] == route@[i as int]);
        assert(route@.skip(i as int).drop_first() =~= route@.skip(i + 1));
        let k: usize = route[i];
        let d: Vec3 = differ(waypoints[k], waypoints[prev]);
        if (d.z > MILLI || d.z < -MILLI) && !longer_than(Vec3 { x: d.x, y: d.y, z: 0 }, MILLI) {
            return Some((prev, k));
        }
        prev = k;
        i = i + 1;
    }
    None
}

impl Vehicle {
    /// Why the vehicle does not set out for a station; else the waypoint and
    /// the route there.
    fn plan_goto(&self, device: &str, station: &str, riding: Option<&String>) -> (r: Result<
        (usize, Vec<usize>),
        String,
    >)
        requires
            guided(self@),
        ensures
            ({
                let why = goto_refusal(
                    device@,
                    self@,
                    station@,
                    match riding {
                        Some(l) => Some(l@),
                        None => None,
                    },
                );
                match r {
                    Err(message) => why == Some(message@),
                    Ok(way) => {
                        &&& why is None
                        &&& station_index(self@.stations, station@) == Some(way.0)
                        &&& way.1@ == route_of(
                            self@.waypoints,
                            self@.ring,
                            setting_out(self@) as int,
                            way.0 as int,
                        )
                        &&& way.0 < self@.waypoints.len()
                        &&& forall|k: int|
                            0 <= k < way.1@.len() ==> (#[trigger] way.1@[k]) < self@.waypoints.len()
                    },
                }
            }),
    {
        if self.legs.len() > 0 {
            return Err(
                cat3(
                    "vehicle `",
                    device,
                    "` is still travelling; wait for device_done before the next goto",
                ),
            );
        }
        match riding {
            Some(lift) => {
                return Err(
                    cat5(
                        "vehicle `",
                        device,
                        "` is riding lift `",
                        lift.as_str(),
                        "`; wait for the lift's device_done before the next goto",
                    ),
                );
            },
            None => {},
        }
        let to: usize = match find_station(&self.stations, station) {
            Some(i) => i,
            None => {
                return Err(cat5("vehicle `", device, "` has no station `", station, "`"));
            },
        };
        proof {
            crate::names::lemma_find(crate::names::names_of(self.stations@), station@, 0);
        }
        let from: usize = match self.at {
            Some(a) => a,
            None => self.target,
        };
        if self.at.is_none() && longer_than(
            differ(self.waypoints[self.target], self.position),
            MILLI,
        ) {
            let mut message: String = cat3(
                "vehicle `",
                device,
                "` is off its path (a lift ride ended between stations?) — no waypoint within 1 mm of (",
            );
            message.append(places_text(self.position.x, 3).as_str());
            message.append(", ");
            message.append(places_text(self.position.y, 3).as_str());
            message.append(", ");
            message.append(places_text(self.position.z, 3).as_str());
            message.append(")");
            return Err(message);
        }
        let route: Vec<usize> = vehicle_route(&self.waypoints, self.ring, from, to);
        // A lift edge is ridden, never driven; an aerial machine flies it.
        let flies: bool = match self.drive {
            Drive::Aerial { .. } => true,
            _ => false,
        };
        let edge: Option<(usize, usize)> = find_crossing(&self.waypoints, from, &route);
        if !flies {
            match edge {
                Some((prev, k)) => {
                    return Err(
                        cat7(
                            "station `",
                            station,
                            "` is across the lift edge (waypoints ",
                            decimal_text(prev as u64).as_str(),
                            "–",
                            decimal_text(k as u64).as_str(),
                            "): goto the near side, ride the lift, then continue",
                        ),
                    );
                },
                None => {},
            }
        }
        Ok((to, route))
    }
}

/// The view of an optional name.
pub open spec fn riding_view(riding: Option<&String>) -> Option<Seq<char>> {
    match riding {
        Some(l) => Some(l@),
        None => None,
    }
}

impl Device {
    /// The route that a goto would take; none for any other command, or
    /// where the goto is refused.
    pub fn goto_route(&self, command: &DeviceCommand, riding: Option<&String>) -> (r: Option<
        Vec<usize>,
    >)
        requires
            sound(self@),
        ensures
            crate::views::opt(r) == goto_route_of(self@, *command, riding_view(riding)),
            r matches Some(route) ==> (self@.state matches StateView::Vehicle(v) && forall|k: int|
                0 <= k < route@.len() ==> (#[trigger] route@[k]) < v.waypoints.len()),
    {
        match (&self.state, command) {
            (DeviceRuntime::Vehicle(v), DeviceCommand::Goto { station }) => {
                match v.plan_goto(self.name.as_str(), station.as_str(), riding) {
                    Ok((_, route)) => Some(route),
                    Err(_) => None,
                }
            },
            _ => None,
        }
    }

    /// Commands the device. A refused command changes nothing. For a goto
    /// that is taken, `courses` holds the directions of its route's runs.
    pub fn command(
        &mut self,
        command: &DeviceCommand,
        riding: Option<&String>,
        courses: &Vec<Pico>,
    ) -> (r: Result<Taken, String>)
        requires
            sound(old(self)@),
            goto_route_of(old(self)@, *command, riding_view(riding)) matches Some(route)
                ==> route.len() == courses@.len(),
        ensures
            final(self)@.name == old(self)@.name,
            final(self)@.lane == old(self)@.lane,
            sound(final(self)@),
            match (r, commanded(old(self)@, *command, riding_view(riding), courses@)) {
                (Err(message), Outcome::Refused(why)) => message@ == why && final(self)@ == old(
                    self,
                )@,
                (Ok(t), Outcome::Taken { state, lane, dispatched, capture }) => {
                    &&& final(self)@.state == state
                    &&& t == (Taken { lane, dispatched, capture })
                },
                _ => false,
            },
    {
        let name: &str = self.name.as_str();
        match (&mut self.state, command) {
            (DeviceRuntime::Conveyor(c), DeviceCommand::Start) => {
                c.running = true;
                Ok(Taken { lane: Some(true), dispatched: false, capture: false })
            },
            (DeviceRuntime::Conveyor(c), DeviceCommand::Stop) => {
                c.running = false;
                Ok(Taken { lane: Some(false), dispatched: false, capture: false })
            },
            (DeviceRuntime::Source(s), DeviceCommand::Start) => {
                s.running = true;
                s.due = 0;
                Ok(Taken { lane: Some(true), dispatched: false, capture: false })
            },
            (DeviceRuntime::Source(s), DeviceCommand::Stop) => {
                s.running = false;
                Ok(Taken { lane: Some(false), dispatched: false, capture: false })
            },
            (DeviceRuntime::Source(s), DeviceCommand::SetSpeed(period)) => {
                s.interval = *period;
                Ok(Taken { lane: None, dispatched: false, capture: false })
            },
            (DeviceRuntime::Conveyor(c), DeviceCommand::SetSpeed(speed)) => {
                if longer_than(c.velocity, 1) {
                    c.velocity = turn_to_speed(c.velocity, *speed);
                }
                Ok(Taken { lane: None, dispatched: false, capture: false })
            },
            (DeviceRuntime::Conveyor(c), DeviceCommand::Advance(distance)) => {
                if c.running {
                    return Err(
                        cat3(
                            "conveyor `",
                            name,
                            "` is free-running; stop it before a fixed advance",
                        ),
                    );
                }
                if c.remaining.is_some() {
                    return Err(
                        cat3(
                            "conveyor `",
                            name,
                            "` is still advancing; wait for device_done before the next advance",
                        ),
                    );
                }
                if *distance > 0 {
                    c.remaining = Some(*distance);
                    Ok(Taken { lane: Some(true), dispatched: false, capture: false })
                } else {
                    Ok(Taken { lane: None, dispatched: false, capture: false })
                }
            },
            (DeviceRuntime::Axis(a), DeviceCommand::MoveTo(goal)) => {
                a.target = *goal;
                let lane: Option<bool> = if are_apart(*goal, a.position) {
                    Some(true)
                } else {
                    None
                };
                Ok(Taken { lane, dispatched: false, capture: false })
            },
            (DeviceRuntime::Vehicle(v), DeviceCommand::Goto { station }) => {
                let (to, route): (usize, Vec<usize>) = match v.plan_goto(
                    name,
                    station.as_str(),
                    riding,
                ) {
                    Ok(way) => way,
                    Err(message) => {
                        return Err(message);
                    },
                };
                v.legs = build_legs(
                    &v.waypoints,
                    &route,
                    courses,
                    v.position,
                    v.heading,
                    v.speed,
                    v.turn_speed,
                    &v.drive,
                );
                v.target = to;
                if v.legs.len() == 0 {
                    v.at = Some(to);
                    Ok(Taken { lane: None, dispatched: false, capture: false })
                } else {
                    v.at = None;
                    Ok(Taken { lane: Some(true), dispatched: true, capture: false })
                }
            },
            (DeviceRuntime::Lift(l), DeviceCommand::MoveToStop(stop)) => {
                // The car moves with its cargo fixed: no retarget in flight.
                if are_apart(l.target, l.position) {
                    return Err(
                        cat3(
                            "lift `",
                            name,
                            "` is still moving; wait for device_done before the next move_to",
                        ),
                    );
                }
                match find_stop(&l.stops, stop.as_str()) {
                    None => Err(cat5("lift `", name, "` has no stop `", stop.as_str(), "`")),
                    Some(goal) => {
                        l.target = goal;
                        let leaves: bool = are_apart(goal, l.position);
                        let lane: Option<bool> = if leaves {
                            Some(true)
                        } else {
                            None
                        };
                        Ok(Taken { lane, dispatched: false, capture: leaves })
                    },
                }
            },
            _ => Err(cat3("invalid command for device `", name, "`")),
        }
    }
}

fn turn_to_speed(velocity: Vec3, speed: Pico) -> (r: Vec3)
    requires
        velocity.square() > 1,
    ensures
        r == cruise(velocity, speed),
{
    let len: u64 = norm(velocity);
    assert(len > 0) by (nonlinear_arith)
        requires
            velocity.square() > 1,
            velocity.square() < (len + 1) * (len + 1),
            len >= 0,
    ;
    Vec3 {
        x: scaled(velocity.x, speed, len as i128),
        y: scaled(velocity.y, speed, len as i128),
        z: scaled(velocity.z, speed, len as i128),
    }
}

} // verus!
