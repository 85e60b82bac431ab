//! One scan period of every device.

use vstd::prelude::*;

use crate::command::sound;
use crate::devices::{
    Axis, AxisView, Conveyor, Device, DeviceRuntime, DeviceView, Lift, LiftView, StateView, Vehicle,
    VehicleView,
};
use crate::fixed::{
    abs, clip, clipped, cover, covered, differ, difference, floor_div, gets_to,
    law_a_rate_takes_a_body_its_way, law_quotients_are_rounded_down, length, longer_than, minus,
    muldiv, norm, roomy, plus, scaled, shift, shifted, sum, summed, Pico, Pose, Vec3, MILLI, UNIT,
};
use crate::names::{index_view, lemma_find, names_of, same};
use crate::scene::{
    body_index, find_body, held, is_held, lemma_posed_names, posed, same_bodies, set_obstacle_pose,
    Attachment, Obstacle,
};
use crate::tracks::{ridden, TrackView, Tracks, VehiclePiece};
use crate::vehicle::{closed_pieces, rate_over, walk_legs, walked, Piece};
use crate::views::{copied_names, views};

verus! {

/// A body that a device moved this tick.
#[derive(Clone, Copy, Debug, PartialEq, Eq, Structural)]
pub struct Moved {
    pub obstacle: usize,
    pub pose: Pose,
    pub velocity: Vec3,
}

/// A body that a sink caught this tick, and the source it returns to.
#[derive(Clone, Copy, Debug, PartialEq, Eq, Structural)]
pub struct Returned {
    pub source: Option<usize>,
    pub obstacle: usize,
}

/// One vehicle's motion over a tick.
#[derive(Debug)]
pub struct VehicleMove {
    pub device: usize,
    /// Where it stood and faced at the start of the tick: whatever was on the
    /// deck then rides.
    pub position: Vec3,
    pub heading: Pico,
    /// It arrived this tick.
    pub parked: bool,
    /// Fellow lift cargo riding the same motion.
    pub extra: Vec<String>,
    pub pieces: Vec<Piece>,
}

/// A vehicle that a lift carried this tick.
#[derive(Debug)]
pub struct Shift {
    pub vehicle: String,
    pub delta: Vec3,
    pub velocity: Vec3,
    pub arriving: bool,
    pub extra: Vec<String>,
}

#[verifier::ext_equal]
pub struct MoveView {
    pub device: usize,
    pub position: Vec3,
    pub heading: Pico,
    pub parked: bool,
    pub extra: Seq<String>,
    pub pieces: Seq<Piece>,
}

#[verifier::ext_equal]
pub struct ShiftView {
    pub vehicle: String,
    pub delta: Vec3,
    pub velocity: Vec3,
    pub arriving: bool,
    pub extra: Seq<String>,
}

impl View for VehicleMove {
    type V = MoveView;

    open spec fn view(&self) -> MoveView {
        MoveView {
            device: self.device,
            position: self.position,
            heading: self.heading,
            parked: self.parked,
            extra: self.extra@,
            pieces: self.pieces@,
        }
    }
}

impl View for Shift {
    type V = ShiftView;

    open spec fn view(&self) -> ShiftView {
        ShiftView {
            vehicle: self.vehicle,
            delta: self.delta,
            velocity: self.velocity,
            arriving: self.arriving,
            extra: self.extra@,
        }
    }
}

/// What the devices did this tick.
#[derive(Debug)]
pub struct Tick {
    pub moved: Vec<Moved>,
    pub returned: Vec<Returned>,
    pub lanes: Vec<(usize, bool)>,
    pub moves: Vec<VehicleMove>,
    pub shifts: Vec<Shift>,
}

#[verifier::ext_equal]
pub struct TickView {
    pub moved: Seq<Moved>,
    pub returned: Seq<Returned>,
    pub lanes: Seq<(usize, bool)>,
    pub moves: Seq<MoveView>,
    pub shifts: Seq<ShiftView>,
}

impl View for Tick {
    type V = TickView;

    open spec fn view(&self) -> TickView {
        TickView {
            moved: self.moved@,
            returned: self.returned@,
            lanes: self.lanes@,
            moves: views(self.moves@),
            shifts: views(self.shifts@),
        }
    }
}

impl TickView {
    pub open spec fn nothing() -> TickView {
        TickView {
            moved: Seq::empty(),
            returned: Seq::empty(),
            lanes: Seq::empty(),
            moves: Seq::empty(),
            shifts: Seq::empty(),
        }
    }

    /// One after the other.
    pub open spec fn and(self, other: TickView) -> TickView {
        TickView {
            moved: self.moved + other.moved,
            returned: self.returned + other.returned,
            lanes: self.lanes + other.lanes,
            moves: self.moves + other.moves,
            shifts: self.shifts + other.shifts,
        }
    }
}

/// What the devices see of the world at the start of a tick.
#[verifier::ext_equal]
pub struct Surroundings {
    pub obstacles: Seq<Obstacle>,
    pub attachments: Seq<Attachment>,
    pub dt: Pico,
    pub t: Pico,
}

/// How far a belt runs in a tick.
pub open spec fn belt_reach(velocity: Vec3, dt: Pico) -> Pico {
    clip(muldiv(length(velocity), dt as int, UNIT as int))
}

/// The velocity of a belt over this tick; none while it stands. A pending
/// advance runs the belt whatever `running` says, and its last tick moves
/// exactly the remainder.
pub open spec fn belt_velocity(c: Conveyor, dt: Pico) -> Option<Vec3> {
    match c.remaining {
        Some(rem) => {
            let reach = belt_reach(c.velocity, dt);
            if reach <= 0 {
                None
            } else if rem >= reach {
                Some(c.velocity)
            } else {
                Some(
                    Vec3 {
                        x: clip(muldiv(c.velocity.x as int, rem as int, reach as int)),
                        y: clip(muldiv(c.velocity.y as int, rem as int, reach as int)),
                        z: clip(muldiv(c.velocity.z as int, rem as int, reach as int)),
                    },
                )
            }
        },
        None => if c.running && length(c.velocity) > 0 {
            Some(c.velocity)
        } else {
            None
        },
    }
}

/// What is left of a fixed advance after this tick.
pub open spec fn belt_left(c: Conveyor, dt: Pico) -> Option<Pico> {
    match c.remaining {
        Some(rem) => {
            let reach = belt_reach(c.velocity, dt);
            if reach <= 0 {
                Some(rem)
            } else if rem > reach {
                Some((rem - reach) as i64)
            } else {
                None
            }
        },
        None => None,
    }
}

/// The bodies in a zone that no robot holds, among the first `n`.
pub open spec fn zone_bodies(
    obstacles: Seq<Obstacle>,
    attachments: Seq<Attachment>,
    inside: Seq<bool>,
    n: nat,
) -> Seq<int>
    decreases n,
{
    if n == 0 {
        Seq::empty()
    } else {
        let k = n - 1;
        let less = zone_bodies(obstacles, attachments, inside, k as nat);
        if inside[k] && !is_held(attachments, obstacles[k].name@) {
            less.push(k)
        } else {
            less
        }
    }
}

/// What a belt does to body `k`.
pub open spec fn conveyed(obstacles: Seq<Obstacle>, k: int, velocity: Vec3, dt: Pico) -> Moved {
    Moved {
        obstacle: body_index(obstacles, obstacles[k].name@)->0 as usize,
        pose: shifted(obstacles[k].pose, covered(velocity, dt as int)),
        velocity,
    }
}

/// The bodies named in `names` that exist and that no robot holds, displaced.
pub open spec fn carried_along(
    names: Seq<String>,
    obstacles: Seq<Obstacle>,
    attachments: Seq<Attachment>,
    delta: Vec3,
    velocity: Vec3,
) -> Seq<Moved>
    decreases names.len(),
{
    if names.len() == 0 {
        Seq::empty()
    } else {
        let less = carried_along(names.drop_last(), obstacles, attachments, delta, velocity);
        match body_index(obstacles, names.last()@) {
            Some(k) => if is_held(attachments, names.last()@) {
                less
            } else {
                less.push(
                    Moved {
                        obstacle: k as usize,
                        pose: shifted(obstacles[k].pose, delta),
                        velocity,
                    },
                )
            },
            None => less,
        }
    }
}

/// Whether something at `position` still has a way to go.
pub open spec fn under_way(position: Pico, target: Pico, speed: Pico) -> bool {
    position != target && speed > 0
}

/// How far it goes in a tick: all the way, or as far as its speed takes it.
pub open spec fn stride(position: Pico, target: Pico, speed: Pico, dt: Pico) -> Pico {
    let reach = clip(muldiv(speed as int, dt as int, UNIT as int));
    let rem = target - position;
    if rem > reach {
        reach
    } else if rem < -reach {
        clip(-reach)
    } else {
        clip(rem)
    }
}

/// A stride along a unit axis.
pub open spec fn along(axis: Vec3, step: Pico) -> Vec3 {
    covered(axis, step as int)
}

/// A lift's ride over one tick, as its cargo vehicles feel it.
pub open spec fn shifts_of(
    vehicles: Seq<String>,
    delta: Vec3,
    velocity: Vec3,
    arriving: bool,
    extra: Seq<String>,
) -> Seq<ShiftView> {
    Seq::new(
        vehicles.len(),
        |i: int| ShiftView { vehicle: vehicles[i], delta, velocity, arriving, extra },
    )
}

/// What device `index` does in a tick.
pub open spec fn tick_of(
    device: DeviceView,
    index: usize,
    inside: Seq<bool>,
    w: Surroundings,
) -> TickView {
    let none = TickView::nothing();
    match device.state {
        StateView::Conveyor(c) => {
            let bodies = zone_bodies(w.obstacles, w.attachments, inside, w.obstacles.len());
            let arrives = c.remaining is Some && belt_left(c, w.dt) is None;
            TickView {
                lanes: if arrives {
                    seq![(device.lane, false)]
                } else {
                    Seq::empty()
                },
                moved: match belt_velocity(c, w.dt) {
                    Some(v) => Seq::new(
                        bodies.len(),
                        |i: int| conveyed(w.obstacles, bodies[i], v, w.dt),
                    ),
                    None => Seq::empty(),
                },
                ..none
            }
        },
        StateView::Axis(a) => if under_way(a.position, a.target, a.speed) {
            let step = stride(a.position, a.target, a.speed, w.dt);
            let delta = along(a.axis, step);
            TickView {
                moved: carried_along(
                    a.objects,
                    w.obstacles,
                    w.attachments,
                    delta,
                    rate_over(delta, w.dt),
                ),
                lanes: if clip(a.position + step) == a.target {
                    seq![(device.lane, false)]
                } else {
                    Seq::empty()
                },
                ..none
            }
        } else {
            none
        },
        StateView::Lift(l) => if under_way(l.position, l.target, l.speed) {
            let step = stride(l.position, l.target, l.speed, w.dt);
            let delta = along(l.axis, step);
            let velocity = rate_over(delta, w.dt);
            let arriving = clip(l.position + step) == l.target;
            TickView {
                moved: carried_along(
                    l.car + l.cargo_objects,
                    w.obstacles,
                    w.attachments,
                    delta,
                    velocity,
                ),
                shifts: shifts_of(l.cargo_vehicles, delta, velocity, arriving, l.cargo_objects),
                lanes: if arriving {
                    seq![(device.lane, false)]
                } else {
                    Seq::empty()
                },
                ..none
            }
        } else {
            none
        },
        StateView::Sink(s) => {
            let bodies = zone_bodies(w.obstacles, w.attachments, inside, w.obstacles.len());
            TickView {
                returned: Seq::new(
                    bodies.len(),
                    |i: int| Returned { source: s.source, obstacle: bodies[i] as usize },
                ),
                ..none
            }
        },
        StateView::Vehicle(v) => if v.legs.len() > 0 {
            let walk = walked(v.legs, v.position, v.heading, w.dt, w.t);
            let pieces = closed_pieces(walk.pieces, walk.left, w.t);
            TickView {
                lanes: if walk.legs.len() == 0 {
                    seq![(device.lane, false)]
                } else {
                    Seq::empty()
                },
                moves: if pieces.len() > 0 {
                    seq![
                        MoveView {
                            device: index,
                            position: v.position,
                            heading: v.heading,
                            parked: walk.legs.len() == 0,
                            extra: Seq::empty(),
                            pieces,
                        },
                    ]
                } else {
                    Seq::empty()
                },
                ..none
            }
        } else {
            none
        },
        StateView::Source(_) => none,
    }
}

/// A device after a tick.
pub open spec fn ticked(state: StateView, dt: Pico, t: Pico) -> StateView {
    match state {
        StateView::Conveyor(c) => StateView::Conveyor(
            Conveyor { remaining: belt_left(c, dt), ..c },
        ),
        StateView::Axis(a) => if under_way(a.position, a.target, a.speed) {
            StateView::Axis(
                AxisView {
                    position: clip(a.position + stride(a.position, a.target, a.speed, dt)),
                    ..a
                },
            )
        } else {
            state
        },
        StateView::Lift(l) => if under_way(l.position, l.target, l.speed) {
            let position = clip(l.position + stride(l.position, l.target, l.speed, dt));
            // On arrival the doors open: the cargo is free again.
            StateView::Lift(
                LiftView {
                    position,
                    cargo_objects: if position == l.target {
                        Seq::empty()
                    } else {
                        l.cargo_objects
                    },
                    cargo_vehicles: if position == l.target {
                        Seq::empty()
                    } else {
                        l.cargo_vehicles
                    },
                    ..l
                },
            )
        } else {
            state
        },
        StateView::Vehicle(v) => if v.legs.len() > 0 {
            let walk = walked(v.legs, v.position, v.heading, dt, t);
            StateView::Vehicle(
                VehicleView {
                    legs: walk.legs,
                    position: walk.position,
                    heading: walk.heading,
                    at: if walk.legs.len() == 0 {
                        Some(v.target)
                    } else {
                        v.at
                    },
                    ..v
                },
            )
        } else {
            state
        },
        _ => state,
    }
}

/// What the first `n` devices do in a tick, in device order.
pub open spec fn ticks_of(
    devices: Seq<DeviceView>,
    inside: Seq<Seq<bool>>,
    w: Surroundings,
    n: nat,
) -> TickView
    decreases n,
{
    if n == 0 {
        TickView::nothing()
    } else {
        ticks_of(devices, inside, w, (n - 1) as nat).and(
            tick_of(devices[n - 1], (n - 1) as usize, inside[n - 1], w),
        )
    }
}

fn zone_list(
    obstacles: &Vec<Obstacle>,
    attachments: &Vec<Attachment>,
    inside: &Vec<bool>,
) -> (r: Vec<usize>)
    requires
        inside@.len() == obstacles@.len(),
    ensures
        ({
            let want = zone_bodies(obstacles@, attachments@, inside@, obstacles@.len());
            &&& r@.len() == want.len()
            &&& forall|i: int|
                0 <= i < want.len() ==> (#[trigger] r@[i]) == want[i] && r@[i] < obstacles@.len()
        }),
{
    let mut out: Vec<usize> = Vec::new();
    let mut k: usize = 0;
    while k < obstacles.len()
        invariant
            k <= obstacles.len(),
            inside@.len() == obstacles@.len(),
            ({
                let want = zone_bodies(obstacles@, attachments@, inside@, k as nat);
                &&& out@.len() == want.len()
                &&& forall|i: int|
                    0 <= i < want.len() ==> (#[trigger] out@[i]) == want[i] && out@[i]
                        < obstacles@.len()
            }),
        decreases obstacles.len() - k,
    {
        if inside[k] && !held(attachments, obstacles[k].name.as_str()) {
            out.push(k);
        }
        k = k + 1;
    }
    out
}

fn carry_along(
    names: &Vec<String>,
    obstacles: &Vec<Obstacle>,
    attachments: &Vec<Attachment>,
    delta: Vec3,
    velocity: Vec3,
    out: &mut Vec<Moved>,
)
    ensures
        final(out)@ == old(out)@ + carried_along(
            names@,
            obstacles@,
            attachments@,
            delta,
            velocity,
        ),
{
    let ghost before = out@;
    let mut i: usize = 0;
    assert(names@.take(0) =~= Seq::<String>::empty());
    assert(out@ =~= before + Seq::<Moved>::empty());
    while i < names.len()
        invariant
            i <= names.len(),
            out@ == before + carried_along(
                names@.take(i as int),
                obstacles@,
                attachments@,
                delta,
                velocity,
            ),
        decreases names.len() - i,
    {
        let ghost less = carried_along(
            names@.take(i as int),
            obstacles@,
            attachments@,
            delta,
            velocity,
        );
        assert(names@.take(i + 1).drop_last() =~= names@.take(i as int));
        assert(names@.take(i + 1).last() == names@[i as int]);
        if !held(attachments, names[i].as_str()) {
            match find_body(obstacles, names[i].as_str()) {
                Some(k) => {
                    let m: Moved = Moved {
                        obstacle: k,
                        pose: shift(obstacles[k].pose, delta),
                        velocity,
                    };
                    out.push(m);
                    assert(out@ =~= before + less.push(m));
                },
                None => {},
            }
        }
        i = i + 1;
    }
    assert(names@.take(i as int) =~= names@);
}

proof fn lemma_carried_concat(
    a: Seq<String>,
    b: Seq<String>,
    obstacles: Seq<Obstacle>,
    attachments: Seq<Attachment>,
    delta: Vec3,
    velocity: Vec3,
)
    ensures
        carried_along(a + b, obstacles, attachments, delta, velocity) == carried_along(
            a,
            obstacles,
            attachments,
            delta,
            velocity,
        ) + carried_along(b, obstacles, attachments, delta, velocity),
    decreases b.len(),
{
    let left = carried_along(a, obstacles, attachments, delta, velocity);
    if b.len() == 0 {
        assert(a + b =~= a);
        assert(left + Seq::<Moved>::empty() =~= left);
    } else {
        lemma_carried_concat(a, b.drop_last(), obstacles, attachments, delta, velocity);
        assert((a + b).drop_last() =~= a + b.drop_last());
        assert((a + b).last() == b.last());
        let less = carried_along(b.drop_last(), obstacles, attachments, delta, velocity);
        let all = carried_along(b, obstacles, attachments, delta, velocity);
        if all.len() > less.len() {
            assert((left + less).push(all.last()) =~= left + less.push(all.last()));
        }
        assert(carried_along(a + b, obstacles, attachments, delta, velocity) =~= left + all);
    }
}

fn stride_of(position: Pico, target: Pico, speed: Pico, dt: Pico) -> (r: Pico)
    ensures
        r == stride(position, target, speed, dt),
{
    let reach: i128 = scaled(speed, dt, UNIT as i128) as i128;
    let rem: i128 = target as i128 - position as i128;
    if rem > reach {
        reach as i64
    } else if rem < -reach {
        clipped(-reach)
    } else {
        clipped(rem)
    }
}

fn rate_of(d: Vec3, t: Pico) -> (r: Vec3)
    requires
        t > 0,
    ensures
        r == rate_over(d, t),
{
    Vec3 {
        x: scaled(d.x, UNIT, t as i128),
        y: scaled(d.y, UNIT, t as i128),
        z: scaled(d.z, UNIT, t as i128),
    }
}

impl Conveyor {
    fn reach(&self, dt: Pico) -> (r: Pico)
        ensures
            r == belt_reach(self.velocity, dt),
    {
        let speed: u64 = norm(self.velocity);
        assert(-0x8000_0000_0000_0000 * 0xffff_ffff_ffff_ffff <= speed * dt
            <= 0x8000_0000_0000_0000 * 0xffff_ffff_ffff_ffff) by (nonlinear_arith)
            requires
                0 <= speed <= 0xffff_ffff_ffff_ffff,
                -0x8000_0000_0000_0000 <= dt <= 0x7fff_ffff_ffff_ffff,
        ;
        clipped(floor_div(speed as i128 * dt as i128, UNIT as i128))
    }

    /// Runs the belt for a tick; the velocity it ran at, and whether a fixed
    /// advance came to its end.
    fn run(&mut self, dt: Pico) -> (r: (Option<Vec3>, bool))
        ensures
            *final(self) == (Conveyor { remaining: belt_left(*old(self), dt), ..*old(self) }),
            r.0 == belt_velocity(*old(self), dt),
            r.1 == (old(self).remaining is Some && belt_left(*old(self), dt) is None),
    {
        match self.remaining {
            Some(rem) => {
                let reach: Pico = self.reach(dt);
                if reach <= 0 {
                    return (None, false);
                }
                let v: Vec3 = self.velocity;
                let tick: Vec3 = if rem >= reach {
                    v
                } else {
                    Vec3 {
                        x: scaled(v.x, rem, reach as i128),
                        y: scaled(v.y, rem, reach as i128),
                        z: scaled(v.z, rem, reach as i128),
                    }
                };
                if rem > reach {
                    self.remaining = Some(rem - reach);
                    (Some(tick), false)
                } else {
                    self.remaining = None;
                    (Some(tick), true)
                }
            },
            None => if self.running && norm(self.velocity) > 0 {
                (Some(self.velocity), false)
            } else {
                (None, false)
            },
        }
    }
}

fn convey(
    obstacles: &Vec<Obstacle>,
    bodies: &Vec<usize>,
    velocity: Vec3,
    dt: Pico,
    out: &mut Vec<Moved>,
)
    requires
        forall|i: int| 0 <= i < bodies@.len() ==> (#[trigger] bodies@[i]) < obstacles@.len(),
    ensures
        final(out)@ == old(out)@ + Seq::new(
            bodies@.len(),
            |i: int| conveyed(obstacles@, bodies@[i] as int, velocity, dt),
        ),
{
    let ghost before = out@;
    let ghost all = Seq::new(
        bodies@.len(),
        |i: int| conveyed(obstacles@, bodies@[i] as int, velocity, dt),
    );
    let mut i: usize = 0;
    assert(out@ =~= before + all.take(0));
    while i < bodies.len()
        invariant
            i <= bodies.len(),
            forall|k: int| 0 <= k < bodies@.len() ==> (#[trigger] bodies@[k]) < obstacles@.len(),
            all == Seq::new(
                bodies@.len(),
                |k: int| conveyed(obstacles@, bodies@[k] as int, velocity, dt),
            ),
            out@ == before + all.take(i as int),
        decreases bodies.len() - i,
    {
        let k: usize = bodies[i];
        proof {
            lemma_find(names_of(obstacles@), obstacles@[k as int].name@, 0);
            assert(names_of(obstacles@)[k as int] == obstacles@[k as int].name@);
        }
        match find_body(obstacles, obstacles[k].name.as_str()) {
            Some(first) => {
                out.push(
                    Moved {
                        obstacle: first,
                        pose: shift(obstacles[k].pose, cover(velocity, dt)),
                        velocity,
                    },
                );
            },
            None => {},
        }
        i = i + 1;
        assert(out@ =~= before + all.take(i as int));
    }
    assert(all.take(i as int) =~= all);
}

impl Device {
    /// One scan period of this device, `index` in the list. `inside` says
    /// which bodies have their origin in the device's zone.
    fn tick(
        &mut self,
        index: usize,
        inside: &Vec<bool>,
        obstacles: &Vec<Obstacle>,
        attachments: &Vec<Attachment>,
        dt: Pico,
        t: Pico,
        out: &mut Tick,
    )
        requires
            dt > 0,
            inside@.len() == obstacles@.len(),
        ensures
            final(self)@ == (DeviceView {
                state: ticked(old(self)@.state, dt, t),
                ..old(self)@
            }),
            final(out)@ == old(out)@.and(
                tick_of(
                    old(self)@,
                    index,
                    inside@,
                    Surroundings { obstacles: obstacles@, attachments: attachments@, dt, t },
                ),
            ),
    {
        let ghost w = Surroundings { obstacles: obstacles@, attachments: attachments@, dt, t };
        let ghost before = out@;
        let ghost did = tick_of(self@, index, inside@, w);
        let lane: usize = self.lane;
        match &mut self.state {
            DeviceRuntime::Conveyor(c) => {
                let (velocity, arrived): (Option<Vec3>, bool) = c.run(dt);
                if arrived {
                    out.lanes.push((lane, false));
                }
                match velocity {
                    Some(v) => {
                        let bodies: Vec<usize> = zone_list(obstacles, attachments, inside);
                        convey(obstacles, &bodies, v, dt, &mut out.moved);
                        assert(did.moved =~= Seq::new(
                            bodies@.len(),
                            |i: int| conveyed(obstacles@, bodies@[i] as int, v, dt),
                        ));
                    },
                    None => {},
                }
            },
            DeviceRuntime::Axis(a) => {
                if a.position != a.target && a.speed > 0 {
                    let step: Pico = stride_of(a.position, a.target, a.speed, dt);
                    a.position = plus(a.position, step);
                    let delta: Vec3 = cover(a.axis, step);
                    let velocity: Vec3 = rate_of(delta, dt);
                    carry_along(&a.objects, obstacles, attachments, delta, velocity, &mut out.moved);
                    // Arrival closes the axis's moving lane on this tick.
                    if a.position == a.target {
                        out.lanes.push((lane, false));
                    }
                }
            },
            DeviceRuntime::Lift(l) => {
                if l.position != l.target && l.speed > 0 {
                    let step: Pico = stride_of(l.position, l.target, l.speed, dt);
                    l.position = plus(l.position, step);
                    let delta: Vec3 = cover(l.axis, step);
                    let velocity: Vec3 = rate_of(delta, dt);
                    carry_along(&l.car, obstacles, attachments, delta, velocity, &mut out.moved);
                    carry_along(
                        &l.cargo_objects,
                        obstacles,
                        attachments,
                        delta,
                        velocity,
                        &mut out.moved,
                    );
                    proof {
                        lemma_carried_concat(
                            l.car@,
                            l.cargo_objects@,
                            obstacles@,
                            attachments@,
                            delta,
                            velocity,
                        );
                    }
                    let arriving: bool = l.position == l.target;
                    push_shifts(
                        &l.cargo_vehicles,
                        delta,
                        velocity,
                        arriving,
                        &l.cargo_objects,
                        &mut out.shifts,
                    );
                    if arriving {
                        out.lanes.push((lane, false));
                        l.cargo_objects = Vec::new();
                        l.cargo_vehicles = Vec::new();
                    }
                }
            },
            DeviceRuntime::Sink(s) => {
                let bodies: Vec<usize> = zone_list(obstacles, attachments, inside);
                let mut i: usize = 0;
                let ghost start = out.returned@;
                assert(start =~= start + did.returned.take(0));
                while i < bodies.len()
                    invariant
                        i <= bodies.len(),
                        did.returned.len() == bodies@.len(),
                        forall|k: int|
                            0 <= k < bodies@.len() ==> #[trigger] did.returned[k] == (Returned {
                                source: s.source,
                                obstacle: bodies@[k],
                            }),
                        out.returned@ == start + did.returned.take(i as int),
                        out.moved == old(out).moved,
                        out.lanes == old(out).lanes,
                        out.moves == old(out).moves,
                        out.shifts == old(out).shifts,
                    decreases bodies.len() - i,
                {
                    out.returned.push(Returned { source: s.source, obstacle: bodies[i] });
                    i = i + 1;
                    assert(out.returned@ =~= start + did.returned.take(i as int));
                }
                assert(did.returned.take(i as int) =~= did.returned);
            },
            DeviceRuntime::Vehicle(v) => {
                if v.legs.len() > 0 {
                    let position: Vec3 = v.position;
                    let heading: Pico = v.heading;
                    let pieces: Vec<Piece> = walk_legs(
                        &mut v.legs,
                        &mut v.position,
                        &mut v.heading,
                        dt,
                        t,
                    );
                    let parked: bool = v.legs.len() == 0;
                    if parked {
                        v.at = Some(v.target);
                        out.lanes.push((lane, false));
                    }
                    if pieces.len() > 0 {
                        let mv: VehicleMove = VehicleMove {
                            device: index,
                            position,
                            heading,
                            parked,
                            extra: Vec::new(),
                            pieces,
                        };
                        let ghost seen = mv@;
                        assert(seen.extra =~= Seq::<String>::empty());
                        assert(seen == did.moves[0]);
                        out.moves.push(mv);
                    }
                }
            },
            DeviceRuntime::Source(_) => {},
        }
        assert(out@.moved =~= before.moved + did.moved);
        assert(out@.returned =~= before.returned + did.returned);
        assert(out@.lanes =~= before.lanes + did.lanes);
        assert(out@.moves =~= before.moves + did.moves);
        assert(out@.shifts =~= before.shifts + did.shifts);
    }
}

fn push_shifts(
    vehicles: &Vec<String>,
    delta: Vec3,
    velocity: Vec3,
    arriving: bool,
    extra: &Vec<String>,
    out: &mut Vec<Shift>,
)
    ensures
        views(final(out)@) == views(old(out)@) + shifts_of(
            vehicles@,
            delta,
            velocity,
            arriving,
            extra@,
        ),
{
    let ghost before = views(out@);
    let ghost all = shifts_of(vehicles@, delta, velocity, arriving, extra@);
    let mut i: usize = 0;
    assert(before =~= before + all.take(0));
    while i < vehicles.len()
        invariant
            i <= vehicles.len(),
            all == shifts_of(vehicles@, delta, velocity, arriving, extra@),
            views(out@) == before + all.take(i as int),
        decreases vehicles.len() - i,
    {
        let s: Shift = Shift {
            vehicle: vehicles[i].clone(),
            delta,
            velocity,
            arriving,
            extra: copied_names(extra),
        };
        let ghost seen = s@;
        assert(seen == all[i as int]);
        let ghost mid = views(out@);
        out.push(s);
        assert(views(out@) =~= mid.push(seen));
        i = i + 1;
        assert(views(out@) =~= before + all.take(i as int));
    }
    assert(all.take(i as int) =~= all);
}

/// The devices after a tick.
pub open spec fn devices_ticked(devices: Seq<DeviceView>, dt: Pico, t: Pico) -> Seq<DeviceView> {
    Seq::new(
        devices.len(),
        |i: int| DeviceView { state: ticked(devices[i].state, dt, t), ..devices[i] },
    )
}

/// One scan period of every device, in list order. `inside[d]` says which
/// bodies have their origin in the zone of device `d`.
pub fn tick_devices(
    devices: &mut Vec<Device>,
    inside: &Vec<Vec<bool>>,
    obstacles: &Vec<Obstacle>,
    attachments: &Vec<Attachment>,
    dt: Pico,
    t: Pico,
) -> (r: Tick)
    requires
        dt > 0,
        inside@.len() == old(devices)@.len(),
        forall|d: int| 0 <= d < inside@.len() ==> (#[trigger] inside@[d])@.len() == obstacles@.len(),
    ensures
        views(final(devices)@) == devices_ticked(views(old(devices)@), dt, t),
        r@ == ticks_of(
            views(old(devices)@),
            views(inside@),
            (Surroundings { obstacles: obstacles@, attachments: attachments@, dt, t }),
            old(devices)@.len(),
        ),
{
    let ghost before = views(devices@);
    let ghost after = devices_ticked(before, dt, t);
    let ghost w = Surroundings { obstacles: obstacles@, attachments: attachments@, dt, t };
    let mut out: Tick = Tick {
        moved: Vec::new(),
        returned: Vec::new(),
        lanes: Vec::new(),
        moves: Vec::new(),
        shifts: Vec::new(),
    };
    assert(out@ =~= TickView::nothing());
    let mut i: usize = 0;
    while i < devices.len()
        invariant
            i <= devices@.len(),
            dt > 0,
            devices@.len() == before.len(),
            inside@.len() == before.len(),
            forall|d: int|
                0 <= d < inside@.len() ==> (#[trigger] inside@[d])@.len() == obstacles@.len(),
            after == devices_ticked(before, dt, t),
            w == (Surroundings { obstacles: obstacles@, attachments: attachments@, dt, t }),
            out@ == ticks_of(before, views(inside@), w, i as nat),
            forall|k: int| 0 <= k < i ==> (#[trigger] devices@[k])@ == after[k],
            forall|k: int| i <= k < before.len() ==> (#[trigger] devices@[k])@ == before[k],
        decreases devices.len() - i,
    {
        assert(devices@[i as int]@ == before[i as int]);
        assert(views(inside@)[i as int] == inside@[i as int]@);
        devices[i].tick(i, &inside[i], obstacles, attachments, dt, t, &mut out);
        i = i + 1;
    }
    assert(views(devices@) =~= after);
    out
}

/// The world's bodies and their tracks.
#[verifier::ext_equal]
pub struct Bodies {
    pub obstacles: Seq<Obstacle>,
    pub tracks: Seq<TrackView>,
}

/// The bodies after the device motions of a tick, first to last.
pub open spec fn with_moved(b: Bodies, moved: Seq<Moved>, dt: Pico, t: Pico) -> Bodies
    decreases moved.len(),
{
    if moved.len() == 0 {
        b
    } else {
        let less = with_moved(b, moved.drop_last(), dt, t);
        let m = moved.last();
        let o = less.obstacles[m.obstacle as int];
        Bodies {
            obstacles: posed(less.obstacles, m.obstacle as int, m.pose),
            tracks: ridden(less.tracks, o.name@, o.pose, clip(t - dt), t, m.velocity),
        }
    }
}

/// Applies the device motions of a tick to the bodies and their tracks.
pub fn apply_moved(
    obstacles: &mut Vec<Obstacle>,
    tracks: &mut Tracks,
    moved: &Vec<Moved>,
    dt: Pico,
    t: Pico,
)
    requires
        forall|i: int|
            0 <= i < moved@.len() ==> (#[trigger] moved@[i]).obstacle < old(obstacles)@.len(),
    ensures
        (Bodies { obstacles: final(obstacles)@, tracks: final(tracks)@ }) == with_moved(
            Bodies { obstacles: old(obstacles)@, tracks: old(tracks)@ },
            moved@,
            dt,
            t,
        ),
        same_bodies(old(obstacles)@, final(obstacles)@),
{
    let ghost b = Bodies { obstacles: obstacles@, tracks: tracks@ };
    let mut i: usize = 0;
    while i < moved.len()
        invariant
            i <= moved.len(),
            forall|k: int|
                0 <= k < moved@.len() ==> (#[trigger] moved@[k]).obstacle < obstacles@.len(),
            same_bodies(b.obstacles, obstacles@),
            (Bodies { obstacles: obstacles@, tracks: tracks@ }) == with_moved(
                b,
                moved@.take(i as int),
                dt,
                t,
            ),
        decreases moved.len() - i,
    {
        let m: Moved = moved[i];
        assert(moved@.take(i + 1).drop_last() =~= moved@.take(i as int));
        let rest: Pose = obstacles[m.obstacle].pose;
        tracks.extend_linear_span(
            obstacles[m.obstacle].name.as_str(),
            rest,
            minus(t, dt),
            t,
            m.velocity,
        );
        proof {
            lemma_posed_names(obstacles@, m.obstacle as int, m.pose);
        }
        set_obstacle_pose(obstacles, m.obstacle, m.pose);
        i = i + 1;
    }
    assert(moved@.take(i as int) =~= moved@);
}

/// The bodies of a zone are exactly those that lie in it and that no robot holds,
/// each once, in the order in which they are listed.
pub proof fn law_a_zone_takes_what_lies_in_it(
    obstacles: Seq<Obstacle>,
    attachments: Seq<Attachment>,
    inside: Seq<bool>,
    n: nat,
    k: int,
)
    requires
        n <= obstacles.len(),
    ensures
        ({
            let bodies = zone_bodies(obstacles, attachments, inside, n);
            &&& bodies.contains(k) <==> 0 <= k < n && inside[k] && forall|a: int|
                0 <= a < attachments.len() ==> (#[trigger] attachments[a]).object@
                    != obstacles[k].name@
            &&& forall|i: int| 0 <= i < bodies.len() ==> 0 <= #[trigger] bodies[i] < n
            &&& forall|i: int, j: int|
                #![trigger bodies[i], bodies[j]]
                0 <= i < j < bodies.len() ==> bodies[i] < bodies[j]
        }),
    decreases n,
{
    if n > 0 {
        let m = (n - 1) as nat;
        law_a_zone_takes_what_lies_in_it(obstacles, attachments, inside, m, k);
        let less = zone_bodies(obstacles, attachments, inside, m);
        let all = zone_bodies(obstacles, attachments, inside, n);
        lemma_held(attachments, obstacles[n - 1].name@);
        if all != less {
            assert(all == less.push(n - 1));
            assert(all[all.len() - 1] == n - 1);
            if less.contains(k) {
                let i = choose|i: int| 0 <= i < less.len() && less[i] == k;
                assert(all[i] == k);
            }
            if all.contains(k) && k != n - 1 {
                let i = choose|i: int| 0 <= i < all.len() && all[i] == k;
                assert(less[i] == k);
            }
            assert forall|i: int, j: int|
                #![trigger all[i], all[j]]
                0 <= i < j < all.len() implies all[i] < all[j] by {
                if j < less.len() {
                    assert(less[i] < less[j]);
                } else {
                    assert(less[i] < n - 1);
                }
            }
        }
        if k == n - 1 && less.contains(k) {
            let i = choose|i: int| 0 <= i < less.len() && less[i] == k;
            assert(less[i] < m);
        }
    }
}

/// A body is held where an attachment names it.
proof fn lemma_held(attachments: Seq<Attachment>, name: Seq<char>)
    ensures
        is_held(attachments, name) <==> exists|a: int|
            0 <= a < attachments.len() && (#[trigger] attachments[a]).object@ == name,
{
    let names = names_of(attachments);
    lemma_find(names, name, 0);
    match crate::names::find(names, name) {
        Some(i) => {
            assert(names[i] == attachments[i].object@);
        },
        None => {
            assert forall|a: int| 0 <= a < attachments.len() implies (
            #[trigger] attachments[a]).object@ != name by {
                assert(names[a] == attachments[a].object@);
            }
        },
    }
}

/// No two bodies have the same name.
pub open spec fn named_apart(obstacles: Seq<Obstacle>) -> bool {
    forall|i: int, j: int|
        #![trigger obstacles[i], obstacles[j]]
        0 <= i < j < obstacles.len() ==> obstacles[i].name@ != obstacles[j].name@
}

proof fn lemma_own_index(obstacles: Seq<Obstacle>, k: int)
    requires
        named_apart(obstacles),
        0 <= k < obstacles.len(),
    ensures
        body_index(obstacles, obstacles[k].name@) == Some(k),
{
    let names = names_of(obstacles);
    let name = obstacles[k].name@;
    lemma_find(names, name, 0);
    assert(names[k] == name);
    match body_index(obstacles, name) {
        Some(i) => {
            assert(names[i] == obstacles[i].name@);
            if i < k {
                assert(obstacles[i].name@ != obstacles[k].name@);
            }
            if k < i {
                assert(obstacles[k].name@ != obstacles[i].name@);
            }
        },
        None => {},
    }
}

/// What a tick moves body `k` by, where it moves it: as far as the velocity takes it
/// in the time.
pub open spec fn carries(tick: TickView, w: Surroundings, k: int, velocity: Vec3) -> bool {
    exists|i: int| #[trigger]
        is_carried(tick, w, k, velocity, i)
}

pub open spec fn is_carried(
    tick: TickView,
    w: Surroundings,
    k: int,
    velocity: Vec3,
    i: int,
) -> bool {
    &&& 0 <= i < tick.moved.len()
    &&& tick.moved[i].obstacle == k
    &&& tick.moved[i].velocity == velocity
    &&& roomy(w.obstacles[k].pose.at, velocity, w.dt as int) ==> gets_to(
        w.obstacles[k].pose.at,
        tick.moved[i].pose.at,
        velocity,
        w.dt as int,
    )
    &&& tick.moved[i].pose == (Pose { at: tick.moved[i].pose.at, ..w.obstacles[k].pose })
}

/// A belt that runs carries every body on it that no robot holds along at its own
/// velocity, and moves no other; one that stands, with no advance under way, moves
/// none. `k` is any body.
pub proof fn law_a_belt_carries_what_lies_on_it(
    device: DeviceView,
    c: Conveyor,
    index: usize,
    inside: Seq<bool>,
    w: Surroundings,
    k: int,
)
    requires
        device.state == StateView::Conveyor(c),
        c.remaining is None,
        named_apart(w.obstacles),
        inside.len() == w.obstacles.len() <= usize::MAX,
        0 <= k < w.obstacles.len(),
    ensures
        ({
            let tick = tick_of(device, index, inside, w);
            let free = forall|a: int|
                0 <= a < w.attachments.len() ==> (#[trigger] w.attachments[a]).object@
                    != w.obstacles[k].name@;
            let v = c.velocity;
            let goes = c.running && v.x * v.x + v.y * v.y + v.z * v.z > 0;
            &&& goes && inside[k] && free ==> carries(tick, w, k, v)
            &&& !(goes && inside[k] && free) ==> forall|i: int|
                0 <= i < tick.moved.len() ==> (#[trigger] tick.moved[i]).obstacle != k
            &&& tick.lanes.len() == 0 && tick.returned.len() == 0 && tick.moves.len() == 0
                && tick.shifts.len() == 0
            &&& ticked(device.state, w.dt, w.t) == device.state
        }),
{
    let bodies = zone_bodies(w.obstacles, w.attachments, inside, w.obstacles.len());
    let tick = tick_of(device, index, inside, w);
    let v = c.velocity;
    law_a_zone_takes_what_lies_in_it(
        w.obstacles,
        w.attachments,
        inside,
        w.obstacles.len(),
        k,
    );
    crate::vehicle::law_no_part_is_longer_than_the_whole(v);
    let n = length(v);
    if n == 0 {
        assert((n + 1) * (n + 1) == 1) by (nonlinear_arith)
            requires
                n == 0,
        ;
    } else {
        assert(n * n > 0) by (nonlinear_arith)
            requires
                n > 0,
        ;
    }
    if bodies.contains(k) && tick.moved.len() > 0 {
        let i = choose|i: int| 0 <= i < bodies.len() && bodies[i] == k;
        lemma_own_index(w.obstacles, k);
        assert(tick.moved[i] == conveyed(w.obstacles, k, v, w.dt));
        if roomy(w.obstacles[k].pose.at, v, w.dt as int) {
            law_a_rate_takes_a_body_its_way(w.obstacles[k].pose, v, w.dt as int);
        }
        assert(is_carried(tick, w, k, v, i));
    }
    assert forall|i: int| 0 <= i < tick.moved.len() && !bodies.contains(k) implies (
    #[trigger] tick.moved[i]).obstacle != k by {
        let j = bodies[i];
        assert(0 <= j < w.obstacles.len());
        lemma_own_index(w.obstacles, j);
        assert(bodies.contains(j));
    }
}

/// What a belt runs in a tick is its speed by the time, rounded down.
pub proof fn law_a_belt_runs_as_far_as_its_speed_takes_it(velocity: Vec3, dt: Pico)
    requires
        dt >= 0,
    ensures
        ({
            let reach = belt_reach(velocity, dt);
            let n = length(velocity);
            &&& reach >= 0
            &&& 1_000_000_000_000 * reach <= n * dt
            &&& reach < i64::MAX ==> n * dt < 1_000_000_000_000 * reach + 1_000_000_000_000
        }),
{
    crate::vehicle::law_no_part_is_longer_than_the_whole(velocity);
    let n = length(velocity);
    law_quotients_are_rounded_down(n, dt as int, UNIT as int);
    assert(n * dt >= 0) by (nonlinear_arith)
        requires
            n >= 0,
            dt >= 0,
    ;
}

/// A tick of a fixed advance runs the belt at its own velocity while more is left
/// than a tick can run, and for the last of it at the part of it that is left: of
/// every axis the part that what is left is of a whole tick's way, rounded down. What
/// is left shrinks by what was run, and the lane goes low as the last of it is run.
pub proof fn law_a_tick_of_an_advance(
    device: DeviceView,
    c: Conveyor,
    rem: Pico,
    index: usize,
    inside: Seq<bool>,
    w: Surroundings,
)
    requires
        device.state == StateView::Conveyor(c),
        c.remaining == Some(rem),
        rem > 0,
        belt_reach(c.velocity, w.dt) > 0,
    ensures
        ({
            let tick = tick_of(device, index, inside, w);
            let reach = belt_reach(c.velocity, w.dt);
            let last = rem <= reach;
            &&& ticked(device.state, w.dt, w.t) == StateView::Conveyor(
                Conveyor {
                    remaining: if last {
                        None
                    } else {
                        Some((rem - reach) as i64)
                    },
                    ..c
                },
            )
            &&& tick.lanes == (if last {
                seq![(device.lane, false)]
            } else {
                Seq::empty()
            })
            &&& forall|i: int|
                0 <= i < tick.moved.len() ==> {
                    let v = (#[trigger] tick.moved[i]).velocity;
                    if rem >= reach {
                        v == c.velocity
                    } else {
                        &&& 0 <= c.velocity.x * rem - reach * v.x < reach
                        &&& 0 <= c.velocity.y * rem - reach * v.y < reach
                        &&& 0 <= c.velocity.z * rem - reach * v.z < reach
                    }
                }
        }),
{
    let reach = belt_reach(c.velocity, w.dt);
    if rem < reach {
        lemma_part(c.velocity.x as int, rem as int, reach as int);
        lemma_part(c.velocity.y as int, rem as int, reach as int);
        lemma_part(c.velocity.z as int, rem as int, reach as int);
    }
}

proof fn lemma_part(x: int, rem: int, reach: int)
    requires
        0 < rem < reach,
        i64::MIN <= x <= i64::MAX,
    ensures
        clip(muldiv(x, rem, reach)) == muldiv(x, rem, reach),
        0 <= x * rem - reach * muldiv(x, rem, reach) < reach,
{
    law_quotients_are_rounded_down(x, rem, reach);
    let q = muldiv(x, rem, reach);
    assert(q <= i64::MAX) by (nonlinear_arith)
        requires
            reach * q <= x * rem,
            x <= i64::MAX,
            0 < rem < reach,
    ;
    assert(q >= i64::MIN) by (nonlinear_arith)
        requires
            x * rem < reach * q + reach,
            x >= i64::MIN,
            0 < rem < reach,
            i64::MIN == -0x8000_0000_0000_0000,
    ;
}

/// What is sent somewhere goes there by no more than its speed takes it in a tick,
/// never past its target, and all of that unless it arrives: then it stands exactly
/// there.
pub open spec fn heads_for(position: Pico, after: Pico, target: Pico, speed: Pico, dt: Pico) -> bool {
    &&& position <= target ==> position <= after <= target
    &&& position >= target ==> target <= after <= position
    &&& 1_000_000_000_000 * abs(after - position) <= speed * dt
    &&& after != target ==> speed * dt < 1_000_000_000_000 * abs(after - position)
        + 1_000_000_000_000
}

proof fn lemma_heads_for(position: Pico, target: Pico, speed: Pico, dt: Pico)
    requires
        speed > 0,
        dt > 0,
        speed * dt < 0x7fff_ffff_ffff_ffff * 1_000_000_000_000,
    ensures
        heads_for(
            position,
            clip(position + stride(position, target, speed, dt)),
            target,
            speed,
            dt,
        ),
        position + stride(position, target, speed, dt) == clip(
            position + stride(position, target, speed, dt),
        ) || abs(target - position) > i64::MAX,
{
    law_quotients_are_rounded_down(speed as int, dt as int, UNIT as int);
    assert(speed * dt > 0) by (nonlinear_arith)
        requires
            speed > 0,
            dt > 0,
    ;
}

/// An axis goes for its target at its speed; its lane goes low as it arrives, and at
/// no other time. An axis that is there, or has no speed, stays.
pub proof fn law_an_axis_goes_for_its_target(
    device: DeviceView,
    a: AxisView,
    index: usize,
    inside: Seq<bool>,
    w: Surroundings,
)
    requires
        device.state == StateView::Axis(a),
        w.dt > 0,
        a.speed * w.dt < 0x7fff_ffff_ffff_ffff * 1_000_000_000_000,
    ensures
        ({
            let tick = tick_of(device, index, inside, w);
            &&& ticked(device.state, w.dt, w.t) matches StateView::Axis(after)
            &&& after == (AxisView { position: after.position, ..a })
            &&& a.speed > 0 ==> heads_for(a.position, after.position, a.target, a.speed, w.dt)
            &&& a.speed <= 0 ==> after.position == a.position
            &&& tick.lanes == (if a.speed > 0 && a.position != a.target && after.position
                == a.target {
                seq![(device.lane, false)]
            } else {
                Seq::empty()
            })
            &&& a.position == a.target ==> tick.moved.len() == 0
        }),
{
    if a.speed > 0 {
        lemma_heads_for(a.position, a.target, a.speed, w.dt);
        if a.position == a.target {
            assert(a.speed * w.dt >= 0) by (nonlinear_arith)
                requires
                    a.speed > 0,
                    w.dt > 0,
            ;
        }
    }
}

/// A lift goes for the stop it was sent to at its speed, as an axis does; as it
/// arrives its lane goes low and it lets go of its cargo, which it keeps until then.
pub proof fn law_a_lift_goes_for_its_stop(
    device: DeviceView,
    l: LiftView,
    index: usize,
    inside: Seq<bool>,
    w: Surroundings,
)
    requires
        device.state == StateView::Lift(l),
        w.dt > 0,
        l.speed > 0,
        l.position != l.target,
        l.speed * w.dt < 0x7fff_ffff_ffff_ffff * 1_000_000_000_000,
    ensures
        ({
            let tick = tick_of(device, index, inside, w);
            &&& ticked(device.state, w.dt, w.t) matches StateView::Lift(after)
            &&& heads_for(l.position, after.position, l.target, l.speed, w.dt)
            &&& after.target == l.target && after.car == l.car && after.stops == l.stops
                && after.speed == l.speed && after.zone == l.zone && after.size == l.size
                && after.axis == l.axis
            &&& if after.position == l.target {
                &&& after.cargo_objects.len() == 0
                &&& after.cargo_vehicles.len() == 0
                &&& tick.lanes == seq![(device.lane, false)]
            } else {
                &&& after.cargo_objects == l.cargo_objects
                &&& after.cargo_vehicles == l.cargo_vehicles
                &&& tick.lanes.len() == 0
            }
            &&& tick.shifts.len() == l.cargo_vehicles.len()
            &&& forall|i: int|
                0 <= i < tick.shifts.len() ==> (#[trigger] tick.shifts[i]).vehicle
                    == l.cargo_vehicles[i] && tick.shifts[i].arriving == (after.position
                    == l.target)
        }),
{
    lemma_heads_for(l.position, l.target, l.speed, w.dt);
}

/// What an axis or a lift takes along goes by the way that it went, along its axis:
/// every one of the bodies named that is there and that no robot holds, and no other.
/// `k` is any body.
pub proof fn law_what_is_taken_along_goes_the_same_way(
    names: Seq<String>,
    obstacles: Seq<Obstacle>,
    attachments: Seq<Attachment>,
    delta: Vec3,
    velocity: Vec3,
    k: int,
)
    requires
        named_apart(obstacles),
        obstacles.len() <= usize::MAX,
        0 <= k < obstacles.len(),
    ensures
        ({
            let moved = carried_along(names, obstacles, attachments, delta, velocity);
            let free = forall|a: int|
                0 <= a < attachments.len() ==> (#[trigger] attachments[a]).object@
                    != obstacles[k].name@;
            let named = exists|j: int|
                0 <= j < names.len() && (#[trigger] names[j])@ == obstacles[k].name@;
            &&& (exists|i: int|
                0 <= i < moved.len() && (#[trigger] moved[i]).obstacle == k) <==> free && named
            &&& forall|i: int|
                0 <= i < moved.len() && (#[trigger] moved[i]).obstacle == k ==> moved[i].velocity
                    == velocity && moved[i].pose == shifted(obstacles[k].pose, delta)
        }),
    decreases names.len(),
{
    if names.len() > 0 {
        let fewer = names.drop_last();
        law_what_is_taken_along_goes_the_same_way(
            fewer,
            obstacles,
            attachments,
            delta,
            velocity,
            k,
        );
        let less = carried_along(fewer, obstacles, attachments, delta, velocity);
        let moved = carried_along(names, obstacles, attachments, delta, velocity);
        let last = names.last()@;
        let n = names.len() - 1;
        lemma_own_index(obstacles, k);
        lemma_held(attachments, last);
        lemma_find(names_of(obstacles), last, 0);
        match body_index(obstacles, last) {
            Some(b) => {
                assert(names_of(obstacles)[b] == obstacles[b].name@);
            },
            None => {
                assert(names_of(obstacles)[k] == obstacles[k].name@);
            },
        }
        let is_named = exists|j: int|
            0 <= j < names.len() && (#[trigger] names[j])@ == obstacles[k].name@;
        let was_named = exists|j: int|
            0 <= j < fewer.len() && (#[trigger] fewer[j])@ == obstacles[k].name@;
        if is_named && last != obstacles[k].name@ {
            let j = choose|j: int|
                0 <= j < names.len() && (#[trigger] names[j])@ == obstacles[k].name@;
            assert(fewer[j] == names[j]);
            assert(was_named);
        }
        if was_named {
            let j = choose|j: int|
                0 <= j < fewer.len() && (#[trigger] fewer[j])@ == obstacles[k].name@;
            assert(names[j] == fewer[j]);
        }
        if last == obstacles[k].name@ {
            assert(names[n]@ == last);
        }
        assert forall|i: int| 0 <= i < less.len() implies less[i] == moved[i] by {}
        if exists|i: int| 0 <= i < less.len() && (#[trigger] less[i]).obstacle == k {
            let i = choose|i: int| 0 <= i < less.len() && (#[trigger] less[i]).obstacle == k;
            assert(moved[i].obstacle == k);
        }
        if exists|i: int| 0 <= i < moved.len() && (#[trigger] moved[i]).obstacle == k {
            let i = choose|i: int| 0 <= i < moved.len() && (#[trigger] moved[i]).obstacle == k;
            if i < less.len() {
                assert(less[i].obstacle == k);
            }
        }
        if moved.len() > less.len() && last == obstacles[k].name@ {
            assert(moved[less.len() as int].obstacle == k);
        }
    }
}

/// A sink catches every body in its zone that no robot holds, and no other, for the
/// source that it returns to; it moves none and writes no lane.
pub proof fn law_a_sink_catches_what_reaches_it(
    device: DeviceView,
    s: crate::devices::Sink,
    index: usize,
    inside: Seq<bool>,
    w: Surroundings,
    k: int,
)
    requires
        device.state == StateView::Sink(s),
        inside.len() == w.obstacles.len() <= usize::MAX,
        0 <= k < w.obstacles.len(),
    ensures
        ({
            let tick = tick_of(device, index, inside, w);
            &&& (exists|i: int|
                0 <= i < tick.returned.len() && (#[trigger] tick.returned[i]).obstacle == k) <==> (
            inside[k] && forall|a: int|
                0 <= a < w.attachments.len() ==> (#[trigger] w.attachments[a]).object@
                    != w.obstacles[k].name@)
            &&& forall|i: int|
                0 <= i < tick.returned.len() ==> (#[trigger] tick.returned[i]).source == s.source
            &&& tick.moved.len() == 0 && tick.lanes.len() == 0 && tick.moves.len() == 0
                && tick.shifts.len() == 0
            &&& ticked(device.state, w.dt, w.t) == device.state
        }),
{
    let bodies = zone_bodies(w.obstacles, w.attachments, inside, w.obstacles.len());
    let tick = tick_of(device, index, inside, w);
    law_a_zone_takes_what_lies_in_it(
        w.obstacles,
        w.attachments,
        inside,
        w.obstacles.len(),
        k,
    );
    assert forall|i: int| 0 <= i < tick.returned.len() implies (
    #[trigger] tick.returned[i]).obstacle == bodies[i] by {
        assert(0 <= bodies[i] < w.obstacles.len());
    }
    if bodies.contains(k) {
        let i = choose|i: int| 0 <= i < bodies.len() && bodies[i] == k;
        assert(tick.returned[i].obstacle == k);
    }
    if exists|i: int| 0 <= i < tick.returned.len() && (#[trigger] tick.returned[i]).obstacle == k {
        let i = choose|i: int|
            0 <= i < tick.returned.len() && (#[trigger] tick.returned[i]).obstacle == k;
        assert(bodies[i] == k);
    }
}

/// A vehicle with nothing to drive stays; one that has made its last leg is at the
/// waypoint that it was sent to, and its lane goes low then, and at no other time.
pub proof fn law_a_vehicle_parks_where_it_was_sent(
    device: DeviceView,
    v: VehicleView,
    index: usize,
    inside: Seq<bool>,
    w: Surroundings,
)
    requires
        device.state == StateView::Vehicle(v),
    ensures
        ({
            let tick = tick_of(device, index, inside, w);
            &&& ticked(device.state, w.dt, w.t) matches StateView::Vehicle(after)
            &&& after == (VehicleView {
                legs: after.legs,
                position: after.position,
                heading: after.heading,
                at: after.at,
                ..v
            })
            &&& v.legs.len() == 0 ==> after == v && tick.moves.len() == 0 && tick.lanes.len() == 0
            &&& v.legs.len() > 0 && after.legs.len() == 0 ==> after.at == Some(v.target)
                && tick.lanes == seq![(device.lane, false)]
            &&& after.legs.len() > 0 ==> after.at == v.at && tick.lanes.len() == 0
            &&& tick.moved.len() == 0 && tick.returned.len() == 0 && tick.shifts.len() == 0
            &&& forall|i: int|
                0 <= i < tick.moves.len() ==> (#[trigger] tick.moves[i]).device == index
                    && tick.moves[i].position == v.position && tick.moves[i].heading == v.heading
                    && tick.moves[i].parked == (after.legs.len() == 0)
        }),
{
}

/// A vehicle that rides a lift goes by the lift's way; as the ride ends it is at the
/// first waypoint within a millimetre of where it has got to, and at none where there
/// is none.
pub proof fn law_a_lifted_vehicle_lands_on_a_waypoint(
    v: VehicleView,
    delta: Vec3,
    arriving: bool,
    i: int,
)
    ensures
        ({
            let after = lifted(v, delta, arriving);
            &&& after == (VehicleView {
                position: after.position,
                at: after.at,
                target: after.target,
                ..v
            })
            &&& after.position == sum(v.position, delta)
            &&& !arriving ==> after.at == v.at && after.target == v.target
            &&& arriving && first_near(v.waypoints, after.position, i) ==> after.at == Some(
                i as usize,
            ) && after.target == i
            &&& arriving && (forall|j: int|
                0 <= j < v.waypoints.len() ==> !#[trigger] is_near(
                    v.waypoints,
                    after.position,
                    j,
                )) ==> after.at is None && after.target == v.target
        }),
{
    lemma_waypoint_near(v.waypoints, sum(v.position, delta), 0, i);
}

/// Whether waypoint `j` lies within a millimetre of a place.
pub open spec fn is_near(waypoints: Seq<Vec3>, position: Vec3, j: int) -> bool {
    let d = difference(waypoints[j], position);
    d.x * d.x + d.y * d.y + d.z * d.z <= 1_000_000_000 * 1_000_000_000
}

/// Waypoint `i` is the first within a millimetre of a place.
pub open spec fn first_near(waypoints: Seq<Vec3>, position: Vec3, i: int) -> bool {
    0 <= i < waypoints.len() <= usize::MAX && is_near(waypoints, position, i) && forall|j: int|
        0 <= j < i ==> !#[trigger] is_near(waypoints, position, j)
}

proof fn lemma_waypoint_near(waypoints: Seq<Vec3>, position: Vec3, from: int, i: int)
    requires
        0 <= from,
    ensures
        first_near(waypoints, position, i) && from <= i ==> waypoint_near(
            waypoints,
            position,
            from,
        ) == Some(i as usize),
        (forall|j: int| from <= j < waypoints.len() ==> !#[trigger] is_near(waypoints, position, j))
            ==> waypoint_near(waypoints, position, from) is None,
    decreases waypoints.len() - from,
{
    if from < waypoints.len() {
        let near = is_near(waypoints, position, from);
        lemma_waypoint_near(waypoints, position, from + 1, i);
    }
}

/// The motions of a tick are made as they are listed: a body that is moved once ends
/// where it was moved to, and one that is not moved stays.
pub proof fn law_moved_bodies_end_where_they_were_moved(
    b: Bodies,
    moved: Seq<Moved>,
    dt: Pico,
    t: Pico,
    k: int,
)
    requires
        0 <= k < b.obstacles.len(),
        forall|i: int| 0 <= i < moved.len() ==> (#[trigger] moved[i]).obstacle < b.obstacles.len(),
    ensures
        ({
            let after = with_moved(b, moved, dt, t).obstacles;
            &&& after.len() == b.obstacles.len()
            &&& (forall|i: int| 0 <= i < moved.len() ==> (#[trigger] moved[i]).obstacle != k)
                ==> after[k] == b.obstacles[k]
            &&& forall|i: int|
                0 <= i < moved.len() && (#[trigger] moved[i]).obstacle == k && (forall|j: int|
                    i < j < moved.len() ==> (#[trigger] moved[j]).obstacle != k) ==> after[k] == (
                Obstacle { pose: moved[i].pose, ..b.obstacles[k] })
            &&& after[k] == (Obstacle { pose: after[k].pose, ..b.obstacles[k] })
        }),
    decreases moved.len(),
{
    if moved.len() > 0 {
        let fewer = moved.drop_last();
        assert forall|i: int| 0 <= i < fewer.len() implies (#[trigger] fewer[i]).obstacle
            < b.obstacles.len() by {
            assert(fewer[i] == moved[i]);
        }
        law_moved_bodies_end_where_they_were_moved(b, fewer, dt, t, k);
        let less = with_moved(b, fewer, dt, t).obstacles;
        let after = with_moved(b, moved, dt, t).obstacles;
        let n = moved.len() - 1;
        assert(moved[n].obstacle < b.obstacles.len());
        assert forall|i: int|
            0 <= i < moved.len() && (#[trigger] moved[i]).obstacle == k && (forall|j: int|
                i < j < moved.len() ==> (#[trigger] moved[j]).obstacle != k) implies after[k] == (
        Obstacle { pose: moved[i].pose, ..b.obstacles[k] }) by {
            if i < n {
                assert(moved[n].obstacle != k);
                assert(fewer[i] == moved[i]);
                assert forall|j: int| i < j < fewer.len() implies (#[trigger] fewer[j]).obstacle
                    != k by {
                    assert(fewer[j] == moved[j]);
                }
            }
        }
        if forall|i: int| 0 <= i < moved.len() ==> (#[trigger] moved[i]).obstacle != k {
            assert(moved[n].obstacle != k);
            assert forall|i: int| 0 <= i < fewer.len() implies (#[trigger] fewer[i]).obstacle
                != k by {
                assert(fewer[i] == moved[i]);
            }
        }
    }
}

/// The first vehicle named `name`.
pub open spec fn vehicle_index(devices: Seq<DeviceView>, name: Seq<char>, from: int) -> Option<int>
    decreases devices.len() - from,
{
    if from < 0 || from >= devices.len() {
        None
    } else if devices[from].name@ == name && devices[from].state is Vehicle {
        Some(from)
    } else {
        vehicle_index(devices, name, from + 1)
    }
}

/// The first waypoint, from `from` on, within a millimetre of `position`.
pub open spec fn waypoint_near(waypoints: Seq<Vec3>, position: Vec3, from: int) -> Option<usize>
    decreases waypoints.len() - from,
{
    if from < 0 || from >= waypoints.len() {
        None
    } else if difference(waypoints[from], position).square() <= MILLI * MILLI {
        Some(from as usize)
    } else {
        waypoint_near(waypoints, position, from + 1)
    }
}

/// A vehicle that a lift carried by `delta`. Where the ride ends it is
/// anchored again to the waypoint it reached, if there is one.
pub open spec fn lifted(v: VehicleView, delta: Vec3, arriving: bool) -> VehicleView {
    let position = sum(v.position, delta);
    let near = waypoint_near(v.waypoints, position, 0);
    VehicleView {
        position,
        at: if arriving {
            near
        } else {
            v.at
        },
        target: if arriving && near is Some {
            near->0
        } else {
            v.target
        },
        ..v
    }
}

/// The devices and the vehicle moves after the lifts' rides, first to last.
pub open spec fn with_shifts(
    devices: Seq<DeviceView>,
    moves: Seq<MoveView>,
    shifts: Seq<ShiftView>,
    dt: Pico,
    t: Pico,
) -> (Seq<DeviceView>, Seq<MoveView>)
    decreases shifts.len(),
{
    if shifts.len() == 0 {
        (devices, moves)
    } else {
        let less = with_shifts(devices, moves, shifts.drop_last(), dt, t);
        let s = shifts.last();
        match vehicle_index(less.0, s.vehicle@, 0) {
            None => less,
            Some(i) => {
                let v = less.0[i].state->Vehicle_0;
                (
                    less.0.update(
                        i,
                        DeviceView {
                            state: StateView::Vehicle(lifted(v, s.delta, s.arriving)),
                            ..less.0[i]
                        },
                    ),
                    less.1.push(
                        MoveView {
                            device: i as usize,
                            position: v.position,
                            heading: v.heading,
                            parked: s.arriving,
                            extra: s.extra,
                            pieces: seq![
                                Piece {
                                    t0: clip(t - dt),
                                    t1: t,
                                    motion: VehiclePiece::Lin { velocity: s.velocity },
                                },
                            ],
                        },
                    ),
                )
            },
        }
    }
}

fn find_vehicle(devices: &Vec<Device>, name: &str) -> (r: Option<usize>)
    ensures
        index_view(r) == vehicle_index(views(devices@), name@, 0),
        r matches Some(i) ==> i < devices@.len() && devices@[i as int]@.state is Vehicle,
{
    let mut i: usize = 0;
    while i < devices.len()
        invariant
            i <= devices.len(),
            vehicle_index(views(devices@), name@, 0) == vehicle_index(
                views(devices@),
                name@,
                i as int,
            ),
        decreases devices.len() - i,
    {
        assert(views(devices@)[i as int] == devices@[i as int]@);
        let is: bool = match &devices[i].state {
            DeviceRuntime::Vehicle(_) => true,
            _ => false,
        };
        if is && same(devices[i].name.as_str(), name) {
            return Some(i);
        }
        i = i + 1;
    }
    None
}

fn find_waypoint(waypoints: &Vec<Vec3>, position: Vec3) -> (r: Option<usize>)
    ensures
        r == waypoint_near(waypoints@, position, 0),
        r matches Some(i) ==> i < waypoints@.len(),
{
    let mut i: usize = 0;
    while i < waypoints.len()
        invariant
            i <= waypoints.len(),
            waypoint_near(waypoints@, position, 0) == waypoint_near(
                waypoints@,
                position,
                i as int,
            ),
        decreases waypoints.len() - i,
    {
        if !longer_than(differ(waypoints[i], position), MILLI) {
            return Some(i);
        }
        i = i + 1;
    }
    None
}

/// Every device's parts fit together.
pub open spec fn all_sound(devices: Seq<DeviceView>) -> bool {
    forall|i: int| 0 <= i < devices.len() ==> sound(#[trigger] devices[i])
}

/// A lift's cargo vehicles ride its motion through the same pieces a drive
/// uses.
pub fn apply_shifts(
    devices: &mut Vec<Device>,
    moves: &mut Vec<VehicleMove>,
    shifts: &Vec<Shift>,
    dt: Pico,
    t: Pico,
)
    requires
        all_sound(views(old(devices)@)),
    ensures
        (views(final(devices)@), views(final(moves)@)) == with_shifts(
            views(old(devices)@),
            views(old(moves)@),
            views(shifts@),
            dt,
            t,
        ),
        all_sound(views(final(devices)@)),
        final(devices)@.len() == old(devices)@.len(),
{
    let ghost devices0 = views(devices@);
    let ghost moves0 = views(moves@);
    let ghost all = views(shifts@);
    let mut i: usize = 0;
    while i < shifts.len()
        invariant
            i <= shifts.len(),
            all == views(shifts@),
            devices@.len() == devices0.len(),
            all_sound(views(devices@)),
            (views(devices@), views(moves@)) == with_shifts(
                devices0,
                moves0,
                all.take(i as int),
                dt,
                t,
            ),
        decreases shifts.len() - i,
    {
        let s: &Shift = &shifts[i];
        assert(all.take(i + 1).drop_last() =~= all.take(i as int));
        assert(all.take(i + 1).last() == s@);
        let ghost before = views(devices@);
        let ghost made = views(moves@);
        match find_vehicle(devices, s.vehicle.as_str()) {
            Some(k) => {
                assert(devices@[k as int]@ == before[k as int]);
                assert(sound(before[k as int]));
                match &mut devices[k].state {
                    DeviceRuntime::Vehicle(v) => {
                        let mut pieces: Vec<Piece> = Vec::new();
                        pieces.push(
                            Piece {
                                t0: minus(t, dt),
                                t1: t,
                                motion: VehiclePiece::Lin { velocity: s.velocity },
                            },
                        );
                        let mv: VehicleMove = VehicleMove {
                            device: k,
                            position: v.position,
                            heading: v.heading,
                            parked: s.arriving,
                            extra: copied_names(&s.extra),
                            pieces,
                        };
                        assert(mv@.pieces =~= seq![mv.pieces@[0]]);
                        let ghost seen = mv@;
                        moves.push(mv);
                        assert(views(moves@) =~= made.push(seen));
                        v.position = summed(v.position, s.delta);
                        if s.arriving {
                            v.at = find_waypoint(&v.waypoints, v.position);
                            match v.at {
                                Some(w) => {
                                    v.target = w;
                                },
                                None => {},
                            }
                        }
                    },
                    _ => {},
                }
                assert(views(devices@) =~= with_shifts(
                    devices0,
                    moves0,
                    all.take(i + 1),
                    dt,
                    t,
                ).0);
                assert forall|j: int| 0 <= j < views(devices@).len() implies sound(
                    #[trigger] views(devices@)[j],
                ) by {
                    if j != k {
                        assert(views(devices@)[j] == before[j]);
                    }
                }
            },
            None => {},
        }
        i = i + 1;
    }
    assert(all.take(i as int) =~= all);
}

/// Devices stay sound through a tick.
pub proof fn lemma_ticked_sound(devices: Seq<DeviceView>, dt: Pico, t: Pico)
    requires
        all_sound(devices),
    ensures
        all_sound(devices_ticked(devices, dt, t)),
{
    assert forall|i: int| 0 <= i < devices.len() implies sound(
        #[trigger] devices_ticked(devices, dt, t)[i],
    ) by {
        assert(sound(devices[i]));
    }
}

/// Every body that a tick moves exists.
pub proof fn lemma_moved_exist(
    devices: Seq<DeviceView>,
    inside: Seq<Seq<bool>>,
    w: Surroundings,
    n: nat,
)
    requires
        n <= devices.len(),
        w.obstacles.len() <= usize::MAX,
    ensures
        forall|i: int|
            0 <= i < ticks_of(devices, inside, w, n).moved.len() ==> (#[trigger] ticks_of(
                devices,
                inside,
                w,
                n,
            ).moved[i]).obstacle < w.obstacles.len(),
        forall|i: int|
            0 <= i < ticks_of(devices, inside, w, n).returned.len() ==> (#[trigger] ticks_of(
                devices,
                inside,
                w,
                n,
            ).returned[i]).obstacle < w.obstacles.len(),
    decreases n,
{
    if n > 0 {
        let k = (n - 1) as nat;
        lemma_moved_exist(devices, inside, w, k);
        let d = devices[n - 1];
        let did = tick_of(d, k as usize, inside[n - 1], w);
        lemma_zone_bodies(w.obstacles, w.attachments, inside[n - 1], w.obstacles.len());
        match d.state {
            StateView::Axis(a) => {
                let delta = along(a.axis, stride(a.position, a.target, a.speed, w.dt));
                lemma_carried_exist(
                    a.objects,
                    w.obstacles,
                    w.attachments,
                    delta,
                    rate_over(delta, w.dt),
                );
            },
            StateView::Lift(l) => {
                let delta = along(l.axis, stride(l.position, l.target, l.speed, w.dt));
                lemma_carried_exist(
                    l.car + l.cargo_objects,
                    w.obstacles,
                    w.attachments,
                    delta,
                    rate_over(delta, w.dt),
                );
            },
            StateView::Conveyor(c) => {
                let bodies = zone_bodies(
                    w.obstacles,
                    w.attachments,
                    inside[n - 1],
                    w.obstacles.len(),
                );
                assert forall|i: int| 0 <= i < did.moved.len() implies (
                #[trigger] did.moved[i]).obstacle < w.obstacles.len() by {
                    let name = w.obstacles[bodies[i]].name@;
                    lemma_find(names_of(w.obstacles), name, 0);
                    assert(names_of(w.obstacles)[bodies[i]] == name);
                }
            },
            _ => {},
        }
        let before = ticks_of(devices, inside, w, k);
        let after = ticks_of(devices, inside, w, n);
        assert forall|i: int| 0 <= i < after.moved.len() implies (
        #[trigger] after.moved[i]).obstacle < w.obstacles.len() by {
            if i < before.moved.len() {
                assert(after.moved[i] == before.moved[i]);
            } else {
                assert(after.moved[i] == did.moved[i - before.moved.len()]);
            }
        }
        assert forall|i: int| 0 <= i < after.returned.len() implies (
        #[trigger] after.returned[i]).obstacle < w.obstacles.len() by {
            if i < before.returned.len() {
                assert(after.returned[i] == before.returned[i]);
            } else {
                assert(after.returned[i] == did.returned[i - before.returned.len()]);
            }
        }
    }
}

proof fn lemma_zone_bodies(
    obstacles: Seq<Obstacle>,
    attachments: Seq<Attachment>,
    inside: Seq<bool>,
    n: nat,
)
    ensures
        forall|i: int|
            0 <= i < zone_bodies(obstacles, attachments, inside, n).len() ==> 0 <= (
            #[trigger] zone_bodies(obstacles, attachments, inside, n)[i]) < n,
    decreases n,
{
    if n > 0 {
        let less = zone_bodies(obstacles, attachments, inside, (n - 1) as nat);
        let all = zone_bodies(obstacles, attachments, inside, n);
        lemma_zone_bodies(obstacles, attachments, inside, (n - 1) as nat);
        assert forall|i: int| 0 <= i < all.len() implies 0 <= (#[trigger] all[i]) < n by {
            if i < less.len() {
                assert(all[i] == less[i]);
            }
        }
    }
}

proof fn lemma_carried_exist(
    names: Seq<String>,
    obstacles: Seq<Obstacle>,
    attachments: Seq<Attachment>,
    delta: Vec3,
    velocity: Vec3,
)
    requires
        obstacles.len() <= usize::MAX,
    ensures
        forall|i: int|
            0 <= i < carried_along(names, obstacles, attachments, delta, velocity).len() ==> (
            #[trigger] carried_along(names, obstacles, attachments, delta, velocity)[i]).obstacle
                < obstacles.len(),
    decreases names.len(),
{
    if names.len() > 0 {
        let less = carried_along(names.drop_last(), obstacles, attachments, delta, velocity);
        let all = carried_along(names, obstacles, attachments, delta, velocity);
        lemma_carried_exist(names.drop_last(), obstacles, attachments, delta, velocity);
        lemma_find(names_of(obstacles), names.last()@, 0);
        assert forall|i: int| 0 <= i < all.len() implies (#[trigger] all[i]).obstacle
            < obstacles.len() by {
            if i < less.len() {
                assert(all[i] == less[i]);
            }
        }
    }
}

/// Whether the devices of two lists are the same ones: named alike, on the
/// same lanes, of the same kind.
pub open spec fn same_devices(a: Seq<DeviceView>, b: Seq<DeviceView>) -> bool {
    a.len() == b.len() && forall|i: int|
        0 <= i < a.len() ==> (#[trigger] b[i]).name == a[i].name && b[i].lane == a[i].lane && (
        b[i].state is Vehicle <==> a[i].state is Vehicle)
}

/// Whether every move is one of a vehicle.
pub open spec fn of_vehicles(moves: Seq<MoveView>, devices: Seq<DeviceView>) -> bool {
    forall|i: int|
        0 <= i < moves.len() ==> (#[trigger] moves[i]).device < devices.len()
            && devices[moves[i].device as int].state is Vehicle
}

/// What a tick writes are lanes of devices, and what it moves are vehicles.
pub proof fn lemma_tick_refers(
    devices: Seq<DeviceView>,
    inside: Seq<Seq<bool>>,
    w: Surroundings,
    lanes: nat,
    n: nat,
)
    requires
        n <= devices.len() <= usize::MAX,
        forall|i: int| 0 <= i < devices.len() ==> (#[trigger] devices[i]).lane < lanes,
    ensures
        forall|i: int|
            0 <= i < ticks_of(devices, inside, w, n).lanes.len() ==> (#[trigger] ticks_of(
                devices,
                inside,
                w,
                n,
            ).lanes[i]).0 < lanes,
        of_vehicles(ticks_of(devices, inside, w, n).moves, devices),
    decreases n,
{
    if n > 0 {
        let k = (n - 1) as nat;
        lemma_tick_refers(devices, inside, w, lanes, k);
        let before = ticks_of(devices, inside, w, k);
        let after = ticks_of(devices, inside, w, n);
        let did = tick_of(devices[n - 1], k as usize, inside[n - 1], w);
        assert forall|i: int| 0 <= i < after.lanes.len() implies (#[trigger] after.lanes[i]).0
            < lanes by {
            if i < before.lanes.len() {
                assert(after.lanes[i] == before.lanes[i]);
            } else {
                assert(after.lanes[i] == did.lanes[i - before.lanes.len()]);
                assert(devices[n - 1].lane < lanes);
            }
        }
        assert forall|i: int| 0 <= i < after.moves.len() implies (
        #[trigger] after.moves[i]).device < devices.len()
            && devices[after.moves[i].device as int].state is Vehicle by {
            if i < before.moves.len() {
                assert(after.moves[i] == before.moves[i]);
            } else {
                assert(after.moves[i] == did.moves[i - before.moves.len()]);
            }
        }
    }
}

/// The lifts' rides leave the devices the same ones, and move vehicles only.
pub proof fn lemma_shifts_refer(
    devices: Seq<DeviceView>,
    moves: Seq<MoveView>,
    shifts: Seq<ShiftView>,
    dt: Pico,
    t: Pico,
)
    requires
        devices.len() <= usize::MAX,
        of_vehicles(moves, devices),
    ensures
        same_devices(devices, with_shifts(devices, moves, shifts, dt, t).0),
        of_vehicles(
            with_shifts(devices, moves, shifts, dt, t).1,
            with_shifts(devices, moves, shifts, dt, t).0,
        ),
    decreases shifts.len(),
{
    if shifts.len() > 0 {
        lemma_shifts_refer(devices, moves, shifts.drop_last(), dt, t);
        let less = with_shifts(devices, moves, shifts.drop_last(), dt, t);
        let all = with_shifts(devices, moves, shifts, dt, t);
        lemma_vehicle_index(less.0, shifts.last().vehicle@, 0);
        assert forall|i: int| 0 <= i < all.1.len() implies (#[trigger] all.1[i]).device
            < all.0.len() && all.0[all.1[i].device as int].state is Vehicle by {
            if i < less.1.len() {
                assert(all.1[i] == less.1[i]);
            }
        }
        assert forall|i: int| 0 <= i < devices.len() implies (#[trigger] all.0[i]).name
            == devices[i].name && all.0[i].lane == devices[i].lane && (all.0[i].state is Vehicle
            <==> devices[i].state is Vehicle) by {
            assert(less.0[i].name == devices[i].name);
        }
    }
}

proof fn lemma_vehicle_index(devices: Seq<DeviceView>, name: Seq<char>, from: int)
    requires
        0 <= from,
    ensures
        vehicle_index(devices, name, from) matches Some(i) ==> 0 <= i < devices.len()
            && devices[i].state is Vehicle,
    decreases devices.len() - from,
{
    if from < devices.len() {
        lemma_vehicle_index(devices, name, from + 1);
    }
}

/// A vehicle on a lift rides with it: it goes by the lift's way, and makes one straight
/// piece over the whole tick at the lift's velocity, from where it stood, parked where the
/// ride ends; what shares the lift is its fellow cargo. No other device changes. `i` is the
/// first vehicle of its name.
pub proof fn law_a_vehicle_rides_with_its_lift(
    devices: Seq<DeviceView>,
    moves: Seq<MoveView>,
    s: ShiftView,
    dt: Pico,
    t: Pico,
    i: int,
)
    requires
        0 <= i < devices.len() <= usize::MAX,
        devices[i].name@ == s.vehicle@,
        devices[i].state is Vehicle,
        forall|j: int|
            0 <= j < i ==> (#[trigger] devices[j]).name@ != s.vehicle@ || !(devices[j].state
                is Vehicle),
        t - dt >= i64::MIN,
        t - dt <= i64::MAX,
    ensures
        ({
            let (after, made) = with_shifts(devices, moves, seq![s], dt, t);
            let v = devices[i].state->Vehicle_0;
            let m = made[moves.len() as int];
            &&& after.len() == devices.len()
            &&& forall|j: int| 0 <= j < devices.len() && j != i ==> #[trigger] after[j]
                == devices[j]
            &&& after[i].state == StateView::Vehicle(lifted(v, s.delta, s.arriving))
            &&& made.len() == moves.len() + 1
            &&& made.take(moves.len() as int) == moves
            &&& m.device == i
            &&& m.position == v.position
            &&& m.heading == v.heading
            &&& m.parked == s.arriving
            &&& m.extra == s.extra
            &&& m.pieces.len() == 1
            &&& m.pieces[0].t0 == t - dt
            &&& m.pieces[0].t1 == t
            &&& m.pieces[0].motion == (VehiclePiece::Lin { velocity: s.velocity })
        }),
{
    lemma_first_vehicle(devices, s.vehicle@, 0, i);
    let one = seq![s];
    assert(one.drop_last() =~= Seq::<ShiftView>::empty());
    assert(with_shifts(devices, moves, one.drop_last(), dt, t) == (devices, moves));
    let made = with_shifts(devices, moves, one, dt, t).1;
    assert(made.take(moves.len() as int) =~= moves);
}

proof fn lemma_first_vehicle(devices: Seq<DeviceView>, name: Seq<char>, from: int, i: int)
    requires
        0 <= from <= i < devices.len(),
        devices[i].name@ == name,
        devices[i].state is Vehicle,
        forall|j: int|
            0 <= j < i ==> (#[trigger] devices[j]).name@ != name || !(devices[j].state is Vehicle),
    ensures
        vehicle_index(devices, name, from) == Some(i),
    decreases i - from,
{
    if from < i {
        assert(devices[from].name@ != name || !(devices[from].state is Vehicle));
        lemma_first_vehicle(devices, name, from + 1, i);
    }
}

/// In a tick every device does what it does, in the order of the scene, and keeps its name
/// and its lane.
pub proof fn law_every_device_has_its_tick(
    devices: Seq<DeviceView>,
    inside: Seq<Seq<bool>>,
    w: Surroundings,
    n: nat,
    dt: Pico,
    t: Pico,
)
    requires
        n < devices.len() <= usize::MAX,
    ensures
        ({
            let less = ticks_of(devices, inside, w, n);
            let more = ticks_of(devices, inside, w, n + 1);
            let own = tick_of(devices[n as int], n as usize, inside[n as int], w);
            &&& more.moved == less.moved + own.moved
            &&& more.returned == less.returned + own.returned
            &&& more.lanes == less.lanes + own.lanes
            &&& more.moves == less.moves + own.moves
            &&& more.shifts == less.shifts + own.shifts
        }),
        ticks_of(devices, inside, w, 0).moved.len() == 0,
        ticks_of(devices, inside, w, 0).lanes.len() == 0,
        ({
            let after = devices_ticked(devices, dt, t);
            &&& after.len() == devices.len()
            &&& after[n as int].name == devices[n as int].name
            &&& after[n as int].lane == devices[n as int].lane
            &&& after[n as int].state == ticked(devices[n as int].state, dt, t)
        }),
{
}

} // verus!
