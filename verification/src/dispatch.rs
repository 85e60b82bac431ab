//! Firing device actions, and firing any action.

use vstd::prelude::*;

use crate::command::{apart, commanded, goto_route_of, riding_view, sound, Outcome, Taken};
use crate::devices::{device_names, Device, DeviceRuntime, DeviceView, StateView, Vehicle};
use crate::error::SeqError;
use crate::fire::{
    answers, approach_view, grasp_view, plan_fits, plan_view, pose_view, resolved, stands_off,
    toolpath_view, Fired, MotionPlan, ToolpathReply,
};
use crate::fixed::{Pico, Pose, Vec3, NANO};
use crate::names::{contains_name, find, find_named, holds_name, names_of};
use crate::robots::robot_sound;
use crate::rollout::{ProgramView, Rollout, RolloutView};
use crate::scene::{body_index, Attachment};
use crate::seq::{Action, DeviceCommand};
use crate::supply::{capture_lift, capture_refusal, captured, find_lift, lift_index};
use crate::text::cat3;
use crate::vehicle::{body_profile, build_legs, profiled, BodyProfile};
use crate::views::{opt, views};
use crate::walk::{lemma_robots_sound, tops, walk_fits, GaitReply};
use crate::zone::{mark_zone, zone_marks};

verus! {

/// The first lift, from `from` on, that is moving with the vehicle aboard.
pub open spec fn riding_lift(devices: Seq<DeviceView>, vehicle: Seq<char>, from: int) -> Option<
    Seq<char>,
>
    decreases devices.len() - from,
{
    if from < 0 || from >= devices.len() {
        None
    } else if devices[from].state matches StateView::Lift(l) && apart(l.position, l.target)
        && holds_name(l.cargo_vehicles, vehicle) {
        Some(devices[from].name@)
    } else {
        riding_lift(devices, vehicle, from + 1)
    }
}

fn find_riding<'b>(devices: &'b Vec<Device>, vehicle: &str) -> (r: Option<&'b String>)
    ensures
        riding_view(r) == riding_lift(views(devices@), vehicle@, 0),
{
    let mut i: usize = 0;
    while i < devices.len()
        invariant
            i <= devices.len(),
            riding_lift(views(devices@), vehicle@, 0) == riding_lift(
                views(devices@),
                vehicle@,
                i as int,
            ),
        decreases devices.len() - i,
    {
        assert(views(devices@)[i as int] == devices@[i as int]@);
        match &devices[i].state {
            DeviceRuntime::Lift(l) => {
                let d: i128 = l.position as i128 - l.target as i128;
                let far: bool = d > NANO as i128 || -d > NANO as i128;
                if far && contains_name(&l.cargo_vehicles, vehicle) {
                    return Some(&devices[i].name);
                }
            },
            _ => {},
        }
        i = i + 1;
    }
    None
}

/// What the outside gave for a device action.
#[derive(Debug)]
pub struct DeviceReply {
    /// The directions of the runs of the route, for a goto that is taken.
    pub courses: Vec<Pico>,
    /// Per robot: the walk it makes, for those that walk a vehicle sent out.
    pub walks: Vec<Option<GaitReply>>,
    /// Where each device that is a vehicle stands, in the frame of the zone of
    /// a lift that leaves.
    pub standing: Vec<Vec3>,
    /// Each body's origin in that frame.
    pub aboard: Vec<Vec3>,
}

impl RolloutView {
    /// The first device of that name.
    pub open spec fn device_index(self, device: Seq<char>) -> Option<int> {
        find(device_names(self.devices), device)
    }

    /// The size of the zone of the lift named `device`.
    pub open spec fn car_size(self, device: Seq<char>) -> Option<Vec3> {
        match lift_index(self.devices, device, 0) {
            Some(i) => Some((self.devices[i].state->Lift_0).size),
            None => None,
        }
    }

    /// What a command does to the device of that name.
    pub open spec fn command_of(
        self,
        device: Seq<char>,
        command: DeviceCommand,
        courses: Seq<Pico>,
    ) -> Outcome {
        commanded(
            self.devices[self.device_index(device)->0],
            command,
            riding_lift(self.devices, device, 0),
            courses,
        )
    }

    /// The rollout once device `d` has taken a command.
    pub open spec fn commanded(self, d: int, state: StateView, lane: Option<bool>) -> RolloutView {
        RolloutView {
            devices: self.devices.update(d, DeviceView { state, ..self.devices[d] }),
            lanes: match lane {
                Some(level) => self.lanes.set(self.devices[d].lane as int, self.t, level),
                None => self.lanes,
            },
            ..self
        }
    }

    /// Commanding a device: its lane follows, what walks it starts walking,
    /// and a lift takes its cargo on.
    pub open spec fn fired_device(
        self,
        device: Seq<char>,
        command: DeviceCommand,
        reply: DeviceReply,
    ) -> Fired {
        match self.device_index(device) {
            None => Fired::Fails(self.action_error("unknown device `"@ + device + "`"@)),
            Some(d) => match self.command_of(device, command, reply.courses@) {
                Outcome::Refused(why) => Fired::Fails(self.action_error(why)),
                Outcome::Taken { state, lane, dispatched, capture } => {
                    let v = self.commanded(d, state, lane);
                    if dispatched {
                        v.fired_walks(device, reply.walks@, v.robots.len())
                    } else if capture {
                        match capture_refusal(
                            v.devices,
                            device,
                            zone_marks(reply.standing@, v.car_size(device)),
                            v.obstacles,
                            zone_marks(reply.aboard@, v.car_size(device)),
                        ) {
                            Some(why) => Fired::Fails(v.action_error(why)),
                            None => Fired::Leads(
                                RolloutView {
                                    devices: captured(
                                        v.devices,
                                        device,
                                        zone_marks(reply.standing@, v.car_size(device)),
                                        v.obstacles,
                                        v.attachments,
                                        zone_marks(reply.aboard@, v.car_size(device)),
                                    ),
                                    ..v
                                },
                            ),
                        }
                    } else {
                        Fired::Leads(v)
                    }
                },
            },
        }
    }

    /// What a refused command leaves behind: everything as it was. A vehicle that
    /// set out before a walk was refused, and a lift that set out before its
    /// cargo was, are commanded all the same.
    pub open spec fn device_left(
        self,
        device: Seq<char>,
        command: DeviceCommand,
        reply: DeviceReply,
    ) -> RolloutView {
        match self.device_index(device) {
            None => self,
            Some(d) => match self.command_of(device, command, reply.courses@) {
                Outcome::Refused(_) => self,
                Outcome::Taken { state, lane, dispatched, .. } => {
                    let v = self.commanded(d, state, lane);
                    if dispatched {
                        v.walks_left(device, reply.walks@, v.robots.len())
                    } else {
                        v
                    }
                },
            },
        }
    }

    /// The reply answers what the command asks: a direction for every run of
    /// the route, a walk for every robot that walks, and who stands where.
    pub open spec fn device_answered(
        self,
        device: Seq<char>,
        command: DeviceCommand,
        reply: DeviceReply,
    ) -> bool {
        &&& self.device_index(device) matches Some(d) ==> (goto_route_of(
            self.devices[d],
            command,
            riding_lift(self.devices, device, 0),
        ) matches Some(route) ==> route.len() == reply.courses@.len())
        &&& self.walks_answered(device, reply.walks@)
        &&& reply.standing@.len() == self.devices.len()
        &&& reply.aboard@.len() == self.obstacles.len()
    }
}

/// Whether a command that is taken leaves a rollout as sound as before.
proof fn lemma_commanded_sound(v: RolloutView, d: int, state: StateView, lane: Option<bool>)
    requires
        v.sound(),
        0 <= d < v.devices.len(),
        sound((DeviceView { state, ..v.devices[d] })),
    ensures
        v.commanded(d, state, lane).sound(),
{
    let w = v.commanded(d, state, lane);
    assert(w.lanes.tracks.len() == v.lanes.tracks.len());
    assert(w.lanes.forced == v.lanes.forced);
    assert forall|i: int| 0 <= i < w.devices.len() implies sound(#[trigger] w.devices[i])
        && w.devices[i].lane < w.lanes.tracks.len() by {
        assert(sound(v.devices[i]));
        assert(v.devices[i].lane < v.lanes.tracks.len());
    }
    assert forall|r: int| 0 <= r < w.robots.len() implies robot_sound(
        #[trigger] w.robots[r],
        w.scene.robots@[r].q@.len(),
    ) by {
        assert(robot_sound(v.robots[r], v.scene.robots@[r].q@.len()));
    }
}

impl<'a> Rollout<'a> {
    fn find_device(&self, device: &str) -> (r: Option<usize>)
        ensures
            crate::names::index_view(r) == self@.device_index(device@),
            r matches Some(d) ==> d < self.devices@.len(),
    {
        assert(names_of(self.devices@) =~= device_names(self@.devices));
        find_named(&self.devices, device)
    }

    fn size_of_car(&self, device: &str) -> (r: Option<Vec3>)
        ensures
            r == self@.car_size(device@),
    {
        match find_lift(&self.devices, device) {
            Some(i) => {
                assert(self@.devices[i as int] == self.devices@[i as int]@);
                match &self.devices[i].state {
                    DeviceRuntime::Lift(l) => Some(l.size),
                    _ => None,
                }
            },
            None => None,
        }
    }

    /// The route that a goto of the device would take: what its directions
    /// are asked for.
    pub fn goto_route(&self, device: &str, command: &DeviceCommand) -> (r: Option<Vec<usize>>)
        requires
            self@.sound(),
        ensures
            opt(r) == (match self@.device_index(device@) {
                Some(d) => goto_route_of(
                    self@.devices[d],
                    *command,
                    riding_lift(self@.devices, device@, 0),
                ),
                None => None,
            }),
    {
        match self.find_device(device) {
            Some(d) => {
                assert(self@.devices[d as int] == self.devices@[d as int]@);
                assert(sound(self@.devices[d as int]));
                let riding: Option<&String> = find_riding(&self.devices, device);
                self.devices[d].goto_route(command, riding)
            },
            None => None,
        }
    }

    /// The drive that a goto of the device would make: what walks are planned
    /// against. None where the goto is refused.
    pub fn goto_profile(&self, device: &str, command: &DeviceCommand, courses: &Vec<Pico>) -> (r:
        Option<BodyProfile>)
        requires
            self@.sound(),
            self@.device_index(device@) matches Some(d) ==> (goto_route_of(
                self@.devices[d],
                *command,
                riding_lift(self@.devices, device@, 0),
            ) matches Some(route) ==> route.len() == courses@.len()),
        ensures
            opt(r) == (match self@.device_index(device@) {
                Some(d) => match (
                    self@.devices[d].state,
                    goto_route_of(
                        self@.devices[d],
                        *command,
                        riding_lift(self@.devices, device@, 0),
                    ),
                ) {
                    (StateView::Vehicle(v), Some(route)) => Some(
                        profiled(
                            crate::vehicle::legs_of(
                                v.waypoints,
                                route,
                                courses@,
                                v.position,
                                v.heading,
                                v.speed,
                                v.turn_speed,
                                v.drive,
                            ),
                            v.position,
                            v.heading,
                            self@.t,
                        ),
                    ),
                    _ => None,
                },
                None => None,
            }),
    {
        let d: usize = match self.find_device(device) {
            Some(d) => d,
            None => {
                return None;
            },
        };
        assert(self@.devices[d as int] == self.devices@[d as int]@);
        assert(sound(self@.devices[d as int]));
        let riding: Option<&String> = find_riding(&self.devices, device);
        let route: Vec<usize> = match self.devices[d].goto_route(command, riding) {
            Some(route) => route,
            None => {
                return None;
            },
        };
        match &self.devices[d].state {
            DeviceRuntime::Vehicle(v) => {
                let legs: Vec<crate::vehicle::Leg> = build_legs(
                    &v.waypoints,
                    &route,
                    courses,
                    v.position,
                    v.heading,
                    v.speed,
                    v.turn_speed,
                    &v.drive,
                );
                Some(body_profile(&legs, v.position, v.heading, self.t))
            },
            _ => None,
        }
    }

    /// Commands a device.
    pub fn fire_device(&mut self, device: &str, command: &DeviceCommand, reply: DeviceReply) -> (r:
        Result<(), SeqError>)
        requires
            old(self)@.sound(),
            old(self)@.device_answered(device@, *command, reply),
        ensures
            answers(r, final(self)@, old(self)@.fired_device(device@, *command, reply)),
            r is Err ==> final(self)@ == old(self)@.device_left(device@, *command, reply),
            r is Ok ==> final(self)@.sound(),
    {
        let ghost v = self@;
        let d: usize = match self.find_device(device) {
            Some(d) => d,
            None => {
                return Err(self.action_error(cat3("unknown device `", device, "`")));
            },
        };
        assert(v.devices[d as int] == self.devices@[d as int]@);
        assert(sound(v.devices[d as int]));
        let lane: usize = self.devices[d].lane;
        assert(v.devices[d as int].lane < v.lanes.tracks.len());
        let riding: Option<String> = match find_riding(&self.devices, device) {
            Some(name) => Some(name.clone()),
            None => None,
        };
        let aboard: Option<&String> = match &riding {
            Some(name) => Some(name),
            None => None,
        };
        assert(riding_view(aboard) == riding_lift(v.devices, device@, 0));
        let t: Pico = self.t;
        let taken: Taken = match self.devices[d].command(command, aboard, &reply.courses) {
            Ok(taken) => taken,
            Err(why) => {
                proof {
                    assert(views(self.devices@) =~= v.devices);
                    assert(self@ =~= v);
                }
                return Err(self.action_error(why));
            },
        };
        let ghost state = self.devices@[d as int]@.state;
        let ghost w = v.commanded(d as int, state, taken.lane);
        match taken.lane {
            Some(level) => {
                self.lanes.set_lane(lane, t, level);
            },
            None => {},
        }
        proof {
            assert(self@.devices =~= w.devices);
            assert(self@ =~= w);
            lemma_commanded_sound(v, d as int, state, taken.lane);
            assert forall|r: int| 0 <= r < reply.walks@.len() && w.walks(r, device@) implies ((
            #[trigger] reply.walks@[r]) matches Some(x) && walk_fits(
                w.gait_of(r),
                x,
                tops(w.obstacles).len(),
            )) by {
                assert(v.walks(r, device@));
            }
        }
        if taken.dispatched {
            match self.start_gaits(device, reply.walks) {
                Ok(_) => {
                    proof {
                        lemma_robots_sound(w, self@);
                    }
                    Ok(())
                },
                Err(e) => Err(e),
            }
        } else if taken.capture {
            let size: Option<Vec3> = self.size_of_car(device);
            let standing: Vec<bool> = mark_zone(&reply.standing, size);
            let aboard: Vec<bool> = mark_zone(&reply.aboard, size);
            match capture_lift(
                &mut self.devices,
                device,
                &standing,
                &self.obstacles,
                &self.attachments,
                &aboard,
            ) {
                Ok(_) => {
                    proof {
                        assert forall|i: int| 0 <= i < self@.devices.len() implies (
                        #[trigger] self@.devices[i]).lane < self@.lanes.tracks.len() by {
                            assert(w.devices[i].lane < w.lanes.tracks.len());
                        }
                        assert forall|r: int| 0 <= r < self@.robots.len() implies robot_sound(
                            #[trigger] self@.robots[r],
                            self@.scene.robots@[r].q@.len(),
                        ) by {
                            assert(robot_sound(w.robots[r], w.scene.robots@[r].q@.len()));
                        }
                    }
                    Ok(())
                },
                Err(why) => {
                    proof {
                        assert(self@ =~= w);
                    }
                    Err(self.action_error(why))
                },
            }
        } else {
            Ok(())
        }
    }
}

/// What the outside gave for an action.
#[derive(Debug)]
pub enum FireReply {
    /// The action asks for nothing.
    Nothing,
    /// What planning a motion gave.
    Motion(Result<MotionPlan, String>),
    /// What resolving the action's robot gave, and planning a toolpath.
    Toolpath { robot: Result<usize, String>, reply: ToolpathReply },
    /// What resolving the action's robot gave.
    Robot(Result<usize, String>),
    /// What resolving the action's robot gave, and the grasp.
    Grasp { robot: Result<usize, String>, grasp: Result<Attachment, String> },
    /// Where the kinematics left a body that is let go.
    Release(Result<Pose, String>),
    Device(DeviceReply),
}

/// A robot that was resolved is one of the rollout's.
pub open spec fn robot_known(v: RolloutView, robot: Result<usize, String>) -> bool {
    robot matches Ok(r) ==> r < v.robots.len()
}

impl RolloutView {
    /// Whether a reply answers what an action asks.
    pub open spec fn answered(self, action: Action, reply: FireReply) -> bool {
        match (action, reply) {
            (Action::StartMotion { .. }, FireReply::Motion(_)) => true,
            (Action::StartToolpath { toolpath, .. }, FireReply::Toolpath { robot, reply }) => {
                &&& robot_known(self, robot)
                &&& reply.plan matches Ok(p) ==> plan_fits(
                    self.scene.toolpaths@,
                    toolpath@,
                    p@,
                )
                &&& (robot matches Ok(r) && reply.plan matches Ok(p) && stands_off(
                    self.robots[r as int].q,
                    p@.path[0],
                )) ==> reply.approach is Some
            },
            (Action::StartRamp { .. }, FireReply::Robot(robot)) => robot_known(self, robot),
            (Action::Attach { object, .. }, FireReply::Grasp { robot, grasp }) => {
                &&& robot_known(self, robot)
                &&& grasp matches Ok(a) ==> a.object@ == object@ && a.robot < self.robots.len()
                    && body_index(self.obstacles, object@) is Some
            },
            (Action::Detach { .. }, FireReply::Release(_)) => true,
            (Action::Track { .. }, FireReply::Robot(robot)) => robot_known(self, robot),
            (Action::Untrack { .. }, FireReply::Robot(robot)) => robot_known(self, robot),
            (Action::SetSignal { .. }, FireReply::Nothing) => true,
            (Action::Device { device, command }, FireReply::Device(reply)) => self.device_answered(
                device@,
                command,
                reply,
            ),
            _ => false,
        }
    }

    /// What firing an action leads to.
    pub open spec fn fired(self, action: Action, reply: FireReply) -> Fired {
        match (action, reply) {
            (Action::StartMotion { motion }, FireReply::Motion(plan)) => self.fired_motion(
                motion@,
                plan_view(plan),
            ),
            (Action::StartToolpath { toolpath, .. }, FireReply::Toolpath { robot, reply }) => {
                self.fired_toolpath(
                    resolved(robot),
                    toolpath@,
                    toolpath_view(reply.plan),
                    approach_view(reply.approach),
                    reply.rapid_speed,
                )
            },
            (Action::StartRamp { targets, duration, .. }, FireReply::Robot(robot)) => {
                self.fired_ramp(resolved(robot), targets@, duration)
            },
            (Action::Attach { object, .. }, FireReply::Grasp { robot, grasp }) => {
                self.fired_attach(resolved(robot), object@, grasp_view(grasp))
            },
            (Action::Detach { object }, FireReply::Release(pose)) => self.fired_detach(
                object@,
                pose_view(pose),
            ),
            (Action::Track { object, link, .. }, FireReply::Robot(robot)) => self.fired_track(
                resolved(robot),
                object@,
                opt(link),
            ),
            (Action::Untrack { .. }, FireReply::Robot(robot)) => self.fired_untrack(
                resolved(robot),
            ),
            (Action::SetSignal { signal, value }, FireReply::Nothing) => self.fired_set(
                signal@,
                value,
            ),
            (Action::Device { device, command }, FireReply::Device(reply)) => self.fired_device(
                device@,
                command,
                reply,
            ),
            _ => Fired::Leads(self),
        }
    }

    /// What a refused action leaves behind: everything as it was, but for what a
    /// device had taken up before it was refused.
    pub open spec fn left(self, action: Action, reply: FireReply) -> RolloutView {
        match (action, reply) {
            (Action::Device { device, command }, FireReply::Device(reply)) => self.device_left(
                device@,
                command,
                reply,
            ),
            _ => self,
        }
    }
}

impl<'a> Rollout<'a> {
    /// Fires an action of the current program's step.
    pub fn fire(&mut self, action: &Action, reply: FireReply) -> (r: Result<(), SeqError>)
        requires
            old(self)@.sound(),
            old(self)@.answered(*action, reply),
        ensures
            answers(r, final(self)@, old(self)@.fired(*action, reply)),
            r is Err ==> final(self)@ == old(self)@.left(*action, reply),
            r is Ok ==> final(self)@.sound(),
    {
        match (action, reply) {
            (Action::StartMotion { motion }, FireReply::Motion(plan)) => self.fire_motion(
                motion.as_str(),
                plan,
            ),
            (Action::StartToolpath { toolpath, .. }, FireReply::Toolpath { robot, reply }) => {
                self.fire_toolpath(robot, toolpath.as_str(), reply)
            },
            (Action::StartRamp { targets, duration, .. }, FireReply::Robot(robot)) => {
                self.fire_ramp(robot, targets, *duration)
            },
            (Action::Attach { object, .. }, FireReply::Grasp { robot, grasp }) => {
                self.fire_attach(robot, object.as_str(), grasp)
            },
            (Action::Detach { object }, FireReply::Release(pose)) => self.fire_detach(
                object.as_str(),
                pose,
            ),
            (Action::Track { object, link, .. }, FireReply::Robot(robot)) => self.fire_track(
                robot,
                object.as_str(),
                link,
            ),
            (Action::Untrack { .. }, FireReply::Robot(robot)) => self.fire_untrack(robot),
            (Action::SetSignal { signal, value }, FireReply::Nothing) => self.fire_set(
                signal.as_str(),
                *value,
            ),
            (Action::Device { device, command }, FireReply::Device(reply)) => self.fire_device(
                device.as_str(),
                command,
                reply,
            ),
            _ => Ok(()),
        }
    }
}

/// Nothing of the programs differs but the ends of the moves they wait for,
/// nor of what they have been through, and it is the same instant of the same
/// rollout.
pub open spec fn same_cursors(v: RolloutView, w: RolloutView) -> bool {
    &&& w.scene == v.scene
    &&& w.options == v.options
    &&& w.current == v.current
    &&& w.t == v.t
    &&& w.step_spans == v.step_spans
    &&& w.branches == v.branches
    &&& w.programs.len() == v.programs.len()
    &&& forall|p: int|
        0 <= p < v.programs.len() ==> (#[trigger] w.programs[p]) == (ProgramView {
            move_ends: w.programs[p].move_ends,
            ..v.programs[p]
        })
}

proof fn lemma_walks_keep_cursors(
    v: RolloutView,
    device: Seq<char>,
    replies: Seq<Option<GaitReply>>,
    n: nat,
)
    ensures
        v.fired_walks(device, replies, n) matches Fired::Leads(w) ==> same_cursors(v, w),
    decreases n,
{
    if n > 0 {
        lemma_walks_keep_cursors(v, device, replies, (n - 1) as nat);
    }
}

/// Firing an action moves no program's cursor and takes no time: all that a
/// program keeps of it is when the moves it started end.
pub proof fn law_firing_moves_no_cursor(v: RolloutView, action: Action, reply: FireReply)
    requires
        v.current < v.programs.len(),
    ensures
        v.fired(action, reply) matches Fired::Leads(w) ==> same_cursors(v, w),
{
    match (action, reply) {
        (Action::Device { device, command }, FireReply::Device(answer)) => {
            match (v.device_index(device@), v.command_of(device@, command, answer.courses@)) {
                (Some(d), Outcome::Taken { state, lane, dispatched, .. }) => {
                    let w = v.commanded(d, state, lane);
                    assert(same_cursors(v, w));
                    lemma_walks_keep_cursors(w, device@, answer.walks@, w.robots.len());
                },
                _ => {},
            }
        },
        (Action::StartMotion { .. }, _) => {},
        (Action::StartToolpath { .. }, _) => {},
        (Action::StartRamp { .. }, _) => {},
        (Action::Attach { .. }, _) => {},
        (Action::Detach { .. }, _) => {},
        _ => {},
    }
}

/// Whether device `k` is a lift on its way, more than 10^-9 m from its stop, with the
/// vehicle aboard.
pub open spec fn carries_off(devices: Seq<DeviceView>, vehicle: Seq<char>, k: int) -> bool {
    devices[k].state matches StateView::Lift(l) && (l.target - l.position > 1_000 || l.position
        - l.target > 1_000) && exists|n: int|
        0 <= n < l.cargo_vehicles.len() && (#[trigger] l.cargo_vehicles[n])@ == vehicle
}

/// A vehicle rides the first lift that is moving with it aboard; where none is, it rides
/// none.
pub proof fn law_a_vehicle_rides_a_lift_that_moves(
    devices: Seq<DeviceView>,
    vehicle: Seq<char>,
    from: int,
    i: int,
)
    requires
        0 <= from,
    ensures
        from <= i < devices.len() && carries_off(devices, vehicle, i) && (forall|j: int|
            from <= j < i ==> !#[trigger] carries_off(devices, vehicle, j)) ==> riding_lift(
            devices,
            vehicle,
            from,
        ) == Some(devices[i].name@),
        (forall|j: int|
            from <= j < devices.len() ==> !#[trigger] carries_off(devices, vehicle, j))
            ==> riding_lift(devices, vehicle, from) is None,
    decreases devices.len() - from,
{
    if from < devices.len() {
        let here = carries_off(devices, vehicle, from);
        match devices[from].state {
            StateView::Lift(l) => {
                if here {
                    let n = choose|n: int|
                        0 <= n < l.cargo_vehicles.len() && (#[trigger] l.cargo_vehicles[n])@
                            == vehicle;
                    assert(l.cargo_vehicles[n]@ == vehicle);
                    assert(holds_name(l.cargo_vehicles, vehicle));
                }
                if holds_name(l.cargo_vehicles, vehicle) {
                    let n = choose|n: int|
                        0 <= n < l.cargo_vehicles.len() && #[trigger] l.cargo_vehicles[n]@
                            == vehicle;
                    assert(l.cargo_vehicles[n]@ == vehicle);
                }
            },
            _ => {},
        }
        law_a_vehicle_rides_a_lift_that_moves(devices, vehicle, from + 1, i);
    }
}

/// A command that a device takes changes that device and its lane, and nothing else.
pub proof fn law_a_command_concerns_one_device(
    v: RolloutView,
    d: int,
    state: StateView,
    lane: Option<bool>,
    i: int,
)
    requires
        0 <= d < v.devices.len(),
        0 <= i < v.devices.len(),
    ensures
        ({
            let w = v.commanded(d, state, lane);
            &&& w == (RolloutView { devices: w.devices, lanes: w.lanes, ..v })
            &&& w.devices.len() == v.devices.len()
            &&& w.devices[d].state == state
            &&& w.devices[d].name == v.devices[d].name
            &&& w.devices[d].lane == v.devices[d].lane
            &&& i != d ==> w.devices[i] == v.devices[i]
            &&& lane is None ==> w.lanes == v.lanes
            &&& lane is Some ==> w.lanes == v.lanes.set(
                v.devices[d].lane as int,
                v.t,
                lane->0,
            )
        }),
{
}

/// A signal that a step sets takes the level that the step says.
pub proof fn law_a_step_sets_its_signal(
    v: RolloutView,
    signal: String,
    value: bool,
    lane: int,
)
    requires
        0 <= lane < v.lanes.tracks.len(),
        v.lanes.tracks[lane].name == signal@,
        forall|j: int| 0 <= j < lane ==> (#[trigger] v.lanes.tracks[j]).name != signal@,
        !v.lanes.pinned(lane),
    ensures
        v.fired(Action::SetSignal { signal, value }, FireReply::Nothing) matches Fired::Leads(w)
            && crate::lanes::level(w.lanes.tracks[lane].edges) == value && w.devices == v.devices
            && w.obstacles == v.obstacles && w.robots == v.robots,
{
    crate::fire::law_a_signal_takes_the_level_it_is_set(v, signal@, value, lane);
}

/// A command to a device that is not there fails, and so does one that the device
/// refuses.
pub proof fn law_a_refused_command_fails(
    v: RolloutView,
    device: Seq<char>,
    command: DeviceCommand,
    reply: DeviceReply,
)
    ensures
        (forall|j: int| 0 <= j < v.devices.len() ==> (#[trigger] v.devices[j]).name@ != device)
            ==> v.fired_device(device, command, reply) is Fails,
        v.device_index(device) is Some && v.command_of(device, command, reply.courses@) is Refused
            ==> v.fired_device(device, command, reply) is Fails,
{
    let names = device_names(v.devices);
    crate::names::lemma_find(names, device, 0);
    match find(names, device) {
        Some(k) => {
            assert(names[k] == v.devices[k].name@);
        },
        None => {},
    }
}

} // verus!
