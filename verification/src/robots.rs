//! Robots at run time: the commanded joints, the move in flight, the tracking
//! latch, and the joint track that accumulates.

use vstd::prelude::*;

use crate::fixed::{Pico, Pose, NANO};
use crate::gait::{GaitRuntime, GaitView};
use crate::motion::{with_waypoint, ActiveMove, ActiveView, Bake, WaypointView};
use crate::scene::{DeviceKind, DeviceSpec, Robot};
use crate::devices::find_station;
use crate::names::same;
use crate::timeline::{PlannedMove, PlannedView, StepSpan, StepSpanView};
use crate::tracks::TrackSpan;
use crate::views::{copied, opt, views, zero_vec, zeros};

verus! {

/// An active conveyor track: taught poses are carried by `offset`, the part's
/// rigid motion since the latch, until the part is grasped; from then on the
/// offset stands.
#[derive(Debug)]
pub struct TrackLatch {
    pub object: String,
    pub link: usize,
    pub origin: Pose,
    pub offset: Pose,
    pub frozen: bool,
    /// The program that latched the track.
    pub program: usize,
}

#[verifier::ext_equal]
pub struct LatchView {
    pub object: Seq<char>,
    pub link: usize,
    pub origin: Pose,
    pub offset: Pose,
    pub frozen: bool,
    pub program: usize,
}

impl View for TrackLatch {
    type V = LatchView;

    open spec fn view(&self) -> LatchView {
        LatchView {
            object: self.object@,
            link: self.link,
            origin: self.origin,
            offset: self.offset,
            frozen: self.frozen,
            program: self.program,
        }
    }
}

/// A mount's propellers.
#[derive(Debug)]
pub struct SpinRuntime {
    pub device: String,
    /// The altitude of the ground the machine starts parked on.
    pub ground: Pico,
    /// Joint and signed rate.
    pub joints: Vec<(usize, Pico)>,
}

#[verifier::ext_equal]
pub struct SpinView {
    pub device: Seq<char>,
    pub ground: Pico,
    pub joints: Seq<(usize, Pico)>,
}

impl View for SpinRuntime {
    type V = SpinView;

    open spec fn view(&self) -> SpinView {
        SpinView { device: self.device@, ground: self.ground, joints: self.joints@ }
    }
}

/// One robot's scan-loop state.
#[derive(Debug)]
pub struct RobotRuntime {
    /// Commanded joints: what the robot actually does.
    pub q: Vec<Pico>,
    /// The joints as the move asks for them, before any tracking offset.
    pub q_nom: Vec<Pico>,
    /// The previous tick's nominal.
    pub q_nom_prev: Vec<Pico>,
    pub active: Option<ActiveMove>,
    pub tracking: Option<TrackLatch>,
    pub bake: Bake,
    pub moves: Vec<StepSpan>,
    pub planned: Vec<PlannedMove>,
    /// The base's motion, for a robot that rides a vehicle.
    pub base: Option<Vec<TrackSpan>>,
    pub gait: Option<GaitRuntime>,
    pub spin: Option<SpinRuntime>,
}

#[verifier::ext_equal]
pub struct RobotView {
    pub q: Seq<Pico>,
    pub q_nom: Seq<Pico>,
    pub q_nom_prev: Seq<Pico>,
    pub active: Option<ActiveView>,
    pub tracking: Option<LatchView>,
    pub bake: Seq<WaypointView>,
    pub moves: Seq<StepSpanView>,
    pub planned: Seq<PlannedView>,
    pub base: Option<Seq<TrackSpan>>,
    pub gait: Option<GaitView>,
    pub spin: Option<SpinView>,
}

impl View for RobotRuntime {
    type V = RobotView;

    open spec fn view(&self) -> RobotView {
        RobotView {
            q: self.q@,
            q_nom: self.q_nom@,
            q_nom_prev: self.q_nom_prev@,
            active: opt(self.active),
            tracking: opt(self.tracking),
            bake: self.bake@,
            moves: views(self.moves@),
            planned: views(self.planned@),
            base: opt(self.base),
            gait: opt(self.gait),
            spin: opt(self.spin),
        }
    }
}

/// A robot whose configurations all have `dof` joints.
pub open spec fn robot_sound(rt: RobotView, dof: nat) -> bool {
    &&& rt.q.len() == dof
    &&& rt.q_nom.len() == dof
    &&& rt.q_nom_prev.len() == dof
    &&& rt.active matches Some(ActiveView::Ramp { from, to, .. }) ==> from.len() == dof && to.len()
        == dof
    &&& rt.spin matches Some(s) ==> forall|i: int|
        0 <= i < s.joints.len() ==> (#[trigger] s.joints[i]).0 < dof
}

impl RobotView {
    /// Whether the gait is driving the legs: walking, or settling.
    pub open spec fn walking(self) -> bool {
        self.gait matches Some(g) && g.plan is Some
    }

    /// The joints that a walk in progress drives.
    pub open spec fn owned(self) -> Seq<usize> {
        match self.gait {
            Some(g) => match g.plan {
                Some(p) => p.owned,
                None => Seq::empty(),
            },
            None => Seq::empty(),
        }
    }

    /// The robot at rest at `t`: its configuration held there.
    pub open spec fn held_at(self, t: Pico) -> RobotView {
        RobotView {
            bake: with_waypoint(
                self.bake,
                WaypointView { t, q: self.q, v: zeros(self.q.len()) },
            ),
            ..self
        }
    }

    /// The robot without its track: it keeps the configuration it is in.
    pub open spec fn released(self) -> RobotView {
        RobotView { tracking: None, q_nom: self.q, ..self }
    }

    /// The robot latched onto a part.
    pub open spec fn latched(
        self,
        object: Seq<char>,
        link: usize,
        origin: Pose,
        program: usize,
    ) -> RobotView {
        RobotView {
            q_nom: self.q,
            q_nom_prev: self.q,
            tracking: Some(
                LatchView {
                    object,
                    link,
                    origin,
                    offset: crate::gait::still(),
                    frozen: false,
                    program,
                },
            ),
            ..self
        }
    }

    /// The robot once it grasps `object`: a track of that part is frozen.
    pub open spec fn grasping(self, object: Seq<char>) -> RobotView {
        match self.tracking {
            Some(latch) => if latch.object == object {
                RobotView { tracking: Some(LatchView { frozen: true, ..latch }), ..self }
            } else {
                self
            },
            None => self,
        }
    }

    /// The robot after one tick of its move, `sampled` being what a planned
    /// trajectory gives at `t`. Under a track only the nominal moves; during a
    /// walk the legs are the gait's.
    pub open spec fn followed(self, t: Pico, sampled: Seq<Pico>) -> RobotView {
        match self.active {
            None => self,
            Some(active) => {
                let nominal = active.sample(t, sampled);
                RobotView {
                    q_nom: nominal,
                    q: if self.tracking is Some {
                        self.q
                    } else {
                        crate::motion::pin(nominal, self.owned(), self.q)
                    },
                    active: if t >= active.end() - NANO {
                        None
                    } else {
                        Some(active)
                    },
                    ..self
                }
            },
        }
    }
}

/// The joint that a spinning mount names, among the actuated ones.
pub open spec fn actuated_index(robot: Robot, joint: Seq<char>, from: int) -> Option<int>
    decreases robot.actuated@.len() - from,
{
    if from < 0 || from >= robot.actuated@.len() {
        None
    } else if robot.joints@[robot.actuated@[from] as int].name@ == joint {
        Some(from)
    } else {
        actuated_index(robot, joint, from + 1)
    }
}

/// The joints that spin, with their rates; a name that is no actuated joint
/// is left out.
pub open spec fn spin_joints(robot: Robot, spin: Seq<(String, Pico)>) -> Seq<(usize, Pico)>
    decreases spin.len(),
{
    if spin.len() == 0 {
        Seq::empty()
    } else {
        let less = spin_joints(robot, spin.drop_last());
        match actuated_index(robot, spin.last().0@, 0) {
            Some(i) => less.push((i as usize, spin.last().1)),
            None => less,
        }
    }
}

/// The ground of the first vehicle named `device` that has its start station.
pub open spec fn start_ground(devices: Seq<DeviceSpec>, device: Seq<char>, from: int) -> Option<Pico>
    decreases devices.len() - from,
{
    if from < 0 || from >= devices.len() {
        None
    } else {
        match devices[from].kind {
            DeviceKind::Vehicle { path, start, .. } => {
                match crate::devices::station_index(path.stations@, start@) {
                    Some(at) => if devices[from].name@ == device && at < path.waypoints@.len() {
                        Some(path.waypoints@[at as int].z)
                    } else {
                        start_ground(devices, device, from + 1)
                    },
                    None => start_ground(devices, device, from + 1),
                }
            },
            _ => start_ground(devices, device, from + 1),
        }
    }
}

/// A robot as a rollout finds it.
pub open spec fn robot_start(robot: Robot, devices: Seq<DeviceSpec>) -> RobotView {
    RobotView {
        q: robot.q@,
        q_nom: robot.q@,
        q_nom_prev: robot.q@,
        active: None,
        tracking: None,
        bake: seq![WaypointView { t: 0, q: robot.q@, v: zeros(robot.q@.len()) }],
        moves: Seq::empty(),
        planned: Seq::empty(),
        base: match robot.mount {
            Some(_) => Some(Seq::empty()),
            None => None,
        },
        gait: match robot.mount {
            Some(m) => match m.gait {
                Some(_) => Some(GaitView::standing()),
                None => None,
            },
            None => None,
        },
        spin: match robot.mount {
            Some(m) => if m.spin@.len() == 0 {
                None
            } else {
                match start_ground(devices, m.device@, 0) {
                    Some(ground) => Some(
                        SpinView {
                            device: m.device@,
                            ground,
                            joints: spin_joints(robot, m.spin@),
                        },
                    ),
                    None => None,
                }
            },
            None => None,
        },
    }
}

/// A robot whose actuated joints are joints of it.
pub open spec fn well_jointed(robot: Robot) -> bool {
    forall|i: int|
        0 <= i < robot.actuated@.len() ==> (#[trigger] robot.actuated@[i]) < robot.joints@.len()
}

/// Every joint that spins is an actuated one.
pub proof fn lemma_spin_joints(robot: Robot, spin: Seq<(String, Pico)>)
    ensures
        forall|i: int|
            0 <= i < spin_joints(robot, spin).len() ==> (#[trigger] spin_joints(robot, spin)[i]).0
                < robot.actuated@.len(),
    decreases spin.len(),
{
    if spin.len() > 0 {
        let less = spin_joints(robot, spin.drop_last());
        let all = spin_joints(robot, spin);
        lemma_spin_joints(robot, spin.drop_last());
        assert(robot.actuated.len() == robot.actuated@.len());
        lemma_actuated_index(robot, spin.last().0@, 0);
        assert forall|i: int| 0 <= i < all.len() implies (#[trigger] all[i]).0
            < robot.actuated@.len() by {
            if i < less.len() {
                assert(all[i] == less[i]);
            }
        }
    }
}

proof fn lemma_actuated_index(robot: Robot, joint: Seq<char>, from: int)
    requires
        0 <= from,
    ensures
        actuated_index(robot, joint, from) matches Some(i) ==> 0 <= i < robot.actuated@.len(),
    decreases robot.actuated@.len() - from,
{
    if from < robot.actuated@.len() {
        lemma_actuated_index(robot, joint, from + 1);
    }
}

fn find_actuated(robot: &Robot, joint: &str) -> (r: Option<usize>)
    requires
        well_jointed(*robot),
    ensures
        crate::names::index_view(r) == actuated_index(*robot, joint@, 0),
{
    let mut i: usize = 0;
    while i < robot.actuated.len()
        invariant
            i <= robot.actuated.len(),
            well_jointed(*robot),
            actuated_index(*robot, joint@, 0) == actuated_index(*robot, joint@, i as int),
        decreases robot.actuated.len() - i,
    {
        if same(robot.joints[robot.actuated[i]].name.as_str(), joint) {
            return Some(i);
        }
        i = i + 1;
    }
    None
}

fn find_ground(devices: &Vec<DeviceSpec>, device: &str) -> (r: Option<Pico>)
    ensures
        r == start_ground(devices@, device@, 0),
{
    let mut i: usize = 0;
    while i < devices.len()
        invariant
            i <= devices.len(),
            start_ground(devices@, device@, 0) == start_ground(devices@, device@, i as int),
        decreases devices.len() - i,
    {
        match &devices[i].kind {
            DeviceKind::Vehicle { path, start, .. } => {
                match find_station(&path.stations, start.as_str()) {
                    Some(at) => {
                        if same(devices[i].name.as_str(), device) && at < path.waypoints.len() {
                            return Some(path.waypoints[at].z);
                        }
                    },
                    None => {},
                }
            },
            _ => {},
        }
        i = i + 1;
    }
    None
}

impl RobotRuntime {
    /// A robot as a rollout finds it.
    pub fn start(robot: &Robot, devices: &Vec<DeviceSpec>) -> (r: RobotRuntime)
        requires
            well_jointed(*robot),
        ensures
            r@ == robot_start(*robot, devices@),
    {
        let mut bake: Bake = Bake { waypoints: Vec::new() };
        assert(bake@ =~= Seq::<WaypointView>::empty());
        bake.append_waypoint(0, copied(&robot.q), zero_vec(robot.q.len()));
        let mut base: Option<Vec<TrackSpan>> = None;
        let mut gait: Option<GaitRuntime> = None;
        let mut spin: Option<SpinRuntime> = None;
        match &robot.mount {
            Some(mount) => {
                base = Some(Vec::new());
                if mount.gait.is_some() {
                    gait = Some(GaitRuntime::new());
                }
                if mount.spin.len() > 0 {
                    match find_ground(devices, mount.device.as_str()) {
                        Some(ground) => {
                            let mut joints: Vec<(usize, Pico)> = Vec::new();
                            let mut i: usize = 0;
                            while i < mount.spin.len()
                                invariant
                                    i <= mount.spin.len(),
                                    well_jointed(*robot),
                                    joints@ == spin_joints(*robot, mount.spin@.take(i as int)),
                                decreases mount.spin.len() - i,
                            {
                                assert(mount.spin@.take(i + 1).drop_last() =~= mount.spin@.take(
                                    i as int,
                                ));
                                match find_actuated(robot, mount.spin[i].0.as_str()) {
                                    Some(k) => {
                                        joints.push((k, mount.spin[i].1));
                                    },
                                    None => {},
                                }
                                i = i + 1;
                            }
                            assert(mount.spin@.take(i as int) =~= mount.spin@);
                            spin = Some(
                                SpinRuntime { device: mount.device.clone(), ground, joints },
                            );
                        },
                        None => {},
                    }
                }
            },
            None => {},
        }
        let r: RobotRuntime = RobotRuntime {
            q: copied(&robot.q),
            q_nom: copied(&robot.q),
            q_nom_prev: copied(&robot.q),
            active: None,
            tracking: None,
            bake,
            moves: Vec::new(),
            planned: Vec::new(),
            base,
            gait,
            spin,
        };
        assert(r@ =~= robot_start(*robot, devices@));
        r
    }

    /// Whether the gait is driving the legs right now.
    pub fn walking(&self) -> (r: bool)
        ensures
            r == self@.walking(),
    {
        match &self.gait {
            Some(g) => g.plan.is_some(),
            None => false,
        }
    }

    /// The joints that a walk in progress drives.
    pub fn owned(&self) -> (r: Vec<usize>)
        ensures
            r@ == self@.owned(),
    {
        match &self.gait {
            Some(g) => match &g.plan {
                Some(p) => copied(&p.owned),
                None => Vec::new(),
            },
            None => Vec::new(),
        }
    }

    /// Holds the configuration up to `t`.
    pub fn hold(&mut self, t: Pico)
        ensures
            final(self)@ == old(self)@.held_at(t),
    {
        let q: Vec<Pico> = copied(&self.q);
        let v: Vec<Pico> = zero_vec(self.q.len());
        self.bake.append_waypoint(t, q, v);
        assert(self@ =~= old(self)@.held_at(t));
    }

    /// Drops the track; the robot keeps the configuration it is in, so the
    /// nominal is re-based onto it.
    pub fn release_track(&mut self)
        ensures
            final(self)@ == old(self)@.released(),
    {
        self.tracking = None;
        self.q_nom = copied(&self.q);
        assert(self@ =~= old(self)@.released());
    }

    /// Latches the robot onto a part: from here its nominal poses ride the
    /// part's motion.
    pub fn latch(&mut self, object: &str, link: usize, origin: Pose, program: usize)
        ensures
            final(self)@ == old(self)@.latched(object@, link, origin, program),
    {
        self.q_nom = copied(&self.q);
        self.q_nom_prev = copied(&self.q);
        self.tracking = Some(
            TrackLatch {
                object: String::from_str(object),
                link,
                origin,
                offset: crate::gait::identity(),
                frozen: false,
                program,
            },
        );
        assert(self@ =~= old(self)@.latched(object@, link, origin, program));
    }

    /// Grasping the tracked part ends the chase.
    pub fn grasp(&mut self, object: &str)
        ensures
            final(self)@ == old(self)@.grasping(object@),
    {
        match &mut self.tracking {
            Some(latch) => {
                if same(latch.object.as_str(), object) {
                    latch.frozen = true;
                }
            },
            None => {},
        }
        assert(self@ =~= old(self)@.grasping(object@));
    }

    /// One tick of the move in flight.
    pub fn follow(&mut self, t: Pico, sampled: &Vec<Pico>)
        ensures
            final(self)@ == old(self)@.followed(t, sampled@),
    {
        let ghost want = self@.followed(t, sampled@);
        let owned: Vec<usize> = self.owned();
        let mut ended: bool = false;
        match &self.active {
            None => {
                return;
            },
            Some(active) => {
                self.q_nom = active.sample(t, sampled);
                if self.tracking.is_none() {
                    let mut q: Vec<Pico> = copied(&self.q_nom);
                    crate::motion::pin_vec(&mut q, &owned, &self.q);
                    self.q = q;
                }
                ended = t as i128 >= active.end() as i128 - NANO as i128;
            },
        }
        if ended {
            self.active = None;
        }
        assert(self@ =~= want);
    }
}

/// A robot with a move in flight goes where the move is at that instant: its nominal
/// joints do, and so do its own, but for those that a walk drives, and none of them
/// where it tracks a part. It is through with the move from 10^-9 s before its end on.
/// One without a move stays as it is.
pub proof fn law_a_robot_follows_its_move(rt: RobotView, t: Pico, sampled: Seq<Pico>, qi: int)
    requires
        rt.active matches Some(m) ==> m.sample(t, sampled).len() == rt.q.len(),
        0 <= qi < rt.q.len(),
        qi <= usize::MAX,
    ensures
        ({
            let after = rt.followed(t, sampled);
            let legs = rt.gait matches Some(g) && (g.plan matches Some(p) && exists|k: int|
                0 <= k < p.owned.len() && #[trigger] p.owned[k] == qi);
            &&& rt.active is None ==> after == rt
            &&& rt.active matches Some(m) ==> {
                let nominal = m.sample(t, sampled);
                &&& after.q_nom == nominal
                &&& rt.tracking is Some ==> after.q == rt.q
                &&& rt.tracking is None ==> after.q.len() == rt.q.len()
                &&& rt.tracking is None && legs ==> after.q[qi] == rt.q[qi]
                &&& rt.tracking is None && !legs ==> after.q[qi] == nominal[qi]
                &&& after.active is None <==> m.end() - t <= 1_000
                &&& after.active is Some ==> after.active == rt.active
                &&& after.bake == rt.bake
                &&& after.tracking == rt.tracking
            }
        }),
{
    match rt.active {
        Some(m) => {
            crate::motion::law_pinned_joints_take_their_values(
                m.sample(t, sampled),
                rt.owned(),
                rt.q,
                qi,
            );
        },
        None => {},
    }
}

/// A robot that is held at an instant has a sample of where it is there, at rest, where
/// none lies there or later yet.
pub proof fn law_a_held_robot_rests_where_it_is(rt: RobotView, t: Pico)
    ensures
        ({
            let after = rt.held_at(t);
            let fresh = rt.bake.len() == 0 || t - rt.bake[rt.bake.len() - 1].t > 1_000;
            &&& after == (RobotView { bake: after.bake, ..rt })
            &&& !fresh ==> after.bake == rt.bake
            &&& fresh ==> after.bake.len() == rt.bake.len() + 1 && after.bake.last().t == t
                && after.bake.last().q == rt.q && after.bake.last().v.len() == rt.q.len()
                && forall|i: int| 0 <= i < rt.q.len() ==> #[trigger] after.bake.last().v[i] == 0
        }),
{
}

/// A robot that grasps the part it tracks follows it no more; its track of any other
/// part stays.
pub proof fn law_grasping_a_part_freezes_its_track(rt: RobotView, object: Seq<char>)
    ensures
        ({
            let after = rt.grasping(object);
            &&& after == (RobotView { tracking: after.tracking, ..rt })
            &&& rt.tracking matches Some(latch) ==> if latch.object == object {
                after.tracking matches Some(now) && now.frozen && now == (LatchView {
                    frozen: true,
                    ..latch
                })
            } else {
                after.tracking == rt.tracking
            }
            &&& rt.tracking is None ==> after.tracking is None
        }),
{
}

/// A spinning mount turns the joint that it names, at the rate that it gives; a name
/// that is no actuated joint turns nothing. `i` is the first actuated joint of the name.
pub proof fn law_a_spin_turns_the_joint_it_names(
    robot: Robot,
    spin: Seq<(String, Pico)>,
    one: (String, Pico),
    i: int,
)
    requires
        robot.actuated@.len() <= usize::MAX,
    ensures
        spin_joints(robot, seq![]).len() == 0,
        0 <= i < robot.actuated@.len() && robot.joints@[robot.actuated@[i] as int].name@ == one.0@
            && (forall|j: int|
            0 <= j < i ==> robot.joints@[#[trigger] robot.actuated@[j] as int].name@ != one.0@)
            ==> spin_joints(robot, spin.push(one)) == spin_joints(robot, spin).push(
            (i as usize, one.1),
        ),
        (forall|j: int|
            0 <= j < robot.actuated@.len() ==> robot.joints@[#[trigger] robot.actuated@[j] as int].name@
                != one.0@) ==> spin_joints(robot, spin.push(one)) == spin_joints(robot, spin),
{
    assert(spin.push(one).drop_last() =~= spin);
    assert(spin.push(one).last() == one);
    lemma_actuated(robot, one.0@, 0, i);
}

proof fn lemma_actuated(robot: Robot, joint: Seq<char>, from: int, i: int)
    requires
        0 <= from,
    ensures
        from <= i < robot.actuated@.len() && robot.joints@[robot.actuated@[i] as int].name@ == joint
            && (forall|j: int|
            from <= j < i ==> robot.joints@[#[trigger] robot.actuated@[j] as int].name@ != joint)
            ==> actuated_index(robot, joint, from) == Some(i),
        (forall|j: int|
            from <= j < robot.actuated@.len() ==> robot.joints@[
            #[trigger] robot.actuated@[j] as int].name@ != joint) ==> actuated_index(
            robot,
            joint,
            from,
        ) is None,
    decreases robot.actuated@.len() - from,
{
    if from < robot.actuated@.len() {
        let here = robot.actuated@[from];
        lemma_actuated(robot, joint, from + 1, i);
    }
}

/// A run finds a robot as it stands in its scene, at rest, with no move and no track, and
/// takes that down at the start.
pub proof fn law_a_robot_starts_as_it_stands(robot: Robot, devices: Seq<DeviceSpec>)
    ensures
        ({
            let rt = robot_start(robot, devices);
            &&& rt.q == robot.q@
            &&& rt.q_nom == robot.q@
            &&& rt.q_nom_prev == robot.q@
            &&& rt.active is None
            &&& rt.tracking is None
            &&& rt.bake.len() == 1
            &&& rt.bake[0].t == 0
            &&& rt.bake[0].q == robot.q@
            &&& rt.moves.len() == 0
            &&& rt.planned.len() == 0
            &&& rt.base is Some <==> robot.mount is Some
            &&& rt.gait is Some <==> (robot.mount matches Some(m) && m.gait is Some)
        }),
{
}

/// The ground of a spinning mount is the altitude of the start station of the first vehicle
/// of its name that has one. `i` is that vehicle.
pub proof fn law_a_mounts_ground_is_its_start_station(
    devices: Seq<DeviceSpec>,
    device: Seq<char>,
    from: int,
    i: int,
)
    requires
        0 <= from <= i < devices.len(),
        stands_on(devices[i], device) is Some,
        forall|j: int| from <= j < i ==> stands_on(#[trigger] devices[j], device) is None,
    ensures
        start_ground(devices, device, from) == stands_on(devices[i], device),
    decreases i - from,
{
    if from < i {
        assert(stands_on(devices[from], device) is None);
        law_a_mounts_ground_is_its_start_station(devices, device, from + 1, i);
    }
}

/// The altitude that a device of a name starts on, where it is a vehicle with a start
/// station on its path.
pub open spec fn stands_on(spec: DeviceSpec, device: Seq<char>) -> Option<Pico> {
    match spec.kind {
        DeviceKind::Vehicle { path, start, .. } => if spec.name@ == device {
            match crate::devices::station_index(path.stations@, start@) {
                Some(at) => if at < path.waypoints@.len() {
                    Some(path.waypoints@[at as int].z)
                } else {
                    None
                },
                None => None,
            }
        } else {
            None
        },
        _ => None,
    }
}

} // verus!
