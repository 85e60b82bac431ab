//! Firing actions.
//!
//! What only the planner, the kinematics or the geometry can answer is handed
//! in with the action.

use vstd::prelude::*;

use crate::devices::{driving, is_driving};
use crate::error::{ErrorView, SeqError};
use crate::fixed::{clip, plus, Pico, Pose, MICRO, NANO};
use crate::motion::{
    with_waypoint, with_waypoints, ActiveMove, ActiveView, Trajectory, TrajectoryView,
    WaypointView,
};
use crate::names::{find, find_named, names_of, same};
use crate::robots::{RobotRuntime, RobotView};
use crate::rollout::{ProgramView, Rollout, RolloutView};
use crate::setup::lemma_kept_sound;
use crate::scene::{body_index, find_body, posed, set_obstacle_pose, Attachment, Robot, Toolpath};
use crate::text::{cat3, cat5};
use crate::timeline::{
    PlannedMove, PlannedSegment, PlannedView, ProcessSpan, ProcessView, SegmentKind, SegmentView,
    StepSpan, StepSpanView,
};
use crate::tracks::{jumped, TrackSpan};
use crate::views::{copied, copied_name, opt, views, zero_vec, zeros};

verus! {

/// What firing an action leads to.
#[verifier::ext_equal]
pub enum Fired {
    Fails(ErrorView),
    Leads(RolloutView),
}

/// Whether a result is what was to come.
pub open spec fn answers(r: Result<(), SeqError>, after: RolloutView, want: Fired) -> bool {
    match (r, want) {
        (Ok(_), Fired::Leads(v)) => after == v,
        (Err(e), Fired::Fails(why)) => e@ == why,
        _ => false,
    }
}

/// A motion as planned.
#[derive(Debug)]
pub struct MotionPlan {
    pub trajectory: Trajectory,
    pub segments: Vec<PlannedSegment>,
}

#[verifier::ext_equal]
pub struct MotionPlanView {
    pub trajectory: TrajectoryView,
    pub segments: Seq<SegmentView>,
}

impl View for MotionPlan {
    type V = MotionPlanView;

    open spec fn view(&self) -> MotionPlanView {
        MotionPlanView { trajectory: self.trajectory@, segments: views(self.segments@) }
    }
}

impl RolloutView {
    pub open spec fn with_robot(self, r: int, robot: RobotView) -> RolloutView {
        RolloutView { robots: self.robots.update(r, robot), ..self }
    }

    /// A move that ends at `end`, started by the current step.
    pub open spec fn with_move_end(self, end: Pico) -> RolloutView {
        let c = self.current as int;
        RolloutView {
            programs: self.programs.update(
                c,
                ProgramView {
                    move_ends: self.programs[c].move_ends.push(end),
                    ..self.programs[c]
                },
            ),
            ..self
        }
    }

    /// The vehicle that robot `r` rides, where it is driving.
    pub open spec fn driven_under(self, r: int) -> Option<Seq<char>> {
        match self.scene.robots@[r].mount {
            Some(m) => if driving(self.devices, m.device@) {
                Some(m.device@)
            } else {
                None
            },
            None => None,
        }
    }

    /// The interval of a move that the current step starts now.
    pub open spec fn move_span(self, name: Seq<char>, end: Pico) -> StepSpanView {
        StepSpanView {
            name,
            start: self.t,
            end,
            sequence: self.cur_sequence(),
            step: self.cur_step(),
        }
    }

    /// Robot `r` starts a planned trajectory now.
    pub open spec fn started_trajectory(
        self,
        r: int,
        name: Seq<char>,
        traj: TrajectoryView,
        planned: PlannedView,
    ) -> RolloutView {
        let rt = self.robots[r];
        let end = clip(self.t + traj.duration);
        let active = ActiveView::Traj { start: self.t, traj };
        self.with_robot(
            r,
            RobotView {
                bake: with_waypoints(rt.bake, active.tail()),
                planned: rt.planned.push(planned),
                moves: rt.moves.push(self.move_span(name, end)),
                active: Some(active),
                ..rt
            },
        ).with_move_end(end)
    }

    /// Why a motion does not start, before it is planned.
    pub open spec fn motion_refusal(self, motion: Seq<char>) -> Option<Seq<char>> {
        match find(names_of(self.scene.motions@), motion) {
            None => Some("unknown motion `"@ + motion + "`"@),
            Some(m) => match self.driven_under(self.scene.motions@[m].robot as int) {
                Some(vehicle) => Some(
                    "motion `"@ + motion + "` cannot start while `"@ + vehicle
                        + "` is driving: plans are baked in world coordinates, so wait for device_done first (a ramp may run while travelling)"@,
                ),
                None => None,
            },
        }
    }

    /// Starting a motion: refused, or planned against the world as it stands.
    pub open spec fn fired_motion(
        self,
        motion: Seq<char>,
        plan: Result<MotionPlanView, Seq<char>>,
    ) -> Fired {
        match self.motion_refusal(motion) {
            Some(why) => Fired::Fails(self.action_error(why)),
            None => match plan {
                Err(message) => Fired::Fails(self.plan_error(message)),
                Ok(p) => {
                    let r = self.scene.motions@[find(
                        names_of(self.scene.motions@),
                        motion,
                    )->0].robot as int;
                    Fired::Leads(
                        self.started_trajectory(
                            r,
                            motion,
                            p.trajectory,
                            PlannedView {
                                sequence: self.cur_sequence(),
                                step: self.cur_step(),
                                motion: Some(motion),
                                segments: p.segments,
                                duration: p.trajectory.duration,
                                feed_report: None,
                                process_spans: Seq::empty(),
                            },
                        ),
                    )
                },
            },
        }
    }
}

/// The views of a plan or of why there is none.
pub open spec fn plan_view(plan: Result<MotionPlan, String>) -> Result<MotionPlanView, Seq<char>> {
    match plan {
        Ok(p) => Ok(p@),
        Err(message) => Err(message@),
    }
}

impl<'a> Rollout<'a> {
    /// The name of the sequence being scanned.
    fn cur_sequence(&self) -> (r: String)
        requires
            self.current < self.programs@.len(),
        ensures
            r@ == self@.cur_sequence(),
    {
        assert(self@.programs[self.current as int] == self.programs@[self.current as int]@);
        self.programs[self.current].sequence.name.clone()
    }

    fn push_move_end(&mut self, end: Pico)
        requires
            old(self).current < old(self).programs@.len(),
        ensures
            final(self)@ == old(self)@.with_move_end(end),
    {
        let ghost before = self@;
        let c: usize = self.current;
        assert(before.programs[c as int] == self.programs@[c as int]@);
        self.programs[c].move_ends.push(end);
        assert(self@.programs =~= before.with_move_end(end).programs);
        assert(self@ =~= before.with_move_end(end));
    }

    /// The vehicle that robot `r` rides, where it is driving.
    fn vehicle_driving(&self, r: usize) -> (v: Option<String>)
        requires
            r < self.scene.robots@.len(),
        ensures
            opt(v) == self@.driven_under(r as int),
    {
        match &self.scene.robots[r].mount {
            Some(m) => if is_driving(&self.devices, m.device.as_str()) {
                Some(m.device.clone())
            } else {
                None
            },
            None => None,
        }
    }

    /// Starts robot `r` on a planned trajectory.
    fn start_trajectory(&mut self, r: usize, name: &str, traj: Trajectory, planned: PlannedMove)
        requires
            old(self).current < old(self).programs@.len(),
            r < old(self).robots@.len(),
        ensures
            final(self)@ == old(self)@.started_trajectory(r as int, name@, traj@, planned@),
    {
        let ghost before = self@;
        let ghost want = before.started_trajectory(r as int, name@, traj@, planned@);
        let t: Pico = self.t;
        let end: Pico = plus(t, traj.duration);
        let span: StepSpan = StepSpan {
            name: String::from_str(name),
            start: t,
            end,
            sequence: self.cur_sequence(),
            step: self.cur_step(),
        };
        let ghost seen = span@;
        let ghost plan = planned@;
        assert(before.robots[r as int] == self.robots@[r as int]@);
        self.robots[r].bake.append_trajectory(t, &traj);
        self.robots[r].planned.push(planned);
        self.robots[r].moves.push(span);
        self.robots[r].active = Some(ActiveMove::Traj { start: t, traj });
        assert(self.robots@[r as int]@.planned =~= before.robots[r as int].planned.push(plan));
        assert(self.robots@[r as int]@.moves =~= before.robots[r as int].moves.push(seen));
        assert(self@.robots =~= want.robots);
        assert(self@ =~= before.with_robot(r as int, want.robots[r as int]));
        self.push_move_end(end);
    }

    /// Why a motion does not start, before it is planned; else the robot that
    /// makes it.
    pub fn motion_owner(&self, motion: &str) -> (r: Result<usize, String>)
        requires
            self@.sound(),
        ensures
            match r {
                Err(message) => self@.motion_refusal(motion@) == Some(message@),
                Ok(owner) => {
                    &&& self@.motion_refusal(motion@) is None
                    &&& owner == self.scene.motions@[find(
                        names_of(self.scene.motions@),
                        motion@,
                    )->0].robot
                    &&& owner < self.robots@.len()
                },
            },
    {
        let m: usize = match find_named(&self.scene.motions, motion) {
            Some(m) => m,
            None => {
                return Err(cat3("unknown motion `", motion, "`"));
            },
        };
        let owner: usize = self.scene.motions[m].robot;
        assert(self.scene.motions@[m as int].robot < self.scene.robots@.len());
        match self.vehicle_driving(owner) {
            Some(vehicle) => Err(
                cat5(
                    "motion `",
                    motion,
                    "` cannot start while `",
                    vehicle.as_str(),
                    "` is driving: plans are baked in world coordinates, so wait for device_done first (a ramp may run while travelling)",
                ),
            ),
            None => Ok(owner),
        }
    }

    /// Starts a motion. `plan` is what planning it against the world as it
    /// stands gave.
    pub fn fire_motion(&mut self, motion: &str, plan: Result<MotionPlan, String>) -> (r: Result<
        (),
        SeqError,
    >)
        requires
            old(self)@.sound(),
        ensures
            answers(r, final(self)@, old(self)@.fired_motion(motion@, plan_view(plan))),
            r is Ok ==> final(self)@.sound(),
            r is Err ==> final(self)@ == old(self)@,
    {
        let ghost v = self@;
        let owner: usize = match self.motion_owner(motion) {
            Ok(owner) => owner,
            Err(message) => {
                return Err(self.action_error(message));
            },
        };
        let p: MotionPlan = match plan {
            Ok(p) => p,
            Err(message) => {
                return Err(self.plan_error(message));
            },
        };
        let planned: PlannedMove = PlannedMove {
            sequence: self.cur_sequence(),
            step: self.cur_step(),
            motion: Some(String::from_str(motion)),
            segments: p.segments,
            duration: p.trajectory.duration,
            feed_report: None,
            process_spans: Vec::new(),
        };
        assert(planned@.process_spans =~= Seq::<ProcessView>::empty());
        self.start_trajectory(owner, motion, p.trajectory, planned);
        proof {
            lemma_kept_sound(v, self@);
        }
        Ok(())
    }
}

/// One sample of a toolpath: the move it belongs to and its feed.
#[derive(Clone, Copy, Debug, PartialEq, Eq, Structural)]
pub struct PathSample {
    pub move_index: usize,
    pub feed: Option<Pico>,
}

/// A toolpath as planned.
#[derive(Debug)]
pub struct ToolpathPlan {
    pub path: Vec<Vec<Pico>>,
    pub samples: Vec<PathSample>,
    pub sample_times: Vec<Pico>,
    pub trajectory: Trajectory,
    pub feed_report: usize,
}

/// The way from where the robot stands to where a toolpath starts.
#[derive(Debug)]
pub struct Approach {
    pub path: Vec<Vec<Pico>>,
    /// The approach and the toolpath, one after the other.
    pub trajectory: Trajectory,
}

/// Why there is no approach.
#[derive(Debug)]
pub enum ApproachFault {
    /// No collision-free path.
    Unplanned(String),
    /// The path could not be timed.
    Untimed(String),
}

#[verifier::ext_equal]
pub struct ToolpathView {
    pub path: Seq<Seq<Pico>>,
    pub samples: Seq<PathSample>,
    pub sample_times: Seq<Pico>,
    pub trajectory: TrajectoryView,
    pub feed_report: usize,
}

impl View for ToolpathPlan {
    type V = ToolpathView;

    open spec fn view(&self) -> ToolpathView {
        ToolpathView {
            path: views(self.path@),
            samples: self.samples@,
            sample_times: self.sample_times@,
            trajectory: self.trajectory@,
            feed_report: self.feed_report,
        }
    }
}

#[verifier::ext_equal]
pub struct ApproachView {
    pub path: Seq<Seq<Pico>>,
    pub trajectory: TrajectoryView,
}

impl View for Approach {
    type V = ApproachView;

    open spec fn view(&self) -> ApproachView {
        ApproachView { path: views(self.path@), trajectory: self.trajectory@ }
    }
}

/// Why there is no approach, as texts.
#[verifier::ext_equal]
pub enum FaultView {
    Unplanned(Seq<char>),
    Untimed(Seq<char>),
}

impl View for ApproachFault {
    type V = FaultView;

    open spec fn view(&self) -> FaultView {
        match self {
            ApproachFault::Unplanned(m) => FaultView::Unplanned(m@),
            ApproachFault::Untimed(m) => FaultView::Untimed(m@),
        }
    }
}

/// The square of the distance between two configurations, over the joints
/// that both have.
pub open spec fn distance_square(a: Seq<Pico>, b: Seq<Pico>, n: nat) -> int
    decreases n,
{
    if n == 0 {
        0
    } else {
        distance_square(a, b, (n - 1) as nat) + (a[n - 1] - b[n - 1]) * (a[n - 1] - b[n - 1])
    }
}

/// Whether a robot has to approach a toolpath's start: it stands more than
/// 10^-6 away.
pub open spec fn stands_off(q: Seq<Pico>, start: Seq<Pico>) -> bool {
    distance_square(
        q,
        start,
        if q.len() < start.len() {
            q.len()
        } else {
            start.len()
        },
    ) > MICRO * MICRO
}

proof fn lemma_distance(a: Seq<Pico>, b: Seq<Pico>, k: nat, n: nat)
    requires
        k <= n,
    ensures
        0 <= distance_square(a, b, k) <= distance_square(a, b, n),
    decreases n,
{
    if n > 0 {
        let d = a[n - 1] - b[n - 1];
        assert(d * d >= 0) by (nonlinear_arith);
        if k < n {
            lemma_distance(a, b, k, (n - 1) as nat);
        } else {
            lemma_distance(a, b, (k - 1) as nat, (n - 1) as nat);
        }
    }
}

/// Whether a robot at `q` has to approach a toolpath that starts at `start`.
pub fn needs_approach(q: &Vec<Pico>, start: &Vec<Pico>) -> (r: bool)
    ensures
        r == stands_off(q@, start@),
{
    let n: usize = if q.len() < start.len() {
        q.len()
    } else {
        start.len()
    };
    let mut total: u128 = 0;
    let mut i: usize = 0;
    while i < n
        invariant
            i <= n,
            n == (if q@.len() < start@.len() {
                q@.len()
            } else {
                start@.len()
            }),
            total == distance_square(q@, start@, i as nat),
            total <= MICRO * MICRO,
        decreases n - i,
    {
        let d: i128 = q[i] as i128 - start[i] as i128;
        proof {
            lemma_distance(q@, start@, (i + 1) as nat, n as nat);
            lemma_distance(q@, start@, i as nat, n as nat);
        }
        if d > MICRO as i128 || d < -(MICRO as i128) {
            assert(d * d > MICRO * MICRO) by (nonlinear_arith)
                requires
                    d > MICRO || d < -MICRO,
                    MICRO == 1_000_000i64,
            ;
            return true;
        }
        assert(0 <= d * d <= MICRO * MICRO) by (nonlinear_arith)
            requires
                -MICRO <= d <= MICRO,
                MICRO == 1_000_000i64,
        ;
        total = total + (d * d) as u128;
        if total > 1_000_000_000_000 {
            return true;
        }
        i = i + 1;
    }
    false
}

/// The linear segments of a toolpath's samples, each at the speed commanded
/// for its interval.
pub open spec fn path_segments(plan: ToolpathView, rapid: Option<Pico>, n: nat) -> Seq<SegmentView>
    decreases n,
{
    if n == 0 {
        Seq::empty()
    } else {
        path_segments(plan, rapid, (n - 1) as nat).push(
            SegmentView {
                kind: SegmentKind::CartesianLine,
                waypoints: seq![plan.path[n - 1], plan.path[n as int]],
                tcp_speed: match plan.samples[n as int].feed {
                    Some(f) => Some(f),
                    None => rapid,
                },
            },
        )
    }
}

/// How many intervals a planned toolpath has.
pub open spec fn intervals(plan: ToolpathView) -> nat {
    let pairs = if plan.path.len() == 0 {
        0
    } else {
        (plan.path.len() - 1) as nat
    };
    let later = if plan.samples.len() == 0 {
        0
    } else {
        (plan.samples.len() - 1) as nat
    };
    if pairs < later {
        pairs
    } else {
        later
    }
}

/// A stroke `[a, b]` added to the spraying intervals: it lengthens the last
/// one where it follows it with the same brush.
pub open spec fn with_stroke(
    spans: Seq<ProcessView>,
    a: Pico,
    b: Pico,
    brush: Option<Seq<char>>,
) -> Seq<ProcessView> {
    if spans.len() > 0 && -NANO < spans.last().end - a < NANO && spans.last().brush == brush {
        spans.update(spans.len() - 1, ProcessView { end: b, ..spans.last() })
    } else {
        spans.push(ProcessView { start: a, end: b, brush })
    }
}

/// The spraying intervals of the first `n` samples: the interval into a
/// sample sprays where its move does.
pub open spec fn strokes(def: Toolpath, plan: ToolpathView, offset: Pico, n: nat) -> Seq<
    ProcessView,
>
    decreases n,
{
    if n <= 1 {
        Seq::empty()
    } else {
        let less = strokes(def, plan, offset, (n - 1) as nat);
        let m = def.moves@[plan.samples[n - 1].move_index as int];
        if m.sprays {
            with_stroke(
                less,
                clip(offset + plan.sample_times[n - 2]),
                clip(offset + plan.sample_times[n - 1]),
                opt(m.brush),
            )
        } else {
            less
        }
    }
}

/// The spraying intervals of a planned toolpath; none where the scene has no
/// such toolpath.
pub open spec fn sprayed(
    toolpaths: Seq<Toolpath>,
    toolpath: Seq<char>,
    plan: ToolpathView,
    offset: Pico,
) -> Seq<ProcessView> {
    match find(names_of(toolpaths), toolpath) {
        Some(i) => strokes(toolpaths[i], plan, offset, plan.samples.len()),
        None => Seq::empty(),
    }
}

/// A plan whose samples belong to moves of the toolpath and have their times.
pub open spec fn plan_fits(toolpaths: Seq<Toolpath>, toolpath: Seq<char>, plan: ToolpathView) -> bool {
    &&& plan.path.len() > 0
    &&& plan.sample_times.len() >= plan.samples.len()
    &&& find(names_of(toolpaths), toolpath) matches Some(i) ==> forall|k: int|
        0 <= k < plan.samples.len() ==> (#[trigger] plan.samples[k]).move_index
            < toolpaths[i].moves@.len()
}

/// What the outside gave for a toolpath.
#[derive(Debug)]
pub struct ToolpathReply {
    pub plan: Result<ToolpathPlan, String>,
    /// The approach, where the robot stands off the path's start.
    pub approach: Option<Result<Approach, ApproachFault>>,
    /// The speed of a move that has no feed of its own.
    pub rapid_speed: Option<Pico>,
}

impl RolloutView {
    /// Why a toolpath does not start, before it is planned.
    pub open spec fn toolpath_refusal(self, r: int, toolpath: Seq<char>) -> Option<Seq<char>> {
        match self.driven_under(r) {
            Some(vehicle) => Some(
                "toolpath `"@ + toolpath + "` cannot start while `"@ + vehicle
                    + "` is driving: the bake is world-frame, so wait for device_done first"@,
            ),
            None => None,
        }
    }

    /// The move of a planned toolpath. Where the robot stands off the path's
    /// start, the approach comes first and shifts everything by its length.
    pub open spec fn toolpath_move(
        self,
        toolpath: Seq<char>,
        plan: ToolpathView,
        approach: Option<ApproachView>,
        rapid: Option<Pico>,
    ) -> PlannedView {
        let traj = match approach {
            Some(a) => a.trajectory,
            None => plan.trajectory,
        };
        let way = match approach {
            Some(a) => seq![
                SegmentView { kind: SegmentKind::Joint, waypoints: a.path, tcp_speed: None },
            ],
            None => Seq::empty(),
        };
        let offset = clip(self.t + clip(traj.duration - plan.trajectory.duration));
        PlannedView {
            sequence: self.cur_sequence(),
            step: self.cur_step(),
            motion: Some(toolpath),
            segments: way + path_segments(plan, rapid, intervals(plan)),
            duration: traj.duration,
            feed_report: Some(plan.feed_report),
            process_spans: sprayed(self.scene.toolpaths@, toolpath, plan, offset),
        }
    }

    /// Starting a toolpath.
    pub open spec fn fired_toolpath(
        self,
        robot: Result<usize, Seq<char>>,
        toolpath: Seq<char>,
        plan: Result<ToolpathView, Seq<char>>,
        approach: Option<Result<ApproachView, FaultView>>,
        rapid: Option<Pico>,
    ) -> Fired {
        match robot {
            Err(message) => Fired::Fails(self.action_error(message)),
            Ok(r) => match self.toolpath_refusal(r as int, toolpath) {
                Some(why) => Fired::Fails(self.action_error(why)),
                None => match plan {
                    Err(message) => Fired::Fails(self.plan_error(message)),
                    Ok(p) => if stands_off(self.robots[r as int].q, p.path[0]) {
                        match approach {
                            Some(Err(FaultView::Unplanned(why))) => Fired::Fails(
                                self.plan_error(
                                    "approach to toolpath `"@ + toolpath + "`: "@ + why,
                                ),
                            ),
                            Some(Err(FaultView::Untimed(why))) => Fired::Fails(
                                self.action_error(why),
                            ),
                            Some(Ok(a)) => Fired::Leads(
                                self.started_trajectory(
                                    r as int,
                                    toolpath,
                                    a.trajectory,
                                    self.toolpath_move(toolpath, p, Some(a), rapid),
                                ),
                            ),
                            None => Fired::Leads(self),
                        }
                    } else {
                        Fired::Leads(
                            self.started_trajectory(
                                r as int,
                                toolpath,
                                p.trajectory,
                                self.toolpath_move(toolpath, p, None, rapid),
                            ),
                        )
                    },
                },
            },
        }
    }
}

/// What resolving an action's robot gave.
pub open spec fn resolved(robot: Result<usize, String>) -> Result<usize, Seq<char>> {
    match robot {
        Ok(r) => Ok(r),
        Err(message) => Err(message@),
    }
}

/// The views of a toolpath's reply.
pub open spec fn toolpath_view(plan: Result<ToolpathPlan, String>) -> Result<
    ToolpathView,
    Seq<char>,
> {
    match plan {
        Ok(p) => Ok(p@),
        Err(message) => Err(message@),
    }
}

pub open spec fn approach_view(approach: Option<Result<Approach, ApproachFault>>) -> Option<
    Result<ApproachView, FaultView>,
> {
    match approach {
        Some(Ok(a)) => Some(Ok(a@)),
        Some(Err(f)) => Some(Err(f@)),
        None => None,
    }
}

fn push_path_segments(segments: &mut Vec<PlannedSegment>, plan: &ToolpathPlan, rapid: Option<Pico>)
    ensures
        views(final(segments)@) == views(old(segments)@) + path_segments(
            plan@,
            rapid,
            intervals(plan@),
        ),
{
    let ghost before = views(segments@);
    let mut n: usize = 0;
    assert(before =~= before + Seq::<SegmentView>::empty());
    while n + 1 < plan.path.len() && n + 1 < plan.samples.len()
        invariant
            n <= intervals(plan@),
            n < usize::MAX,
            views(segments@) == before + path_segments(plan@, rapid, n as nat),
        decreases plan.path.len() - n,
    {
        let mut waypoints: Vec<Vec<Pico>> = Vec::new();
        waypoints.push(copied(&plan.path[n]));
        waypoints.push(copied(&plan.path[n + 1]));
        let tcp_speed: Option<Pico> = match plan.samples[n + 1].feed {
            Some(f) => Some(f),
            None => rapid,
        };
        let s: PlannedSegment = PlannedSegment {
            kind: SegmentKind::CartesianLine,
            waypoints,
            tcp_speed,
        };
        let ghost less = path_segments(plan@, rapid, n as nat);
        let ghost seen = s@;
        assert(seen.waypoints =~= seq![plan@.path[n as int], plan@.path[n + 1]]);
        let ghost mid = views(segments@);
        segments.push(s);
        assert(views(segments@) =~= mid.push(seen));
        assert(views(segments@) =~= before + less.push(seen));
        n = n + 1;
    }
    assert(n == intervals(plan@));
}

fn same_name(a: &Option<String>, b: &Option<String>) -> (r: bool)
    ensures
        r == (opt(*a) == opt(*b)),
{
    match (a, b) {
        (Some(x), Some(y)) => same(x.as_str(), y.as_str()),
        (None, None) => true,
        _ => false,
    }
}

fn spray(def: &Toolpath, plan: &ToolpathPlan, offset: Pico) -> (r: Vec<ProcessSpan>)
    requires
        plan.sample_times@.len() >= plan.samples@.len(),
        forall|k: int|
            0 <= k < plan.samples@.len() ==> (#[trigger] plan.samples@[k]).move_index
                < def.moves@.len(),
    ensures
        views(r@) == strokes(*def, plan@, offset, plan.samples@.len()),
{
    let mut out: Vec<ProcessSpan> = Vec::new();
    let mut n: usize = 0;
    assert(views(out@) =~= Seq::<ProcessView>::empty());
    while n < plan.samples.len()
        invariant
            n <= plan.samples.len(),
            plan.sample_times@.len() >= plan.samples@.len(),
            forall|k: int|
                0 <= k < plan.samples@.len() ==> (#[trigger] plan.samples@[k]).move_index
                    < def.moves@.len(),
            views(out@) == strokes(*def, plan@, offset, n as nat),
        decreases plan.samples.len() - n,
    {
        let i: usize = plan.samples[n].move_index;
        assert(plan.samples@[n as int].move_index < def.moves@.len());
        let ghost less = views(out@);
        if n > 0 && def.moves[i].sprays {
            let a: Pico = plus(offset, plan.sample_times[n - 1]);
            let b: Pico = plus(offset, plan.sample_times[n]);
            let last: usize = out.len();
            let mut joins: bool = false;
            if last > 0 {
                assert(out@[last - 1]@ == less.last());
                let gap: i128 = out[last - 1].end as i128 - a as i128;
                joins = -(NANO as i128) < gap && gap < NANO as i128 && same_name(
                    &out[last - 1].brush,
                    &def.moves[i].brush,
                );
            }
            if joins {
                out[last - 1].end = b;
            } else {
                out.push(ProcessSpan { start: a, end: b, brush: copied_name(&def.moves[i].brush) });
            }
            assert(views(out@) =~= with_stroke(less, a, b, opt(def.moves@[i as int].brush)));
        }
        n = n + 1;
    }
    out
}

impl<'a> Rollout<'a> {
    /// Why a toolpath does not start on robot `r`, before it is planned.
    pub fn toolpath_blocked(&self, r: usize, toolpath: &str) -> (why: Option<String>)
        requires
            r < self.scene.robots@.len(),
        ensures
            opt(why) == self@.toolpath_refusal(r as int, toolpath@),
    {
        match self.vehicle_driving(r) {
            Some(vehicle) => Some(
                cat5(
                    "toolpath `",
                    toolpath,
                    "` cannot start while `",
                    vehicle.as_str(),
                    "` is driving: the bake is world-frame, so wait for device_done first",
                ),
            ),
            None => None,
        }
    }

    fn plan_toolpath_move(
        &self,
        toolpath: &str,
        plan: &ToolpathPlan,
        approach: Option<(Vec<Vec<Pico>>, Pico)>,
        rapid: Option<Pico>,
        Ghost(seen): Ghost<Option<ApproachView>>,
    ) -> (r: PlannedMove)
        requires
            self@.sound(),
            plan_fits(self.scene.toolpaths@, toolpath@, plan@),
            match (approach, seen) {
                (Some(a), Some(v)) => views(a.0@) == v.path && a.1 == v.trajectory.duration,
                (None, None) => true,
                _ => false,
            },
        ensures
            r@ == self@.toolpath_move(toolpath@, plan@, seen, rapid),
    {
        let mut segments: Vec<PlannedSegment> = Vec::new();
        let mut duration: Pico = plan.trajectory.duration;
        match approach {
            Some((path, whole)) => {
                duration = whole;
                segments.push(
                    PlannedSegment { kind: SegmentKind::Joint, waypoints: path, tcp_speed: None },
                );
                assert(views(segments@) =~= seq![
                    SegmentView {
                        kind: SegmentKind::Joint,
                        waypoints: seen->0.path,
                        tcp_speed: None,
                    },
                ]);
            },
            None => {
                assert(views(segments@) =~= Seq::<SegmentView>::empty());
            },
        }
        push_path_segments(&mut segments, plan, rapid);
        let offset: Pico = plus(
            self.t,
            crate::fixed::minus(duration, plan.trajectory.duration),
        );
        let process_spans: Vec<ProcessSpan> = match find_named(&self.scene.toolpaths, toolpath) {
            Some(i) => spray(&self.scene.toolpaths[i], plan, offset),
            None => {
                let none: Vec<ProcessSpan> = Vec::new();
                assert(views(none@) =~= Seq::<ProcessView>::empty());
                none
            },
        };
        PlannedMove {
            sequence: self.cur_sequence(),
            step: self.cur_step(),
            motion: Some(String::from_str(toolpath)),
            segments,
            duration,
            feed_report: Some(plan.feed_report),
            process_spans,
        }
    }

    /// Starts a toolpath. `robot` is what resolving the action's robot gave,
    /// `reply` what planning the toolpath against the world as it stands gave.
    pub fn fire_toolpath(
        &mut self,
        robot: Result<usize, String>,
        toolpath: &str,
        reply: ToolpathReply,
    ) -> (r: Result<(), SeqError>)
        requires
            old(self)@.sound(),
            robot matches Ok(r) ==> r < old(self).robots@.len(),
            reply.plan matches Ok(p) ==> plan_fits(old(self).scene.toolpaths@, toolpath@, p@),
            (robot matches Ok(r) && reply.plan matches Ok(p) && stands_off(
                old(self)@.robots[r as int].q,
                p@.path[0],
            )) ==> reply.approach is Some,
        ensures
            answers(
                r,
                final(self)@,
                old(self)@.fired_toolpath(
                    resolved(robot),
                    toolpath@,
                    toolpath_view(reply.plan),
                    approach_view(reply.approach),
                    reply.rapid_speed,
                ),
            ),
            r is Ok ==> final(self)@.sound(),
            r is Err ==> final(self)@ == old(self)@,
    {
        let ghost v = self@;
        let r: usize = match robot {
            Ok(r) => r,
            Err(message) => {
                return Err(self.action_error(message));
            },
        };
        match self.toolpath_blocked(r, toolpath) {
            Some(why) => {
                return Err(self.action_error(why));
            },
            None => {},
        }
        let plan: ToolpathPlan = match reply.plan {
            Ok(p) => p,
            Err(message) => {
                return Err(self.plan_error(message));
            },
        };
        assert(self@.robots[r as int] == self.robots@[r as int]@);
        assert(plan@.path[0] == plan.path@[0]@);
        if needs_approach(&self.robots[r].q, &plan.path[0]) {
            match reply.approach {
                Some(Ok(a)) => {
                    let ghost av = a@;
                    let way: Option<(Vec<Vec<Pico>>, Pico)> = Some(
                        (a.path, a.trajectory.duration),
                    );
                    let planned: PlannedMove = self.plan_toolpath_move(
                        toolpath,
                        &plan,
                        way,
                        reply.rapid_speed,
                        Ghost(Some(av)),
                    );
                    self.start_trajectory(r, toolpath, a.trajectory, planned);
                    proof {
                        lemma_kept_sound(v, self@);
                    }
                    Ok(())
                },
                Some(Err(ApproachFault::Unplanned(why))) => {
                    let mut message: String = cat3("approach to toolpath `", toolpath, "`: ");
                    message.append(why.as_str());
                    Err(self.plan_error(message))
                },
                Some(Err(ApproachFault::Untimed(why))) => Err(self.action_error(why)),
                None => Ok(()),
            }
        } else {
            let planned: PlannedMove = self.plan_toolpath_move(
                toolpath,
                &plan,
                None,
                reply.rapid_speed,
                Ghost(None),
            );
            self.start_trajectory(r, toolpath, plan.trajectory, planned);
            proof {
                lemma_kept_sound(v, self@);
            }
            Ok(())
        }
    }
}

/// Why a ramp cannot drive a joint.
pub open spec fn ramp_refusal(
    robot: Robot,
    rt: RobotView,
    joint: Seq<char>,
) -> Option<Seq<char>> {
    match find(names_of(robot.joints@), joint) {
        None => Some("unknown joint `"@ + joint + "`"@),
        Some(j) => match robot.joints@[j].q_index {
            None => Some("joint `"@ + joint + "` is not actuated"@),
            Some(qi) => if rt.walking() && rt.owned().contains(qi) {
                Some(
                    "joint `"@ + joint + "` is driven by the gait while `"@ + (match robot.mount {
                        Some(m) => m.device@,
                        None => ""@,
                    }) + "` walks; ramp it after device_done"@,
                )
            } else {
                None
            },
        },
    }
}

/// The first target, from `from` on, that a ramp cannot drive, and why.
pub open spec fn ramp_fault(
    robot: Robot,
    rt: RobotView,
    targets: Seq<(String, Pico)>,
    from: int,
) -> Option<Seq<char>>
    decreases targets.len() - from,
{
    if from < 0 || from >= targets.len() {
        None
    } else {
        match ramp_refusal(robot, rt, targets[from].0@) {
            Some(why) => Some(why),
            None => ramp_fault(robot, rt, targets, from + 1),
        }
    }
}

/// The configuration that a ramp leads to.
pub open spec fn ramp_goal(robot: Robot, q: Seq<Pico>, targets: Seq<(String, Pico)>) -> Seq<Pico>
    decreases targets.len(),
{
    if targets.len() == 0 {
        q
    } else {
        let less = ramp_goal(robot, q, targets.drop_last());
        let j = find(names_of(robot.joints@), targets.last().0@)->0;
        less.update(robot.joints@[j].q_index->0 as int, targets.last().1)
    }
}

impl RolloutView {
    /// Robot `r` starts a ramp to `goal`. Two rest-to-rest samples; under a
    /// track, or alongside a walk, the tick bakes it instead.
    pub open spec fn started_ramp(self, r: int, goal: Seq<Pico>, duration: Pico) -> RolloutView {
        let rt = self.robots[r];
        let end = clip(self.t + duration);
        self.with_robot(
            r,
            RobotView {
                bake: if rt.tracking is None && !rt.walking() {
                    with_waypoint(
                        rt.bake,
                        WaypointView { t: end, q: goal, v: zeros(goal.len()) },
                    )
                } else {
                    rt.bake
                },
                planned: rt.planned.push(
                    PlannedView {
                        sequence: self.cur_sequence(),
                        step: self.cur_step(),
                        motion: None,
                        segments: seq![
                            SegmentView {
                                kind: SegmentKind::Joint,
                                waypoints: seq![rt.q_nom, goal],
                                tcp_speed: None,
                            },
                        ],
                        duration,
                        feed_report: None,
                        process_spans: Seq::empty(),
                    },
                ),
                moves: rt.moves.push(self.move_span("ramp"@, end)),
                active: Some(
                    ActiveView::Ramp { start: self.t, duration, from: rt.q_nom, to: goal },
                ),
                ..rt
            },
        ).with_move_end(end)
    }

    /// Starting a ramp.
    pub open spec fn fired_ramp(
        self,
        robot: Result<usize, Seq<char>>,
        targets: Seq<(String, Pico)>,
        duration: Pico,
    ) -> Fired {
        match robot {
            Err(message) => Fired::Fails(self.action_error(message)),
            Ok(r) => {
                let model = self.scene.robots@[r as int];
                let rt = self.robots[r as int];
                match ramp_fault(model, rt, targets, 0) {
                    Some(why) => Fired::Fails(self.action_error(why)),
                    None => Fired::Leads(
                        self.started_ramp(
                            r as int,
                            ramp_goal(model, rt.q_nom, targets),
                            duration,
                        ),
                    ),
                }
            },
        }
    }
}

fn holds_joint(list: &Vec<usize>, qi: usize) -> (r: bool)
    ensures
        r == list@.contains(qi),
{
    let mut i: usize = 0;
    while i < list.len()
        invariant
            i <= list.len(),
            forall|k: int| 0 <= k < i ==> list@[k] != qi,
        decreases list.len() - i,
    {
        if list[i] == qi {
            assert(list@[i as int] == qi);
            return true;
        }
        i = i + 1;
    }
    false
}

fn ramp_target(robot: &Robot, rt: &RobotRuntime, joint: &str) -> (r: Result<usize, String>)
    ensures
        match r {
            Err(message) => ramp_refusal(*robot, rt@, joint@) == Some(message@),
            Ok(qi) => {
                &&& ramp_refusal(*robot, rt@, joint@) is None
                &&& find(names_of(robot.joints@), joint@) matches Some(j) && 0 <= j
                    < robot.joints@.len() && robot.joints@[j].q_index == Some(qi)
            },
        },
{
    let j: usize = match find_named(&robot.joints, joint) {
        Some(j) => j,
        None => {
            return Err(cat3("unknown joint `", joint, "`"));
        },
    };
    let qi: usize = match robot.joints[j].q_index {
        Some(qi) => qi,
        None => {
            return Err(cat3("joint `", joint, "` is not actuated"));
        },
    };
    // A leg mid-walk has one driver, the gait; standing, the legs are free.
    if rt.walking() && holds_joint(&rt.owned(), qi) {
        let vehicle: String = match &robot.mount {
            Some(m) => m.device.clone(),
            None => String::from_str(""),
        };
        return Err(
            cat5(
                "joint `",
                joint,
                "` is driven by the gait while `",
                vehicle.as_str(),
                "` walks; ramp it after device_done",
            ),
        );
    }
    Ok(qi)
}

impl<'a> Rollout<'a> {
    fn start_ramp(&mut self, r: usize, goal: Vec<Pico>, duration: Pico)
        requires
            old(self).current < old(self).programs@.len(),
            r < old(self).robots@.len(),
        ensures
            final(self)@ == old(self)@.started_ramp(r as int, goal@, duration),
    {
        let ghost before = self@;
        let ghost want = before.started_ramp(r as int, goal@, duration);
        let t: Pico = self.t;
        let end: Pico = plus(t, duration);
        let sequence: String = self.cur_sequence();
        let span: StepSpan = StepSpan {
            name: String::from_str("ramp"),
            start: t,
            end,
            sequence: sequence.clone(),
            step: self.cur_step(),
        };
        let step: usize = self.cur_step();
        assert(before.robots[r as int] == self.robots@[r as int]@);
        let mut waypoints: Vec<Vec<Pico>> = Vec::new();
        waypoints.push(copied(&self.robots[r].q_nom));
        waypoints.push(copied(&goal));
        assert(views(waypoints@) =~= seq![before.robots[r as int].q_nom, goal@]);
        let mut segments: Vec<PlannedSegment> = Vec::new();
        segments.push(
            PlannedSegment { kind: SegmentKind::Joint, waypoints, tcp_speed: None },
        );
        let planned: PlannedMove = PlannedMove {
            sequence,
            step,
            motion: None,
            segments,
            duration,
            feed_report: None,
            process_spans: Vec::new(),
        };
        assert(planned@.process_spans =~= Seq::<ProcessView>::empty());
        assert(planned@ =~= want.robots[r as int].planned.last());
        let ghost plan = planned@;
        let ghost seen = span@;
        if self.robots[r].tracking.is_none() && !self.robots[r].walking() {
            let q: Vec<Pico> = copied(&goal);
            let v: Vec<Pico> = zero_vec(goal.len());
            self.robots[r].bake.append_waypoint(end, q, v);
        }
        self.robots[r].planned.push(planned);
        self.robots[r].moves.push(span);
        let from: Vec<Pico> = copied(&self.robots[r].q_nom);
        self.robots[r].active = Some(ActiveMove::Ramp { start: t, duration, from, to: goal });
        assert(self.robots@[r as int]@.planned =~= before.robots[r as int].planned.push(plan));
        assert(self.robots@[r as int]@.moves =~= before.robots[r as int].moves.push(seen));
        assert(self@.robots =~= want.robots);
        assert(self@ =~= before.with_robot(r as int, want.robots[r as int]));
        self.push_move_end(end);
    }

    /// Starts a ramp.
    pub fn fire_ramp(
        &mut self,
        robot: Result<usize, String>,
        targets: &Vec<(String, Pico)>,
        duration: Pico,
    ) -> (r: Result<(), SeqError>)
        requires
            old(self)@.sound(),
            robot matches Ok(r) ==> r < old(self).robots@.len(),
        ensures
            answers(
                r,
                final(self)@,
                old(self)@.fired_ramp(resolved(robot), targets@, duration),
            ),
            r is Ok ==> final(self)@.sound(),
            r is Err ==> final(self)@ == old(self)@,
    {
        let ghost v = self@;
        let r: usize = match robot {
            Ok(r) => r,
            Err(message) => {
                return Err(self.action_error(message));
            },
        };
        let ghost model = self.scene.robots@[r as int];
        let ghost rt = self@.robots[r as int];
        assert(rt == self.robots@[r as int]@);
        assert(crate::setup::valid_robot(model));
        let mut goal: Vec<Pico> = copied(&self.robots[r].q_nom);
        let mut i: usize = 0;
        while i < targets.len()
            invariant
                i <= targets.len(),
                *self == *old(self),
                self@.sound(),
                r < self.robots@.len(),
                model == self.scene.robots@[r as int],
                crate::setup::valid_robot(model),
                rt == self@.robots[r as int],
                rt == self.robots@[r as int]@,
                goal@.len() == model.q@.len(),
                resolved(robot) == Ok::<usize, Seq<char>>(r),
                goal@ == ramp_goal(model, rt.q_nom, targets@.take(i as int)),
                ramp_fault(model, rt, targets@, 0) == ramp_fault(model, rt, targets@, i as int),
            decreases targets.len() - i,
        {
            assert(targets@.take(i + 1).drop_last() =~= targets@.take(i as int));
            match ramp_target(&self.scene.robots[r], &self.robots[r], targets[i].0.as_str()) {
                Ok(qi) => {
                    let ghost j = find(names_of(model.joints@), targets@[i as int].0@)->0;
                    assert(model.joints@[j].q_index == Some(qi));
                    goal.set(qi, targets[i].1);
                },
                Err(message) => {
                    return Err(self.action_error(message));
                },
            }
            i = i + 1;
        }
        assert(targets@.take(i as int) =~= targets@);
        self.start_ramp(r, goal, duration);
        proof {
            lemma_kept_sound(v, self@);
        }
        Ok(())
    }
}

/// The attachments with `a` in place of an earlier one of the same object.
pub open spec fn grasped(attachments: Seq<Attachment>, a: Attachment) -> Seq<Attachment> {
    match find(names_of(attachments), a.object@) {
        Some(i) => attachments.update(i, a),
        None => attachments.push(a),
    }
}

impl RolloutView {
    /// Attaching a body: it follows the robot's link from now on, and a track
    /// of that very part is frozen.
    pub open spec fn fired_attach(
        self,
        robot: Result<usize, Seq<char>>,
        object: Seq<char>,
        grasp: Result<Attachment, Seq<char>>,
    ) -> Fired {
        match robot {
            Err(message) => Fired::Fails(self.action_error(message)),
            Ok(r) => match grasp {
                Err(message) => Fired::Fails(self.action_error(message)),
                Ok(a) => {
                    let rest = self.obstacles[body_index(self.obstacles, object)->0].pose;
                    Fired::Leads(
                        RolloutView {
                            attachments: grasped(self.attachments, a),
                            objects: jumped(
                                self.objects,
                                object,
                                rest,
                                self.t,
                                TrackSpan::Follow {
                                    t0: self.t,
                                    t1: self.t,
                                    robot: a.robot,
                                    link: a.link,
                                    offset: a.grasp,
                                },
                            ),
                            robots: self.robots.update(
                                r as int,
                                self.robots[r as int].grasping(object),
                            ),
                            ..self
                        },
                    )
                },
            },
        }
    }

    /// Detaching a body: it rests where it was let go.
    pub open spec fn fired_detach(self, object: Seq<char>, pose: Result<Pose, Seq<char>>) -> Fired {
        match find(names_of(self.attachments), object) {
            None => Fired::Fails(self.action_error("`"@ + object + "` is not attached"@)),
            Some(i) => match pose {
                Err(message) => Fired::Fails(self.action_error(message)),
                Ok(p) => match body_index(self.obstacles, object) {
                    None => Fired::Fails(self.action_error("unknown obstacle `"@ + object + "`"@)),
                    Some(k) => Fired::Leads(
                        RolloutView {
                            attachments: self.attachments.remove(i),
                            obstacles: posed(self.obstacles, k, p),
                            objects: jumped(
                                self.objects,
                                object,
                                p,
                                self.t,
                                TrackSpan::Hold { t0: self.t, t1: self.t, pose: p },
                            ),
                            ..self
                        },
                    ),
                },
            },
        }
    }

    /// Latching a robot onto a part.
    pub open spec fn fired_track(
        self,
        robot: Result<usize, Seq<char>>,
        object: Seq<char>,
        link: Option<Seq<char>>,
    ) -> Fired {
        match robot {
            Err(message) => Fired::Fails(self.action_error(message)),
            Ok(r) => {
                let model = self.scene.robots@[r as int];
                let index = match link {
                    Some(name) => find(names_of(model.links@), name),
                    None => Some(model.tool_mount_link as int),
                };
                match (index, body_index(self.obstacles, object)) {
                    (None, _) => Fired::Fails(
                        self.action_error("unknown link `"@ + link->0 + "`"@),
                    ),
                    (_, None) => Fired::Fails(
                        self.action_error("unknown obstacle `"@ + object + "`"@),
                    ),
                    (Some(l), Some(k)) => Fired::Leads(
                        self.with_robot(
                            r as int,
                            self.robots[r as int].latched(
                                object,
                                l as usize,
                                self.obstacles[k].pose,
                                self.current,
                            ),
                        ),
                    ),
                }
            },
        }
    }

    /// Dropping a robot's track.
    pub open spec fn fired_untrack(self, robot: Result<usize, Seq<char>>) -> Fired {
        match robot {
            Err(message) => Fired::Fails(self.action_error(message)),
            Ok(r) => Fired::Leads(self.with_robot(r as int, self.robots[r as int].released())),
        }
    }

    /// Writing a signal.
    pub open spec fn fired_set(self, signal: Seq<char>, value: bool) -> Fired {
        match find(self.lanes.names(), signal) {
            None => Fired::Fails(self.action_error("unknown signal `"@ + signal + "`"@)),
            Some(lane) => Fired::Leads(
                RolloutView { lanes: self.lanes.set(lane, self.t, value), ..self },
            ),
        }
    }
}

/// What attaching gave.
pub open spec fn grasp_view(grasp: Result<Attachment, String>) -> Result<Attachment, Seq<char>> {
    match grasp {
        Ok(a) => Ok(a),
        Err(message) => Err(message@),
    }
}

pub open spec fn pose_view(pose: Result<Pose, String>) -> Result<Pose, Seq<char>> {
    match pose {
        Ok(p) => Ok(p),
        Err(message) => Err(message@),
    }
}

impl<'a> Rollout<'a> {
    /// Attaches a body to a robot. `grasp` is what the kinematics made of it.
    pub fn fire_attach(
        &mut self,
        robot: Result<usize, String>,
        object: &str,
        grasp: Result<Attachment, String>,
    ) -> (r: Result<(), SeqError>)
        requires
            old(self)@.sound(),
            robot matches Ok(r) ==> r < old(self).robots@.len(),
            grasp matches Ok(a) ==> a.object@ == object@ && a.robot < old(self).robots@.len()
                && body_index(old(self).obstacles@, object@) is Some,
        ensures
            answers(
                r,
                final(self)@,
                old(self)@.fired_attach(resolved(robot), object@, grasp_view(grasp)),
            ),
            r is Ok ==> final(self)@.sound(),
            r is Err ==> final(self)@ == old(self)@,
    {
        let ghost before = self@;
        let r: usize = match robot {
            Ok(r) => r,
            Err(message) => {
                return Err(self.action_error(message));
            },
        };
        let a: Attachment = match grasp {
            Ok(a) => a,
            Err(message) => {
                return Err(self.action_error(message));
            },
        };
        let t: Pico = self.t;
        match find_body(&self.obstacles, object) {
            Some(k) => {
                let rest: Pose = self.obstacles[k].pose;
                self.objects.jump(
                    object,
                    rest,
                    t,
                    TrackSpan::Follow {
                        t0: t,
                        t1: t,
                        robot: a.robot,
                        link: a.link,
                        offset: a.grasp,
                    },
                );
            },
            None => {},
        }
        match find_named(&self.attachments, object) {
            Some(i) => {
                self.attachments.set(i, a);
            },
            None => {
                self.attachments.push(a);
            },
        }
        assert(before.robots[r as int] == self.robots@[r as int]@);
        self.robots[r].grasp(object);
        assert(self@.robots =~= before.robots.update(
            r as int,
            before.robots[r as int].grasping(object@),
        ));
        proof {
            lemma_kept_sound(before, self@);
        }
        Ok(())
    }

    /// Detaches a body. `pose` is where its carrier's kinematics left it.
    pub fn fire_detach(&mut self, object: &str, pose: Result<Pose, String>) -> (r: Result<
        (),
        SeqError,
    >)
        requires
            old(self)@.sound(),
        ensures
            answers(r, final(self)@, old(self)@.fired_detach(object@, pose_view(pose))),
            r is Ok ==> final(self)@.sound(),
            r is Err ==> final(self)@ == old(self)@,
    {
        let ghost before = self@;
        let i: usize = match find_named(&self.attachments, object) {
            Some(i) => i,
            None => {
                return Err(self.action_error(cat3("`", object, "` is not attached")));
            },
        };
        let p: Pose = match pose {
            Ok(p) => p,
            Err(message) => {
                return Err(self.action_error(message));
            },
        };
        let k: usize = match find_body(&self.obstacles, object) {
            Some(k) => k,
            None => {
                return Err(self.action_error(cat3("unknown obstacle `", object, "`")));
            },
        };
        let t: Pico = self.t;
        let _ = self.attachments.remove(i);
        set_obstacle_pose(&mut self.obstacles, k, p);
        self.objects.jump(object, p, t, TrackSpan::Hold { t0: t, t1: t, pose: p });
        proof {
            crate::scene::lemma_posed_names(before.obstacles, k as int, p);
            lemma_kept_sound(before, self@);
        }
        Ok(())
    }

    /// Latches a robot onto a part.
    pub fn fire_track(
        &mut self,
        robot: Result<usize, String>,
        object: &str,
        link: &Option<String>,
    ) -> (r: Result<(), SeqError>)
        requires
            old(self)@.sound(),
            robot matches Ok(r) ==> r < old(self).robots@.len(),
        ensures
            answers(
                r,
                final(self)@,
                old(self)@.fired_track(resolved(robot), object@, opt(*link)),
            ),
            r is Ok ==> final(self)@.sound(),
            r is Err ==> final(self)@ == old(self)@,
    {
        let ghost before = self@;
        let r: usize = match robot {
            Ok(r) => r,
            Err(message) => {
                return Err(self.action_error(message));
            },
        };
        let l: usize = match link {
            Some(name) => match find_named(&self.scene.robots[r].links, name.as_str()) {
                Some(l) => l,
                None => {
                    return Err(self.action_error(cat3("unknown link `", name.as_str(), "`")));
                },
            },
            // The wrist, not the fingertip: a pose says nothing about the
            // grip, so the solver must not be able to spend it.
            None => self.scene.robots[r].tool_mount_link,
        };
        let k: usize = match find_body(&self.obstacles, object) {
            Some(k) => k,
            None => {
                return Err(self.action_error(cat3("unknown obstacle `", object, "`")));
            },
        };
        let origin: Pose = self.obstacles[k].pose;
        let program: usize = self.current;
        assert(before.robots[r as int] == self.robots@[r as int]@);
        self.robots[r].latch(object, l, origin, program);
        assert(self@.robots =~= before.robots.update(
            r as int,
            before.robots[r as int].latched(object@, l, origin, program),
        ));
        proof {
            lemma_kept_sound(before, self@);
        }
        Ok(())
    }

    /// Drops a robot's track.
    pub fn fire_untrack(&mut self, robot: Result<usize, String>) -> (r: Result<(), SeqError>)
        requires
            old(self)@.sound(),
            robot matches Ok(r) ==> r < old(self).robots@.len(),
        ensures
            answers(r, final(self)@, old(self)@.fired_untrack(resolved(robot))),
            r is Ok ==> final(self)@.sound(),
            r is Err ==> final(self)@ == old(self)@,
    {
        let ghost before = self@;
        let r: usize = match robot {
            Ok(r) => r,
            Err(message) => {
                return Err(self.action_error(message));
            },
        };
        assert(before.robots[r as int] == self.robots@[r as int]@);
        self.robots[r].release_track();
        assert(self@.robots =~= before.robots.update(
            r as int,
            before.robots[r as int].released(),
        ));
        proof {
            lemma_kept_sound(before, self@);
        }
        Ok(())
    }

    /// Writes a signal.
    pub fn fire_set(&mut self, signal: &str, value: bool) -> (r: Result<(), SeqError>)
        requires
            old(self)@.sound(),
        ensures
            answers(r, final(self)@, old(self)@.fired_set(signal@, value)),
            r is Ok ==> final(self)@.sound(),
            r is Err ==> final(self)@ == old(self)@,
    {
        let ghost before = self@;
        let lane: usize = match self.lanes.lane_index(signal) {
            Some(lane) => lane,
            None => {
                return Err(self.action_error(cat3("unknown signal `", signal, "`")));
            },
        };
        let t: Pico = self.t;
        self.lanes.set_lane(lane, t, value);
        proof {
            lemma_kept_sound(before, self@);
        }
        Ok(())
    }
}

/// A signal that is set takes the level asked for, from that instant on, unless a
/// fault pins it; nothing else changes. A signal that no lane bears is an error.
/// `lane` is the first lane of that name.
pub proof fn law_a_signal_takes_the_level_it_is_set(
    v: RolloutView,
    signal: Seq<char>,
    value: bool,
    lane: int,
)
    ensures
        0 <= lane < v.lanes.tracks.len() && v.lanes.tracks[lane].name == signal && (forall|j: int|
            0 <= j < lane ==> (#[trigger] v.lanes.tracks[j]).name != signal) ==> (v.fired_set(
            signal,
            value,
        ) matches Fired::Leads(w) && w == (RolloutView {
            lanes: v.lanes.set(lane, v.t, value),
            ..v
        }) && (!v.lanes.pinned(lane) ==> crate::lanes::level(w.lanes.tracks[lane].edges) == value)),
        (forall|j: int| 0 <= j < v.lanes.tracks.len() ==> (#[trigger] v.lanes.tracks[j]).name
            != signal) ==> v.fired_set(signal, value) is Fails,
{
    let names = v.lanes.names();
    crate::names::lemma_find(names, signal, 0);
    if 0 <= lane < v.lanes.tracks.len() {
        assert(names[lane] == v.lanes.tracks[lane].name);
        if !v.lanes.pinned(lane) {
            crate::lanes::law_write_reads_back(v.lanes, lane, v.t, value);
        }
    }
    match find(names, signal) {
        Some(k) => {
            assert(names[k] == v.lanes.tracks[k].name);
        },
        None => {},
    }
}

/// A body that is attached is held from then on, as it was grasped, and no other grasp
/// changes; its track goes on following the robot's link. Where it is does not change
/// with that.
pub proof fn law_an_attached_body_is_held_and_followed(
    v: RolloutView,
    r: usize,
    object: Seq<char>,
    a: Attachment,
    i: int,
)
    requires
        a.object@ == object,
        r < v.robots.len(),
    ensures
        v.fired_attach(Ok(r), object, Ok(a)) matches Fired::Leads(w) && {
            &&& w.attachments.contains(a)
            &&& 0 <= i < v.attachments.len() && v.attachments[i].object@ != object
                ==> w.attachments.contains(v.attachments[i])
            &&& w.attachments.len() <= v.attachments.len() + 1
            &&& w.obstacles == v.obstacles
            &&& w.lanes == v.lanes
            &&& exists|n: int| #[trigger]
                crate::supply::ends_with(
                    w.objects,
                    object,
                    n,
                    TrackSpan::Follow {
                        t0: v.t,
                        t1: v.t,
                        robot: a.robot,
                        link: a.link,
                        offset: a.grasp,
                    },
                )
        },
{
    let after = v.fired_attach(Ok(r), object, Ok(a));
    let w = after->Leads_0;
    let names = names_of(v.attachments);
    crate::names::lemma_find(names, object, 0);
    match find(names, object) {
        Some(k) => {
            assert(names[k] == v.attachments[k].object@);
            assert(w.attachments[k] == a);
            if 0 <= i < v.attachments.len() && v.attachments[i].object@ != object {
                assert(w.attachments[i] == v.attachments[i]);
            }
        },
        None => {
            assert(w.attachments[v.attachments.len() as int] == a);
            if 0 <= i < v.attachments.len() {
                assert(w.attachments[i] == v.attachments[i]);
            }
        },
    }
    let rest = v.obstacles[body_index(v.obstacles, object)->0].pose;
    lemma_jump_ends(
        v.objects,
        object,
        rest,
        v.t,
        TrackSpan::Follow { t0: v.t, t1: v.t, robot: a.robot, link: a.link, offset: a.grasp },
    );
    assert(w.objects == jumped(
        v.objects,
        object,
        rest,
        v.t,
        TrackSpan::Follow { t0: v.t, t1: v.t, robot: a.robot, link: a.link, offset: a.grasp },
    ));
    assert(w.attachments == grasped(v.attachments, a));
}

pub proof fn lemma_jump_ends(
    tracks: Seq<crate::tracks::TrackView>,
    name: Seq<char>,
    rest: Pose,
    t: Pico,
    span: TrackSpan,
)
    ensures
        exists|n: int| #[trigger]
            crate::supply::ends_with(jumped(tracks, name, rest, t, span), name, n, span),
{
    let n = crate::tracks::open_index(tracks, name);
    let all = crate::tracks::track_names(tracks);
    crate::names::lemma_find(all, name, 0);
    match find(all, name) {
        Some(j) => {
            assert(all[j] == tracks[j].name);
        },
        None => {},
    }
    assert(crate::supply::ends_with(jumped(tracks, name, rest, t, span), name, n, span));
}

/// A body that is let go rests where it was let go: it is held no more, it is there,
/// and its track goes on at rest there. No other body moves and no other grasp
/// changes. What is not held cannot be let go. `i` is its first grasp and `k` the
/// first body of its name.
pub proof fn law_a_body_that_is_let_go_rests_there(
    v: RolloutView,
    object: Seq<char>,
    p: Pose,
    i: int,
    k: int,
)
    ensures
        (forall|j: int| 0 <= j < v.attachments.len() ==> (#[trigger] v.attachments[j]).object@
            != object) ==> v.fired_detach(object, Ok(p)) is Fails,
        0 <= i < v.attachments.len() && v.attachments[i].object@ == object && (forall|j: int|
            0 <= j < i ==> (#[trigger] v.attachments[j]).object@ != object) && 0 <= k
            < v.obstacles.len() && v.obstacles[k].name@ == object && (forall|j: int|
            0 <= j < k ==> (#[trigger] v.obstacles[j]).name@ != object) ==> (v.fired_detach(
            object,
            Ok(p),
        ) matches Fired::Leads(w) && {
            &&& w.attachments == v.attachments.remove(i)
            &&& w.obstacles == v.obstacles.update(
                k,
                crate::scene::Obstacle { pose: p, ..v.obstacles[k] },
            )
            &&& exists|n: int| #[trigger]
                crate::supply::ends_with(
                    w.objects,
                    object,
                    n,
                    TrackSpan::Hold { t0: v.t, t1: v.t, pose: p },
                )
        }),
{
    crate::names::law_a_name_stands_for_the_first(v.attachments, object, i);
    crate::names::law_a_name_stands_for_the_first(v.obstacles, object, k);
    lemma_jump_ends(v.objects, object, p, v.t, TrackSpan::Hold { t0: v.t, t1: v.t, pose: p });
    if 0 <= i < v.attachments.len() && v.attachments[i].object@ == object && (forall|j: int|
        0 <= j < i ==> (#[trigger] v.attachments[j]).object@ != object) && 0 <= k
        < v.obstacles.len() && v.obstacles[k].name@ == object && (forall|j: int|
        0 <= j < k ==> (#[trigger] v.obstacles[j]).name@ != object) {
        let w = v.fired_detach(object, Ok(p))->Leads_0;
        assert(w.objects == jumped(
            v.objects,
            object,
            p,
            v.t,
            TrackSpan::Hold { t0: v.t, t1: v.t, pose: p },
        ));
    }
}

/// A trajectory that a robot starts is what it is doing from then on, and it lasts as
/// long as the trajectory does: its move, and what the step waits for, end then. No
/// other robot and no other program is concerned.
pub proof fn law_a_trajectory_starts_now_and_lasts_its_length(
    v: RolloutView,
    r: int,
    name: Seq<char>,
    traj: TrajectoryView,
    planned: PlannedView,
    s: int,
    p: int,
)
    requires
        0 <= r < v.robots.len(),
        0 <= s < v.robots.len(),
        v.current < v.programs.len(),
        0 <= p < v.programs.len(),
        i64::MIN <= v.t + traj.duration <= i64::MAX,
    ensures
        ({
            let w = v.started_trajectory(r, name, traj, planned);
            let rt = w.robots[r];
            let c = v.current as int;
            &&& rt.active == Some(ActiveView::Traj { start: v.t, traj })
            &&& rt.q == v.robots[r].q
            &&& rt.moves.len() == v.robots[r].moves.len() + 1
            &&& rt.moves.last().name == name
            &&& rt.moves.last().start == v.t
            &&& rt.moves.last().end == v.t + traj.duration
            &&& rt.planned == v.robots[r].planned.push(planned)
            &&& s != r ==> w.robots[s] == v.robots[s]
            &&& w.programs[c].move_ends == v.programs[c].move_ends.push((v.t + traj.duration) as i64)
            &&& p != c ==> w.programs[p] == v.programs[p]
            &&& w.lanes == v.lanes
            &&& w.obstacles == v.obstacles
        }),
{
}

/// A motion that is not there, and one of a robot whose vehicle is driving, is not
/// started; one that cannot be planned fails; any other starts. `m` is the first
/// motion of that name.
pub proof fn law_no_motion_starts_on_a_driving_vehicle(
    v: RolloutView,
    motion: Seq<char>,
    plan: Result<MotionPlanView, Seq<char>>,
    m: int,
)
    requires
        0 <= m < v.scene.motions@.len() ==> v.scene.motions@[m].robot < v.robots.len(),
    ensures
        (forall|j: int| 0 <= j < v.scene.motions@.len() ==> (#[trigger] v.scene.motions@[j]).name@
            != motion) ==> v.fired_motion(motion, plan) is Fails,
        0 <= m < v.scene.motions@.len() && v.scene.motions@[m].name@ == motion && (forall|j: int|
            0 <= j < m ==> (#[trigger] v.scene.motions@[j]).name@ != motion) ==> {
            let robot = v.scene.motions@[m].robot as int;
            let rolls = v.scene.robots@[robot].mount matches Some(mount) && exists|d: int|
                0 <= d < v.devices.len() && (#[trigger] v.devices[d]).name@ == mount.device@ && (
                v.devices[d].state matches crate::devices::StateView::Vehicle(car)
                    && car.legs.len() > 0);
            &&& rolls || plan is Err ==> v.fired_motion(motion, plan) is Fails
            &&& !rolls && plan is Ok ==> (v.fired_motion(motion, plan) matches Fired::Leads(w)
                && w == v.started_trajectory(
                robot,
                motion,
                (plan->Ok_0).trajectory,
                w.robots[robot].planned.last(),
            ))
        },
{
    crate::names::law_a_name_stands_for_the_first(v.scene.motions@, motion, m);
    if 0 <= m < v.scene.motions@.len() && v.scene.motions@[m].name@ == motion && (forall|j: int|
        0 <= j < m ==> (#[trigger] v.scene.motions@[j]).name@ != motion) {
        let robot = v.scene.motions@[m].robot as int;
        match v.scene.robots@[robot].mount {
            Some(mount) => {
                let name = mount.device@;
                if driving(v.devices, name) {
                    let d = choose|d: int|
                        0 <= d < v.devices.len() && (#[trigger] v.devices[d]).name@ == name
                            && v.devices[d].state.travelling();
                    assert(v.devices[d].name@ == name);
                }
            },
            None => {},
        }
    }
}

/// A ramp leads every joint that it names to the last value that it gives for it, and
/// leaves every other one where it is meant to be. `qi` is any joint, `i` the last
/// target that drives it.
pub proof fn law_a_ramp_leads_where_its_targets_say(
    robot: Robot,
    q: Seq<Pico>,
    targets: Seq<(String, Pico)>,
    qi: int,
    i: int,
)
    requires
        0 <= qi < q.len(),
        forall|k: int|
            0 <= k < targets.len() ==> 0 <= drives(robot, (#[trigger] targets[k]).0@) < q.len(),
    ensures
        ramp_goal(robot, q, targets).len() == q.len(),
        (forall|k: int| 0 <= k < targets.len() ==> drives(robot, (#[trigger] targets[k]).0@) != qi)
            ==> ramp_goal(robot, q, targets)[qi] == q[qi],
        0 <= i < targets.len() && drives(robot, targets[i].0@) == qi && (forall|k: int|
            i < k < targets.len() ==> drives(robot, (#[trigger] targets[k]).0@) != qi) ==> ramp_goal(
            robot,
            q,
            targets,
        )[qi] == targets[i].1,
    decreases targets.len(),
{
    if targets.len() > 0 {
        let less = targets.drop_last();
        let n = targets.len() - 1;
        assert forall|k: int| 0 <= k < less.len() implies 0 <= drives(
            robot,
            (#[trigger] less[k]).0@,
        ) < q.len() by {
            assert(less[k] == targets[k]);
        }
        law_a_ramp_leads_where_its_targets_say(robot, q, less, qi, i);
        assert(targets.last() == targets[n]);
        let here = drives(robot, targets[n].0@);
        assert(ramp_goal(robot, q, targets) == ramp_goal(robot, q, less).update(
            here,
            targets[n].1,
        ));
        if forall|k: int| 0 <= k < targets.len() ==> drives(robot, (#[trigger] targets[k]).0@) != qi {
            assert forall|k: int| 0 <= k < less.len() implies drives(robot, (#[trigger] less[k]).0@)
                != qi by {
                assert(less[k] == targets[k]);
            }
        }
        if 0 <= i < n && drives(robot, targets[i].0@) == qi && (forall|k: int|
            i < k < targets.len() ==> drives(robot, (#[trigger] targets[k]).0@) != qi) {
            assert(less[i] == targets[i]);
            assert forall|k: int| i < k < less.len() implies drives(robot, (#[trigger] less[k]).0@)
                != qi by {
                assert(less[k] == targets[k]);
            }
        }
    }
}

/// The place among the actuated joints that a joint's name drives.
pub open spec fn drives(robot: Robot, joint: Seq<char>) -> int {
    robot.joints@[find(names_of(robot.joints@), joint)->0].q_index->0 as int
}

/// A ramp refuses a joint that is not there, one that is not actuated, and one that a
/// walk in progress drives; it takes any other. `j` is the first joint of that name.
pub proof fn law_a_ramp_takes_the_joints_that_are_free(
    robot: Robot,
    rt: RobotView,
    joint: Seq<char>,
    j: int,
)
    ensures
        (forall|k: int| 0 <= k < robot.joints@.len() ==> (#[trigger] robot.joints@[k]).name@
            != joint) ==> ramp_refusal(robot, rt, joint) is Some,
        0 <= j < robot.joints@.len() && robot.joints@[j].name@ == joint && (forall|k: int|
            0 <= k < j ==> (#[trigger] robot.joints@[k]).name@ != joint) ==> (ramp_refusal(
            robot,
            rt,
            joint,
        ) is None <==> (robot.joints@[j].q_index matches Some(qi) && !((rt.gait matches Some(g)
            && (g.plan matches Some(plan) && exists|k: int|
            0 <= k < plan.owned.len() && #[trigger] plan.owned[k] == qi))))),
{
    crate::names::law_a_name_stands_for_the_first(robot.joints@, joint, j);
    if 0 <= j < robot.joints@.len() && robot.joints@[j].q_index is Some {
        let qi = robot.joints@[j].q_index->0;
        let owned = rt.owned();
        if owned.contains(qi) {
            let k = choose|k: int| 0 <= k < owned.len() && owned[k] == qi;
            assert(owned[k] == qi);
        }
    }
}

/// A ramp that a robot starts goes from where its joints are meant to be to the goal,
/// from then on, for as long as it is given; its move, and what the step waits for, end
/// with it.
pub proof fn law_a_ramp_starts_now_and_lasts_its_length(
    v: RolloutView,
    r: int,
    goal: Seq<Pico>,
    duration: Pico,
    s: int,
)
    requires
        0 <= r < v.robots.len(),
        0 <= s < v.robots.len(),
        v.current < v.programs.len(),
        i64::MIN <= v.t + duration <= i64::MAX,
    ensures
        ({
            let w = v.started_ramp(r, goal, duration);
            let rt = w.robots[r];
            let before = v.robots[r];
            let c = v.current as int;
            let end = (v.t + duration) as i64;
            let walks = before.gait matches Some(g) && g.plan is Some;
            &&& rt.active == Some(
                ActiveView::Ramp { start: v.t, duration, from: before.q_nom, to: goal },
            )
            &&& rt.moves.len() == before.moves.len() + 1
            &&& rt.moves.last().start == v.t
            &&& rt.moves.last().end == end
            &&& w.programs[c].move_ends == v.programs[c].move_ends.push(end)
            &&& before.tracking is Some || walks ==> rt.bake == before.bake
            &&& before.tracking is None && !walks && (before.bake.len() == 0 || end
                - before.bake[before.bake.len() - 1].t > 1_000) ==> rt.bake.len()
                == before.bake.len() + 1 && rt.bake.last().t == end && rt.bake.last().q == goal
            &&& s != r ==> w.robots[s] == v.robots[s]
        }),
{
}

/// A robot that latches onto a part goes on from where it is; the track remembers where
/// the part was, and which program latched it. One that lets go keeps where it is.
pub proof fn law_a_track_starts_from_where_things_are(
    v: RolloutView,
    r: usize,
    object: Seq<char>,
    k: int,
)
    requires
        r < v.robots.len(),
        0 <= k < v.obstacles.len(),
        v.obstacles[k].name@ == object,
        forall|j: int| 0 <= j < k ==> (#[trigger] v.obstacles[j]).name@ != object,
    ensures
        v.fired_track(Ok(r), object, None) matches Fired::Leads(w) && {
            let rt = w.robots[r as int];
            &&& rt.tracking matches Some(latch) && latch.object == object && latch.origin
                == v.obstacles[k].pose && !latch.frozen && latch.program == v.current && latch.link
                == v.scene.robots@[r as int].tool_mount_link
            &&& rt.q == v.robots[r as int].q
            &&& rt.q_nom == rt.q
            &&& rt.q_nom_prev == rt.q
        },
        v.fired_untrack(Ok(r)) matches Fired::Leads(w) && {
            let rt = w.robots[r as int];
            &&& rt.tracking is None
            &&& rt.q == v.robots[r as int].q
            &&& rt.q_nom == rt.q
        },
{
    crate::names::law_a_name_stands_for_the_first(v.obstacles, object, k);
}

/// A robot approaches a toolpath's start where it stands more than 10^-6 away from it:
/// the squares of its joints' ways, each taken once, make more than that squared.
pub proof fn law_a_way_adds_up_joint_by_joint(a: Seq<Pico>, b: Seq<Pico>, n: nat)
    requires
        n < a.len(),
        n < b.len(),
        a.len() == b.len(),
    ensures
        distance_square(a, b, 0) == 0,
        distance_square(a, b, n + 1) == distance_square(a, b, n) + (a[n as int] - b[n as int]) * (
        a[n as int] - b[n as int]),
        stands_off(a, b) <==> distance_square(a, b, a.len()) > 1_000_000_000_000,
{
    assert(MICRO * MICRO == 1_000_000_000_000) by (nonlinear_arith)
        requires
            MICRO == 1_000_000i64,
    ;
}

/// A toolpath is told as straight pieces from sample to sample, each at the speed that
/// its sample feeds at, or the rapid one where it has none.
pub proof fn law_a_toolpath_goes_from_sample_to_sample(
    plan: ToolpathView,
    rapid: Option<Pico>,
    n: nat,
    i: int,
)
    requires
        0 <= i < n,
    ensures
        ({
            let segments = path_segments(plan, rapid, n);
            &&& segments.len() == n
            &&& segments[i].kind is CartesianLine
            &&& segments[i].waypoints.len() == 2
            &&& segments[i].waypoints[0] == plan.path[i]
            &&& segments[i].waypoints[1] == plan.path[i + 1]
            &&& plan.samples[i + 1].feed is Some ==> segments[i].tcp_speed
                == plan.samples[i + 1].feed
            &&& plan.samples[i + 1].feed is None ==> segments[i].tcp_speed == rapid
        }),
    decreases n,
{
    if i < n - 1 {
        law_a_toolpath_goes_from_sample_to_sample(plan, rapid, (n - 1) as nat, i);
    } else if n > 1 {
        law_a_toolpath_goes_from_sample_to_sample(plan, rapid, (n - 1) as nat, 0);
    }
}

/// A sample adds to what is sprayed where its move sprays, and the time into it alone:
/// it lengthens the last stroke where that ended less than 10^-9 s away and had the
/// same brush, and is a stroke of its own otherwise.
pub proof fn law_a_stroke_lasts_from_sample_to_sample(
    def: Toolpath,
    plan: ToolpathView,
    offset: Pico,
    n: nat,
)
    requires
        n >= 2,
        i64::MIN <= offset + plan.sample_times[n - 2] <= i64::MAX,
        i64::MIN <= offset + plan.sample_times[n - 1] <= i64::MAX,
    ensures
        ({
            let before = strokes(def, plan, offset, (n - 1) as nat);
            let now = strokes(def, plan, offset, n);
            let m = def.moves@[plan.samples[n - 1].move_index as int];
            let a = offset + plan.sample_times[n - 2];
            let b = offset + plan.sample_times[n - 1];
            let last = before[before.len() - 1];
            let goes_on = before.len() > 0 && -1_000 < last.end - a < 1_000 && last.brush == opt(
                m.brush,
            );
            &&& !m.sprays ==> now == before
            &&& m.sprays && goes_on ==> now == before.update(
                before.len() - 1,
                ProcessView { end: b as i64, ..last },
            )
            &&& m.sprays && !goes_on ==> now == before.push(
                ProcessView { start: a as i64, end: b as i64, brush: opt(m.brush) },
            )
            &&& strokes(def, plan, offset, 1).len() == 0
        }),
{
}

/// A toolpath that is started is refused on a driving vehicle, fails where it cannot be
/// planned or approached, and is approached first where the robot stands off its start;
/// what sprays then starts that much later.
pub proof fn law_a_toolpath_is_approached_first(
    v: RolloutView,
    r: usize,
    toolpath: Seq<char>,
    p: ToolpathView,
    a: ApproachView,
    rapid: Option<Pico>,
)
    requires
        r < v.robots.len(),
        v.driven_under(r as int) is None,
        i64::MIN <= a.trajectory.duration - p.trajectory.duration <= i64::MAX,
        i64::MIN <= v.t + (a.trajectory.duration - p.trajectory.duration) <= i64::MAX,
    ensures
        ({
            let off = stands_off(v.robots[r as int].q, p.path[0]);
            let with = v.fired_toolpath(Ok(r), toolpath, Ok(p), Some(Ok(a)), rapid);
            let plain = v.fired_toolpath(Ok(r), toolpath, Ok(p), None, rapid);
            &&& off ==> (with matches Fired::Leads(w) && {
                let m = w.robots[r as int].planned.last();
                &&& w.robots[r as int].active == Some(
                    ActiveView::Traj { start: v.t, traj: a.trajectory },
                )
                &&& m.duration == a.trajectory.duration
                &&& m.segments.len() == 1 + path_segments(p, rapid, intervals(p)).len()
                &&& m.segments[0].kind is Joint
                &&& m.segments[0].waypoints == a.path
                &&& m.process_spans == sprayed(
                    v.scene.toolpaths@,
                    toolpath,
                    p,
                    (v.t + (a.trajectory.duration - p.trajectory.duration)) as i64,
                )
                &&& m.feed_report == Some(p.feed_report)
            })
            &&& !off ==> (plain matches Fired::Leads(w) && {
                let m = w.robots[r as int].planned.last();
                &&& w.robots[r as int].active == Some(
                    ActiveView::Traj { start: v.t, traj: p.trajectory },
                )
                &&& m.segments == path_segments(p, rapid, intervals(p))
                &&& m.process_spans == sprayed(v.scene.toolpaths@, toolpath, p, v.t)
            })
        }),
{
    let none = Seq::<SegmentView>::empty();
    let path = path_segments(p, rapid, intervals(p));
    assert(none + path =~= path);
}

/// A ramp starts where no target is refused, and leads where its targets say; else it
/// fails on the first that is.
pub proof fn law_a_ramp_starts_where_every_target_is_taken(
    v: RolloutView,
    r: usize,
    targets: Seq<(String, Pico)>,
    duration: Pico,
)
    ensures
        ({
            let model = v.scene.robots@[r as int];
            let rt = v.robots[r as int];
            let taken = forall|i: int|
                0 <= i < targets.len() ==> ramp_refusal(model, rt, (#[trigger] targets[i]).0@)
                    is None;
            &&& taken ==> v.fired_ramp(Ok(r), targets, duration) == Fired::Leads(
                v.started_ramp(r as int, ramp_goal(model, rt.q_nom, targets), duration),
            )
            &&& !taken ==> v.fired_ramp(Ok(r), targets, duration) is Fails
        }),
{
    lemma_ramp_fault(v.scene.robots@[r as int], v.robots[r as int], targets, 0);
}

proof fn lemma_ramp_fault(robot: Robot, rt: RobotView, targets: Seq<(String, Pico)>, from: int)
    requires
        0 <= from,
    ensures
        ramp_fault(robot, rt, targets, from) is None <==> forall|i: int|
            from <= i < targets.len() ==> ramp_refusal(robot, rt, (#[trigger] targets[i]).0@)
                is None,
    decreases targets.len() - from,
{
    if from < targets.len() {
        let here = targets[from];
        lemma_ramp_fault(robot, rt, targets, from + 1);
    }
}

/// A planned toolpath has an interval between each two samples that have a configuration.
pub proof fn law_a_toolpath_has_an_interval_between_samples(plan: ToolpathView)
    requires
        plan.path.len() > 0,
        plan.samples.len() == plan.path.len(),
    ensures
        intervals(plan) == plan.path.len() - 1,
{
}

} // verus!
