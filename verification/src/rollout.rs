//! The scan engine: programs advancing over one shared world.

use vstd::prelude::*;

use crate::devices::{device_done, is_device_done, Device, DeviceView, StateView};
use crate::error::{named_levels, ErrorView, SeqError};
use crate::fixed::{Pico, Pose, NANO};
use crate::flat::{flat_views, FlatStep, FlatView};
use crate::lanes::{Lanes, LanesView};
use crate::names::{find, find_named, names_of};
use crate::robots::{RobotRuntime, RobotView};
use crate::scene::{Attachment, Obstacle, Scene};
use crate::sensors::{SensorRuntime, SensorView};
use crate::seq::{Action, Condition, Sequence};
use crate::text::{cat3, join, joined, texts};
use crate::timeline::{BranchTaken, BranchView, StepSpan, StepSpanView};
use crate::tracks::{TrackView, Tracks};
use crate::views::views;

verus! {

/// How a rollout is run.
#[derive(Clone, Copy, Debug, PartialEq, Eq, Structural)]
pub struct RolloutOptions {
    /// The scan period: transition timing quantizes to it.
    pub dt: Pico,
    /// Waits beyond it are authoring errors.
    pub max_duration: Pico,
    /// Instantaneous steps allowed within one scan.
    pub immediate_chain_limit: usize,
}

impl Default for RolloutOptions {
    fn default() -> (r: RolloutOptions)
        ensures
            r.dt == 10_000_000_000,
            r.max_duration == 120_000_000_000_000,
            r.immediate_chain_limit == 64,
    {
        RolloutOptions {
            dt: 10_000_000_000,
            max_duration: 120_000_000_000_000,
            immediate_chain_limit: 64,
        }
    }
}

/// One program's cursor. Several of these advancing over one world is what
/// running sequences in parallel means.
pub struct Program<'a> {
    pub sequence: &'a Sequence,
    pub flat: Vec<FlatStep<'a>>,
    pub step: usize,
    pub entered_at: Pico,
    /// When the moves that the active step started end.
    pub move_ends: Vec<Pico>,
    /// The active step's entry in the list of step spans.
    pub open_span: usize,
    /// Every lane's level as of this program's previous scan.
    pub prev_signals: Vec<bool>,
}

#[verifier::ext_equal]
pub struct ProgramView {
    pub sequence: Sequence,
    pub flat: Seq<FlatView>,
    pub step: usize,
    pub entered_at: Pico,
    pub move_ends: Seq<Pico>,
    pub open_span: usize,
    pub prev_signals: Seq<bool>,
}

impl<'a> View for Program<'a> {
    type V = ProgramView;

    open spec fn view(&self) -> ProgramView {
        ProgramView {
            sequence: *self.sequence,
            flat: flat_views(self.flat@),
            step: self.step,
            entered_at: self.entered_at,
            move_ends: self.move_ends@,
            open_span: self.open_span,
            prev_signals: self.prev_signals@,
        }
    }
}

impl ProgramView {
    pub open spec fn finished(self) -> bool {
        self.step >= self.flat.len()
    }

    /// The name of a step, as authored.
    pub open spec fn step_name(self, index: int) -> Seq<char> {
        if 0 <= index < self.flat.len() {
            self.flat[index].step.name@
        } else {
            Seq::empty()
        }
    }

    /// A program that is compiled: its steps have their exits, and every exit
    /// leads forward.
    pub open spec fn compiled(self) -> bool {
        &&& self.flat.len() <= usize::MAX
        &&& forall|i: int| 0 <= i < self.flat.len() ==> (#[trigger] self.flat[i]).formed()
        &&& crate::flat::forward_only(self.flat, 0, self.flat.len() as int)
    }
}

impl<'a> Program<'a> {
    pub fn finished(&self) -> (r: bool)
        ensures
            r == self@.finished(),
    {
        self.step >= self.flat.len()
    }
}

/// The vehicles that moved in a tick, each with what it carries.
#[derive(Debug)]
pub struct Moving {
    pub vehicle: String,
    pub carried: Vec<String>,
}

#[verifier::ext_equal]
pub struct MovingView {
    pub vehicle: String,
    pub carried: Seq<String>,
}

impl View for Moving {
    type V = MovingView;

    open spec fn view(&self) -> MovingView {
        MovingView { vehicle: self.vehicle, carried: self.carried@ }
    }
}

/// A rollout in progress.
pub struct Rollout<'a> {
    /// What is authored.
    pub scene: &'a Scene,
    pub options: RolloutOptions,
    /// The programs, in scan order: every tick each gets one transition scan,
    /// first to last, so a signal written by an earlier program is seen by a
    /// later one in the same tick.
    pub programs: Vec<Program<'a>>,
    /// The program being scanned.
    pub current: usize,
    pub t: Pico,
    /// The bodies as they stand. Where one is that a robot holds, the robot's
    /// kinematics say.
    pub obstacles: Vec<Obstacle>,
    pub attachments: Vec<Attachment>,
    /// Where each robot's base is.
    pub bases: Vec<Pose>,
    pub robots: Vec<RobotRuntime>,
    pub sensors: Vec<SensorRuntime>,
    pub devices: Vec<Device>,
    pub lanes: Lanes,
    /// The vehicles that moved this tick.
    pub moving: Vec<Moving>,
    pub objects: Tracks,
    pub vehicles: Tracks,
    pub step_spans: Vec<StepSpan>,
    pub branches: Vec<BranchTaken>,
}

#[verifier::ext_equal]
pub struct RolloutView {
    pub scene: Scene,
    pub options: RolloutOptions,
    pub programs: Seq<ProgramView>,
    pub current: usize,
    pub t: Pico,
    pub obstacles: Seq<Obstacle>,
    pub attachments: Seq<Attachment>,
    pub bases: Seq<Pose>,
    pub robots: Seq<RobotView>,
    pub sensors: Seq<SensorView>,
    pub devices: Seq<DeviceView>,
    pub lanes: LanesView,
    pub moving: Seq<MovingView>,
    pub objects: Seq<TrackView>,
    pub vehicles: Seq<TrackView>,
    pub step_spans: Seq<StepSpanView>,
    pub branches: Seq<BranchView>,
}

impl<'a> View for Rollout<'a> {
    type V = RolloutView;

    open spec fn view(&self) -> RolloutView {
        RolloutView {
            scene: *self.scene,
            options: self.options,
            programs: views(self.programs@),
            current: self.current,
            t: self.t,
            obstacles: self.obstacles@,
            attachments: self.attachments@,
            bases: self.bases@,
            robots: views(self.robots@),
            sensors: views(self.sensors@),
            devices: views(self.devices@),
            lanes: self.lanes@,
            moving: views(self.moving@),
            objects: self.objects@,
            vehicles: self.vehicles@,
            step_spans: views(self.step_spans@),
            branches: views(self.branches@),
        }
    }
}

/// What a program's conditions are judged by.
#[verifier::ext_equal]
pub struct Scan {
    pub t: Pico,
    pub entered_at: Pico,
    pub move_ends: Seq<Pico>,
    pub prev: Seq<bool>,
    pub lanes: LanesView,
    pub robot_names: Seq<Seq<char>>,
    /// Which robots have no move in flight.
    pub idle: Seq<bool>,
    pub devices: Seq<DeviceView>,
}

impl Scan {
    /// A lane's level as of the previous scan; low for a lane not seen then.
    pub open spec fn before(self, lane: int) -> bool {
        0 <= lane < self.prev.len() && self.prev[lane]
    }

    pub open spec fn now(self, lane: int) -> bool {
        crate::lanes::level(self.lanes.tracks[lane].edges)
    }
}

/// Whether a condition holds. An edge compares with this program's own
/// previous scan.
pub open spec fn holds(condition: Condition, scan: Scan) -> bool
    decreases condition,
{
    match condition {
        Condition::Immediately => true,
        Condition::Done => forall|i: int|
            0 <= i < scan.move_ends.len() ==> scan.t >= (#[trigger] scan.move_ends[i]) - NANO,
        Condition::RobotDone { robot } => match find(scan.robot_names, robot@) {
            Some(r) => scan.idle[r],
            None => true,
        },
        Condition::Elapsed { seconds } => scan.t - scan.entered_at >= seconds - NANO,
        Condition::Signal { name, value } => scan.lanes.level_of(name@) == value,
        Condition::Rising { name } => match find(scan.lanes.names(), name@) {
            Some(lane) => !scan.before(lane) && scan.now(lane),
            None => false,
        },
        Condition::Falling { name } => match find(scan.lanes.names(), name@) {
            Some(lane) => scan.before(lane) && !scan.now(lane),
            None => false,
        },
        Condition::DeviceDone { device } => device_done(scan.devices, device@),
        Condition::All(cs) => all_hold(cs@, scan),
        Condition::Any(cs) => any_holds(cs@, scan),
    }
}

pub open spec fn all_hold(conditions: Seq<Condition>, scan: Scan) -> bool
    decreases conditions,
{
    conditions.len() == 0 || (holds(conditions[0], scan) && all_hold(
        conditions.drop_first(),
        scan,
    ))
}

pub open spec fn any_holds(conditions: Seq<Condition>, scan: Scan) -> bool
    decreases conditions,
{
    conditions.len() > 0 && (holds(conditions[0], scan) || any_holds(
        conditions.drop_first(),
        scan,
    ))
}

/// The first exit of a step, from `from` on, whose condition holds.
pub open spec fn ready_exit(step: FlatView, scan: Scan, from: int) -> Option<int>
    decreases step.exits.len() - from,
{
    if from < 0 || from >= step.exits.len() {
        None
    } else if holds(step.condition(from), scan) {
        Some(from)
    } else {
        ready_exit(step, scan, from + 1)
    }
}

impl RolloutView {
    /// What the current program's conditions are judged by.
    pub open spec fn scan(self) -> Scan {
        let p = self.programs[self.current as int];
        Scan {
            t: self.t,
            entered_at: p.entered_at,
            move_ends: p.move_ends,
            prev: p.prev_signals,
            lanes: self.lanes,
            robot_names: names_of(self.scene.robots@),
            idle: Seq::new(self.robots.len(), |r: int| self.robots[r].active is None),
            devices: self.devices,
        }
    }

    /// A step's display name, qualified by its program where several run.
    pub open spec fn step_name_in(self, program: int, index: int) -> Seq<char> {
        let p = self.programs[program];
        if self.programs.len() == 1 {
            p.step_name(index)
        } else {
            p.sequence.name@ + "/"@ + p.step_name(index)
        }
    }

    /// The display name of the current program's step.
    pub open spec fn cur_step_name(self) -> Seq<char> {
        self.step_name_in(self.current as int, self.programs[self.current as int].step as int)
    }

    pub open spec fn cur_step(self) -> usize {
        self.programs[self.current as int].step
    }

    /// The name of the sequence being scanned.
    pub open spec fn cur_sequence(self) -> Seq<char> {
        self.programs[self.current as int].sequence.name@
    }

    pub open spec fn finished(self) -> bool {
        forall|p: int| 0 <= p < self.programs.len() ==> (#[trigger] self.programs[p]).finished()
    }

    /// An error in the current step.
    pub open spec fn action_error(self, message: Seq<char>) -> ErrorView {
        ErrorView::Action { step: self.cur_step(), name: self.cur_step_name(), message }
    }

    /// A planning failure in the current step.
    pub open spec fn plan_error(self, message: Seq<char>) -> ErrorView {
        ErrorView::PlanFailed { step: self.cur_step(), name: self.cur_step_name(), message }
    }

    /// The pinned lanes, by name.
    pub open spec fn forced_names(self) -> Seq<(Seq<char>, bool)> {
        Seq::new(
            self.lanes.forced.len(),
            |i: int|
                (
                    self.lanes.tracks[self.lanes.forced[i].0 as int].name,
                    self.lanes.forced[i].1,
                ),
        )
    }

    /// Where every unfinished program among the first `n` waits.
    pub open spec fn waiting(self, n: nat) -> Seq<Seq<char>>
        decreases n,
    {
        if n == 0 {
            Seq::empty()
        } else if self.programs[n - 1].finished() {
            self.waiting((n - 1) as nat)
        } else {
            self.waiting((n - 1) as nat).push(
                self.step_name_in(n - 1, self.programs[n - 1].step as int),
            )
        }
    }

    /// The timeout: it names where every unfinished program is stuck.
    pub open spec fn timeout(self) -> ErrorView {
        if self.programs.len() == 1 {
            ErrorView::Timeout {
                step: self.programs[0].step,
                name: self.step_name_in(0, self.programs[0].step as int),
                limit: self.options.max_duration,
                forced: self.forced_names(),
            }
        } else {
            ErrorView::ProgramsTimeout {
                at: joined(self.waiting(self.programs.len()), ", "@),
                limit: self.options.max_duration,
                forced: self.forced_names(),
            }
        }
    }

    /// The program's scan closed: it compares next time with the lanes as
    /// they stand now.
    pub open spec fn closed_scan(self, program: int) -> RolloutView {
        RolloutView {
            programs: self.programs.update(
                program,
                ProgramView { prev_signals: self.lanes.levels(), ..self.programs[program] },
            ),
            ..self
        }
    }

    /// The current program enters its step: its clock starts and a span opens.
    pub open spec fn entered(self) -> RolloutView {
        let c = self.current as int;
        let p = self.programs[c];
        RolloutView {
            programs: self.programs.update(
                c,
                ProgramView {
                    entered_at: self.t,
                    move_ends: Seq::empty(),
                    open_span: self.step_spans.len() as usize,
                    ..p
                },
            ),
            step_spans: self.step_spans.push(
                StepSpanView {
                    name: self.cur_step_name(),
                    start: self.t,
                    end: self.t,
                    sequence: p.sequence.name@,
                    step: p.step,
                },
            ),
            ..self
        }
    }

    /// The current program leaves its step: its own span closes, and every
    /// robot's configuration is held up to now.
    pub open spec fn exited(self) -> RolloutView {
        let span = self.programs[self.current as int].open_span as int;
        RolloutView {
            step_spans: if span < self.step_spans.len() {
                self.step_spans.update(
                    span,
                    StepSpanView { end: self.t, ..self.step_spans[span] },
                )
            } else {
                self.step_spans
            },
            robots: Seq::new(self.robots.len(), |r: int| self.robots[r].held_at(self.t)),
            ..self
        }
    }

    /// Which exit the current program takes, if any.
    pub open spec fn ready(self) -> Option<int> {
        let p = self.programs[self.current as int];
        if p.finished() {
            None
        } else {
            ready_exit(p.flat[p.step as int], self.scan(), 0)
        }
    }

    /// The current program takes exit `j` of its step: a branch is recorded,
    /// the step is left, and the cursor moves on.
    pub open spec fn took(self, j: int) -> RolloutView {
        let c = self.current as int;
        let p = self.programs[c];
        let step = p.flat[p.step as int];
        let recorded = match step.select {
            Some(select) => RolloutView {
                branches: self.branches.push(
                    BranchView {
                        sequence: p.sequence.name@,
                        step: step.step.name@,
                        select: select as usize,
                        arm: j as usize,
                    },
                ),
                ..self
            },
            None => self,
        };
        let left = recorded.exited();
        RolloutView {
            programs: left.programs.update(
                c,
                ProgramView { step: step.exits[j] as usize, ..left.programs[c] },
            ),
            ..left
        }
    }

    /// The programs are there, compiled, and one of them is being scanned;
    /// there is a runtime for every robot.
    pub open spec fn scannable(self) -> bool {
        &&& self.current < self.programs.len()
        &&& forall|p: int| 0 <= p < self.programs.len() ==> (#[trigger] self.programs[p]).compiled()
        &&& self.robots.len() == self.scene.robots@.len()
        &&& forall|i: int|
            0 <= i < self.lanes.forced.len() ==> (#[trigger] self.lanes.forced[i]).0
                < self.lanes.tracks.len()
    }
}

impl<'a> Rollout<'a> {
    /// A step's display name, qualified by its program where several run.
    pub fn step_name_in(&self, program: usize, index: usize) -> (r: String)
        requires
            program < self.programs@.len(),
        ensures
            r@ == self@.step_name_in(program as int, index as int),
    {
        let p: &Program = &self.programs[program];
        assert(self@.programs[program as int] == p@);
        let step: String = if index < p.flat.len() {
            assert(p@.flat[index as int] == p.flat@[index as int]@);
            p.flat[index].step.name.clone()
        } else {
            let none: String = String::new();
            assert(none@ =~= Seq::<char>::empty());
            none
        };
        if self.programs.len() == 1 {
            step
        } else {
            cat3(p.sequence.name.as_str(), "/", step.as_str())
        }
    }

    /// The display name of the current program's step.
    pub fn cur_step_name(&self) -> (r: String)
        requires
            self.current < self.programs@.len(),
        ensures
            r@ == self@.cur_step_name(),
    {
        self.step_name_in(self.current, self.programs[self.current].step)
    }

    pub fn cur_step(&self) -> (r: usize)
        requires
            self.current < self.programs@.len(),
        ensures
            r == self@.cur_step(),
    {
        self.programs[self.current].step
    }

    /// Whether every program is through.
    pub fn finished(&self) -> (r: bool)
        ensures
            r == self@.finished(),
    {
        let mut i: usize = 0;
        while i < self.programs.len()
            invariant
                i <= self.programs.len(),
                forall|p: int| 0 <= p < i ==> (#[trigger] self@.programs[p]).finished(),
            decreases self.programs.len() - i,
        {
            assert(self@.programs[i as int] == self.programs@[i as int]@);
            if !self.programs[i].finished() {
                assert(!self@.programs[i as int].finished());
                return false;
            }
            i = i + 1;
        }
        true
    }

    /// An error in the current step.
    pub fn action_error(&self, message: String) -> (r: SeqError)
        requires
            self.current < self.programs@.len(),
        ensures
            r@ == self@.action_error(message@),
    {
        SeqError::Action { step: self.cur_step(), name: self.cur_step_name(), message }
    }

    /// A planning failure in the current step.
    pub fn plan_error(&self, message: String) -> (r: SeqError)
        requires
            self.current < self.programs@.len(),
        ensures
            r@ == self@.plan_error(message@),
    {
        SeqError::PlanFailed { step: self.cur_step(), name: self.cur_step_name(), message }
    }

    fn forced_list(&self) -> (r: Vec<(String, bool)>)
        requires
            forall|i: int|
                0 <= i < self.lanes.forced@.len() ==> (#[trigger] self.lanes.forced@[i]).0
                    < self.lanes.tracks@.len(),
        ensures
            named_levels(r@) == self@.forced_names(),
    {
        let mut out: Vec<(String, bool)> = Vec::new();
        let mut i: usize = 0;
        let ghost want = self@.forced_names();
        while i < self.lanes.forced.len()
            invariant
                i <= self.lanes.forced.len(),
                want == self@.forced_names(),
                forall|k: int|
                    0 <= k < self.lanes.forced@.len() ==> (#[trigger] self.lanes.forced@[k]).0
                        < self.lanes.tracks@.len(),
                named_levels(out@) == want.take(i as int),
            decreases self.lanes.forced.len() - i,
        {
            let (lane, value): (usize, bool) = self.lanes.forced[i];
            assert(self.lanes.forced@[i as int].0 < self.lanes.tracks@.len());
            let ghost before = named_levels(out@);
            out.push((self.lanes.tracks[lane].name.clone(), value));
            assert(named_levels(out@) =~= before.push(want[i as int]));
            i = i + 1;
            assert(named_levels(out@) =~= want.take(i as int));
        }
        assert(want.take(i as int) =~= want);
        out
    }

    /// The timeout error, naming where every unfinished program is stuck.
    pub fn timeout(&self) -> (r: SeqError)
        requires
            self@.scannable(),
        ensures
            r@ == self@.timeout(),
    {
        assert forall|i: int| 0 <= i < self.lanes.forced@.len() implies (
        #[trigger] self.lanes.forced@[i]).0 < self.lanes.tracks@.len() by {
            assert(self@.lanes.forced[i].0 < self@.lanes.tracks.len());
        }
        let forced: Vec<(String, bool)> = self.forced_list();
        if self.programs.len() == 1 {
            let step: usize = self.programs[0].step;
            return SeqError::Timeout {
                step,
                name: self.step_name_in(0, step),
                limit: self.options.max_duration,
                forced,
            };
        }
        let mut at: Vec<String> = Vec::new();
        let mut p: usize = 0;
        assert(texts(at@) =~= Seq::<Seq<char>>::empty());
        while p < self.programs.len()
            invariant
                p <= self.programs.len(),
                texts(at@) == self@.waiting(p as nat),
            decreases self.programs.len() - p,
        {
            assert(self@.programs[p as int] == self.programs@[p as int]@);
            if !self.programs[p].finished() {
                let ghost before = texts(at@);
                let name: String = self.step_name_in(p, self.programs[p].step);
                let ghost seen = name@;
                at.push(name);
                assert(texts(at@) =~= before.push(seen));
            }
            p = p + 1;
        }
        SeqError::ProgramsTimeout {
            at: join(&at, ", "),
            limit: self.options.max_duration,
            forced,
        }
    }

    /// A lane's level as of the current program's previous scan.
    pub fn prev_lane_value(&self, lane: usize) -> (r: bool)
        requires
            self.current < self.programs@.len(),
        ensures
            r == self@.scan().before(lane as int),
    {
        let p: &Program = &self.programs[self.current];
        assert(self@.programs[self.current as int] == p@);
        lane < p.prev_signals.len() && p.prev_signals[lane]
    }

    /// Whether a condition holds for the current program.
    pub fn condition_holds(&self, condition: &Condition) -> (r: bool)
        requires
            self.current < self.programs@.len(),
            self.robots@.len() == self.scene.robots@.len(),
        ensures
            r == holds(*condition, self@.scan()),
        decreases condition,
    {
        let ghost scan = self@.scan();
        match condition {
            Condition::Immediately => true,
            Condition::Done => {
                let p: &Program = &self.programs[self.current];
                assert(self@.programs[self.current as int] == p@);
                let mut i: usize = 0;
                while i < p.move_ends.len()
                    invariant
                        i <= p.move_ends.len(),
                        scan.move_ends == p.move_ends@,
                        scan.t == self.t,
                        scan == self@.scan(),
                        *condition == Condition::Done,
                        forall|k: int|
                            0 <= k < i ==> scan.t >= (#[trigger] scan.move_ends[k]) - NANO,
                    decreases p.move_ends.len() - i,
                {
                    if (self.t as i128) < p.move_ends[i] as i128 - NANO as i128 {
                        assert(scan.t < scan.move_ends[i as int] - NANO);
                        return false;
                    }
                    i = i + 1;
                }
                true
            },
            Condition::RobotDone { robot } => {
                match find_named(&self.scene.robots, robot.as_str()) {
                    Some(r) => {
                        assert(self@.robots[r as int] == self.robots@[r as int]@);
                        self.robots[r].active.is_none()
                    },
                    None => true,
                }
            },
            Condition::Elapsed { seconds } => {
                assert(self@.programs[self.current as int]
                    == self.programs@[self.current as int]@);
                self.t as i128 - self.programs[self.current].entered_at as i128 >= *seconds as i128
                    - NANO as i128
            },
            Condition::Signal { name, value } => {
                let level: bool = match self.lanes.lane_index(name.as_str()) {
                    Some(lane) => self.lanes.lane_value(lane),
                    None => false,
                };
                level == *value
            },
            Condition::Rising { name } => match self.lanes.lane_index(name.as_str()) {
                Some(lane) => !self.prev_lane_value(lane) && self.lanes.lane_value(lane),
                None => false,
            },
            Condition::Falling { name } => match self.lanes.lane_index(name.as_str()) {
                Some(lane) => self.prev_lane_value(lane) && !self.lanes.lane_value(lane),
                None => false,
            },
            Condition::DeviceDone { device } => is_device_done(&self.devices, device.as_str()),
            Condition::All(cs) => self.all_conditions_hold(cs),
            Condition::Any(cs) => self.any_condition_holds(cs),
        }
    }

    fn all_conditions_hold(&self, cs: &Vec<Condition>) -> (r: bool)
        requires
            self.current < self.programs@.len(),
            self.robots@.len() == self.scene.robots@.len(),
        ensures
            r == all_hold(cs@, self@.scan()),
        decreases cs,
    {
        let ghost scan = self@.scan();
        let mut i: usize = 0;
        assert(cs@.skip(0) =~= cs@);
        while i < cs.len()
            invariant
                i <= cs.len(),
                self.current < self.programs@.len(),
                self.robots@.len() == self.scene.robots@.len(),
                scan == self@.scan(),
                all_hold(cs@, scan) == all_hold(cs@.skip(i as int), scan),
            decreases cs.len() - i,
        {
            assert(cs@.skip(i as int)[0] == cs@[i as int]);
            assert(cs@.skip(i as int).drop_first() =~= cs@.skip(i + 1));
            if !self.condition_holds(&cs[i]) {
                return false;
            }
            i = i + 1;
        }
        true
    }

    fn any_condition_holds(&self, cs: &Vec<Condition>) -> (r: bool)
        requires
            self.current < self.programs@.len(),
            self.robots@.len() == self.scene.robots@.len(),
        ensures
            r == any_holds(cs@, self@.scan()),
        decreases cs,
    {
        let ghost scan = self@.scan();
        let mut i: usize = 0;
        assert(cs@.skip(0) =~= cs@);
        while i < cs.len()
            invariant
                i <= cs.len(),
                self.current < self.programs@.len(),
                self.robots@.len() == self.scene.robots@.len(),
                scan == self@.scan(),
                any_holds(cs@, scan) == any_holds(cs@.skip(i as int), scan),
            decreases cs.len() - i,
        {
            assert(cs@.skip(i as int)[0] == cs@[i as int]);
            assert(cs@.skip(i as int).drop_first() =~= cs@.skip(i + 1));
            if self.condition_holds(&cs[i]) {
                return true;
            }
            i = i + 1;
        }
        false
    }

    /// Closes a program's scan for its edge conditions.
    pub fn close_scan(&mut self, program: usize)
        requires
            program < old(self).programs@.len(),
        ensures
            final(self)@ == old(self)@.closed_scan(program as int),
    {
        let ghost before = self@;
        let snapshot: Vec<bool> = self.lanes.snapshot();
        self.programs[program].prev_signals = snapshot;
        assert(self@.programs =~= before.closed_scan(program as int).programs);
        assert(self@ =~= before.closed_scan(program as int));
    }

    /// The current program enters its step; its actions are fired one by one
    /// after this.
    pub fn enter_step(&mut self)
        requires
            old(self).current < old(self).programs@.len(),
        ensures
            final(self)@ == old(self)@.entered(),
    {
        let ghost before = self@;
        let name: String = self.cur_step_name();
        let c: usize = self.current;
        assert(before.programs[c as int] == self.programs@[c as int]@);
        let span: StepSpan = StepSpan {
            name,
            start: self.t,
            end: self.t,
            sequence: self.programs[c].sequence.name.clone(),
            step: self.programs[c].step,
        };
        let ghost seen = span@;
        self.programs[c].entered_at = self.t;
        self.programs[c].move_ends = Vec::new();
        self.programs[c].open_span = self.step_spans.len();
        self.step_spans.push(span);
        assert(self@.step_spans =~= before.step_spans.push(seen));
        assert(self@.programs =~= before.entered().programs);
        assert(self@ =~= before.entered());
    }

    /// The current program leaves its step.
    pub fn exit_step(&mut self)
        requires
            old(self).current < old(self).programs@.len(),
        ensures
            final(self)@ == old(self)@.exited(),
    {
        let ghost before = self@;
        let t: Pico = self.t;
        assert(before.programs[self.current as int] == self.programs@[self.current as int]@);
        let span: usize = self.programs[self.current].open_span;
        if span < self.step_spans.len() {
            self.step_spans[span].end = t;
        }
        assert(self@.step_spans =~= before.exited().step_spans);
        let ghost spans = self.step_spans;
        let mut r: usize = 0;
        while r < self.robots.len()
            invariant
                r <= self.robots@.len(),
                self.robots@.len() == before.robots.len(),
                t == before.t,
                self.scene == old(self).scene,
                self.options == old(self).options,
                self.programs == old(self).programs,
                self.current == old(self).current,
                self.t == old(self).t,
                self.obstacles == old(self).obstacles,
                self.attachments == old(self).attachments,
                self.bases == old(self).bases,
                self.sensors == old(self).sensors,
                self.devices == old(self).devices,
                self.lanes == old(self).lanes,
                self.moving == old(self).moving,
                self.objects == old(self).objects,
                self.vehicles == old(self).vehicles,
                self.branches == old(self).branches,
                self.step_spans == spans,
                before == old(self)@,
                forall|k: int|
                    0 <= k < r ==> (#[trigger] self.robots@[k])@ == before.robots[k].held_at(t),
                forall|k: int|
                    r <= k < before.robots.len() ==> (#[trigger] self.robots@[k])@
                        == before.robots[k],
            decreases self.robots.len() - r,
        {
            assert(self.robots@[r as int]@ == before.robots[r as int]);
            self.robots[r].hold(t);
            r = r + 1;
        }
        assert(self@.robots =~= before.exited().robots);
        assert(self@ =~= before.exited());
    }

    /// The first exit of the current step whose condition holds. Exits are
    /// tried in authored order.
    fn find_exit(&self) -> (r: Option<usize>)
        requires
            self@.scannable(),
        ensures
            crate::names::index_view(r) == self@.ready(),
            r matches Some(j) ==> ({
                let p = self@.programs[self.current as int];
                p.step < p.flat.len() && j < p.flat[p.step as int].exits.len()
            }),
    {
        let p: &Program = &self.programs[self.current];
        assert(self@.programs[self.current as int] == p@);
        if p.finished() {
            return None;
        }
        let step: &FlatStep = &p.flat[p.step];
        let ghost seen = p@.flat[p.step as int];
        assert(seen == step@);
        assert(seen.formed());
        let mut j: usize = 0;
        while j < step.exits.len()
            invariant
                j <= step.exits.len(),
                self@.scannable(),
                self@.programs[self.current as int] == p@,
                p@.step < p@.flat.len(),
                seen == p@.flat[p.step as int],
                seen == step@,
                seen.formed(),
                ready_exit(seen, self@.scan(), 0) == ready_exit(seen, self@.scan(), j as int),
            decreases step.exits.len() - j,
        {
            if self.condition_holds(step.condition(j)) {
                return Some(j);
            }
            j = j + 1;
        }
        None
    }

    /// The current program takes the first exit that holds, and moves its
    /// cursor; false where none holds.
    pub fn take_exit(&mut self) -> (r: bool)
        requires
            old(self)@.scannable(),
        ensures
            match old(self)@.ready() {
                Some(j) => r && final(self)@ == old(self)@.took(j),
                None => !r && final(self)@ == old(self)@,
            },
            final(self)@.scannable(),
    {
        let j: usize = match self.find_exit() {
            Some(j) => j,
            None => {
                return false;
            },
        };
        let ghost before = self@;
        let c: usize = self.current;
        assert(before.programs[c as int] == self.programs@[c as int]@);
        let p: &Program = &self.programs[c];
        let ghost pv = p@;
        assert(pv.flat[p.step as int] == p.flat@[p.step as int]@);
        let step: &FlatStep = &p.flat[p.step];
        let target: usize = step.exits[j];
        assert(step@.exits[j as int] == target);
        match step.select {
            Some(select) => {
                let taken: BranchTaken = BranchTaken {
                    sequence: p.sequence.name.clone(),
                    step: step.step.name.clone(),
                    select,
                    arm: j,
                };
                let ghost seen = taken@;
                self.branches.push(taken);
                assert(self@.branches =~= before.branches.push(seen));
            },
            None => {},
        }
        self.exit_step();
        let ghost left = self@;
        self.programs[c].step = target;
        assert(self@.programs =~= before.took(j as int).programs);
        assert(self@ =~= before.took(j as int));
        proof {
            assert forall|q: int| 0 <= q < self@.programs.len() implies (
            #[trigger] self@.programs[q]).compiled() by {
                assert(before.programs[q].compiled());
                assert(self@.programs[q].flat == before.programs[q].flat);
            }
        }
        true
    }
}

/// Of alternatives one that holds is enough, and without one none holds; of
/// conditions that are asked for together every one has to hold.
pub proof fn law_any_takes_one_and_all_takes_every_one(cs: Vec<Condition>, scan: Scan)
    ensures
        holds(Condition::Any(cs), scan) <==> exists|i: int|
            0 <= i < cs@.len() && #[trigger] holds(cs@[i], scan),
        holds(Condition::All(cs), scan) <==> forall|i: int|
            0 <= i < cs@.len() ==> #[trigger] holds(cs@[i], scan),
{
    lemma_any_holds(cs@, scan);
    lemma_all_hold(cs@, scan);
}

proof fn lemma_any_holds(cs: Seq<Condition>, scan: Scan)
    ensures
        any_holds(cs, scan) <==> exists|i: int| 0 <= i < cs.len() && #[trigger] holds(cs[i], scan),
    decreases cs,
{
    if cs.len() > 0 {
        let rest = cs.drop_first();
        lemma_any_holds(rest, scan);
        assert(any_holds(cs, scan) == (holds(cs[0], scan) || any_holds(rest, scan)));
        if holds(cs[0], scan) {
            assert(0 <= 0 < cs.len() && holds(cs[0], scan));
        }
        if exists|i: int| 0 <= i < rest.len() && #[trigger] holds(rest[i], scan) {
            let i = choose|i: int| 0 <= i < rest.len() && #[trigger] holds(rest[i], scan);
            assert(holds(cs[i + 1], scan));
        }
        if exists|i: int| 0 <= i < cs.len() && #[trigger] holds(cs[i], scan) {
            let i = choose|i: int| 0 <= i < cs.len() && #[trigger] holds(cs[i], scan);
            if i > 0 {
                assert(holds(rest[i - 1], scan));
            }
        }
    }
}

proof fn lemma_all_hold(cs: Seq<Condition>, scan: Scan)
    ensures
        all_hold(cs, scan) <==> forall|i: int| 0 <= i < cs.len() ==> #[trigger] holds(cs[i], scan),
    decreases cs,
{
    if cs.len() > 0 {
        let rest = cs.drop_first();
        lemma_all_hold(rest, scan);
        if all_hold(cs, scan) {
            assert forall|i: int| 0 <= i < cs.len() implies #[trigger] holds(cs[i], scan) by {
                if i > 0 {
                    assert(holds(rest[i - 1], scan));
                }
            }
        }
        if forall|i: int| 0 <= i < cs.len() ==> #[trigger] holds(cs[i], scan) {
            assert(holds(cs[0], scan));
            assert forall|i: int| 0 <= i < rest.len() implies #[trigger] holds(rest[i], scan) by {
                assert(holds(cs[i + 1], scan));
            }
        }
    }
}

/// A timer runs from when the step was entered: it has run out from 10^-9 s before its
/// time is over, at no instant before that, and stays run out. What holds at
/// once always does, a timer of no time among it.
pub proof fn law_a_timer_runs_out_once(seconds: Pico, scan: Scan, later: Scan)
    requires
        later.entered_at == scan.entered_at,
        later.t >= scan.t,
    ensures
        holds(Condition::Immediately, scan),
        holds(Condition::Elapsed { seconds }, scan) <==> scan.t - scan.entered_at + 1_000
            >= seconds,
        holds(Condition::Elapsed { seconds }, scan) ==> holds(Condition::Elapsed { seconds }, later),
{
}

/// A step's own moves are done once none of them has more than 10^-9 s to run, and not
/// while one has. A step that started none is done at once.
pub proof fn law_done_waits_for_every_move(scan: Scan, i: int)
    ensures
        (forall|k: int|
            0 <= k < scan.move_ends.len() ==> (#[trigger] scan.move_ends[k]) <= scan.t + 1_000)
            ==> holds(Condition::Done, scan),
        0 <= i < scan.move_ends.len() && scan.move_ends[i] > scan.t + 1_000 ==> !holds(
            Condition::Done,
            scan,
        ),
        scan.move_ends.len() == 0 ==> holds(Condition::Done, scan),
{
    if 0 <= i < scan.move_ends.len() && scan.move_ends[i] > scan.t + 1_000 {
        assert(scan.t < scan.move_ends[i] - NANO);
    }
}

/// A robot is done exactly where it has no move in flight; one that the cell does
/// not have is never waited for. `r` is the first robot of that name.
pub proof fn law_a_robot_is_done_when_idle(robot: String, scan: Scan, r: int)
    ensures
        0 <= r < scan.robot_names.len() && scan.robot_names[r] == robot@ && (forall|j: int|
            0 <= j < r ==> (#[trigger] scan.robot_names[j]) != robot@) ==> holds(
            Condition::RobotDone { robot },
            scan,
        ) == scan.idle[r],
        (forall|j: int|
            0 <= j < scan.robot_names.len() ==> (#[trigger] scan.robot_names[j]) != robot@)
            ==> holds(Condition::RobotDone { robot }, scan),
{
    crate::names::lemma_find(scan.robot_names, robot@, 0);
    match find(scan.robot_names, robot@) {
        Some(i) => {
            assert(scan.robot_names[i] == robot@);
            if 0 <= r < i {
                assert(scan.robot_names[r] != robot@);
            }
        },
        None => {},
    }
}

/// A signal has one level at a time: that which the last edge of its lane left,
/// and low where it has no lane. An edge is that level and, at the program's
/// previous scan, the other; so there is never one up and one down at once.
/// `lane` is the first lane of that name.
pub proof fn law_signals_have_one_level_and_one_edge(name: String, scan: Scan, lane: int)
    ensures
        holds(Condition::Signal { name, value: true }, scan) != holds(
            Condition::Signal { name, value: false },
            scan,
        ),
        !(holds(Condition::Rising { name }, scan) && holds(Condition::Falling { name }, scan)),
        0 <= lane < scan.lanes.tracks.len() && scan.lanes.tracks[lane].name == name@ && (forall|
            j: int,
        |
            0 <= j < lane ==> (#[trigger] scan.lanes.tracks[j]).name != name@) ==> {
            let edges = scan.lanes.tracks[lane].edges;
            let high = edges.len() > 0 && edges[edges.len() - 1].1;
            let was_high = lane < scan.prev.len() && scan.prev[lane];
            &&& holds(Condition::Signal { name, value: true }, scan) == high
            &&& holds(Condition::Rising { name }, scan) == (high && !was_high)
            &&& holds(Condition::Falling { name }, scan) == (!high && was_high)
        },
        (forall|j: int|
            0 <= j < scan.lanes.tracks.len() ==> (#[trigger] scan.lanes.tracks[j]).name != name@)
            ==> holds(Condition::Signal { name, value: false }, scan) && !holds(
            Condition::Rising { name },
            scan,
        ) && !holds(Condition::Falling { name }, scan),
{
    let names = scan.lanes.names();
    crate::names::lemma_find(names, name@, 0);
    match find(names, name@) {
        Some(i) => {
            assert(names[i] == scan.lanes.tracks[i].name);
            if 0 <= lane < scan.lanes.tracks.len() {
                assert(names[lane] == scan.lanes.tracks[lane].name);
                if lane < i {
                    assert(names[lane] != name@);
                }
            }
        },
        None => {
            if 0 <= lane < scan.lanes.tracks.len() {
                assert(names[lane] == scan.lanes.tracks[lane].name);
            }
        },
    }
}

/// A device is done where one of that name has nothing commanded left to do: a
/// belt that no fixed advance runs, an axis and a lift within 10^-9 m of where
/// they were sent, a vehicle with no leg left. A source and a sink never are.
pub proof fn law_a_device_is_done_when_it_has_arrived(device: String, scan: Scan, d: int)
    requires
        0 <= d < scan.devices.len(),
        forall|j: int|
            0 <= j < scan.devices.len() && j != d ==> (#[trigger] scan.devices[j]).name@ != device@,
        scan.devices[d].name@ == device@,
    ensures
        holds(Condition::DeviceDone { device }, scan) == (match scan.devices[d].state {
            StateView::Conveyor(c) => c.remaining is None,
            StateView::Axis(a) => -1_000 < a.position - a.target < 1_000,
            StateView::Lift(l) => -1_000 < l.position - l.target < 1_000,
            StateView::Vehicle(v) => v.legs.len() == 0,
            StateView::Source(_) => false,
            StateView::Sink(_) => false,
        }),
{
    if device_done(scan.devices, device@) {
        let i = choose|i: int|
            0 <= i < scan.devices.len() && (#[trigger] scan.devices[i]).name@ == device@
                && scan.devices[i].state.done();
        assert(i == d);
    }
}

/// A device that the cell does not have is never done.
pub proof fn law_no_device_is_never_done(device: String, scan: Scan)
    requires
        forall|j: int|
            0 <= j < scan.devices.len() ==> (#[trigger] scan.devices[j]).name@ != device@,
    ensures
        !holds(Condition::DeviceDone { device }, scan),
{
}

/// Taking an exit moves the program's cursor strictly forward, and no further
/// than its end; nothing else's cursor moves.
pub proof fn law_cursor_moves_forward(v: RolloutView)
    requires
        v.scannable(),
        v.ready() is Some,
    ensures
        v.cur_step() < v.took(v.ready()->0).cur_step(),
        v.took(v.ready()->0).cur_step() <= v.programs[v.current as int].flat.len(),
        forall|p: int|
            0 <= p < v.programs.len() && p != v.current ==> v.took(v.ready()->0).programs[p]
                == v.programs[p],
{
    let p = v.programs[v.current as int];
    let step = p.flat[p.step as int];
    lemma_ready_exit(step, v.scan(), 0);
    let j = v.ready()->0;
    assert(step.exits[j] > p.step);
}

/// The exit taken is one of the step's, and the first whose condition holds:
/// authored order is priority.
pub proof fn lemma_ready_exit(step: FlatView, scan: Scan, from: int)
    requires
        0 <= from,
    ensures
        match ready_exit(step, scan, from) {
            Some(j) => from <= j < step.exits.len() && holds(step.condition(j), scan) && forall|
                k: int,
            |
                from <= k < j ==> !holds(#[trigger] step.condition(k), scan),
            None => forall|k: int|
                from <= k < step.exits.len() ==> !holds(#[trigger] step.condition(k), scan),
        },
    decreases step.exits.len() - from,
{
    if from < step.exits.len() && !holds(step.condition(from), scan) {
        lemma_ready_exit(step, scan, from + 1);
    }
}

/// A program that enters a step starts its clock and opens a span there, at that
/// instant, for that step; nothing of what it did in the step before counts any more.
/// Everything else stays as it is.
pub proof fn law_a_step_starts_when_it_is_entered(v: RolloutView, p: int)
    requires
        v.current < v.programs.len(),
        v.step_spans.len() <= usize::MAX,
        0 <= p < v.programs.len(),
    ensures
        ({
            let e = v.entered();
            let c = v.current as int;
            let n = v.step_spans.len() as int;
            &&& e == (RolloutView { programs: e.programs, step_spans: e.step_spans, ..v })
            &&& e.programs.len() == v.programs.len()
            &&& p != c ==> e.programs[p] == v.programs[p]
            &&& e.programs[c].entered_at == v.t
            &&& e.programs[c].move_ends.len() == 0
            &&& e.programs[c].open_span == n
            &&& e.programs[c].step == v.programs[c].step
            &&& e.programs[c].prev_signals == v.programs[c].prev_signals
            &&& e.step_spans.len() == n + 1
            &&& e.step_spans.take(n) == v.step_spans
            &&& e.step_spans[n].start == v.t
            &&& e.step_spans[n].step == v.programs[c].step
            &&& e.step_spans[n].sequence == v.programs[c].sequence.name@
        }),
{
    let n = v.step_spans.len() as int;
    assert(v.entered().step_spans.take(n) =~= v.step_spans);
}

/// A program that leaves a step closes the span that it opened for it, at that
/// instant, and goes on with the step that its exit names. Where the step selects
/// among arms, which one it took is recorded. Every other span and program stays as
/// it is.
pub proof fn law_a_step_ends_when_it_is_left(v: RolloutView, j: int, p: int, s: int)
    requires
        v.current < v.programs.len(),
        0 <= p < v.programs.len(),
        0 <= s < v.step_spans.len(),
        v.programs[v.current as int].step < v.programs[v.current as int].flat.len(),
        0 <= j < v.programs[v.current as int].flat[v.programs[v.current as int].step as int].exits.len(),
        j <= usize::MAX,
    ensures
        ({
            let c = v.current as int;
            let at = v.programs[c];
            let step = at.flat[at.step as int];
            let w = v.took(j);
            &&& w.programs.len() == v.programs.len()
            &&& p != c ==> w.programs[p] == v.programs[p]
            &&& w.programs[c] == (ProgramView { step: step.exits[j] as usize, ..at })
            &&& w.step_spans.len() == v.step_spans.len()
            &&& s == at.open_span ==> w.step_spans[s] == (StepSpanView {
                end: v.t,
                ..v.step_spans[s]
            })
            &&& s != at.open_span ==> w.step_spans[s] == v.step_spans[s]
            &&& step.select is None ==> w.branches == v.branches
            &&& step.select is Some ==> w.branches.len() == v.branches.len() + 1
                && w.branches.drop_last() == v.branches && w.branches.last().arm == j
                && w.branches.last().select == step.select->0 as usize
                && w.branches.last().sequence == at.sequence.name@ && w.branches.last().step
                == step.step.name@
            &&& w.t == v.t
            &&& w.lanes == v.lanes
            &&& w.devices == v.devices
            &&& w.obstacles == v.obstacles
            &&& w.current == v.current
        }),
{
    let w = v.took(j);
    if w.branches.len() > v.branches.len() {
        assert(w.branches.drop_last() =~= v.branches);
    }
}

/// A program takes the first exit of its step whose condition holds; one that is
/// through, or whose step has none, stays where it is.
pub proof fn law_the_first_exit_that_holds_is_taken(v: RolloutView, j: int)
    requires
        v.current < v.programs.len(),
    ensures
        ({
            let p = v.programs[v.current as int];
            let step = p.flat[p.step as int];
            &&& p.step >= p.flat.len() ==> v.ready() is None
            &&& p.step < p.flat.len() && 0 <= j < step.exits.len() && holds(
                step.condition(j),
                v.scan(),
            ) && (forall|i: int|
                0 <= i < j ==> !holds(#[trigger] step.condition(i), v.scan())) ==> v.ready()
                == Some(j)
            &&& p.step < p.flat.len() && (forall|i: int|
                0 <= i < step.exits.len() ==> !holds(#[trigger] step.condition(i), v.scan()))
                ==> v.ready() is None
        }),
{
    let p = v.programs[v.current as int];
    lemma_first_exit(p.flat[p.step as int], v.scan(), 0, j);
}

proof fn lemma_first_exit(step: FlatView, scan: Scan, from: int, j: int)
    requires
        0 <= from,
    ensures
        from <= j < step.exits.len() && holds(step.condition(j), scan) && (forall|i: int|
            from <= i < j ==> !holds(#[trigger] step.condition(i), scan)) ==> ready_exit(
            step,
            scan,
            from,
        ) == Some(j),
        (forall|i: int|
            from <= i < step.exits.len() ==> !holds(#[trigger] step.condition(i), scan))
            ==> ready_exit(step, scan, from) is None,
    decreases step.exits.len() - from,
{
    if from < step.exits.len() {
        let here = step.condition(from);
        lemma_first_exit(step, scan, from + 1, j);
    }
}

/// A program's conditions are judged by the present instant, by its own clock, by the
/// moves of its own step, and by the lanes as they stand now and as they stood when
/// its last scan closed; a robot is idle where it makes no move.
pub proof fn law_a_program_is_judged_by_its_own_step(v: RolloutView, r: int)
    requires
        v.current < v.programs.len(),
        0 <= r < v.robots.len(),
    ensures
        ({
            let scan = v.scan();
            let p = v.programs[v.current as int];
            &&& scan.t == v.t
            &&& scan.entered_at == p.entered_at
            &&& scan.move_ends == p.move_ends
            &&& scan.prev == p.prev_signals
            &&& scan.lanes == v.lanes
            &&& scan.devices == v.devices
            &&& scan.idle[r] <==> v.robots[r].active is None
        }),
{
}

/// A closed scan takes down the level of every lane as it stands, for its program and
/// for no other.
pub proof fn law_a_closed_scan_takes_the_levels_down(v: RolloutView, program: int, p: int, lane: int)
    requires
        0 <= program < v.programs.len(),
        0 <= p < v.programs.len(),
        0 <= lane < v.lanes.tracks.len(),
    ensures
        ({
            let w = v.closed_scan(program);
            let edges = v.lanes.tracks[lane].edges;
            &&& p != program ==> w.programs[p] == v.programs[p]
            &&& w.programs[program].prev_signals.len() == v.lanes.tracks.len()
            &&& w.programs[program].prev_signals[lane] == (edges.len() > 0 && edges[edges.len()
                - 1].1)
            &&& w.programs[program].step == v.programs[program].step
            &&& w.lanes == v.lanes
        }),
{
}

/// A run of one program that times out names the step it is stuck in; one of several
/// names the steps of those that are not through, and of no other, in order. Both
/// give the time that was allowed.
pub proof fn law_a_timeout_names_who_is_stuck(v: RolloutView, n: nat, p: int)
    requires
        n <= v.programs.len(),
    ensures
        v.programs.len() == 1 ==> (v.timeout() matches ErrorView::Timeout { step, limit, .. }
            && step == v.programs[0].step && limit == v.options.max_duration),
        v.programs.len() != 1 ==> (v.timeout() matches ErrorView::ProgramsTimeout { limit, .. }
            && limit == v.options.max_duration),
        0 <= p < n && v.programs[p].step < v.programs[p].flat.len() ==> v.waiting(n).contains(
            v.step_name_in(p, v.programs[p].step as int),
        ),
        forall|i: int|
            0 <= i < v.waiting(n).len() ==> exists|q: int|
                0 <= q < n && (#[trigger] v.programs[q]).step < v.programs[q].flat.len() && (
                #[trigger] v.waiting(n)[i]) == v.step_name_in(q, v.programs[q].step as int),
    decreases n,
{
    if n > 0 {
        let less = (n - 1) as nat;
        law_a_timeout_names_who_is_stuck(v, less, p);
        let before = v.waiting(less);
        let now = v.waiting(n);
        let name = v.step_name_in(p, v.programs[p].step as int);
        if before.contains(name) {
            let i = choose|i: int| 0 <= i < before.len() && before[i] == name;
            assert(now[i] == name);
        }
        if p == n - 1 && v.programs[p].step < v.programs[p].flat.len() {
            assert(now[now.len() - 1] == name);
        }
        assert forall|i: int| 0 <= i < now.len() implies exists|q: int|
            0 <= q < n && (#[trigger] v.programs[q]).step < v.programs[q].flat.len() && (
            #[trigger] now[i]) == v.step_name_in(q, v.programs[q].step as int) by {
            if i < before.len() {
                assert(now[i] == before[i]);
                let q = choose|q: int|
                    0 <= q < less && (#[trigger] v.programs[q]).step < v.programs[q].flat.len()
                        && before[i] == v.step_name_in(q, v.programs[q].step as int);
                assert(v.programs[q].step < v.programs[q].flat.len());
            } else {
                assert(v.programs[n - 1].step < v.programs[n - 1].flat.len());
            }
        }
    }
}

/// A step goes by its own name where one program runs, and by its program's and its
/// own where several do.
pub proof fn law_a_step_is_named_with_its_program(v: RolloutView, program: int, index: int)
    requires
        0 <= program < v.programs.len(),
    ensures
        v.programs.len() == 1 ==> v.step_name_in(program, index) == v.programs[program].step_name(
            index,
        ),
        v.programs.len() > 1 ==> v.step_name_in(program, index)
            == v.programs[program].sequence.name@ + "/"@ + v.programs[program].step_name(index),
{
}

} // verus!
