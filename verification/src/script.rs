//! Lowering the steps of a sequence to a controller program.
//!
//! Moves come from the plans that the rollouts recorded: the exact paths that
//! the timelines executed. A branching step carries every arm, also those that
//! a rollout skipped.

use vstd::prelude::*;

use crate::export::{
    command_view, command_views, simplified, ArmView, Command, CommandView, PlainTests, ProgramArm,
    TestView,
};
use crate::fixed::{clip, clipped, floor_div, muldiv, Pico, MICRO, NANO, UNIT};
use crate::lower::{
    device_lowered, emit_of, find_port, lower_condition, lower_device, port_of, push_command,
    test_of, waits_for, Emit, IoView, SequenceIo,
};
use crate::names::{find, find_named, names_of, same};
use crate::scene::{Joint, Robot};
use crate::seq::{Action, SelectArm, Step};
use crate::text::{
    cat3, cat5, cat7, decimal, decimal_places, decimal_text, places_text, texts,
};
use crate::timeline::{
    BranchTaken, BranchView, PlannedMove, PlannedSegment, PlannedView, SegmentKind, SegmentView,
};
use crate::views::{copied, opt, views};

verus! {

/// The greatest distance between two configurations, joint by joint.
pub open spec fn spread(a: Seq<Pico>, b: Seq<Pico>, n: nat) -> Pico
    decreases n,
{
    if n == 0 {
        0
    } else {
        let less = spread(a, b, (n - 1) as nat);
        let d = clip(
            if a[n - 1] >= b[n - 1] {
                a[n - 1] - b[n - 1]
            } else {
                b[n - 1] - a[n - 1]
            },
        );
        if d > less {
            d
        } else {
            less
        }
    }
}

/// The joints that two configurations both have.
pub open spec fn shared(a: Seq<Pico>, b: Seq<Pico>) -> nat {
    if a.len() < b.len() {
        a.len()
    } else {
        b.len()
    }
}

/// How far apart two configurations are.
pub open spec fn apart(a: Seq<Pico>, b: Seq<Pico>) -> Pico {
    spread(a, b, shared(a, b))
}

/// How far apart two configurations are.
pub fn distance(a: &Vec<Pico>, b: &Vec<Pico>) -> (r: Pico)
    ensures
        r == apart(a@, b@),
{
    let n: usize = if a.len() < b.len() {
        a.len()
    } else {
        b.len()
    };
    let mut most: Pico = 0;
    let mut i: usize = 0;
    while i < n
        invariant
            i <= n,
            n == shared(a@, b@),
            most == spread(a@, b@, i as nat),
        decreases n - i,
    {
        let d: Pico = if a[i] >= b[i] {
            clipped(a[i] as i128 - b[i] as i128)
        } else {
            clipped(b[i] as i128 - a[i] as i128)
        };
        if d > most {
            most = d;
        }
        i = i + 1;
    }
    most
}

/// One timeline's cursors: its planned moves and branch decisions, both
/// consumed in the order in which the rollout fired them, and the
/// configuration that its consumed path has reached.
pub struct Source<'a> {
    pub scenario: String,
    pub planned: Vec<&'a PlannedMove>,
    pub planned_next: usize,
    pub decisions: Vec<&'a BranchTaken>,
    pub decisions_next: usize,
    pub cur_q: Vec<Pico>,
}

#[verifier::ext_equal]
pub struct SourceView {
    pub scenario: Seq<char>,
    pub planned: Seq<PlannedView>,
    pub planned_next: usize,
    pub decisions: Seq<BranchView>,
    pub decisions_next: usize,
    pub cur_q: Seq<Pico>,
}

impl<'a> View for Source<'a> {
    type V = SourceView;

    open spec fn view(&self) -> SourceView {
        SourceView {
            scenario: self.scenario@,
            planned: Seq::new(self.planned@.len(), |i: int| (*self.planned@[i])@),
            planned_next: self.planned_next,
            decisions: Seq::new(self.decisions@.len(), |i: int| (*self.decisions@[i])@),
            decisions_next: self.decisions_next,
            cur_q: self.cur_q@,
        }
    }
}

/// Where a planned move ends, where it says so.
pub open spec fn move_end(p: PlannedView) -> Option<Seq<Pico>> {
    if p.segments.len() > 0 && p.segments.last().waypoints.len() > 0 {
        Some(p.segments.last().waypoints.last())
    } else {
        None
    }
}

impl SourceView {
    /// The next planned move, where it is the one asked for.
    pub open spec fn next_planned(self, motion: Option<Seq<char>>, label: Seq<char>) -> Result<
        (SourceView, PlannedView),
        Seq<char>,
    > {
        let k = self.planned_next as int;
        if k < self.planned.len() && self.planned[k].motion == motion
            && self.planned[k].segments.len() > 0 {
            Ok(
                (
                    SourceView {
                        planned_next: (k + 1) as usize,
                        cur_q: match move_end(self.planned[k]) {
                            Some(q) => q,
                            None => self.cur_q,
                        },
                        ..self
                    },
                    self.planned[k],
                ),
            )
        } else {
            Err(
                "timeline `"@ + self.scenario + "` does not match the sequence at "@ + label
                    + " (was it edited after the rollout?) — re-simulate and export again"@,
            )
        }
    }

    /// The next branch decision, where it is the one asked for.
    pub open spec fn next_decision(self, select: usize, step: Seq<char>, label: Seq<char>) -> Result<
        (SourceView, usize),
        Seq<char>,
    > {
        let k = self.decisions_next as int;
        if k >= self.decisions.len() {
            Err(
                "timeline `"@ + self.scenario + "` records no decision for branching "@ + label
                    + " (was the sequence edited after the rollout?) — re-simulate and export again"@,
            )
        } else if self.decisions[k].select != select || self.decisions[k].step != step {
            Err(
                "timeline `"@ + self.scenario + "` decisions do not line up with the sequence ("@
                    + label + " vs recorded `"@ + self.decisions[k].step
                    + "`) — re-simulate and export again"@,
            )
        } else {
            Ok(
                (
                    SourceView { decisions_next: (k + 1) as usize, ..self },
                    self.decisions[k].arm,
                ),
            )
        }
    }
}

fn is_motion(motion: &Option<String>, name: Option<&str>) -> (r: bool)
    ensures
        r == (opt(*motion) == (match name {
            Some(n) => Some(n@),
            None => None,
        })),
{
    match (motion, name) {
        (Some(m), Some(n)) => same(m.as_str(), n),
        (None, None) => true,
        _ => false,
    }
}

/// The view of an optional text.
pub open spec fn opt_text(name: Option<&str>) -> Option<Seq<char>> {
    match name {
        Some(n) => Some(n@),
        None => None,
    }
}

impl<'a> Source<'a> {
    /// The next planned move, where it is the one asked for.
    pub fn next_planned(&mut self, motion: Option<&str>, label: &str) -> (r: Result<
        &'a PlannedMove,
        String,
    >)
        ensures
            match (r, old(self)@.next_planned(opt_text(motion), label@)) {
                (Ok(p), Ok((s, w))) => final(self)@ == s && p@ == w,
                (Err(e), Err(w)) => e@ == w && final(self)@ == old(self)@,
                _ => false,
            },
    {
        let ghost before = self@;
        let k: usize = self.planned_next;
        if k < self.planned.len() {
            let record: &'a PlannedMove = self.planned[k];
            assert(before.planned[k as int] == record@);
            let n: usize = record.segments.len();
            if n > 0 && is_motion(&record.motion, motion) {
                self.planned_next = k + 1;
                let last: &PlannedSegment = &record.segments[n - 1];
                assert(record@.segments.last() == last@);
                let m: usize = last.waypoints.len();
                if m > 0 {
                    assert(last@.waypoints.last() == last.waypoints@[m - 1]@);
                    self.cur_q = copied(&last.waypoints[m - 1]);
                }
                assert(self@ =~= before.next_planned(opt_text(motion), label@)->Ok_0.0);
                return Ok(record);
            }
        }
        Err(
            cat5(
                "timeline `",
                self.scenario.as_str(),
                "` does not match the sequence at ",
                label,
                " (was it edited after the rollout?) — re-simulate and export again",
            ),
        )
    }

    /// The next branch decision, where it is the one asked for.
    pub fn next_decision(&mut self, select: usize, step: &str, label: &str) -> (r: Result<
        usize,
        String,
    >)
        ensures
            match (r, old(self)@.next_decision(select, step@, label@)) {
                (Ok(arm), Ok((s, w))) => final(self)@ == s && arm == w,
                (Err(e), Err(w)) => e@ == w && final(self)@ == old(self)@,
                _ => false,
            },
    {
        let ghost before = self@;
        let k: usize = self.decisions_next;
        if k >= self.decisions.len() {
            return Err(
                cat5(
                    "timeline `",
                    self.scenario.as_str(),
                    "` records no decision for branching ",
                    label,
                    " (was the sequence edited after the rollout?) — re-simulate and export again",
                ),
            );
        }
        let decision: &'a BranchTaken = self.decisions[k];
        assert(before.decisions[k as int] == decision@);
        if decision.select != select || !same(decision.step.as_str(), step) {
            return Err(
                cat7(
                    "timeline `",
                    self.scenario.as_str(),
                    "` decisions do not line up with the sequence (",
                    label,
                    " vs recorded `",
                    decision.step.as_str(),
                    "`) — re-simulate and export again",
                ),
            );
        }
        self.decisions_next = k + 1;
        assert(self@ =~= before.next_decision(select, step@, label@)->Ok_0.0);
        Ok(decision.arm)
    }
}

/// The state of a lowering.
pub struct Lowering<'a> {
    pub io: &'a SequenceIo,
    /// What the simplifier makes of the compound tests.
    pub plain: &'a PlainTests,
    pub robot: &'a Robot,
    pub blend_radius: Pico,
    pub joint_velocity: Pico,
    pub joint_acceleration: Pico,
    pub tcp_velocity: Pico,
    pub tcp_acceleration: Pico,
    /// The first is the primary; the rest are donors, in run order.
    pub sources: Vec<Source<'a>>,
    pub warnings: Vec<String>,
    /// Running step number, in emission order.
    pub step_no: usize,
    /// Branching steps seen, in pre-order.
    pub selects_seen: usize,
    /// Where a branch's arms rejoin at different configurations: the branch,
    /// and how far apart they are.
    pub pending_rejoin: Option<(String, Pico)>,
}

#[verifier::ext_equal]
pub struct LowerView {
    pub io: IoView,
    pub plain: Seq<(TestView, TestView)>,
    pub robot: Robot,
    pub blend_radius: Pico,
    pub joint_velocity: Pico,
    pub joint_acceleration: Pico,
    pub tcp_velocity: Pico,
    pub tcp_acceleration: Pico,
    pub sources: Seq<SourceView>,
    pub warnings: Seq<Seq<char>>,
    pub step_no: usize,
    pub selects_seen: usize,
    pub pending_rejoin: Option<(Seq<char>, Pico)>,
}

impl<'a> View for Lowering<'a> {
    type V = LowerView;

    open spec fn view(&self) -> LowerView {
        LowerView {
            io: self.io@,
            plain: self.plain@,
            robot: *self.robot,
            blend_radius: self.blend_radius,
            joint_velocity: self.joint_velocity,
            joint_acceleration: self.joint_acceleration,
            tcp_velocity: self.tcp_velocity,
            tcp_acceleration: self.tcp_acceleration,
            sources: views(self.sources@),
            warnings: texts(self.warnings@),
            step_no: self.step_no,
            selects_seen: self.selects_seen,
            pending_rejoin: match self.pending_rejoin {
                Some((label, d)) => Some((label@, d)),
                None => None,
            },
        }
    }
}

/// A lowering at some place of the program: the configuration there, and the
/// commands so far.
#[verifier::ext_equal]
pub struct Place {
    pub l: LowerView,
    pub q: Seq<Pico>,
    pub out: Seq<CommandView>,
}

/// The next number, as far as numbers go.
pub open spec fn bumped(n: usize) -> usize {
    if n < usize::MAX {
        (n + 1) as usize
    } else {
        n
    }
}

fn bump(n: usize) -> (r: usize)
    ensures
        r == bumped(n),
{
    if n < usize::MAX {
        n + 1
    } else {
        n
    }
}

/// The joint of a name, by its place in the configuration.
pub open spec fn target_joint(robot: Robot, joint: Seq<char>, label: Seq<char>) -> Result<
    usize,
    Seq<char>,
> {
    match find(names_of(robot.joints@), joint) {
        None => Err(label + ": unknown joint `"@ + joint + "`"@),
        Some(j) => match robot.joints@[j].q_index {
            None => Err(label + ": joint `"@ + joint + "` is not actuated"@),
            Some(qi) => Ok(qi),
        },
    }
}

/// A ramp's targets applied to a configuration, from target `from` on.
pub open spec fn targeted(
    robot: Robot,
    q: Seq<Pico>,
    targets: Seq<(String, Pico)>,
    label: Seq<char>,
    from: int,
) -> Result<Seq<Pico>, Seq<char>>
    decreases targets.len() - from,
{
    if from < 0 || from >= targets.len() {
        Ok(q)
    } else {
        match target_joint(robot, targets[from].0@, label) {
            Err(e) => Err(e),
            Ok(qi) => targeted(
                robot,
                if qi < q.len() {
                    q.update(qi as int, targets[from].1)
                } else {
                    q
                },
                targets,
                label,
                from + 1,
            ),
        }
    }
}

/// How fast a ramp asks its joints to go; none is faster than any.
pub open spec fn ramp_pace(travel: Pico, duration: Pico) -> Option<Pico> {
    if duration > 0 {
        Some(clip(muldiv(travel as int, UNIT as int, duration as int)))
    } else {
        None
    }
}

/// A pace with three places.
pub open spec fn pace_shown(pace: Option<Pico>) -> Seq<char> {
    match pace {
        Some(v) => decimal_places(v as int, 3),
        None => "inf"@,
    }
}

impl LowerView {
    pub open spec fn with_source(self, i: int, s: SourceView) -> LowerView {
        LowerView { sources: self.sources.update(i, s), ..self }
    }

    /// The first move after a divergent rejoin decides whether the divergence
    /// matters: a joint move is absolute, a straight line is not.
    pub open spec fn noted(self, linear: bool) -> LowerView {
        match self.pending_rejoin {
            Some((select, deviation)) => LowerView {
                pending_rejoin: None,
                warnings: if linear {
                    self.warnings.push(
                        "the arms of "@ + select + " rejoin at configurations up to "@
                            + decimal_places(deviation as int, 4)
                            + " rad apart, and the next move is a straight line — its path depends on which arm ran; put a joint move first if the line matters"@,
                    )
                } else {
                    self.warnings
                },
                ..self
            },
            None => self,
        }
    }

    /// Every active source, from `from` on, consumes its next planned move;
    /// the emitting one's is the record.
    pub open spec fn consumed(
        self,
        record: Option<PlannedView>,
        active: Seq<usize>,
        emitting: Option<usize>,
        motion: Option<Seq<char>>,
        label: Seq<char>,
        from: int,
    ) -> Result<(LowerView, Option<PlannedView>), Seq<char>>
        decreases active.len() - from,
    {
        if from < 0 || from >= active.len() {
            Ok((self, record))
        } else {
            match self.sources[active[from] as int].next_planned(motion, label) {
                Err(e) => Err(e),
                Ok((s, p)) => self.with_source(active[from] as int, s).consumed(
                    if emitting == Some(active[from]) {
                        Some(p)
                    } else {
                        record
                    },
                    active,
                    emitting,
                    motion,
                    label,
                    from + 1,
                ),
            }
        }
    }

    /// What is left once the active sources, from `from` on, have been asked for
    /// their next record: each has moved on, up to one that has none.
    pub open spec fn consumed_left(
        self,
        active: Seq<usize>,
        motion: Option<Seq<char>>,
        label: Seq<char>,
        from: int,
    ) -> LowerView
        decreases active.len() - from,
    {
        if from < 0 || from >= active.len() {
            self
        } else {
            match self.sources[active[from] as int].next_planned(motion, label) {
                Err(_) => self,
                Ok((s, _)) => self.with_source(active[from] as int, s).consumed_left(
                    active,
                    motion,
                    label,
                    from + 1,
                ),
            }
        }
    }

    /// Every active source, from `from` on, consumes its next decision.
    pub open spec fn decided(
        self,
        arms: Seq<usize>,
        active: Seq<usize>,
        select: usize,
        step: Seq<char>,
        label: Seq<char>,
        from: int,
    ) -> Result<(LowerView, Seq<usize>), Seq<char>>
        decreases active.len() - from,
    {
        if from < 0 || from >= active.len() {
            Ok((self, arms))
        } else {
            match self.sources[active[from] as int].next_decision(select, step, label) {
                Err(e) => Err(e),
                Ok((s, arm)) => self.with_source(active[from] as int, s).decided(
                    arms.push(arm),
                    active,
                    select,
                    step,
                    label,
                    from + 1,
                ),
            }
        }
    }
}

/// The commands with a linear chain at rest at its end.
pub open spec fn at_rest(out: Seq<CommandView>) -> Seq<CommandView> {
    if out.len() > 0 {
        match out.last() {
            CommandView::MoveLinear { q, velocity, acceleration, .. } => out.drop_last().push(
                CommandView::MoveLinear { q, velocity, acceleration, blend: 0 },
            ),
            _ => out,
        }
    } else {
        out
    }
}

impl Place {
    pub open spec fn command(self, c: CommandView) -> Place {
        Place { out: self.out.push(c), ..self }
    }

    pub open spec fn noted(self, linear: bool) -> Place {
        Place { l: self.l.noted(linear), ..self }
    }

    /// The waypoints of a joint segment, from `from` on: blended into each
    /// other, but at rest at the last.
    pub open spec fn joint_moves(self, waypoints: Seq<Seq<Pico>>, from: int) -> Place
        decreases waypoints.len() - from,
    {
        if from < 1 || from >= waypoints.len() {
            self
        } else {
            self.noted(false).command(
                CommandView::MoveJoint {
                    q: waypoints[from],
                    velocity: self.l.joint_velocity,
                    acceleration: self.l.joint_acceleration,
                    blend: if from < waypoints.len() - 1 {
                        self.l.blend_radius
                    } else {
                        0
                    },
                },
            ).joint_moves(waypoints, from + 1)
        }
    }

    /// A planned segment.
    pub open spec fn segment(self, s: SegmentView) -> Place {
        match s.kind {
            SegmentKind::Joint => self.joint_moves(s.waypoints, 1),
            SegmentKind::CartesianLine => if s.waypoints.len() > 1 {
                self.noted(true).command(
                    CommandView::MoveLinear {
                        q: s.waypoints.last(),
                        velocity: match s.tcp_speed {
                            Some(v) => v,
                            None => self.l.tcp_velocity,
                        },
                        acceleration: self.l.tcp_acceleration,
                        blend: self.l.blend_radius,
                    },
                )
            } else {
                self
            },
        }
    }

    /// The planned segments from `from` on.
    pub open spec fn segments(self, list: Seq<SegmentView>, from: int) -> Place
        decreases list.len() - from,
    {
        if from < 0 || from >= list.len() {
            self
        } else {
            self.segment(list[from]).segments(list, from + 1)
        }
    }

    /// A planned move.
    pub open spec fn moved(self, record: PlannedView) -> Place {
        let p = self.segments(record.segments, 0);
        Place {
            out: at_rest(p.out),
            q: match move_end(record) {
                Some(q) => q,
                None => p.q,
            },
            ..p
        }
    }

    /// A ramp: a hold-position ramp is a dwell; else the authored duration
    /// sets the pace, and the joint limit caps it.
    pub open spec fn ramped(self, label: Seq<char>, from: Seq<Pico>, to: Seq<Pico>, duration: Pico) -> Place {
        let travel = apart(from, to);
        let here = Place { q: to, ..self };
        if travel < 1 {
            if duration > 0 {
                here.command(CommandView::Sleep { seconds: duration })
            } else {
                here
            }
        } else {
            let pace = ramp_pace(travel, duration);
            let limit = self.l.joint_velocity;
            let fast = match pace {
                Some(v) => v > limit + NANO,
                None => true,
            };
            let warned = if fast {
                Place {
                    l: LowerView {
                        warnings: self.l.warnings.push(
                            label + ": ramp asks "@ + pace_shown(pace)
                                + " rad/s but the joint limit allows "@ + decimal_places(
                                limit as int,
                                3,
                            ) + "; the controller will run it slower"@,
                        ),
                        ..self.l
                    },
                    ..here
                }
            } else {
                here
            };
            warned.noted(false).command(
                CommandView::MoveJoint {
                    q: to,
                    velocity: match pace {
                        Some(v) => if v < limit {
                            v
                        } else {
                            limit
                        },
                        None => limit,
                    },
                    acceleration: self.l.joint_acceleration,
                    blend: 0,
                },
            )
        }
    }

    /// A motion or toolpath: the emitting source's record.
    pub open spec fn motion_lowered(
        self,
        motion: Seq<char>,
        active: Seq<usize>,
        emitting: Option<usize>,
        label: Seq<char>,
    ) -> Result<Place, Seq<char>> {
        match self.l.consumed(None, active, emitting, Some(motion), label, 0) {
            Err(e) => Err(e),
            Ok((l, None)) => Err(
                label + ": motion `"@ + motion
                    + "` lies on an arm no exported rollout took, so it was never planned — add a scenario that takes this arm to the sweep, or keep skipped arms motion-free (I/O, ramps)"@,
            ),
            Ok((l, Some(record))) => Ok(Place { l, ..self }.moved(record)),
        }
    }

    /// A ramp: the emitting source's record, or, on a path that no timeline
    /// took, its authored targets applied to the configuration there.
    pub open spec fn ramp_lowered(
        self,
        targets: Seq<(String, Pico)>,
        duration: Pico,
        active: Seq<usize>,
        emitting: Option<usize>,
        label: Seq<char>,
    ) -> Result<Place, Seq<char>> {
        match self.l.consumed(None, active, emitting, None, label, 0) {
            Err(e) => Err(e),
            Ok((l, Some(record))) => Ok(
                Place { l, ..self }.ramped(
                    label,
                    record.segments[0].waypoints[0],
                    record.segments[0].waypoints[1],
                    record.duration,
                ),
            ),
            Ok((l, None)) => match targeted(l.robot, self.q, targets, label, 0) {
                Err(e) => Err(e),
                Ok(to) => Ok(Place { l, ..self }.ramped(label, self.q, to, duration)),
            },
        }
    }

    /// With what lowering conditions and device commands emits.
    pub open spec fn emit(self) -> Emit {
        Emit { commands: self.out, warnings: self.l.warnings }
    }

    pub open spec fn emitted(self, e: Emit) -> Place {
        Place { l: LowerView { warnings: e.warnings, ..self.l }, out: e.commands, ..self }
    }

    /// What an action that is refused leaves behind: nothing emitted, and the
    /// configuration as it was. Sources that were asked for a record have moved
    /// on, up to one that has none.
    pub open spec fn action_left(self, action: Action, active: Seq<usize>, label: Seq<char>) -> Place {
        match action {
            Action::StartMotion { motion } => Place {
                l: self.l.consumed_left(active, Some(motion@), label, 0),
                ..self
            },
            Action::StartToolpath { toolpath, .. } => Place {
                l: self.l.consumed_left(active, Some(toolpath@), label, 0),
                ..self
            },
            Action::StartRamp { .. } => Place {
                l: self.l.consumed_left(active, None, label, 0),
                ..self
            },
            _ => self,
        }
    }

    /// One action.
    pub open spec fn action_lowered(
        self,
        action: Action,
        active: Seq<usize>,
        emitting: Option<usize>,
        label: Seq<char>,
    ) -> Result<Place, Seq<char>> {
        match action {
            Action::StartMotion { motion } => self.motion_lowered(
                motion@,
                active,
                emitting,
                label,
            ),
            Action::StartToolpath { toolpath, .. } => self.motion_lowered(
                toolpath@,
                active,
                emitting,
                label,
            ),
            Action::StartRamp { targets, duration, .. } => self.ramp_lowered(
                targets@,
                duration,
                active,
                emitting,
                label,
            ),
            Action::Attach { object, .. } => Ok(
                self.command(
                    CommandView::Comment {
                        text: "attach "@ + object@
                            + " (simulation grasp — drive the real gripper via a mapped output)"@,
                    },
                ),
            ),
            Action::Detach { object } => Ok(
                self.command(
                    CommandView::Comment {
                        text: "detach "@ + object@ + " (simulation release)"@,
                    },
                ),
            ),
            Action::Track { .. } => Err(no_tracking(label)),
            Action::Untrack { .. } => Err(no_tracking(label)),
            Action::SetSignal { signal, value } => match port_of(self.l.io.outputs, signal@) {
                Some(p) => Ok(
                    self.command(
                        CommandView::SetDigitalOut { port: p.port, value: value != p.invert },
                    ),
                ),
                None => Err(
                    label + ": signal `"@ + signal@
                        + "` has no output port — bind it on the robot controller node (bind_output) or pass outputs={\""@
                        + signal@ + "\": <port>}"@,
                ),
            },
            Action::Device { device, command } => Ok(
                self.emitted(
                    device_lowered(device@, command, self.l.io, label, self.emit()),
                ),
            ),
        }
    }

    /// The actions from `from` on.
    pub open spec fn actions_lowered(
        self,
        actions: Seq<Action>,
        active: Seq<usize>,
        emitting: Option<usize>,
        label: Seq<char>,
        from: int,
    ) -> Result<Place, Seq<char>>
        decreases actions.len() - from,
    {
        if from < 0 || from >= actions.len() {
            Ok(self)
        } else {
            match self.action_lowered(actions[from], active, emitting, label) {
                Err(e) => Err(e),
                Ok(p) => p.actions_lowered(actions, active, emitting, label, from + 1),
            }
        }
    }
}

/// Conveyor tracking has no script form.
pub open spec fn no_tracking(label: Seq<char>) -> Seq<char> {
    label
        + ": conveyor tracking cannot be exported — the controller's own tracking function (e.g. UR conveyor tracking) has to take that over"@
}

/// Whether an action starts a move.
pub open spec fn starts_move(action: Action) -> bool {
    action is StartMotion || action is StartToolpath || action is StartRamp
}

/// Whether any of the actions starts a move.
pub open spec fn any_starts_move(actions: Seq<Action>) -> bool {
    exists|i: int| 0 <= i < actions.len() && starts_move(#[trigger] actions[i])
}

/// The sources among the active ones that took arm `j`.
pub open spec fn took(active: Seq<usize>, arms: Seq<usize>, j: int, n: nat) -> Seq<usize>
    decreases n,
{
    if n == 0 {
        Seq::empty()
    } else {
        let less = took(active, arms, j, (n - 1) as nat);
        if arms[n - 1] == j {
            less.push(active[n - 1])
        } else {
            less
        }
    }
}

/// Whose records become an arm's commands: the emitting source's where it took
/// the arm, else the first that did, where it reached the branch at the same
/// configuration; nobody's where no source did.
pub open spec fn emitter(
    l: LowerView,
    emitting: Option<usize>,
    takers: Seq<usize>,
    entry: Seq<Pico>,
    label: Seq<char>,
) -> Result<Option<usize>, Seq<char>> {
    match emitting {
        None => Ok(None),
        Some(e) => if takers.contains(e) {
            Ok(Some(e))
        } else if takers.len() == 0 {
            Ok(None)
        } else {
            let donor = takers[0];
            let deviation = apart(l.sources[donor as int].cur_q, entry);
            if deviation > MICRO {
                Err(
                    "scenario `"@ + l.sources[donor as int].scenario + "` reaches "@ + label
                        + " at a different configuration than `"@ + l.sources[e as int].scenario
                        + "` (Δ "@ + decimal_places(deviation as int, 4)
                        + " rad) — the shared path diverged before the branch, so its arm cannot be spliced into one program"@,
                )
            } else {
                Ok(Some(donor))
            }
        },
    }
}

/// The greatest distance of configuration `a` to the first `n` of a list.
pub open spec fn farthest(a: Seq<Pico>, list: Seq<Seq<Pico>>, n: nat) -> Pico
    decreases n,
{
    if n == 0 {
        0
    } else {
        let less = farthest(a, list, (n - 1) as nat);
        let d = apart(a, list[n - 1]);
        if d > less {
            d
        } else {
            less
        }
    }
}

/// The greatest distance between any of the first `n` of a list and any of it.
pub open spec fn widest(list: Seq<Seq<Pico>>, n: nat) -> Pico
    decreases n,
{
    if n == 0 {
        0
    } else {
        let less = widest(list, (n - 1) as nat);
        let d = farthest(list[n - 1], list, list.len());
        if d > less {
            d
        } else {
            less
        }
    }
}

/// Where an emitting source is among the active ones, from `from` on.
pub open spec fn place_of(active: Seq<usize>, e: usize, from: int) -> Option<int>
    decreases active.len() - from,
{
    if from < 0 || from >= active.len() {
        None
    } else if active[from] == e {
        Some(from)
    } else {
        place_of(active, e, from + 1)
    }
}

/// What the arms of a branching step lower to.
#[verifier::ext_equal]
pub struct Arms {
    pub l: LowerView,
    pub arms: Seq<ArmView>,
    /// The configuration that each arm ends in.
    pub exits: Seq<Seq<Pico>>,
}

/// A branching step as it is lowered: who is active, which arm each took, and
/// the configuration at the branch.
#[verifier::ext_equal]
pub struct Branch {
    pub active: Seq<usize>,
    pub taken: Seq<usize>,
    pub emitting: Option<usize>,
    pub entry: Seq<Pico>,
    pub label: Seq<char>,
}

/// A list of steps. The active sources consume their cursors here; the
/// emitting one's records become commands.
pub open spec fn steps_lowered(
    p: Place,
    steps: Seq<Step>,
    active: Seq<usize>,
    emitting: Option<usize>,
) -> Result<Place, Seq<char>>
    decreases steps,
{
    if steps.len() == 0 {
        Ok(p)
    } else {
        match step_lowered(p, steps[0], active, emitting) {
            Err(e) => Err(e),
            Ok(next) => steps_lowered(next, steps.drop_first(), active, emitting),
        }
    }
}

/// One step: a comment, then its actions and its transition, or its branch.
pub open spec fn step_lowered(
    p: Place,
    step: Step,
    active: Seq<usize>,
    emitting: Option<usize>,
) -> Result<Place, Seq<char>>
    decreases step,
{
    let no = bumped(p.l.step_no);
    let label = "step "@ + decimal(no as nat) + " `"@ + step.name@ + "`"@;
    let title = "step "@ + decimal(no as nat) + ": "@ + step.name@;
    let counted = Place { l: LowerView { step_no: no, ..p.l }, ..p };
    if step.select@.len() > 0 {
        let here = counted.command(CommandView::Comment { text: title + " (branch)"@ });
        let ordinal = here.l.selects_seen;
        let l = LowerView { selects_seen: bumped(ordinal), ..here.l };
        match l.decided(Seq::empty(), active, ordinal, step.name@, label, 0) {
            Err(e) => Err(e),
            Ok((after, taken)) => {
                let b = Branch { active, taken, emitting, entry: here.q, label };
                match arms_lowered(after, step.select@, 0, b) {
                    Err(e) => Err(e),
                    Ok(arms) => Ok(rejoined(here, arms, b)),
                }
            },
        }
    } else {
        let here = counted.command(CommandView::Comment { text: title });
        match here.actions_lowered(step.actions@, active, emitting, label, 0) {
            Err(e) => Err(e),
            Ok(next) => match waits_for(
                step.transition,
                next.l.io,
                next.l.plain,
                label,
                any_starts_move(step.actions@),
                next.emit(),
            ) {
                Err(e) => Err(e),
                Ok(emit) => Ok(next.emitted(emit)),
            },
        }
    }
}

/// The arms of a branching step, the first of them numbered `j`.
pub open spec fn arms_lowered(l: LowerView, arms: Seq<SelectArm>, j: int, b: Branch) -> Result<
    Arms,
    Seq<char>,
>
    decreases arms,
{
    if arms.len() == 0 {
        Ok(Arms { l, arms: Seq::empty(), exits: Seq::empty() })
    } else {
        match test_of(arms[0].condition, l.io, b.label + " arm "@ + decimal((j + 1) as nat)) {
            Err(e) => Err(e),
            Ok(test) => {
                let takers = took(b.active, b.taken, j, b.active.len());
                match emitter(l, b.emitting, takers, b.entry, b.label) {
                    Err(e) => Err(e),
                    Ok(who) => match steps_lowered(
                        Place { l, q: b.entry, out: Seq::empty() },
                        arms[0].steps@,
                        takers,
                        who,
                    ) {
                        Err(e) => Err(e),
                        Ok(p) => match arms_lowered(p.l, arms.drop_first(), j + 1, b) {
                            Err(e) => Err(e),
                            Ok(rest) => Ok(
                                Arms {
                                    l: rest.l,
                                    arms: seq![
                                        ArmView { test: simplified(l.plain, test), body: p.out },
                                    ] + rest.arms,
                                    exits: seq![p.q] + rest.exits,
                                },
                            ),
                        },
                    },
                }
            },
        }
    }
}

/// The arms of a branching step rejoined: on with where the emitting source's
/// arm ended, and a note where they end apart.
pub open spec fn rejoined(here: Place, arms: Arms, b: Branch) -> Place {
    let deviation = widest(arms.exits, arms.exits.len());
    Place {
        l: if deviation > MICRO {
            LowerView { pending_rejoin: Some((b.label, deviation)), ..arms.l }
        } else {
            arms.l
        },
        q: match b.emitting {
            Some(e) => match place_of(b.active, e, 0) {
                Some(i) => if b.taken[i] < arms.exits.len() {
                    arms.exits[b.taken[i] as int]
                } else {
                    here.q
                },
                None => here.q,
            },
            None => here.q,
        },
        out: here.out.push(CommandView::Select { arms: arms.arms }),
    }
}

/// A lowering at some place of the program.
pub open spec fn at(l: LowerView, q: Seq<Pico>, out: Seq<Command>) -> Place {
    Place { l, q, out: command_views(out) }
}

/// A ramp's plan goes from one configuration to another.
pub open spec fn ramp_shaped(p: PlannedView) -> bool {
    p.motion is None && p.segments.len() > 0 ==> p.segments[0].waypoints.len() >= 2
}

impl LowerView {
    /// Every ramp that was planned is one.
    pub open spec fn shaped(self) -> bool {
        forall|i: int, k: int|
            0 <= i < self.sources.len() && 0 <= k < self.sources[i].planned.len() ==> ramp_shaped(
                #[trigger] self.sources[i].planned[k],
            )
    }

    /// The sources are there.
    pub open spec fn knows(self, active: Seq<usize>) -> bool {
        forall|k: int| 0 <= k < active.len() ==> (#[trigger] active[k]) < self.sources.len()
    }
}

/// The same wiring, robot and plans.
pub open spec fn same_plans(v: LowerView, w: LowerView) -> bool {
    &&& w.io == v.io
    &&& w.plain == v.plain
    &&& w.robot == v.robot
    &&& w.sources.len() == v.sources.len()
    &&& forall|i: int|
        0 <= i < v.sources.len() ==> (#[trigger] w.sources[i]).planned == v.sources[i].planned
}

/// Whether a result is what was to come, and the plans are the same.
pub open spec fn lowers_as(
    r: Result<(), String>,
    before: LowerView,
    after: Place,
    want: Result<Place, Seq<char>>,
) -> bool {
    match (r, want) {
        (Ok(_), Ok(p)) => after == p && same_plans(before, after.l),
        (Err(m), Err(w)) => m@ == w,
        _ => false,
    }
}

/// The view of an optional record.
pub open spec fn opt_record(record: Option<&PlannedMove>) -> Option<PlannedView> {
    match record {
        Some(p) => Some(p@),
        None => None,
    }
}

impl<'a> Lowering<'a> {
    fn note_move(&mut self, linear: bool)
        ensures
            final(self)@ == old(self)@.noted(linear),
            same_plans(old(self)@, final(self)@),
    {
        let ghost before = self@;
        match &self.pending_rejoin {
            Some((select, deviation)) => {
                if linear {
                    let mut s: String = cat5(
                        "the arms of ",
                        select.as_str(),
                        " rejoin at configurations up to ",
                        places_text(*deviation, 4).as_str(),
                        " rad apart, and the next move is a straight line — its path depends on which arm ran; put a joint move first if the line matters",
                    );
                    let ghost seen = s@;
                    self.warnings.push(s);
                    assert(texts(self.warnings@) =~= before.warnings.push(seen));
                }
            },
            None => {
                return;
            },
        }
        self.pending_rejoin = None;
        assert(self@ =~= before.noted(linear));
    }

    /// Every active source consumes its next planned move; the emitting one's
    /// is the record.
    fn consume(
        &mut self,
        active: &Vec<usize>,
        emitting: Option<usize>,
        motion: Option<&str>,
        label: &str,
    ) -> (r: Result<Option<&'a PlannedMove>, String>)
        requires
            old(self)@.knows(active@),
            old(self)@.shaped(),
        ensures
            match (
                r,
                old(self)@.consumed(None, active@, emitting, opt_text(motion), label@, 0),
            ) {
                (Ok(record), Ok((l, w))) => {
                    &&& final(self)@ == l
                    &&& opt_record(record) == w
                    &&& same_plans(old(self)@, final(self)@)
                    &&& record matches Some(p) ==> p.segments@.len() > 0 && opt(p.motion)
                        == opt_text(motion) && ramp_shaped(p@)
                },
                (Err(e), Err(w)) => e@ == w,
                _ => false,
            },
            final(self)@ == old(self)@.consumed_left(active@, opt_text(motion), label@, 0),
    {
        let ghost first = self@;
        let mut record: Option<&'a PlannedMove> = None;
        let mut n: usize = 0;
        while n < active.len()
            invariant
                n <= active.len(),
                first == old(self)@,
                first.knows(active@),
                first.shaped(),
                same_plans(first, self@),
                record matches Some(p) ==> p.segments@.len() > 0 && opt(p.motion) == opt_text(
                    motion,
                ) && ramp_shaped(p@),
                first.consumed_left(active@, opt_text(motion), label@, 0) == self@.consumed_left(
                    active@,
                    opt_text(motion),
                    label@,
                    n as int,
                ),
                first.consumed(None, active@, emitting, opt_text(motion), label@, 0)
                    == self@.consumed(
                    opt_record(record),
                    active@,
                    emitting,
                    opt_text(motion),
                    label@,
                    n as int,
                ),
            decreases active.len() - n,
        {
            let ghost before = self@;
            let i: usize = active[n];
            assert(active@[n as int] < first.sources.len());
            assert(before.sources[i as int] == self.sources@[i as int]@);
            let ghost k = before.sources[i as int].planned_next as int;
            match self.sources[i].next_planned(motion, label) {
                Ok(p) => {
                    proof {
                        let s = before.sources[i as int].next_planned(
                            opt_text(motion),
                            label@,
                        )->Ok_0.0;
                        assert(self@.sources =~= before.sources.update(i as int, s));
                        assert(self@ =~= before.with_source(i as int, s));
                        assert(first.sources[i as int].planned[k] == p@);
                        assert(ramp_shaped(first.sources[i as int].planned[k]));
                    }
                    let emits: bool = match emitting {
                        Some(e) => e == i,
                        None => false,
                    };
                    if emits {
                        record = Some(p);
                    }
                },
                Err(e) => {
                    proof {
                        assert(self@.sources =~= before.sources);
                        assert(self@ =~= before);
                    }
                    return Err(e);
                },
            }
            n = n + 1;
        }
        Ok(record)
    }

    fn lower_segment(
        &mut self,
        segment: &PlannedSegment,
        q: &Vec<Pico>,
        out: &mut Vec<Command>,
    )
        ensures
            at(final(self)@, q@, final(out)@) == at(old(self)@, q@, old(out)@).segment(segment@),
            same_plans(old(self)@, final(self)@),
    {
        let ghost p0 = at(self@, q@, out@);
        let n: usize = segment.waypoints.len();
        match segment.kind {
            SegmentKind::Joint => {
                let mut i: usize = 1;
                while i < n
                    invariant
                        1 <= i,
                        n == segment.waypoints@.len(),
                        same_plans(old(self)@, self@),
                        p0.joint_moves(segment@.waypoints, 1) == at(
                            self@,
                            q@,
                            out@,
                        ).joint_moves(segment@.waypoints, i as int),
                    decreases n - i,
                {
                    assert(segment@.waypoints[i as int] == segment.waypoints@[i as int]@);
                    let velocity: Pico = self.joint_velocity;
                    let acceleration: Pico = self.joint_acceleration;
                    let blend: Pico = if i < n - 1 {
                        self.blend_radius
                    } else {
                        0
                    };
                    self.note_move(false);
                    push_command(
                        out,
                        Command::MoveJoint {
                            q: copied(&segment.waypoints[i]),
                            velocity,
                            acceleration,
                            blend,
                        },
                    );
                    i = i + 1;
                }
            },
            SegmentKind::CartesianLine => {
                if n > 1 {
                    assert(segment@.waypoints.last() == segment.waypoints@[n - 1]@);
                    self.note_move(true);
                    push_command(
                        out,
                        Command::MoveLinear {
                            q: copied(&segment.waypoints[n - 1]),
                            velocity: match segment.tcp_speed {
                                Some(v) => v,
                                None => self.tcp_velocity,
                            },
                            acceleration: self.tcp_acceleration,
                            blend: self.blend_radius,
                        },
                    );
                }
            },
        }
    }

    fn lower_move(&mut self, record: &PlannedMove, q: &mut Vec<Pico>, out: &mut Vec<Command>)
        ensures
            at(final(self)@, final(q)@, final(out)@) == at(
                old(self)@,
                old(q)@,
                old(out)@,
            ).moved(record@),
            same_plans(old(self)@, final(self)@),
    {
        let ghost p0 = at(self@, q@, out@);
        let ghost list = record@.segments;
        let mut i: usize = 0;
        while i < record.segments.len()
            invariant
                i <= record.segments.len(),
                list == record@.segments,
                q@ == old(q)@,
                same_plans(old(self)@, self@),
                p0.segments(list, 0) == at(self@, q@, out@).segments(list, i as int),
            decreases record.segments.len() - i,
        {
            assert(list[i as int] == record.segments@[i as int]@);
            self.lower_segment(&record.segments[i], q, out);
            i = i + 1;
        }
        rest_last(out);
        let n: usize = record.segments.len();
        if n > 0 {
            assert(list.last() == record.segments@[n - 1]@);
            let m: usize = record.segments[n - 1].waypoints.len();
            if m > 0 {
                assert(list.last().waypoints.last() == record.segments@[n - 1].waypoints@[m - 1]@);
                *q = copied(&record.segments[n - 1].waypoints[m - 1]);
            }
        }
    }

    fn lower_ramp(
        &mut self,
        label: &str,
        from: &Vec<Pico>,
        to: &Vec<Pico>,
        duration: Pico,
        q: &mut Vec<Pico>,
        out: &mut Vec<Command>,
    )
        ensures
            at(final(self)@, final(q)@, final(out)@) == at(
                old(self)@,
                old(q)@,
                old(out)@,
            ).ramped(label@, from@, to@, duration),
            same_plans(old(self)@, final(self)@),
    {
        let ghost before = self@;
        let travel: Pico = distance(from, to);
        *q = copied(to);
        if travel < 1 {
            if duration > 0 {
                push_command(out, Command::Sleep { seconds: duration });
            }
            return;
        }
        let limit: Pico = self.joint_velocity;
        let pace: Option<Pico> = if duration > 0 {
            assert(0 <= travel * UNIT <= i64::MAX * UNIT) by (nonlinear_arith)
                requires
                    0 <= travel <= i64::MAX,
                    UNIT == 1_000_000_000_000i64,
            ;
            Some(clipped(floor_div(travel as i128 * UNIT as i128, duration as i128)))
        } else {
            None
        };
        let fast: bool = match pace {
            Some(v) => v as i128 > limit as i128 + NANO as i128,
            None => true,
        };
        if fast {
            let shown: String = match pace {
                Some(v) => places_text(v, 3),
                None => String::from_str("inf"),
            };
            let mut s: String = cat5(
                label,
                ": ramp asks ",
                shown.as_str(),
                " rad/s but the joint limit allows ",
                places_text(limit, 3).as_str(),
            );
            s.append("; the controller will run it slower");
            let ghost seen = s@;
            self.warnings.push(s);
            assert(texts(self.warnings@) =~= before.warnings.push(seen));
            assert(self@ =~= (LowerView { warnings: before.warnings.push(seen), ..before }));
        }
        self.note_move(false);
        push_command(
            out,
            Command::MoveJoint {
                q: copied(to),
                velocity: match pace {
                    Some(v) => if v < limit {
                        v
                    } else {
                        limit
                    },
                    None => limit,
                },
                acceleration: self.joint_acceleration,
                blend: 0,
            },
        );
    }

    fn ramp_target(&self, q: &Vec<Pico>, targets: &Vec<(String, Pico)>, label: &str) -> (r: Result<
        Vec<Pico>,
        String,
    >)
        ensures
            match (r, targeted(*self.robot, q@, targets@, label@, 0)) {
                (Ok(to), Ok(w)) => to@ == w,
                (Err(e), Err(w)) => e@ == w,
                _ => false,
            },
    {
        let mut to: Vec<Pico> = copied(q);
        let mut i: usize = 0;
        while i < targets.len()
            invariant
                i <= targets.len(),
                targeted(*self.robot, q@, targets@, label@, 0) == targeted(
                    *self.robot,
                    to@,
                    targets@,
                    label@,
                    i as int,
                ),
            decreases targets.len() - i,
        {
            let joint: &str = targets[i].0.as_str();
            match find_named(&self.robot.joints, joint) {
                Some(j) => match self.robot.joints[j].q_index {
                    Some(qi) => {
                        if qi < to.len() {
                            to.set(qi, targets[i].1);
                        }
                    },
                    None => {
                        return Err(joint_text(label, ": joint `", joint, "` is not actuated"));
                    },
                },
                None => {
                    return Err(joint_text(label, ": unknown joint `", joint, "`"));
                },
            }
            i = i + 1;
        }
        Ok(to)
    }
}

fn joint_text(label: &str, before: &str, joint: &str, after: &str) -> (r: String)
    ensures
        r@ == label@ + before@ + joint@ + after@,
{
    let mut s: String = cat3(label, before, joint);
    s.append(after);
    s
}

fn rest_last(out: &mut Vec<Command>)
    ensures
        command_views(final(out)@) == at_rest(command_views(old(out)@)),
{
    let ghost before = out@;
    match out.pop() {
        Some(c) => {
            assert(before.last() == c);
            assert(out@ =~= before.drop_last());
            let ghost less = command_views(before.drop_last());
            assert(command_views(before) == less.push(command_view(c)));
            assert(command_views(before).drop_last() =~= less);
            match c {
                Command::MoveLinear { q, velocity, acceleration, .. } => {
                    push_command(
                        out,
                        Command::MoveLinear { q, velocity, acceleration, blend: 0 },
                    );
                },
                other => {
                    push_command(out, other);
                },
            }
        },
        None => {},
    }
}

fn tracking_text(label: &str) -> (r: String)
    ensures
        r@ == no_tracking(label@),
{
    let mut s: String = String::from_str(label);
    s.append(
        ": conveyor tracking cannot be exported — the controller's own tracking function (e.g. UR conveyor tracking) has to take that over",
    );
    s
}

impl<'a> Lowering<'a> {
    fn lower_motion(
        &mut self,
        motion: &str,
        active: &Vec<usize>,
        emitting: Option<usize>,
        label: &str,
        q: &mut Vec<Pico>,
        out: &mut Vec<Command>,
    ) -> (r: Result<(), String>)
        requires
            old(self)@.knows(active@),
            old(self)@.shaped(),
        ensures
            lowers_as(
                r,
                old(self)@,
                at(final(self)@, final(q)@, final(out)@),
                at(old(self)@, old(q)@, old(out)@).motion_lowered(
                    motion@,
                    active@,
                    emitting,
                    label@,
                ),
            ),
            r is Err ==> at(final(self)@, final(q)@, final(out)@) == at(
                old(self)@.consumed_left(active@, Some(motion@), label@, 0),
                old(q)@,
                old(out)@,
            ),
    {
        let ghost p0 = at(self@, q@, out@);
        match self.consume(active, emitting, Some(motion), label) {
            Err(e) => Err(e),
            Ok(None) => {
                let mut s: String = cat3(label, ": motion `", motion);
                s.append(
                    "` lies on an arm no exported rollout took, so it was never planned — add a scenario that takes this arm to the sweep, or keep skipped arms motion-free (I/O, ramps)",
                );
                Err(s)
            },
            Ok(Some(record)) => {
                self.lower_move(record, q, out);
                Ok(())
            },
        }
    }

    fn lower_ramping(
        &mut self,
        targets: &Vec<(String, Pico)>,
        duration: Pico,
        active: &Vec<usize>,
        emitting: Option<usize>,
        label: &str,
        q: &mut Vec<Pico>,
        out: &mut Vec<Command>,
    ) -> (r: Result<(), String>)
        requires
            old(self)@.knows(active@),
            old(self)@.shaped(),
        ensures
            lowers_as(
                r,
                old(self)@,
                at(final(self)@, final(q)@, final(out)@),
                at(old(self)@, old(q)@, old(out)@).ramp_lowered(
                    targets@,
                    duration,
                    active@,
                    emitting,
                    label@,
                ),
            ),
            r is Err ==> at(final(self)@, final(q)@, final(out)@) == at(
                old(self)@.consumed_left(active@, None, label@, 0),
                old(q)@,
                old(out)@,
            ),
    {
        match self.consume(active, emitting, None, label) {
            Err(e) => Err(e),
            Ok(Some(record)) => {
                assert(record@.segments[0] == record.segments@[0]@);
                assert(record@.segments[0].waypoints[0] == record.segments@[0].waypoints@[0]@);
                assert(record@.segments[0].waypoints[1] == record.segments@[0].waypoints@[1]@);
                self.lower_ramp(
                    label,
                    &record.segments[0].waypoints[0],
                    &record.segments[0].waypoints[1],
                    record.duration,
                    q,
                    out,
                );
                Ok(())
            },
            Ok(None) => match self.ramp_target(q, targets, label) {
                Err(e) => Err(e),
                Ok(to) => {
                    let from: Vec<Pico> = copied(q);
                    self.lower_ramp(label, &from, &to, duration, q, out);
                    Ok(())
                },
            },
        }
    }

    /// One action.
    pub fn lower_action(
        &mut self,
        action: &Action,
        active: &Vec<usize>,
        emitting: Option<usize>,
        label: &str,
        q: &mut Vec<Pico>,
        out: &mut Vec<Command>,
    ) -> (r: Result<(), String>)
        requires
            old(self)@.knows(active@),
            old(self)@.shaped(),
        ensures
            lowers_as(
                r,
                old(self)@,
                at(final(self)@, final(q)@, final(out)@),
                at(old(self)@, old(q)@, old(out)@).action_lowered(
                    *action,
                    active@,
                    emitting,
                    label@,
                ),
            ),
            r is Err ==> at(final(self)@, final(q)@, final(out)@) == at(
                old(self)@,
                old(q)@,
                old(out)@,
            ).action_left(*action, active@, label@),
    {
        let ghost before = self@;
        let ghost p0 = at(self@, q@, out@);
        match action {
            Action::StartMotion { motion } => self.lower_motion(
                motion.as_str(),
                active,
                emitting,
                label,
                q,
                out,
            ),
            Action::StartToolpath { toolpath, .. } => self.lower_motion(
                toolpath.as_str(),
                active,
                emitting,
                label,
                q,
                out,
            ),
            Action::StartRamp { targets, duration, .. } => self.lower_ramping(
                targets,
                *duration,
                active,
                emitting,
                label,
                q,
                out,
            ),
            Action::Attach { object, .. } => {
                push_command(
                    out,
                    Command::Comment {
                        text: cat3(
                            "attach ",
                            object.as_str(),
                            " (simulation grasp — drive the real gripper via a mapped output)",
                        ),
                    },
                );
                Ok(())
            },
            Action::Detach { object } => {
                push_command(
                    out,
                    Command::Comment {
                        text: cat3("detach ", object.as_str(), " (simulation release)"),
                    },
                );
                Ok(())
            },
            Action::Track { .. } => Err(tracking_text(label)),
            Action::Untrack { .. } => Err(tracking_text(label)),
            Action::SetSignal { signal, value } => match find_port(
                &self.io.outputs,
                signal.as_str(),
            ) {
                Some(p) => {
                    push_command(
                        out,
                        Command::SetDigitalOut { port: p.port, value: *value != p.invert },
                    );
                    Ok(())
                },
                None => {
                    let mut s: String = cat5(
                        label,
                        ": signal `",
                        signal.as_str(),
                        "` has no output port — bind it on the robot controller node (bind_output) or pass outputs={\"",
                        signal.as_str(),
                    );
                    s.append("\": <port>}");
                    Err(s)
                },
            },
            Action::Device { device, command } => {
                lower_device(
                    device.as_str(),
                    command,
                    self.io,
                    label,
                    out,
                    &mut self.warnings,
                );
                assert(at(self@, q@, out@) =~= p0.emitted(
                    device_lowered(device@, *command, before.io, label@, p0.emit()),
                ));
                Ok(())
            },
        }
    }

    fn lower_actions(
        &mut self,
        actions: &Vec<Action>,
        active: &Vec<usize>,
        emitting: Option<usize>,
        label: &str,
        q: &mut Vec<Pico>,
        out: &mut Vec<Command>,
    ) -> (r: Result<(), String>)
        requires
            old(self)@.knows(active@),
            old(self)@.shaped(),
        ensures
            lowers_as(
                r,
                old(self)@,
                at(final(self)@, final(q)@, final(out)@),
                at(old(self)@, old(q)@, old(out)@).actions_lowered(
                    actions@,
                    active@,
                    emitting,
                    label@,
                    0,
                ),
            ),
    {
        let ghost first = self@;
        let ghost p0 = at(self@, q@, out@);
        let mut i: usize = 0;
        while i < actions.len()
            invariant
                i <= actions.len(),
                first == old(self)@,
                first.knows(active@),
                first.shaped(),
                same_plans(first, self@),
                p0 == at(old(self)@, old(q)@, old(out)@),
                p0.actions_lowered(actions@, active@, emitting, label@, 0) == at(
                    self@,
                    q@,
                    out@,
                ).actions_lowered(actions@, active@, emitting, label@, i as int),
            decreases actions.len() - i,
        {
            proof {
                lemma_same_plans(first, self@);
            }
            match self.lower_action(&actions[i], active, emitting, label, q, out) {
                Ok(_) => {},
                Err(e) => {
                    return Err(e);
                },
            }
            i = i + 1;
        }
        Ok(())
    }

    /// Every active source consumes its next decision.
    fn decide(&mut self, active: &Vec<usize>, select: usize, step: &str, label: &str) -> (r: Result<
        Vec<usize>,
        String,
    >)
        requires
            old(self)@.knows(active@),
        ensures
            match (
                r,
                old(self)@.decided(Seq::empty(), active@, select, step@, label@, 0),
            ) {
                (Ok(arms), Ok((l, w))) => final(self)@ == l && arms@ == w && same_plans(
                    old(self)@,
                    final(self)@,
                ) && arms@.len() == active@.len(),
                (Err(e), Err(w)) => e@ == w,
                _ => false,
            },
    {
        let ghost first = self@;
        let mut arms: Vec<usize> = Vec::new();
        let mut n: usize = 0;
        assert(arms@ =~= Seq::<usize>::empty());
        while n < active.len()
            invariant
                n <= active.len(),
                first == old(self)@,
                first.knows(active@),
                same_plans(first, self@),
                arms@.len() == n,
                first.decided(Seq::empty(), active@, select, step@, label@, 0) == self@.decided(
                    arms@,
                    active@,
                    select,
                    step@,
                    label@,
                    n as int,
                ),
            decreases active.len() - n,
        {
            let ghost before = self@;
            let i: usize = active[n];
            assert(active@[n as int] < first.sources.len());
            assert(before.sources[i as int] == self.sources@[i as int]@);
            match self.sources[i].next_decision(select, step, label) {
                Ok(arm) => {
                    proof {
                        let s = before.sources[i as int].next_decision(
                            select,
                            step@,
                            label@,
                        )->Ok_0.0;
                        assert(self@.sources =~= before.sources.update(i as int, s));
                        assert(self@ =~= before.with_source(i as int, s));
                    }
                    arms.push(arm);
                },
                Err(e) => {
                    return Err(e);
                },
            }
            n = n + 1;
        }
        Ok(arms)
    }

    fn find_emitter(
        &self,
        emitting: Option<usize>,
        takers: &Vec<usize>,
        entry: &Vec<Pico>,
        label: &str,
    ) -> (r: Result<Option<usize>, String>)
        requires
            self@.knows(takers@),
            emitting matches Some(e) ==> e < self.sources@.len(),
        ensures
            match (r, emitter(self@, emitting, takers@, entry@, label@)) {
                (Ok(who), Ok(w)) => who == w && (who matches Some(x) ==> x < self.sources@.len()),
                (Err(m), Err(w)) => m@ == w,
                _ => false,
            },
    {
        match emitting {
            None => Ok(None),
            Some(e) => {
                if holds_source(takers, e) {
                    return Ok(Some(e));
                }
                if takers.len() == 0 {
                    return Ok(None);
                }
                let donor: usize = takers[0];
                assert(takers@[0] < self.sources@.len());
                assert(self@.sources[donor as int] == self.sources@[donor as int]@);
                assert(self@.sources[e as int] == self.sources@[e as int]@);
                let deviation: Pico = distance(&self.sources[donor].cur_q, entry);
                if deviation > MICRO {
                    let mut s: String = cat7(
                        "scenario `",
                        self.sources[donor].scenario.as_str(),
                        "` reaches ",
                        label,
                        " at a different configuration than `",
                        self.sources[e].scenario.as_str(),
                        "` (Δ ",
                    );
                    s.append(places_text(deviation, 4).as_str());
                    s.append(
                        " rad) — the shared path diverged before the branch, so its arm cannot be spliced into one program",
                    );
                    return Err(s);
                }
                Ok(Some(donor))
            },
        }
    }

    /// A step list. The active sources consume their cursors here; the
    /// emitting one's records become commands.
    pub fn lower_steps(
        &mut self,
        steps: &Vec<Step>,
        active: &Vec<usize>,
        emitting: Option<usize>,
        q: &mut Vec<Pico>,
        out: &mut Vec<Command>,
    ) -> (r: Result<(), String>)
        requires
            old(self)@.knows(active@),
            old(self)@.shaped(),
            emitting matches Some(e) ==> e < old(self).sources@.len(),
        ensures
            lowers_as(
                r,
                old(self)@,
                at(final(self)@, final(q)@, final(out)@),
                steps_lowered(
                    at(old(self)@, old(q)@, old(out)@),
                    steps@,
                    active@,
                    emitting,
                ),
            ),
        decreases steps,
    {
        let ghost first = self@;
        let ghost p0 = at(self@, q@, out@);
        let mut i: usize = 0;
        assert(steps@.skip(0) =~= steps@);
        while i < steps.len()
            invariant
                i <= steps.len(),
                first == old(self)@,
                first.knows(active@),
                first.shaped(),
                emitting matches Some(e) ==> e < first.sources.len(),
                same_plans(first, self@),
                p0 == at(old(self)@, old(q)@, old(out)@),
                steps_lowered(p0, steps@, active@, emitting) == steps_lowered(
                    at(self@, q@, out@),
                    steps@.skip(i as int),
                    active@,
                    emitting,
                ),
            decreases steps.len() - i,
        {
            let ghost rest = steps@.skip(i as int);
            assert(rest[0] == steps@[i as int]);
            assert(rest.drop_first() =~= steps@.skip(i + 1));
            proof {
                lemma_same_plans(first, self@);
            }
            match self.lower_step(&steps[i], active, emitting, q, out) {
                Ok(_) => {},
                Err(e) => {
                    return Err(e);
                },
            }
            i = i + 1;
        }
        Ok(())
    }

    fn lower_step(
        &mut self,
        step: &Step,
        active: &Vec<usize>,
        emitting: Option<usize>,
        q: &mut Vec<Pico>,
        out: &mut Vec<Command>,
    ) -> (r: Result<(), String>)
        requires
            old(self)@.knows(active@),
            old(self)@.shaped(),
            emitting matches Some(e) ==> e < old(self).sources@.len(),
        ensures
            lowers_as(
                r,
                old(self)@,
                at(final(self)@, final(q)@, final(out)@),
                step_lowered(at(old(self)@, old(q)@, old(out)@), *step, active@, emitting),
            ),
        decreases step,
    {
        let ghost first = self@;
        let ghost p0 = at(self@, q@, out@);
        let no: usize = bump(self.step_no);
        self.step_no = no;
        let number: String = decimal_text(no as u64);
        let label: String = cat5("step ", number.as_str(), " `", step.name.as_str(), "`");
        let mut title: String = cat3("step ", number.as_str(), ": ");
        title.append(step.name.as_str());
        if step.select.len() > 0 {
            title.append(" (branch)");
            push_command(out, Command::Comment { text: title });
            let ghost here = at(self@, q@, out@);
            let ordinal: usize = self.selects_seen;
            self.selects_seen = bump(ordinal);
            proof {
                lemma_same_plans(first, self@);
            }
            let taken: Vec<usize> = match self.decide(
                active,
                ordinal,
                step.name.as_str(),
                label.as_str(),
            ) {
                Ok(taken) => taken,
                Err(e) => {
                    return Err(e);
                },
            };
            let ghost b = Branch {
                active: active@,
                taken: taken@,
                emitting,
                entry: q@,
                label: label@,
            };
            proof {
                lemma_same_plans(first, self@);
            }
            let mut arms: Vec<ProgramArm> = Vec::new();
            let mut exits: Vec<Vec<Pico>> = Vec::new();
            match self.lower_arms(
                &step.select,
                active,
                &taken,
                emitting,
                q,
                label.as_str(),
                &mut arms,
                &mut exits,
            ) {
                Ok(_) => {},
                Err(e) => {
                    return Err(e);
                },
            }
            let ghost done = Arms {
                l: self@,
                arms: crate::export::arm_views(arms@),
                exits: views(exits@),
            };
            match emitting {
                Some(e) => match find_source(active, e) {
                    Some(i) => {
                        if taken[i] < exits.len() {
                            assert(done.exits[taken@[i as int] as int]
                                == exits@[taken@[i as int] as int]@);
                            *q = copied(&exits[taken[i]]);
                        }
                    },
                    None => {},
                },
                None => {},
            }
            let deviation: Pico = widest_of(&exits);
            if deviation > MICRO {
                self.pending_rejoin = Some((label, deviation));
            }
            push_command(out, Command::Select { arms });
            assert(at(self@, q@, out@) =~= rejoined(here, done, b));
            Ok(())
        } else {
            push_command(out, Command::Comment { text: title });
            let ghost here = at(self@, q@, out@);
            proof {
                lemma_same_plans(first, self@);
            }
            match self.lower_actions(
                &step.actions,
                active,
                emitting,
                label.as_str(),
                q,
                out,
            ) {
                Ok(_) => {},
                Err(e) => {
                    return Err(e);
                },
            }
            let ghost next = at(self@, q@, out@);
            let started: bool = has_move(&step.actions);
            match lower_condition(
                &step.transition,
                self.io,
                self.plain,
                label.as_str(),
                started,
                out,
                &mut self.warnings,
            ) {
                Ok(_) => {
                    assert(at(self@, q@, out@) =~= next.emitted(
                        emit_of(out@, self.warnings@),
                    ));
                    Ok(())
                },
                Err(e) => Err(e),
            }
        }
    }

    fn lower_arms(
        &mut self,
        select: &Vec<SelectArm>,
        active: &Vec<usize>,
        taken: &Vec<usize>,
        emitting: Option<usize>,
        entry: &Vec<Pico>,
        label: &str,
        arms: &mut Vec<ProgramArm>,
        exits: &mut Vec<Vec<Pico>>,
    ) -> (r: Result<(), String>)
        requires
            old(self)@.knows(active@),
            old(self)@.shaped(),
            emitting matches Some(e) ==> e < old(self).sources@.len(),
            taken@.len() == active@.len(),
            old(arms)@.len() == 0,
            old(exits)@.len() == 0,
        ensures
            match (
                r,
                arms_lowered(
                    old(self)@,
                    select@,
                    0,
                    Branch {
                        active: active@,
                        taken: taken@,
                        emitting,
                        entry: entry@,
                        label: label@,
                    },
                ),
            ) {
                (Ok(_), Ok(want)) => want == (Arms {
                    l: final(self)@,
                    arms: crate::export::arm_views(final(arms)@),
                    exits: views(final(exits)@),
                }) && same_plans(old(self)@, final(self)@),
                (Err(e), Err(w)) => e@ == w,
                _ => false,
            },
        decreases select,
    {
        let ghost first = self@;
        let ghost b = Branch {
            active: active@,
            taken: taken@,
            emitting,
            entry: entry@,
            label: label@,
        };
        let ghost want = arms_lowered(first, select@, 0, b);
        let mut j: usize = 0;
        assert(select@.skip(0) =~= select@);
        proof {
            assert(crate::export::arm_views(arms@) =~= Seq::<ArmView>::empty());
            assert(views(exits@) =~= Seq::<Seq<Pico>>::empty());
            lemma_ahead(
                arms_lowered(first, select@, 0, b),
                crate::export::arm_views(arms@),
                views(exits@),
            );
        }
        while j < select.len()
            invariant
                j <= select.len(),
                first == old(self)@,
                first.knows(active@),
                first.shaped(),
                emitting matches Some(e) ==> e < first.sources.len(),
                taken@.len() == active@.len(),
                same_plans(first, self@),
                b == (Branch {
                    active: active@,
                    taken: taken@,
                    emitting,
                    entry: entry@,
                    label: label@,
                }),
                want == arms_lowered(first, select@, 0, b),
                want == ahead(
                    crate::export::arm_views(arms@),
                    views(exits@),
                    arms_lowered(self@, select@.skip(j as int), j as int, b),
                ),
            decreases select.len() - j,
        {
            let ghost rest = select@.skip(j as int);
            let ghost before = self@;
            let ghost made = crate::export::arm_views(arms@);
            let ghost ends = views(exits@);
            let ghost had = arms@;
            assert(rest[0] == select@[j as int]);
            assert(rest.drop_first() =~= select@.skip(j + 1));
            let mut arm_label: String = cat3(
                label,
                " arm ",
                decimal_text(j as u64 + 1).as_str(),
            );
            let test = match crate::lower::digital_test(
                &select[j].condition,
                self.io,
                arm_label.as_str(),
            ) {
                Ok(test) => self.plain.simplify(test),
                Err(e) => {
                    return Err(e);
                },
            };
            proof {
                lemma_same_plans(first, self@);
                lemma_took_known(first, active@, taken@, j as int, active@.len());
            }
            let takers: Vec<usize> = takers_of(active, taken, j);
            let who: Option<usize> = match self.find_emitter(emitting, &takers, entry, label) {
                Ok(who) => who,
                Err(e) => {
                    return Err(e);
                },
            };
            let mut arm_q: Vec<Pico> = copied(entry);
            let mut body: Vec<Command> = Vec::new();
            assert(command_views(body@) =~= Seq::<CommandView>::empty());
            match self.lower_steps(&select[j].steps, &takers, who, &mut arm_q, &mut body) {
                Ok(_) => {},
                Err(e) => {
                    return Err(e);
                },
            }
            let ghost one = ArmView {
                test: crate::export::test_view(test),
                body: command_views(body@),
            };
            let ghost end = arm_q@;
            arms.push(ProgramArm { test, body });
            exits.push(arm_q);
            proof {
                assert(arms@.drop_last() =~= had);
                assert(crate::export::arm_views(arms@) == made.push(one));
                assert(views(exits@) =~= ends.push(end));
                lemma_ahead_step(
                    made,
                    ends,
                    one,
                    end,
                    arms_lowered(self@, rest.drop_first(), j + 1, b),
                );
            }
            j = j + 1;
        }
        proof {
            assert(select@.skip(j as int).len() == 0);
            assert(crate::export::arm_views(arms@) + Seq::<ArmView>::empty()
                =~= crate::export::arm_views(arms@));
            assert(views(exits@) + Seq::<Seq<Pico>>::empty() =~= views(exits@));
        }
        Ok(())
    }
}

/// Arms put ahead of what the rest lowers to.
pub open spec fn ahead(arms: Seq<ArmView>, exits: Seq<Seq<Pico>>, rest: Result<Arms, Seq<char>>) -> Result<
    Arms,
    Seq<char>,
> {
    match rest {
        Ok(r) => Ok(Arms { l: r.l, arms: arms + r.arms, exits: exits + r.exits }),
        Err(e) => Err(e),
    }
}

proof fn lemma_ahead(rest: Result<Arms, Seq<char>>, arms: Seq<ArmView>, exits: Seq<Seq<Pico>>)
    requires
        arms.len() == 0,
        exits.len() == 0,
    ensures
        ahead(arms, exits, rest) == rest,
{
    match rest {
        Ok(r) => {
            assert(arms + r.arms =~= r.arms);
            assert(exits + r.exits =~= r.exits);
        },
        Err(_) => {},
    }
}

proof fn lemma_ahead_step(
    arms: Seq<ArmView>,
    exits: Seq<Seq<Pico>>,
    one: ArmView,
    end: Seq<Pico>,
    rest: Result<Arms, Seq<char>>,
)
    ensures
        ahead(arms, exits, ahead(seq![one], seq![end], rest)) == ahead(
            arms.push(one),
            exits.push(end),
            rest,
        ),
{
    match rest {
        Ok(r) => {
            assert(arms + (seq![one] + r.arms) =~= arms.push(one) + r.arms);
            assert(exits + (seq![end] + r.exits) =~= exits.push(end) + r.exits);
        },
        Err(_) => {},
    }
}

/// The same plans are shaped alike, and the same sources are there.
proof fn lemma_same_plans(v: LowerView, w: LowerView)
    requires
        same_plans(v, w),
    ensures
        v.shaped() ==> w.shaped(),
        forall|active: Seq<usize>| v.knows(active) ==> #[trigger] w.knows(active),
{
    if v.shaped() {
        assert forall|i: int, k: int|
            0 <= i < w.sources.len() && 0 <= k < w.sources[i].planned.len() implies ramp_shaped(
            #[trigger] w.sources[i].planned[k],
        ) by {
            assert(ramp_shaped(v.sources[i].planned[k]));
        }
    }
}

proof fn lemma_took_known(l: LowerView, active: Seq<usize>, arms: Seq<usize>, j: int, n: nat)
    requires
        l.knows(active),
        n <= active.len(),
        arms.len() == active.len(),
    ensures
        l.knows(took(active, arms, j, n)),
    decreases n,
{
    if n > 0 {
        lemma_took_known(l, active, arms, j, (n - 1) as nat);
        let less = took(active, arms, j, (n - 1) as nat);
        let all = took(active, arms, j, n);
        assert forall|k: int| 0 <= k < all.len() implies (#[trigger] all[k]) < l.sources.len() by {
            if k < less.len() {
                assert(all[k] == less[k]);
            }
        }
    }
}

fn takers_of(active: &Vec<usize>, taken: &Vec<usize>, j: usize) -> (r: Vec<usize>)
    requires
        taken@.len() == active@.len(),
    ensures
        r@ == took(active@, taken@, j as int, active@.len()),
{
    let mut out: Vec<usize> = Vec::new();
    let mut n: usize = 0;
    while n < active.len()
        invariant
            n <= active.len(),
            taken@.len() == active@.len(),
            out@ == took(active@, taken@, j as int, n as nat),
        decreases active.len() - n,
    {
        if taken[n] == j {
            out.push(active[n]);
        }
        n = n + 1;
    }
    out
}

fn holds_source(list: &Vec<usize>, e: usize) -> (r: bool)
    ensures
        r == list@.contains(e),
{
    let mut i: usize = 0;
    while i < list.len()
        invariant
            i <= list.len(),
            forall|k: int| 0 <= k < i ==> list@[k] != e,
        decreases list.len() - i,
    {
        if list[i] == e {
            assert(list@[i as int] == e);
            return true;
        }
        i = i + 1;
    }
    false
}

fn find_source(active: &Vec<usize>, e: usize) -> (r: Option<usize>)
    ensures
        crate::names::index_view(r) == place_of(active@, e, 0),
        r matches Some(i) ==> i < active@.len(),
{
    let mut i: usize = 0;
    while i < active.len()
        invariant
            i <= active.len(),
            place_of(active@, e, 0) == place_of(active@, e, i as int),
        decreases active.len() - i,
    {
        if active[i] == e {
            return Some(i);
        }
        i = i + 1;
    }
    None
}

fn has_move(actions: &Vec<Action>) -> (r: bool)
    ensures
        r == any_starts_move(actions@),
{
    let mut i: usize = 0;
    while i < actions.len()
        invariant
            i <= actions.len(),
            forall|k: int| 0 <= k < i ==> !starts_move(#[trigger] actions@[k]),
        decreases actions.len() - i,
    {
        let starts: bool = match &actions[i] {
            Action::StartMotion { .. } => true,
            Action::StartToolpath { .. } => true,
            Action::StartRamp { .. } => true,
            _ => false,
        };
        if starts {
            assert(starts_move(actions@[i as int]));
            return true;
        }
        i = i + 1;
    }
    false
}

fn widest_of(list: &Vec<Vec<Pico>>) -> (r: Pico)
    ensures
        r == widest(views(list@), list@.len()),
{
    let ghost all = views(list@);
    let mut most: Pico = 0;
    let mut n: usize = 0;
    while n < list.len()
        invariant
            n <= list.len(),
            all == views(list@),
            most == widest(all, n as nat),
        decreases list.len() - n,
    {
        assert(all[n as int] == list@[n as int]@);
        let mut far: Pico = 0;
        let mut k: usize = 0;
        while k < list.len()
            invariant
                k <= list.len(),
                n < list.len(),
                all == views(list@),
                all[n as int] == list@[n as int]@,
                far == farthest(all[n as int], all, k as nat),
            decreases list.len() - k,
        {
            assert(all[k as int] == list@[k as int]@);
            let d: Pico = distance(&list[n], &list[k]);
            if d > far {
                far = d;
            }
            k = k + 1;
        }
        if far > most {
            most = far;
        }
        n = n + 1;
    }
    most
}

/// How far apart two configurations are is how far the joint is that has the longest
/// way: no joint that both have is further, and one is as far. `i` is any joint.
pub proof fn law_apart_is_the_longest_way_of_a_joint(
    a: Seq<Pico>,
    b: Seq<Pico>,
    n: nat,
    i: int,
)
    requires
        n <= a.len(),
        n <= b.len(),
        forall|k: int|
            0 <= k < n ==> -i64::MAX <= #[trigger] a[k] - #[trigger] b[k] <= i64::MAX,
    ensures
        spread(a, b, n) >= 0,
        0 <= i < n ==> spread(a, b, n) >= a[i] - b[i] && spread(a, b, n) >= b[i] - a[i],
        spread(a, b, n) == 0 || exists|k: int|
            0 <= k < n && (spread(a, b, n) == #[trigger] a[k] - b[k] || spread(a, b, n) == b[k]
                - a[k]),
        apart(a, b) == spread(
            a,
            b,
            if a.len() < b.len() {
                a.len()
            } else {
                b.len()
            },
        ),
    decreases n,
{
    if n > 0 {
        let less = (n - 1) as nat;
        law_apart_is_the_longest_way_of_a_joint(a, b, less, i);
        let m = n - 1;
        assert(-i64::MAX <= a[m] - b[m] <= i64::MAX);
        let before = spread(a, b, less);
        let now = spread(a, b, n);
        if now == before && now != 0 {
            let k = choose|k: int|
                0 <= k < less && (before == #[trigger] a[k] - b[k] || before == b[k] - a[k]);
            assert(now == a[k] - b[k] || now == b[k] - a[k]);
        } else if now != 0 {
            assert(now == a[m] - b[m] || now == b[m] - a[m]);
        }
    }
}

/// The widest a list of configurations lies apart is as far as the two of it that are
/// farthest apart. `i` and `j` are any two.
pub proof fn law_the_widest_are_the_farthest_apart(
    list: Seq<Seq<Pico>>,
    n: nat,
    i: int,
    j: int,
)
    requires
        n <= list.len(),
        0 <= j < list.len(),
    ensures
        widest(list, n) >= 0,
        0 <= i < n ==> widest(list, n) >= apart(list[i], list[j]),
        widest(list, n) == 0 || exists|a: int, b: int|
            0 <= a < n && 0 <= b < list.len() && widest(list, n) == apart(
                #[trigger] list[a],
                #[trigger] list[b],
            ),
    decreases n,
{
    if n > 0 {
        let less = (n - 1) as nat;
        law_the_widest_are_the_farthest_apart(list, less, i, j);
        lemma_farthest(list[n - 1], list, list.len(), j);
        let before = widest(list, less);
        let now = widest(list, n);
        if now != 0 && now == before {
            let (a, b) = choose|a: int, b: int|
                0 <= a < less && 0 <= b < list.len() && before == apart(
                    #[trigger] list[a],
                    #[trigger] list[b],
                );
            assert(now == apart(list[a], list[b]));
        } else if now != 0 {
            let b = choose|b: int|
                0 <= b < list.len() && farthest(list[n - 1], list, list.len()) == apart(
                    list[n - 1],
                    #[trigger] list[b],
                );
            assert(now == apart(list[n - 1], list[b]));
        }
    }
}

proof fn lemma_farthest(a: Seq<Pico>, list: Seq<Seq<Pico>>, n: nat, j: int)
    requires
        n <= list.len(),
    ensures
        farthest(a, list, n) >= 0,
        0 <= j < n ==> farthest(a, list, n) >= apart(a, list[j]),
        farthest(a, list, n) == 0 || exists|b: int|
            0 <= b < n && farthest(a, list, n) == apart(a, #[trigger] list[b]),
    decreases n,
{
    if n > 0 {
        let less = (n - 1) as nat;
        lemma_farthest(a, list, less, j);
        let before = farthest(a, list, less);
        let now = farthest(a, list, n);
        if now != 0 && now == before {
            let b = choose|b: int| 0 <= b < less && before == apart(a, #[trigger] list[b]);
            assert(now == apart(a, list[b]));
        } else if now != 0 {
            assert(now == apart(a, list[n - 1]));
        }
    }
}

/// A signal that a step sets is one output at the level that the step says, or the
/// other one where the output is inverted; one that no output bears cannot be set.
/// `w` is the first output of that name.
pub proof fn law_a_set_signal_switches_its_output(
    p: Place,
    signal: String,
    value: bool,
    active: Seq<usize>,
    emitting: Option<usize>,
    label: Seq<char>,
    w: int,
)
    ensures
        ({
            let r = p.action_lowered(
                Action::SetSignal { signal, value },
                active,
                emitting,
                label,
            );
            let outputs = p.l.io.outputs;
            &&& crate::lower::unwired(outputs, signal@) ==> r is Err
            &&& crate::lower::first_wired(outputs, signal@, w) ==> (r matches Ok(after) && {
                let n = p.out.len() as int;
                &&& after.out.len() == n + 1
                &&& after.out.take(n) == p.out
                &&& after.out[n] matches CommandView::SetDigitalOut { port, value: level } && port
                    == outputs[w].1.port && (!outputs[w].1.invert ==> level == value) && (
                outputs[w].1.invert ==> level == !value)
                &&& after.l == p.l
                &&& after.q == p.q
            })
        }),
{
    crate::lower::law_a_name_is_wired_where_it_is_listed(p.l.io.outputs, signal@, w);
    let n = p.out.len() as int;
    let r = p.action_lowered(Action::SetSignal { signal, value }, active, emitting, label);
    if r is Ok {
        assert((r->Ok_0).out.take(n) =~= p.out);
    }
}

/// A joint segment is one joint move for each waypoint behind the first, in order, each
/// at the robot's own speed, blended into the next but at rest at the last.
pub proof fn law_a_joint_segment_goes_waypoint_by_waypoint(
    p: Place,
    waypoints: Seq<Seq<Pico>>,
    from: int,
    k: int,
)
    requires
        1 <= from <= waypoints.len(),
    ensures
        ({
            let after = p.joint_moves(waypoints, from);
            let n = p.out.len() as int;
            &&& after.out.len() == n + (waypoints.len() - from)
            &&& after.out.take(n) == p.out
            &&& after.q == p.q
            &&& after.l.joint_velocity == p.l.joint_velocity
            &&& after.l.joint_acceleration == p.l.joint_acceleration
            &&& after.l.blend_radius == p.l.blend_radius
            &&& from <= k < waypoints.len() ==> (after.out[n + (k - from)] matches CommandView::MoveJoint {
                q,
                velocity,
                acceleration,
                blend,
            } && q == waypoints[k] && velocity == p.l.joint_velocity && acceleration
                == p.l.joint_acceleration && (k < waypoints.len() - 1 ==> blend == p.l.blend_radius)
                && (k == waypoints.len() - 1 ==> blend == 0))
        }),
    decreases waypoints.len() - from,
{
    let n = p.out.len() as int;
    let after = p.joint_moves(waypoints, from);
    if from < waypoints.len() {
        let next = p.noted(false).command(
            CommandView::MoveJoint {
                q: waypoints[from],
                velocity: p.l.joint_velocity,
                acceleration: p.l.joint_acceleration,
                blend: if from < waypoints.len() - 1 {
                    p.l.blend_radius
                } else {
                    0
                },
            },
        );
        law_a_joint_segment_goes_waypoint_by_waypoint(next, waypoints, from + 1, k);
        assert(after == next.joint_moves(waypoints, from + 1));
        assert(after.out.take(n) =~= after.out.take(n + 1).take(n));
        assert(next.out.take(n) =~= p.out);
        assert(after.out[n] == after.out.take(n + 1)[n]);
    } else {
        assert(p.out.take(n) =~= p.out);
    }
}

/// A straight segment is one linear move to its last waypoint, at the speed it was
/// planned at, or the tool's own where it has none.
pub proof fn law_a_line_goes_to_its_end(p: Place, s: SegmentView)
    requires
        s.kind is CartesianLine,
        s.waypoints.len() > 1,
    ensures
        ({
            let after = p.segment(s);
            let n = p.out.len() as int;
            &&& after.out.len() == n + 1
            &&& after.out.take(n) == p.out
            &&& after.out[n] matches CommandView::MoveLinear { q, velocity, acceleration, blend }
                && q == s.waypoints[s.waypoints.len() - 1] && (s.tcp_speed is Some ==> velocity
                == s.tcp_speed->0) && (s.tcp_speed is None ==> velocity == p.l.tcp_velocity)
                && acceleration == p.l.tcp_acceleration && blend == p.l.blend_radius
        }),
{
    let n = p.out.len() as int;
    assert(p.segment(s).out.take(n) =~= p.out);
}

/// A planned move ends at rest where its last segment ends.
pub proof fn law_a_move_ends_where_its_plan_does(p: Place, record: PlannedView)
    requires
        record.segments.len() > 0,
        record.segments[record.segments.len() - 1].waypoints.len() > 0,
    ensures
        ({
            let after = p.moved(record);
            let last = record.segments[record.segments.len() - 1];
            &&& after.q == last.waypoints[last.waypoints.len() - 1]
            &&& after.out.len() > 0 ==> (after.out[after.out.len() - 1] matches CommandView::MoveLinear {
                blend,
                ..
            } ==> blend == 0)
        }),
{
}

/// A ramp with no way to go waits for as long as it lasts. Any other one is one joint
/// move to where it leads, at rest there, at the pace that its length sets, the way over
/// the time and rounded down, but no faster than the joint limit; one that asks for more
/// than that, by over 10^-9 rad/s, or that has no time, is warned of.
pub proof fn law_a_ramp_keeps_its_time_within_the_limit(
    p: Place,
    label: Seq<char>,
    from: Seq<Pico>,
    to: Seq<Pico>,
    duration: Pico,
    pace: int,
)
    requires
        duration > 0 ==> duration * pace <= apart(from, to) * 1_000_000_000_000 < duration * (pace
            + 1),
        duration > 0 ==> 0 <= pace <= i64::MAX,
    ensures
        ({
            let after = p.ramped(label, from, to, duration);
            let n = p.out.len() as int;
            let limit = p.l.joint_velocity;
            let moves = apart(from, to) >= 1;
            &&& after.q == to
            &&& !moves && duration <= 0 ==> after.out == p.out
            &&& !moves && duration > 0 ==> after.out == p.out.push(
                CommandView::Sleep { seconds: duration },
            )
            &&& moves ==> after.out.len() == n + 1 && (after.out[n] matches CommandView::MoveJoint {
                q,
                velocity,
                acceleration,
                blend,
            } && q == to && blend == 0 && acceleration == p.l.joint_acceleration && velocity
                <= limit && (duration > 0 && pace <= limit ==> velocity == pace) && (duration <= 0
                || pace > limit ==> velocity == limit))
            &&& p.l.pending_rejoin is None ==> {
                let warns = moves && (duration <= 0 || pace > limit + 1_000);
                &&& warns ==> after.l.warnings.len() == p.l.warnings.len() + 1
                &&& !warns ==> after.l.warnings == p.l.warnings
            }
        }),
{
    let travel = apart(from, to) as int;
    if duration > 0 {
        let d = duration as int;
        crate::fixed::law_quotients_are_rounded_down(travel, UNIT as int, d);
        let m = muldiv(travel, UNIT as int, d);
        assert(m == pace) by (nonlinear_arith)
            requires
                d > 0,
                d * m <= travel * 1_000_000_000_000 < d * m + d,
                d * pace <= travel * 1_000_000_000_000 < d * (pace + 1),
        ;
    }
}

/// A timeline gives its planned moves one after the other, each where it is the one that
/// the sequence asks for: a record of another move, or none, does not match. What it has
/// reached is where the move it gave ends.
pub proof fn law_records_are_given_in_order(
    s: SourceView,
    motion: Option<Seq<char>>,
    label: Seq<char>,
)
    requires
        s.planned.len() <= usize::MAX,
    ensures
        ({
            let k = s.planned_next as int;
            let fits = k < s.planned.len() && s.planned[k].motion == motion
                && s.planned[k].segments.len() > 0;
            &&& !fits ==> s.next_planned(motion, label) is Err
            &&& fits ==> (s.next_planned(motion, label) matches Ok(r) && {
                let segments = s.planned[k].segments;
                let last = segments[segments.len() - 1];
                &&& r.1 == s.planned[k]
                &&& r.0.planned_next == k + 1
                &&& r.0 == (SourceView {
                    planned_next: r.0.planned_next,
                    cur_q: r.0.cur_q,
                    ..s
                })
                &&& last.waypoints.len() > 0 ==> r.0.cur_q == last.waypoints[last.waypoints.len()
                    - 1]
                &&& last.waypoints.len() == 0 ==> r.0.cur_q == s.cur_q
            })
        }),
{
}

/// A timeline gives its branch decisions one after the other, each where it is of the
/// branch that the sequence is at.
pub proof fn law_decisions_are_given_in_order(
    s: SourceView,
    select: usize,
    step: Seq<char>,
    label: Seq<char>,
)
    requires
        s.decisions.len() <= usize::MAX,
    ensures
        ({
            let k = s.decisions_next as int;
            let fits = k < s.decisions.len() && s.decisions[k].select == select
                && s.decisions[k].step == step;
            &&& !fits ==> s.next_decision(select, step, label) is Err
            &&& fits ==> (s.next_decision(select, step, label) matches Ok(r) && r.1
                == s.decisions[k].arm && r.0 == (SourceView {
                decisions_next: (k + 1) as usize,
                ..s
            }))
        }),
{
}

/// The sources that took an arm are those of the active ones whose decision it was, and
/// no other. `i` is any active one.
pub proof fn law_takers_are_those_that_took_the_arm(
    active: Seq<usize>,
    arms: Seq<usize>,
    j: int,
    n: nat,
    i: int,
)
    requires
        n <= active.len(),
        n <= arms.len(),
    ensures
        0 <= i < n && arms[i] == j ==> took(active, arms, j, n).contains(active[i]),
        forall|t: int|
            0 <= t < took(active, arms, j, n).len() ==> took_it(
                active,
                arms,
                j,
                n,
                #[trigger] took(active, arms, j, n)[t],
            ),
    decreases n,
{
    if n > 0 {
        let less = (n - 1) as nat;
        law_takers_are_those_that_took_the_arm(active, arms, j, less, i);
        let before = took(active, arms, j, less);
        let now = took(active, arms, j, n);
        if 0 <= i < less && arms[i] == j {
            let t = choose|t: int| 0 <= t < before.len() && before[t] == active[i];
            assert(now[t] == active[i]);
        }
        if i == less && arms[i] == j {
            assert(now[now.len() - 1] == active[i]);
        }
        assert forall|t: int| 0 <= t < now.len() implies took_it(
            active,
            arms,
            j,
            n,
            #[trigger] now[t],
        ) by {
            if t < before.len() {
                assert(now[t] == before[t]);
                assert(took_it(active, arms, j, less, before[t]));
                let k = choose|k: int|
                    0 <= k < less && arms[k] == j && #[trigger] active[k] == before[t];
                assert(active[k] == now[t]);
            } else {
                assert(active[n - 1] == now[t]);
            }
        }
    }
}

/// Whether one of the first `n` active sources took arm `j`, and it is this one.
pub open spec fn took_it(
    active: Seq<usize>,
    arms: Seq<usize>,
    j: int,
    n: nat,
    source: usize,
) -> bool {
    exists|k: int| 0 <= k < n && arms[k] == j && #[trigger] active[k] == source
}

/// An arm is told by the source whose commands are emitted, where it took the arm, and
/// else by the first that did, where it came to the branch within 10^-6 rad of it; where
/// it came further away the arm cannot be told, and where nobody took it nobody tells it.
pub proof fn law_an_arm_is_told_by_who_took_it(
    l: LowerView,
    emitting: Option<usize>,
    takers: Seq<usize>,
    entry: Seq<Pico>,
    label: Seq<char>,
)
    ensures
        ({
            let r = emitter(l, emitting, takers, entry, label);
            &&& emitting is None || takers.len() == 0 ==> r == Ok::<Option<usize>, Seq<char>>(None)
            &&& emitting matches Some(e) ==> ((exists|i: int|
                0 <= i < takers.len() && #[trigger] takers[i] == e) ==> r == Ok::<
                Option<usize>,
                Seq<char>,
            >(Some(e))) && (takers.len() > 0 && (forall|i: int|
                0 <= i < takers.len() ==> #[trigger] takers[i] != e) ==> {
                let far = apart(l.sources[takers[0] as int].cur_q, entry) > 1_000_000;
                &&& far ==> r is Err
                &&& !far ==> r == Ok::<Option<usize>, Seq<char>>(Some(takers[0]))
            })
        }),
{
    match emitting {
        Some(e) => {
            if takers.contains(e) {
                let i = choose|i: int| 0 <= i < takers.len() && takers[i] == e;
                assert(takers[i] == e);
            }
        },
        None => {},
    }
}

/// Behind a branch the program goes on from where the arm ended that the emitting source
/// took; where arms end more than 10^-6 rad apart that is kept for the next move. `i` is
/// the emitting source's place among the active ones.
pub proof fn law_a_branch_goes_on_from_the_arm_taken(here: Place, arms: Arms, b: Branch, i: int)
    requires
        0 <= i < b.active.len(),
        b.emitting == Some(b.active[i]),
        forall|k: int| 0 <= k < i ==> #[trigger] b.active[k] != b.active[i],
        b.taken[i] < arms.exits.len(),
    ensures
        ({
            let after = rejoined(here, arms, b);
            let apart_by = widest(arms.exits, arms.exits.len());
            &&& after.q == arms.exits[b.taken[i] as int]
            &&& after.out.len() == here.out.len() + 1
            &&& after.out[here.out.len() as int] == (CommandView::Select { arms: arms.arms })
            &&& apart_by > 1_000_000 ==> after.l.pending_rejoin == Some((b.label, apart_by))
            &&& apart_by <= 1_000_000 ==> after.l == arms.l
        }),
{
    lemma_place_of(b.active, b.active[i], 0, i);
}

proof fn lemma_place_of(active: Seq<usize>, e: usize, from: int, i: int)
    requires
        0 <= from <= i < active.len(),
        active[i] == e,
        forall|k: int| from <= k < i ==> #[trigger] active[k] != e,
    ensures
        place_of(active, e, from) == Some(i),
    decreases i - from,
{
    if from < i {
        let here = active[from];
        lemma_place_of(active, e, from + 1, i);
    }
}

/// Arms that rejoined apart are warned of where the next move is a straight line, and
/// forgotten either way.
pub proof fn law_a_line_behind_a_wide_rejoin_is_warned_of(l: LowerView, linear: bool)
    ensures
        ({
            let after = l.noted(linear);
            &&& after.pending_rejoin is None
            &&& l.pending_rejoin is None ==> after == l
            &&& l.pending_rejoin is Some && linear ==> after.warnings.len() == l.warnings.len() + 1
            &&& l.pending_rejoin is Some && !linear ==> after.warnings == l.warnings
        }),
{
}

/// A step is numbered in order and told by a comment first; then come its actions, and
/// then what it waits for.
pub proof fn law_a_step_is_told_in_order(
    p: Place,
    step: Step,
    active: Seq<usize>,
    emitting: Option<usize>,
)
    requires
        step.select@.len() == 0,
        p.l.step_no < usize::MAX,
    ensures
        ({
            let no = p.l.step_no + 1;
            let label = "step "@ + decimal(no as nat) + " `"@ + step.name@ + "`"@;
            let here = Place {
                l: LowerView { step_no: no as usize, ..p.l },
                out: p.out.push(
                    CommandView::Comment {
                        text: "step "@ + decimal(no as nat) + ": "@ + step.name@,
                    },
                ),
                ..p
            };
            let acted = here.actions_lowered(step.actions@, active, emitting, label, 0);
            let r = step_lowered(p, step, active, emitting);
            &&& acted is Err ==> r is Err
            &&& acted matches Ok(next) ==> (match waits_for(
                step.transition,
                next.l.io,
                next.l.plain,
                label,
                exists|i: int|
                    0 <= i < step.actions@.len() && ((#[trigger] step.actions@[i]) is StartMotion
                        || step.actions@[i] is StartToolpath || step.actions@[i] is StartRamp),
                next.emit(),
            ) {
                Err(_) => r is Err,
                Ok(emit) => r == Ok::<Place, Seq<char>>(next.emitted(emit)),
            })
        }),
{
    let actions = step.actions@;
    if any_starts_move(actions) {
        let i = choose|i: int| 0 <= i < actions.len() && starts_move(#[trigger] actions[i]);
        assert(starts_move(actions[i]));
        assert(actions[i] is StartMotion || actions[i] is StartToolpath || actions[i] is StartRamp);
    }
    if exists|i: int|
        0 <= i < actions.len() && ((#[trigger] actions[i]) is StartMotion || actions[i]
            is StartToolpath || actions[i] is StartRamp) {
        let i = choose|i: int|
            0 <= i < actions.len() && ((#[trigger] actions[i]) is StartMotion || actions[i]
                is StartToolpath || actions[i] is StartRamp);
        assert(starts_move(actions[i]));
    }
}

/// Actions and steps are told one after the other, from where the one before left off.
pub proof fn law_actions_are_told_one_after_the_other(
    p: Place,
    actions: Seq<Action>,
    active: Seq<usize>,
    emitting: Option<usize>,
    label: Seq<char>,
    from: int,
    steps: Seq<Step>,
)
    requires
        0 <= from < actions.len(),
        steps.len() > 0,
    ensures
        match p.action_lowered(actions[from], active, emitting, label) {
            Err(e) => p.actions_lowered(actions, active, emitting, label, from) == Err::<
                Place,
                Seq<char>,
            >(e),
            Ok(next) => p.actions_lowered(actions, active, emitting, label, from)
                == next.actions_lowered(actions, active, emitting, label, from + 1),
        },
        match step_lowered(p, steps[0], active, emitting) {
            Err(e) => steps_lowered(p, steps, active, emitting) == Err::<Place, Seq<char>>(e),
            Ok(next) => steps_lowered(p, steps, active, emitting) == steps_lowered(
                next,
                steps.drop_first(),
                active,
                emitting,
            ),
        },
{
}

/// A ramp's targets are applied in order, each to the joint that it names; one that names
/// no joint, or one that is not actuated, is an error. Joints that none names stay.
pub proof fn law_targets_are_applied_in_order(
    robot: Robot,
    q: Seq<Pico>,
    targets: Seq<(String, Pico)>,
    label: Seq<char>,
    from: int,
    j: int,
)
    requires
        0 <= from < targets.len(),
    ensures
        ({
            let name = targets[from].0@;
            let r = targeted(robot, q, targets, label, from);
            &&& (forall|k: int|
                0 <= k < robot.joints@.len() ==> (#[trigger] robot.joints@[k]).name@ != name) ==> r
                is Err
            &&& 0 <= j < robot.joints@.len() && robot.joints@[j].name@ == name && (forall|k: int|
                0 <= k < j ==> (#[trigger] robot.joints@[k]).name@ != name) ==> {
                &&& robot.joints@[j].q_index is None ==> r is Err
                &&& robot.joints@[j].q_index matches Some(qi) ==> (qi < q.len() ==> r == targeted(
                    robot,
                    q.update(qi as int, targets[from].1),
                    targets,
                    label,
                    from + 1,
                ))
            }
        }),
        targeted(robot, q, targets, label, targets.len() as int) == Ok::<Seq<Pico>, Seq<char>>(q),
{
    crate::names::law_a_name_stands_for_the_first(robot.joints@, targets[from].0@, j);
}

/// Every active source gives its next record, in order; the record that becomes commands
/// is the emitting source's. One that has no fitting record is an error.
pub proof fn law_every_active_source_gives_its_record(
    l: LowerView,
    record: Option<PlannedView>,
    active: Seq<usize>,
    emitting: Option<usize>,
    motion: Option<Seq<char>>,
    label: Seq<char>,
    from: int,
)
    requires
        0 <= from < active.len(),
    ensures
        l.consumed(record, active, emitting, motion, label, active.len() as int) == Ok::<
            (LowerView, Option<PlannedView>),
            Seq<char>,
        >((l, record)),
        match l.sources[active[from] as int].next_planned(motion, label) {
            Err(e) => l.consumed(record, active, emitting, motion, label, from) is Err,
            Ok((s, p)) => {
                let more = LowerView {
                    sources: l.sources.update(active[from] as int, s),
                    ..l
                };
                &&& emitting == Some(active[from]) ==> l.consumed(
                    record,
                    active,
                    emitting,
                    motion,
                    label,
                    from,
                ) == more.consumed(Some(p), active, emitting, motion, label, from + 1)
                &&& emitting != Some(active[from]) ==> l.consumed(
                    record,
                    active,
                    emitting,
                    motion,
                    label,
                    from,
                ) == more.consumed(record, active, emitting, motion, label, from + 1)
            },
        },
{
}

/// Every active source gives its next decision of the branch, in order; one that has no
/// fitting decision is an error.
pub proof fn law_every_active_source_gives_its_decision(
    l: LowerView,
    arms: Seq<usize>,
    active: Seq<usize>,
    select: usize,
    step: Seq<char>,
    label: Seq<char>,
    from: int,
)
    requires
        0 <= from < active.len(),
    ensures
        l.decided(arms, active, select, step, label, active.len() as int) == Ok::<
            (LowerView, Seq<usize>),
            Seq<char>,
        >((l, arms)),
        match l.sources[active[from] as int].next_decision(select, step, label) {
            Err(e) => l.decided(arms, active, select, step, label, from) is Err,
            Ok((s, arm)) => l.decided(arms, active, select, step, label, from) == (LowerView {
                sources: l.sources.update(active[from] as int, s),
                ..l
            }).decided(arms.push(arm), active, select, step, label, from + 1),
        },
{
}

/// A motion is told by the emitting source's record, and cannot be told without one; a
/// ramp without a record is told by its targets, from where the program is.
pub proof fn law_a_ramp_needs_no_record_and_a_motion_does(
    p: Place,
    motion: Seq<char>,
    targets: Seq<(String, Pico)>,
    duration: Pico,
    active: Seq<usize>,
    emitting: Option<usize>,
    label: Seq<char>,
)
    ensures
        match p.l.consumed(None, active, emitting, Some(motion), label, 0) {
            Err(_) => p.motion_lowered(motion, active, emitting, label) is Err,
            Ok((_, None)) => p.motion_lowered(motion, active, emitting, label) is Err,
            Ok((l, Some(record))) => p.motion_lowered(motion, active, emitting, label) == Ok::<
                Place,
                Seq<char>,
            >((Place { l, ..p }).moved(record)),
        },
        match p.l.consumed(None, active, emitting, None, label, 0) {
            Err(_) => p.ramp_lowered(targets, duration, active, emitting, label) is Err,
            Ok((l, Some(record))) => p.ramp_lowered(targets, duration, active, emitting, label)
                == Ok::<Place, Seq<char>>(
                (Place { l, ..p }).ramped(
                    label,
                    record.segments[0].waypoints[0],
                    record.segments[0].waypoints[1],
                    record.duration,
                ),
            ),
            Ok((l, None)) => match targeted(l.robot, p.q, targets, label, 0) {
                Err(_) => p.ramp_lowered(targets, duration, active, emitting, label) is Err,
                Ok(to) => p.ramp_lowered(targets, duration, active, emitting, label) == Ok::<
                    Place,
                    Seq<char>,
                >((Place { l, ..p }).ramped(label, p.q, to, duration)),
            },
        },
{
}

/// A grasp and a release are told as a comment; a track and its end cannot be told.
pub proof fn law_grasps_are_comments_and_tracks_have_no_script(
    p: Place,
    robot: Option<String>,
    object: String,
    link: Option<String>,
    touch_links: Option<Vec<String>>,
    active: Seq<usize>,
    emitting: Option<usize>,
    label: Seq<char>,
)
    ensures
        p.action_lowered(
            Action::Attach { robot, object, link, touch_links },
            active,
            emitting,
            label,
        ) matches Ok(after) && after.out.len() == p.out.len() + 1 && after.out.last() is Comment
            && after.l == p.l && after.q == p.q,
        p.action_lowered(Action::Detach { object }, active, emitting, label) matches Ok(after)
            && after.out.len() == p.out.len() + 1 && after.out.last() is Comment && after.l == p.l
            && after.q == p.q,
        p.action_lowered(Action::Track { robot, object, link }, active, emitting, label) is Err,
        p.action_lowered(Action::Untrack { robot }, active, emitting, label) is Err,
{
}

} // verus!
