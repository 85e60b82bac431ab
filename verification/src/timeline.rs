//! The baked result of a rollout: what playback, export and the timing chart
//! consume.

use vstd::prelude::*;

use crate::fixed::{clip, clipped, longer_than, muldiv, Pico, Pose, MICRO, NANO, UNIT};
use crate::gait::{identity, still, Footfall, Ride};
use crate::lanes::BoolTrack;
use crate::motion::Bake;
use crate::names::{find, find_named, names_of, same, Named};
use crate::tracks::{span_at, span_for, span_pose, ObjectTrack, Placement, TrackSpan};
use crate::views::{copied_name, opt, views};

verus! {

/// One step's active interval.
#[derive(Debug)]
pub struct StepSpan {
    /// The display name.
    pub name: String,
    pub start: Pico,
    pub end: Pico,
    /// The owning sequence: for a move, the one whose step started it.
    pub sequence: String,
    /// The flat step index within the sequence.
    pub step: usize,
}

#[verifier::ext_equal]
pub struct StepSpanView {
    pub name: Seq<char>,
    pub start: Pico,
    pub end: Pico,
    pub sequence: Seq<char>,
    pub step: usize,
}

impl View for StepSpan {
    type V = StepSpanView;

    open spec fn view(&self) -> StepSpanView {
        StepSpanView {
            name: self.name@,
            start: self.start,
            end: self.end,
            sequence: self.sequence@,
            step: self.step,
        }
    }
}

/// One stretch of a toolpath move with the process on.
#[derive(Debug)]
pub struct ProcessSpan {
    pub start: Pico,
    pub end: Pico,
    /// The brush the stroke ran with, where the toolpath names any.
    pub brush: Option<String>,
}

#[verifier::ext_equal]
pub struct ProcessView {
    pub start: Pico,
    pub end: Pico,
    pub brush: Option<Seq<char>>,
}

impl View for ProcessSpan {
    type V = ProcessView;

    open spec fn view(&self) -> ProcessView {
        ProcessView { start: self.start, end: self.end, brush: opt(self.brush) }
    }
}

/// How a planned segment is executed.
#[derive(Clone, Copy, Debug, PartialEq, Eq, Structural)]
pub enum SegmentKind {
    Joint,
    CartesianLine,
}

/// One segment of a sparse path, both endpoints included.
#[derive(Debug)]
pub struct PlannedSegment {
    pub kind: SegmentKind,
    pub waypoints: Vec<Vec<Pico>>,
    pub tcp_speed: Option<Pico>,
}

#[verifier::ext_equal]
pub struct SegmentView {
    pub kind: SegmentKind,
    pub waypoints: Seq<Seq<Pico>>,
    pub tcp_speed: Option<Pico>,
}

impl View for PlannedSegment {
    type V = SegmentView;

    open spec fn view(&self) -> SegmentView {
        SegmentView {
            kind: self.kind,
            waypoints: views(self.waypoints@),
            tcp_speed: self.tcp_speed,
        }
    }
}

/// One motion or ramp as the rollout planned it.
#[derive(Debug)]
pub struct PlannedMove {
    pub sequence: String,
    pub step: usize,
    /// The motion's name; none for a joint ramp.
    pub motion: Option<String>,
    pub segments: Vec<PlannedSegment>,
    /// Rest to rest.
    pub duration: Pico,
    /// The feed report of a toolpath move, by the number its planner gave it.
    pub feed_report: Option<usize>,
    /// When a toolpath move was in a spraying stroke.
    pub process_spans: Vec<ProcessSpan>,
}

#[verifier::ext_equal]
pub struct PlannedView {
    pub sequence: Seq<char>,
    pub step: usize,
    pub motion: Option<Seq<char>>,
    pub segments: Seq<SegmentView>,
    pub duration: Pico,
    pub feed_report: Option<usize>,
    pub process_spans: Seq<ProcessView>,
}

impl View for PlannedMove {
    type V = PlannedView;

    open spec fn view(&self) -> PlannedView {
        PlannedView {
            sequence: self.sequence@,
            step: self.step,
            motion: opt(self.motion),
            segments: views(self.segments@),
            duration: self.duration,
            feed_report: self.feed_report,
            process_spans: views(self.process_spans@),
        }
    }
}

/// One resolved branch: which arm a sequence took at a branching step.
#[derive(Debug)]
pub struct BranchTaken {
    pub sequence: String,
    /// The branching step's name.
    pub step: String,
    /// Its pre-order ordinal within the sequence.
    pub select: usize,
    pub arm: usize,
}

#[verifier::ext_equal]
pub struct BranchView {
    pub sequence: Seq<char>,
    pub step: Seq<char>,
    pub select: usize,
    pub arm: usize,
}

impl View for BranchTaken {
    type V = BranchView;

    open spec fn view(&self) -> BranchView {
        BranchView {
            sequence: self.sequence@,
            step: self.step@,
            select: self.select,
            arm: self.arm,
        }
    }
}

/// One robot's share of a timeline.
#[derive(Debug)]
pub struct RobotTrack {
    pub name: String,
    /// The whole-sequence joint track.
    pub trajectory: Bake,
    /// The intervals in which a move drove the robot.
    pub moves: Vec<StepSpan>,
    /// The sparse path of every move, in firing order.
    pub planned: Vec<PlannedMove>,
    /// Where the base was, for a robot that rides a vehicle.
    pub base: Option<Vec<TrackSpan>>,
    /// Every step the legs took, in landing order.
    pub footfalls: Vec<Footfall>,
    pub sway: Vec<Ride>,
    pub pitch: Vec<Ride>,
    pub rise: Vec<Ride>,
}

/// What a walk gives its body at an instant, over the rigid ride.
#[derive(Clone, Copy, Debug, PartialEq, Eq, Structural)]
pub struct Bearing {
    /// How far the body rides above the guide line, in the world.
    pub rise: Pico,
    /// How it tilts onto the grade.
    pub pitch: Pose,
    /// How it bobs and leans.
    pub sway: Pose,
}

/// Where a base is: the pose `ride ∘ pitch ∘ sway`.
#[derive(Clone, Copy, Debug, PartialEq, Eq, Structural)]
pub struct BasePose {
    pub ride: Placement,
    pub pitch: Pose,
    pub sway: Pose,
}

impl RobotTrack {
    /// Whether the base follows a link at `t`: nothing that drives puts it on
    /// one.
    pub open spec fn on_a_link(self, t: int) -> bool {
        match self.base {
            Some(spans) => span_for(spans@, t) matches Some(TrackSpan::Follow { .. }),
            None => false,
        }
    }

    /// What the walk gives the body: nothing of what the track has no stretch of.
    pub open spec fn borne(self, bearing: Bearing) -> Bearing {
        Bearing {
            rise: if self.rise@.len() == 0 {
                0
            } else {
                bearing.rise
            },
            pitch: if self.pitch@.len() == 0 {
                still()
            } else {
                bearing.pitch
            },
            sway: if self.sway@.len() == 0 {
                still()
            } else {
                bearing.sway
            },
        }
    }

    /// Where the base is at `t`: its ride lifted by the rise, then the tilt,
    /// then the sway.
    pub open spec fn base_at(self, t: int, bearing: Bearing) -> Option<BasePose> {
        let body = self.borne(bearing);
        match self.base {
            Some(spans) => match span_for(spans@, t) {
                Some(span) => Some(
                    BasePose {
                        ride: span.placement(t).lifted(body.rise),
                        pitch: body.pitch,
                        sway: body.sway,
                    },
                ),
                None => None,
            },
            None => None,
        }
    }
}

/// A base that does not walk is where its rigid ride puts it, whatever a walk
/// would give.
pub proof fn law_a_standing_base_rides_rigidly(track: RobotTrack, t: int, bearing: Bearing)
    requires
        track.rise@.len() == 0,
        track.pitch@.len() == 0,
        track.sway@.len() == 0,
    ensures
        track.base_at(t, bearing) == (match track.base {
            Some(spans) => match span_for(spans@, t) {
                Some(span) => Some(
                    BasePose { ride: span.placement(t), pitch: still(), sway: still() },
                ),
                None => None,
            },
            None => None,
        }),
{
}

impl Named for RobotTrack {
    open spec fn named(&self) -> Seq<char> {
        self.name@
    }

    fn get_name(&self) -> (r: &String) {
        &self.name
    }
}

/// The baked result of a rollout. `duration` is the cycle time.
#[derive(Debug)]
pub struct SequenceTimeline {
    pub duration: Pico,
    /// The sequences it was rolled from, in scan order.
    pub sequences: Vec<String>,
    /// The scenario it ran under; none is the scene as it stands.
    pub scenario: Option<String>,
    pub robots: Vec<RobotTrack>,
    /// Objects that moved or were held at some point.
    pub objects: Vec<ObjectTrack>,
    /// One track per vehicle that drove: its reference frame.
    pub vehicles: Vec<ObjectTrack>,
    pub signals: Vec<BoolTrack>,
    pub step_spans: Vec<StepSpan>,
    /// Every branch resolved, in order.
    pub branches: Vec<BranchTaken>,
}

/// The process spans of a list of moves, in firing order.
pub open spec fn all_process_spans(planned: Seq<PlannedView>) -> Seq<ProcessView>
    decreases planned.len(),
{
    if planned.len() == 0 {
        Seq::empty()
    } else {
        all_process_spans(planned.drop_last()) + planned.last().process_spans
    }
}

/// `span` put into a list behind everything that starts no later.
pub open spec fn span_inserted(list: Seq<ProcessView>, span: ProcessView) -> Seq<ProcessView>
    decreases list.len(),
{
    if list.len() == 0 || list.last().start <= span.start {
        list.push(span)
    } else {
        span_inserted(list.drop_last(), span).push(list.last())
    }
}

/// The spans in time order; those that start together keep their order.
pub open spec fn spans_sorted(list: Seq<ProcessView>) -> Seq<ProcessView>
    decreases list.len(),
{
    if list.len() == 0 {
        Seq::empty()
    } else {
        span_inserted(spans_sorted(list.drop_last()), list.last())
    }
}

/// A span joined to the last one where it touches it and runs the same brush.
pub open spec fn span_joined(list: Seq<ProcessView>, span: ProcessView) -> Seq<ProcessView> {
    if list.len() > 0 && span.start <= list.last().end + NANO && list.last().brush == span.brush {
        list.update(
            list.len() - 1,
            ProcessView {
                end: if list.last().end >= span.end {
                    list.last().end
                } else {
                    span.end
                },
                ..list.last()
            },
        )
    } else {
        list.push(span)
    }
}

/// Adjacent same-brush spans merged.
pub open spec fn spans_merged(list: Seq<ProcessView>) -> Seq<ProcessView>
    decreases list.len(),
{
    if list.len() == 0 {
        Seq::empty()
    } else {
        span_joined(spans_merged(list.drop_last()), list.last())
    }
}

/// Whether any of the moves was a toolpath's.
pub open spec fn ran_toolpath(planned: Seq<PlannedView>) -> bool {
    exists|i: int| 0 <= i < planned.len() && (#[trigger] planned[i]).feed_report is Some
}

fn same_brush(a: &Option<String>, b: &Option<String>) -> (r: bool)
    ensures
        r == (opt(*a) == opt(*b)),
{
    match (a, b) {
        (Some(x), Some(y)) => same(x.as_str(), y.as_str()),
        (None, None) => true,
        _ => false,
    }
}

fn insert_span(list: &mut Vec<ProcessSpan>, span: ProcessSpan)
    ensures
        views(final(list)@) == span_inserted(views(old(list)@), span@),
{
    let ghost before = views(list@);
    let ghost x = span@;
    let mut i: usize = list.len();
    proof {
        lemma_insert_at(before, x, before.len() as int);
    }
    while i > 0 && list[i - 1].start > span.start
        invariant
            i <= list@.len(),
            x == span@,
            before == views(list@),
            span_inserted(before, x) == span_inserted(before.take(i as int), x) + before.skip(
                i as int,
            ),
        decreases i,
    {
        proof {
            let shorter = before.take(i as int);
            assert(shorter.last() == before[i - 1]);
            assert(shorter.drop_last() =~= before.take(i - 1));
            let rest = before.skip(i as int);
            assert(span_inserted(before.take(i - 1), x).push(before[i - 1]) + rest
                =~= span_inserted(before.take(i - 1), x) + before.skip(i - 1));
        }
        i = i - 1;
    }
    proof {
        if i > 0 {
            assert(before.take(i as int).last() == before[i - 1]);
        }
        assert(span_inserted(before.take(i as int), x) == before.take(i as int).push(x));
    }
    list.insert(i, span);
    assert(views(list@) =~= before.take(i as int).push(x) + before.skip(i as int));
}

proof fn lemma_insert_at(list: Seq<ProcessView>, x: ProcessView, n: int)
    requires
        n == list.len(),
    ensures
        span_inserted(list, x) == span_inserted(list.take(n), x) + list.skip(n),
{
    assert(list.take(n) =~= list);
    assert(span_inserted(list, x) + list.skip(n) =~= span_inserted(list, x));
}

fn copied_span(span: &ProcessSpan) -> (r: ProcessSpan)
    ensures
        r@ == span@,
{
    ProcessSpan { start: span.start, end: span.end, brush: copied_name(&span.brush) }
}

/// How far intervals reach.
pub open spec fn frontier(spans: Seq<(Pico, Pico)>) -> Option<Pico>
    decreases spans.len(),
{
    if spans.len() == 0 {
        None
    } else {
        match frontier(spans.drop_last()) {
            Some(f) => if f >= spans.last().1 {
                Some(f)
            } else {
                Some(spans.last().1)
            },
            None => Some(spans.last().1),
        }
    }
}

/// The time that intervals sorted by their start cover, what overlaps counted
/// once.
pub open spec fn covered_time(spans: Seq<(Pico, Pico)>) -> int
    decreases spans.len(),
{
    if spans.len() == 0 {
        0
    } else {
        let s = spans.last();
        let from = match frontier(spans.drop_last()) {
            Some(f) => if f > s.0 {
                f
            } else {
                s.0
            },
            None => s.0,
        };
        covered_time(spans.drop_last()) + (if s.1 <= from {
            0
        } else {
            s.1 - from
        })
    }
}

/// `x` put into a list sorted by start, behind those that start no later.
pub open spec fn interval_inserted(list: Seq<(Pico, Pico)>, x: (Pico, Pico)) -> Seq<(Pico, Pico)>
    decreases list.len(),
{
    if list.len() == 0 || list.last().0 <= x.0 {
        list.push(x)
    } else {
        interval_inserted(list.drop_last(), x).push(list.last())
    }
}

/// The intervals of a robot's moves, sorted by their start.
pub open spec fn move_intervals(moves: Seq<StepSpanView>) -> Seq<(Pico, Pico)>
    decreases moves.len(),
{
    if moves.len() == 0 {
        Seq::empty()
    } else {
        interval_inserted(
            move_intervals(moves.drop_last()),
            (moves.last().start, moves.last().end),
        )
    }
}

fn insert_interval(list: &mut Vec<(Pico, Pico)>, x: (Pico, Pico))
    ensures
        final(list)@ == interval_inserted(old(list)@, x),
{
    let ghost before = list@;
    let mut i: usize = list.len();
    assert(before.take(i as int) =~= before);
    assert(interval_inserted(before, x) + before.skip(i as int) =~= interval_inserted(before, x));
    while i > 0 && list[i - 1].0 > x.0
        invariant
            i <= list@.len(),
            before == list@,
            interval_inserted(before, x) == interval_inserted(before.take(i as int), x)
                + before.skip(i as int),
        decreases i,
    {
        proof {
            let shorter = before.take(i as int);
            assert(shorter.last() == before[i - 1]);
            assert(shorter.drop_last() =~= before.take(i - 1));
            let rest = before.skip(i as int);
            assert(interval_inserted(before.take(i - 1), x).push(before[i - 1]) + rest
                =~= interval_inserted(before.take(i - 1), x) + before.skip(i - 1));
        }
        i = i - 1;
    }
    proof {
        if i > 0 {
            assert(before.take(i as int).last() == before[i - 1]);
        }
    }
    list.insert(i, x);
    assert(list@ =~= before.take(i as int).push(x) + before.skip(i as int));
}

/// The altitude that a span starts at; zero for one that follows a robot.
pub open spec fn altitude(span: TrackSpan) -> Pico {
    match span {
        TrackSpan::Hold { pose, .. } => pose.at.z,
        TrackSpan::Stowed { pose, .. } => pose.at.z,
        TrackSpan::Linear { from, .. } => from.at.z,
        TrackSpan::Pivot { from, .. } => from.at.z,
        TrackSpan::Follow { .. } => 0,
    }
}

/// Whether a vehicle spends a span off the ground or moving.
pub open spec fn off_ground(span: TrackSpan, ground: Pico) -> bool {
    match span {
        TrackSpan::Hold { .. } => altitude(span) > ground + MICRO,
        TrackSpan::Stowed { .. } => altitude(span) > ground + MICRO,
        TrackSpan::Follow { .. } => true,
        TrackSpan::Linear { velocity, .. } => velocity.square() > NANO * NANO || altitude(span)
            > ground + MICRO,
        TrackSpan::Pivot { omega, .. } => omega > NANO || omega < -NANO || altitude(span) > ground
            + MICRO,
    }
}

/// The time that a track spends off the ground.
pub open spec fn airborne_time(spans: Seq<TrackSpan>, ground: Pico) -> Pico
    decreases spans.len(),
{
    if spans.len() == 0 {
        0
    } else if off_ground(spans.last(), ground) {
        clip(
            airborne_time(spans.drop_last(), ground) + (spans.last().end() - spans.last().start()),
        )
    } else {
        airborne_time(spans.drop_last(), ground)
    }
}

fn is_off_ground(span: &TrackSpan, ground: Pico) -> (r: bool)
    ensures
        r == off_ground(*span, ground),
{
    let floor: i128 = ground as i128 + MICRO as i128;
    match *span {
        TrackSpan::Hold { pose, .. } => pose.at.z as i128 > floor,
        TrackSpan::Stowed { pose, .. } => pose.at.z as i128 > floor,
        TrackSpan::Follow { .. } => true,
        TrackSpan::Linear { velocity, from, .. } => longer_than(velocity, NANO) || from.at.z as i128
            > floor,
        TrackSpan::Pivot { omega, from, .. } => omega > NANO || omega < -NANO || from.at.z as i128
            > floor,
    }
}

impl SequenceTimeline {
    /// The intervals in which robot `robot` was spraying, in time order,
    /// adjacent same-brush spans merged. None where it ran no toolpath.
    pub fn process_spans(&self, robot: usize) -> (r: Option<Vec<ProcessSpan>>)
        ensures
            match r {
                None => robot >= self.robots@.len() || !ran_toolpath(
                    views(self.robots@[robot as int].planned@),
                ),
                Some(list) => {
                    &&& robot < self.robots@.len()
                    &&& ran_toolpath(views(self.robots@[robot as int].planned@))
                    &&& views(list@) == spans_merged(
                        spans_sorted(
                            all_process_spans(views(self.robots@[robot as int].planned@)),
                        ),
                    )
                },
            },
    {
        if robot >= self.robots.len() {
            return None;
        }
        let planned: &Vec<PlannedMove> = &self.robots[robot].planned;
        let ghost all = views(planned@);
        let mut fed: bool = false;
        let mut sorted: Vec<ProcessSpan> = Vec::new();
        let mut i: usize = 0;
        assert(all.take(0) =~= Seq::<PlannedView>::empty());
        assert(views(sorted@) =~= Seq::<ProcessView>::empty());
        while i < planned.len()
            invariant
                i <= planned.len(),
                all == views(planned@),
                fed == (exists|k: int| 0 <= k < i && (#[trigger] all[k]).feed_report is Some),
                views(sorted@) == spans_sorted(all_process_spans(all.take(i as int))),
            decreases planned.len() - i,
        {
            let m: &PlannedMove = &planned[i];
            assert(all[i as int] == m@);
            if m.feed_report.is_some() {
                fed = true;
            }
            let ghost done = all_process_spans(all.take(i as int));
            let ghost more = m@.process_spans;
            let mut k: usize = 0;
            assert(done + more.take(0) =~= done);
            while k < m.process_spans.len()
                invariant
                    k <= m.process_spans.len(),
                    more == views(m.process_spans@),
                    views(sorted@) == spans_sorted(done + more.take(k as int)),
                decreases m.process_spans.len() - k,
            {
                let span: ProcessSpan = copied_span(&m.process_spans[k]);
                proof {
                    let upto = done + more.take(k + 1);
                    assert(upto.drop_last() =~= done + more.take(k as int));
                    assert(upto.last() == more[k as int]);
                    assert(span@ == more[k as int]);
                }
                insert_span(&mut sorted, span);
                k = k + 1;
            }
            proof {
                assert(more.take(k as int) =~= more);
                assert(all.take(i + 1).drop_last() =~= all.take(i as int));
                assert(all.take(i + 1).last() == all[i as int]);
            }
            i = i + 1;
        }
        assert(all.take(i as int) =~= all);
        if !fed {
            return None;
        }
        let ghost list = views(sorted@);
        let mut merged: Vec<ProcessSpan> = Vec::new();
        let mut n: usize = 0;
        assert(views(merged@) =~= Seq::<ProcessView>::empty());
        assert(list.take(0) =~= Seq::<ProcessView>::empty());
        while n < sorted.len()
            invariant
                n <= sorted.len(),
                list == views(sorted@),
                views(merged@) == spans_merged(list.take(n as int)),
            decreases sorted.len() - n,
        {
            let span: &ProcessSpan = &sorted[n];
            let ghost so_far = views(merged@);
            proof {
                assert(list[n as int] == span@);
                assert(list.take(n + 1).drop_last() =~= list.take(n as int));
                assert(list.take(n + 1).last() == list[n as int]);
            }
            let last: usize = merged.len();
            if last > 0 {
                assert(merged@[last - 1]@ == so_far.last());
            }
            if last > 0 && span.start as i128 <= merged[last - 1].end as i128 + NANO as i128
                && same_brush(&merged[last - 1].brush, &span.brush) {
                if merged[last - 1].end < span.end {
                    merged[last - 1].end = span.end;
                }
                assert(views(merged@) =~= span_joined(so_far, span@));
            } else {
                merged.push(copied_span(span));
                assert(views(merged@) =~= span_joined(so_far, span@));
            }
            n = n + 1;
        }
        assert(list.take(n as int) =~= list);
        Some(merged)
    }

    /// Whether a tracked object should be drawn at `t`: not while it is
    /// stowed.
    pub fn object_visible(track: &ObjectTrack, t: Pico) -> (r: bool)
        ensures
            r == !(span_for(track.spans@, t as int) matches Some(TrackSpan::Stowed { .. })),
    {
        match span_at(&track.spans, t) {
            Some(TrackSpan::Stowed { .. }) => false,
            _ => true,
        }
    }

    /// Where a tracked object is at `t`.
    pub fn object_pose(track: &ObjectTrack, t: Pico) -> (r: Option<Placement>)
        ensures
            r == (match span_for(track.spans@, t as int) {
                Some(span) => Some(span.placement(t as int)),
                None => None,
            }),
    {
        span_pose(&track.spans, t)
    }

    /// Where a span list puts its object at `t`.
    pub fn span_pose(spans: &Vec<TrackSpan>, t: Pico) -> (r: Option<Placement>)
        ensures
            r == (match span_for(spans@, t as int) {
                Some(span) => Some(span.placement(t as int)),
                None => None,
            }),
    {
        span_pose(spans, t)
    }

    /// Where a mounted robot's base was at `t`: the rigid ride on its vehicle,
    /// with the body's own motion while it walks. The ride is lifted in the
    /// world, for the body climbs the steps; the tilt and the sway are the
    /// body's own and are composed after it. None for a robot that rides
    /// nothing. `bearing` is what the walk planner gives for the track's rises,
    /// tilts and sways at that instant.
    pub fn base_pose(track: &RobotTrack, t: Pico, bearing: &Bearing) -> (r: Option<BasePose>)
        requires
            !track.on_a_link(t as int),
        ensures
            r == track.base_at(t as int, *bearing),
    {
        let spans: &Vec<TrackSpan> = match &track.base {
            Some(spans) => spans,
            None => {
                return None;
            },
        };
        let rigid: Placement = match span_pose(spans, t) {
            Some(p) => p,
            None => {
                return None;
            },
        };
        let rise: Pico = if track.rise.len() == 0 {
            0
        } else {
            bearing.rise
        };
        let pitch: Pose = if track.pitch.len() == 0 {
            identity()
        } else {
            bearing.pitch
        };
        let sway: Pose = if track.sway.len() == 0 {
            identity()
        } else {
            bearing.sway
        };
        Some(BasePose { ride: rigid.lift(rise), pitch, sway })
    }

    /// The track of the robot named `name`.
    pub fn robot_track(&self, name: &str) -> (r: Option<&RobotTrack>)
        ensures
            match find(names_of(self.robots@), name@) {
                Some(i) => r == Some(&self.robots@[i]),
                None => r is None,
            },
    {
        match find_named(&self.robots, name) {
            Some(i) => Some(&self.robots[i]),
            None => None,
        }
    }

    /// The time `name` spent in motion, overlapping moves counted once.
    pub fn busy_seconds(&self, name: &str) -> (r: Option<Pico>)
        ensures
            r == (match find(names_of(self.robots@), name@) {
                Some(i) => Some(
                    clip(covered_time(move_intervals(views(self.robots@[i].moves@)))),
                ),
                None => None,
            }),
    {
        let i: usize = match find_named(&self.robots, name) {
            Some(i) => i,
            None => {
                return None;
            },
        };
        let moves: &Vec<StepSpan> = &self.robots[i].moves;
        let ghost all = views(moves@);
        let mut spans: Vec<(Pico, Pico)> = Vec::new();
        let mut k: usize = 0;
        assert(all.take(0) =~= Seq::<StepSpanView>::empty());
        while k < moves.len()
            invariant
                k <= moves.len(),
                all == views(moves@),
                spans@ == move_intervals(all.take(k as int)),
            decreases moves.len() - k,
        {
            assert(all[k as int] == moves@[k as int]@);
            assert(all.take(k + 1).drop_last() =~= all.take(k as int));
            assert(all.take(k + 1).last() == all[k as int]);
            insert_interval(&mut spans, (moves[k].start, moves[k].end));
            k = k + 1;
        }
        assert(all.take(k as int) =~= all);
        Some(clipped(total_covered(&spans)))
    }

    /// The fraction of the cycle `name` spent moving, out of [`UNIT`]; zero
    /// for a cycle of no length.
    pub fn utilization(&self, name: &str) -> (r: Option<Pico>)
        ensures
            r == (match find(names_of(self.robots@), name@) {
                Some(i) => Some(
                    if self.duration > 0 {
                        clip(
                            muldiv(
                                clip(
                                    covered_time(move_intervals(views(self.robots@[i].moves@))),
                                ) as int,
                                UNIT as int,
                                self.duration as int,
                            ),
                        )
                    } else {
                        0
                    },
                ),
                None => None,
            }),
            find(names_of(self.robots@), name@) matches Some(i) ==> ({
                let busy = moving_instants(views(self.robots@[i].moves@)).len();
                &&& self.duration <= 0 ==> r == Some(0i64)
                &&& 0 < self.duration && busy <= self.duration ==> (r matches Some(share)
                    && self.duration * share <= busy * 1_000_000_000_000 < self.duration * (share
                    + 1))
            }),
    {
        proof {
            if find(names_of(self.robots@), name@) is Some {
                let i = find(names_of(self.robots@), name@)->0;
                law_busy_is_the_time_in_motion(views(self.robots@[i].moves@));
                let busy = moving_instants(views(self.robots@[i].moves@)).len() as int;
                if 0 < self.duration && busy <= self.duration {
                    lemma_share(busy, self.duration as int);
                }
            }
        }
        match self.busy_seconds(name) {
            Some(busy) => Some(
                if self.duration > 0 {
                    crate::fixed::scaled(busy, UNIT, self.duration as i128)
                } else {
                    0
                },
            ),
            None => None,
        }
    }

    /// The time the vehicle `name` spent off its starting ground: every span
    /// that moves it, and every hold above the altitude it started at. None
    /// for a vehicle that this timeline never drove.
    pub fn vehicle_airborne(&self, name: &str) -> (r: Option<Pico>)
        ensures
            r == (match find(names_of(self.vehicles@), name@) {
                Some(i) => {
                    let spans = self.vehicles@[i].spans@;
                    if spans.len() == 0 {
                        None
                    } else {
                        Some(airborne_time(spans, altitude(spans[0])))
                    }
                },
                None => None,
            }),
    {
        let i: usize = match find_named(&self.vehicles, name) {
            Some(i) => i,
            None => {
                return None;
            },
        };
        let spans: &Vec<TrackSpan> = &self.vehicles[i].spans;
        if spans.len() == 0 {
            return None;
        }
        let ground: Pico = match spans[0] {
            TrackSpan::Hold { pose, .. } => pose.at.z,
            TrackSpan::Stowed { pose, .. } => pose.at.z,
            TrackSpan::Linear { from, .. } => from.at.z,
            TrackSpan::Pivot { from, .. } => from.at.z,
            TrackSpan::Follow { .. } => 0,
        };
        let mut total: Pico = 0;
        let mut k: usize = 0;
        while k < spans.len()
            invariant
                k <= spans.len(),
                total == airborne_time(spans@.take(k as int), ground),
            decreases spans.len() - k,
        {
            proof {
                assert(spans@.take(k + 1).drop_last() =~= spans@.take(k as int));
                assert(spans@.take(k + 1).last() == spans@[k as int]);
            }
            if is_off_ground(&spans[k], ground) {
                let (t0, t1): (Pico, Pico) = spans[k].range();
                total = clipped(total as i128 + (t1 as i128 - t0 as i128));
            }
            k = k + 1;
        }
        assert(spans@.take(k as int) =~= spans@);
        Some(total)
    }
}

proof fn lemma_share(busy: int, duration: int)
    requires
        0 <= busy <= duration,
        duration > 0,
    ensures
        0 <= muldiv(busy, UNIT as int, duration) <= UNIT,
        duration * muldiv(busy, UNIT as int, duration) <= busy * 1_000_000_000_000 < duration * (
        muldiv(busy, UNIT as int, duration) + 1),
{
    crate::fixed::law_quotients_are_rounded_down(busy, UNIT as int, duration);
    let q = muldiv(busy, UNIT as int, duration);
    let u = 1_000_000_000_000int;
    assert(0 <= q <= u && duration * (q + 1) == duration * q + duration) by (nonlinear_arith)
        requires
            0 <= busy <= duration,
            duration > 0,
            u == 1_000_000_000_000,
            duration * q <= busy * u < duration * q + duration,
    ;
}

/// The time that intervals sorted by start cover.
fn total_covered(spans: &Vec<(Pico, Pico)>) -> (r: i128)
    ensures
        r == covered_time(spans@),
{
    let mut total: i128 = 0;
    let mut far: Option<Pico> = None;
    let mut k: usize = 0;
    while k < spans.len()
        invariant
            k <= spans.len(),
            far == frontier(spans@.take(k as int)),
            total == covered_time(spans@.take(k as int)),
            0 <= total,
            match far {
                Some(f) => total <= f + 0x8000_0000_0000_0000,
                None => total == 0,
            },
        decreases spans.len() - k,
    {
        assert(spans@.take(k + 1).drop_last() =~= spans@.take(k as int));
        assert(spans@.take(k + 1).last() == spans@[k as int]);
        let (start, end): (Pico, Pico) = spans[k];
        let from: Pico = match far {
            Some(f) => if f > start {
                f
            } else {
                start
            },
            None => start,
        };
        if end > from {
            total = total + (end as i128 - from as i128);
        }
        far = match far {
            Some(f) => if f >= end {
                Some(f)
            } else {
                Some(end)
            },
            None => Some(end),
        };
        k = k + 1;
    }
    assert(spans@.take(k as int) =~= spans@);
    total
}

proof fn lemma_covered_within(spans: Seq<(Pico, Pico)>, duration: Pico)
    requires
        forall|i: int|
            0 <= i < spans.len() ==> 0 <= (#[trigger] spans[i]).0 && spans[i].1 <= duration,
        duration >= 0,
    ensures
        0 <= covered_time(spans) <= duration,
        match frontier(spans) {
            Some(f) => covered_time(spans) <= if f > 0 {
                f as int
            } else {
                0
            },
            None => covered_time(spans) == 0,
        },
        frontier(spans) matches Some(f) ==> f <= duration,
    decreases spans.len(),
{
    if spans.len() > 0 {
        let less = spans.drop_last();
        assert forall|i: int| 0 <= i < less.len() implies 0 <= (#[trigger] less[i]).0 && less[i].1
            <= duration by {
            assert(less[i] == spans[i]);
        }
        lemma_covered_within(less, duration);
    }
}

proof fn lemma_intervals_from(moves: Seq<StepSpanView>, duration: Pico)
    requires
        forall|i: int|
            0 <= i < moves.len() ==> 0 <= (#[trigger] moves[i]).start && moves[i].end <= duration,
    ensures
        forall|i: int|
            0 <= i < move_intervals(moves).len() ==> 0 <= (#[trigger] move_intervals(moves)[i]).0
                && move_intervals(moves)[i].1 <= duration,
    decreases moves.len(),
{
    if moves.len() > 0 {
        let less = moves.drop_last();
        assert forall|i: int| 0 <= i < less.len() implies 0 <= (#[trigger] less[i]).start
            && less[i].end <= duration by {
            assert(less[i] == moves[i]);
        }
        lemma_intervals_from(less, duration);
        assert(moves.last() == moves[moves.len() - 1]);
        lemma_inserted_from(
            move_intervals(less),
            (moves.last().start, moves.last().end),
            duration,
        );
    }
}

proof fn lemma_inserted_from(list: Seq<(Pico, Pico)>, x: (Pico, Pico), duration: Pico)
    requires
        forall|i: int|
            0 <= i < list.len() ==> 0 <= (#[trigger] list[i]).0 && list[i].1 <= duration,
        0 <= x.0,
        x.1 <= duration,
    ensures
        forall|i: int|
            0 <= i < interval_inserted(list, x).len() ==> 0 <= (#[trigger] interval_inserted(
                list,
                x,
            )[i]).0 && interval_inserted(list, x)[i].1 <= duration,
    decreases list.len(),
{
    if list.len() > 0 && list.last().0 > x.0 {
        let less = list.drop_last();
        assert forall|i: int| 0 <= i < less.len() implies 0 <= (#[trigger] less[i]).0 && less[i].1
            <= duration by {
            assert(less[i] == list[i]);
        }
        lemma_inserted_from(less, x, duration);
        let inner = interval_inserted(less, x);
        let all = inner.push(list.last());
        assert forall|i: int| 0 <= i < all.len() implies 0 <= (#[trigger] all[i]).0 && all[i].1
            <= duration by {
            if i < inner.len() {
                assert(all[i] == inner[i]);
            } else {
                assert(all[i] == list[list.len() - 1]);
            }
        }
    }
}

/// A robot whose moves all fall within the cycle is never busy longer than
/// the cycle: its utilization lies between none and the whole.
pub proof fn law_busy_within_the_cycle(moves: Seq<StepSpanView>, duration: Pico)
    requires
        duration >= 0,
        forall|i: int|
            0 <= i < moves.len() ==> 0 <= (#[trigger] moves[i]).start && moves[i].end <= duration,
    ensures
        0 <= covered_time(move_intervals(moves)) <= duration,
        duration > 0 ==> 0 <= muldiv(
            covered_time(move_intervals(moves)),
            UNIT as int,
            duration as int,
        ) <= UNIT,
{
    lemma_intervals_from(moves, duration);
    lemma_covered_within(move_intervals(moves), duration);
    let busy = covered_time(move_intervals(moves));
    if duration > 0 {
        assert(0 <= (busy * UNIT) / (duration as int) <= UNIT) by (nonlinear_arith)
            requires
                0 <= busy <= duration,
                duration > 0,
                UNIT == 1_000_000_000_000i64,
        ;
    }
}

/// Sorting the process spans puts them in time order and loses none.
pub proof fn law_process_spans_sorted(list: Seq<ProcessView>)
    ensures
        forall|i: int, j: int|
            #![trigger spans_sorted(list)[i], spans_sorted(list)[j]]
            0 <= i <= j < spans_sorted(list).len() ==> spans_sorted(list)[i].start <= spans_sorted(
                list,
            )[j].start,
        spans_sorted(list).to_multiset() == list.to_multiset(),
    decreases list.len(),
{
    broadcast use vstd::seq_lib::group_to_multiset_ensures;

    if list.len() > 0 {
        law_process_spans_sorted(list.drop_last());
        lemma_inserted_sorted(spans_sorted(list.drop_last()), list.last());
        assert(list =~= list.drop_last().push(list.last()));
    } else {
        assert(spans_sorted(list) =~= list);
    }
}

proof fn lemma_inserted_sorted(list: Seq<ProcessView>, x: ProcessView)
    requires
        forall|i: int, j: int|
            #![trigger list[i], list[j]]
            0 <= i <= j < list.len() ==> list[i].start <= list[j].start,
    ensures
        forall|i: int, j: int|
            #![trigger span_inserted(list, x)[i], span_inserted(list, x)[j]]
            0 <= i <= j < span_inserted(list, x).len() ==> span_inserted(list, x)[i].start
                <= span_inserted(list, x)[j].start,
        span_inserted(list, x).to_multiset() == list.to_multiset().insert(x),
        span_inserted(list, x).len() == list.len() + 1,
        forall|i: int|
            0 <= i < span_inserted(list, x).len() ==> (#[trigger] span_inserted(list, x)[i]) == x
                || list.contains(span_inserted(list, x)[i]),
    decreases list.len(),
{
    broadcast use vstd::seq_lib::group_to_multiset_ensures;

    let all = span_inserted(list, x);
    if list.len() == 0 || list.last().start <= x.start {
        assert forall|i: int| 0 <= i < all.len() implies (#[trigger] all[i]) == x || list.contains(
            all[i],
        ) by {
            if i < list.len() {
                assert(list[i] == all[i]);
            }
        }
        assert forall|i: int, j: int|
            #![trigger all[i], all[j]]
            0 <= i <= j < all.len() implies all[i].start <= all[j].start by {
            if j < list.len() {
                assert(all[i] == list[i] && all[j] == list[j]);
            } else if i < list.len() {
                assert(all[i] == list[i]);
                assert(list[i].start <= list[list.len() - 1].start);
            }
        }
    } else {
        let less = list.drop_last();
        assert forall|i: int, j: int|
            #![trigger less[i], less[j]]
            0 <= i <= j < less.len() implies less[i].start <= less[j].start by {
            assert(less[i] == list[i] && less[j] == list[j]);
        }
        lemma_inserted_sorted(less, x);
        let inner = span_inserted(less, x);
        assert(list =~= less.push(list.last()));
        assert(all.to_multiset() =~= list.to_multiset().insert(x));
        assert forall|i: int| 0 <= i < all.len() implies (#[trigger] all[i]) == x || list.contains(
            all[i],
        ) by {
            if i < inner.len() {
                assert(all[i] == inner[i]);
                if all[i] != x {
                    let k = choose|k: int| 0 <= k < less.len() && less[k] == inner[i];
                    assert(list[k] == all[i]);
                }
            } else {
                assert(list[list.len() - 1] == all[i]);
            }
        }
        assert forall|i: int, j: int|
            #![trigger all[i], all[j]]
            0 <= i <= j < all.len() implies all[i].start <= all[j].start by {
            if j < inner.len() {
                assert(all[i] == inner[i] && all[j] == inner[j]);
            } else if i < inner.len() {
                assert(all[i] == inner[i]);
                if inner[i] != x {
                    let k = choose|k: int| 0 <= k < less.len() && less[k] == inner[i];
                    assert(list[k] == inner[i]);
                    assert(list[k].start <= list[list.len() - 1].start);
                }
            }
        }
    }
}

/// The instants at which some interval runs.
pub open spec fn instants(spans: Seq<(Pico, Pico)>) -> Set<int> {
    Set::new(|t: int| exists|i: int| 0 <= i < spans.len() && (#[trigger] spans[i]).0 <= t < spans[i].1)
}

/// The instants at which some move runs.
pub open spec fn moving_instants(moves: Seq<StepSpanView>) -> Set<int> {
    Set::new(
        |t: int|
            exists|i: int|
                0 <= i < moves.len() && (#[trigger] moves[i]).start <= t < moves[i].end,
    )
}

/// A robot is busy for as many counts of time as there are instants at which one of
/// its moves runs: what overlaps counts once, what lies between counts not at all.
pub proof fn law_busy_is_the_time_in_motion(moves: Seq<StepSpanView>)
    ensures
        moving_instants(moves).finite(),
        covered_time(move_intervals(moves)) == moving_instants(moves).len(),
{
    let spans = move_intervals(moves);
    lemma_move_intervals(moves);
    lemma_covered_count(spans);
    assert forall|t: int| instants(spans).contains(t) == moving_instants(moves).contains(t) by {
        if instants(spans).contains(t) {
            let i = choose|i: int|
                0 <= i < spans.len() && (#[trigger] spans[i]).0 <= t < spans[i].1;
            assert(spans.contains(spans[i]));
            let k = choose|k: int|
                0 <= k < moves.len() && ((#[trigger] moves[k]).start, moves[k].end) == spans[i];
            assert(moves[k].start <= t < moves[k].end);
        }
        if moving_instants(moves).contains(t) {
            let k = choose|k: int|
                0 <= k < moves.len() && (#[trigger] moves[k]).start <= t < moves[k].end;
            assert(spans.contains((moves[k].start, moves[k].end)));
            let i = choose|i: int|
                0 <= i < spans.len() && spans[i] == (moves[k].start, moves[k].end);
            assert(spans[i].0 <= t < spans[i].1);
        }
    }
    assert(instants(spans) =~= moving_instants(moves));
}

proof fn lemma_interval_inserted(list: Seq<(Pico, Pico)>, x: (Pico, Pico))
    requires
        forall|i: int, j: int|
            #![trigger list[i], list[j]]
            0 <= i <= j < list.len() ==> list[i].0 <= list[j].0,
    ensures
        forall|i: int, j: int|
            #![trigger interval_inserted(list, x)[i], interval_inserted(list, x)[j]]
            0 <= i <= j < interval_inserted(list, x).len() ==> interval_inserted(list, x)[i].0
                <= interval_inserted(list, x)[j].0,
        forall|y: (Pico, Pico)| #[trigger]
            interval_inserted(list, x).contains(y) <==> y == x || list.contains(y),
    decreases list.len(),
{
    let all = interval_inserted(list, x);
    if list.len() == 0 || list.last().0 <= x.0 {
        assert forall|y: (Pico, Pico)| #[trigger] all.contains(y) <==> y == x || list.contains(
            y,
        ) by {
            if all.contains(y) {
                let i = choose|i: int| 0 <= i < all.len() && all[i] == y;
                if i < list.len() {
                    assert(list[i] == y);
                }
            }
            if y == x {
                assert(all[list.len() as int] == x);
            }
            if list.contains(y) {
                let i = choose|i: int| 0 <= i < list.len() && list[i] == y;
                assert(all[i] == y);
            }
        }
        assert forall|i: int, j: int|
            #![trigger all[i], all[j]]
            0 <= i <= j < all.len() implies all[i].0 <= all[j].0 by {
            if i < list.len() {
                assert(all[i] == list[i]);
                if j < list.len() {
                    assert(all[j] == list[j]);
                } else {
                    assert(list[i].0 <= list[list.len() - 1].0);
                }
            }
        }
    } else {
        let less = list.drop_last();
        let z = list[list.len() - 1];
        assert forall|i: int, j: int|
            #![trigger less[i], less[j]]
            0 <= i <= j < less.len() implies less[i].0 <= less[j].0 by {
            assert(less[i] == list[i] && less[j] == list[j]);
        }
        lemma_interval_inserted(less, x);
        let inner = interval_inserted(less, x);
        assert(all == inner.push(z));
        assert forall|y: (Pico, Pico)| #[trigger] all.contains(y) <==> y == x || list.contains(
            y,
        ) by {
            if all.contains(y) {
                let i = choose|i: int| 0 <= i < all.len() && all[i] == y;
                if i < inner.len() {
                    assert(inner[i] == y);
                    assert(inner.contains(y));
                    if y != x {
                        let k = choose|k: int| 0 <= k < less.len() && less[k] == y;
                        assert(list[k] == y);
                    }
                } else {
                    assert(list[list.len() - 1] == y);
                }
            }
            if y == x || list.contains(y) {
                if y == x || less.contains(y) {
                    assert(inner.contains(y));
                    let i = choose|i: int| 0 <= i < inner.len() && inner[i] == y;
                    assert(all[i] == y);
                } else {
                    let k = choose|k: int| 0 <= k < list.len() && list[k] == y;
                    if k < less.len() {
                        assert(less[k] == y);
                    }
                    assert(all[inner.len() as int] == y);
                }
            }
        }
        assert forall|i: int, j: int|
            #![trigger all[i], all[j]]
            0 <= i <= j < all.len() implies all[i].0 <= all[j].0 by {
            if i < inner.len() {
                assert(all[i] == inner[i]);
                if j < inner.len() {
                    assert(all[j] == inner[j]);
                } else {
                    assert(inner.contains(inner[i]));
                    if inner[i] != x {
                        let k = choose|k: int| 0 <= k < less.len() && less[k] == inner[i];
                        assert(list[k].0 <= list[list.len() - 1].0);
                    }
                }
            }
        }
    }
}

proof fn lemma_move_intervals(moves: Seq<StepSpanView>)
    ensures
        forall|i: int, j: int|
            #![trigger move_intervals(moves)[i], move_intervals(moves)[j]]
            0 <= i <= j < move_intervals(moves).len() ==> move_intervals(moves)[i].0
                <= move_intervals(moves)[j].0,
        forall|y: (Pico, Pico)| #[trigger]
            move_intervals(moves).contains(y) <==> exists|k: int|
                0 <= k < moves.len() && ((#[trigger] moves[k]).start, moves[k].end) == y,
    decreases moves.len(),
{
    let all = move_intervals(moves);
    if moves.len() > 0 {
        let less = moves.drop_last();
        let z = moves[moves.len() - 1];
        lemma_move_intervals(less);
        lemma_interval_inserted(move_intervals(less), (z.start, z.end));
        assert forall|y: (Pico, Pico)| #[trigger] all.contains(y) <==> exists|k: int|
            0 <= k < moves.len() && ((#[trigger] moves[k]).start, moves[k].end) == y by {
            if all.contains(y) {
                if y == (z.start, z.end) {
                    assert((moves[moves.len() - 1].start, moves[moves.len() - 1].end) == y);
                } else {
                    assert(move_intervals(less).contains(y));
                    let k = choose|k: int|
                        0 <= k < less.len() && ((#[trigger] less[k]).start, less[k].end) == y;
                    assert((moves[k].start, moves[k].end) == y);
                }
            }
            if exists|k: int|
                0 <= k < moves.len() && ((#[trigger] moves[k]).start, moves[k].end) == y {
                let k = choose|k: int|
                    0 <= k < moves.len() && ((#[trigger] moves[k]).start, moves[k].end) == y;
                if k < less.len() {
                    assert((less[k].start, less[k].end) == y);
                    assert(move_intervals(less).contains(y));
                }
            }
        }
    }
}

proof fn lemma_frontier(spans: Seq<(Pico, Pico)>)
    ensures
        match frontier(spans) {
            None => spans.len() == 0,
            Some(f) => (forall|i: int| 0 <= i < spans.len() ==> (#[trigger] spans[i]).1 <= f)
                && exists|i: int| 0 <= i < spans.len() && (#[trigger] spans[i]).1 == f,
        },
    decreases spans.len(),
{
    if spans.len() > 0 {
        let less = spans.drop_last();
        lemma_frontier(less);
        let f = frontier(spans)->0;
        assert forall|i: int| 0 <= i < spans.len() implies (#[trigger] spans[i]).1 <= f by {
            if i < less.len() {
                assert(less[i] == spans[i]);
            }
        }
        assert(spans.last() == spans[spans.len() - 1]);
        if f != spans[spans.len() - 1].1 {
            let i = choose|i: int| 0 <= i < less.len() && (#[trigger] less[i]).1 == f;
            assert(spans[i].1 == f);
        }
    }
}

proof fn lemma_covered_count(spans: Seq<(Pico, Pico)>)
    requires
        forall|i: int, j: int|
            #![trigger spans[i], spans[j]]
            0 <= i <= j < spans.len() ==> spans[i].0 <= spans[j].0,
    ensures
        instants(spans).finite(),
        instants(spans).len() == covered_time(spans),
    decreases spans.len(),
{
    if spans.len() == 0 {
        assert(instants(spans) =~= Set::<int>::empty());
    } else {
        let less = spans.drop_last();
        let s = spans[spans.len() - 1];
        assert forall|i: int, j: int|
            #![trigger less[i], less[j]]
            0 <= i <= j < less.len() implies less[i].0 <= less[j].0 by {
            assert(less[i] == spans[i] && less[j] == spans[j]);
        }
        lemma_covered_count(less);
        lemma_frontier(less);
        let from = match frontier(less) {
            Some(f) => if f > s.0 {
                f as int
            } else {
                s.0 as int
            },
            None => s.0 as int,
        };
        let to = if s.1 <= from {
            from
        } else {
            s.1 as int
        };
        let fresh = vstd::set_lib::set_int_range(from, to);
        vstd::set_lib::lemma_int_range(from, to);
        assert forall|t: int| instants(spans).contains(t) == instants(less).union(fresh).contains(
            t,
        ) by {
            if instants(spans).contains(t) {
                let i = choose|i: int|
                    0 <= i < spans.len() && (#[trigger] spans[i]).0 <= t < spans[i].1;
                if i < less.len() {
                    assert(less[i].0 <= t < less[i].1);
                } else if t < from {
                    let k = choose|k: int|
                        0 <= k < less.len() && (#[trigger] less[k]).1 == frontier(less)->0;
                    assert(spans[k].0 <= spans[spans.len() - 1].0);
                    assert(less[k].0 <= t < less[k].1);
                }
            }
            if instants(less).contains(t) {
                let i = choose|i: int|
                    0 <= i < less.len() && (#[trigger] less[i]).0 <= t < less[i].1;
                assert(spans[i].0 <= t < spans[i].1);
            }
            if fresh.contains(t) {
                assert(spans[spans.len() - 1].0 <= t < spans[spans.len() - 1].1);
            }
        }
        assert(instants(spans) =~= instants(less).union(fresh));
        assert(instants(less).disjoint(fresh)) by {
            assert forall|t: int| instants(less).contains(t) implies !fresh.contains(t) by {
                let i = choose|i: int|
                    0 <= i < less.len() && (#[trigger] less[i]).0 <= t < less[i].1;
                assert(less[i].1 <= frontier(less)->0);
            }
        }
        vstd::set_lib::lemma_set_disjoint_lens(instants(less), fresh);
        assert(spans.last() == s);
    }
}

/// Sorted process spans are merged so that each of them lies within a merged one of
/// its brush; merged spans start and end where spans of their brush do; and two that
/// follow one another differ in brush or lie more than 10^-9 s apart.
pub proof fn law_merging_joins_what_touches(list: Seq<ProcessView>, i: int)
    requires
        forall|a: int, b: int|
            #![trigger list[a], list[b]]
            0 <= a <= b < list.len() ==> list[a].start <= list[b].start,
    ensures
        ({
            let merged = spans_merged(list);
            &&& 0 <= i < list.len() ==> exists|m: int|
                0 <= m < merged.len() && within(list[i], #[trigger] merged[m])
            &&& 0 <= i < merged.len() ==> exists|a: int|
                0 <= a < list.len() && (#[trigger] list[a]).start == merged[i].start
                    && list[a].brush == merged[i].brush
            &&& 0 <= i < merged.len() ==> exists|a: int|
                0 <= a < list.len() && (#[trigger] list[a]).end == merged[i].end && list[a].brush
                    == merged[i].brush
            &&& 0 <= i < merged.len() - 1 ==> merged[i].brush != merged[i + 1].brush || merged[i
                + 1].start - merged[i].end > 1_000
        }),
    decreases list.len(),
{
    if list.len() > 0 {
        let less = list.drop_last();
        let n = list.len() - 1;
        let s = list[n];
        assert forall|a: int, b: int|
            #![trigger less[a], less[b]]
            0 <= a <= b < less.len() implies less[a].start <= less[b].start by {
            assert(less[a] == list[a] && less[b] == list[b]);
        }
        let mid = spans_merged(less);
        let merged = spans_merged(list);
        assert(merged == span_joined(mid, s));
        law_merging_joins_what_touches(less, i);
        let e = mid.len() - 1;
        if mid.len() > 0 {
            law_merging_joins_what_touches(less, e);
            let a = choose|a: int|
                0 <= a < less.len() && (#[trigger] less[a]).start == mid[e].start && less[a].brush
                    == mid[e].brush;
            assert(list[a].start <= list[n].start);
        }
        let joins = mid.len() > 0 && s.start <= mid[e].end + NANO && mid[e].brush == s.brush;
        if 0 <= i < list.len() {
            if i < n {
                let m = choose|m: int| 0 <= m < mid.len() && within(less[i], #[trigger] mid[m]);
                assert(within(list[i], merged[m]));
            } else if joins {
                assert(within(list[i], merged[e]));
            } else {
                assert(within(list[i], merged[mid.len() as int]));
            }
        }
        if 0 <= i < merged.len() {
            if i < mid.len() {
                let a = choose|a: int|
                    0 <= a < less.len() && (#[trigger] less[a]).start == mid[i].start
                        && less[a].brush == mid[i].brush;
                assert(list[a].start == merged[i].start && list[a].brush == merged[i].brush);
                let b = choose|b: int|
                    0 <= b < less.len() && (#[trigger] less[b]).end == mid[i].end && less[b].brush
                        == mid[i].brush;
                if merged[i].end == mid[i].end {
                    assert(list[b].end == merged[i].end && list[b].brush == merged[i].brush);
                } else {
                    assert(list[n].end == merged[i].end && list[n].brush == merged[i].brush);
                }
            } else {
                assert(list[n].start == merged[i].start && list[n].end == merged[i].end);
            }
        }
    }
}

/// Whether a span lies within another of its brush.
pub open spec fn within(span: ProcessView, whole: ProcessView) -> bool {
    whole.start <= span.start && span.end <= whole.end && whole.brush == span.brush
}

/// A vehicle's time off the ground grows by every span that it spends more than
/// 10^-6 m above where it started, and by every one in which it moves faster than
/// 10^-9 m/s, turns faster than 10^-9 rad/s, or is carried; by no other.
pub proof fn law_time_off_the_ground_adds_up(spans: Seq<TrackSpan>, span: TrackSpan, ground: Pico)
    requires
        i64::MIN <= airborne_time(spans, ground) + (span.end() - span.start()) <= i64::MAX,
    ensures
        airborne_time(seq![], ground) == 0,
        ({
            let total = airborne_time(spans, ground);
            let longer = airborne_time(spans.push(span), ground);
            let flies = match span {
                TrackSpan::Hold { pose, .. } => pose.at.z - ground > 1_000_000,
                TrackSpan::Stowed { pose, .. } => pose.at.z - ground > 1_000_000,
                TrackSpan::Follow { .. } => true,
                TrackSpan::Linear { from, velocity, .. } => from.at.z - ground > 1_000_000
                    || velocity.x * velocity.x + velocity.y * velocity.y + velocity.z * velocity.z
                    > 1_000_000,
                TrackSpan::Pivot { from, omega, .. } => from.at.z - ground > 1_000_000 || omega
                    > 1_000 || omega < -1_000,
            };
            &&& flies ==> longer == total + (span.end() - span.start())
            &&& !flies ==> longer == total
        }),
{
    assert(spans.push(span).drop_last() =~= spans);
    assert(spans.push(span).last() == span);
    assert(NANO * NANO == 1_000_000) by (nonlinear_arith)
        requires
            NANO == 1_000i64,
    ;
}

/// What a walk gives its body shows in the base: the tilt and the sway as they are
/// given, and the rise on top of the ride, each where the track has a stretch of it.
pub proof fn law_a_walking_base_is_borne(track: RobotTrack, t: int, bearing: Bearing)
    requires
        track.base is Some,
        span_for((track.base->0)@, t) is Some,
    ensures
        ({
            let ride = (span_for((track.base->0)@, t)->0).placement(t);
            let base = track.base_at(t, bearing);
            &&& base is Some
            &&& track.pitch@.len() > 0 ==> (base->0).pitch == bearing.pitch
            &&& track.sway@.len() > 0 ==> (base->0).sway == bearing.sway
            &&& track.rise@.len() > 0 ==> (ride matches Placement::At(pose) ==> (i64::MIN
                <= pose.at.z + bearing.rise <= i64::MAX ==> ((base->0).ride matches Placement::At(
                up,
            ) && up.at.z == pose.at.z + bearing.rise && up.at.x == pose.at.x && up.at.y
                == pose.at.y)))
        }),
{
}

/// What a robot sprayed is what its moves sprayed, one move after the other.
pub proof fn law_sprayed_spans_are_told_move_by_move(planned: Seq<PlannedView>, one: PlannedView)
    ensures
        all_process_spans(seq![]).len() == 0,
        all_process_spans(planned.push(one)) == all_process_spans(planned) + one.process_spans,
{
    assert(planned.push(one).drop_last() =~= planned);
    assert(planned.push(one).last() == one);
}

} // verus!
