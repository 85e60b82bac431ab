//! Closing a rollout into its timeline.

use vstd::prelude::*;

use crate::fixed::{Pico, Pose};
use crate::gait::{Footfall, Ride};
use crate::lanes::LaneView;
use crate::motion::WaypointView;
use crate::robots::{RobotRuntime, RobotView};
use crate::rollout::{Rollout, RolloutView};
use crate::scene::Robot;
use crate::timeline::{
    BranchView, PlannedView, RobotTrack, SequenceTimeline, StepSpanView,
};
use crate::tracks::{finished, span_for, span_pose, Placement, TrackSpan, TrackView};
use crate::views::{copied, opt, views};

verus! {

/// What a robot's share of a timeline says.
#[verifier::ext_equal]
pub struct RobotTrackView {
    pub name: String,
    pub trajectory: Seq<WaypointView>,
    pub moves: Seq<StepSpanView>,
    pub planned: Seq<PlannedView>,
    pub base: Option<Seq<TrackSpan>>,
    pub footfalls: Seq<Footfall>,
    pub sway: Seq<Ride>,
    pub pitch: Seq<Ride>,
    pub rise: Seq<Ride>,
}

impl View for RobotTrack {
    type V = RobotTrackView;

    open spec fn view(&self) -> RobotTrackView {
        RobotTrackView {
            name: self.name,
            trajectory: self.trajectory@,
            moves: views(self.moves@),
            planned: views(self.planned@),
            base: opt(self.base),
            footfalls: self.footfalls@,
            sway: self.sway@,
            pitch: self.pitch@,
            rise: self.rise@,
        }
    }
}

/// What a timeline says.
#[verifier::ext_equal]
pub struct TimelineView {
    pub duration: Pico,
    pub sequences: Seq<String>,
    pub scenario: Option<String>,
    pub robots: Seq<RobotTrackView>,
    pub objects: Seq<TrackView>,
    pub vehicles: Seq<TrackView>,
    pub signals: Seq<LaneView>,
    pub step_spans: Seq<StepSpanView>,
    pub branches: Seq<BranchView>,
}

impl View for SequenceTimeline {
    type V = TimelineView;

    open spec fn view(&self) -> TimelineView {
        TimelineView {
            duration: self.duration,
            sequences: self.sequences@,
            scenario: self.scenario,
            robots: views(self.robots@),
            objects: views(self.objects@),
            vehicles: views(self.vehicles@),
            signals: views(self.signals@),
            step_spans: views(self.step_spans@),
            branches: views(self.branches@),
        }
    }
}

/// Whether step `a` comes after step `b`: by landing, legs in order where two
/// land together.
pub open spec fn lands_after(a: Footfall, b: Footfall) -> bool {
    a.land > b.land || (a.land == b.land && a.leg > b.leg)
}

/// `x` put into a list behind everything that it does not precede.
pub open spec fn step_inserted(list: Seq<Footfall>, x: Footfall) -> Seq<Footfall>
    decreases list.len(),
{
    if list.len() == 0 || !lands_after(list.last(), x) {
        list.push(x)
    } else {
        step_inserted(list.drop_last(), x).push(list.last())
    }
}

/// The steps in landing order; equal ones keep theirs.
pub open spec fn steps_sorted(list: Seq<Footfall>) -> Seq<Footfall>
    decreases list.len(),
{
    if list.len() == 0 {
        Seq::empty()
    } else {
        step_inserted(steps_sorted(list.drop_last()), list.last())
    }
}

/// A base's spans at the end of the cycle. The cycle usually ends parked: a
/// travelling span is closed at its own end and the base rests there, at
/// `rest` where a pivot has turned it.
pub open spec fn base_closed(spans: Seq<TrackSpan>, duration: Pico, rest: Pose) -> Seq<TrackSpan> {
    if spans.len() == 0 {
        spans
    } else if spans.last().moving() {
        let end = spans.last().end();
        if end < duration - 1 {
            spans.push(
                TrackSpan::Hold {
                    t0: end,
                    t1: duration,
                    pose: match span_for(spans, end as int) {
                        Some(span) => match span.placement(end as int) {
                            Placement::At(pose) => pose,
                            _ => rest,
                        },
                        None => rest,
                    },
                },
            )
        } else {
            spans
        }
    } else {
        spans.update(spans.len() - 1, spans.last().until(duration))
    }
}

/// A robot's share of the timeline.
pub open spec fn track_of(robot: Robot, rt: RobotView, duration: Pico, rest: Pose) -> RobotTrackView {
    RobotTrackView {
        name: robot.name,
        trajectory: rt.held_at(duration).bake,
        moves: rt.moves,
        planned: rt.planned,
        base: match rt.base {
            Some(spans) => Some(base_closed(spans, duration, rest)),
            None => None,
        },
        footfalls: match rt.gait {
            Some(g) => steps_sorted(g.history),
            None => Seq::empty(),
        },
        sway: match rt.gait {
            Some(g) => g.sways,
            None => Seq::empty(),
        },
        pitch: match rt.gait {
            Some(g) => g.pitches,
            None => Seq::empty(),
        },
        rise: match rt.gait {
            Some(g) => g.rises,
            None => Seq::empty(),
        },
    }
}

impl RolloutView {
    /// The timeline that a rollout closes into. `rests[r]` is where a pivot
    /// left the base of robot `r`.
    pub open spec fn timeline(self, rests: Seq<Pose>) -> TimelineView {
        TimelineView {
            duration: self.t,
            sequences: Seq::new(
                self.programs.len(),
                |p: int| self.programs[p].sequence.name,
            ),
            scenario: None,
            robots: Seq::new(
                self.robots.len(),
                |r: int| track_of(self.scene.robots@[r], self.robots[r], self.t, rests[r]),
            ),
            objects: finished(self.objects, self.t),
            vehicles: finished(self.vehicles, self.t),
            signals: self.lanes.tracks,
            step_spans: self.step_spans,
            branches: self.branches,
        }
    }
}

fn insert_step(list: &mut Vec<Footfall>, x: Footfall)
    ensures
        final(list)@ == step_inserted(old(list)@, x),
{
    let ghost before = list@;
    let mut i: usize = list.len();
    assert(before.take(i as int) =~= before);
    assert(step_inserted(before, x) + before.skip(i as int) =~= step_inserted(before, x));
    while i > 0 && (list[i - 1].land > x.land || (list[i - 1].land == x.land && list[i - 1].leg
        > x.leg))
        invariant
            i <= list@.len(),
            before == list@,
            step_inserted(before, x) == step_inserted(before.take(i as int), x) + before.skip(
                i as int,
            ),
        decreases i,
    {
        proof {
            let front = before.take(i as int);
            assert(front.drop_last() =~= before.take(i - 1));
            assert(front.last() == before[i - 1]);
            assert(step_inserted(before.take(i - 1), x).push(before[i - 1]) + before.skip(i as int)
                =~= step_inserted(before.take(i - 1), x) + before.skip(i - 1));
        }
        i = i - 1;
    }
    proof {
        if i > 0 {
            assert(before.take(i as int).last() == before[i - 1]);
        }
        assert(step_inserted(before.take(i as int), x) == before.take(i as int).push(x));
    }
    list.insert(i, x);
    assert(list@ =~= before.take(i as int).push(x) + before.skip(i as int));
}

/// The steps in landing order.
pub fn sort_steps(list: &Vec<Footfall>) -> (r: Vec<Footfall>)
    ensures
        r@ == steps_sorted(list@),
{
    let mut out: Vec<Footfall> = Vec::new();
    let mut i: usize = 0;
    while i < list.len()
        invariant
            i <= list.len(),
            out@ == steps_sorted(list@.take(i as int)),
        decreases list.len() - i,
    {
        assert(list@.take(i + 1).drop_last() =~= list@.take(i as int));
        insert_step(&mut out, list[i]);
        i = i + 1;
    }
    assert(list@.take(i as int) =~= list@);
    out
}

fn close_base(spans: &mut Vec<TrackSpan>, duration: Pico, rest: Pose)
    ensures
        final(spans)@ == base_closed(old(spans)@, duration, rest),
{
    let n: usize = spans.len();
    if n == 0 {
        return;
    }
    let mut last: TrackSpan = spans[n - 1];
    if last.is_moving() {
        let end: Pico = last.range().1;
        if (end as i128) < duration as i128 - 1 {
            let pose: Pose = match span_pose(spans, end) {
                Some(Placement::At(pose)) => pose,
                _ => rest,
            };
            spans.push(TrackSpan::Hold { t0: end, t1: duration, pose });
        }
    } else {
        *last.end_mut() = duration;
        spans.set(n - 1, last);
    }
}

impl RobotRuntime {
    fn into_track(self, robot: &Robot, duration: Pico, rest: Pose) -> (r: RobotTrack)
        ensures
            r@ == track_of(*robot, self@, duration, rest),
    {
        let ghost rt = self@;
        let mut this: RobotRuntime = self;
        this.hold(duration);
        match &mut this.base {
            Some(spans) => {
                close_base(spans, duration, rest);
            },
            None => {},
        }
        let mut footfalls: Vec<Footfall> = Vec::new();
        let mut sway: Vec<Ride> = Vec::new();
        let mut pitch: Vec<Ride> = Vec::new();
        let mut rise: Vec<Ride> = Vec::new();
        match &this.gait {
            Some(g) => {
                footfalls = sort_steps(&g.history);
                sway = copied(&g.sways);
                pitch = copied(&g.pitches);
                rise = copied(&g.rises);
            },
            None => {},
        }
        let track: RobotTrack = RobotTrack {
            name: robot.name.clone(),
            trajectory: this.bake,
            moves: this.moves,
            planned: this.planned,
            base: this.base,
            footfalls,
            sway,
            pitch,
            rise,
        };
        assert(track@ =~= track_of(*robot, rt, duration, rest));
        track
    }
}

impl<'a> Rollout<'a> {
    /// Closes the rollout into its timeline.
    pub fn finish(self, rests: &Vec<Pose>) -> (r: SequenceTimeline)
        requires
            self@.sound(),
            rests@.len() == self.robots@.len(),
        ensures
            r@ == self@.timeline(rests@),
    {
        let ghost v = self@;
        let ghost want = v.timeline(rests@);
        let scene = self.scene;
        let duration: Pico = self.t;
        let mut sequences: Vec<String> = Vec::new();
        let mut p: usize = 0;
        while p < self.programs.len()
            invariant
                p <= self.programs@.len(),
                v == self@,
                want == v.timeline(rests@),
                sequences@ == want.sequences.take(p as int),
            decreases self.programs@.len() - p,
        {
            assert(v.programs[p as int] == self.programs@[p as int]@);
            sequences.push(self.programs[p].sequence.name.clone());
            p = p + 1;
            assert(sequences@ =~= want.sequences.take(p as int));
        }
        assert(sequences@ =~= want.sequences);
        let mut runtimes: Vec<RobotRuntime> = self.robots;
        let mut robots: Vec<RobotTrack> = Vec::new();
        assert(views(runtimes@) =~= v.robots.take(v.robots.len() as int));
        assert(views(robots@) =~= want.robots.skip(v.robots.len() as int));
        while runtimes.len() > 0
            invariant
                want == v.timeline(rests@),
                rests@.len() == v.robots.len(),
                scene.robots@.len() == v.robots.len(),
                *scene == v.scene,
                duration == v.t,
                runtimes@.len() <= v.robots.len(),
                views(runtimes@) == v.robots.take(runtimes@.len() as int),
                views(robots@) == want.robots.skip(runtimes@.len() as int),
            decreases runtimes@.len(),
        {
            let ghost before = runtimes@;
            match runtimes.pop() {
                Some(rt) => {
                    let r: usize = runtimes.len();
                    proof {
                        assert(views(before)[r as int] == rt@);
                        assert(v.robots.take(r + 1)[r as int] == v.robots[r as int]);
                        assert(views(runtimes@) =~= v.robots.take(r as int)) by {
                            assert forall|k: int| 0 <= k < r implies views(runtimes@)[k]
                                == v.robots.take(r as int)[k] by {
                                assert(views(before)[k] == v.robots.take(r + 1)[k]);
                            }
                        }
                    }
                    let track: RobotTrack = rt.into_track(&scene.robots[r], duration, rests[r]);
                    let ghost seen = track@;
                    let ghost done = views(robots@);
                    robots.insert(0, track);
                    assert(views(robots@) =~= done.insert(0, seen));
                    assert(views(robots@) =~= want.robots.skip(r as int));
                },
                None => {},
            }
        }
        assert(want.robots.skip(0) =~= want.robots);
        let mut objects = self.objects;
        objects.finish(duration);
        let mut vehicles = self.vehicles;
        vehicles.finish(duration);
        let line: SequenceTimeline = SequenceTimeline {
            duration,
            sequences,
            scenario: None,
            robots,
            objects: objects.list,
            vehicles: vehicles.list,
            signals: self.lanes.tracks,
            step_spans: self.step_spans,
            branches: self.branches,
        };
        assert(line@.objects =~= want.objects);
        assert(line@.vehicles =~= want.vehicles);
        assert(line@.signals =~= want.signals);
        assert(line@ =~= want);
        line
    }
}

/// A walked robot's steps are told in the order in which they land, legs in order
/// where two land together, and each of them once.
pub proof fn law_steps_are_told_as_they_land(list: Seq<Footfall>)
    ensures
        steps_sorted(list).to_multiset() == list.to_multiset(),
        forall|i: int, j: int|
            #![trigger steps_sorted(list)[i], steps_sorted(list)[j]]
            0 <= i <= j < steps_sorted(list).len() ==> steps_sorted(list)[i].land < steps_sorted(
                list,
            )[j].land || (steps_sorted(list)[i].land == steps_sorted(list)[j].land
                && steps_sorted(list)[i].leg <= steps_sorted(list)[j].leg),
    decreases list.len(),
{
    broadcast use vstd::seq_lib::group_to_multiset_ensures;

    if list.len() > 0 {
        law_steps_are_told_as_they_land(list.drop_last());
        lemma_step_inserted(steps_sorted(list.drop_last()), list.last());
        assert(list =~= list.drop_last().push(list.last()));
    } else {
        assert(steps_sorted(list) =~= list);
    }
}

proof fn lemma_step_inserted(list: Seq<Footfall>, x: Footfall)
    requires
        forall|i: int, j: int|
            #![trigger list[i], list[j]]
            0 <= i <= j < list.len() ==> !lands_after(list[i], list[j]),
    ensures
        forall|i: int, j: int|
            #![trigger step_inserted(list, x)[i], step_inserted(list, x)[j]]
            0 <= i <= j < step_inserted(list, x).len() ==> !lands_after(
                step_inserted(list, x)[i],
                step_inserted(list, x)[j],
            ),
        step_inserted(list, x).to_multiset() == list.to_multiset().insert(x),
        forall|i: int|
            0 <= i < step_inserted(list, x).len() ==> (#[trigger] step_inserted(list, x)[i]) == x
                || list.contains(step_inserted(list, x)[i]),
    decreases list.len(),
{
    broadcast use vstd::seq_lib::group_to_multiset_ensures;

    let all = step_inserted(list, x);
    if list.len() == 0 || !lands_after(list.last(), x) {
        assert forall|i: int| 0 <= i < all.len() implies (#[trigger] all[i]) == x || list.contains(
            all[i],
        ) by {
            if i < list.len() {
                assert(list[i] == all[i]);
            }
        }
        assert forall|i: int, j: int|
            #![trigger all[i], all[j]]
            0 <= i <= j < all.len() implies !lands_after(all[i], all[j]) by {
            if j < list.len() {
                assert(all[i] == list[i] && all[j] == list[j]);
            } else if i < list.len() {
                assert(all[i] == list[i]);
                assert(!lands_after(list[i], list[list.len() - 1]));
            }
        }
    } else {
        let less = list.drop_last();
        let z = list[list.len() - 1];
        assert forall|i: int, j: int|
            #![trigger less[i], less[j]]
            0 <= i <= j < less.len() implies !lands_after(less[i], less[j]) by {
            assert(less[i] == list[i] && less[j] == list[j]);
        }
        lemma_step_inserted(less, x);
        let inner = step_inserted(less, x);
        assert(list =~= less.push(z));
        assert(all == inner.push(z));
        assert(all.to_multiset() =~= list.to_multiset().insert(x));
        assert forall|i: int| 0 <= i < all.len() implies (#[trigger] all[i]) == x || list.contains(
            all[i],
        ) by {
            if i < inner.len() {
                assert(all[i] == inner[i]);
                if all[i] != x {
                    let k = choose|k: int| 0 <= k < less.len() && less[k] == inner[i];
                    assert(list[k] == all[i]);
                }
            } else {
                assert(list[list.len() - 1] == all[i]);
            }
        }
        assert forall|i: int, j: int|
            #![trigger all[i], all[j]]
            0 <= i <= j < all.len() implies !lands_after(all[i], all[j]) by {
            if j < inner.len() {
                assert(all[i] == inner[i] && all[j] == inner[j]);
            } else if i < inner.len() {
                assert(all[i] == inner[i]);
                if inner[i] != x {
                    let k = choose|k: int| 0 <= k < less.len() && less[k] == inner[i];
                    assert(list[k] == inner[i]);
                    assert(!lands_after(list[k], list[list.len() - 1]));
                }
            }
        }
    }
}

/// A base that still travelled when it stopped rests where its last span left it, from
/// the end of that span to the end of the cycle; one that rested rests to the end of
/// the cycle. Earlier spans stay.
pub proof fn law_a_base_rests_to_the_end(spans: Seq<TrackSpan>, duration: Pico, rest: Pose)
    requires
        spans.len() > 0,
    ensures
        ({
            let n = spans.len() as int;
            let last = spans[n - 1];
            let closed = base_closed(spans, duration, rest);
            let travels = last is Linear || last is Pivot;
            &&& closed.len() >= n
            &&& closed.take(n - 1) == spans.take(n - 1)
            &&& !travels ==> closed.len() == n && crate::tracks::only_longer(
                last,
                closed[n - 1],
                duration,
            )
            &&& travels ==> closed[n - 1] == last
            &&& travels && last.end() >= duration - 1 ==> closed.len() == n
            &&& travels && last.end() < duration - 1 ==> closed.len() == n + 1 && (closed[n] matches TrackSpan::Hold {
                t0,
                t1,
                pose,
            } && t0 == last.end() && t1 == duration)
        }),
{
    let n = spans.len() as int;
    assert(base_closed(spans, duration, rest).take(n - 1) =~= spans.take(n - 1));
}

/// A timeline lasts as long as its run did; its objects and vehicles rest to its end,
/// and it tells the lanes, the steps and the branches as they were taken down.
pub proof fn law_a_timeline_tells_its_run(v: RolloutView, rests: Seq<Pose>, p: int)
    requires
        0 <= p < v.programs.len(),
    ensures
        ({
            let told = v.timeline(rests);
            &&& told.duration == v.t
            &&& told.sequences.len() == v.programs.len()
            &&& told.sequences[p] == v.programs[p].sequence.name
            &&& told.objects == finished(v.objects, v.t)
            &&& told.vehicles == finished(v.vehicles, v.t)
            &&& told.signals == v.lanes.tracks
            &&& told.step_spans == v.step_spans
            &&& told.branches == v.branches
            &&& told.robots.len() == v.robots.len()
        }),
{
}

/// A robot's share of a timeline is what it did: its joints held to the end, its moves and
/// plans, its base closed, and what its walks gave it. One without a gait has no steps.
pub proof fn law_a_robots_track_tells_what_it_did(
    robot: Robot,
    rt: RobotView,
    duration: Pico,
    rest: Pose,
)
    ensures
        ({
            let told = track_of(robot, rt, duration, rest);
            &&& told.name == robot.name
            &&& told.moves == rt.moves
            &&& told.planned == rt.planned
            &&& told.trajectory == rt.held_at(duration).bake
            &&& rt.base is None ==> told.base is None
            &&& rt.base matches Some(spans) ==> told.base == Some(
                base_closed(spans, duration, rest),
            )
            &&& rt.gait is None ==> told.footfalls.len() == 0 && told.sway.len() == 0
                && told.pitch.len() == 0 && told.rise.len() == 0
            &&& rt.gait matches Some(g) ==> told.footfalls == steps_sorted(g.history) && told.sway
                == g.sways && told.pitch == g.pitches && told.rise == g.rises
        }),
{
}

/// A base that still travelled straight rests where its last span left it; one that a pivot
/// turned rests where the kinematics say. Each robot's share is told in the order of the
/// scene.
pub proof fn law_a_base_rests_where_it_was_left(
    spans: Seq<TrackSpan>,
    duration: Pico,
    rest: Pose,
    v: RolloutView,
    rests: Seq<Pose>,
    r: int,
)
    requires
        spans.len() > 0,
        0 <= r < v.robots.len(),
    ensures
        ({
            let n = spans.len() as int;
            let last = spans[n - 1];
            let end = last.end();
            let closed = base_closed(spans, duration, rest);
            (last is Linear || last is Pivot) && end < duration - 1 && span_for(spans, end as int)
                == Some(last) ==> (closed[n] matches TrackSpan::Hold { pose, .. } && (last is Linear
                ==> Placement::At(pose) == last.placement(end as int)) && (last is Pivot ==> pose
                == rest))
        }),
        v.timeline(rests).robots[r] == track_of(v.scene.robots@[r], v.robots[r], v.t, rests[r]),
{
}

} // verus!
