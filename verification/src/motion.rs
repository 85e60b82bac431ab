//! What drives a robot's joints: planned trajectories and ramps, and the
//! joint track they leave behind.

use vstd::prelude::*;

use crate::fixed::{clip, clipped, floor_div, muldiv, plus, Pico, NANO, UNIT};
use crate::views::{copied, views, zero_vec, zeros};

verus! {

/// One sample of a joint track.
#[derive(Debug)]
pub struct Waypoint {
    pub t: Pico,
    pub q: Vec<Pico>,
    pub v: Vec<Pico>,
}

/// What a sample says.
#[verifier::ext_equal]
pub struct WaypointView {
    pub t: Pico,
    pub q: Seq<Pico>,
    pub v: Seq<Pico>,
}

impl View for Waypoint {
    type V = WaypointView;

    open spec fn view(&self) -> WaypointView {
        WaypointView { t: self.t, q: self.q@, v: self.v@ }
    }
}

/// A time-parameterized joint path, its times counted from its start.
#[derive(Debug)]
pub struct Trajectory {
    pub waypoints: Vec<Waypoint>,
    pub duration: Pico,
}

/// What a trajectory says.
#[verifier::ext_equal]
pub struct TrajectoryView {
    pub waypoints: Seq<WaypointView>,
    pub duration: Pico,
}

impl View for Trajectory {
    type V = TrajectoryView;

    open spec fn view(&self) -> TrajectoryView {
        TrajectoryView { waypoints: views(self.waypoints@), duration: self.duration }
    }
}

/// The move in flight on a robot.
#[derive(Debug)]
pub enum ActiveMove {
    Traj { start: Pico, traj: Trajectory },
    Ramp { start: Pico, duration: Pico, from: Vec<Pico>, to: Vec<Pico> },
}

/// What a move says.
#[verifier::ext_equal]
pub enum ActiveView {
    Traj { start: Pico, traj: TrajectoryView },
    Ramp { start: Pico, duration: Pico, from: Seq<Pico>, to: Seq<Pico> },
}

impl View for ActiveMove {
    type V = ActiveView;

    open spec fn view(&self) -> ActiveView {
        match self {
            ActiveMove::Traj { start, traj } => ActiveView::Traj { start: *start, traj: traj@ },
            ActiveMove::Ramp { start, duration, from, to } => ActiveView::Ramp {
                start: *start,
                duration: *duration,
                from: from@,
                to: to@,
            },
        }
    }
}

/// How much of a ramp lies behind at `t`, out of [`UNIT`].
pub open spec fn progress(start: int, duration: int, t: int) -> int {
    if t - start >= duration {
        UNIT as int
    } else if t <= start {
        0
    } else {
        muldiv(t - start, UNIT as int, duration)
    }
}

/// The rest-to-rest cubic `u²(3 − 2u)`, out of [`UNIT`].
pub open spec fn eased(u: int) -> int {
    (u * u * (3 * UNIT - 2 * u)) / (UNIT * UNIT)
}

/// `a` to `b`, `s` out of [`UNIT`] of the way.
pub open spec fn between(a: Pico, b: Pico, s: int) -> Pico {
    clip(a + muldiv(b - a, s, UNIT as int))
}

impl ActiveView {
    /// Absolute end time.
    pub open spec fn end(self) -> Pico {
        match self {
            ActiveView::Traj { start, traj } => clip(start + traj.duration),
            ActiveView::Ramp { start, duration, .. } => clip(start + duration),
        }
    }

    /// The joints at `t`: what the trajectory gives there, or the ramp's
    /// eased way from one configuration to the other.
    pub open spec fn sample(self, t: Pico, sampled: Seq<Pico>) -> Seq<Pico> {
        match self {
            ActiveView::Traj { .. } => sampled,
            ActiveView::Ramp { start, duration, from, to } => Seq::new(
                if from.len() < to.len() {
                    from.len()
                } else {
                    to.len()
                },
                |i: int|
                    between(
                        from[i],
                        to[i],
                        eased(progress(start as int, duration as int, t as int)),
                    ),
            ),
        }
    }

    /// Whether a ramp still moves joint `qi` after `t`.
    pub open spec fn ramps(self, qi: int, t: Pico) -> bool {
        match self {
            ActiveView::Traj { .. } => false,
            ActiveView::Ramp { start, duration, from, to } => clip(start + duration) > t + NANO
                && 0 <= qi < from.len() && qi < to.len() && from[qi] != to[qi],
        }
    }

    /// The move with the given joints pinned to `values`.
    pub open spec fn pinned(self, joints: Seq<usize>, values: Seq<Pico>) -> ActiveView {
        match self {
            ActiveView::Ramp { start, duration, from, to } => ActiveView::Ramp {
                start,
                duration,
                from: pin(from, joints, values),
                to: pin(to, joints, values),
            },
            ActiveView::Traj { start, traj } => ActiveView::Traj {
                start,
                traj: TrajectoryView {
                    waypoints: Seq::new(
                        traj.waypoints.len(),
                        |i: int|
                            WaypointView {
                                t: traj.waypoints[i].t,
                                q: pin(traj.waypoints[i].q, joints, values),
                                v: pin(
                                    traj.waypoints[i].v,
                                    joints,
                                    zeros(values.len()),
                                ),
                            },
                    ),
                    ..traj
                },
            },
        }
    }

    /// What the move still has to do after `t`, as waypoints.
    pub open spec fn tail(self) -> Seq<WaypointView> {
        match self {
            ActiveView::Ramp { start, duration, to, .. } => seq![
                WaypointView { t: clip(start + duration), q: to, v: zeros(to.len()) },
            ],
            ActiveView::Traj { start, traj } => Seq::new(
                traj.waypoints.len(),
                |i: int|
                    WaypointView {
                        t: clip(start + traj.waypoints[i].t),
                        q: traj.waypoints[i].q,
                        v: traj.waypoints[i].v,
                    },
            ),
        }
    }
}

/// `q` with the given joints set to their entry in `values`.
pub open spec fn pin(q: Seq<Pico>, joints: Seq<usize>, values: Seq<Pico>) -> Seq<Pico> {
    Seq::new(
        q.len(),
        |i: int|
            if joints.contains(i as usize) && i < values.len() {
                values[i]
            } else {
                q[i]
            },
    )
}

/// Pins the given joints of `q`.
pub fn pin_vec(q: &mut Vec<Pico>, joints: &Vec<usize>, values: &Vec<Pico>)
    ensures
        final(q)@ == pin(old(q)@, joints@, values@),
{
    let ghost before = q@;
    let mut k: usize = 0;
    while k < joints.len()
        invariant
            k <= joints.len(),
            q@.len() == before.len(),
            q@ == pin(before, joints@.take(k as int), values@),
        decreases joints.len() - k,
    {
        let qi: usize = joints[k];
        let ghost mid = q@;
        if qi < q.len() && qi < values.len() {
            q.set(qi, values[qi]);
        }
        proof {
            let done = joints@.take(k as int);
            let more = joints@.take(k + 1);
            assert(more =~= done.push(qi));
            assert forall|i: int| 0 <= i < before.len() implies q@[i] == pin(
                before,
                more,
                values@,
            )[i] by {
                assert(more.contains(i as usize) <==> (done.contains(i as usize) || i as usize
                    == qi)) by {
                    if done.contains(i as usize) {
                        let w = done.index_of(i as usize);
                        assert(more[w] == i as usize);
                    }
                    if i as usize == qi {
                        assert(more[k as int] == qi);
                    }
                }
                assert(mid[i] == pin(before, done, values@)[i]);
            }
            assert(q@ =~= pin(before, more, values@));
        }
        k = k + 1;
    }
    assert(joints@.take(k as int) =~= joints@);
}

fn ramp_progress(start: Pico, duration: Pico, t: Pico) -> (r: i128)
    ensures
        r == progress(start as int, duration as int, t as int),
        0 <= r <= UNIT,
{
    let gone: i128 = t as i128 - start as i128;
    if gone >= duration as i128 {
        UNIT as i128
    } else if gone <= 0 {
        0
    } else {
        assert(gone * UNIT <= 0x1_0000_0000_0000_0000 * UNIT) by (nonlinear_arith)
            requires
                gone <= 0x1_0000_0000_0000_0000,
                UNIT == 1_000_000_000_000i64,
        ;
        let r: i128 = (gone * UNIT as i128) / duration as i128;
        assert(0 <= r <= UNIT) by (nonlinear_arith)
            requires
                0 < gone < duration,
                r == (gone * UNIT) / duration as int,
                UNIT == 1_000_000_000_000i64,
        ;
        r
    }
}

fn ease(u: i128) -> (r: i128)
    requires
        0 <= u <= UNIT,
    ensures
        r == eased(u as int),
        0 <= r <= UNIT,
{
    let one: i128 = UNIT as i128;
    assert(0 <= u * u <= one * one) by (nonlinear_arith)
        requires
            0 <= u <= one,
    ;
    let c: i128 = 3 * one - 2 * u;
    let s: i128 = u * u;
    assert(0 <= s * c <= 3 * (one * one * one)) by (nonlinear_arith)
        requires
            0 <= s <= one * one,
            one <= c <= 3 * one,
            one == 1_000_000_000_000i128,
    ;
    let r: i128 = (s * c) / (one * one);
    assert(0 <= r) by (nonlinear_arith)
        requires
            r == (s * c) / (one * one) as int,
            0 <= s * c,
            one == 1_000_000_000_000i128,
    ;
    // u²(3 − 2u) ≤ 1 on [0, 1]: 1 − u²(3 − 2u) = (1 − u)²(1 + 2u).
    assert(s * c <= one * one * one) by (nonlinear_arith)
        requires
            s == u * u,
            c == 3 * one - 2 * u,
            0 <= u <= one,
    {
        assert(one * one * one - (u * u) * (3 * one - 2 * u) == ((one - u) * (one - u)) * (one + 2
            * u)) by (nonlinear_arith);
        assert(((one - u) * (one - u)) * (one + 2 * u) >= 0) by (nonlinear_arith)
            requires
                0 <= u <= one,
        ;
    };
    assert(r <= one) by (nonlinear_arith)
        requires
            r == (s * c) / (one * one) as int,
            s * c <= one * one * one,
            one == 1_000_000_000_000i128,
    ;
    r
}

impl ActiveMove {
    /// The joints at `t`. What a trajectory gives at `t` is handed in.
    pub fn sample(&self, t: Pico, sampled: &Vec<Pico>) -> (r: Vec<Pico>)
        ensures
            r@ == self@.sample(t, sampled@),
    {
        match self {
            ActiveMove::Traj { .. } => copied(sampled),
            ActiveMove::Ramp { start, duration, from, to } => {
                let s: i128 = ease(ramp_progress(*start, *duration, t));
                let ghost want = self@.sample(t, sampled@);
                let mut out: Vec<Pico> = Vec::new();
                let mut i: usize = 0;
                while i < from.len() && i < to.len()
                    invariant
                        i <= from.len(),
                        i <= to.len(),
                        0 <= s <= UNIT,
                        want.len() == (if from@.len() < to@.len() {
                            from@.len()
                        } else {
                            to@.len()
                        }),
                        forall|k: int|
                            0 <= k < want.len() ==> #[trigger] want[k] == between(
                                from@[k],
                                to@[k],
                                s as int,
                            ),
                        out@ == want.take(i as int),
                    decreases from.len() - i,
                {
                    let d: i128 = to[i] as i128 - from[i] as i128;
                    assert(-0x2_0000_0000_0000_0000_0000_0000_0000 <= d * s
                        <= 0x2_0000_0000_0000_0000_0000_0000_0000) by (nonlinear_arith)
                        requires
                            -0x1_0000_0000_0000_0000 <= d <= 0x1_0000_0000_0000_0000,
                            0 <= s <= UNIT,
                            UNIT == 1_000_000_000_000i64,
                    ;
                    let step: i128 = floor_div(d * s, UNIT as i128);
                    assert(-0x2_0000_0000_0000_0000_0000_0000_0000 <= step
                        <= 0x2_0000_0000_0000_0000_0000_0000_0000) by (nonlinear_arith)
                        requires
                            step == (d * s) / UNIT as int,
                            -0x2_0000_0000_0000_0000_0000_0000_0000 <= d * s
                                <= 0x2_0000_0000_0000_0000_0000_0000_0000,
                            UNIT == 1_000_000_000_000i64,
                    ;
                    let x: Pico = clipped(from[i] as i128 + step);
                    assert(want[i as int] == x);
                    out.push(x);
                    i = i + 1;
                    assert(out@ =~= want.take(i as int));
                }
                assert(out@ =~= want);
                out
            },
        }
    }

    /// Absolute end time of this move.
    pub fn end(&self) -> (r: Pico)
        ensures
            r == self@.end(),
    {
        match self {
            ActiveMove::Traj { start, traj } => plus(*start, traj.duration),
            ActiveMove::Ramp { start, duration, .. } => plus(*start, *duration),
        }
    }

    /// Whether a ramp still moves joint `qi` after `t`.
    pub fn ramp_driving(&self, qi: usize, t: Pico) -> (r: bool)
        ensures
            r == self@.ramps(qi as int, t),
    {
        match self {
            ActiveMove::Traj { .. } => false,
            ActiveMove::Ramp { start, duration, from, to } => plus(*start, *duration) as i128
                > t as i128 + NANO as i128 && qi < from.len() && qi < to.len() && from[qi]
                != to[qi],
        }
    }

    /// Pins the given joints to `values` for the rest of the move: a move
    /// that outlives a walk keeps the legs where the walk left them.
    pub fn pin_joints(&mut self, joints: &Vec<usize>, values: &Vec<Pico>)
        ensures
            final(self)@ == old(self)@.pinned(joints@, values@),
    {
        let ghost want = self@.pinned(joints@, values@);
        match self {
            ActiveMove::Ramp { from, to, .. } => {
                pin_vec(from, joints, values);
                pin_vec(to, joints, values);
            },
            ActiveMove::Traj { traj, .. } => {
                let still: Vec<Pico> = zero_vec(values.len());
                let ghost before = views(traj.waypoints@);
                let ghost duration = traj.duration;
                let mut i: usize = 0;
                while i < traj.waypoints.len()
                    invariant
                        i <= traj.waypoints@.len(),
                        traj.waypoints@.len() == before.len(),
                        traj.duration == duration,
                        still@ == zeros(values@.len()),
                        forall|k: int|
                            0 <= k < i ==> (#[trigger] traj.waypoints@[k])@ == (WaypointView {
                                t: before[k].t,
                                q: pin(before[k].q, joints@, values@),
                                v: pin(before[k].v, joints@, zeros(values@.len())),
                            }),
                        forall|k: int|
                            i <= k < before.len() ==> (#[trigger] traj.waypoints@[k])@ == before[k],
                    decreases traj.waypoints.len() - i,
                {
                    assert(traj.waypoints@[i as int]@ == before[i as int]);
                    pin_vec(&mut traj.waypoints[i].q, joints, values);
                    pin_vec(&mut traj.waypoints[i].v, joints, &still);
                    i = i + 1;
                }
                assert(views(traj.waypoints@) =~= want->traj.waypoints);
            },
        }
    }
}

/// A joint track after a sample: dropped unless it lies beyond the last one.
pub open spec fn with_waypoint(bake: Seq<WaypointView>, w: WaypointView) -> Seq<WaypointView> {
    if bake.len() > 0 && w.t <= bake.last().t + NANO {
        bake
    } else {
        bake.push(w)
    }
}

/// A joint track after several samples.
pub open spec fn with_waypoints(
    bake: Seq<WaypointView>,
    more: Seq<WaypointView>,
) -> Seq<WaypointView>
    decreases more.len(),
{
    if more.len() == 0 {
        bake
    } else {
        with_waypoint(with_waypoints(bake, more.drop_last()), more.last())
    }
}

/// A joint track without the samples after `t`.
pub open spec fn truncated(bake: Seq<WaypointView>, t: Pico) -> Seq<WaypointView>
    decreases bake.len(),
{
    if bake.len() > 0 && bake.last().t > t + NANO {
        truncated(bake.drop_last(), t)
    } else {
        bake
    }
}

/// The samples of `more` that lie after `t`.
pub open spec fn after(more: Seq<WaypointView>, t: Pico) -> Seq<WaypointView> {
    more.filter(|w: WaypointView| w.t > t + NANO)
}

/// The joint track of one robot, as it is baked.
#[derive(Debug)]
pub struct Bake {
    pub waypoints: Vec<Waypoint>,
}

impl View for Bake {
    type V = Seq<WaypointView>;

    open spec fn view(&self) -> Seq<WaypointView> {
        views(self.waypoints@)
    }
}

impl Bake {
    /// Appends a sample, unless one at that instant or later is there.
    pub fn append_waypoint(&mut self, t: Pico, q: Vec<Pico>, v: Vec<Pico>)
        ensures
            final(self)@ == with_waypoint(old(self)@, (WaypointView { t, q: q@, v: v@ })),
    {
        let n: usize = self.waypoints.len();
        if n > 0 && t as i128 <= self.waypoints[n - 1].t as i128 + NANO as i128 {
            return;
        }
        let ghost w = WaypointView { t, q: q@, v: v@ };
        self.waypoints.push(Waypoint { t, q, v });
        assert(self@ =~= old(self)@.push(w));
    }

    /// Drops every sample after `t`.
    pub fn truncate_after(&mut self, t: Pico)
        ensures
            final(self)@ == truncated(old(self)@, t),
    {
        let ghost before = self@;
        while self.waypoints.len() > 0 && self.waypoints[self.waypoints.len() - 1].t as i128
            > t as i128 + NANO as i128
            invariant
                truncated(before, t) == truncated(self@, t),
            decreases self.waypoints.len(),
        {
            let ghost mid = self@;
            self.waypoints.pop();
            assert(self@ =~= mid.drop_last());
        }
    }

    /// The time of the last sample.
    pub fn last(&self) -> (r: Option<Pico>)
        ensures
            r == (if self@.len() > 0 {
                Some(self@.last().t)
            } else {
                None
            }),
    {
        let n: usize = self.waypoints.len();
        if n > 0 {
            Some(self.waypoints[n - 1].t)
        } else {
            None
        }
    }

    /// Appends a trajectory that starts at `start`.
    pub fn append_trajectory(&mut self, start: Pico, traj: &Trajectory)
        ensures
            final(self)@ == with_waypoints(
                old(self)@,
                ActiveView::Traj { start, traj: traj@ }.tail(),
            ),
    {
        let ghost before = self@;
        let ghost tail = ActiveView::Traj { start, traj: traj@ }.tail();
        let mut i: usize = 0;
        while i < traj.waypoints.len()
            invariant
                i <= traj.waypoints.len(),
                tail == (ActiveView::Traj { start, traj: traj@ }).tail(),
                self@ == with_waypoints(before, tail.take(i as int)),
            decreases traj.waypoints.len() - i,
        {
            let w: &Waypoint = &traj.waypoints[i];
            assert(tail.take(i + 1).drop_last() =~= tail.take(i as int));
            assert(tail[i as int] == (WaypointView { t: clip(start + w.t), q: w.q@, v: w.v@ }));
            self.append_waypoint(plus(start, w.t), copied(&w.q), copied(&w.v));
            i = i + 1;
        }
        assert(tail.take(i as int) =~= tail);
    }

    /// Appends what `active` still has to do after `t`.
    pub fn rebake_tail(&mut self, active: &ActiveMove, t: Pico)
        ensures
            final(self)@ == with_waypoints(old(self)@, after(active@.tail(), t)),
    {
        let ghost before = self@;
        let ghost tail = active@.tail();
        match active {
            ActiveMove::Ramp { start, duration, to, .. } => {
                let end: Pico = plus(*start, *duration);
                proof {
                    reveal(Seq::filter);
                    let p = |w: WaypointView| w.t > t + NANO;
                    assert(tail.drop_last() =~= Seq::<WaypointView>::empty());
                    assert(tail.drop_last().filter(p) =~= Seq::<WaypointView>::empty());
                    if end > t + NANO {
                        assert(after(tail, t) =~= seq![tail[0]]);
                        assert(seq![tail[0]].drop_last() =~= Seq::<WaypointView>::empty());
                        reveal_with_fuel(with_waypoints, 2);
                    } else {
                        assert(after(tail, t) =~= Seq::<WaypointView>::empty());
                    }
                }
                if end as i128 > t as i128 + NANO as i128 {
                    let goal: Vec<Pico> = copied(to);
                    let still: Vec<Pico> = zero_vec(to.len());
                    self.append_waypoint(end, goal, still);
                }
            },
            ActiveMove::Traj { start, traj } => {
                let ghost p = |w: WaypointView| w.t > t + NANO;
                let mut i: usize = 0;
                assert(tail.take(0) =~= Seq::<WaypointView>::empty());
                proof {
                    reveal(Seq::filter);
                }
                while i < traj.waypoints.len()
                    invariant
                        i <= traj.waypoints.len(),
                        tail == (ActiveView::Traj { start: *start, traj: traj@ }).tail(),
                        p == (|w: WaypointView| w.t > t + NANO),
                        self@ == with_waypoints(before, tail.take(i as int).filter(p)),
                    decreases traj.waypoints.len() - i,
                {
                    let w: &Waypoint = &traj.waypoints[i];
                    let at: Pico = plus(*start, w.t);
                    proof {
                        assert(tail[i as int] == (WaypointView { t: at, q: w.q@, v: w.v@ }));
                        assert(tail.take(i + 1).drop_last() =~= tail.take(i as int));
                        assert(tail.take(i + 1).last() == tail[i as int]);
                        reveal(Seq::filter);
                        let kept = tail.take(i as int).filter(p);
                        if p(tail[i as int]) {
                            assert(tail.take(i + 1).filter(p) == kept.push(tail[i as int]));
                            assert(kept.push(tail[i as int]).drop_last() =~= kept);
                        } else {
                            assert(tail.take(i + 1).filter(p) == kept);
                        }
                    }
                    if at as i128 > t as i128 + NANO as i128 {
                        self.append_waypoint(at, copied(&w.q), copied(&w.v));
                    }
                    i = i + 1;
                }
                assert(tail.take(i as int) =~= tail);
            },
        }
    }
}

/// A joint track whose samples run strictly forward, more than 10^-9 s apart.
pub open spec fn runs_forward(bake: Seq<WaypointView>) -> bool {
    forall|i: int, j: int|
        #![trigger bake[i], bake[j]]
        0 <= i < j < bake.len() ==> bake[i].t + NANO < bake[j].t
}

/// Baking keeps a joint track running forward, whatever is appended.
pub proof fn law_bake_runs_forward(bake: Seq<WaypointView>, more: Seq<WaypointView>, t: Pico)
    requires
        runs_forward(bake),
    ensures
        runs_forward(with_waypoints(bake, more)),
        runs_forward(truncated(bake, t)),
    decreases more.len() + bake.len(),
{
    if more.len() > 0 {
        law_bake_runs_forward(bake, more.drop_last(), t);
        let mid = with_waypoints(bake, more.drop_last());
        let w = more.last();
        if !(mid.len() > 0 && w.t <= mid.last().t + NANO) {
            let done = mid.push(w);
            assert forall|i: int, j: int|
                #![trigger done[i], done[j]]
                0 <= i < j < done.len() implies done[i].t + NANO < done[j].t by {
                assert(done[i] == mid[i]);
                if j < mid.len() {
                    assert(done[j] == mid[j]);
                } else if i < mid.len() - 1 {
                    assert(mid[i].t + NANO < mid[mid.len() - 1].t);
                }
            }
        }
    }
    if bake.len() > 0 && bake.last().t > t + NANO {
        assert(runs_forward(bake.drop_last())) by {
            let less = bake.drop_last();
            assert forall|i: int, j: int|
                #![trigger less[i], less[j]]
                0 <= i < j < less.len() implies less[i].t + NANO < less[j].t by {
                assert(less[i] == bake[i] && less[j] == bake[j]);
            }
        }
        law_bake_runs_forward(bake.drop_last(), Seq::empty(), t);
    }
}

/// A ramp of positive length is at `from` when it starts and at `to` from its
/// end on.
pub proof fn law_ramp_ends(start: Pico, duration: Pico, from: Seq<Pico>, to: Seq<Pico>, t: Pico)
    requires
        duration > 0,
        from.len() == to.len(),
    ensures
        (ActiveView::Ramp { start, duration, from, to }).sample(start, seq![]) == from,
        t - start >= duration ==> (ActiveView::Ramp { start, duration, from, to }).sample(t, seq![])
            == to,
{
    let ramp = ActiveView::Ramp { start, duration, from, to };
    assert(progress(start as int, duration as int, start as int) == 0);
    assert(eased(0) == 0) by (nonlinear_arith)
        requires
            UNIT == 1_000_000_000_000i64,
    ;
    assert(eased(UNIT as int) == UNIT) by (nonlinear_arith)
        requires
            UNIT == 1_000_000_000_000i64,
    ;
    assert forall|i: int| 0 <= i < from.len() implies between(from[i], to[i], 0) == from[i]
        && between(from[i], to[i], UNIT as int) == to[i] by {
        let d = to[i] - from[i];
        assert((d * 0) / UNIT as int == 0) by (nonlinear_arith)
            requires
                UNIT == 1_000_000_000_000i64,
        ;
        assert((d * UNIT) / UNIT as int == d) by (nonlinear_arith)
            requires
                UNIT == 1_000_000_000_000i64,
        ;
    }
    assert(ramp.sample(start, seq![]) =~= from);
    if t - start >= duration {
        assert(ramp.sample(t, seq![]) =~= to);
    }
}

/// Over a ramp every joint goes from where it starts to where it ends by the cubic
/// that rests at both: the share of the time that has passed, `p`, makes the share
/// of the way `s = p²(3 − 2p)`, both out of 10^12 and rounded down, and the joint is
/// `s` of its way, rounded down.
pub proof fn law_a_ramp_rests_at_both_ends(
    start: Pico,
    duration: Pico,
    from: Seq<Pico>,
    to: Seq<Pico>,
    t: Pico,
    i: int,
    p: int,
    s: int,
)
    requires
        duration > 0,
        start < t < start + duration,
        duration * p <= (t - start) * 1_000_000_000_000 < duration * (p + 1),
        1_000_000_000_000_000_000_000_000 * s <= p * p * (3_000_000_000_000 - 2 * p)
            < 1_000_000_000_000_000_000_000_000 * (s + 1),
        0 <= i < from.len(),
        i < to.len(),
    ensures
        ({
            let ramp = ActiveView::Ramp { start, duration, from, to };
            let q = ramp.sample(t, seq![]);
            &&& i < q.len() <= from.len()
            &&& q.len() <= to.len()
            &&& 0 <= s <= 1_000_000_000_000
            &&& 0 <= (to[i] - from[i]) * s - 1_000_000_000_000 * (q[i] - from[i])
                < 1_000_000_000_000
        }),
{
    let u = 1_000_000_000_000int;
    let d = duration as int;
    let e = t - start;
    assert(p == progress(start as int, d, t as int)) by {
        crate::fixed::law_quotients_are_rounded_down(e, u, d);
        let m = muldiv(e, u, d);
        assert(m == p) by (nonlinear_arith)
            requires
                d > 0,
                d * m <= e * u < d * m + d,
                d * p <= e * u < d * (p + 1),
        ;
    }
    assert(0 <= p < u) by (nonlinear_arith)
        requires
            d > 0,
            0 < e < d,
            u == 1_000_000_000_000,
            d * p <= e * u < d * (p + 1),
    ;
    let c = p * p * (3 * u - 2 * p);
    let k = u * u;
    assert(k == 1_000_000_000_000_000_000_000_000) by (nonlinear_arith)
        requires
            u == 1_000_000_000_000,
            k == u * u,
    ;
    assert(eased(p) == c / k);
    vstd::arithmetic::div_mod::lemma_fundamental_div_mod(c, k);
    let g = c / k;
    assert(k * g <= c < k * g + k) by {
        vstd::arithmetic::div_mod::lemma_mod_bound(c, k);
    }
    assert(s == g);
    assert(0 <= c <= k * u) by {
        lemma_cubic(p, u);
        assert(c == p * p * (3 * u - 2 * p));
        assert(k * u == u * u * u);
    }
    assert(0 <= s <= u) by (nonlinear_arith)
        requires
            k * s <= c < k * (s + 1),
            0 <= c <= k * u,
            k == 1_000_000_000_000_000_000_000_000,
    ;
    let w = to[i] - from[i];
    crate::fixed::law_quotients_are_rounded_down(w, s, u);
    let m = muldiv(w, s, u);
    assert(w >= 0 ==> 0 <= m <= w) by (nonlinear_arith)
        requires
            u * m <= w * s < u * m + u,
            0 <= s <= u,
            u == 1_000_000_000_000,
    ;
    assert(w <= 0 ==> w <= m <= 0) by (nonlinear_arith)
        requires
            u * m <= w * s < u * m + u,
            0 <= s <= u,
            u == 1_000_000_000_000,
    ;
}

proof fn lemma_cubic(p: int, u: int)
    requires
        0 <= p <= u,
    ensures
        0 <= p * p * (3 * u - 2 * p) <= u * u * u,
{
    assert(u * u * u - p * p * (3 * u - 2 * p) == (u - p) * (u - p) * (u + 2 * p))
        by (nonlinear_arith);
    assert((u - p) * (u - p) * (u + 2 * p) >= 0) by (nonlinear_arith)
        requires
            0 <= p <= u,
    ;
    assert(p * p * (3 * u - 2 * p) >= 0) by (nonlinear_arith)
        requires
            0 <= p <= u,
    ;
}

/// A move ends its length after its start, where that fits. A ramp moves a joint
/// after `t` where it ends more than 10^-9 s later and the joint has a way to go; a
/// trajectory is no ramp.
pub proof fn law_a_move_lasts_its_length(
    start: Pico,
    duration: Pico,
    from: Seq<Pico>,
    to: Seq<Pico>,
    traj: TrajectoryView,
    t: Pico,
    qi: int,
)
    requires
        i64::MIN <= start + duration <= i64::MAX,
        i64::MIN <= start + traj.duration <= i64::MAX,
    ensures
        (ActiveView::Ramp { start, duration, from, to }).end() == start + duration,
        (ActiveView::Traj { start, traj }).end() == start + traj.duration,
        (ActiveView::Ramp { start, duration, from, to }).ramps(qi, t) <==> start + duration - t
            > 1_000 && 0 <= qi < from.len() && qi < to.len() && from[qi] != to[qi],
        !(ActiveView::Traj { start, traj }).ramps(qi, t),
{
}

/// A pinned joint takes the value it is pinned to; any other keeps its own.
pub proof fn law_pinned_joints_take_their_values(
    q: Seq<Pico>,
    joints: Seq<usize>,
    values: Seq<Pico>,
    i: int,
)
    requires
        0 <= i < q.len(),
        i <= usize::MAX,
        q.len() == values.len(),
    ensures
        pin(q, joints, values).len() == q.len(),
        (exists|k: int| 0 <= k < joints.len() && #[trigger] joints[k] == i) ==> pin(
            q,
            joints,
            values,
        )[i] == values[i],
        (forall|k: int| 0 <= k < joints.len() ==> #[trigger] joints[k] != i) ==> pin(
            q,
            joints,
            values,
        )[i] == q[i],
{
    if exists|k: int| 0 <= k < joints.len() && #[trigger] joints[k] == i {
        let k = choose|k: int| 0 <= k < joints.len() && #[trigger] joints[k] == i;
        assert(joints[k] == i as usize);
        assert(joints.contains(i as usize));
    }
}

/// A sample is added to a joint track where it lies more than 10^-9 s beyond the last
/// one, or is the first; else the track stays as it is.
pub proof fn law_samples_are_added_behind(bake: Seq<WaypointView>, w: WaypointView)
    ensures
        bake.len() == 0 || w.t - bake[bake.len() - 1].t > 1_000 ==> with_waypoint(bake, w)
            == bake.push(w),
        bake.len() > 0 && w.t - bake[bake.len() - 1].t <= 1_000 ==> with_waypoint(bake, w) == bake,
{
}

/// A track that is cut at `t` keeps its samples up to 10^-9 s beyond `t`, and those
/// alone.
pub proof fn law_a_cut_keeps_what_was_before(bake: Seq<WaypointView>, t: Pico)
    requires
        runs_forward(bake),
    ensures
        truncated(bake, t).len() <= bake.len(),
        truncated(bake, t) == bake.take(truncated(bake, t).len() as int),
        forall|i: int|
            0 <= i < bake.len() ==> (i < truncated(bake, t).len() <==> (#[trigger] bake[i]).t - t
                <= 1_000),
    decreases bake.len(),
{
    let cut = truncated(bake, t);
    if bake.len() > 0 {
        let less = bake.drop_last();
        let last = bake[bake.len() - 1];
        if last.t > t + NANO {
            assert forall|i: int, j: int|
                #![trigger less[i], less[j]]
                0 <= i < j < less.len() implies less[i].t + NANO < less[j].t by {
                assert(less[i] == bake[i] && less[j] == bake[j]);
            }
            law_a_cut_keeps_what_was_before(less, t);
            assert(less.take(cut.len() as int) =~= bake.take(cut.len() as int));
            assert forall|i: int| 0 <= i < bake.len() implies (i < cut.len() <==> (
            #[trigger] bake[i]).t - t <= 1_000) by {
                if i < less.len() {
                    assert(less[i] == bake[i]);
                }
            }
        } else {
            assert(bake.take(bake.len() as int) =~= bake);
            assert forall|i: int| 0 <= i < bake.len() implies (i < cut.len() <==> (
            #[trigger] bake[i]).t - t <= 1_000) by {
                if i < bake.len() - 1 {
                    assert(bake[i].t + NANO < bake[bake.len() - 1].t);
                }
            }
        }
    } else {
        assert(bake.take(0) =~= bake);
    }
}

/// What a move still has to do, as samples: a ramp's end, at rest, or a trajectory's own
/// waypoints, each that much after its start, where that fits. `i` is any of them.
pub proof fn law_a_move_goes_on_as_samples(
    start: Pico,
    duration: Pico,
    from: Seq<Pico>,
    to: Seq<Pico>,
    traj: TrajectoryView,
    i: int,
)
    requires
        i64::MIN <= start + duration <= i64::MAX,
        0 <= i < traj.waypoints.len(),
        i64::MIN <= start + traj.waypoints[i].t <= i64::MAX,
    ensures
        ({
            let ramp = (ActiveView::Ramp { start, duration, from, to }).tail();
            let way = (ActiveView::Traj { start, traj }).tail();
            &&& ramp.len() == 1
            &&& ramp[0].t == start + duration
            &&& ramp[0].q == to
            &&& forall|k: int| 0 <= k < to.len() ==> #[trigger] ramp[0].v[k] == 0
            &&& way.len() == traj.waypoints.len()
            &&& way[i].t == start + traj.waypoints[i].t
            &&& way[i].q == traj.waypoints[i].q
            &&& way[i].v == traj.waypoints[i].v
        }),
{
}

} // verus!
