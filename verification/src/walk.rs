//! Starting and stepping a walk.

use vstd::prelude::*;

use crate::error::{ErrorView, SeqError};
use crate::fire::{answers, Fired};
use crate::fixed::{abs, clip, clipped, minus, plus, Pico, Vec3, NANO};
use crate::gait::{still, ArmSwing, Footfall, GaitPlan, GaitView, PlanView, Ride};
use crate::motion::{truncated, with_waypoint, ActiveMove, ActiveView, WaypointView};
use crate::robots::{robot_sound, RobotView};
use crate::rollout::{Rollout, RolloutView};
use crate::scene::{Attachment, Gait, GaitLeg, Obstacle, Robot};
use crate::setup::valid_robot;
use crate::text::cat5;
use crate::views::{copied, opt, zeros};

verus! {

/// A surface to stand on under a point: how far inside its edges, along and
/// across, the point lies. Negative where it lies outside.
#[derive(Clone, Copy, Debug, PartialEq, Eq, Structural)]
pub struct Cover {
    pub mx: Pico,
    pub my: Pico,
}

/// What a foot stands on.
#[derive(Clone, Copy, Debug, PartialEq, Eq, Structural)]
pub struct Support {
    pub top: Pico,
    pub tread: usize,
    pub margin: Pico,
}

/// The walkable boxes among the first `n` bodies.
pub open spec fn treads(obstacles: Seq<Obstacle>, n: nat) -> Seq<usize>
    decreases n,
{
    if n == 0 {
        Seq::empty()
    } else {
        let less = treads(obstacles, (n - 1) as nat);
        if obstacles[n - 1].walkable && obstacles[n - 1].half is Some {
            less.push((n - 1) as usize)
        } else {
            less
        }
    }
}

/// The walkable boxes.
pub fn find_treads(obstacles: &Vec<Obstacle>) -> (r: Vec<usize>)
    ensures
        r@ == treads(obstacles@, obstacles@.len()),
        forall|i: int|
            0 <= i < r@.len() ==> (#[trigger] r@[i]) < obstacles@.len()
                && obstacles@[r@[i] as int].half is Some,
{
    let mut out: Vec<usize> = Vec::new();
    let mut n: usize = 0;
    while n < obstacles.len()
        invariant
            n <= obstacles.len(),
            out@ == treads(obstacles@, n as nat),
            forall|i: int|
                0 <= i < out@.len() ==> (#[trigger] out@[i]) < n
                    && obstacles@[out@[i] as int].half is Some,
        decreases obstacles.len() - n,
    {
        if obstacles[n].walkable && obstacles[n].half.is_some() {
            out.push(n);
        }
        n = n + 1;
    }
    out
}

/// The altitude of a box's top face.
pub open spec fn top_of(o: Obstacle) -> Pico {
    clip(o.pose.at.z + o.half->0.z)
}

/// The altitudes of the treads' top faces.
pub open spec fn tops(obstacles: Seq<Obstacle>) -> Seq<Pico> {
    let list = treads(obstacles, obstacles.len());
    Seq::new(list.len(), |i: int| top_of(obstacles[list[i] as int]))
}

/// The altitudes of the treads' top faces.
pub fn tread_tops(obstacles: &Vec<Obstacle>) -> (r: Vec<Pico>)
    ensures
        r@ == tops(obstacles@),
{
    let list: Vec<usize> = find_treads(obstacles);
    let mut out: Vec<Pico> = Vec::new();
    let mut i: usize = 0;
    while i < list.len()
        invariant
            i <= list.len(),
            list@ == treads(obstacles@, obstacles@.len()),
            forall|k: int|
                0 <= k < list@.len() ==> (#[trigger] list@[k]) < obstacles@.len()
                    && obstacles@[list@[k] as int].half is Some,
            out@ == tops(obstacles@).take(i as int),
        decreases list.len() - i,
    {
        assert(list@[i as int] < obstacles@.len());
        let o: &Obstacle = &obstacles[list[i]];
        match o.half {
            Some(half) => {
                out.push(plus(o.pose.at.z, half.z));
            },
            None => {},
        }
        i = i + 1;
        assert(out@ =~= tops(obstacles@).take(i as int));
    }
    assert(tops(obstacles@).take(i as int) =~= tops(obstacles@));
    out
}

/// How a point, in the frame of a box, lies in its top face.
pub open spec fn cover_of(half: Vec3, point: Vec3) -> Cover {
    Cover { mx: clip(half.x - abs(point.x as int)), my: clip(half.y - abs(point.y as int)) }
}

/// How a point lies in each tread; `points` is where it is in their frames.
pub open spec fn covers_of(obstacles: Seq<Obstacle>, points: Seq<Vec3>) -> Seq<Cover> {
    let list = treads(obstacles, obstacles.len());
    Seq::new(points.len(), |i: int| cover_of(obstacles[list[i] as int].half->0, points[i]))
}

fn margin(half: Pico, x: Pico) -> (r: Pico)
    ensures
        r == clip(half - abs(x as int)),
{
    let size: i128 = if x < 0 {
        -(x as i128)
    } else {
        x as i128
    };
    clipped(half as i128 - size)
}

/// How a point lies in each tread; `points` is where it is in their frames.
pub fn tread_covers(obstacles: &Vec<Obstacle>, points: &Vec<Vec3>) -> (r: Vec<Cover>)
    requires
        points@.len() == tops(obstacles@).len(),
    ensures
        r@ == covers_of(obstacles@, points@),
{
    let list: Vec<usize> = find_treads(obstacles);
    let ghost want = covers_of(obstacles@, points@);
    let mut out: Vec<Cover> = Vec::new();
    let mut i: usize = 0;
    while i < points.len()
        invariant
            i <= points.len(),
            points@.len() == list@.len(),
            list@ == treads(obstacles@, obstacles@.len()),
            forall|k: int|
                0 <= k < list@.len() ==> (#[trigger] list@[k]) < obstacles@.len()
                    && obstacles@[list@[k] as int].half is Some,
            want == covers_of(obstacles@, points@),
            out@ == want.take(i as int),
        decreases points.len() - i,
    {
        assert(list@[i as int] < obstacles@.len());
        match obstacles[list[i]].half {
            Some(half) => {
                out.push(
                    Cover { mx: margin(half.x, points[i].x), my: margin(half.y, points[i].y) },
                );
            },
            None => {},
        }
        i = i + 1;
        assert(out@ =~= want.take(i as int));
    }
    assert(out@ =~= want);
    out
}

/// The lesser of two.
pub open spec fn lesser(a: Pico, b: Pico) -> Pico {
    if a < b {
        a
    } else {
        b
    }
}

/// Whether tread `i` is under a point, within reach of the foothold `hint`.
pub open spec fn under(tops: Seq<Pico>, covers: Seq<Cover>, hint: Pico, reach: Pico, i: int) -> bool {
    &&& covers[i].mx >= 0
    &&& covers[i].my >= 0
    &&& -reach <= tops[i] - hint <= reach
}

/// The highest tread among the first `n` that is under a point and, where
/// `need` is asked for, holds the whole foot; the first of equals.
pub open spec fn highest(
    tops: Seq<Pico>,
    covers: Seq<Cover>,
    hint: Pico,
    reach: Pico,
    need: Option<Pico>,
    n: nat,
) -> Option<Support>
    decreases n,
{
    if n == 0 {
        None
    } else {
        let less = highest(tops, covers, hint, reach, need, (n - 1) as nat);
        let margin = lesser(covers[n - 1].mx, covers[n - 1].my);
        if under(tops, covers, hint, reach, n - 1) && (need matches Some(w) ==> margin + NANO >= w)
            && (less matches Some(s) ==> tops[n - 1] > s.top) {
            Some(Support { top: tops[n - 1], tread: (n - 1) as usize, margin })
        } else {
            less
        }
    }
}

/// The surface a foot stands on: the highest that the whole foot fits on,
/// else the highest that covers the point.
pub open spec fn support_of(
    tops: Seq<Pico>,
    covers: Seq<Cover>,
    hint: Pico,
    reach: Pico,
    need: Pico,
) -> Option<Support> {
    match highest(tops, covers, hint, reach, Some(need), tops.len()) {
        Some(s) => Some(s),
        None => highest(tops, covers, hint, reach, None, tops.len()),
    }
}

/// The surface a foot stands on. `covers` says of each tread how the point
/// lies in it.
pub fn support(
    tops: &Vec<Pico>,
    covers: &Vec<Cover>,
    hint: Pico,
    reach: Pico,
    need: Pico,
) -> (r: Option<Support>)
    requires
        covers@.len() == tops@.len(),
    ensures
        r == support_of(tops@, covers@, hint, reach, need),
        r matches Some(s) ==> s.tread < tops@.len(),
{
    let mut fits: Option<Support> = None;
    let mut over: Option<Support> = None;
    let mut n: usize = 0;
    while n < tops.len()
        invariant
            n <= tops.len(),
            covers@.len() == tops@.len(),
            fits == highest(tops@, covers@, hint, reach, Some(need), n as nat),
            over == highest(tops@, covers@, hint, reach, None, n as nat),
            fits matches Some(s) ==> s.tread < tops@.len(),
            over matches Some(s) ==> s.tread < tops@.len(),
        decreases tops.len() - n,
    {
        let c: Cover = covers[n];
        let top: Pico = tops[n];
        let off: i128 = top as i128 - hint as i128;
        if c.mx >= 0 && c.my >= 0 && -(reach as i128) <= off && off <= reach as i128 {
            let margin: Pico = if c.mx < c.my {
                c.mx
            } else {
                c.my
            };
            let s: Support = Support { top, tread: n, margin };
            let higher: bool = match over {
                Some(o) => top > o.top,
                None => true,
            };
            if higher {
                over = Some(s);
            }
            let better: bool = match fits {
                Some(f) => top > f.top,
                None => true,
            };
            if margin as i128 + NANO as i128 >= need as i128 && better {
                fits = Some(s);
            }
        }
        n = n + 1;
    }
    match fits {
        Some(s) => Some(s),
        None => over,
    }
}

/// How far from a foothold the next one is looked for: the machine's ability,
/// and `least` at least.
pub open spec fn step_reach_of(max_step: Option<Pico>, least: Pico) -> Pico {
    let own = match max_step {
        Some(m) => m,
        None => 0,
    };
    if own > least {
        own
    } else {
        least
    }
}

/// How far from a foothold the next one is looked for.
pub fn step_reach(max_step: Option<Pico>, least: Pico) -> (r: Pico)
    ensures
        r == step_reach_of(max_step, least),
{
    let own: Pico = match max_step {
        Some(m) => m,
        None => 0,
    };
    if own > least {
        own
    } else {
        least
    }
}

/// How high a foot swings from one foothold to the next: the authored lift,
/// and half of what it climbs or descends.
pub open spec fn swing_lift_of(lift: Pico, from: Pico, to: Pico) -> Pico {
    clip(lift + abs(to - from) / 2)
}

/// How high a foot swings.
pub fn swing_lift(lift: Pico, from: Pico, to: Pico) -> (r: Pico)
    ensures
        r == swing_lift_of(lift, from, to),
{
    let d: i128 = to as i128 - from as i128;
    let size: i128 = if d < 0 {
        -d
    } else {
        d
    };
    clipped(lift as i128 + size / 2)
}

/// What the gait planner gave for one walk.
#[derive(Debug)]
pub struct GaitReply {
    /// Where each foot stands as the drive begins.
    pub feet: Vec<Vec3>,
    /// The swing of each leg that is in the air and finishes as planned.
    pub carry: Vec<Option<Footfall>>,
    pub plan: GaitPlan,
    /// For each step of each leg: its foothold in the frame of each tread.
    pub points: Vec<Vec<Vec<Vec3>>>,
    /// How far around a foothold the planner looked for the next one at least.
    pub least_reach: Pico,
}

/// The first joint of a leg, from `from` on, that a ramp still moves.
pub open spec fn ramped_joint(
    active: Option<ActiveView>,
    joints: Seq<usize>,
    t: Pico,
    from: int,
) -> Option<int>
    decreases joints.len() - from,
{
    if from < 0 || from >= joints.len() {
        None
    } else if active matches Some(a) && a.ramps(joints[from] as int, t) {
        Some(from)
    } else {
        ramped_joint(active, joints, t, from + 1)
    }
}

/// Why a walk does not start: a ramp is still moving one of the first legs
/// from `from` on.
pub open spec fn ramped_leg(
    robot: Robot,
    legs: Seq<GaitLeg>,
    active: Option<ActiveView>,
    t: Pico,
    from: int,
) -> Option<Seq<char>>
    decreases legs.len() - from,
{
    if from < 0 || from >= legs.len() {
        None
    } else {
        match ramped_joint(active, legs[from].joints@, t, 0) {
            Some(k) => {
                let qi = legs[from].joints@[k] as int;
                Some(
                    "a ramp is still moving leg `"@ + legs[from].name@ + "` (joint `"@
                        + robot.joints@[robot.actuated@[qi] as int].name@
                        + "`); wait for done before the goto"@,
                )
            },
            None => ramped_leg(robot, legs, active, t, from + 1),
        }
    }
}

/// The joints that swing along among the first `n`: unless the hands are
/// full or a ramp has the joint.
pub open spec fn swings(
    arm_swing: Seq<(usize, Pico)>,
    rt: RobotView,
    hands_full: bool,
    t: Pico,
    n: nat,
) -> Seq<ArmSwing>
    decreases n,
{
    if n == 0 {
        Seq::empty()
    } else {
        let less = swings(arm_swing, rt, hands_full, t, (n - 1) as nat);
        let (qi, amplitude) = arm_swing[n - 1];
        if !hands_full && !(rt.active matches Some(a) && a.ramps(qi as int, t)) {
            less.push(ArmSwing { joint: qi, center: rt.q[qi as int], amplitude })
        } else {
            less
        }
    }
}

/// The joints of the first `n` legs.
pub open spec fn leg_joints(legs: Seq<GaitLeg>, n: nat) -> Seq<usize>
    decreases n,
{
    if n == 0 {
        Seq::empty()
    } else {
        leg_joints(legs, (n - 1) as nat) + legs[n - 1].joints@
    }
}

/// The joints that a walk drives: those of the legs, and those that swing
/// along.
pub open spec fn walk_joints(gait: Gait, swing: Seq<ArmSwing>) -> Seq<usize> {
    leg_joints(gait.legs@, gait.legs@.len()) + Seq::new(swing.len(), |i: int| swing[i].joint)
}

fn joints_of_walk(gait: &Gait, swing: &Vec<ArmSwing>) -> (r: Vec<usize>)
    ensures
        r@ == walk_joints(*gait, swing@),
{
    let mut out: Vec<usize> = Vec::new();
    let mut i: usize = 0;
    while i < gait.legs.len()
        invariant
            i <= gait.legs.len(),
            out@ == leg_joints(gait.legs@, i as nat),
        decreases gait.legs.len() - i,
    {
        let ghost before = out@;
        let joints: &Vec<usize> = &gait.legs[i].joints;
        let mut k: usize = 0;
        assert(out@ =~= before + joints@.take(0));
        while k < joints.len()
            invariant
                k <= joints.len(),
                out@ == before + joints@.take(k as int),
            decreases joints.len() - k,
        {
            out.push(joints[k]);
            k = k + 1;
            assert(out@ =~= before + joints@.take(k as int));
        }
        assert(joints@.take(k as int) =~= joints@);
        i = i + 1;
    }
    let ghost legs = out@;
    let ghost more = Seq::new(swing@.len(), |i: int| swing@[i].joint);
    let mut n: usize = 0;
    assert(out@ =~= legs + more.take(0));
    while n < swing.len()
        invariant
            n <= swing.len(),
            more == Seq::new(swing@.len(), |i: int| swing@[i].joint),
            out@ == legs + more.take(n as int),
        decreases swing.len() - n,
    {
        out.push(swing[n].joint);
        n = n + 1;
        assert(out@ =~= legs + more.take(n as int));
    }
    assert(more.take(n as int) =~= more);
    out
}

/// Whether robot `r` holds anything.
pub open spec fn holding(attachments: Seq<Attachment>, r: usize) -> bool {
    exists|i: int| 0 <= i < attachments.len() && (#[trigger] attachments[i]).robot == r
}

/// What is wrong with a step: it rises more than the machine can, or it lands
/// too close to the edge of its tread.
pub open spec fn step_fault(
    v: RolloutView,
    robot: Seq<char>,
    gait: Gait,
    leg: Seq<char>,
    prev: Vec3,
    f: Footfall,
    points: Seq<Vec3>,
    least: Pico,
) -> Option<ErrorView> {
    let rise = clip(f.position.z - prev.z);
    let surface = clip(f.position.z - gait.foot_radius);
    let stands = support_of(
        tops(v.obstacles),
        covers_of(v.obstacles, points),
        surface,
        step_reach_of(gait.max_step, least),
        gait.foot_radius,
    );
    if gait.max_step matches Some(m) && (rise > m + NANO || -rise > m + NANO) {
        Some(
            ErrorView::StepHeight {
                t: v.t,
                robot,
                leg,
                rise,
                max_step: gait.max_step->0,
                x: f.position.x,
                y: f.position.y,
                z: f.position.z,
            },
        )
    } else if stands matches Some(s) && s.margin + NANO < gait.foot_radius {
        let list = treads(v.obstacles, v.obstacles.len());
        Some(
            ErrorView::FootOverhang {
                t: v.t,
                robot,
                leg,
                obstacle: v.obstacles[list[stands->0.tread as int] as int].name@,
                margin: stands->0.margin,
                need: gait.foot_radius,
            },
        )
    } else {
        None
    }
}

/// What is wrong with the steps of a leg, from step `from` on.
pub open spec fn leg_fault(
    v: RolloutView,
    robot: Seq<char>,
    gait: Gait,
    leg: Seq<char>,
    start: Vec3,
    steps: Seq<Footfall>,
    points: Seq<Vec<Vec3>>,
    least: Pico,
    from: int,
) -> Option<ErrorView>
    decreases steps.len() - from,
{
    if from < 0 || from >= steps.len() {
        None
    } else {
        let prev = if from == 0 {
            start
        } else {
            steps[from - 1].position
        };
        match step_fault(v, robot, gait, leg, prev, steps[from], points[from]@, least) {
            Some(e) => Some(e),
            None => leg_fault(v, robot, gait, leg, start, steps, points, least, from + 1),
        }
    }
}

/// What is wrong with a planned walk, from leg `from` on.
pub open spec fn walk_fault(
    v: RolloutView,
    robot: Seq<char>,
    gait: Gait,
    reply: GaitReply,
    from: int,
) -> Option<ErrorView>
    decreases gait.legs@.len() - from,
{
    if from < 0 || from >= gait.legs@.len() || from >= reply.plan.legs@.len() {
        None
    } else {
        match leg_fault(
            v,
            robot,
            gait,
            gait.legs@[from].name@,
            reply.feet@[from],
            reply.plan.legs@[from]@,
            reply.points@[from]@,
            reply.least_reach,
            0,
        ) {
            Some(e) => Some(e),
            None => walk_fault(v, robot, gait, reply, from + 1),
        }
    }
}

/// The steps of the first `n` legs, without the swings that were already in
/// the air.
pub open spec fn new_steps(legs: Seq<Seq<Footfall>>, carry: Seq<Option<Footfall>>, n: nat) -> Seq<
    Footfall,
>
    decreases n,
{
    if n == 0 {
        Seq::empty()
    } else {
        new_steps(legs, carry, (n - 1) as nat) + fresh_steps(
            legs[n - 1],
            carry[n - 1],
            legs[n - 1].len(),
        )
    }
}

/// The first `n` steps of a leg, without the one in the air.
pub open spec fn fresh_steps(steps: Seq<Footfall>, carried: Option<Footfall>, n: nat) -> Seq<
    Footfall,
>
    decreases n,
{
    if n == 0 {
        Seq::empty()
    } else {
        let less = fresh_steps(steps, carried, (n - 1) as nat);
        if carried == Some(steps[n - 1]) {
            less
        } else {
            less.push(steps[n - 1])
        }
    }
}

/// Rides taken over at `t` by the rides of a new walk.
pub open spec fn overtaken(rides: Seq<Ride>, t: Pico, more: Seq<Ride>) -> Seq<Ride> {
    if more.len() == 0 {
        rides
    } else if rides.len() > 0 && rides.last().t1 > t {
        rides.update(rides.len() - 1, Ride { t1: t, ..rides.last() }) + more
    } else {
        rides + more
    }
}

/// The rides of an optional one.
pub open spec fn as_list(ride: Option<Ride>) -> Seq<Ride> {
    match ride {
        Some(r) => seq![r],
        None => Seq::empty(),
    }
}

impl RolloutView {
    /// The gait that robot `r` walks with.
    pub open spec fn gait_of(self, r: int) -> Gait {
        self.scene.robots@[r].mount->0.gait->0
    }

    /// Whether robot `r` rides the device named `device`.
    pub open spec fn rides(self, r: int, device: Seq<char>) -> bool {
        self.scene.robots@[r].mount matches Some(m) && m.device@ == device
    }

    /// Whether robot `r` walks the device named `device`.
    pub open spec fn walks(self, r: int, device: Seq<char>) -> bool {
        self.rides(r, device) && self.robots[r].gait is Some
    }

    /// The joints that swing along with a walk of robot `r` that starts now.
    pub open spec fn arm_swings(self, r: int) -> Seq<ArmSwing> {
        let list = self.gait_of(r).arm_swing@;
        swings(
            list,
            self.robots[r],
            holding(self.attachments, r as usize),
            self.t,
            list.len(),
        )
    }

    /// Why robot `r` does not start to walk, before the walk is planned.
    pub open spec fn walk_refusal(self, r: int) -> Option<Seq<char>> {
        ramped_leg(
            self.scene.robots@[r],
            self.gait_of(r).legs@,
            self.robots[r].active,
            self.t,
            0,
        )
    }

    /// Robot `r` starts its walk: the walk bakes tick by tick from here, so a
    /// move's pre-baked future is dropped.
    pub open spec fn walk_started(self, r: int, reply: GaitReply) -> RolloutView {
        let rt = self.robots[r];
        let g = rt.gait->0;
        let swing = self.arm_swings(r);
        let plan = PlanView {
            swing,
            owned: walk_joints(self.gait_of(r), swing),
            ..reply.plan@
        };
        let cut = truncated(rt.bake, self.t);
        self.with_robot(
            r,
            RobotView {
                bake: with_waypoint(
                    cut,
                    WaypointView { t: self.t, q: rt.q, v: zeros(rt.q.len()) },
                ),
                gait: Some(
                    GaitView {
                        plan: Some(plan),
                        history: g.history + new_steps(
                            plan.legs,
                            reply.carry@,
                            plan.legs.len(),
                        ),
                        pitches: overtaken(g.pitches, self.t, plan.pitch),
                        rises: overtaken(g.rises, self.t, plan.rise),
                        sways: overtaken(g.sways, self.t, as_list(plan.sway)),
                        ..g
                    },
                ),
                ..rt
            },
        )
    }

    /// Starting the walk of robot `r`.
    pub open spec fn fired_walk(self, r: int, reply: GaitReply) -> Fired {
        match self.walk_refusal(r) {
            Some(why) => Fired::Fails(self.action_error(why)),
            None => match walk_fault(
                self,
                self.scene.robots@[r].name@,
                self.gait_of(r),
                reply,
                0,
            ) {
                Some(e) => Fired::Fails(e),
                None => Fired::Leads(self.walk_started(r, reply)),
            },
        }
    }
}

/// A reply that speaks of every leg, and of every tread under every step.
pub open spec fn walk_fits(gait: Gait, reply: GaitReply, treads: nat) -> bool {
    &&& reply.feet@.len() == gait.legs@.len()
    &&& reply.plan.legs@.len() == gait.legs@.len()
    &&& reply.carry@.len() == gait.legs@.len()
    &&& reply.points@.len() == gait.legs@.len()
    &&& forall|i: int|
        0 <= i < gait.legs@.len() ==> (#[trigger] reply.points@[i])@.len()
            == reply.plan.legs@[i]@.len()
    &&& forall|i: int, k: int|
        0 <= i < gait.legs@.len() && 0 <= k < reply.points@[i]@.len()
            ==> (#[trigger] reply.points@[i]@[k])@.len() == treads
}

/// A gait whose joints are joints of its robot.
pub open spec fn gait_fits(robot: Robot, gait: Gait) -> bool {
    &&& forall|i: int, k: int|
        0 <= i < gait.legs@.len() && 0 <= k < gait.legs@[i].joints@.len()
            ==> (#[trigger] gait.legs@[i].joints@[k]) < robot.q@.len()
    &&& forall|i: int|
        0 <= i < gait.arm_swing@.len() ==> (#[trigger] gait.arm_swing@[i]).0 < robot.q@.len()
}

/// Whether a robot's gait, where it has one, fits it.
pub fn check_gait(robot: &Robot, gait: &Gait) -> (r: bool)
    ensures
        r == gait_fits(*robot, *gait),
{
    let mut i: usize = 0;
    while i < gait.legs.len()
        invariant
            i <= gait.legs.len(),
            forall|j: int, k: int|
                0 <= j < i && 0 <= k < gait.legs@[j].joints@.len()
                    ==> (#[trigger] gait.legs@[j].joints@[k]) < robot.q@.len(),
        decreases gait.legs.len() - i,
    {
        let mut k: usize = 0;
        while k < gait.legs[i].joints.len()
            invariant
                i < gait.legs@.len(),
                k <= gait.legs@[i as int].joints@.len(),
                forall|n: int|
                    0 <= n < k ==> (#[trigger] gait.legs@[i as int].joints@[n]) < robot.q@.len(),
            decreases gait.legs@[i as int].joints@.len() - k,
        {
            if gait.legs[i].joints[k] >= robot.q.len() {
                assert(!(gait.legs@[i as int].joints@[k as int] < robot.q@.len()));
                return false;
            }
            k = k + 1;
        }
        i = i + 1;
    }
    let mut a: usize = 0;
    while a < gait.arm_swing.len()
        invariant
            a <= gait.arm_swing.len(),
            forall|n: int|
                0 <= n < a ==> (#[trigger] gait.arm_swing@[n]).0 < robot.q@.len(),
        decreases gait.arm_swing.len() - a,
    {
        if gait.arm_swing[a].0 >= robot.q.len() {
            assert(!(gait.arm_swing@[a as int].0 < robot.q@.len()));
            return false;
        }
        a = a + 1;
    }
    true
}

fn find_ramped(active: &Option<ActiveMove>, joints: &Vec<usize>, t: Pico) -> (r: Option<usize>)
    ensures
        crate::names::index_view(r) == ramped_joint(opt(*active), joints@, t, 0),
        r matches Some(k) ==> k < joints@.len(),
{
    let mut k: usize = 0;
    while k < joints.len()
        invariant
            k <= joints.len(),
            ramped_joint(opt(*active), joints@, t, 0) == ramped_joint(
                opt(*active),
                joints@,
                t,
                k as int,
            ),
        decreases joints.len() - k,
    {
        let driving: bool = match active {
            Some(a) => a.ramp_driving(joints[k], t),
            None => false,
        };
        if driving {
            return Some(k);
        }
        k = k + 1;
    }
    None
}

fn find_ramped_leg(robot: &Robot, gait: &Gait, active: &Option<ActiveMove>, t: Pico) -> (r: Option<
    String,
>)
    requires
        valid_robot(*robot),
        gait_fits(*robot, *gait),
    ensures
        opt(r) == ramped_leg(*robot, gait.legs@, opt(*active), t, 0),
{
    let mut i: usize = 0;
    while i < gait.legs.len()
        invariant
            i <= gait.legs.len(),
            valid_robot(*robot),
            gait_fits(*robot, *gait),
            ramped_leg(*robot, gait.legs@, opt(*active), t, 0) == ramped_leg(
                *robot,
                gait.legs@,
                opt(*active),
                t,
                i as int,
            ),
        decreases gait.legs.len() - i,
    {
        let leg: &GaitLeg = &gait.legs[i];
        match find_ramped(active, &leg.joints, t) {
            Some(k) => {
                assert(gait.legs@[i as int].joints@[k as int] < robot.q@.len());
                let qi: usize = leg.joints[k];
                assert(robot.actuated@[qi as int] < robot.joints@.len());
                return Some(
                    cat5(
                        "a ramp is still moving leg `",
                        leg.name.as_str(),
                        "` (joint `",
                        robot.joints[robot.actuated[qi]].name.as_str(),
                        "`); wait for done before the goto",
                    ),
                );
            },
            None => {},
        }
        i = i + 1;
    }
    None
}

fn is_holding(attachments: &Vec<Attachment>, r: usize) -> (b: bool)
    ensures
        b == holding(attachments@, r),
{
    let mut i: usize = 0;
    while i < attachments.len()
        invariant
            i <= attachments.len(),
            forall|k: int| 0 <= k < i ==> (#[trigger] attachments@[k]).robot != r,
        decreases attachments.len() - i,
    {
        if attachments[i].robot == r {
            assert(attachments@[i as int].robot == r);
            return true;
        }
        i = i + 1;
    }
    false
}

fn push_fresh(history: &mut Vec<Footfall>, steps: &Vec<Footfall>, carried: Option<Footfall>)
    ensures
        final(history)@ == old(history)@ + fresh_steps(steps@, carried, steps@.len()),
{
    let ghost before = history@;
    let mut n: usize = 0;
    assert(before =~= before + Seq::<Footfall>::empty());
    while n < steps.len()
        invariant
            n <= steps.len(),
            history@ == before + fresh_steps(steps@, carried, n as nat),
        decreases steps.len() - n,
    {
        let ghost less = fresh_steps(steps@, carried, n as nat);
        let f: Footfall = steps[n];
        let flying: bool = match carried {
            Some(c) => c == f,
            None => false,
        };
        if !flying {
            history.push(f);
            assert(history@ =~= before + less.push(f));
        }
        n = n + 1;
    }
}

fn overtake(rides: &mut Vec<Ride>, t: Pico, more: &Vec<Ride>)
    ensures
        final(rides)@ == overtaken(old(rides)@, t, more@),
{
    if more.len() == 0 {
        return;
    }
    let n: usize = rides.len();
    if n > 0 && rides[n - 1].t1 > t {
        let last: Ride = rides[n - 1];
        rides.set(n - 1, Ride { t0: last.t0, t1: t, plan: last.plan });
    }
    let mut tail: Vec<Ride> = copied(more);
    rides.append(&mut tail);
}

impl<'a> Rollout<'a> {
    /// The joints that swing along with a walk of robot `r` that starts now.
    pub fn arm_swings(&self, r: usize) -> (s: Vec<ArmSwing>)
        requires
            self@.sound(),
            r < self.robots@.len(),
            self.scene.robots@[r as int].mount matches Some(m) && m.gait is Some,
        ensures
            s@ == self@.arm_swings(r as int),
    {
        let mut out: Vec<ArmSwing> = Vec::new();
        let full: bool = is_holding(&self.attachments, r);
        let ghost rt = self@.robots[r as int];
        assert(rt == self.robots@[r as int]@);
        assert(valid_robot(self.scene.robots@[r as int]));
        match &self.scene.robots[r].mount {
            Some(m) => match &m.gait {
                Some(gait) => {
                    let mut n: usize = 0;
                    while n < gait.arm_swing.len()
                        invariant
                            n <= gait.arm_swing.len(),
                            gait_fits(self.scene.robots@[r as int], *gait),
                            r < self.robots@.len(),
                            rt == self.robots@[r as int]@,
                            rt.q.len() == self.scene.robots@[r as int].q@.len(),
                            out@ == swings(gait.arm_swing@, rt, full, self.t, n as nat),
                        decreases gait.arm_swing.len() - n,
                    {
                        let (qi, amplitude): (usize, Pico) = gait.arm_swing[n];
                        assert(gait.arm_swing@[n as int].0 < self.scene.robots@[r as int].q@.len());
                        let ramped: bool = match &self.robots[r].active {
                            Some(a) => a.ramp_driving(qi, self.t),
                            None => false,
                        };
                        if !full && !ramped {
                            out.push(
                                ArmSwing { joint: qi, center: self.robots[r].q[qi], amplitude },
                            );
                        }
                        n = n + 1;
                    }
                },
                None => {},
            },
            None => {},
        }
        out
    }

    /// Why robot `r` does not start to walk, before the walk is planned.
    pub fn walk_blocked(&self, r: usize) -> (why: Option<String>)
        requires
            self@.sound(),
            r < self.robots@.len(),
            self.scene.robots@[r as int].mount matches Some(m) && m.gait is Some,
        ensures
            opt(why) == self@.walk_refusal(r as int),
    {
        assert(self@.robots[r as int] == self.robots@[r as int]@);
        assert(valid_robot(self.scene.robots@[r as int]));
        match &self.scene.robots[r].mount {
            Some(m) => match &m.gait {
                Some(gait) => find_ramped_leg(
                    &self.scene.robots[r],
                    gait,
                    &self.robots[r].active,
                    self.t,
                ),
                None => None,
            },
            None => None,
        }
    }

    fn check_step(
        &self,
        r: usize,
        gait: &Gait,
        leg: &str,
        prev: Vec3,
        f: Footfall,
        points: &Vec<Vec3>,
        tops: &Vec<Pico>,
        list: &Vec<usize>,
        least: Pico,
    ) -> (e: Option<SeqError>)
        requires
            r < self.scene.robots@.len(),
            tops@ == crate::walk::tops(self.obstacles@),
            list@ == treads(self.obstacles@, self.obstacles@.len()),
            forall|i: int| 0 <= i < list@.len() ==> (#[trigger] list@[i]) < self.obstacles@.len(),
            points@.len() == tops@.len(),
        ensures
            opt(e) == step_fault(
                self@,
                self.scene.robots@[r as int].name@,
                *gait,
                leg@,
                prev,
                f,
                points@,
                least,
            ),
    {
        let rise: Pico = minus(f.position.z, prev.z);
        match gait.max_step {
            Some(m) => {
                let bound: i128 = m as i128 + NANO as i128;
                if rise as i128 > bound || -(rise as i128) > bound {
                    return Some(
                        SeqError::StepHeight {
                            t: self.t,
                            robot: self.scene.robots[r].name.clone(),
                            leg: String::from_str(leg),
                            rise,
                            max_step: m,
                            x: f.position.x,
                            y: f.position.y,
                            z: f.position.z,
                        },
                    );
                }
            },
            None => {},
        }
        let surface: Pico = minus(f.position.z, gait.foot_radius);
        let reach: Pico = step_reach(gait.max_step, least);
        let covers: Vec<Cover> = tread_covers(&self.obstacles, points);
        match support(tops, &covers, surface, reach, gait.foot_radius) {
            Some(s) => {
                if (s.margin as i128 + NANO as i128) < gait.foot_radius as i128 {
                    assert(list@[s.tread as int] < self.obstacles@.len());
                    return Some(
                        SeqError::FootOverhang {
                            t: self.t,
                            robot: self.scene.robots[r].name.clone(),
                            leg: String::from_str(leg),
                            obstacle: self.obstacles[list[s.tread]].name.clone(),
                            margin: s.margin,
                            need: gait.foot_radius,
                        },
                    );
                }
            },
            None => {},
        }
        None
    }

    /// The declared step ability, and every foot staying on its tread: both
    /// are judged where the whole walk is known.
    fn check_walk(&self, r: usize, gait: &Gait, reply: &GaitReply) -> (e: Option<SeqError>)
        requires
            r < self.scene.robots@.len(),
            walk_fits(*gait, *reply, tops(self.obstacles@).len()),
        ensures
            opt(e) == walk_fault(
                self@,
                self.scene.robots@[r as int].name@,
                *gait,
                *reply,
                0,
            ),
    {
        let list: Vec<usize> = find_treads(&self.obstacles);
        let tops: Vec<Pico> = tread_tops(&self.obstacles);
        let ghost name = self.scene.robots@[r as int].name@;
        let mut i: usize = 0;
        while i < gait.legs.len()
            invariant
                i <= gait.legs.len(),
                r < self.scene.robots@.len(),
                name == self.scene.robots@[r as int].name@,
                tops@ == crate::walk::tops(self.obstacles@),
                list@ == treads(self.obstacles@, self.obstacles@.len()),
                forall|k: int|
                    0 <= k < list@.len() ==> (#[trigger] list@[k]) < self.obstacles@.len(),
                walk_fits(*gait, *reply, tops@.len()),
                walk_fault(self@, name, *gait, *reply, 0) == walk_fault(
                    self@,
                    name,
                    *gait,
                    *reply,
                    i as int,
                ),
            decreases gait.legs.len() - i,
        {
            let leg: &str = gait.legs[i].name.as_str();
            let steps: &Vec<Footfall> = &reply.plan.legs[i];
            let points: &Vec<Vec<Vec3>> = &reply.points[i];
            assert(reply.points@[i as int]@.len() == reply.plan.legs@[i as int]@.len());
            let start: Vec3 = reply.feet[i];
            let mut k: usize = 0;
            while k < steps.len()
                invariant
                    k <= steps.len(),
                    i < gait.legs@.len(),
                    r < self.scene.robots@.len(),
                    name == self.scene.robots@[r as int].name@,
                    tops@ == crate::walk::tops(self.obstacles@),
                    list@ == treads(self.obstacles@, self.obstacles@.len()),
                    forall|n: int|
                        0 <= n < list@.len() ==> (#[trigger] list@[n]) < self.obstacles@.len(),
                    walk_fits(*gait, *reply, tops@.len()),
                    points@ == reply.points@[i as int]@,
                    steps@ == reply.plan.legs@[i as int]@,
                    points@.len() == steps@.len(),
                    leg@ == gait.legs@[i as int].name@,
                    start == reply.feet@[i as int],
                    walk_fault(self@, name, *gait, *reply, 0) == walk_fault(
                        self@,
                        name,
                        *gait,
                        *reply,
                        i as int,
                    ),
                    leg_fault(
                        self@,
                        name,
                        *gait,
                        leg@,
                        start,
                        steps@,
                        points@,
                        reply.least_reach,
                        0,
                    ) == leg_fault(
                        self@,
                        name,
                        *gait,
                        leg@,
                        start,
                        steps@,
                        points@,
                        reply.least_reach,
                        k as int,
                    ),
                decreases steps.len() - k,
            {
                let prev: Vec3 = if k == 0 {
                    start
                } else {
                    steps[k - 1].position
                };
                assert(reply.points@[i as int]@[k as int]@.len() == tops@.len());
                match self.check_step(
                    r,
                    gait,
                    leg,
                    prev,
                    steps[k],
                    &points[k],
                    &tops,
                    &list,
                    reply.least_reach,
                ) {
                    Some(e) => {
                        return Some(e);
                    },
                    None => {},
                }
                k = k + 1;
            }
            i = i + 1;
        }
        None
    }

    /// Starts the walk of robot `r`, with what the gait planner gave for it.
    pub fn start_gait(&mut self, r: usize, reply: GaitReply) -> (out: Result<(), SeqError>)
        requires
            old(self)@.sound(),
            r < old(self).robots@.len(),
            old(self)@.robots[r as int].gait is Some,
            walk_fits(
                old(self)@.gait_of(r as int),
                reply,
                tops(old(self).obstacles@).len(),
            ),
        ensures
            answers(out, final(self)@, old(self)@.fired_walk(r as int, reply)),
            out is Err ==> final(self)@ == old(self)@,
    {
        let ghost before = self@;
        assert(before.robots[r as int] == self.robots@[r as int]@);
        match self.walk_blocked(r) {
            Some(why) => {
                return Err(self.action_error(why));
            },
            None => {},
        }
        match &self.scene.robots[r].mount {
            Some(m) => match &m.gait {
                Some(gait) => {
                    match self.check_walk(r, gait, &reply) {
                        Some(e) => {
                            return Err(e);
                        },
                        None => {},
                    }
                },
                None => {},
            },
            None => {},
        }
        let swing: Vec<ArmSwing> = self.arm_swings(r);
        let ghost want = before.walk_started(r as int, reply);
        let t: Pico = self.t;
        let mut plan: GaitPlan = reply.plan;
        match &self.scene.robots[r].mount {
            Some(m) => match &m.gait {
                Some(gait) => {
                    plan.owned = joints_of_walk(gait, &swing);
                },
                None => {},
            },
            None => {},
        }
        plan.swing = swing;
        let ghost pv = plan@;
        assert(pv == (PlanView {
            swing: before.arm_swings(r as int),
            owned: walk_joints(before.gait_of(r as int), before.arm_swings(r as int)),
            ..reply.plan@
        }));
        self.robots[r].bake.truncate_after(t);
        self.robots[r].hold(t);
        match &mut self.robots[r].gait {
            Some(g) => {
                let ghost g0 = g@;
                let mut i: usize = 0;
                assert(g.history@ =~= g0.history + new_steps(pv.legs, reply.carry@, 0));
                while i < plan.legs.len()
                    invariant
                        i <= plan.legs.len(),
                        pv == plan@,
                        reply.carry@.len() == plan.legs@.len(),
                        g@ == (GaitView {
                            history: g0.history + new_steps(pv.legs, reply.carry@, i as nat),
                            ..g0
                        }),
                    decreases plan.legs.len() - i,
                {
                    let ghost so_far = new_steps(pv.legs, reply.carry@, i as nat);
                    assert(pv.legs[i as int] == plan.legs@[i as int]@);
                    push_fresh(&mut g.history, &plan.legs[i], reply.carry[i]);
                    assert(g.history@ =~= g0.history + (so_far + fresh_steps(
                        pv.legs[i as int],
                        reply.carry@[i as int],
                        pv.legs[i as int].len(),
                    )));
                    i = i + 1;
                }
                overtake(&mut g.pitches, t, &plan.pitch);
                overtake(&mut g.rises, t, &plan.rise);
                let mut sway: Vec<Ride> = Vec::new();
                match plan.sway {
                    Some(s) => {
                        sway.push(s);
                    },
                    None => {},
                }
                assert(sway@ =~= as_list(pv.sway));
                overtake(&mut g.sways, t, &sway);
                g.plan = Some(plan);
                assert(g@ =~= want.robots[r as int].gait->0);
            },
            None => {},
        }
        assert(self.robots@[r as int]@ =~= want.robots[r as int]);
        assert(self@.robots =~= want.robots);
        assert(self@ =~= want);
        Ok(())
    }
}

/// Nothing but the robots changed, and they keep their size and their legs.
pub open spec fn robots_only(v: RolloutView, w: RolloutView) -> bool {
    &&& w == (RolloutView { robots: w.robots, ..v })
    &&& w.robots.len() == v.robots.len()
    &&& forall|r: int|
        0 <= r < v.robots.len() ==> robot_sound(#[trigger] w.robots[r], v.robots[r].q.len()) && (
        w.robots[r].gait is Some <==> v.robots[r].gait is Some) && w.robots[r].tracking
            == v.robots[r].tracking
}

/// A rollout stays sound where only its robots change.
pub proof fn lemma_robots_sound(v: RolloutView, w: RolloutView)
    requires
        v.sound(),
        robots_only(v, w),
    ensures
        w.sound(),
{
    assert forall|r: int| 0 <= r < w.robots.len() implies robot_sound(
        #[trigger] w.robots[r],
        w.scene.robots@[r].q@.len(),
    ) && (w.robots[r].gait is Some ==> (w.scene.robots@[r].mount matches Some(m)
        && m.gait is Some)) by {
        assert(robot_sound(v.robots[r], v.scene.robots@[r].q@.len()));
    }
}

impl RolloutView {
    /// Starting the walks of the first `n` robots, those that walk the device.
    pub open spec fn fired_walks(
        self,
        device: Seq<char>,
        replies: Seq<Option<GaitReply>>,
        n: nat,
    ) -> Fired
        decreases n,
    {
        if n == 0 {
            Fired::Leads(self)
        } else {
            match self.fired_walks(device, replies, (n - 1) as nat) {
                Fired::Fails(e) => Fired::Fails(e),
                Fired::Leads(v) => if v.walks(n - 1, device) {
                    v.fired_walk(n - 1, replies[n - 1]->0)
                } else {
                    Fired::Leads(v)
                },
            }
        }
    }

    /// What is left where one of the walks of the first `n` robots is refused:
    /// the walks before it have started.
    pub open spec fn walks_left(
        self,
        device: Seq<char>,
        replies: Seq<Option<GaitReply>>,
        n: nat,
    ) -> RolloutView
        decreases n,
    {
        if n == 0 {
            self
        } else {
            match self.fired_walks(device, replies, (n - 1) as nat) {
                Fired::Fails(_) => self.walks_left(device, replies, (n - 1) as nat),
                Fired::Leads(v) => v,
            }
        }
    }

    /// There is a fitting reply for every robot that walks the device.
    pub open spec fn walks_answered(self, device: Seq<char>, replies: Seq<Option<GaitReply>>) -> bool {
        &&& replies.len() == self.robots.len()
        &&& forall|r: int|
            0 <= r < replies.len() && self.walks(r, device) ==> ((#[trigger] replies[r]) matches Some(
                reply,
            ) && walk_fits(self.gait_of(r), reply, tops(self.obstacles).len()))
    }
}

proof fn lemma_fired_walks_fail(
    v: RolloutView,
    device: Seq<char>,
    replies: Seq<Option<GaitReply>>,
    k: nat,
    n: nat,
)
    requires
        k <= n,
        v.fired_walks(device, replies, k) is Fails,
    ensures
        v.fired_walks(device, replies, n) == v.fired_walks(device, replies, k),
        v.walks_left(device, replies, n) == v.walks_left(device, replies, k),
    decreases n - k,
{
    if k < n {
        lemma_fired_walks_fail(v, device, replies, k, (n - 1) as nat);
    }
}

impl<'a> Rollout<'a> {
    /// Whether robot `r` rides the device named `device`.
    pub fn rides(&self, r: usize, device: &str) -> (b: bool)
        requires
            r < self.scene.robots@.len(),
        ensures
            b == self@.rides(r as int, device@),
    {
        match &self.scene.robots[r].mount {
            Some(m) => crate::names::same(m.device.as_str(), device),
            None => false,
        }
    }

    /// A vehicle was dispatched: every robot that walks it starts its walk for
    /// the whole drive.
    pub fn start_gaits(&mut self, device: &str, replies: Vec<Option<GaitReply>>) -> (out: Result<
        (),
        SeqError,
    >)
        requires
            old(self)@.sound(),
            old(self)@.walks_answered(device@, replies@),
        ensures
            answers(
                out,
                final(self)@,
                old(self)@.fired_walks(device@, replies@, old(self).robots@.len()),
            ),
            out is Ok ==> robots_only(old(self)@, final(self)@),
            out is Err ==> final(self)@ == old(self)@.walks_left(
                device@,
                replies@,
                old(self).robots@.len(),
            ),
    {
        let ghost v = self@;
        let ghost all = replies@;
        let mut left: Vec<Option<GaitReply>> = replies;
        let mut r: usize = 0;
        while r < self.robots.len()
            invariant
                r <= self.robots@.len(),
                v == old(self)@,
                all == replies@,
                v.sound(),
                v.walks_answered(device@, all),
                left@.len() == all.len(),
                forall|k: int| r <= k < all.len() ==> (#[trigger] left@[k]) == all[k],
                robots_only(v, self@),
                self@.sound(),
                forall|k: int| r <= k < v.robots.len() ==> (#[trigger] self@.robots[k]) == v.robots[k],
                v.fired_walks(device@, all, r as nat) == Fired::Leads(self@),
            decreases self.robots@.len() - r,
        {
            assert(self@.robots[r as int] == self.robots@[r as int]@);
            if self.robots[r].gait.is_some() && self.rides(r, device) {
                let ghost before = self@;
                assert(v.robots[r as int] == before.robots[r as int]);
                assert(left@[r as int] == all[r as int]);
                assert(v.walks(r as int, device@));
                let reply: Option<GaitReply> = left[r].take();
                match reply {
                    Some(reply) => {
                        match self.start_gait(r, reply) {
                            Ok(_) => {},
                            Err(e) => {
                                proof {
                                    assert(v.fired_walks(device@, all, (r + 1) as nat) is Fails);
                                    lemma_fired_walks_fail(
                                        v,
                                        device@,
                                        all,
                                        (r + 1) as nat,
                                        v.robots.len(),
                                    );
                                }
                                return Err(e);
                            },
                        }
                        proof {
                            assert(self@ == before.walk_started(r as int, reply));
                            assert forall|k: int| 0 <= k < before.robots.len() implies robot_sound(
                                #[trigger] self@.robots[k],
                                before.robots[k].q.len(),
                            ) by {
                                assert(robot_sound(
                                    before.robots[k],
                                    before.scene.robots@[k].q@.len(),
                                ));
                            }
                            assert(robots_only(before, self@));
                            assert forall|k: int| 0 <= k < v.robots.len() implies robot_sound(
                                #[trigger] self@.robots[k],
                                v.robots[k].q.len(),
                            ) && (self@.robots[k].gait is Some <==> v.robots[k].gait is Some)
                                && self@.robots[k].tracking == v.robots[k].tracking by {
                                assert(robot_sound(before.robots[k], v.robots[k].q.len()));
                            }
                            lemma_robots_sound(before, self@);
                        }
                    },
                    None => {},
                }
            }
            r = r + 1;
        }
        Ok(())
    }
}

/// What can be walked on is every walkable box, in the order of the scene, and nothing
/// else; its top lies half its height above its middle, where that fits.
pub proof fn law_walkable_boxes_are_treads(obstacles: Seq<Obstacle>, n: nat)
    requires
        n < obstacles.len(),
        n <= usize::MAX,
    ensures
        treads(obstacles, 0).len() == 0,
        obstacles[n as int].walkable && obstacles[n as int].half is Some ==> treads(
            obstacles,
            n + 1,
        ) == treads(obstacles, n).push(n as usize),
        !obstacles[n as int].walkable || obstacles[n as int].half is None ==> treads(
            obstacles,
            n + 1,
        ) == treads(obstacles, n),
        obstacles[n as int].half matches Some(h) ==> (i64::MIN <= obstacles[n as int].pose.at.z
            + h.z <= i64::MAX ==> top_of(obstacles[n as int]) == obstacles[n as int].pose.at.z
            + h.z),
{
}

/// How far a point lies inside the edges of a top face: half the face less how far it is
/// from the middle, on either side, where that fits.
pub proof fn law_a_margin_is_what_is_left_to_the_edge(half: Vec3, point: Vec3)
    requires
        0 <= half.x,
        0 <= half.y,
        point.x > i64::MIN,
        point.y > i64::MIN,
    ensures
        ({
            let c = cover_of(half, point);
            &&& c.mx <= half.x - point.x
            &&& c.mx <= half.x + point.x
            &&& c.mx == half.x - point.x || c.mx == half.x + point.x
            &&& c.my <= half.y - point.y
            &&& c.my <= half.y + point.y
            &&& c.my == half.y - point.y || c.my == half.y + point.y
        }),
{
}

/// Whether a tread can hold a foot: it is under the point, no further than the reach
/// above or below the foothold, and, where room is asked for, has it to every edge but
/// for 10^-9 m.
pub open spec fn can_hold(
    tops: Seq<Pico>,
    covers: Seq<Cover>,
    hint: Pico,
    reach: Pico,
    need: Option<Pico>,
    i: int,
) -> bool {
    &&& covers[i].mx >= 0 && covers[i].my >= 0
    &&& tops[i] - hint <= reach && hint - tops[i] <= reach
    &&& need matches Some(w) ==> covers[i].mx + 1_000 >= w && covers[i].my + 1_000 >= w
}

/// A foot stands on the highest tread that can hold it, the first of equals; where none
/// can it stands on none. `i` is any tread.
pub proof fn law_a_foot_stands_on_the_highest_tread(
    tops: Seq<Pico>,
    covers: Seq<Cover>,
    hint: Pico,
    reach: Pico,
    need: Option<Pico>,
    n: nat,
    i: int,
)
    requires
        n <= tops.len(),
        n <= usize::MAX,
    ensures
        match highest(tops, covers, hint, reach, need, n) {
            Some(s) => {
                &&& s.tread < n
                &&& can_hold(tops, covers, hint, reach, need, s.tread as int)
                &&& s.top == tops[s.tread as int]
                &&& s.margin <= covers[s.tread as int].mx
                &&& s.margin <= covers[s.tread as int].my
                &&& s.margin == covers[s.tread as int].mx || s.margin
                    == covers[s.tread as int].my
                &&& 0 <= i < n && can_hold(tops, covers, hint, reach, need, i) ==> tops[i] <= s.top
                    && (tops[i] == s.top ==> s.tread <= i)
            },
            None => 0 <= i < n ==> !can_hold(tops, covers, hint, reach, need, i),
        },
    decreases n,
{
    if n > 0 {
        law_a_foot_stands_on_the_highest_tread(
            tops,
            covers,
            hint,
            reach,
            need,
            (n - 1) as nat,
            i,
        );
    }
}

/// A foot stands on the highest tread that the whole of it fits on; where none does, on
/// the highest that is under its middle.
pub proof fn law_a_whole_foothold_comes_first(
    tops: Seq<Pico>,
    covers: Seq<Cover>,
    hint: Pico,
    reach: Pico,
    need: Pico,
    i: int,
)
    requires
        tops.len() <= usize::MAX,
        0 <= i < tops.len(),
    ensures
        can_hold(tops, covers, hint, reach, Some(need), i) ==> (support_of(
            tops,
            covers,
            hint,
            reach,
            need,
        ) matches Some(s) && can_hold(tops, covers, hint, reach, Some(need), s.tread as int)
            && s.top >= tops[i]),
        can_hold(tops, covers, hint, reach, None, i) ==> support_of(tops, covers, hint, reach, need)
            is Some,
        support_of(tops, covers, hint, reach, need) matches Some(s) ==> can_hold(
            tops,
            covers,
            hint,
            reach,
            None,
            s.tread as int,
        ),
{
    law_a_foot_stands_on_the_highest_tread(
        tops,
        covers,
        hint,
        reach,
        Some(need),
        tops.len(),
        i,
    );
    law_a_foot_stands_on_the_highest_tread(tops, covers, hint, reach, None, tops.len(), i);
}

/// A foothold is looked for within what the machine can step, and within the least given
/// at least.
pub proof fn law_a_reach_is_the_greater_of_two(max_step: Option<Pico>, least: Pico)
    ensures
        ({
            let reach = step_reach_of(max_step, least);
            &&& reach >= least
            &&& max_step matches Some(m) ==> reach >= m && (reach == m || reach == least)
            &&& max_step is None && least >= 0 ==> reach == least
        }),
{
}

/// A foot swings its lift above its way, and half of what it climbs or descends more,
/// rounded down, where that fits.
pub proof fn law_a_swing_clears_half_the_climb(lift: Pico, from: Pico, to: Pico)
    requires
        i64::MIN <= lift,
        lift + abs(to - from) <= i64::MAX,
    ensures
        ({
            let more = swing_lift_of(lift, from, to) - lift;
            &&& 0 <= more
            &&& 2 * more <= abs(to - from) < 2 * more + 2
        }),
{
}

/// A walk does not start while a ramp still moves a joint of one of the legs; while none
/// does it may.
pub proof fn law_no_walk_starts_under_a_ramp(
    robot: Robot,
    legs: Seq<GaitLeg>,
    active: Option<ActiveView>,
    t: Pico,
    from: int,
)
    requires
        0 <= from,
    ensures
        ramped_leg(robot, legs, active, t, from) is Some <==> exists|l: int, k: int|
            from <= l < legs.len() && 0 <= k < legs[l].joints@.len() && (active matches Some(a)
                && a.ramps(#[trigger] legs[l].joints@[k] as int, t)),
    decreases legs.len() - from,
{
    if from < legs.len() {
        let joints = legs[from].joints@;
        lemma_ramped_joint(active, joints, t, 0);
        law_no_walk_starts_under_a_ramp(robot, legs, active, t, from + 1);
        if ramped_joint(active, joints, t, 0) is Some {
            let k = ramped_joint(active, joints, t, 0)->0;
            assert(active matches Some(a) && a.ramps(legs[from].joints@[k] as int, t));
        }
    }
}

proof fn lemma_ramped_joint(active: Option<ActiveView>, joints: Seq<usize>, t: Pico, from: int)
    requires
        0 <= from,
    ensures
        match ramped_joint(active, joints, t, from) {
            Some(k) => from <= k < joints.len() && (active matches Some(a) && a.ramps(
                joints[k] as int,
                t,
            )),
            None => forall|k: int|
                from <= k < joints.len() ==> !(active matches Some(a) && a.ramps(
                    #[trigger] joints[k] as int,
                    t,
                )),
        },
    decreases joints.len() - from,
{
    if from < joints.len() {
        lemma_ramped_joint(active, joints, t, from + 1);
    }
}

/// A joint swings along with a walk, about where it is, where the hands are free and no
/// ramp has it; else it does not.
pub proof fn law_free_arms_swing_along(
    arm_swing: Seq<(usize, Pico)>,
    rt: RobotView,
    hands_full: bool,
    t: Pico,
    n: nat,
)
    requires
        n < arm_swing.len(),
    ensures
        swings(arm_swing, rt, hands_full, t, 0).len() == 0,
        ({
            let (qi, amplitude) = arm_swing[n as int];
            let less = swings(arm_swing, rt, hands_full, t, n);
            let more = swings(arm_swing, rt, hands_full, t, n + 1);
            let ramped = rt.active matches Some(a) && a.ramps(qi as int, t);
            &&& hands_full || ramped ==> more == less
            &&& !hands_full && !ramped ==> more == less.push(
                ArmSwing { joint: qi, center: rt.q[qi as int], amplitude },
            )
        }),
{
}

/// A step that rises or falls more than the machine can, by over 10^-9 m, is a fault, and
/// so is one whose foot does not fit on its tread; any other is none.
pub proof fn law_a_step_must_be_within_reach_and_on_its_tread(
    v: RolloutView,
    robot: Seq<char>,
    gait: Gait,
    leg: Seq<char>,
    prev: Vec3,
    f: Footfall,
    points: Seq<Vec3>,
    least: Pico,
)
    requires
        i64::MIN < f.position.z - prev.z <= i64::MAX,
        i64::MIN <= f.position.z - gait.foot_radius <= i64::MAX,
    ensures
        ({
            let fault = step_fault(v, robot, gait, leg, prev, f, points, least);
            let rise = f.position.z - prev.z;
            let steep = gait.max_step matches Some(m) && (rise - m > 1_000 || -rise - m > 1_000);
            let stands = support_of(
                tops(v.obstacles),
                covers_of(v.obstacles, points),
                (f.position.z - gait.foot_radius) as i64,
                step_reach_of(gait.max_step, least),
                gait.foot_radius,
            );
            let over = stands matches Some(s) && gait.foot_radius - s.margin > 1_000;
            &&& steep ==> (fault matches Some(e) && (e matches ErrorView::StepHeight {
                t,
                rise: by,
                x,
                y,
                z,
                ..
            } && t == v.t && by == rise && x == f.position.x && y == f.position.y && z
                == f.position.z))
            &&& !steep && over ==> (fault matches Some(e) && (e matches ErrorView::FootOverhang {
                margin,
                need,
                ..
            } && margin == (stands->0).margin && need == gait.foot_radius))
            &&& !steep && !over ==> fault is None
        }),
{
}

/// The steps of a leg are judged one after the other, each from the foothold before it,
/// the first from where the foot stands.
pub proof fn law_each_step_is_judged_from_the_one_before(
    v: RolloutView,
    robot: Seq<char>,
    gait: Gait,
    leg: Seq<char>,
    start: Vec3,
    steps: Seq<Footfall>,
    points: Seq<Vec<Vec3>>,
    least: Pico,
    from: int,
    i: int,
)
    requires
        0 <= from,
        leg_fault(v, robot, gait, leg, start, steps, points, least, from) is None,
        from <= i < steps.len(),
    ensures
        i == 0 ==> step_fault(v, robot, gait, leg, start, steps[0], points[0]@, least) is None,
        i > 0 ==> step_fault(
            v,
            robot,
            gait,
            leg,
            steps[i - 1].position,
            steps[i],
            points[i]@,
            least,
        ) is None,
    decreases steps.len() - from,
{
    if from < i {
        law_each_step_is_judged_from_the_one_before(
            v,
            robot,
            gait,
            leg,
            start,
            steps,
            points,
            least,
            from + 1,
            i,
        );
    }
}

/// A new walk takes over from the one before: what of that lasts beyond now ends now, and
/// the new follows; where there is nothing new it goes on.
pub proof fn law_a_new_walk_takes_over(rides: Seq<Ride>, t: Pico, more: Seq<Ride>)
    ensures
        ({
            let after = overtaken(rides, t, more);
            let n = rides.len() as int;
            &&& more.len() == 0 ==> after == rides
            &&& more.len() > 0 ==> {
                &&& after.len() == n + more.len()
                &&& forall|i: int| 0 <= i < more.len() ==> #[trigger] after[n + i] == more[i]
                &&& forall|i: int| 0 <= i < n - 1 ==> #[trigger] after[i] == rides[i]
                &&& n > 0 && rides[n - 1].t1 <= t ==> after[n - 1] == rides[n - 1]
                &&& n > 0 && rides[n - 1].t1 > t ==> after[n - 1] == (Ride {
                    t1: t,
                    ..rides[n - 1]
                })
            }
        }),
{
}

/// A walk that starts drives the joints of its legs and those that swing along, from where
/// the robot is: what was taken down beyond now is dropped, and its new steps are told.
/// No other robot is concerned. `k` is a joint of leg `l`.
pub proof fn law_a_walk_takes_its_legs_over(
    v: RolloutView,
    r: int,
    reply: GaitReply,
    s: int,
    l: int,
    k: int,
)
    requires
        0 <= r < v.robots.len(),
        0 <= s < v.robots.len(),
        v.robots[r].gait is Some,
        0 <= l < v.gait_of(r).legs@.len(),
        0 <= k < v.gait_of(r).legs@[l].joints@.len(),
    ensures
        ({
            let w = v.walk_started(r, reply);
            let g = w.robots[r].gait;
            let before = v.robots[r].gait->0;
            &&& w == (RolloutView { robots: w.robots, ..v })
            &&& s != r ==> w.robots[s] == v.robots[s]
            &&& w.robots[r].q == v.robots[r].q
            &&& w.robots[r].active == v.robots[r].active
            &&& g matches Some(now) && (now.plan matches Some(plan) && plan.done == reply.plan.done
                && plan.t0 == reply.plan.t0 && plan.owned.contains(
                v.gait_of(r).legs@[l].joints@[k],
            ) && plan.swing == v.arm_swings(r)) && now.carried == before.carried
            &&& forall|i: int|
                0 <= i < before.history.len() ==> (g->0).history[i] == before.history[i]
        }),
{
    let legs = v.gait_of(r).legs@;
    let joint = legs[l].joints@[k];
    lemma_leg_joints(legs, legs.len(), l, k);
    let all = leg_joints(legs, legs.len());
    let swing = v.arm_swings(r);
    let owned = walk_joints(v.gait_of(r), swing);
    let i = choose|i: int| 0 <= i < all.len() && all[i] == joint;
    assert(owned[i] == joint);
}

proof fn lemma_leg_joints(legs: Seq<GaitLeg>, n: nat, l: int, k: int)
    requires
        n <= legs.len(),
        0 <= l < n,
        0 <= k < legs[l].joints@.len(),
    ensures
        leg_joints(legs, n).contains(legs[l].joints@[k]),
    decreases n,
{
    let less = (n - 1) as nat;
    let before = leg_joints(legs, less);
    let now = leg_joints(legs, n);
    let joint = legs[l].joints@[k];
    if l < less {
        lemma_leg_joints(legs, less, l, k);
        let i = choose|i: int| 0 <= i < before.len() && before[i] == joint;
        assert(now[i] == joint);
    } else {
        assert(now[before.len() + k] == joint);
    }
}

/// A walk starts where no ramp moves its legs and every step of it is fine; else it fails.
pub proof fn law_a_walk_starts_where_nothing_is_wrong(v: RolloutView, r: int, reply: GaitReply)
    ensures
        ({
            let fault = walk_fault(v, v.scene.robots@[r].name@, v.gait_of(r), reply, 0);
            &&& v.walk_refusal(r) is Some || fault is Some ==> v.fired_walk(r, reply) is Fails
            &&& v.walk_refusal(r) is None && fault is None ==> v.fired_walk(r, reply)
                == Fired::Leads(v.walk_started(r, reply))
        }),
{
}

/// The steps that a walk tells are those of its legs but for one that was in the air
/// already.
pub proof fn law_a_step_in_the_air_is_told_once(
    steps: Seq<Footfall>,
    carried: Option<Footfall>,
    n: nat,
)
    requires
        n < steps.len(),
    ensures
        fresh_steps(steps, carried, 0).len() == 0,
        carried == Some(steps[n as int]) ==> fresh_steps(steps, carried, n + 1) == fresh_steps(
            steps,
            carried,
            n,
        ),
        carried != Some(steps[n as int]) ==> fresh_steps(steps, carried, n + 1) == fresh_steps(
            steps,
            carried,
            n,
        ).push(steps[n as int]),
{
}

/// Every leg of a walk is judged: a walk without a fault has a leg without one.
pub proof fn law_every_leg_of_a_walk_is_judged(
    v: RolloutView,
    robot: Seq<char>,
    gait: Gait,
    reply: GaitReply,
    from: int,
    i: int,
)
    requires
        0 <= from <= i < gait.legs@.len(),
        i < reply.plan.legs@.len(),
        walk_fault(v, robot, gait, reply, from) is None,
    ensures
        leg_fault(
            v,
            robot,
            gait,
            gait.legs@[i].name@,
            reply.feet@[i],
            reply.plan.legs@[i]@,
            reply.points@[i]@,
            reply.least_reach,
            0,
        ) is None,
    decreases i - from,
{
    if from < i {
        law_every_leg_of_a_walk_is_judged(v, robot, gait, reply, from + 1, i);
    }
}

} // verus!
