//! A walking machine's legs, tick by tick.

use vstd::prelude::*;

use crate::error::{ErrorView, SeqError};
use crate::fire::{answers, Fired};
use crate::fixed::{clip, muldiv, plus, scaled, Pico, Pose, NANO, UNIT};
use crate::gait::{identity, still, ArmSwing, GaitPlan, GaitView, PlanView};
use crate::motion::{after, pin, pin_vec, with_waypoint, with_waypoints, WaypointView};
use crate::names::index_view;
use crate::robots::{RobotRuntime, RobotView};
use crate::rollout::{Rollout, RolloutView};
use crate::scene::GaitLeg;
use crate::setup::lemma_kept_sound;
use crate::text::{cat5, decimal, decimal_text};
use crate::views::{copied, zero_vec, zeros};
use crate::world::{lemma_same_robots, rate_list, rates};

verus! {

/// How far from its footfall a leg may end: a tenth of a millimetre.
pub const FOOT_SHORT: Pico = 100_000_000;

/// How far from its sole's direction a leg may end: a milliradian.
pub const SOLE_SHORT: Pico = 1_000_000_000;

/// What solving one leg's pose gave.
#[derive(Debug)]
pub struct LegReply {
    /// The foot is in the air.
    pub airborne: bool,
    /// The sole is held level only, its yaw left free.
    pub level_only: bool,
    pub converged: bool,
    pub pos_error: Pico,
    pub rot_error: Pico,
    /// The two errors in scientific notation.
    pub pos_text: String,
    pub rot_text: String,
    pub iters: usize,
    /// The step, or where the foot stands how far from its nominal.
    pub stride: Pico,
    /// Hip to foot.
    pub reach: Pico,
    /// Body plane to foot.
    pub drop: Pico,
    pub q: Vec<Pico>,
}

/// What one tick of a walk takes from the kinematics.
#[derive(Debug)]
pub struct StrideReply {
    /// The base with this tick's ride, tilt and sway composed onto it.
    pub base: Pose,
    pub sway: Pose,
    pub pitch: Pose,
    pub rise: Pico,
    pub legs: Vec<LegReply>,
    /// The sine of the gait's phase.
    pub wave: Pico,
    /// Where the machine's load then is.
    pub load: Vec<Pose>,
}

/// Whether a leg falls short of its footfall. A sole whose yaw is free is let
/// be in the air: it only has to be level when it stands.
pub open spec fn falls_short(leg: LegReply) -> bool {
    !leg.converged && !(leg.airborne && leg.level_only) && (leg.pos_error > FOOT_SHORT
        || leg.rot_error > SOLE_SHORT)
}

/// The first leg, from `from` on, that falls short.
pub open spec fn short_leg(legs: Seq<LegReply>, from: int) -> Option<int>
    decreases legs.len() - from,
{
    if from < 0 || from >= legs.len() {
        None
    } else if falls_short(legs[from]) {
        Some(from)
    } else {
        short_leg(legs, from + 1)
    }
}

/// A configuration with the first `n` legs as they were solved.
pub open spec fn legs_solved(
    q: Seq<Pico>,
    legs: Seq<GaitLeg>,
    replies: Seq<LegReply>,
    n: nat,
) -> Seq<Pico>
    decreases n,
{
    if n == 0 {
        q
    } else {
        pin(
            legs_solved(q, legs, replies, (n - 1) as nat),
            legs[n - 1].joints@,
            replies[n - 1].q@,
        )
    }
}

/// A configuration with the first `n` legs in their stance.
pub open spec fn legs_rested(q: Seq<Pico>, legs: Seq<GaitLeg>, rest: Seq<Pico>, n: nat) -> Seq<Pico>
    decreases n,
{
    if n == 0 {
        q
    } else {
        pin(legs_rested(q, legs, rest, (n - 1) as nat), legs[n - 1].joints@, rest)
    }
}

/// Where a swinging joint is: about its centre with the gait's phase, or at
/// its centre.
pub open spec fn swung_to(s: ArmSwing, wave: Option<Pico>) -> Pico {
    match wave {
        Some(w) => clip(s.center + clip(muldiv(s.amplitude as int, w as int, UNIT as int))),
        None => s.center,
    }
}

/// A configuration with the first `n` swinging joints where they are.
pub open spec fn arms_swung(q: Seq<Pico>, swing: Seq<ArmSwing>, wave: Option<Pico>, n: nat) -> Seq<
    Pico,
>
    decreases n,
{
    if n == 0 {
        q
    } else {
        let less = arms_swung(q, swing, wave, (n - 1) as nat);
        let s = swing[n - 1];
        if s.joint < less.len() {
            less.update(s.joint as int, swung_to(s, wave))
        } else {
            less
        }
    }
}

impl RolloutView {
    /// Whether this tick is the one on which the last foot has settled.
    pub open spec fn settling(self, plan: PlanView) -> bool {
        self.t >= plan.done - NANO
    }

    /// The configuration of a walking robot after this tick.
    pub open spec fn strided_to(self, r: int, plan: PlanView, reply: StrideReply) -> Seq<Pico> {
        let q = self.robots[r].q;
        let legs = self.gait_of(r).legs@;
        if self.settling(plan) {
            arms_swung(
                legs_rested(q, legs, plan.rest, legs.len()),
                plan.swing,
                None,
                plan.swing.len(),
            )
        } else {
            arms_swung(
                legs_solved(q, legs, reply.legs@, legs.len()),
                plan.swing,
                Some(reply.wave),
                plan.swing.len(),
            )
        }
    }

    /// The rates of this tick: by difference, but at rest in the joints of a
    /// walk that settles.
    pub open spec fn stride_rates(self, r: int, plan: PlanView, q: Seq<Pico>) -> Seq<Pico> {
        let all = rates(q, self.robots[r].q, self.options.dt);
        if self.settling(plan) {
            pin(all, plan.owned, zeros(all.len()))
        } else {
            all
        }
    }

    /// One tick of robot `r`'s walk.
    pub open spec fn strided(self, r: int, reply: StrideReply) -> Fired {
        let rt = self.robots[r];
        let g = rt.gait->0;
        let plan = g.plan->0;
        let settles = self.settling(plan);
        let fault = if settles {
            None
        } else {
            short_leg(reply.legs@, 0)
        };
        match fault {
            Some(i) => {
                let leg = reply.legs@[i];
                Fired::Fails(
                    ErrorView::GaitReach {
                        t: self.t,
                        robot: self.scene.robots@[r].name@,
                        leg: self.gait_of(r).legs@[i].name@,
                        stride: leg.stride,
                        reach: leg.reach,
                        drop: leg.drop,
                        detail: leg.pos_text@ + " m / "@ + leg.rot_text@ + " rad short after "@
                            + decimal(leg.iters as nat) + " iterations"@,
                    },
                )
            },
            None => {
                let q = self.strided_to(r, plan, reply);
                let baked = with_waypoint(
                    rt.bake,
                    WaypointView { t: self.t, q, v: self.stride_rates(r, plan, q) },
                );
                let active = match rt.active {
                    Some(a) => if settles {
                        Some(a.pinned(plan.owned, plan.rest))
                    } else {
                        Some(a)
                    },
                    None => None,
                };
                Fired::Leads(
                    RolloutView {
                        bases: self.bases.update(r, reply.base),
                        ..self.with_robot(
                            r,
                            RobotView {
                                q,
                                active,
                                bake: match active {
                                    Some(a) => if settles {
                                        with_waypoints(baked, after(a.tail(), self.t))
                                    } else {
                                        baked
                                    },
                                    None => baked,
                                },
                                gait: Some(
                                    GaitView {
                                        sway: if settles || plan.sway is None {
                                            still()
                                        } else {
                                            reply.sway
                                        },
                                        pitch: reply.pitch,
                                        rise: reply.rise,
                                        plan: if settles {
                                            None
                                        } else {
                                            Some(plan)
                                        },
                                        ..g
                                    },
                                ),
                                ..rt
                            },
                        )
                    },
                )
            },
        }
    }

    /// A reply that speaks of every leg and of the load.
    pub open spec fn stride_fits(self, r: int, reply: StrideReply) -> bool {
        reply.legs@.len() == self.gait_of(r).legs@.len() && reply.load@.len() == self.load_of(r)
    }

    /// Robot `r`'s tick of walking, its load with it; nothing where it stands.
    pub open spec fn walked_on(self, r: int, reply: Option<StrideReply>) -> Fired {
        if !self.robots[r].walking() {
            Fired::Leads(self)
        } else {
            match self.strided(r, reply->0) {
                Fired::Fails(e) => Fired::Fails(e),
                Fired::Leads(v) => Fired::Leads(v.placed(r, (reply->0).load@)),
            }
        }
    }

    /// One tick of the first `n` robots' walks.
    pub open spec fn all_walked(self, replies: Seq<Option<StrideReply>>, n: nat) -> Fired
        decreases n,
    {
        if n == 0 {
            Fired::Leads(self)
        } else {
            match self.all_walked(replies, (n - 1) as nat) {
                Fired::Fails(e) => Fired::Fails(e),
                Fired::Leads(v) => v.walked_on(n - 1, replies[n - 1]),
            }
        }
    }

    /// There is a fitting reply for every robot that walks.
    pub open spec fn strides_answered(self, replies: Seq<Option<StrideReply>>) -> bool {
        replies.len() == self.robots.len() && forall|r: int|
            0 <= r < replies.len() && self.robots[r].walking() ==> ((
            #[trigger] replies[r]) matches Some(reply) && self.stride_fits(r, reply))
    }
}

fn find_short(legs: &Vec<LegReply>) -> (r: Option<usize>)
    ensures
        index_view(r) == short_leg(legs@, 0),
        r matches Some(i) ==> i < legs@.len(),
{
    let mut i: usize = 0;
    while i < legs.len()
        invariant
            i <= legs.len(),
            short_leg(legs@, 0) == short_leg(legs@, i as int),
        decreases legs.len() - i,
    {
        let l: &LegReply = &legs[i];
        if !l.converged && !(l.airborne && l.level_only) && (l.pos_error > FOOT_SHORT || l.rot_error
            > SOLE_SHORT) {
            return Some(i);
        }
        i = i + 1;
    }
    None
}

fn solve_legs(q: &mut Vec<Pico>, legs: &Vec<GaitLeg>, replies: &Vec<LegReply>)
    requires
        replies@.len() == legs@.len(),
    ensures
        final(q)@ == legs_solved(old(q)@, legs@, replies@, legs@.len()),
{
    let ghost before = q@;
    let mut n: usize = 0;
    while n < legs.len()
        invariant
            n <= legs.len(),
            replies@.len() == legs@.len(),
            q@ == legs_solved(before, legs@, replies@, n as nat),
        decreases legs.len() - n,
    {
        pin_vec(q, &legs[n].joints, &replies[n].q);
        n = n + 1;
    }
}

fn rest_legs(q: &mut Vec<Pico>, legs: &Vec<GaitLeg>, rest: &Vec<Pico>)
    ensures
        final(q)@ == legs_rested(old(q)@, legs@, rest@, legs@.len()),
{
    let ghost before = q@;
    let mut n: usize = 0;
    while n < legs.len()
        invariant
            n <= legs.len(),
            q@ == legs_rested(before, legs@, rest@, n as nat),
        decreases legs.len() - n,
    {
        pin_vec(q, &legs[n].joints, rest);
        n = n + 1;
    }
}

fn swing_arms(q: &mut Vec<Pico>, swing: &Vec<ArmSwing>, wave: Option<Pico>)
    ensures
        final(q)@ == arms_swung(old(q)@, swing@, wave, swing@.len()),
{
    let ghost before = q@;
    let mut n: usize = 0;
    while n < swing.len()
        invariant
            n <= swing.len(),
            q@ == arms_swung(before, swing@, wave, n as nat),
        decreases swing.len() - n,
    {
        let s: ArmSwing = swing[n];
        let to: Pico = match wave {
            Some(w) => plus(s.center, scaled(s.amplitude, w, UNIT as i128)),
            None => s.center,
        };
        if s.joint < q.len() {
            q.set(s.joint, to);
        }
        n = n + 1;
    }
}

proof fn lemma_strided_len(
    q: Seq<Pico>,
    legs: Seq<GaitLeg>,
    replies: Seq<LegReply>,
    rest: Seq<Pico>,
    n: nat,
)
    ensures
        legs_solved(q, legs, replies, n).len() == q.len(),
        legs_rested(q, legs, rest, n).len() == q.len(),
    decreases n,
{
    if n > 0 {
        lemma_strided_len(q, legs, replies, rest, (n - 1) as nat);
    }
}

proof fn lemma_swung_len(q: Seq<Pico>, swing: Seq<ArmSwing>, wave: Option<Pico>, n: nat)
    ensures
        arms_swung(q, swing, wave, n).len() == q.len(),
    decreases n,
{
    if n > 0 {
        lemma_swung_len(q, swing, wave, (n - 1) as nat);
    }
}

proof fn lemma_strided_to_len(v: RolloutView, r: int, plan: PlanView, reply: StrideReply)
    ensures
        v.strided_to(r, plan, reply).len() == v.robots[r].q.len(),
{
    let q = v.robots[r].q;
    let legs = v.gait_of(r).legs@;
    lemma_strided_len(q, legs, reply.legs@, plan.rest, legs.len());
    lemma_swung_len(
        legs_rested(q, legs, plan.rest, legs.len()),
        plan.swing,
        None,
        plan.swing.len(),
    );
    lemma_swung_len(
        legs_solved(q, legs, reply.legs@, legs.len()),
        plan.swing,
        Some(reply.wave),
        plan.swing.len(),
    );
}

impl<'a> Rollout<'a> {
    /// The configuration of a walking robot after this tick.
    fn stride_to(&self, r: usize, plan: &GaitPlan, reply: &StrideReply) -> (q: Vec<Pico>)
        requires
            r < self.robots@.len(),
            self.scene.robots@.len() == self.robots@.len(),
            self.scene.robots@[r as int].mount matches Some(m) && m.gait is Some,
            reply.legs@.len() == self@.gait_of(r as int).legs@.len(),
        ensures
            q@ == self@.strided_to(r as int, plan@, *reply),
    {
        assert(self@.robots[r as int] == self.robots@[r as int]@);
        let mut q: Vec<Pico> = copied(&self.robots[r].q);
        let settles: bool = self.t as i128 >= plan.done as i128 - NANO as i128;
        match &self.scene.robots[r].mount {
            Some(m) => match &m.gait {
                Some(gait) => {
                    if settles {
                        rest_legs(&mut q, &gait.legs, &plan.rest);
                        swing_arms(&mut q, &plan.swing, None);
                    } else {
                        solve_legs(&mut q, &gait.legs, &reply.legs);
                        swing_arms(&mut q, &plan.swing, Some(reply.wave));
                    }
                },
                None => {},
            },
            None => {},
        }
        q
    }

    fn short_error(&self, r: usize, reply: &StrideReply) -> (e: Option<SeqError>)
        requires
            r < self.scene.robots@.len(),
            self.scene.robots@[r as int].mount matches Some(m) && m.gait is Some,
            reply.legs@.len() == self@.gait_of(r as int).legs@.len(),
        ensures
            match (e, short_leg(reply.legs@, 0)) {
                (Some(x), Some(i)) => x@ == (ErrorView::GaitReach {
                    t: self.t,
                    robot: self.scene.robots@[r as int].name@,
                    leg: self@.gait_of(r as int).legs@[i].name@,
                    stride: reply.legs@[i].stride,
                    reach: reply.legs@[i].reach,
                    drop: reply.legs@[i].drop,
                    detail: reply.legs@[i].pos_text@ + " m / "@ + reply.legs@[i].rot_text@
                        + " rad short after "@ + decimal(reply.legs@[i].iters as nat)
                        + " iterations"@,
                }),
                (None, None) => true,
                _ => false,
            },
    {
        match find_short(&reply.legs) {
            None => None,
            Some(i) => {
                let l: &LegReply = &reply.legs[i];
                let mut detail: String = cat5(
                    l.pos_text.as_str(),
                    " m / ",
                    l.rot_text.as_str(),
                    " rad short after ",
                    decimal_text(l.iters as u64).as_str(),
                );
                detail.append(" iterations");
                let leg: String = match &self.scene.robots[r].mount {
                    Some(m) => match &m.gait {
                        Some(gait) => gait.legs[i].name.clone(),
                        None => String::new(),
                    },
                    None => String::new(),
                };
                Some(
                    SeqError::GaitReach {
                        t: self.t,
                        robot: self.scene.robots[r].name.clone(),
                        leg,
                        stride: l.stride,
                        reach: l.reach,
                        drop: l.drop,
                        detail,
                    },
                )
            },
        }
    }

    /// One tick of robot `r`'s walk: the solved legs merged over whatever else
    /// drives the robot, and the tick baked. When the last foot has settled
    /// the legs snap to their stance and are handed back.
    fn gait_tick(&mut self, r: usize, reply: &StrideReply) -> (out: Result<(), SeqError>)
        requires
            old(self)@.sound(),
            r < old(self).robots@.len(),
            old(self)@.robots[r as int].walking(),
            reply.legs@.len() == old(self)@.gait_of(r as int).legs@.len(),
        ensures
            answers(out, final(self)@, old(self)@.strided(r as int, *reply)),
            out is Ok ==> final(self)@.sound() && final(self)@ == (RolloutView {
                robots: final(self)@.robots,
                bases: final(self)@.bases,
                ..old(self)@
            }) && final(self)@.robots.len() == old(self)@.robots.len() && final(self)@.load_of(
                r as int,
            ) == old(self)@.load_of(r as int) && forall|k: int|
                0 <= k < old(self)@.robots.len() && k != r ==> (#[trigger] final(self)@.robots[k])
                    == old(self)@.robots[k],
    {
        let ghost v = self@;
        let ghost rt = v.robots[r as int];
        assert(rt == self.robots@[r as int]@);
        let t: Pico = self.t;
        let dt: Pico = self.options.dt;
        let ghost g = rt.gait->0;
        let ghost pv = g.plan->0;
        let mut q: Vec<Pico> = Vec::new();
        let mut owned: Vec<usize> = Vec::new();
        let mut rest: Vec<Pico> = Vec::new();
        let mut settles: bool = false;
        let mut sways: bool = false;
        match &self.robots[r].gait {
            Some(gait) => match &gait.plan {
                Some(plan) => {
                    settles = t as i128 >= plan.done as i128 - NANO as i128;
                    sways = plan.sway.is_some();
                    if !settles {
                        match self.short_error(r, reply) {
                            Some(e) => {
                                return Err(e);
                            },
                            None => {},
                        }
                    }
                    q = self.stride_to(r, plan, reply);
                    owned = copied(&plan.owned);
                    rest = copied(&plan.rest);
                },
                None => {},
            },
            None => {},
        }
        proof {
            lemma_strided_to_len(v, r as int, pv, *reply);
            lemma_same_robots(v);
        }
        let previous: Vec<Pico> = copied(&self.robots[r].q);
        let mut velocity: Vec<Pico> = rate_list(&q, &previous, dt);
        if settles {
            let still_rates: Vec<Pico> = zero_vec(velocity.len());
            pin_vec(&mut velocity, &owned, &still_rates);
        }
        self.bases.set(r, reply.base);
        self.robots[r].q = copied(&q);
        self.robots[r].bake.append_waypoint(t, q, velocity);
        if settles {
            let robot: &mut RobotRuntime = &mut self.robots[r];
            match &mut robot.active {
                Some(active) => {
                    active.pin_joints(&owned, &rest);
                    robot.bake.rebake_tail(active, t);
                },
                None => {},
            }
        }
        match &mut self.robots[r].gait {
            Some(gait) => {
                gait.sway = if settles || !sways {
                    identity()
                } else {
                    reply.sway
                };
                gait.pitch = reply.pitch;
                gait.rise = reply.rise;
                if settles {
                    gait.plan = None;
                }
            },
            None => {},
        }
        proof {
            let want = v.strided(r as int, *reply)->Leads_0;
            assert(self.robots@[r as int]@ =~= want.robots[r as int]);
            assert(self@.robots =~= want.robots);
            assert(self@ =~= want);
            lemma_kept_sound(v, self@);
        }
        Ok(())
    }

    /// One tick of every walking robot's legs, in scene order. The legs move
    /// the body, and it takes what it carries with it.
    pub fn advance_gaits(&mut self, replies: &Vec<Option<StrideReply>>) -> (out: Result<
        (),
        SeqError,
    >)
        requires
            old(self)@.sound(),
            old(self)@.strides_answered(replies@),
        ensures
            answers(
                out,
                final(self)@,
                old(self)@.all_walked(replies@, old(self).robots@.len()),
            ),
            out is Ok ==> final(self)@.sound(),
    {
        let ghost v = self@;
        let n: usize = self.robots.len();
        let mut r: usize = 0;
        while r < n
            invariant
                r <= n,
                n == self.robots@.len(),
                n == v.robots.len(),
                v == old(self)@,
                self@.sound(),
                v.strides_answered(replies@),
                self@ == (RolloutView {
                    robots: self@.robots,
                    bases: self@.bases,
                    obstacles: self@.obstacles,
                    ..v
                }),
                forall|k: int| r <= k < n ==> (#[trigger] self@.robots[k]) == v.robots[k],
                v.all_walked(replies@, r as nat) == Fired::Leads(self@),
            decreases n - r,
        {
            assert(self@.robots[r as int] == v.robots[r as int]);
            assert(self@.robots[r as int] == self.robots@[r as int]@);
            let walking: bool = match &self.robots[r].gait {
                Some(gait) => gait.plan.is_some(),
                None => false,
            };
            if walking {
                assert(replies@[r as int] matches Some(reply) && v.stride_fits(r as int, reply));
                assert(self@.gait_of(r as int) == v.gait_of(r as int));
                match &replies[r] {
                    Some(reply) => {
                        match self.gait_tick(r, reply) {
                            Ok(_) => {
                                self.place_carried(r, &reply.load);
                            },
                            Err(e) => {
                                proof {
                                    lemma_walked_fail(
                                        v,
                                        replies@,
                                        (r + 1) as nat,
                                        v.robots.len(),
                                    );
                                }
                                return Err(e);
                            },
                        }
                    },
                    None => {},
                }
            }
            r = r + 1;
        }
        Ok(())
    }
}

proof fn lemma_walked_fail(v: RolloutView, replies: Seq<Option<StrideReply>>, k: nat, n: nat)
    requires
        k <= n,
        v.all_walked(replies, k) is Fails,
    ensures
        v.all_walked(replies, n) == v.all_walked(replies, k),
    decreases n - k,
{
    if k < n {
        lemma_walked_fail(v, replies, k, (n - 1) as nat);
    }
}

/// A leg falls short where its solve did not converge and ended more than a tenth of a
/// millimetre or a thousandth of a radian off; a foot in the air whose sole need only be
/// level is let be.
pub proof fn law_a_leg_falls_short_where_it_misses_its_footfall(leg: LegReply)
    ensures
        leg.converged ==> !falls_short(leg),
        leg.airborne && leg.level_only ==> !falls_short(leg),
        !leg.converged && (!leg.airborne || !leg.level_only) ==> (falls_short(leg) <==> leg.pos_error
            > 100_000_000 || leg.rot_error > 1_000_000_000),
{
}

/// The first leg that falls short is the one that a walk fails on.
pub proof fn law_the_first_short_leg_is_named(legs: Seq<LegReply>, from: int, i: int)
    requires
        0 <= from,
    ensures
        from <= i < legs.len() && falls_short(legs[i]) && (forall|k: int|
            from <= k < i ==> !falls_short(#[trigger] legs[k])) ==> short_leg(legs, from) == Some(i),
        (forall|k: int| from <= k < legs.len() ==> !falls_short(#[trigger] legs[k])) ==> short_leg(
            legs,
            from,
        ) is None,
    decreases legs.len() - from,
{
    if from < legs.len() {
        let here = legs[from];
        law_the_first_short_leg_is_named(legs, from + 1, i);
    }
}

/// A swinging joint is off its centre by the share of its amplitude that the wave gives,
/// out of 10^12 and rounded down; without a wave it is at its centre.
pub proof fn law_a_swing_is_about_its_centre(s: ArmSwing, wave: Pico)
    requires
        crate::fixed::roomy_part(s.center as int, s.amplitude as int, wave as int),
    ensures
        swung_to(s, None) == s.center,
        0 <= s.amplitude * wave - 1_000_000_000_000 * (swung_to(s, Some(wave)) - s.center)
            < 1_000_000_000_000,
{
    crate::fixed::law_quotients_are_rounded_down(s.amplitude as int, wave as int, UNIT as int);
}

/// Each leg's joints take what was solved for the leg, or its stance where the walk
/// settles, and no other joint changes with it.
pub proof fn law_a_leg_takes_its_own_joints(
    q: Seq<Pico>,
    legs: Seq<GaitLeg>,
    replies: Seq<LegReply>,
    rest: Seq<Pico>,
    n: nat,
    i: int,
)
    requires
        n < legs.len(),
        0 <= i < q.len(),
        i <= usize::MAX,
        legs_solved(q, legs, replies, n).len() == replies[n as int].q@.len(),
        legs_solved(q, legs, replies, n).len() == q.len(),
        legs_rested(q, legs, rest, n).len() == q.len(),
        rest.len() == q.len(),
    ensures
        legs_solved(q, legs, replies, 0) == q,
        legs_rested(q, legs, rest, 0) == q,
        ({
            let owns = exists|k: int|
                0 <= k < legs[n as int].joints@.len() && #[trigger] legs[n as int].joints@[k] == i;
            let solved = legs_solved(q, legs, replies, n + 1);
            let rested = legs_rested(q, legs, rest, n + 1);
            &&& owns ==> solved[i] == replies[n as int].q@[i] && rested[i] == rest[i]
            &&& !owns ==> solved[i] == legs_solved(q, legs, replies, n)[i] && rested[i]
                == legs_rested(q, legs, rest, n)[i]
        }),
{
    crate::motion::law_pinned_joints_take_their_values(
        legs_solved(q, legs, replies, n),
        legs[n as int].joints@,
        replies[n as int].q@,
        i,
    );
    crate::motion::law_pinned_joints_take_their_values(
        legs_rested(q, legs, rest, n),
        legs[n as int].joints@,
        rest,
        i,
    );
}

/// A walk goes on until its last foot has settled, 10^-9 s of slack included; then it is
/// over and the machine stands. Its base is where the ride puts it, and a leg that falls
/// short before that fails the run. No other robot is concerned.
pub proof fn law_a_walk_ends_when_its_last_foot_settles(
    v: RolloutView,
    r: int,
    reply: StrideReply,
    s: int,
)
    requires
        0 <= r < v.robots.len(),
        0 <= s < v.robots.len(),
        r < v.bases.len(),
        s < v.bases.len(),
        v.robots[r].gait matches Some(g) && g.plan is Some,
    ensures
        ({
            let plan = (v.robots[r].gait->0).plan->0;
            let settles = plan.done - v.t <= 1_000;
            &&& !settles && short_leg(reply.legs@, 0) is Some ==> (v.strided(r, reply) matches Fired::Fails(
                e,
            ) && (e matches ErrorView::GaitReach { t, .. } && t == v.t))
            &&& settles || short_leg(reply.legs@, 0) is None ==> (v.strided(r, reply) matches Fired::Leads(
                w,
            ) && {
                let g = w.robots[r].gait;
                &&& g is Some
                &&& settles ==> (g->0).plan is None
                &&& !settles ==> (g->0).plan == Some(plan)
                &&& (g->0).pitch == reply.pitch
                &&& (g->0).rise == reply.rise
                &&& w.bases[r] == reply.base
                &&& w.robots[r].q == v.strided_to(r, plan, reply)
                &&& s != r ==> w.robots[s] == v.robots[s] && w.bases[s] == v.bases[s]
            })
        }),
{
}

} // verus!
