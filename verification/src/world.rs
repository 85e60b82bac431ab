//! Advancing the world by one scan period, phase by phase.

use vstd::prelude::*;

use crate::devices::{Device, DeviceRuntime, DeviceView, StateView};
use crate::error::{ErrorView, SeqError};
use crate::fire::{answers, Fired};
use crate::fixed::{clip, clipped, minus, muldiv, plus, scaled, Pico, Pose, MICRO, NANO, UNIT};
use crate::motion::{with_waypoint, WaypointView};
use crate::names::{contains_name, find, find_named, holds_name, names_of, same};
use crate::robots::{robot_sound, LatchView, RobotRuntime, RobotView, SpinView};
use crate::rollout::{MovingView, Rollout, RolloutView};
use crate::scene::{body_index, find_body, Obstacle};
use crate::setup::lemma_kept_sound;
use crate::text::{cat3, cat7, decimal, decimal_places, decimal_text, places_text};
use crate::lanes::lemma_set_all_shape;
use crate::supply::{
    fed_line, feed_from_sources, lemma_fed_devices, lemma_restocked_devices, line_of, restocked,
    return_to_magazines, Line,
};
use crate::tick::{
    apply_moved, apply_shifts, devices_ticked, lemma_moved_exist, lemma_shifts_refer,
    lemma_tick_refers, lemma_ticked_sound, of_vehicles, tick_devices, ticks_of, with_moved,
    with_shifts, Bodies, Moved, Returned, Surroundings, Tick, TickView,
};
use crate::tracks::{
    open_index, opened, overdue, respanned, track_names, ObjectTrack, TrackSpan, TrackView, Tracks,
};
use crate::views::{copied, copied_names, views};

verus! {

/// What a joint does per second between two configurations `dt` apart.
pub open spec fn rates(now: Seq<Pico>, before: Seq<Pico>, dt: Pico) -> Seq<Pico> {
    Seq::new(
        now.len(),
        |i: int| clip(muldiv(now[i] - before[i], UNIT as int, dt as int)),
    )
}

/// The rates between two configurations `dt` apart.
pub fn rate_list(now: &Vec<Pico>, before: &Vec<Pico>, dt: Pico) -> (r: Vec<Pico>)
    requires
        dt > 0,
        before@.len() == now@.len(),
    ensures
        r@ == rates(now@, before@, dt),
{
    let mut out: Vec<Pico> = Vec::new();
    let mut i: usize = 0;
    while i < now.len()
        invariant
            i <= now.len(),
            dt > 0,
            before@.len() == now@.len(),
            out@ == rates(now@, before@, dt).take(i as int),
        decreases now.len() - i,
    {
        let d: i128 = now[i] as i128 - before[i] as i128;
        assert(-0x1_0000_0000_0000_0000 * UNIT <= d * UNIT <= 0x1_0000_0000_0000_0000 * UNIT)
            by (nonlinear_arith)
            requires
                -0x1_0000_0000_0000_0000 <= d <= 0x1_0000_0000_0000_0000,
                UNIT == 1_000_000_000_000i64,
        ;
        out.push(clipped(crate::fixed::floor_div(d * UNIT as i128, dt as i128)));
        i = i + 1;
        assert(out@ =~= rates(now@, before@, dt).take(i as int));
    }
    assert(out@ =~= rates(now@, before@, dt));
    out
}

impl RolloutView {
    /// Every robot's joints follow its move in flight.
    pub open spec fn joints_advanced(self, samples: Seq<Seq<Pico>>) -> RolloutView {
        RolloutView {
            robots: Seq::new(
                self.robots.len(),
                |r: int| self.robots[r].followed(self.t, samples[r]),
            ),
            ..self
        }
    }

    /// There is a sample of the right size for every robot.
    pub open spec fn sampled(self, samples: Seq<Seq<Pico>>) -> bool {
        samples.len() == self.robots.len() && forall|r: int|
            0 <= r < samples.len() ==> (#[trigger] samples[r]).len() == self.robots[r].q.len()
    }
}

impl<'a> Rollout<'a> {
    /// Joints follow each robot's motion or ramp, in scene order. `samples[r]`
    /// is what robot `r`'s planned trajectory gives at this instant; it is not
    /// looked at where the robot makes none.
    pub fn advance_joints(&mut self, samples: &Vec<Vec<Pico>>)
        requires
            old(self)@.sound(),
            old(self)@.sampled(views(samples@)),
        ensures
            final(self)@ == old(self)@.joints_advanced(views(samples@)),
            final(self)@.sound(),
    {
        let ghost v = self@;
        let ghost all = views(samples@);
        let ghost want = v.joints_advanced(all);
        let t: Pico = self.t;
        let n: usize = self.robots.len();
        let mut r: usize = 0;
        while r < n
            invariant
                r <= n,
                n == self.robots@.len(),
                n == v.robots.len(),
                samples@.len() == n,
                all == views(samples@),
                want == v.joints_advanced(all),
                t == v.t,
                self@ == (RolloutView { robots: self@.robots, ..v }),
                forall|k: int| 0 <= k < r ==> (#[trigger] self.robots@[k])@ == want.robots[k],
                forall|k: int| r <= k < n ==> (#[trigger] self.robots@[k])@ == v.robots[k],
            decreases n - r,
        {
            let ghost before = self@;
            assert(self.robots@[r as int]@ == v.robots[r as int]);
            assert(all[r as int] == samples@[r as int]@);
            self.robots[r].follow(t, &samples[r]);
            assert(self@ =~= (RolloutView { robots: self@.robots, ..v }));
            r = r + 1;
        }
        assert(self@.robots =~= want.robots);
        assert(self@ =~= want);
        proof {
            assert forall|k: int| 0 <= k < v.robots.len() implies robot_sound(
                #[trigger] self@.robots[k],
                v.robots[k].q.len(),
            ) by {
                assert(robot_sound(v.robots[k], v.scene.robots@[k].q@.len()));
                assert(all[k].len() == v.robots[k].q.len());
            }
            lemma_kept_sound(v, self@);
        }
    }
}

/// Whether a spinning mount's vehicle is off its ground or moving.
pub open spec fn flying(devices: Seq<DeviceView>, spin: SpinView) -> bool {
    exists|d: int|
        0 <= d < devices.len() && (#[trigger] devices[d]).name@ == spin.device
            && (devices[d].state matches StateView::Vehicle(v) && (v.legs.len() > 0
            || v.position.z > spin.ground + MICRO))
}

/// A configuration after its spinning joints have turned for `dt`.
pub open spec fn spun(q: Seq<Pico>, joints: Seq<(usize, Pico)>, dt: Pico) -> Seq<Pico>
    decreases joints.len(),
{
    if joints.len() == 0 {
        q
    } else {
        let less = spun(q, joints.drop_last(), dt);
        let (joint, rate) = joints.last();
        less.update(
            joint as int,
            clip(less[joint as int] + clip(muldiv(rate as int, dt as int, UNIT as int))),
        )
    }
}

/// A robot after a tick of its propellers: nothing where its vehicle is on
/// the ground, or where a move's pre-baked future owns the track.
pub open spec fn spin_ticked(
    rt: RobotView,
    devices: Seq<DeviceView>,
    t: Pico,
    dt: Pico,
) -> RobotView {
    match rt.spin {
        None => rt,
        Some(spin) => if !flying(devices, spin) || (rt.bake.len() > 0 && rt.bake.last().t > t
            + NANO) {
            rt
        } else {
            let q = spun(rt.q, spin.joints, dt);
            RobotView {
                q,
                bake: with_waypoint(
                    rt.bake,
                    WaypointView { t, q, v: crate::views::zeros(q.len()) },
                ),
                ..rt
            }
        },
    }
}

proof fn lemma_spun_len(q: Seq<Pico>, joints: Seq<(usize, Pico)>, dt: Pico)
    requires
        forall|i: int| 0 <= i < joints.len() ==> (#[trigger] joints[i]).0 < q.len(),
    ensures
        spun(q, joints, dt).len() == q.len(),
    decreases joints.len(),
{
    if joints.len() > 0 {
        assert(joints.last() == joints[joints.len() - 1]);
        assert forall|i: int| 0 <= i < joints.drop_last().len() implies (
        #[trigger] joints.drop_last()[i]).0 < q.len() by {
            assert(joints.drop_last()[i] == joints[i]);
        }
        lemma_spun_len(q, joints.drop_last(), dt);
    }
}

fn is_flying(devices: &Vec<Device>, device: &str, ground: Pico) -> (r: bool)
    ensures
        r == flying(
            views(devices@),
            SpinView { device: device@, ground, joints: Seq::empty() },
        ),
{
    let ghost spin = SpinView { device: device@, ground, joints: Seq::empty() };
    let ghost all = views(devices@);
    let mut d: usize = 0;
    while d < devices.len()
        invariant
            d <= devices.len(),
            all == views(devices@),
            spin == (SpinView { device: device@, ground, joints: Seq::empty() }),
            forall|k: int|
                0 <= k < d ==> !((#[trigger] all[k]).name@ == spin.device && (
                all[k].state matches StateView::Vehicle(v) && (v.legs.len() > 0 || v.position.z
                    > spin.ground + MICRO))),
        decreases devices.len() - d,
    {
        assert(all[d as int] == devices@[d as int]@);
        match &devices[d].state {
            DeviceRuntime::Vehicle(v) => {
                if same(devices[d].name.as_str(), device) && (v.legs.len() > 0
                    || v.position.z as i128 > ground as i128 + MICRO as i128) {
                    assert(all[d as int].name@ == spin.device);
                    return true;
                }
            },
            _ => {},
        }
        d = d + 1;
    }
    false
}

impl RobotRuntime {
    fn spin_tick(&mut self, devices: &Vec<Device>, t: Pico, dt: Pico)
        requires
            robot_sound(old(self)@, old(self)@.q.len()),
        ensures
            final(self)@ == spin_ticked(old(self)@, views(devices@), t, dt),
            final(self)@.q.len() == old(self)@.q.len(),
    {
        let ghost rt = self@;
        let ghost want = spin_ticked(rt, views(devices@), t, dt);
        let mut q: Vec<Pico> = copied(&self.q);
        match &self.spin {
            None => {
                return;
            },
            Some(spin) => {
                let ghost sv = spin@;
                proof {
                    let bare = SpinView { device: sv.device, ground: sv.ground, joints: Seq::empty() };
                    assert(flying(views(devices@), sv) == flying(views(devices@), bare));
                }
                if !is_flying(devices, spin.device.as_str(), spin.ground) {
                    return;
                }
                match self.bake.last() {
                    Some(last) => {
                        if last as i128 > t as i128 + NANO as i128 {
                            return;
                        }
                    },
                    None => {},
                }
                let mut i: usize = 0;
                assert(spin.joints@.take(0) =~= Seq::<(usize, Pico)>::empty());
                while i < spin.joints.len()
                    invariant
                        i <= spin.joints.len(),
                        sv == spin@,
                        forall|k: int|
                            0 <= k < sv.joints.len() ==> (#[trigger] sv.joints[k]).0 < rt.q.len(),
                        q@ == spun(rt.q, sv.joints.take(i as int), dt),
                        q@.len() == rt.q.len(),
                    decreases spin.joints.len() - i,
                {
                    assert(sv.joints.take(i + 1).drop_last() =~= sv.joints.take(i as int));
                    assert(sv.joints[i as int].0 < rt.q.len());
                    let (joint, rate): (usize, Pico) = spin.joints[i];
                    let turned: Pico = plus(q[joint], scaled(rate, dt, UNIT as i128));
                    q.set(joint, turned);
                    i = i + 1;
                }
                assert(sv.joints.take(i as int) =~= sv.joints);
            },
        }
        self.q = copied(&q);
        let still: Vec<Pico> = crate::views::zero_vec(q.len());
        self.bake.append_waypoint(t, q, still);
        assert(self@ =~= want);
    }
}

impl RolloutView {
    /// One tick of every spinning mount.
    pub open spec fn spins_advanced(self) -> RolloutView {
        RolloutView {
            robots: Seq::new(
                self.robots.len(),
                |r: int| spin_ticked(self.robots[r], self.devices, self.t, self.options.dt),
            ),
            ..self
        }
    }
}

impl<'a> Rollout<'a> {
    /// One tick of every spinning mount: the propellers of a machine whose
    /// vehicle is off its starting ground, or moving at all.
    pub fn advance_spins(&mut self)
        requires
            old(self)@.sound(),
        ensures
            final(self)@ == old(self)@.spins_advanced(),
            final(self)@.sound(),
    {
        let ghost v = self@;
        let ghost want = v.spins_advanced();
        let t: Pico = self.t;
        let dt: Pico = self.options.dt;
        let n: usize = self.robots.len();
        let mut r: usize = 0;
        while r < n
            invariant
                r <= n,
                n == self.robots@.len(),
                n == v.robots.len(),
                v.sound(),
                want == v.spins_advanced(),
                t == v.t,
                dt == v.options.dt,
                self@ == (RolloutView { robots: self@.robots, ..v }),
                forall|k: int| 0 <= k < r ==> (#[trigger] self.robots@[k])@ == want.robots[k],
                forall|k: int| r <= k < n ==> (#[trigger] self.robots@[k])@ == v.robots[k],
            decreases n - r,
        {
            assert(self.robots@[r as int]@ == v.robots[r as int]);
            assert(robot_sound(v.robots[r as int], v.scene.robots@[r as int].q@.len()));
            assert(views(self.devices@) == v.devices);
            self.robots[r].spin_tick(&self.devices, t, dt);
            assert(self@ =~= (RolloutView { robots: self@.robots, ..v }));
            r = r + 1;
        }
        assert(self@.robots =~= want.robots);
        assert(self@ =~= want);
        proof {
            assert forall|k: int| 0 <= k < v.robots.len() implies robot_sound(
                #[trigger] self@.robots[k],
                v.robots[k].q.len(),
            ) by {
                assert(robot_sound(v.robots[k], v.scene.robots@[k].q@.len()));
                match v.robots[k].spin {
                    Some(s) => {
                        lemma_spun_len(v.robots[k].q, s.joints, dt);
                    },
                    None => {},
                }
            }
            lemma_kept_sound(v, self@);
        }
    }
}

/// What solving a tracked robot's pose gave.
#[derive(Debug)]
pub struct TrackReply {
    /// The part's rigid motion since the latch.
    pub offset: Pose,
    pub q: Vec<Pico>,
    pub converged: bool,
    pub pos_error: Pico,
    pub rot_error: Pico,
    pub iters: usize,
}

/// The message of a part that ran out of reach.
pub open spec fn out_of_reach(object: Seq<char>, t: Pico, reply: TrackReply) -> Seq<char> {
    "tracking `"@ + object + "`: the part ran out of reach at t = "@ + decimal_places(t as int, 2)
        + "s ("@ + decimal_places(clip(reply.pos_error * 1000) as int, 3) + " mm / "@
        + decimal_places(reply.rot_error as int, 4) + " rad short after "@ + decimal(
        reply.iters as nat,
    ) + " iterations)"@
}

/// Where the solve of a tracked pose starts: what the robot did last tick
/// plus this tick's nominal increment.
pub open spec fn track_seed_of(rt: RobotView) -> Seq<Pico> {
    Seq::new(
        rt.q.len(),
        |i: int| clip(rt.q[i] + clip(rt.q_nom[i] - rt.q_nom_prev[i])),
    )
}

impl RobotRuntime {
    /// Where the solve of a tracked pose starts.
    pub fn track_seed(&self) -> (r: Vec<Pico>)
        requires
            self.q_nom@.len() == self.q@.len(),
            self.q_nom_prev@.len() == self.q@.len(),
        ensures
            r@ == track_seed_of(self@),
    {
        let mut out: Vec<Pico> = Vec::new();
        let mut i: usize = 0;
        while i < self.q.len()
            invariant
                i <= self.q.len(),
                self.q_nom@.len() == self.q@.len(),
                self.q_nom_prev@.len() == self.q@.len(),
                out@ == track_seed_of(self@).take(i as int),
            decreases self.q.len() - i,
        {
            out.push(plus(self.q[i], minus(self.q_nom[i], self.q_nom_prev[i])));
            i = i + 1;
            assert(out@ =~= track_seed_of(self@).take(i as int));
        }
        assert(out@ =~= track_seed_of(self@));
        out
    }
}

impl RolloutView {
    /// Robot `r` follows its tracked part: it takes the solved configuration,
    /// and the tick bakes itself. A failure is pinned on the program that
    /// latched the track.
    pub open spec fn following(self, r: int, reply: TrackReply) -> Fired {
        let rt = self.robots[r];
        match rt.tracking {
            None => Fired::Leads(self),
            Some(latch) => {
                let u = RolloutView { current: latch.program, ..self };
                let offset = if latch.frozen {
                    latch.offset
                } else {
                    reply.offset
                };
                if !latch.frozen && body_index(self.obstacles, latch.object) is None {
                    Fired::Fails(
                        u.action_error("tracked obstacle `"@ + latch.object + "` disappeared"@),
                    )
                } else if !reply.converged {
                    Fired::Fails(u.action_error(out_of_reach(latch.object, self.t, reply)))
                } else {
                    Fired::Leads(
                        u.with_robot(
                            r,
                            RobotView {
                                tracking: Some(LatchView { offset, ..latch }),
                                q: reply.q@,
                                q_nom_prev: rt.q_nom,
                                bake: with_waypoint(
                                    rt.bake,
                                    WaypointView {
                                        t: self.t,
                                        q: reply.q@,
                                        v: rates(reply.q@, rt.q, self.options.dt),
                                    },
                                ),
                                ..rt
                            },
                        ),
                    )
                }
            },
        }
    }

    /// The first `n` robots follow their tracked parts, in scene order.
    pub open spec fn all_tracked(self, replies: Seq<TrackReply>, n: nat) -> Fired
        decreases n,
    {
        if n == 0 {
            Fired::Leads(self)
        } else {
            match self.all_tracked(replies, (n - 1) as nat) {
                Fired::Fails(e) => Fired::Fails(e),
                Fired::Leads(v) => v.following(n - 1, replies[n - 1]),
            }
        }
    }

    /// There is a solve of the right size for every robot.
    pub open spec fn tracks_answered(self, replies: Seq<TrackReply>) -> bool {
        replies.len() == self.robots.len() && forall|r: int|
            0 <= r < replies.len() ==> (#[trigger] replies[r]).q@.len() == self.robots[r].q.len()
    }
}

proof fn lemma_tracked_fail(v: RolloutView, replies: Seq<TrackReply>, k: nat, n: nat)
    requires
        k <= n,
        v.all_tracked(replies, k) is Fails,
    ensures
        v.all_tracked(replies, n) == v.all_tracked(replies, k),
    decreases n - k,
{
    if k < n {
        lemma_tracked_fail(v, replies, k, (n - 1) as nat);
    }
}

impl<'a> Rollout<'a> {
    /// Re-solves one latched arm so that its commanded pose is the nominal one
    /// carried by the part's motion since the latch.
    fn follow_tracked_part(&mut self, r: usize, reply: &TrackReply) -> (out: Result<(), SeqError>)
        requires
            old(self)@.sound(),
            r < old(self).robots@.len(),
            reply.q@.len() == old(self)@.robots[r as int].q.len(),
        ensures
            answers(out, final(self)@, old(self)@.following(r as int, *reply)),
            out is Ok ==> final(self)@.sound() && final(self)@ == (RolloutView {
                robots: final(self)@.robots,
                current: final(self)@.current,
                ..old(self)@
            }) && final(self)@.robots.len() == old(self)@.robots.len() && forall|k: int|
                0 <= k < old(self)@.robots.len() ==> (#[trigger] final(self)@.robots[k]).q.len()
                    == old(self)@.robots[k].q.len(),
    {
        let ghost v = self@;
        let ghost rt = v.robots[r as int];
        assert(rt == self.robots@[r as int]@);
        assert(robot_sound(rt, v.scene.robots@[r as int].q@.len()));
        let (object, frozen, kept_offset, program): (String, bool, Pose, usize) =
            match &self.robots[r].tracking {
            Some(latch) => (latch.object.clone(), latch.frozen, latch.offset, latch.program),
            None => {
                return Ok(());
            },
        };
        self.current = program;
        let ghost u = RolloutView { current: program, ..v };
        assert(self@ =~= u);
        if !frozen && find_body(&self.obstacles, object.as_str()).is_none() {
            return Err(
                self.action_error(cat3("tracked obstacle `", object.as_str(), "` disappeared")),
            );
        }
        if !reply.converged {
            let mm: Pico = clipped(reply.pos_error as i128 * 1000);
            let mut message: String = cat7(
                "tracking `",
                object.as_str(),
                "`: the part ran out of reach at t = ",
                places_text(self.t, 2).as_str(),
                "s (",
                places_text(mm, 3).as_str(),
                " mm / ",
            );
            message.append(places_text(reply.rot_error, 4).as_str());
            message.append(" rad short after ");
            message.append(decimal_text(reply.iters as u64).as_str());
            message.append(" iterations)");
            return Err(self.action_error(message));
        }
        let offset: Pose = if frozen {
            kept_offset
        } else {
            reply.offset
        };
        match &mut self.robots[r].tracking {
            Some(latch) => {
                latch.offset = offset;
            },
            None => {},
        }
        let t: Pico = self.t;
        let dt: Pico = self.options.dt;
        let previous: Vec<Pico> = copied(&self.robots[r].q);
        let velocity: Vec<Pico> = rate_list(&reply.q, &previous, dt);
        let nominal: Vec<Pico> = copied(&self.robots[r].q_nom);
        self.robots[r].q = copied(&reply.q);
        self.robots[r].q_nom_prev = nominal;
        self.robots[r].bake.append_waypoint(t, copied(&reply.q), velocity);
        proof {
            let want = v.following(r as int, *reply)->Leads_0;
            assert(self.robots@[r as int]@ =~= want.robots[r as int]);
            assert(self@.robots =~= want.robots);
            assert(self@ =~= want);
            assert forall|k: int| 0 <= k < v.robots.len() implies robot_sound(
                #[trigger] self@.robots[k],
                v.robots[k].q.len(),
            ) by {
                assert(robot_sound(v.robots[k], v.scene.robots@[k].q@.len()));
            }
            lemma_kept_sound(v, self@);
        }
        Ok(())
    }

    /// Conveyor tracking: every latched arm follows its part, in scene order.
    pub fn follow_tracked_parts(&mut self, replies: &Vec<TrackReply>) -> (out: Result<(), SeqError>)
        requires
            old(self)@.sound(),
            old(self)@.tracks_answered(replies@),
        ensures
            answers(
                out,
                final(self)@,
                old(self)@.all_tracked(replies@, old(self).robots@.len()),
            ),
            out is Ok ==> final(self)@.sound(),
    {
        let ghost v = self@;
        let n: usize = self.robots.len();
        let mut r: usize = 0;
        while r < n
            invariant
                r <= n,
                n == self.robots@.len(),
                n == v.robots.len(),
                v == old(self)@,
                self@.sound(),
                v.tracks_answered(replies@),
                self@ == (RolloutView { robots: self@.robots, current: self@.current, ..v }),
                forall|k: int|
                    0 <= k < v.robots.len() ==> (#[trigger] self@.robots[k]).q.len()
                        == v.robots[k].q.len(),
                v.all_tracked(replies@, r as nat) == Fired::Leads(self@),
            decreases n - r,
        {
            assert(replies@[r as int].q@.len() == v.robots[r as int].q.len());
            assert(self@.robots[r as int].q.len() == v.robots[r as int].q.len());
            match self.follow_tracked_part(r, &replies[r]) {
                Ok(_) => {},
                Err(e) => {
                    proof {
                        lemma_tracked_fail(v, replies@, (r + 1) as nat, v.robots.len());
                    }
                    return Err(e);
                },
            }
            r = r + 1;
        }
        Ok(())
    }
}

/// What two bodies meet with.
#[derive(Clone, Copy, Debug, PartialEq, Eq, Structural)]
pub enum ColliderId {
    Link { robot: usize, link: usize },
    Obstacle(usize),
}

impl RolloutView {
    /// Which robot a collider belongs to, and what it is called: a robot's
    /// own link, or a body that a robot holds.
    pub open spec fn side(self, id: ColliderId) -> Option<(usize, Seq<char>)> {
        match id {
            ColliderId::Link { robot, link } => Some(
                (robot, self.scene.robots@[robot as int].links@[link as int]@),
            ),
            ColliderId::Obstacle(k) => {
                let name = self.obstacles[k as int].name@;
                match find(names_of(self.attachments), name) {
                    Some(a) => Some((self.attachments[a].robot, name)),
                    None => None,
                }
            },
        }
    }

    /// What a contact between two robots is reported as.
    pub open spec fn contact(self, pair: (ColliderId, ColliderId)) -> Option<ErrorView> {
        match (self.side(pair.0), self.side(pair.1)) {
            (Some((a, link_a)), Some((b, link_b))) => if a != b {
                Some(
                    ErrorView::RobotCollision {
                        t: self.t,
                        a: self.scene.robots@[a as int].name@,
                        b: self.scene.robots@[b as int].name@,
                        link_a,
                        link_b,
                    },
                )
            } else {
                None
            },
            _ => None,
        }
    }

    /// The first contact between two robots, from pair `from` on.
    pub open spec fn first_contact(self, pairs: Seq<(ColliderId, ColliderId)>, from: int) -> Option<
        ErrorView,
    >
        decreases pairs.len() - from,
    {
        if from < 0 || from >= pairs.len() {
            None
        } else {
            match self.contact(pairs[from]) {
                Some(e) => Some(e),
                None => self.first_contact(pairs, from + 1),
            }
        }
    }

    /// What is wrong with where the robots are: two of them, or what they
    /// hold, touch.
    pub open spec fn robots_meet(self, pairs: Seq<(ColliderId, ColliderId)>) -> Option<ErrorView> {
        if self.scene.robots@.len() < 2 {
            None
        } else {
            self.first_contact(pairs, 0)
        }
    }

    /// A collider that is there.
    pub open spec fn exists_collider(self, id: ColliderId) -> bool {
        match id {
            ColliderId::Link { robot, link } => robot < self.scene.robots@.len() && link
                < self.scene.robots@[robot as int].links@.len(),
            ColliderId::Obstacle(k) => k < self.obstacles.len(),
        }
    }
}

impl<'a> Rollout<'a> {
    fn side(&self, id: ColliderId) -> (r: Option<(usize, String)>)
        requires
            self@.sound(),
            self@.exists_collider(id),
        ensures
            match (r, self@.side(id)) {
                (Some((robot, name)), Some((want, text))) => robot == want && name@ == text
                    && robot < self.scene.robots@.len(),
                (None, None) => true,
                _ => false,
            },
    {
        match id {
            ColliderId::Link { robot, link } => Some(
                (robot, self.scene.robots[robot].links[link].clone()),
            ),
            ColliderId::Obstacle(k) => match find_named(
                &self.attachments,
                self.obstacles[k].name.as_str(),
            ) {
                Some(a) => {
                    assert(self@.attachments[a as int].robot < self@.robots.len());
                    Some((self.attachments[a].robot, self.obstacles[k].name.clone()))
                },
                None => None,
            },
        }
    }

    /// After every robot advanced: no two robots, or the objects they carry,
    /// may touch. `pairs` are the contacts that the geometry found.
    pub fn check_robot_collisions(&self, pairs: &Vec<(ColliderId, ColliderId)>) -> (r: Result<
        (),
        SeqError,
    >)
        requires
            self@.sound(),
            forall|i: int|
                0 <= i < pairs@.len() ==> self@.exists_collider((#[trigger] pairs@[i]).0)
                    && self@.exists_collider(pairs@[i].1),
        ensures
            match r {
                Ok(_) => self@.robots_meet(pairs@) is None,
                Err(e) => self@.robots_meet(pairs@) == Some(e@),
            },
    {
        if self.scene.robots.len() < 2 {
            return Ok(());
        }
        let mut i: usize = 0;
        while i < pairs.len()
            invariant
                i <= pairs.len(),
                self@.sound(),
                self.scene.robots@.len() >= 2,
                forall|k: int|
                    0 <= k < pairs@.len() ==> self@.exists_collider((#[trigger] pairs@[k]).0)
                        && self@.exists_collider(pairs@[k].1),
                self@.first_contact(pairs@, 0) == self@.first_contact(pairs@, i as int),
            decreases pairs.len() - i,
        {
            let pair: (ColliderId, ColliderId) = pairs[i];
            assert(self@.exists_collider(pairs@[i as int].0));
            match (self.side(pair.0), self.side(pair.1)) {
                (Some((a, link_a)), Some((b, link_b))) => {
                    if a != b {
                        return Err(
                            SeqError::RobotCollision {
                                t: self.t,
                                a: self.scene.robots[a].name.clone(),
                                b: self.scene.robots[b].name.clone(),
                                link_a,
                                link_b,
                            },
                        );
                    }
                },
                _ => {},
            }
            i = i + 1;
        }
        Ok(())
    }
}

/// The names of the walkable bodies among the first `n`.
pub open spec fn walkable_names(obstacles: Seq<Obstacle>, n: nat) -> Seq<String>
    decreases n,
{
    if n == 0 {
        Seq::empty()
    } else {
        let less = walkable_names(obstacles, (n - 1) as nat);
        if obstacles[n - 1].walkable {
            less.push(obstacles[n - 1].name)
        } else {
            less
        }
    }
}

impl RolloutView {
    /// What a robot that rides a moving vehicle is not checked against: what
    /// the vehicle carries, and, for one that walks, what can be walked on.
    pub open spec fn rider_skips(self, m: int, r: int) -> Seq<String> {
        if self.robots[r].gait is Some {
            self.moving[m].carried + walkable_names(self.obstacles, self.obstacles.len())
        } else {
            self.moving[m].carried
        }
    }

    /// What is wrong with the riders of vehicle `m`, from robot `from` on.
    /// `touched[r]` is what robot `r` was found to touch: its part and the
    /// body.
    pub open spec fn rider_fault(
        self,
        m: int,
        touched: Seq<Option<(String, String)>>,
        from: int,
    ) -> Option<ErrorView>
        decreases self.scene.robots@.len() - from,
    {
        if from < 0 || from >= self.scene.robots@.len() {
            None
        } else {
            match touched[from] {
                Some((part, obstacle)) if self.rides(from, self.moving[m].vehicle@) => Some(
                    ErrorView::RiderCollision {
                        t: self.t,
                        vehicle: self.moving[m].vehicle@,
                        robot: self.scene.robots@[from].name@,
                        part: part@,
                        obstacle: obstacle@,
                    },
                ),
                _ => self.rider_fault(m, touched, from + 1),
            }
        }
    }

    /// What is wrong with the riders of the moving vehicles, from `from` on.
    pub open spec fn riders_fault(
        self,
        touched: Seq<Vec<Option<(String, String)>>>,
        from: int,
    ) -> Option<ErrorView>
        decreases self.moving.len() - from,
    {
        if from < 0 || from >= self.moving.len() {
            None
        } else {
            match self.rider_fault(from, touched[from]@, 0) {
                Some(e) => Some(e),
                None => self.riders_fault(touched, from + 1),
            }
        }
    }

    /// The riders' check: it fails, or nothing is moving any more.
    pub open spec fn riders_checked(self, touched: Seq<Vec<Option<(String, String)>>>) -> Fired {
        match self.riders_fault(touched, 0) {
            Some(e) => Fired::Fails(e),
            None => Fired::Leads(RolloutView { moving: Seq::empty(), ..self }),
        }
    }
}

impl<'a> Rollout<'a> {
    /// What robot `r`, riding moving vehicle `m`, is not checked against.
    pub fn rider_skip(&self, m: usize, r: usize) -> (s: Vec<String>)
        requires
            m < self.moving@.len(),
            r < self.robots@.len(),
        ensures
            s@ == self@.rider_skips(m as int, r as int),
    {
        assert(self@.moving[m as int] == self.moving@[m as int]@);
        assert(self@.robots[r as int] == self.robots@[r as int]@);
        let mut out: Vec<String> = copied_names(&self.moving[m].carried);
        if self.robots[r].gait.is_some() {
            let ghost carried = out@;
            let mut n: usize = 0;
            assert(out@ =~= carried + walkable_names(self.obstacles@, 0));
            while n < self.obstacles.len()
                invariant
                    n <= self.obstacles.len(),
                    out@ == carried + walkable_names(self.obstacles@, n as nat),
                decreases self.obstacles.len() - n,
            {
                let ghost less = walkable_names(self.obstacles@, n as nat);
                if self.obstacles[n].walkable {
                    out.push(self.obstacles[n].name.clone());
                    assert(out@ =~= carried + less.push(self.obstacles@[n as int].name));
                }
                n = n + 1;
            }
        }
        out
    }

    /// The riders' aisle check: a robot on a vehicle that moved this tick
    /// against everything the vehicle does not carry. `touched[m][r]` is the
    /// first contact of robot `r` outside what [`Rollout::rider_skip`] lists.
    pub fn check_rider_collisions(&mut self, touched: &Vec<Vec<Option<(String, String)>>>) -> (out:
        Result<(), SeqError>)
        requires
            old(self)@.sound(),
            touched@.len() == old(self).moving@.len(),
            forall|m: int|
                0 <= m < touched@.len() ==> (#[trigger] touched@[m])@.len() == old(
                    self,
                ).scene.robots@.len(),
        ensures
            answers(out, final(self)@, old(self)@.riders_checked(touched@)),
            out is Ok ==> final(self)@.sound(),
    {
        let ghost v = self@;
        let mut m: usize = 0;
        while m < self.moving.len()
            invariant
                m <= self.moving.len(),
                *self == *old(self),
                v == self@,
                touched@.len() == self.moving@.len(),
                forall|k: int|
                    0 <= k < touched@.len() ==> (#[trigger] touched@[k])@.len()
                        == self.scene.robots@.len(),
                v.riders_fault(touched@, 0) == v.riders_fault(touched@, m as int),
            decreases self.moving.len() - m,
        {
            assert(v.moving[m as int] == self.moving@[m as int]@);
            assert(touched@[m as int]@.len() == self.scene.robots@.len());
            let vehicle: &str = self.moving[m].vehicle.as_str();
            let mut r: usize = 0;
            while r < self.scene.robots.len()
                invariant
                    r <= self.scene.robots.len(),
                    m < self.moving@.len(),
                    *self == *old(self),
                    v == self@,
                    vehicle@ == v.moving[m as int].vehicle@,
                    touched@.len() == self.moving@.len(),
                    touched@[m as int]@.len() == self.scene.robots@.len(),
                    v.riders_fault(touched@, 0) == v.riders_fault(touched@, m as int),
                    v.rider_fault(m as int, touched@[m as int]@, 0) == v.rider_fault(
                        m as int,
                        touched@[m as int]@,
                        r as int,
                    ),
                decreases self.scene.robots.len() - r,
            {
                if self.rides(r, vehicle) {
                    match &touched[m][r] {
                        Some((part, obstacle)) => {
                            return Err(
                                SeqError::RiderCollision {
                                    t: self.t,
                                    vehicle: String::from_str(vehicle),
                                    robot: self.scene.robots[r].name.clone(),
                                    part: part.clone(),
                                    obstacle: obstacle.clone(),
                                },
                            );
                        },
                        None => {},
                    }
                }
                r = r + 1;
            }
            m = m + 1;
        }
        self.moving = Vec::new();
        assert(self@.moving =~= Seq::<MovingView>::empty());
        proof {
            lemma_kept_sound(v, self@);
        }
        Ok(())
    }
}

impl RolloutView {
    /// What the devices see at the start of a tick.
    pub open spec fn surroundings(self) -> Surroundings {
        Surroundings {
            obstacles: self.obstacles,
            attachments: self.attachments,
            dt: self.options.dt,
            t: self.t,
        }
    }

    /// What the devices do this tick, the lifts' rides among the moves.
    pub open spec fn tick(self, inside: Seq<Seq<bool>>) -> TickView {
        let tick = ticks_of(self.devices, inside, self.surroundings(), self.devices.len());
        TickView {
            moves: with_shifts(
                devices_ticked(self.devices, self.options.dt, self.t),
                tick.moves,
                tick.shifts,
                self.options.dt,
                self.t,
            ).1,
            ..tick
        }
    }

    /// The world after the devices' tick, before the vehicles' loads have
    /// followed them.
    pub open spec fn devices_advanced(self, inside: Seq<Seq<bool>>) -> RolloutView {
        let tick = ticks_of(self.devices, inside, self.surroundings(), self.devices.len());
        let b = with_moved(
            Bodies { obstacles: self.obstacles, tracks: self.objects },
            tick.moved,
            self.options.dt,
            self.t,
        );
        RolloutView {
            devices: with_shifts(
                devices_ticked(self.devices, self.options.dt, self.t),
                tick.moves,
                tick.shifts,
                self.options.dt,
                self.t,
            ).0,
            lanes: self.lanes.set_all(tick.lanes, self.t),
            obstacles: b.obstacles,
            objects: b.tracks,
            ..self
        }
    }

    /// There is a list of the bodies in its zone for every device.
    pub open spec fn zoned(self, inside: Seq<Seq<bool>>) -> bool {
        inside.len() == self.devices.len() && forall|d: int|
            0 <= d < inside.len() ==> (#[trigger] inside[d]).len() == self.obstacles.len()
    }

    /// What a tick says refers to bodies and vehicles that are there.
    pub open spec fn refers(self, tick: TickView) -> bool {
        &&& forall|i: int|
            0 <= i < tick.moved.len() ==> (#[trigger] tick.moved[i]).obstacle
                < self.obstacles.len()
        &&& forall|i: int|
            0 <= i < tick.returned.len() ==> (#[trigger] tick.returned[i]).obstacle
                < self.obstacles.len()
        &&& of_vehicles(tick.moves, self.devices)
    }
}

impl<'a> Rollout<'a> {
    /// Devices move bodies kinematically; what a robot holds is bound to the
    /// robot and never advected. `inside[d]` says which bodies have their
    /// origin in the zone of device `d`.
    pub fn advance_devices(&mut self, inside: &Vec<Vec<bool>>) -> (tick: Tick)
        requires
            old(self)@.sound(),
            old(self)@.zoned(views(inside@)),
        ensures
            final(self)@ == old(self)@.devices_advanced(views(inside@)),
            tick@ == old(self)@.tick(views(inside@)),
            final(self)@.sound(),
            final(self)@.refers(tick@),
    {
        let ghost v = self@;
        let ghost zones = views(inside@);
        let ghost raw = ticks_of(v.devices, zones, v.surroundings(), v.devices.len());
        let dt: Pico = self.options.dt;
        let t: Pico = self.t;
        let bodies: usize = self.obstacles.len();
        let count: usize = self.devices.len();
        proof {
            assert forall|d: int| 0 <= d < inside@.len() implies (#[trigger] inside@[d])@.len()
                == self.obstacles@.len() by {
                assert(zones[d] == inside@[d]@);
            }
            lemma_moved_exist(v.devices, zones, v.surroundings(), v.devices.len());
            lemma_tick_refers(
                v.devices,
                zones,
                v.surroundings(),
                v.lanes.tracks.len(),
                v.devices.len(),
            );
            lemma_ticked_sound(v.devices, dt, t);
        }
        let mut tick: Tick = tick_devices(
            &mut self.devices,
            inside,
            &self.obstacles,
            &self.attachments,
            dt,
            t,
        );
        let ghost ticked = devices_ticked(v.devices, dt, t);
        assert(of_vehicles(raw.moves, ticked));
        proof {
            lemma_shifts_refer(ticked, raw.moves, raw.shifts, dt, t);
            lemma_set_all_shape(v.lanes, raw.lanes, t);
        }
        assert forall|i: int| 0 <= i < tick.moved@.len() implies (#[trigger] tick.moved@[i]).obstacle
            < self.obstacles@.len() by {
            assert(tick.moved@[i] == raw.moved[i]);
        }
        self.lanes.set_lanes(&tick.lanes, t);
        apply_moved(&mut self.obstacles, &mut self.objects, &tick.moved, dt, t);
        apply_shifts(&mut self.devices, &mut tick.moves, &tick.shifts, dt, t);
        proof {
            let want = v.devices_advanced(zones);
            assert(self@ =~= want);
            assert(tick@ =~= v.tick(zones));
            assert forall|d: int| 0 <= d < v.devices.len() implies (#[trigger] self@.devices[d]).lane
                == v.devices[d].lane by {
                assert(self@.devices[d].lane == ticked[d].lane);
            }
            assert forall|r: int| 0 <= r < v.robots.len() implies robot_sound(
                #[trigger] self@.robots[r],
                v.robots[r].q.len(),
            ) by {
                assert(robot_sound(v.robots[r], v.scene.robots@[r].q@.len()));
            }
            lemma_kept_sound(v, self@);
        }
        tick
    }
}

/// The bodies that a device moved in a tick.
pub open spec fn advected(obstacles: Seq<Obstacle>, moved: Seq<Moved>) -> Seq<String> {
    Seq::new(moved.len(), |i: int| obstacles[moved[i].obstacle as int].name)
}

/// The names of the bodies that a device moved in a tick.
pub fn advected_names(obstacles: &Vec<Obstacle>, moved: &Vec<Moved>) -> (r: Vec<String>)
    requires
        forall|i: int|
            0 <= i < moved@.len() ==> (#[trigger] moved@[i]).obstacle < obstacles@.len(),
    ensures
        r@ == advected(obstacles@, moved@),
{
    let mut out: Vec<String> = Vec::new();
    let mut i: usize = 0;
    while i < moved.len()
        invariant
            i <= moved.len(),
            forall|k: int|
                0 <= k < moved@.len() ==> (#[trigger] moved@[k]).obstacle < obstacles@.len(),
            out@ == advected(obstacles@, moved@).take(i as int),
        decreases moved.len() - i,
    {
        out.push(obstacles[moved[i].obstacle].name.clone());
        i = i + 1;
        assert(out@ =~= advected(obstacles@, moved@).take(i as int));
    }
    assert(out@ =~= advected(obstacles@, moved@));
    out
}

/// The objects among the first `n` tracks that stopped: their motion ended
/// before `t`, nothing carries them now, and their body is there.
pub open spec fn stopped(
    tracks: Seq<TrackView>,
    obstacles: Seq<Obstacle>,
    carried: Seq<String>,
    t: Pico,
    n: nat,
) -> Seq<(Seq<char>, Pose)>
    decreases n,
{
    if n == 0 {
        Seq::empty()
    } else {
        let less = stopped(tracks, obstacles, carried, t, (n - 1) as nat);
        let track = tracks[n - 1];
        match body_index(obstacles, track.name) {
            Some(k) => if !holds_name(carried, track.name) && overdue(track.spans, t) {
                less.push((track.name, obstacles[k].pose))
            } else {
                less
            },
            None => less,
        }
    }
}

/// When an object's track stops moving: where its last motion ended, else now.
pub open spec fn stop_time(tracks: Seq<TrackView>, name: Seq<char>, t: Pico) -> Pico {
    match find(track_names(tracks), name) {
        Some(i) => if tracks[i].spans.len() > 0 && tracks[i].spans.last().moving() {
            tracks[i].spans.last().end()
        } else {
            t
        },
        None => t,
    }
}

/// The tracks with every stopped object at rest from when it stopped.
pub open spec fn settled(tracks: Seq<TrackView>, stops: Seq<(Seq<char>, Pose)>, t: Pico) -> Seq<
    TrackView,
>
    decreases stops.len(),
{
    if stops.len() == 0 {
        tracks
    } else {
        let less = settled(tracks, stops.drop_last(), t);
        let (name, pose) = stops.last();
        let at = stop_time(less, name, t);
        let ready = opened(less, name, pose, at);
        let i = open_index(less, name);
        respanned(ready, i, ready[i].spans.push(TrackSpan::Hold { t0: at, t1: at, pose }))
    }
}

impl RolloutView {
    /// The world once what stopped riding has settled where it is.
    pub open spec fn stops_settled(self, carried: Seq<String>) -> RolloutView {
        RolloutView {
            objects: settled(
                self.objects,
                stopped(self.objects, self.obstacles, carried, self.t, self.objects.len()),
                self.t,
            ),
            ..self
        }
    }

    /// The line as supply sees it.
    pub open spec fn line(self) -> Line {
        Line {
            devices: self.devices,
            bodies: Bodies { obstacles: self.obstacles, tracks: self.objects },
            lanes: self.lanes,
        }
    }

    /// The world with its line replaced.
    pub open spec fn with_line(self, line: Line) -> RolloutView {
        RolloutView {
            devices: line.devices,
            obstacles: line.bodies.obstacles,
            objects: line.bodies.tracks,
            lanes: line.lanes,
            ..self
        }
    }

    /// The world after the sinks have returned what they caught and the
    /// sources have fed what is due.
    pub open spec fn supplied(self, returned: Seq<Returned>) -> RolloutView {
        self.with_line(
            fed_line(
                restocked(self.line(), returned, self.t),
                self.devices.len(),
                self.options.dt,
                self.t,
            ),
        )
    }
}

impl Tracks {
    fn stops(&self, obstacles: &Vec<Obstacle>, carried: &Vec<String>, t: Pico) -> (r: Vec<
        (String, Pose),
    >)
        ensures
            ({
                let want = stopped(self@, obstacles@, carried@, t, self@.len());
                &&& r@.len() == want.len()
                &&& forall|i: int|
                    0 <= i < want.len() ==> (#[trigger] r@[i]).0@ == want[i].0 && r@[i].1
                        == want[i].1
            }),
    {
        let mut out: Vec<(String, Pose)> = Vec::new();
        let mut n: usize = 0;
        while n < self.list.len()
            invariant
                n <= self.list.len(),
                ({
                    let want = stopped(self@, obstacles@, carried@, t, n as nat);
                    &&& out@.len() == want.len()
                    &&& forall|i: int|
                        0 <= i < want.len() ==> (#[trigger] out@[i]).0@ == want[i].0 && out@[i].1
                            == want[i].1
                }),
            decreases self.list.len() - n,
        {
            let track: &ObjectTrack = &self.list[n];
            assert(self@[n as int] == track@);
            let m: usize = track.spans.len();
            let late: bool = m > 0 && track.spans[m - 1].is_moving() && track.spans[m - 1].range().1
                < t;
            match find_body(obstacles, track.name.as_str()) {
                Some(k) => {
                    if late && !contains_name(carried, track.name.as_str()) {
                        out.push((track.name.clone(), obstacles[k].pose));
                    }
                },
                None => {},
            }
            n = n + 1;
        }
        out
    }
}

impl<'a> Rollout<'a> {
    /// Objects that stopped riding, by leaving a zone, or when their device
    /// stopped or their vehicle arrived, settle into a hold where they are.
    pub fn settle(&mut self, carried: &Vec<String>)
        requires
            old(self)@.sound(),
        ensures
            final(self)@ == old(self)@.stops_settled(carried@),
            final(self)@.sound(),
    {
        let ghost v = self@;
        let t: Pico = self.t;
        let stops: Vec<(String, Pose)> = self.objects.stops(&self.obstacles, carried, t);
        let ghost want = stopped(v.objects, v.obstacles, carried@, t, v.objects.len());
        let mut i: usize = 0;
        assert(want.take(0) =~= Seq::<(Seq<char>, Pose)>::empty());
        while i < stops.len()
            invariant
                i <= stops.len(),
                stops@.len() == want.len(),
                forall|k: int|
                    0 <= k < want.len() ==> (#[trigger] stops@[k]).0@ == want[k].0 && stops@[k].1
                        == want[k].1,
                t == v.t,
                self@ == (RolloutView { objects: self@.objects, ..v }),
                self@.objects == settled(v.objects, want.take(i as int), t),
            decreases stops.len() - i,
        {
            assert(want.take(i + 1).drop_last() =~= want.take(i as int));
            assert(want.take(i + 1).last() == want[i as int]);
            assert(stops@[i as int].0@ == want[i as int].0);
            let name: &str = stops[i].0.as_str();
            let pose: Pose = stops[i].1;
            let at: Pico = match self.objects.find(name) {
                Some(k) => {
                    assert(self.objects@[k as int] == self.objects.list@[k as int]@);
                    let m: usize = self.objects.list[k].spans.len();
                    if m > 0 && self.objects.list[k].spans[m - 1].is_moving() {
                        self.objects.list[k].spans[m - 1].range().1
                    } else {
                        t
                    }
                },
                None => t,
            };
            let k: usize = self.objects.track_at(name, pose, at);
            self.objects.push_span(k, TrackSpan::Hold { t0: at, t1: at, pose });
            assert(self@ =~= (RolloutView { objects: self@.objects, ..v }));
            i = i + 1;
        }
        assert(want.take(i as int) =~= want);
        proof {
            assert(self@ =~= v.stops_settled(carried@));
            lemma_same_robots(v);
            lemma_kept_sound(v, self@);
        }
    }

    /// Sinks return what they caught; sources feed what is due.
    pub fn supply(&mut self, returned: &Vec<Returned>)
        requires
            old(self)@.sound(),
            forall|i: int|
                0 <= i < returned@.len() ==> (#[trigger] returned@[i]).obstacle < old(
                    self,
                ).obstacles@.len(),
        ensures
            final(self)@ == old(self)@.supplied(returned@),
            final(self)@.sound(),
    {
        let ghost v = self@;
        let t: Pico = self.t;
        let dt: Pico = self.options.dt;
        return_to_magazines(
            &mut self.devices,
            &mut self.obstacles,
            &mut self.objects,
            &self.lanes,
            returned,
            t,
        );
        let ghost mid = restocked(v.line(), returned@, t);
        assert(line_of(self.devices@, self.obstacles@, self.objects, self.lanes) == mid);
        proof {
            lemma_restocked_devices(v.line(), returned@, t);
            assert forall|d: int| 0 <= d < mid.devices.len() implies (#[trigger] mid.devices[d]).lane
                < v.lanes.tracks.len() by {
                assert(mid.devices[d].lane == v.devices[d].lane);
            }
        }
        feed_from_sources(
            &mut self.devices,
            &mut self.obstacles,
            &mut self.objects,
            &mut self.lanes,
            dt,
            t,
        );
        proof {
            assert(self@ =~= v.supplied(returned@));
            lemma_fed_devices(mid, mid.devices.len(), dt, t);
            assert forall|i: int| 0 <= i < v.obstacles.len() implies (#[trigger] self@.obstacles[i])
                == (Obstacle { pose: self@.obstacles[i].pose, ..v.obstacles[i] }) by {
                assert(mid.bodies.obstacles[i] == (Obstacle {
                    pose: mid.bodies.obstacles[i].pose,
                    ..v.obstacles[i]
                }));
            }
            assert forall|d: int| 0 <= d < v.devices.len() implies (#[trigger] self@.devices[d]).lane
                == v.devices[d].lane by {
                assert(mid.devices[d].lane == v.devices[d].lane);
            }
            lemma_same_robots(v);
            lemma_kept_sound(v, self@);
        }
    }
}

/// A sound rollout's robots are sound in their own sizes.
pub proof fn lemma_same_robots(v: RolloutView)
    requires
        v.sound(),
    ensures
        forall|r: int|
            0 <= r < v.robots.len() ==> robot_sound(#[trigger] v.robots[r], v.robots[r].q.len()),
{
    assert forall|r: int| 0 <= r < v.robots.len() implies robot_sound(
        #[trigger] v.robots[r],
        v.robots[r].q.len(),
    ) by {
        assert(robot_sound(v.robots[r], v.scene.robots@[r].q@.len()));
    }
}

/// A joint's rate is the way that it went over the time it took, rounded down, as far
/// as a count reaches.
pub proof fn law_a_rate_is_way_by_time(now: Seq<Pico>, before: Seq<Pico>, dt: Pico, i: int)
    requires
        0 <= i < now.len(),
        dt > 0,
    ensures
        rates(now, before, dt).len() == now.len(),
        crate::vehicle::brings_there(rates(now, before, dt)[i] as int, now[i] - before[i], dt as int),
{
    let way = now[i] - before[i];
    crate::fixed::law_quotients_are_rounded_down(way, UNIT as int, dt as int);
    let q = muldiv(way, UNIT as int, dt as int);
    let rate = clip(q) as int;
    let t = dt as int;
    assert(rate <= q ==> t * rate <= t * q) by (nonlinear_arith)
        requires
            t >= 1,
    ;
    assert(q <= rate ==> t * q <= t * rate) by (nonlinear_arith)
        requires
            t >= 1,
    ;
}

/// A spinning joint turns on by its rate over the tick, rounded down; every other joint
/// stays.
pub proof fn law_a_spinning_joint_turns_at_its_rate(
    q: Seq<Pico>,
    joints: Seq<(usize, Pico)>,
    one: (usize, Pico),
    dt: Pico,
    i: int,
)
    requires
        one.0 < spun(q, joints, dt).len(),
        0 <= i < spun(q, joints, dt).len(),
        crate::fixed::roomy_part(
            spun(q, joints, dt)[one.0 as int] as int,
            one.1 as int,
            dt as int,
        ),
    ensures
        spun(q, seq![], dt) == q,
        ({
            let before = spun(q, joints, dt);
            let after = spun(q, joints.push(one), dt);
            &&& after.len() == before.len()
            &&& i != one.0 ==> after[i] == before[i]
            &&& 0 <= one.1 * dt - 1_000_000_000_000 * (after[one.0 as int] - before[one.0 as int])
                < 1_000_000_000_000
        }),
{
    assert(joints.push(one).drop_last() =~= joints);
    assert(joints.push(one).last() == one);
    crate::fixed::law_quotients_are_rounded_down(one.1 as int, dt as int, UNIT as int);
}

/// Propellers turn while their vehicle drives or is more than 10^-6 m above its ground,
/// unless what the robot does is taken down beyond now already; else the robot stays as
/// it is.
pub proof fn law_propellers_turn_in_the_air(
    rt: RobotView,
    devices: Seq<DeviceView>,
    t: Pico,
    dt: Pico,
)
    ensures
        ({
            let after = spin_ticked(rt, devices, t, dt);
            let ahead = rt.bake.len() > 0 && rt.bake[rt.bake.len() - 1].t - t > 1_000;
            &&& rt.spin is None ==> after == rt
            &&& rt.spin matches Some(spin) ==> {
                let flies = exists|d: int|
                    0 <= d < devices.len() && (#[trigger] devices[d]).name@ == spin.device && (
                    devices[d].state matches StateView::Vehicle(car) && (car.legs.len() > 0
                        || car.position.z - spin.ground > 1_000_000));
                &&& !flies || ahead ==> after == rt
                &&& flies && !ahead ==> after.q == spun(rt.q, spin.joints, dt) && after == (
                RobotView { q: after.q, bake: after.bake, ..rt })
            }
        }),
{
    match rt.spin {
        Some(spin) => {
            if flying(devices, spin) {
                let d = choose|d: int|
                    0 <= d < devices.len() && (#[trigger] devices[d]).name@ == spin.device
                        && (devices[d].state matches StateView::Vehicle(v) && (v.legs.len() > 0
                        || v.position.z > spin.ground + MICRO));
                assert(devices[d].name@ == spin.device);
            }
        },
        None => {},
    }
}

/// A robot that follows a part takes the configuration that was solved for it, and keeps
/// it for the tick; one whose solve did not converge, or whose part is gone, is an error.
/// A frozen track goes on with the offset it had. One that follows nothing stays as it
/// is. No other robot changes.
pub proof fn law_a_robot_follows_its_part(v: RolloutView, r: int, reply: TrackReply, s: int)
    requires
        0 <= r < v.robots.len(),
        0 <= s < v.robots.len(),
    ensures
        ({
            let rt = v.robots[r];
            &&& rt.tracking is None ==> v.following(r, reply) == Fired::Leads(v)
            &&& rt.tracking matches Some(latch) ==> {
                let gone = !latch.frozen && body_index(v.obstacles, latch.object) is None;
                &&& gone || !reply.converged ==> v.following(r, reply) is Fails
                &&& !gone && reply.converged ==> (v.following(r, reply) matches Fired::Leads(w) && {
                    let now = w.robots[r];
                    &&& now.q == reply.q@
                    &&& now.q_nom == rt.q_nom
                    &&& now.q_nom_prev == rt.q_nom
                    &&& now.tracking matches Some(l) && l.object == latch.object && l.origin
                        == latch.origin && l.frozen == latch.frozen && (latch.frozen ==> l.offset
                        == latch.offset) && (!latch.frozen ==> l.offset == reply.offset)
                    &&& rt.bake.len() == 0 || v.t - rt.bake[rt.bake.len() - 1].t > 1_000
                        ==> now.bake.len() == rt.bake.len() + 1 && now.bake.last().t == v.t
                        && now.bake.last().q == reply.q@
                    &&& s != r ==> w.robots[s] == v.robots[s]
                    &&& w.obstacles == v.obstacles
                })
            }
        }),
{
}

/// What a solve starts from is where the robot is, moved on by what its move asked of it
/// since the last tick.
pub proof fn law_a_solve_starts_one_step_on(rt: RobotView, i: int)
    requires
        0 <= i < rt.q.len(),
        i64::MIN <= rt.q_nom[i] - rt.q_nom_prev[i] <= i64::MAX,
        i64::MIN <= rt.q[i] + (rt.q_nom[i] - rt.q_nom_prev[i]) <= i64::MAX,
    ensures
        track_seed_of(rt).len() == rt.q.len(),
        track_seed_of(rt)[i] - rt.q[i] == rt.q_nom[i] - rt.q_nom_prev[i],
{
}

/// Two robots meet where colliders of different robots touch: a link is its robot's, a
/// body the robot's that holds it, and one that nobody holds is nobody's. The first such
/// contact is what is reported, with both robots; a robot alone meets nobody.
pub proof fn law_robots_meet_where_different_ones_touch(
    v: RolloutView,
    pairs: Seq<(ColliderId, ColliderId)>,
    i: int,
)
    ensures
        ({
            let meets = |k: int|
                v.side(pairs[k].0) is Some && v.side(pairs[k].1) is Some && (v.side(
                    pairs[k].0,
                )->0).0 != (v.side(pairs[k].1)->0).0;
            &&& v.scene.robots@.len() < 2 ==> v.robots_meet(pairs) is None
            &&& (forall|k: int| 0 <= k < pairs.len() ==> !#[trigger] meets(k)) ==> v.robots_meet(
                pairs,
            ) is None
            &&& v.scene.robots@.len() >= 2 && 0 <= i < pairs.len() && meets(i) && (forall|k: int|
                0 <= k < i ==> !#[trigger] meets(k)) ==> (v.robots_meet(pairs) matches Some(e)
                && (e matches ErrorView::RobotCollision { t, a, b, link_a, link_b } && t == v.t && a
                == v.scene.robots@[(v.side(pairs[i].0)->0).0 as int].name@ && b
                == v.scene.robots@[(v.side(pairs[i].1)->0).0 as int].name@ && link_a == (v.side(
                pairs[i].0,
            )->0).1 && link_b == (v.side(pairs[i].1)->0).1))
        }),
{
    let meets = |k: int|
        v.side(pairs[k].0) is Some && v.side(pairs[k].1) is Some && (v.side(pairs[k].0)->0).0 != (
        v.side(pairs[k].1)->0).0;
    lemma_first_contact(v, pairs, meets, 0, i);
}

proof fn lemma_first_contact(
    v: RolloutView,
    pairs: Seq<(ColliderId, ColliderId)>,
    meets: spec_fn(int) -> bool,
    from: int,
    i: int,
)
    requires
        0 <= from,
        forall|k: int| #[trigger] meets(k) == v.contact(pairs[k]) is Some,
    ensures
        (forall|k: int| from <= k < pairs.len() ==> !#[trigger] meets(k)) ==> v.first_contact(
            pairs,
            from,
        ) is None,
        from <= i < pairs.len() && meets(i) && (forall|k: int|
            from <= k < i ==> !#[trigger] meets(k)) ==> v.first_contact(pairs, from) == v.contact(
            pairs[i],
        ),
    decreases pairs.len() - from,
{
    if from < pairs.len() {
        let here = meets(from);
        lemma_first_contact(v, pairs, meets, from + 1, i);
    }
}

/// Whose a collider is: a link is its robot's, under its own name; a body is the robot's
/// that holds it, under its name; one that nobody holds is nobody's.
pub proof fn law_a_held_body_is_its_robots(
    v: RolloutView,
    robot: usize,
    link: usize,
    k: usize,
    a: int,
)
    ensures
        v.side(ColliderId::Link { robot, link }) == Some(
            (robot, v.scene.robots@[robot as int].links@[link as int]@),
        ),
        0 <= a < v.attachments.len() && v.attachments[a].object@ == v.obstacles[k as int].name@ && (
        forall|j: int|
            0 <= j < a ==> (#[trigger] v.attachments[j]).object@ != v.obstacles[k as int].name@)
            ==> v.side(ColliderId::Obstacle(k)) == Some(
            (v.attachments[a].robot, v.obstacles[k as int].name@),
        ),
        (forall|j: int|
            0 <= j < v.attachments.len() ==> (#[trigger] v.attachments[j]).object@
                != v.obstacles[k as int].name@) ==> v.side(ColliderId::Obstacle(k)) is None,
{
    crate::names::law_a_name_stands_for_the_first(v.attachments, v.obstacles[k as int].name@, a);
}

/// A robot that rides a moving vehicle may touch nothing that it is checked against: the
/// first one that does is reported; robots that do not ride it are not concerned.
pub proof fn law_riders_touch_nothing(
    v: RolloutView,
    m: int,
    touched: Seq<Option<(String, String)>>,
    from: int,
    r: int,
)
    requires
        0 <= from,
    ensures
        ({
            let vehicle = v.moving[m].vehicle@;
            let n = v.scene.robots@.len();
            &&& from <= r < n && touched[r] is Some && v.rides(r, vehicle) && (forall|i: int|
                from <= i < r ==> touched[i] is None || !#[trigger] v.rides(i, vehicle))
                ==> (v.rider_fault(m, touched, from) matches Some(e) && (e matches ErrorView::RiderCollision {
                t,
                vehicle: car,
                robot,
                part,
                obstacle,
            } && t == v.t && car == vehicle && robot == v.scene.robots@[r].name@ && part == (
            touched[r]->0).0@ && obstacle == (touched[r]->0).1@))
            &&& (forall|i: int|
                from <= i < n ==> touched[i] is None || !#[trigger] v.rides(i, vehicle))
                ==> v.rider_fault(m, touched, from) is None
        }),
    decreases v.scene.robots@.len() - from,
{
    if from < v.scene.robots@.len() {
        let here = v.rides(from, v.moving[m].vehicle@);
        law_riders_touch_nothing(v, m, touched, from + 1, r);
    }
}

/// A rider is not checked against what its vehicle carries; one that walks, not against
/// what can be walked on either; against everything else it is.
pub proof fn law_riders_are_checked_against_the_rest(v: RolloutView, m: int, r: int, name: Seq<char>)
    ensures
        ({
            let skips = v.rider_skips(m, r);
            let carried = exists|i: int|
                0 <= i < v.moving[m].carried.len() && (#[trigger] v.moving[m].carried[i])@ == name;
            let tread = exists|k: int|
                0 <= k < v.obstacles.len() && (#[trigger] v.obstacles[k]).walkable
                    && v.obstacles[k].name@ == name;
            holds_name(skips, name) <==> carried || (v.robots[r].gait is Some && tread)
        }),
{
    let carried = v.moving[m].carried;
    let treads = walkable_names(v.obstacles, v.obstacles.len());
    lemma_walkable(v.obstacles, v.obstacles.len(), name);
    let skips = v.rider_skips(m, r);
    if holds_name(skips, name) {
        let i = choose|i: int| 0 <= i < skips.len() && #[trigger] skips[i]@ == name;
        if i < carried.len() {
            assert(carried[i]@ == name);
        } else {
            assert(treads[i - carried.len()]@ == name);
        }
    }
    if exists|i: int| 0 <= i < carried.len() && (#[trigger] carried[i])@ == name {
        let i = choose|i: int| 0 <= i < carried.len() && (#[trigger] carried[i])@ == name;
        assert(skips[i]@ == name);
    }
    if v.robots[r].gait is Some && holds_name(treads, name) {
        let i = choose|i: int| 0 <= i < treads.len() && #[trigger] treads[i]@ == name;
        assert(skips[carried.len() + i]@ == name);
    }
}

proof fn lemma_walkable(obstacles: Seq<Obstacle>, n: nat, name: Seq<char>)
    requires
        n <= obstacles.len(),
    ensures
        holds_name(walkable_names(obstacles, n), name) <==> exists|k: int|
            0 <= k < n && (#[trigger] obstacles[k]).walkable && obstacles[k].name@ == name,
    decreases n,
{
    if n > 0 {
        let less = (n - 1) as nat;
        lemma_walkable(obstacles, less, name);
        let before = walkable_names(obstacles, less);
        let now = walkable_names(obstacles, n);
        if holds_name(now, name) {
            let i = choose|i: int| 0 <= i < now.len() && #[trigger] now[i]@ == name;
            if i < before.len() {
                assert(before[i]@ == name);
                assert(holds_name(before, name));
            } else {
                assert(obstacles[n - 1].walkable);
            }
        }
        if holds_name(before, name) {
            let i = choose|i: int| 0 <= i < before.len() && #[trigger] before[i]@ == name;
            assert(now[i]@ == name);
        }
        if obstacles[n - 1].walkable && obstacles[n - 1].name@ == name {
            assert(now[now.len() - 1]@ == name);
        }
    }
}

/// An object stops where its track last moved it, its motion ended before now, nothing
/// carries it any more, and its body is there; no other does. It stops where its body
/// is. `n` is how many tracks are looked at, `i` any of them.
pub proof fn law_what_nothing_carries_stops(
    tracks: Seq<TrackView>,
    obstacles: Seq<Obstacle>,
    carried: Seq<String>,
    t: Pico,
    n: nat,
    i: int,
)
    requires
        n <= tracks.len(),
        0 <= i < n,
    ensures
        ({
            let stops = stopped(tracks, obstacles, carried, t, n);
            let track = tracks[i];
            let last = track.spans[track.spans.len() - 1];
            let stops_now = track.spans.len() > 0 && (last is Linear || last is Pivot) && last.end()
                < t && !holds_name(carried, track.name) && body_index(obstacles, track.name) is Some;
            &&& stops_now ==> stops.contains(
                (track.name, obstacles[body_index(obstacles, track.name)->0].pose),
            )
            &&& forall|s: int|
                0 <= s < stops.len() ==> body_index(obstacles, (#[trigger] stops[s]).0) is Some
                    && stops[s].1 == obstacles[body_index(obstacles, stops[s].0)->0].pose
                    && !holds_name(carried, stops[s].0)
        }),
    decreases n,
{
    let less = (n - 1) as nat;
    let now = stopped(tracks, obstacles, carried, t, n);
    let before = stopped(tracks, obstacles, carried, t, less);
    let one = (tracks[i].name, obstacles[body_index(obstacles, tracks[i].name)->0].pose);
    if i < less {
        law_what_nothing_carries_stops(tracks, obstacles, carried, t, less, i);
        if before.contains(one) {
            let s = choose|s: int| 0 <= s < before.len() && before[s] == one;
            assert(now[s] == one);
        }
    } else {
        if less > 0 {
            law_what_nothing_carries_stops(tracks, obstacles, carried, t, less, 0);
        }
        if now != before {
            assert(now[now.len() - 1] == one);
        }
    }
    assert forall|s: int| 0 <= s < now.len() implies body_index(obstacles, (#[trigger] now[s]).0)
        is Some && now[s].1 == obstacles[body_index(obstacles, now[s].0)->0].pose && !holds_name(
        carried,
        now[s].0,
    ) by {
        if s < before.len() {
            assert(now[s] == before[s]);
        }
    }
}

/// An object that stops rests where it stopped, from the end of its last motion on.
pub proof fn law_what_stops_rests_from_then_on(
    tracks: Seq<TrackView>,
    name: Seq<char>,
    pose: Pose,
    t: Pico,
    i: int,
)
    requires
        0 <= i < tracks.len(),
        tracks[i].name == name,
        forall|j: int| 0 <= j < i ==> (#[trigger] tracks[j]).name != name,
        tracks[i].spans.len() > 0,
        tracks[i].spans.last().moving(),
    ensures
        ({
            let after = settled(tracks, seq![(name, pose)], t);
            let end = tracks[i].spans.last().end();
            &&& after.len() == tracks.len()
            &&& after[i].name == name
            &&& after[i].spans == tracks[i].spans.push(TrackSpan::Hold { t0: end, t1: end, pose })
            &&& forall|j: int| 0 <= j < tracks.len() && j != i ==> #[trigger] after[j] == tracks[j]
        }),
{
    let names = track_names(tracks);
    crate::names::lemma_find(names, name, 0);
    assert(names[i] == name);
    match find(names, name) {
        Some(k) => {
            assert(names[k] == tracks[k].name);
        },
        None => {},
    }
    let stops = seq![(name, pose)];
    assert(stops.drop_last() =~= Seq::<(Seq<char>, Pose)>::empty());
    assert(settled(tracks, stops.drop_last(), t) == tracks);
}

/// In a tick every robot follows its own move, and every propeller its own vehicle; nothing
/// else moves with them. `r` is any robot.
pub proof fn law_every_robot_follows_its_own_move(
    v: RolloutView,
    samples: Seq<Seq<Pico>>,
    r: int,
)
    requires
        0 <= r < v.robots.len(),
    ensures
        ({
            let moved = v.joints_advanced(samples);
            let spun_on = v.spins_advanced();
            &&& moved == (RolloutView { robots: moved.robots, ..v })
            &&& moved.robots.len() == v.robots.len()
            &&& moved.robots[r] == v.robots[r].followed(v.t, samples[r])
            &&& spun_on == (RolloutView { robots: spun_on.robots, ..v })
            &&& spun_on.robots.len() == v.robots.len()
            &&& spun_on.robots[r] == spin_ticked(v.robots[r], v.devices, v.t, v.options.dt)
        }),
{
}

/// Tracked parts are followed robot by robot, in order, up to the first that fails.
pub proof fn law_parts_are_followed_robot_by_robot(
    v: RolloutView,
    replies: Seq<TrackReply>,
    n: nat,
)
    ensures
        v.all_tracked(replies, 0) == Fired::Leads(v),
        match v.all_tracked(replies, n) {
            Fired::Fails(e) => v.all_tracked(replies, n + 1) == Fired::Fails(e),
            Fired::Leads(w) => v.all_tracked(replies, n + 1) == w.following(
                n as int,
                replies[n as int],
            ),
        },
{
}

/// The riders of every moving vehicle are checked: none of them is at fault where the check
/// passes. `m` is any moving vehicle.
pub proof fn law_the_riders_of_every_vehicle_are_checked(
    v: RolloutView,
    touched: Seq<Vec<Option<(String, String)>>>,
    from: int,
    m: int,
)
    requires
        0 <= from <= m < v.moving.len(),
        v.riders_fault(touched, from) is None,
    ensures
        v.rider_fault(m, touched[m]@, 0) is None,
    decreases m - from,
{
    if from < m {
        law_the_riders_of_every_vehicle_are_checked(v, touched, from + 1, m);
    }
}

/// After the devices' tick the lanes have what the devices wrote, the bodies are where the
/// devices moved them, and the devices are a tick on, those on lifts with their lift; the
/// robots and programs are as they were.
pub proof fn law_a_tick_moves_what_the_devices_move(v: RolloutView, inside: Seq<Seq<bool>>)
    ensures
        ({
            let w = v.devices_advanced(inside);
            let seen = Surroundings {
                obstacles: v.obstacles,
                attachments: v.attachments,
                dt: v.options.dt,
                t: v.t,
            };
            let tick = ticks_of(v.devices, inside, seen, v.devices.len());
            let bodies = with_moved(
                Bodies { obstacles: v.obstacles, tracks: v.objects },
                tick.moved,
                v.options.dt,
                v.t,
            );
            let rides = with_shifts(
                devices_ticked(v.devices, v.options.dt, v.t),
                tick.moves,
                tick.shifts,
                v.options.dt,
                v.t,
            );
            &&& w.lanes == v.lanes.set_all(tick.lanes, v.t)
            &&& w.obstacles == bodies.obstacles
            &&& w.objects == bodies.tracks
            &&& w.devices == rides.0
            &&& v.tick(inside).moves == rides.1
            &&& v.tick(inside).returned == tick.returned
            &&& w.robots == v.robots
            &&& w.programs == v.programs
            &&& w.attachments == v.attachments
        }),
{
}

/// The line is supplied from where it stands: what was caught goes back first, and then
/// every device feeds; nothing but the devices, the bodies and the lanes changes.
pub proof fn law_supply_takes_back_before_it_feeds(v: RolloutView, returned: Seq<Returned>)
    ensures
        ({
            let w = v.supplied(returned);
            let line = Line {
                devices: v.devices,
                bodies: Bodies { obstacles: v.obstacles, tracks: v.objects },
                lanes: v.lanes,
            };
            let after = fed_line(
                restocked(line, returned, v.t),
                v.devices.len(),
                v.options.dt,
                v.t,
            );
            &&& w.devices == after.devices
            &&& w.obstacles == after.bodies.obstacles
            &&& w.objects == after.bodies.tracks
            &&& w.lanes == after.lanes
            &&& w == (RolloutView {
                devices: w.devices,
                obstacles: w.obstacles,
                objects: w.objects,
                lanes: w.lanes,
                ..v
            })
        }),
{
}

} // verus!
