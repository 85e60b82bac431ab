//! Tests of what a caller hands in: whether a scene and its sequences can be
//! rolled out, whether a reply is one that a run waits for (the right answer for
//! its phase, with one entry for each thing that it asks about), and whether an
//! answer fits a sweep.

use vstd::prelude::*;

use crate::dispatch::{robot_known, DeviceReply, FireReply};
use crate::engine::{runnable, Phase, Reply, Run};
use crate::fire::{needs_approach, plan_fits, stands_off, ToolpathPlan, ToolpathReply};
use crate::fixed::{floor_div, Pico, Pose, Vec3, NANO, UNIT};
use crate::names::{find, find_named, names_of};
use crate::ride::{CarryReply, DeckReply};
use crate::rollout::Rollout;
use crate::scan::{
    answer_fits, beam_count, beam_grid, links_answered, noise_key, noise_key_of, ring_beams,
    ring_count, sweep_answered, sweepable, ScanNoise, SweepAnswer, SweepReply,
};
use crate::scene::{find_body, Gait, Lidar, Robot, Scene, Toolpath};
use crate::sensors::{complete, Reading};
use crate::seq::{size_arms, size_steps, Action, DeviceCommand, SelectArm, Step};
use crate::simulate::{rollable, SequenceFault};
use crate::stride::StrideReply;
use crate::tick::VehicleMove;
use crate::timeline::SequenceTimeline;
use crate::views::views;
use crate::walk::{tops, tread_tops, walk_fits, GaitReply};
use crate::world::{ColliderId, TrackReply};

verus! {

/// Every row has `n` entries.
pub open spec fn wide<T>(rows: Seq<Vec<T>>, n: nat) -> bool {
    forall|i: int| 0 <= i < rows.len() ==> (#[trigger] rows[i])@.len() == n
}

fn is_wide<T>(rows: &Vec<Vec<T>>, n: usize) -> (r: bool)
    ensures
        r == wide(rows@, n as nat),
{
    let mut i: usize = 0;
    while i < rows.len()
        invariant
            i <= rows.len(),
            forall|k: int| 0 <= k < i ==> (#[trigger] rows@[k])@.len() == n,
        decreases rows.len() - i,
    {
        if rows[i].len() != n {
            return false;
        }
        i += 1;
    }
    true
}

fn is_complete(reading: &Reading, bodies: usize, robots: usize) -> (r: bool)
    ensures
        r == complete(*reading, bodies as nat, robots as nat),
{
    if reading.hits.len() != bodies || reading.robots.len() != robots || reading.rays.len()
        != bodies {
        return false;
    }
    is_wide(&reading.rays, bodies)
}

fn is_walk_fitting(gait: &Gait, reply: &GaitReply, treads: usize) -> (r: bool)
    ensures
        r == walk_fits(*gait, *reply, treads as nat),
{
    let n: usize = gait.legs.len();
    if reply.feet.len() != n || reply.plan.legs.len() != n || reply.carry.len() != n
        || reply.points.len() != n {
        return false;
    }
    let mut i: usize = 0;
    while i < n
        invariant
            i <= n,
            n == gait.legs@.len(),
            reply.plan.legs@.len() == n,
            reply.points@.len() == n,
            forall|k: int|
                0 <= k < i ==> (#[trigger] reply.points@[k])@.len() == reply.plan.legs@[k]@.len(),
            forall|k: int, s: int|
                0 <= k < i && 0 <= s < reply.points@[k]@.len() ==> (
                #[trigger] reply.points@[k]@[s])@.len() == treads,
        decreases n - i,
    {
        if reply.points[i].len() != reply.plan.legs[i].len() {
            return false;
        }
        if !is_wide(&reply.points[i], treads) {
            assert(exists|s: int|
                0 <= s < reply.points@[i as int]@.len() && (
                #[trigger] reply.points@[i as int]@[s])@.len() != treads);
            return false;
        }
        i += 1;
    }
    true
}

fn is_plan_fitting(toolpaths: &Vec<Toolpath>, toolpath: &str, plan: &ToolpathPlan) -> (r: bool)
    ensures
        r == plan_fits(toolpaths@, toolpath@, plan@),
{
    if plan.path.len() == 0 || plan.sample_times.len() < plan.samples.len() {
        return false;
    }
    match find_named(toolpaths, toolpath) {
        None => true,
        Some(i) => {
            let mut k: usize = 0;
            while k < plan.samples.len()
                invariant
                    k <= plan.samples@.len(),
                    i < toolpaths@.len(),
                    find(names_of(toolpaths@), toolpath@) == Some(i as int),
                    forall|j: int|
                        0 <= j < k ==> (#[trigger] plan.samples@[j]).move_index
                            < toolpaths@[i as int].moves@.len(),
                decreases plan.samples@.len() - k,
            {
                if plan.samples[k].move_index >= toolpaths[i].moves.len() {
                    assert(!(plan@.samples[k as int].move_index
                        < toolpaths@[i as int].moves@.len()));
                    return false;
                }
                k += 1;
            }
            true
        },
    }
}

impl<'a> Rollout<'a> {
    fn knows_robot(&self, robot: &Result<usize, String>) -> (r: bool)
        ensures
            r == robot_known(self@, *robot),
    {
        match robot {
            Ok(r) => *r < self.robots.len(),
            Err(_) => true,
        }
    }

    fn takes_readings(&self, readings: &Vec<Reading>) -> (r: bool)
        ensures
            r == self@.readings_fit(readings@),
    {
        if readings.len() != self.sensors.len() {
            return false;
        }
        let mut i: usize = 0;
        while i < readings.len()
            invariant
                i <= readings@.len(),
                forall|k: int|
                    0 <= k < i ==> complete(
                        #[trigger] readings@[k],
                        self@.obstacles.len(),
                        self@.scene.robots@.len(),
                    ),
            decreases readings@.len() - i,
        {
            if !is_complete(&readings[i], self.obstacles.len(), self.scene.robots.len()) {
                return false;
            }
            i += 1;
        }
        true
    }

    fn takes_samples(&self, samples: &Vec<Vec<Pico>>) -> (r: bool)
        ensures
            r == self@.sampled(views(samples@)),
    {
        if samples.len() != self.robots.len() {
            return false;
        }
        let mut i: usize = 0;
        while i < samples.len()
            invariant
                i <= samples@.len(),
                samples@.len() == self.robots@.len(),
                forall|k: int|
                    0 <= k < i ==> (#[trigger] views(samples@)[k]).len()
                        == self@.robots[k].q.len(),
            decreases samples@.len() - i,
        {
            assert(views(samples@)[i as int] == samples@[i as int]@);
            assert(self@.robots[i as int] == self.robots@[i as int]@);
            if samples[i].len() != self.robots[i].q.len() {
                return false;
            }
            i += 1;
        }
        true
    }

    fn takes_zones(&self, points: &Vec<Vec<Vec3>>) -> (r: bool)
        ensures
            r == self@.located(views(points@)),
    {
        if points.len() != self.devices.len() {
            return false;
        }
        let fits: bool = is_wide(points, self.obstacles.len());
        proof {
            if fits {
                assert forall|d: int| 0 <= d < views(points@).len() implies (
                #[trigger] views(points@)[d]).len() == self@.obstacles.len() by {
                    assert(points@[d]@.len() == self.obstacles@.len());
                }
            } else {
                let d = choose|d: int|
                    0 <= d < points@.len() && (#[trigger] points@[d])@.len()
                        != self.obstacles@.len();
                assert(views(points@)[d].len() != self@.obstacles.len());
            }
        }
        fits
    }

    fn takes_decks(&self, moves: &Vec<VehicleMove>, replies: &Vec<DeckReply>) -> (r: bool)
        ensures
            r == self@.decks_answered(views(moves@), replies@),
    {
        if replies.len() != moves.len() {
            return false;
        }
        let mut i: usize = 0;
        while i < replies.len()
            invariant
                i <= replies@.len(),
                forall|k: int|
                    0 <= k < i ==> (#[trigger] replies@[k]).points@.len() == self@.obstacles.len()
                        && replies@[k].offsets@.len() == self@.obstacles.len(),
            decreases replies@.len() - i,
        {
            if replies[i].points.len() != self.obstacles.len() || replies[i].offsets.len()
                != self.obstacles.len() {
                return false;
            }
            i += 1;
        }
        true
    }

    fn takes_carry(&self, mv: &VehicleMove, riders: &Vec<String>, reply: &CarryReply) -> (r: bool)
        requires
            mv.device < self.devices@.len(),
            self@.devices[mv.device as int].state is Vehicle,
        ensures
            r == self@.carry_answered(mv@, riders@, *reply),
    {
        let pieces: usize = mv.pieces.len();
        let robots: usize = self.robots.len();
        let body: usize = self.mover_body(mv.device).len();
        if reply.frame_turned.len() != pieces || reply.bases.len() != robots
            || reply.bases_turned.len() != robots || reply.bases_after.len() != robots {
            return false;
        }
        if reply.members_turned.len() as u128 != body as u128 + riders.len() as u128 {
            return false;
        }
        is_wide(&reply.members_turned, pieces) && is_wide(&reply.bases_turned, pieces)
    }

    fn carried_count(&self, r: usize) -> (n: usize)
        requires
            r < self.robots@.len(),
        ensures
            n == self@.load_of(r as int),
    {
        assert(self@.robots[r as int] == self.robots@[r as int]@);
        match &self.robots[r].gait {
            Some(g) => g.carried.len(),
            None => 0,
        }
    }

    fn takes_loads(&self, moves: &Vec<VehicleMove>, loads: &Vec<Vec<Pose>>) -> (r: bool)
        requires
            self.scene.robots@.len() == self.robots@.len(),
            forall|i: int| 0 <= i < moves@.len() ==> (#[trigger] moves@[i]).device < self.devices@.len(),
        ensures
            r == self@.loads_fit(views(moves@), loads@),
    {
        if loads.len() != moves.len() {
            return false;
        }
        let ghost all = views(moves@);
        let mut i: usize = 0;
        while i < moves.len()
            invariant
                i <= moves@.len(),
                loads@.len() == moves@.len(),
                all == views(moves@),
                self.scene.robots@.len() == self.robots@.len(),
                forall|i: int|
                    0 <= i < moves@.len() ==> (#[trigger] moves@[i]).device < self.devices@.len(),
                forall|k: int|
                    0 <= k < i ==> (self@.walker_on(self@.mover(#[trigger] all[k])@, 0) matches Some(
                        r,
                    ) ==> loads@[k]@.len() == self@.load_of(r)),
            decreases moves@.len() - i,
        {
            let d: usize = moves[i].device;
            assert(all[i as int] == moves@[i as int]@);
            assert(self@.devices[d as int] == self.devices@[d as int]@);
            match self.walker_on(self.devices[d].name.as_str()) {
                Some(r) => {
                    if loads[i].len() != self.carried_count(r) {
                        return false;
                    }
                },
                None => {},
            }
            i += 1;
        }
        true
    }

    fn takes_meets(
        &self,
        moves: &Vec<VehicleMove>,
        meets: &Vec<Vec<bool>>,
        touched: &Vec<Vec<Option<(String, String)>>>,
    ) -> (r: bool)
        ensures
            r == self@.contacts_answered(views(moves@), views(meets@), touched@),
    {
        if meets.len() != self.obstacles.len() || touched.len() != moves.len() {
            return false;
        }
        if !is_wide(meets, self.obstacles.len()) {
            proof {
                let k = choose|k: int|
                    0 <= k < meets@.len() && (#[trigger] meets@[k])@.len()
                        != self.obstacles@.len();
                assert(views(meets@)[k].len() != self@.obstacles.len());
            }
            return false;
        }
        assert forall|k: int| 0 <= k < views(meets@).len() implies (
        #[trigger] views(meets@)[k]).len() == self@.obstacles.len() by {
            assert(meets@[k]@.len() == self.obstacles@.len());
        }
        is_wide(touched, self.scene.robots.len())
    }

    fn takes_strides(&self, replies: &Vec<Option<StrideReply>>) -> (r: bool)
        requires
            self@.sound(),
        ensures
            r == self@.strides_answered(replies@),
    {
        if replies.len() != self.robots.len() {
            return false;
        }
        let mut i: usize = 0;
        while i < replies.len()
            invariant
                i <= replies@.len(),
                replies@.len() == self.robots@.len(),
                self@.sound(),
                forall|k: int|
                    0 <= k < i && self@.robots[k].walking() ==> ((
                    #[trigger] replies@[k]) matches Some(reply) && self@.stride_fits(k, reply)),
            decreases replies@.len() - i,
        {
            assert(self@.robots[i as int] == self.robots@[i as int]@);
            if self.robots[i].walking() {
                match (&replies[i], &self.scene.robots[i].mount) {
                    (Some(reply), Some(m)) => match &m.gait {
                        Some(gait) => {
                            if reply.legs.len() != gait.legs.len() || reply.load.len()
                                != self.carried_count(i) {
                                return false;
                            }
                        },
                        None => {
                            return false;
                        },
                    },
                    _ => {
                        return false;
                    },
                }
            }
            i += 1;
        }
        true
    }

    fn takes_tracks(&self, replies: &Vec<TrackReply>) -> (r: bool)
        ensures
            r == self@.tracks_answered(replies@),
    {
        if replies.len() != self.robots.len() {
            return false;
        }
        let mut i: usize = 0;
        while i < replies.len()
            invariant
                i <= replies@.len(),
                replies@.len() == self.robots@.len(),
                forall|k: int|
                    0 <= k < i ==> (#[trigger] replies@[k]).q@.len() == self@.robots[k].q.len(),
            decreases replies@.len() - i,
        {
            assert(self@.robots[i as int] == self.robots@[i as int]@);
            if replies[i].q.len() != self.robots[i].q.len() {
                return false;
            }
            i += 1;
        }
        true
    }

    fn has_collider(&self, id: &ColliderId) -> (r: bool)
        ensures
            r == self@.exists_collider(*id),
    {
        match id {
            ColliderId::Link { robot, link } => *robot < self.scene.robots.len() && *link
                < self.scene.robots[*robot].links.len(),
            ColliderId::Obstacle(k) => *k < self.obstacles.len(),
        }
    }

    fn takes_contacts(
        &self,
        held: &Vec<Pose>,
        touched: &Vec<Vec<Option<(String, String)>>>,
        pairs: &Vec<(ColliderId, ColliderId)>,
    ) -> (r: bool)
        ensures
            r == self@.contacts_fit(held@, touched@, pairs@),
    {
        if held.len() != self.attachments.len() || touched.len() != self.moving.len() || !is_wide(
            touched,
            self.scene.robots.len(),
        ) {
            return false;
        }
        let mut i: usize = 0;
        while i < pairs.len()
            invariant
                i <= pairs@.len(),
                forall|k: int|
                    0 <= k < i ==> self@.exists_collider((#[trigger] pairs@[k]).0)
                        && self@.exists_collider(pairs@[k].1),
            decreases pairs@.len() - i,
        {
            if !self.has_collider(&pairs[i].0) || !self.has_collider(&pairs[i].1) {
                return false;
            }
            i += 1;
        }
        true
    }

    fn takes_walks(&self, device: &str, replies: &Vec<Option<GaitReply>>) -> (r: bool)
        requires
            self@.sound(),
        ensures
            r == self@.walks_answered(device@, replies@),
    {
        if replies.len() != self.robots.len() {
            return false;
        }
        let treads: usize = tread_tops(&self.obstacles).len();
        let mut i: usize = 0;
        while i < replies.len()
            invariant
                i <= replies@.len(),
                replies@.len() == self.robots@.len(),
                self@.sound(),
                treads == tops(self@.obstacles).len(),
                forall|k: int|
                    0 <= k < i && self@.walks(k, device@) ==> ((
                    #[trigger] replies@[k]) matches Some(reply) && walk_fits(
                        self@.gait_of(k),
                        reply,
                        treads as nat,
                    )),
            decreases replies@.len() - i,
        {
            assert(self@.robots[i as int] == self.robots@[i as int]@);
            if self.robots[i].gait.is_some() && self.rides(i, device) {
                match (&replies[i], &self.scene.robots[i].mount) {
                    (Some(reply), Some(m)) => match &m.gait {
                        Some(gait) => {
                            if !is_walk_fitting(gait, reply, treads) {
                                return false;
                            }
                        },
                        None => {
                            return false;
                        },
                    },
                    _ => {
                        return false;
                    },
                }
            }
            i += 1;
        }
        true
    }

    fn takes_device(&self, device: &str, command: &DeviceCommand, reply: &DeviceReply) -> (r: bool)
        requires
            self@.sound(),
        ensures
            r == self@.device_answered(device@, *command, *reply),
    {
        match self.goto_route(device, command) {
            Some(route) => {
                if route.len() != reply.courses.len() {
                    return false;
                }
            },
            None => {},
        }
        reply.standing.len() == self.devices.len() && reply.aboard.len() == self.obstacles.len()
            && self.takes_walks(device, &reply.walks)
    }

    fn takes_toolpath(
        &self,
        toolpath: &str,
        robot: &Result<usize, String>,
        reply: &ToolpathReply,
    ) -> (r: bool)
        ensures
            r == (robot_known(self@, *robot) && (reply.plan matches Ok(p) ==> plan_fits(
                self@.scene.toolpaths@,
                toolpath@,
                p@,
            )) && ((robot matches Ok(k) && reply.plan matches Ok(p) && stands_off(
                self@.robots[k as int].q,
                p@.path[0],
            )) ==> reply.approach is Some)),
    {
        if !self.knows_robot(robot) {
            return false;
        }
        match &reply.plan {
            Err(_) => true,
            Ok(p) => {
                if !is_plan_fitting(&self.scene.toolpaths, toolpath, p) {
                    return false;
                }
                match robot {
                    Err(_) => true,
                    Ok(k) => {
                        assert(self@.robots[*k as int] == self.robots@[*k as int]@);
                        assert(p@.path[0] == p.path@[0]@);
                        reply.approach.is_some() || !needs_approach(&self.robots[*k].q, &p.path[0])
                    },
                }
            },
        }
    }

    fn takes_firing(&self, action: &Action, reply: &FireReply) -> (r: bool)
        requires
            self@.sound(),
        ensures
            r == self@.answered(*action, *reply),
    {
        match (action, reply) {
            (Action::StartMotion { .. }, FireReply::Motion(_)) => true,
            (
                Action::StartToolpath { toolpath, .. },
                FireReply::Toolpath { robot, reply },
            ) => self.takes_toolpath(toolpath.as_str(), robot, reply),
            (Action::StartRamp { .. }, FireReply::Robot(robot)) => self.knows_robot(robot),
            (Action::Attach { object, .. }, FireReply::Grasp { robot, grasp }) => {
                if !self.knows_robot(robot) {
                    return false;
                }
                match grasp {
                    Err(_) => true,
                    Ok(a) => crate::names::same(a.object.as_str(), object.as_str()) && a.robot
                        < self.robots.len() && find_body(
                        &self.obstacles,
                        object.as_str(),
                    ).is_some(),
                }
            },
            (Action::Detach { .. }, FireReply::Release(_)) => true,
            (Action::Track { .. }, FireReply::Robot(robot)) => self.knows_robot(robot),
            (Action::Untrack { .. }, FireReply::Robot(robot)) => self.knows_robot(robot),
            (Action::SetSignal { .. }, FireReply::Nothing) => true,
            (Action::Device { device, command }, FireReply::Device(reply)) => self.takes_device(
                device.as_str(),
                command,
                reply,
            ),
            _ => false,
        }
    }
}

impl<'a> Run<'a> {
    /// Whether a reply is one that the machine waits for.
    pub fn accepts(&self, reply: &Reply) -> (r: bool)
        requires
            self@.sound(),
        ensures
            r == self@.asks(*reply),
    {
        let w: &Rollout = &self.world;
        match (self.phase, reply) {
            (Phase::Sense { .. }, Reply::Sensed(readings)) => w.takes_readings(readings),
            (Phase::Fire { action, .. }, Reply::Fired(reply)) => w.takes_firing(
                w.entry_action(action),
                reply,
            ),
            (Phase::Joints, Reply::Sampled(samples)) => w.takes_samples(samples),
            (Phase::Devices, Reply::Zones(points)) => w.takes_zones(points),
            (Phase::Board, Reply::Decks(replies)) => w.takes_decks(&self.pending.moves, replies),
            (Phase::Carry { next }, Reply::Carried(reply)) => {
                assert(self@.pending.moves[next as int] == self.pending.moves@[next as int]@);
                w.takes_carry(&self.pending.moves[next], &self.riders[next], reply)
            },
            (Phase::Clear, Reply::Cleared { loads, meets, touched }) => {
                let moves: &Vec<VehicleMove> = &self.pending.moves;
                assert forall|i: int| 0 <= i < moves@.len() implies (#[trigger] moves@[i]).device
                    < w.devices@.len() by {
                    assert(self@.pending.moves[i] == moves@[i]@);
                }
                w.takes_loads(moves, loads) && w.takes_meets(moves, meets, touched)
            },
            (Phase::Gaits, Reply::Walked(replies)) => w.takes_strides(replies),
            (Phase::Follow, Reply::Followed(replies)) => w.takes_tracks(replies),
            (Phase::Contacts, Reply::Contacts { held, touched, pairs }) => w.takes_contacts(
                held,
                touched,
                pairs,
            ),
            _ => false,
        }
    }
}

/// How many steps there are, nested ones included, where that can be counted.
fn counted_steps(steps: &Vec<Step>) -> (r: Option<usize>)
    ensures
        r matches Some(n) ==> n == size_steps(steps@),
        r is None ==> size_steps(steps@) > usize::MAX,
    decreases steps@,
{
    let mut n: usize = 0;
    let mut i: usize = 0;
    assert(steps@.skip(0) =~= steps@);
    while i < steps.len()
        invariant
            i <= steps@.len(),
            n + size_steps(steps@.skip(i as int)) == size_steps(steps@),
        decreases steps@.len() - i,
    {
        let ghost rest = steps@.skip(i as int);
        assert(rest[0] == steps@[i as int]);
        assert(rest.drop_first() =~= steps@.skip(i + 1));
        assert(decreases_to!(steps@ => steps@[i as int]));
        assert(decreases_to!(steps@[i as int] => steps@[i as int].select));
        match counted_arms(&steps[i].select) {
            None => {
                return None;
            },
            Some(k) => {
                if k == usize::MAX || n > usize::MAX - 1 - k {
                    return None;
                }
                n = n + 1 + k;
            },
        }
        i = i + 1;
    }
    assert(steps@.skip(i as int) =~= Seq::empty());
    Some(n)
}

fn counted_arms(arms: &Vec<SelectArm>) -> (r: Option<usize>)
    ensures
        r matches Some(n) ==> n == size_arms(arms@),
        r is None ==> size_arms(arms@) > usize::MAX,
    decreases arms@,
{
    let mut n: usize = 0;
    let mut i: usize = 0;
    assert(arms@.skip(0) =~= arms@);
    while i < arms.len()
        invariant
            i <= arms@.len(),
            n + size_arms(arms@.skip(i as int)) == size_arms(arms@),
        decreases arms@.len() - i,
    {
        let ghost rest = arms@.skip(i as int);
        assert(rest[0] == arms@[i as int]);
        assert(rest.drop_first() =~= arms@.skip(i + 1));
        assert(decreases_to!(arms@ => arms@[i as int]));
        assert(decreases_to!(arms@[i as int] => arms@[i as int].steps));
        match counted_steps(&arms[i].steps) {
            None => {
                return None;
            },
            Some(k) => {
                if n > usize::MAX - k {
                    return None;
                }
                n = n + k;
            },
        }
        i = i + 1;
    }
    assert(arms@.skip(i as int) =~= Seq::empty());
    Some(n)
}

impl Scene {
    /// Whether the named sequences can be rolled out over the scene, given the
    /// faults that were found in them.
    pub fn is_rollable(&self, names: &[&str], faults: &Vec<Option<SequenceFault>>) -> (r: bool)
        ensures
            r == rollable(*self, names@, faults@),
    {
        if !self.is_valid() || faults.len() != names.len() {
            return false;
        }
        let mut i: usize = 0;
        while i < names.len()
            invariant
                i <= names@.len(),
                faults@.len() == names@.len(),
                forall|j: int|
                    0 <= j < i && (#[trigger] faults@[j]) is None ==> (find(
                        names_of(self.sequences@),
                        names@[j]@,
                    ) matches Some(k) ==> runnable(self.sequences@[k])),
            decreases names@.len() - i,
        {
            if faults[i].is_none() {
                match find_named(&self.sequences, names[i]) {
                    Some(k) => match counted_steps(&self.sequences[k].steps) {
                        Some(n) => {
                            if n == 0 {
                                return false;
                            }
                        },
                        None => {
                            return false;
                        },
                    },
                    None => {},
                }
            }
            i += 1;
        }
        true
    }
}

/// Whether a scanner's beams can be laid out.
pub fn is_sweepable(lidar: &Lidar) -> (r: bool)
    ensures
        r == sweepable(*lidar),
{
    if lidar.resolution_deg <= 0 || lidar.fov_deg < 0 || lidar.vfov_deg < 0 || lidar.range.0 < 0
        || lidar.range.1 < lidar.range.0 {
        return false;
    }
    let n: i128 = floor_div(
        2 * lidar.fov_deg as i128 + lidar.resolution_deg as i128,
        2 * lidar.resolution_deg as i128,
    );
    let steps: i128 = if n < 1 {
        1
    } else {
        n
    };
    let beams: i128 = if lidar.fov_deg as i128 >= 360 * UNIT as i128 - NANO as i128 {
        steps
    } else {
        steps + 1
    };
    let rings: i128 = if lidar.channels <= 1 {
        1
    } else {
        lidar.channels as i128
    };
    assert(n <= 2 * lidar.fov_deg + lidar.resolution_deg) by (nonlinear_arith)
        requires
            n == (2 * lidar.fov_deg + lidar.resolution_deg) / (2 * lidar.resolution_deg),
            lidar.resolution_deg > 0,
            lidar.fov_deg >= 0,
    ;
    assert(0 < beams * rings <= 0x4_0000_0000_0000_0000 * 0x1_0000_0000) by (nonlinear_arith)
        requires
            0 < beams <= 0x4_0000_0000_0000_0000,
            0 < rings <= 0x1_0000_0000,
    ;
    beams * rings <= usize::MAX as i128
}

fn is_links_answered(robots: &Vec<Robot>, tois: &Vec<Vec<Option<Pico>>>) -> (r: bool)
    ensures
        r == links_answered(robots@, tois@),
{
    if tois.len() != robots.len() {
        return false;
    }
    let mut i: usize = 0;
    while i < tois.len()
        invariant
            i <= tois@.len(),
            tois@.len() == robots@.len(),
            forall|k: int| 0 <= k < i ==> (#[trigger] tois@[k])@.len() == robots@[k].links@.len(),
        decreases tois@.len() - i,
    {
        if tois[i].len() != robots[i].links.len() {
            return false;
        }
        i += 1;
    }
    true
}

fn is_sweep_answered(
    scene: &Scene,
    lidar: &Lidar,
    reply: &SweepReply,
    noise: Option<ScanNoise>,
) -> (r: bool)
    requires
        sweepable(*lidar),
    ensures
        r == sweep_answered(*scene, *lidar, *reply, noise),
{
    let grid: (usize, usize) = beam_grid(lidar);
    proof {
        assert(ring_beams(*lidar) * ring_count(*lidar) == ring_count(*lidar) * ring_beams(*lidar))
            by (nonlinear_arith);
    }
    let n: usize = grid.0 * grid.1;
    if reply.boxes.len() != scene.obstacles.len() || reply.bodies.len() != n || reply.links.len()
        != n || reply.draws.len() != n || !is_wide(&reply.bodies, scene.obstacles.len()) {
        return false;
    }
    let mut i: usize = 0;
    while i < n
        invariant
            i <= n,
            n == beam_count(*lidar),
            reply.links@.len() == n,
            reply.draws@.len() == n,
            forall|k: int|
                0 <= k < i ==> links_answered(scene.robots@, (#[trigger] reply.links@[k])@),
            noise matches Some(noise) ==> noise.sigma > 0 ==> forall|k: int|
                0 <= k < i ==> (#[trigger] reply.draws@[k]).0 == noise_key_of(
                    noise.seed,
                    k as u64,
                    reply.instant,
                ),
        decreases n - i,
    {
        if !is_links_answered(&scene.robots, &reply.links[i]) {
            return false;
        }
        match noise {
            Some(noise) => {
                if noise.sigma > 0 && reply.draws[i].0 != noise_key(
                    noise.seed,
                    i as u64,
                    reply.instant,
                ) {
                    return false;
                }
            },
            None => {},
        }
        i += 1;
    }
    true
}

/// Whether an answer fits the sweep of the scanner named `name`.
pub fn is_answer_fitting(
    scene: &Scene,
    timeline: &SequenceTimeline,
    name: &str,
    noise: Option<ScanNoise>,
    answer: &SweepAnswer,
) -> (r: bool)
    ensures
        r == answer_fits(*scene, *timeline, name@, noise, *answer),
{
    match find_named(&scene.lidars, name) {
        None => true,
        Some(k) => {
            if !is_sweepable(&scene.lidars[k]) {
                return false;
            }
            match answer {
                SweepAnswer::Swept(reply) => is_sweep_answered(
                    scene,
                    &scene.lidars[k],
                    reply,
                    noise,
                ),
                SweepAnswer::Refused { robot, .. } => *robot < timeline.robots.len(),
            }
        },
    }
}

} // verus!
