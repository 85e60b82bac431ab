//! What holds of whole runs, and of whole programs.

use vstd::prelude::*;

use crate::devices::DeviceView;
use crate::dispatch::{law_firing_moves_no_cursor, FireReply};
use crate::engine::{begun, comes_to, Next, Phase, Reply, RunView};
use crate::error::SeqError;
use crate::export::{CommandView, TestView};
use crate::fire::Fired;
use crate::fixed::{abs, clip, muldiv, Pico, Pose, UNIT};
use crate::lower::{device_lowered, test_of, waits_for, waits_for_each, Emit, IoView};
use crate::names::{find, lemma_find, names_of};
use crate::program::{counted, left_over, lowered, program_start, ProgramOptions};
use crate::programs::Onward;
use crate::ride::{CarryReply, DeckReply};
use crate::rollout::{holds, lemma_ready_exit, RolloutOptions, RolloutView};
use crate::scene::{body_index, is_held, Obstacle, Robot, Scene};
use crate::sensors::Reading;
use crate::seq::{Action, Condition, SelectArm, Sequence, Step};
use crate::script::{
    any_starts_move, arms_lowered, bumped, emitter, rejoined, step_lowered, steps_lowered,
    targeted, took, Branch, LowerView, Place, SourceView,
};
use crate::stride::StrideReply;
use crate::text::decimal;
use crate::tick::{
    belt_left, belt_reach, carried_along, stride, tick_of, ticks_of, under_way, zone_bodies,
    MoveView, Surroundings, TickView,
};
use crate::devices::{Conveyor, StateView};
use crate::timeline::{PlannedView, SegmentKind, SegmentView, StepSpanView};
use crate::views::views;
use crate::walk::GaitReply;
use crate::world::TrackReply;

verus! {

/// Rolling out repeats: from the same state, the same reply has the same
/// outcome.
pub proof fn law_rollouts_repeat(
    before: RunView,
    reply: Reply,
    first: Result<(), SeqError>,
    first_after: RunView,
    second: Result<(), SeqError>,
    second_after: RunView,
)
    requires
        comes_to(first, first_after, before.next(reply)),
        comes_to(second, second_after, before.next(reply)),
    ensures
        first is Ok <==> second is Ok,
        first is Ok ==> first_after == second_after,
        first matches Err(a) ==> (second matches Err(b) && a@ == b@),
{
}

/// Of the exits of a step, the first whose condition holds is taken: authored
/// order is priority. None is taken where none holds.
pub proof fn law_first_true_arm_wins(v: RolloutView)
    requires
        v.scannable(),
        !v.programs[v.current as int].finished(),
    ensures
        ({
            let p = v.programs[v.current as int];
            let step = p.flat[p.step as int];
            match v.ready() {
                Some(j) => 0 <= j < step.exits.len() && holds(step.condition(j), v.scan())
                    && forall|k: int|
                    0 <= k < j ==> !holds(#[trigger] step.condition(k), v.scan()),
                None => forall|k: int|
                    0 <= k < step.exits.len() ==> !holds(#[trigger] step.condition(k), v.scan()),
            }
        }),
{
    let p = v.programs[v.current as int];
    lemma_ready_exit(p.flat[p.step as int], v.scan(), 0);
}

/// A program whose scan was just closed sees no edge until a lane changes: an
/// edge is seen once, and what is high at the start is a level.
pub proof fn law_closed_scan_sees_no_edge(v: RolloutView, p: int, name: String)
    requires
        0 <= p < v.programs.len(),
        v.programs.len() <= usize::MAX,
    ensures
        !holds(Condition::Rising { name }, v.closed_scan(p).turn(p).scan()),
        !holds(Condition::Falling { name }, v.closed_scan(p).turn(p).scan()),
{
    let w = v.closed_scan(p).turn(p);
    let scan = w.scan();
    lemma_find(scan.lanes.names(), name@, 0);
    match find(scan.lanes.names(), name@) {
        Some(lane) => {
            assert(scan.prev == v.lanes.levels());
            assert(scan.before(lane) == scan.now(lane));
        },
        None => {},
    }
}

/// At the start, once every program's scan is closed, no program sees an edge.
pub proof fn law_startup_levels_are_no_edges(v: RolloutView, p: int, name: String)
    requires
        0 <= p < v.programs.len(),
        v.programs.len() <= usize::MAX,
    ensures
        !holds(Condition::Rising { name }, v.scans_closed(v.programs.len()).turn(p).scan()),
        !holds(Condition::Falling { name }, v.scans_closed(v.programs.len()).turn(p).scan()),
{
    let w = v.scans_closed(v.programs.len());
    lemma_scans_closed(v, v.programs.len());
    let scan = w.turn(p).scan();
    lemma_find(scan.lanes.names(), name@, 0);
    match find(scan.lanes.names(), name@) {
        Some(lane) => {
            assert(scan.prev == v.lanes.levels());
            assert(scan.before(lane) == scan.now(lane));
        },
        None => {},
    }
}

/// A signal that one program writes is there for every other in the same scan:
/// its level holds at once, and a program that saw the other level at its own
/// previous scan sees the edge. A pinned lane is not written.
pub proof fn law_a_write_is_seen_in_the_same_scan(
    v: RolloutView,
    signal: String,
    value: bool,
    q: int,
)
    requires
        0 <= q < v.programs.len(),
        v.programs.len() <= usize::MAX,
        find(v.lanes.names(), signal@) matches Some(lane) && !v.lanes.pinned(lane),
    ensures
        v.fired_set(signal@, value) matches Fired::Leads(w) && {
            let lane = find(v.lanes.names(), signal@)->0;
            let seen = v.programs[q].prev_signals;
            &&& holds(Condition::Signal { name: signal, value }, w.turn(q).scan())
            &&& 0 <= lane < seen.len() && seen[lane] != value ==> holds(
                if value {
                    Condition::Rising { name: signal }
                } else {
                    Condition::Falling { name: signal }
                },
                w.turn(q).scan(),
            )
        },
{
    let lane = find(v.lanes.names(), signal@)->0;
    lemma_find(v.lanes.names(), signal@, 0);
    let w = RolloutView { lanes: v.lanes.set(lane, v.t, value), ..v };
    assert(w.lanes.names() =~= v.lanes.names());
}

pub proof fn lemma_scans_closed(v: RolloutView, n: nat)
    requires
        n <= v.programs.len(),
    ensures
        v.scans_closed(n) == (RolloutView { programs: v.scans_closed(n).programs, ..v }),
        v.scans_closed(n).programs.len() == v.programs.len(),
        forall|p: int|
            0 <= p < n ==> (#[trigger] v.scans_closed(n).programs[p]).prev_signals
                == v.lanes.levels(),
    decreases n,
{
    if n > 0 {
        lemma_scans_closed(v, (n - 1) as nat);
    }
}

/// What a tick spends of a fixed advance.
pub open spec fn belt_spent(c: Conveyor, dt: Pico) -> int {
    match c.remaining {
        Some(rem) => match belt_left(c, dt) {
            Some(left) => rem - left,
            None => rem as int,
        },
        None => 0,
    }
}

/// A belt after `n` ticks.
pub open spec fn belt_after(c: Conveyor, dt: Pico, n: nat) -> Conveyor
    decreases n,
{
    if n == 0 {
        c
    } else {
        let less = belt_after(c, dt, (n - 1) as nat);
        Conveyor { remaining: belt_left(less, dt), ..less }
    }
}

/// What `n` ticks spend of a fixed advance.
pub open spec fn belt_travel(c: Conveyor, dt: Pico, n: nat) -> int
    decreases n,
{
    if n == 0 {
        0
    } else {
        belt_travel(c, dt, (n - 1) as nat) + belt_spent(belt_after(c, dt, (n - 1) as nat), dt)
    }
}

/// A fixed advance spends exactly the distance asked for: what has been run
/// and what is left always add up to it, no tick runs further than the belt
/// can, and the advance ends as soon as the belt could have run it.
pub proof fn law_advance_runs_exactly_the_distance(c: Conveyor, distance: Pico, dt: Pico, n: nat)
    requires
        c.remaining == Some(distance),
        distance > 0,
        belt_reach(c.velocity, dt) > 0,
    ensures
        match belt_after(c, dt, n).remaining {
            Some(left) => belt_travel(c, dt, n) + left == distance && n * belt_reach(
                c.velocity,
                dt,
            ) < distance,
            None => belt_travel(c, dt, n) == distance && distance <= n * belt_reach(
                c.velocity,
                dt,
            ),
        },
        belt_spent(belt_after(c, dt, n), dt) <= belt_reach(c.velocity, dt),
    decreases n,
{
    let reach = belt_reach(c.velocity, dt) as int;
    if n > 0 {
        let m = (n - 1) as nat;
        law_advance_runs_exactly_the_distance(c, distance, dt, m);
        lemma_belt_left(c, distance, dt, m);
        assert(n * reach == m * reach + reach) by (nonlinear_arith)
            requires
                n == m + 1,
        ;
    }
    lemma_belt_left(c, distance, dt, n);
}

proof fn lemma_belt_left(c: Conveyor, distance: Pico, dt: Pico, n: nat)
    requires
        c.remaining == Some(distance),
        distance > 0,
        belt_reach(c.velocity, dt) > 0,
    ensures
        belt_after(c, dt, n).velocity == c.velocity,
        belt_after(c, dt, n).remaining matches Some(left) ==> left == distance - n * belt_reach(
            c.velocity,
            dt,
        ) && left > 0,
    decreases n,
{
    let reach = belt_reach(c.velocity, dt) as int;
    if n > 0 {
        let m = (n - 1) as nat;
        lemma_belt_left(c, distance, dt, m);
        assert(n * reach == m * reach + reach) by (nonlinear_arith)
            requires
                n == m + 1,
        ;
    }
}

/// Where an axis stands after `n` ticks.
pub open spec fn axis_after(position: Pico, target: Pico, speed: Pico, dt: Pico, n: nat) -> Pico
    decreases n,
{
    if n == 0 {
        position
    } else {
        let at = axis_after(position, target, speed, dt, (n - 1) as nat);
        if under_way(at, target, speed) {
            clip(at + stride(at, target, speed, dt))
        } else {
            at
        }
    }
}

/// How far an axis can go in a tick.
pub open spec fn axis_reach(speed: Pico, dt: Pico) -> Pico {
    clip(muldiv(speed as int, dt as int, UNIT as int))
}

/// An axis never overshoots, and what is left of its way shrinks by its reach
/// each tick until it stands exactly at its target.
pub proof fn law_axis_lands_on_its_target(
    position: Pico,
    target: Pico,
    speed: Pico,
    dt: Pico,
    n: nat,
)
    requires
        speed > 0,
        axis_reach(speed, dt) > 0,
    ensures
        ({
            let at = axis_after(position, target, speed, dt, n);
            let reach = axis_reach(speed, dt) as int;
            let way = abs(target - position);
            &&& way <= n * reach ==> at == target
            &&& way > n * reach ==> abs(target - at) == way - n * reach
            &&& position <= target ==> position <= at <= target
            &&& position >= target ==> position >= at >= target
        }),
    decreases n,
{
    let reach = axis_reach(speed, dt) as int;
    if n > 0 {
        let m = (n - 1) as nat;
        law_axis_lands_on_its_target(position, target, speed, dt, m);
        assert(n * reach == m * reach + reach) by (nonlinear_arith)
            requires
                n == m + 1,
        ;
    }
}

/// Nothing that a robot holds is moved by a device, nor taken by a sink.
pub proof fn law_held_bodies_stay_with_their_robot(
    devices: Seq<DeviceView>,
    inside: Seq<Seq<bool>>,
    w: Surroundings,
    n: nat,
)
    requires
        n <= devices.len(),
        w.obstacles.len() <= usize::MAX,
    ensures
        forall|i: int|
            0 <= i < ticks_of(devices, inside, w, n).moved.len() ==> !is_held(
                w.attachments,
                w.obstacles[(#[trigger] ticks_of(
                    devices,
                    inside,
                    w,
                    n,
                ).moved[i]).obstacle as int].name@,
            ),
        forall|i: int|
            0 <= i < ticks_of(devices, inside, w, n).returned.len() ==> !is_held(
                w.attachments,
                w.obstacles[(#[trigger] ticks_of(
                    devices,
                    inside,
                    w,
                    n,
                ).returned[i]).obstacle as int].name@,
            ),
    decreases n,
{
    if n > 0 {
        law_held_bodies_stay_with_their_robot(devices, inside, w, (n - 1) as nat);
        lemma_tick_spares_held(devices[n - 1], (n - 1) as usize, inside[n - 1], w);
    }
}

proof fn lemma_tick_spares_held(
    device: DeviceView,
    index: usize,
    inside: Seq<bool>,
    w: Surroundings,
)
    requires
        w.obstacles.len() <= usize::MAX,
    ensures
        forall|i: int|
            0 <= i < tick_of(device, index, inside, w).moved.len() ==> !is_held(
                w.attachments,
                w.obstacles[(#[trigger] tick_of(
                    device,
                    index,
                    inside,
                    w,
                ).moved[i]).obstacle as int].name@,
            ),
        forall|i: int|
            0 <= i < tick_of(device, index, inside, w).returned.len() ==> !is_held(
                w.attachments,
                w.obstacles[(#[trigger] tick_of(
                    device,
                    index,
                    inside,
                    w,
                ).returned[i]).obstacle as int].name@,
            ),
{
    let bodies = zone_bodies(w.obstacles, w.attachments, inside, w.obstacles.len());
    lemma_zone_spares_held(w, inside, w.obstacles.len());
    let tick = tick_of(device, index, inside, w);
    match device.state {
        StateView::Conveyor(c) => {
            assert forall|i: int| 0 <= i < tick.moved.len() implies !is_held(
                w.attachments,
                w.obstacles[(#[trigger] tick.moved[i]).obstacle as int].name@,
            ) by {
                let k = bodies[i];
                assert(0 <= k < w.obstacles.len());
                lemma_first_of_name(w.obstacles, k);
            }
        },
        StateView::Axis(a) => {
            let step = stride(a.position, a.target, a.speed, w.dt);
            let delta = crate::tick::along(a.axis, step);
            lemma_carried_spares_held(a.objects, w, delta, crate::vehicle::rate_over(delta, w.dt));
        },
        StateView::Lift(l) => {
            let step = stride(l.position, l.target, l.speed, w.dt);
            let delta = crate::tick::along(l.axis, step);
            lemma_carried_spares_held(
                l.car + l.cargo_objects,
                w,
                delta,
                crate::vehicle::rate_over(delta, w.dt),
            );
        },
        StateView::Sink(s) => {
            assert forall|i: int| 0 <= i < tick.returned.len() implies !is_held(
                w.attachments,
                w.obstacles[(#[trigger] tick.returned[i]).obstacle as int].name@,
            ) by {
                let k = bodies[i];
                assert(0 <= k < w.obstacles.len());
            }
        },
        _ => {},
    }
}

proof fn lemma_first_of_name(obstacles: Seq<Obstacle>, k: int)
    requires
        0 <= k < obstacles.len(),
        obstacles.len() <= usize::MAX,
    ensures
        ({
            let first = body_index(obstacles, obstacles[k].name@);
            first is Some && obstacles[(first->0 as usize) as int].name@ == obstacles[k].name@
        }),
{
    lemma_find(names_of(obstacles), obstacles[k].name@, 0);
    assert(names_of(obstacles)[k] == obstacles[k].name@);
}

proof fn lemma_zone_spares_held(w: Surroundings, inside: Seq<bool>, n: nat)
    requires
        n <= w.obstacles.len(),
    ensures
        forall|i: int|
            0 <= i < zone_bodies(w.obstacles, w.attachments, inside, n).len() ==> 0
                <= #[trigger] zone_bodies(w.obstacles, w.attachments, inside, n)[i] < n
                && !is_held(
                w.attachments,
                w.obstacles[zone_bodies(w.obstacles, w.attachments, inside, n)[i]].name@,
            ),
    decreases n,
{
    if n > 0 {
        lemma_zone_spares_held(w, inside, (n - 1) as nat);
    }
}

proof fn lemma_carried_spares_held(
    names: Seq<String>,
    w: Surroundings,
    delta: crate::fixed::Vec3,
    velocity: crate::fixed::Vec3,
)
    requires
        w.obstacles.len() <= usize::MAX,
    ensures
        forall|i: int|
            0 <= i < carried_along(names, w.obstacles, w.attachments, delta, velocity).len()
                ==> !is_held(
                w.attachments,
                w.obstacles[(#[trigger] carried_along(
                    names,
                    w.obstacles,
                    w.attachments,
                    delta,
                    velocity,
                )[i]).obstacle as int].name@,
            ),
    decreases names.len(),
{
    if names.len() > 0 {
        lemma_carried_spares_held(names.drop_last(), w, delta, velocity);
        lemma_find(names_of(w.obstacles), names.last()@, 0);
    }
}

/// Every step span begins and ends within the time run so far.
pub open spec fn spans_within(v: RolloutView) -> bool {
    forall|i: int|
        0 <= i < v.step_spans.len() ==> 0 <= (#[trigger] v.step_spans[i]).start
            <= v.step_spans[i].end <= v.t
}

/// A run whose clock shows its scans, and whose spans lie within it.
pub open spec fn on_time(run: RunView) -> bool {
    &&& run.world.options.dt > 0
    &&& run.world.t == clip(run.tick * run.world.options.dt)
    &&& spans_within(run.world)
}

/// The same scene and options at the same instant.
pub open spec fn same_instant_of(v: RolloutView, w: RolloutView) -> bool {
    w.scene == v.scene && w.options == v.options && w.t == v.t
}

/// The same tracks.
pub open spec fn same_tracks(v: RolloutView, w: RolloutView) -> bool {
    w.objects == v.objects && w.vehicles == v.vehicles
}

/// The same instant, and no step entered or left.
pub open spec fn same_spans(v: RolloutView, w: RolloutView) -> bool {
    same_instant_of(v, w) && w.step_spans == v.step_spans
}

proof fn lemma_entered(v: RolloutView)
    requires
        spans_within(v),
        v.t >= 0,
    ensures
        same_instant_of(v, v.entered()),
        same_tracks(v, v.entered()),
        spans_within(v.entered()),
{
    let e = v.entered();
    assert forall|i: int| 0 <= i < e.step_spans.len() implies 0 <= (
    #[trigger] e.step_spans[i]).start <= e.step_spans[i].end <= e.t by {
        if i < v.step_spans.len() {
            assert(e.step_spans[i] == v.step_spans[i]);
        }
    }
}

proof fn lemma_took(v: RolloutView, j: int)
    requires
        spans_within(v),
        v.t >= 0,
    ensures
        same_instant_of(v, v.took(j)),
        same_tracks(v, v.took(j)),
        spans_within(v.took(j)),
{
    let w = v.took(j);
    let span = v.programs[v.current as int].open_span as int;
    assert forall|i: int| 0 <= i < w.step_spans.len() implies 0 <= (
    #[trigger] w.step_spans[i]).start <= w.step_spans[i].end <= w.t by {
        assert(0 <= v.step_spans[i].start <= v.step_spans[i].end <= v.t);
        if i == span {
            assert(w.step_spans[i] == (StepSpanView { end: v.t, ..v.step_spans[i] }));
        } else {
            assert(w.step_spans[i] == v.step_spans[i]);
        }
    }
}

/// What an onward step leads to, at the same instant.
pub open spec fn leads_on(v: RolloutView, onward: Onward) -> bool {
    match onward {
        Onward::Fails(_) => true,
        Onward::Fires { world, .. } => {
            same_instant_of(v, world) && same_tracks(v, world) && spans_within(world)
        },
        Onward::Ends(world) => {
            same_instant_of(v, world) && same_tracks(v, world) && spans_within(world)
        },
    }
}

pub proof fn lemma_onward(v: RolloutView, chain: int)
    requires
        spans_within(v),
        v.t >= 0,
    ensures
        leads_on(v, v.onward(chain)),
    decreases
            v.programs.len() - v.current,
            v.options.immediate_chain_limit + 1 - chain,
{
    if v.current < v.programs.len() {
        let c = v.current as int;
        let w = match v.ready() {
            None => v,
            Some(j) => v.took(j),
        };
        match v.ready() {
            None => {},
            Some(j) => {
                lemma_took(v, j);
            },
        }
        if v.ready() is None || w.programs[c].finished() {
            let closed = w.closed_scan(c);
            assert(closed.step_spans == w.step_spans);
            match closed.next_turn() {
                Some(next) => {
                    lemma_onward(next, 0);
                },
                None => {},
            }
        } else if chain + 1 > v.options.immediate_chain_limit {
        } else {
            lemma_entered(w);
            let e = w.entered();
            if e.entry_actions().len() > 0 {
            } else {
                lemma_onward(e, chain + 1);
            }
        }
    }
}

pub proof fn lemma_opening(v: RolloutView)
    requires
        spans_within(v),
        v.t >= 0,
    ensures
        leads_on(v, v.opening()),
    decreases v.programs.len() - v.current,
{
    if v.current < v.programs.len() {
        lemma_entered(v);
        let e = v.entered();
        if e.entry_actions().len() == 0 {
            match e.next_turn() {
                Some(next) => {
                    lemma_opening(next);
                },
                None => {
                    lemma_onward(e.turn(0), 0);
                },
            }
        }
    }
}

pub proof fn lemma_opened_on(v: RolloutView)
    requires
        spans_within(v),
        v.t >= 0,
    ensures
        leads_on(v, v.opened_on()),
{
    match v.next_turn() {
        Some(next) => {
            lemma_opening(next);
        },
        None => {
            lemma_onward(v.turn(0), 0);
        },
    }
}

proof fn lemma_boarded(
    v: RolloutView,
    moves: Seq<MoveView>,
    advected: Seq<String>,
    replies: Seq<DeckReply>,
    n: nat,
)
    ensures
        same_spans(v, v.boarded(moves, advected, replies, n)),
    decreases n,
{
    if n > 0 {
        lemma_boarded(v, moves, advected, replies, (n - 1) as nat);
    }
}

proof fn lemma_members(
    v: RolloutView,
    m: MoveView,
    members: Seq<String>,
    turned: Seq<Seq<Pose>>,
    n: nat,
)
    ensures
        same_spans(v, v.members_carried(m, members, turned, n)),
    decreases n,
{
    if n > 0 {
        lemma_members(v, m, members, turned, (n - 1) as nat);
    }
}

proof fn lemma_robots(v: RolloutView, m: MoveView, reply: CarryReply, n: nat)
    ensures
        same_spans(v, v.robots_carried(m, reply, n)),
    decreases n,
{
    if n > 0 {
        lemma_robots(v, m, reply, (n - 1) as nat);
    }
}

proof fn lemma_carried(v: RolloutView, m: MoveView, riders: Seq<String>, reply: CarryReply)
    ensures
        same_spans(v, v.carried(m, riders, reply)),
{
    let members = v.mover_body(m) + riders;
    let a = v.frame_carried(m, reply);
    lemma_members(a, m, members, views(reply.members_turned@), members.len());
    let b = a.members_carried(m, members, views(reply.members_turned@), members.len());
    lemma_robots(b, m, reply, v.robots.len());
}

proof fn lemma_loads(v: RolloutView, moves: Seq<MoveView>, loads: Seq<Vec<Pose>>, n: nat)
    ensures
        same_spans(v, v.loads_placed(moves, loads, n)),
    decreases n,
{
    if n > 0 {
        lemma_loads(v, moves, loads, (n - 1) as nat);
    }
}

proof fn lemma_walked(v: RolloutView, replies: Seq<Option<StrideReply>>, n: nat)
    ensures
        v.all_walked(replies, n) matches Fired::Leads(w) ==> same_spans(v, w),
    decreases n,
{
    if n > 0 {
        lemma_walked(v, replies, (n - 1) as nat);
    }
}

proof fn lemma_followed(v: RolloutView, replies: Seq<TrackReply>, n: nat)
    ensures
        v.all_tracked(replies, n) matches Fired::Leads(w) ==> same_spans(v, w),
    decreases n,
{
    if n > 0 {
        lemma_followed(v, replies, (n - 1) as nat);
    }
}

proof fn lemma_settled(v: RolloutView, tick: TickView, riders: Seq<Seq<String>>)
    ensures
        same_spans(v, v.tick_settled(tick, riders)),
{
}

proof fn lemma_came_to(run: RunView, onward: Onward)
    requires
        on_time(run),
        leads_on(run.world, onward),
    ensures
        run.came_to(onward) matches Next::Leads(after) ==> {
            &&& on_time(after)
            &&& after.world.scene == run.world.scene
            &&& after.world.options == run.world.options
            &&& after.world.t >= run.world.t
            &&& after.world.t > run.world.t ==> after.world.t <= run.world.options.max_duration
        },
{
    match onward {
        Onward::Ends(world) => {
            let dt = run.world.options.dt as int;
            let tick = if run.tick < u64::MAX {
                (run.tick + 1) as u64
            } else {
                run.tick
            };
            assert(tick * dt >= run.tick * dt) by (nonlinear_arith)
                requires
                    tick >= run.tick,
                    dt > 0,
            ;
        },
        _ => {},
    }
}

/// A run that starts is on time: it is at zero, with no step entered.
pub proof fn law_runs_start_at_zero(
    scene: Scene,
    sequences: Seq<&Sequence>,
    options: RolloutOptions,
    scenario: Option<String>,
)
    requires
        options.dt > 0,
    ensures
        begun(scene, sequences, options, scenario).world.t == 0,
        on_time(begun(scene, sequences, options, scenario)),
{
}

/// A run that goes on from another: on time, over the same scene.
spec fn goes_on_time(run: RunView, next: Next) -> bool {
    next matches Next::Leads(after) ==> {
        &&& on_time(after)
        &&& after.world.scene == run.world.scene
        &&& after.world.options == run.world.options
        &&& after.world.t >= run.world.t
        &&& after.world.t > run.world.t ==> after.world.t <= run.world.options.max_duration
    }
}

proof fn lemma_sense_on_time(run: RunView, readings: Vec<Reading>)
    requires
        on_time(run),
        run.world.t >= 0,
        run.phase is Sense,
    ensures
        goes_on_time(run, run.next(Reply::Sensed(readings))),
{
    let w = run.world.sensed(readings@);
    if run.phase->starting {
        lemma_scans_closed(w, w.programs.len());
        lemma_opening(w.scans_closed(w.programs.len()).turn(0));
        lemma_came_to(run, w.scans_closed(w.programs.len()).turn(0).opening());
    } else {
        lemma_onward(w.turn(0), 0);
        lemma_came_to(run, w.turn(0).onward(0));
    }
}

proof fn lemma_fire_on_time(run: RunView, answer: FireReply)
    requires
        on_time(run),
        run.world.t >= 0,
        run.phase is Fire,
        run.world.current < run.world.programs.len(),
    ensures
        goes_on_time(run, run.next(Reply::Fired(answer))),
{
    let v = run.world;
    let a = v.entry_actions()[run.phase->action as int];
    law_firing_moves_no_cursor(v, a, answer);
    match v.fired(a, answer) {
        Fired::Fails(_) => {},
        Fired::Leads(w) => {
            assert(spans_within(w));
            let there = RunView { world: w, ..run };
            match run.phase->chain {
                Some(n) => {
                    lemma_onward(w, n as int);
                    lemma_came_to(there, w.onward(n as int));
                },
                None => {
                    lemma_opened_on(w);
                    lemma_came_to(there, w.opened_on());
                },
            }
        },
    }
}

/// Every instant of a run is a whole number of scan periods, time never runs
/// back nor past the longest duration allowed, every step span lies within the
/// time run, and the scene and the options stay as they were.
pub proof fn law_instants_are_scans(run: RunView, reply: Reply)
    requires
        on_time(run),
        run.sound(),
        run.asks(reply),
    ensures
        run.next(reply) matches Next::Leads(after) ==> {
            &&& on_time(after)
            &&& after.world.scene == run.world.scene
            &&& after.world.options == run.world.options
            &&& after.world.t >= run.world.t
            &&& after.world.t > run.world.t ==> after.world.t <= run.world.options.max_duration
        },
{
    let v = run.world;
    assert(v.t >= 0) by {
        assert(run.tick * v.options.dt >= 0) by (nonlinear_arith)
            requires
                run.tick >= 0,
                v.options.dt > 0,
        ;
    }
    match (run.phase, reply) {
        (Phase::Sense { .. }, Reply::Sensed(readings)) => {
            lemma_sense_on_time(run, readings);
        },
        (Phase::Fire { .. }, Reply::Fired(answer)) => {
            lemma_fire_on_time(run, answer);
        },
        (Phase::Devices, Reply::Zones(points)) => {
            let inside = v.inside(views(points@));
            let w = v.devices_advanced(inside);
            let tick = v.tick(inside);
            lemma_settled(RolloutView { moving: Seq::empty(), ..w }, tick, Seq::empty());
        },
        (Phase::Board, Reply::Decks(replies)) => {
            let moves = run.pending.moves;
            lemma_boarded(
                v,
                moves,
                crate::world::advected(v.obstacles, run.pending.moved),
                replies@,
                moves.len(),
            );
        },
        (Phase::Carry { next }, Reply::Carried(answer)) => {
            lemma_carried(
                v,
                run.pending.moves[next as int],
                run.riders[next as int],
                answer,
            );
        },
        (Phase::Clear, Reply::Cleared { loads, meets, touched }) => {
            let moves = run.pending.moves;
            lemma_loads(v, moves, loads@, moves.len());
            let w = v.loads_placed(moves, loads@, moves.len());
            match w.moves_checked(moves, run.riders, views(meets@), touched@) {
                Fired::Fails(_) => {},
                Fired::Leads(x) => {
                    lemma_settled(x, run.pending, run.riders);
                },
            }
        },
        (Phase::Gaits, Reply::Walked(replies)) => {
            lemma_walked(v, replies@, v.robots.len());
        },
        (Phase::Follow, Reply::Followed(replies)) => {
            lemma_followed(v, replies@, v.robots.len());
        },
        _ => {},
    }
}

/// A run that is through closes into a timeline whose step spans lie within
/// its cycle.
pub proof fn law_spans_lie_in_the_cycle(run: RunView, rests: Seq<Pose>)
    requires
        on_time(run),
    ensures
        ({
            let timeline = run.world.timeline(rests);
            forall|i: int|
                0 <= i < timeline.step_spans.len() ==> 0 <= (#[trigger] timeline.step_spans[i]).start
                    <= timeline.step_spans[i].end <= timeline.duration
        }),
{
}

/// Walking costs no cycle time: starting a walk and stepping it change nothing
/// that a program, a device or a lane goes by.
pub proof fn law_walking_costs_no_cycle_time(
    v: RolloutView,
    device: Seq<char>,
    walks: Seq<Option<GaitReply>>,
    strides: Seq<Option<StrideReply>>,
    n: nat,
)
    ensures
        v.fired_walks(device, walks, n) matches Fired::Leads(w) ==> same_pace(v, w),
        v.all_walked(strides, n) matches Fired::Leads(w) ==> same_pace(v, w),
    decreases n,
{
    if n > 0 {
        law_walking_costs_no_cycle_time(v, device, walks, strides, (n - 1) as nat);
    }
}

/// The same instant, programs, devices and lanes.
pub open spec fn same_pace(v: RolloutView, w: RolloutView) -> bool {
    &&& w.t == v.t
    &&& w.programs == v.programs
    &&& w.devices == v.devices
    &&& w.lanes == v.lanes
    &&& w.step_spans == v.step_spans
}

/// Every authored arm is in the program, taken or not: a branch lowers to as
/// many arms as it has, each with the test of its own guard.
pub proof fn law_every_arm_is_lowered(l: LowerView, arms: Seq<SelectArm>, j: int, b: Branch)
    ensures
        arms_lowered(l, arms, j, b) matches Ok(lowered) ==> {
            &&& lowered.arms.len() == arms.len()
            &&& lowered.exits.len() == arms.len()
        },
    decreases arms.len(),
{
    if arms.len() > 0 {
        match test_of(arms[0].condition, l.io, b.label + " arm "@ + decimal((j + 1) as nat)) {
            Err(_) => {},
            Ok(_) => {
                let takers = took(b.active, b.taken, j, b.active.len());
                match emitter(l, b.emitting, takers, b.entry, b.label) {
                    Err(_) => {},
                    Ok(who) => match steps_lowered(
                        Place { l, q: b.entry, out: Seq::empty() },
                        arms[0].steps@,
                        takers,
                        who,
                    ) {
                        Err(_) => {},
                        Ok(p) => {
                            law_every_arm_is_lowered(p.l, arms.drop_first(), j + 1, b);
                        },
                    },
                }
            },
        }
    }
}

/// Lowering goes on from a place: the commands up to `n` and the warnings stay,
/// and the last of those commands is a comment.
spec fn goes_on(a: Place, b: Place, n: int) -> bool {
    &&& a.l.warnings.is_prefix_of(b.l.warnings)
    &&& 0 < n <= a.out.len() <= b.out.len()
    &&& a.out[n - 1] is Comment
    &&& b.out.take(n) == a.out.take(n)
}

proof fn lemma_goes_on(a: Place, b: Place, c: Place, n: int)
    requires
        goes_on(a, b, n),
        goes_on(b, c, n),
    ensures
        goes_on(a, c, n),
{
    assert(a.l.warnings.is_prefix_of(c.l.warnings)) by {
        assert forall|i: int| 0 <= i < a.l.warnings.len() implies a.l.warnings[i]
            == c.l.warnings[i] by {
            assert(a.l.warnings[i] == b.l.warnings.subrange(
                0,
                a.l.warnings.len() as int,
            )[i]);
            assert(b.l.warnings[i] == c.l.warnings.subrange(
                0,
                b.l.warnings.len() as int,
            )[i]);
        }
        assert(a.l.warnings =~= c.l.warnings.subrange(0, a.l.warnings.len() as int));
    }
}

/// A place where the commands up to `n` are settled.
spec fn settled_at(p: Place, n: int) -> bool {
    0 < n <= p.out.len() && p.out[n - 1] is Comment
}

proof fn lemma_same_place(p: Place, n: int)
    requires
        settled_at(p, n),
    ensures
        goes_on(p, p, n),
{
    assert(p.l.warnings =~= p.l.warnings.subrange(0, p.l.warnings.len() as int));
}

proof fn lemma_command_goes_on(a: Place, l: LowerView, c: CommandView, n: int)
    requires
        settled_at(a, n),
        a.l.warnings.is_prefix_of(l.warnings),
    ensures
        goes_on(a, Place { l, ..a }.command(c), n),
{
    assert(a.out.push(c).take(n) =~= a.out.take(n));
}

proof fn lemma_warned(l: LowerView, text: Seq<char>)
    ensures
        l.warnings.is_prefix_of(l.warnings.push(text)),
        l.warnings.is_prefix_of(l.warnings),
{
    assert(l.warnings =~= l.warnings.push(text).subrange(0, l.warnings.len() as int));
    assert(l.warnings =~= l.warnings.subrange(0, l.warnings.len() as int));
}

proof fn lemma_noted(l: LowerView, linear: bool)
    ensures
        l.warnings.is_prefix_of(l.noted(linear).warnings),
{
    assert(l.warnings =~= l.warnings.subrange(0, l.warnings.len() as int));
    match l.pending_rejoin {
        Some(_) => {
            let more = l.noted(linear).warnings;
            assert(l.warnings =~= more.subrange(0, l.warnings.len() as int));
        },
        None => {},
    }
}

proof fn lemma_joint_moves(p: Place, waypoints: Seq<Seq<Pico>>, from: int, n: int)
    requires
        settled_at(p, n),
    ensures
        goes_on(p, p.joint_moves(waypoints, from), n),
    decreases waypoints.len() - from,
{
    if from < 1 || from >= waypoints.len() {
        lemma_same_place(p, n);
    } else {
        let c = CommandView::MoveJoint {
            q: waypoints[from],
            velocity: p.l.joint_velocity,
            acceleration: p.l.joint_acceleration,
            blend: if from < waypoints.len() - 1 {
                p.l.blend_radius
            } else {
                0
            },
        };
        lemma_noted(p.l, false);
        lemma_command_goes_on(p, p.l.noted(false), c, n);
        let next = p.noted(false).command(c);
        assert(next.out[n - 1] == p.out[n - 1]);
        lemma_joint_moves(next, waypoints, from + 1, n);
        lemma_goes_on(p, next, next.joint_moves(waypoints, from + 1), n);
    }
}

proof fn lemma_segments(p: Place, list: Seq<SegmentView>, from: int, n: int)
    requires
        settled_at(p, n),
    ensures
        goes_on(p, p.segments(list, from), n),
    decreases list.len() - from,
{
    if from < 0 || from >= list.len() {
        lemma_same_place(p, n);
    } else {
        let s = list[from];
        let next = p.segment(s);
        assert(goes_on(p, next, n)) by {
            match s.kind {
                SegmentKind::Joint => {
                    lemma_joint_moves(p, s.waypoints, 1, n);
                },
                SegmentKind::CartesianLine => {
                    if s.waypoints.len() > 1 {
                        lemma_noted(p.l, true);
                        lemma_command_goes_on(
                            p,
                            p.l.noted(true),
                            CommandView::MoveLinear {
                                q: s.waypoints.last(),
                                velocity: match s.tcp_speed {
                                    Some(v) => v,
                                    None => p.l.tcp_velocity,
                                },
                                acceleration: p.l.tcp_acceleration,
                                blend: p.l.blend_radius,
                            },
                            n,
                        );
                    } else {
                        lemma_same_place(p, n);
                    }
                },
            }
        }
        assert(next.out.take(n)[n - 1] == p.out.take(n)[n - 1]);
        lemma_segments(next, list, from + 1, n);
        lemma_goes_on(p, next, next.segments(list, from + 1), n);
    }
}

proof fn lemma_moved(p: Place, record: PlannedView, n: int)
    requires
        settled_at(p, n),
    ensures
        goes_on(p, p.moved(record), n),
{
    lemma_segments(p, record.segments, 0, n);
    let next = p.segments(record.segments, 0);
    assert(next.out.take(n)[n - 1] == p.out.take(n)[n - 1]);
    let done = p.moved(record);
    assert(done.out.take(n) =~= next.out.take(n));
}

proof fn lemma_ramped(
    p: Place,
    label: Seq<char>,
    from: Seq<Pico>,
    to: Seq<Pico>,
    duration: Pico,
    n: int,
)
    requires
        settled_at(p, n),
    ensures
        goes_on(p, p.ramped(label, from, to, duration), n),
{
    let done = p.ramped(label, from, to, duration);
    lemma_same_place(p, n);
    lemma_noted(p.l, false);
    assert forall|text: Seq<char>| true implies p.l.warnings.is_prefix_of(
        (LowerView { warnings: #[trigger] p.l.warnings.push(text), ..p.l }).noted(false).warnings,
    ) by {
        let l = LowerView { warnings: p.l.warnings.push(text), ..p.l };
        lemma_warned(p.l, text);
        lemma_noted(l, false);
        let more = l.noted(false).warnings;
        assert forall|i: int| 0 <= i < p.l.warnings.len() implies p.l.warnings[i] == more[i] by {
            assert(l.warnings[i] == more.subrange(0, l.warnings.len() as int)[i]);
        }
        assert(p.l.warnings =~= more.subrange(0, p.l.warnings.len() as int));
    }
    assert(done.out.take(n) =~= p.out.take(n));
}

proof fn lemma_consumed(
    l: LowerView,
    record: Option<PlannedView>,
    active: Seq<usize>,
    emitting: Option<usize>,
    motion: Option<Seq<char>>,
    label: Seq<char>,
    from: int,
)
    ensures
        l.consumed(record, active, emitting, motion, label, from) matches Ok((after, _))
            ==> after.warnings == l.warnings,
    decreases active.len() - from,
{
    if 0 <= from < active.len() {
        match l.sources[active[from] as int].next_planned(motion, label) {
            Err(_) => {},
            Ok((s, p)) => {
                lemma_consumed(
                    l.with_source(active[from] as int, s),
                    if emitting == Some(active[from]) {
                        Some(p)
                    } else {
                        record
                    },
                    active,
                    emitting,
                    motion,
                    label,
                    from + 1,
                );
            },
        }
    }
}

proof fn lemma_decided(
    l: LowerView,
    arms: Seq<usize>,
    active: Seq<usize>,
    select: usize,
    step: Seq<char>,
    label: Seq<char>,
    from: int,
)
    ensures
        l.decided(arms, active, select, step, label, from) matches Ok((after, _))
            ==> after.warnings == l.warnings,
    decreases active.len() - from,
{
    if 0 <= from < active.len() {
        match l.sources[active[from] as int].next_decision(select, step, label) {
            Err(_) => {},
            Ok((s, arm)) => {
                lemma_decided(
                    l.with_source(active[from] as int, s),
                    arms.push(arm),
                    active,
                    select,
                    step,
                    label,
                    from + 1,
                );
            },
        }
    }
}

/// What lowering conditions and device commands emits goes on too.
spec fn emits_on(a: Emit, b: Emit, n: int) -> bool {
    &&& a.warnings.is_prefix_of(b.warnings)
    &&& a.commands.len() <= b.commands.len()
    &&& n <= a.commands.len() ==> b.commands.take(n) == a.commands.take(n)
}

proof fn lemma_emits_on(a: Emit, b: Emit, c: Emit, n: int)
    requires
        0 <= n <= a.commands.len(),
        emits_on(a, b, n),
        emits_on(b, c, n),
    ensures
        emits_on(a, c, n),
{
    assert forall|i: int| 0 <= i < a.warnings.len() implies a.warnings[i] == c.warnings[i] by {
        assert(a.warnings[i] == b.warnings.subrange(0, a.warnings.len() as int)[i]);
        assert(b.warnings[i] == c.warnings.subrange(0, b.warnings.len() as int)[i]);
    }
    assert(a.warnings =~= c.warnings.subrange(0, a.warnings.len() as int));
}

proof fn lemma_waits(
    condition: Condition,
    io: IoView,
    plain: Seq<(TestView, TestView)>,
    label: Seq<char>,
    started: bool,
    e: Emit,
    n: int,
)
    requires
        0 <= n <= e.commands.len(),
    ensures
        waits_for(condition, io, plain, label, started, e) matches Ok(after) ==> emits_on(e, after, n),
    decreases condition,
{
    match waits_for(condition, io, plain, label, started, e) {
        Err(_) => {},
        Ok(after) => {
            match condition {
                Condition::All(cs) => {
                    match test_of(condition, io, label) {
                        Ok(_) => {
                            lemma_plain_emit(e, after, n);
                        },
                        Err(_) => {
                            lemma_waits_each(cs@, io, plain, label, started, e, n);
                        },
                    }
                },
                Condition::Any(cs) => {
                    if cs@.len() == 1 {
                        lemma_waits(cs@[0], io, plain, label, started, e, n);
                    } else {
                        lemma_plain_emit(e, after, n);
                    }
                },
                _ => {
                    lemma_plain_emit(e, after, n);
                },
            }
        },
    }
}

proof fn lemma_plain_emit(e: Emit, after: Emit, n: int)
    requires
        0 <= n <= e.commands.len(),
        e.commands.len() <= after.commands.len(),
        after.commands.take(e.commands.len() as int) =~= e.commands,
        e.warnings.len() <= after.warnings.len(),
        after.warnings.take(e.warnings.len() as int) =~= e.warnings,
    ensures
        emits_on(e, after, n),
{
    assert(after.commands.take(n) =~= after.commands.take(e.commands.len() as int).take(n));
    assert(e.warnings =~= after.warnings.subrange(0, e.warnings.len() as int));
}

proof fn lemma_waits_each(
    conditions: Seq<Condition>,
    io: IoView,
    plain: Seq<(TestView, TestView)>,
    label: Seq<char>,
    started: bool,
    e: Emit,
    n: int,
)
    requires
        0 <= n <= e.commands.len(),
    ensures
        waits_for_each(conditions, io, plain, label, started, e) matches Ok(after) ==> emits_on(
            e,
            after,
            n,
        ),
    decreases conditions,
{
    if conditions.len() == 0 {
        lemma_plain_emit(e, e, n);
    } else {
        lemma_waits_each(conditions.drop_last(), io, plain, label, started, e, n);
        match waits_for_each(conditions.drop_last(), io, plain, label, started, e) {
            Err(_) => {},
            Ok(less) => {
                lemma_waits(conditions.last(), io, plain, label, started, less, n);
                match waits_for(conditions.last(), io, plain, label, started, less) {
                    Err(_) => {},
                    Ok(after) => {
                        lemma_emits_on(e, less, after, n);
                    },
                }
            },
        }
    }
}

proof fn lemma_action(
    p: Place,
    action: Action,
    active: Seq<usize>,
    emitting: Option<usize>,
    label: Seq<char>,
    n: int,
)
    requires
        settled_at(p, n),
    ensures
        p.action_lowered(action, active, emitting, label) matches Ok(q) ==> goes_on(p, q, n),
{
    lemma_same_place(p, n);
    match action {
        Action::StartMotion { motion } => {
            lemma_motion(p, motion@, active, emitting, label, n);
        },
        Action::StartToolpath { toolpath, .. } => {
            lemma_motion(p, toolpath@, active, emitting, label, n);
        },
        Action::StartRamp { targets, duration, .. } => {
            lemma_consumed(p.l, None, active, emitting, None, label, 0);
            match p.l.consumed(None, active, emitting, None, label, 0) {
                Err(_) => {},
                Ok((l, Some(record))) => {
                    let a = Place { l, ..p };
                    lemma_ramped(
                        a,
                        label,
                        record.segments[0].waypoints[0],
                        record.segments[0].waypoints[1],
                        record.duration,
                        n,
                    );
                },
                Ok((l, None)) => {
                    match targeted(l.robot, p.q, targets@, label, 0) {
                        Err(_) => {},
                        Ok(to) => {
                            lemma_ramped(Place { l, ..p }, label, p.q, to, duration, n);
                        },
                    }
                },
            }
        },
        Action::Device { device, command } => {
            let e = p.emit();
            let after = device_lowered(device@, command, p.l.io, label, e);
            lemma_plain_emit(e, after, n);
        },
        _ => {
            match p.action_lowered(action, active, emitting, label) {
                Err(_) => {},
                Ok(q) => {
                    assert(q.out.take(n) =~= p.out.take(n));
                },
            }
        },
    }
}

proof fn lemma_motion(
    p: Place,
    motion: Seq<char>,
    active: Seq<usize>,
    emitting: Option<usize>,
    label: Seq<char>,
    n: int,
)
    requires
        settled_at(p, n),
    ensures
        p.motion_lowered(motion, active, emitting, label) matches Ok(q) ==> goes_on(p, q, n),
{
    lemma_consumed(p.l, None, active, emitting, Some(motion), label, 0);
    match p.l.consumed(None, active, emitting, Some(motion), label, 0) {
        Ok((l, Some(record))) => {
            lemma_moved(Place { l, ..p }, record, n);
        },
        _ => {},
    }
}

proof fn lemma_actions(
    p: Place,
    actions: Seq<Action>,
    active: Seq<usize>,
    emitting: Option<usize>,
    label: Seq<char>,
    from: int,
    n: int,
)
    requires
        settled_at(p, n),
    ensures
        p.actions_lowered(actions, active, emitting, label, from) matches Ok(q) ==> goes_on(
            p,
            q,
            n,
        ),
    decreases actions.len() - from,
{
    if from < 0 || from >= actions.len() {
        lemma_same_place(p, n);
    } else {
        lemma_action(p, actions[from], active, emitting, label, n);
        match p.action_lowered(actions[from], active, emitting, label) {
            Err(_) => {},
            Ok(q) => {
                assert(q.out.take(n)[n - 1] == p.out.take(n)[n - 1]);
                lemma_actions(q, actions, active, emitting, label, from + 1, n);
                match q.actions_lowered(actions, active, emitting, label, from + 1) {
                    Err(_) => {},
                    Ok(r) => {
                        lemma_goes_on(p, q, r, n);
                    },
                }
            },
        }
    }
}

/// The commands of one place are the first of another's, and so are the
/// warnings.
pub open spec fn extends(a: Place, b: Place) -> bool {
    a.out.is_prefix_of(b.out) && a.l.warnings.is_prefix_of(b.l.warnings)
}

proof fn lemma_extends(a: Place, b: Place, c: Place)
    requires
        extends(a, b),
        extends(b, c),
    ensures
        extends(a, c),
{
    assert forall|i: int| 0 <= i < a.out.len() implies a.out[i] == c.out[i] by {
        assert(a.out[i] == b.out.subrange(0, a.out.len() as int)[i]);
        assert(b.out[i] == c.out.subrange(0, b.out.len() as int)[i]);
    }
    assert(a.out =~= c.out.subrange(0, a.out.len() as int));
    assert forall|i: int| 0 <= i < a.l.warnings.len() implies a.l.warnings[i] == c.l.warnings[i] by {
        assert(a.l.warnings[i] == b.l.warnings.subrange(0, a.l.warnings.len() as int)[i]);
        assert(b.l.warnings[i] == c.l.warnings.subrange(0, b.l.warnings.len() as int)[i]);
    }
    assert(a.l.warnings =~= c.l.warnings.subrange(0, a.l.warnings.len() as int));
}

/// Lowering loses nothing and goes in step order: what a list of steps lowers
/// to comes after everything lowered before it, at least one command for each
/// step, and every warning given stays.
pub proof fn law_lowering_goes_in_step_order(
    p: Place,
    steps: Seq<Step>,
    active: Seq<usize>,
    emitting: Option<usize>,
)
    ensures
        steps_lowered(p, steps, active, emitting) matches Ok(q) ==> extends(p, q) && q.out.len()
            >= p.out.len() + steps.len(),
    decreases steps,
{
    if steps.len() == 0 {
        assert(p.out =~= p.out.subrange(0, p.out.len() as int));
        assert(p.l.warnings =~= p.l.warnings.subrange(0, p.l.warnings.len() as int));
    } else {
        lemma_step(p, steps[0], active, emitting);
        match step_lowered(p, steps[0], active, emitting) {
            Err(_) => {},
            Ok(next) => {
                law_lowering_goes_in_step_order(next, steps.drop_first(), active, emitting);
                match steps_lowered(next, steps.drop_first(), active, emitting) {
                    Err(_) => {},
                    Ok(q) => {
                        lemma_extends(p, next, q);
                    },
                }
            },
        }
    }
}

proof fn lemma_step(p: Place, step: Step, active: Seq<usize>, emitting: Option<usize>)
    ensures
        step_lowered(p, step, active, emitting) matches Ok(q) ==> extends(p, q) && q.out.len()
            > p.out.len(),
    decreases step,
{
    let no = bumped(p.l.step_no);
    let label = "step "@ + decimal(no as nat) + " `"@ + step.name@ + "`"@;
    let title = "step "@ + decimal(no as nat) + ": "@ + step.name@;
    let counted = Place { l: LowerView { step_no: no, ..p.l }, ..p };
    let n = p.out.len() as int + 1;
    if step.select@.len() > 0 {
        let here = counted.command(CommandView::Comment { text: title + " (branch)"@ });
        let ordinal = here.l.selects_seen;
        let l = LowerView { selects_seen: bumped(ordinal), ..here.l };
        lemma_decided(l, Seq::empty(), active, ordinal, step.name@, label, 0);
        match l.decided(Seq::empty(), active, ordinal, step.name@, label, 0) {
            Err(_) => {},
            Ok((after, taken)) => {
                let b = Branch { active, taken, emitting, entry: here.q, label };
                lemma_arms(after, step.select@, 0, b);
                match arms_lowered(after, step.select@, 0, b) {
                    Err(_) => {},
                    Ok(arms) => {
                        let q = rejoined(here, arms, b);
                        assert(p.out =~= q.out.subrange(0, p.out.len() as int));
                    },
                }
            },
        }
    } else {
        let here = counted.command(CommandView::Comment { text: title });
        assert(settled_at(here, n));
        lemma_actions(here, step.actions@, active, emitting, label, 0, n);
        match here.actions_lowered(step.actions@, active, emitting, label, 0) {
            Err(_) => {},
            Ok(next) => {
                lemma_waits(
                    step.transition,
                    next.l.io,
                    next.l.plain,
                    label,
                    any_starts_move(step.actions@),
                    next.emit(),
                    n,
                );
                match waits_for(
                    step.transition,
                    next.l.io,
                    next.l.plain,
                    label,
                    any_starts_move(step.actions@),
                    next.emit(),
                ) {
                    Err(_) => {},
                    Ok(emit) => {
                        let q = next.emitted(emit);
                        assert(q.out.take(n) == here.out.take(n));
                        assert forall|i: int| 0 <= i < p.out.len() implies p.out[i] == q.out[i] by {
                            assert(q.out.take(n)[i] == here.out.take(n)[i]);
                        }
                        assert(p.out =~= q.out.subrange(0, p.out.len() as int));
                        assert forall|i: int| 0 <= i < p.l.warnings.len() implies p.l.warnings[i]
                            == q.l.warnings[i] by {
                            assert(here.l.warnings[i] == next.l.warnings.subrange(
                                0,
                                here.l.warnings.len() as int,
                            )[i]);
                            assert(next.l.warnings[i] == q.l.warnings.subrange(
                                0,
                                next.l.warnings.len() as int,
                            )[i]);
                        }
                        assert(p.l.warnings =~= q.l.warnings.subrange(
                            0,
                            p.l.warnings.len() as int,
                        ));
                    },
                }
            },
        }
    }
}

proof fn lemma_arms(l: LowerView, arms: Seq<SelectArm>, j: int, b: Branch)
    ensures
        arms_lowered(l, arms, j, b) matches Ok(lowered) ==> l.warnings.is_prefix_of(
            lowered.l.warnings,
        ),
    decreases arms,
{
    if arms.len() == 0 {
        assert(l.warnings =~= l.warnings.subrange(0, l.warnings.len() as int));
    } else {
        match test_of(arms[0].condition, l.io, b.label + " arm "@ + decimal((j + 1) as nat)) {
            Err(_) => {},
            Ok(_) => {
                let takers = took(b.active, b.taken, j, b.active.len());
                match emitter(l, b.emitting, takers, b.entry, b.label) {
                    Err(_) => {},
                    Ok(who) => {
                        let start = Place { l, q: b.entry, out: Seq::empty() };
                        law_lowering_goes_in_step_order(start, arms[0].steps@, takers, who);
                        match steps_lowered(start, arms[0].steps@, takers, who) {
                            Err(_) => {},
                            Ok(p) => {
                                lemma_arms(p.l, arms.drop_first(), j + 1, b);
                                match arms_lowered(p.l, arms.drop_first(), j + 1, b) {
                                    Err(_) => {},
                                    Ok(rest) => {
                                        let more = rest.l.warnings;
                                        assert forall|i: int|
                                            0 <= i < l.warnings.len() implies l.warnings[i]
                                            == more[i] by {
                                            assert(l.warnings[i] == p.l.warnings.subrange(
                                                0,
                                                l.warnings.len() as int,
                                            )[i]);
                                            assert(p.l.warnings[i] == more.subrange(
                                                0,
                                                p.l.warnings.len() as int,
                                            )[i]);
                                        }
                                        assert(l.warnings =~= more.subrange(
                                            0,
                                            l.warnings.len() as int,
                                        ));
                                    },
                                }
                            },
                        }
                    },
                }
            },
        }
    }
}

/// Steps without a planned motion, nested ones included.
pub open spec fn motion_free(steps: Seq<Step>) -> bool
    decreases steps,
{
    if steps.len() == 0 {
        true
    } else {
        step_is_motion_free(steps[0]) && motion_free(steps.drop_first())
    }
}

/// A step without a planned motion: its actions, or the arms that it branches
/// into.
pub open spec fn step_is_motion_free(step: Step) -> bool
    decreases step,
{
    if step.select@.len() > 0 {
        arms_are_motion_free(step.select@)
    } else {
        forall|i: int|
            0 <= i < step.actions@.len() ==> !((#[trigger] step.actions@[i]) is StartMotion)
                && !(step.actions@[i] is StartToolpath)
    }
}

/// Arms without a planned motion.
pub open spec fn arms_are_motion_free(arms: Seq<SelectArm>) -> bool
    decreases arms,
{
    if arms.len() == 0 {
        true
    } else {
        motion_free(arms[0].steps@) && arms_are_motion_free(arms.drop_first())
    }
}

/// An arm that no timeline took was never planned, so it holds no motion: a
/// motion or a toolpath on it, however deep, is refused.
pub proof fn law_untaken_arms_hold_no_motion(p: Place, steps: Seq<Step>)
    ensures
        steps_lowered(p, steps, Seq::empty(), None) is Ok ==> motion_free(steps),
    decreases steps,
{
    if steps.len() > 0 {
        lemma_untaken_step(p, steps[0]);
        match step_lowered(p, steps[0], Seq::empty(), None) {
            Err(_) => {},
            Ok(next) => {
                law_untaken_arms_hold_no_motion(next, steps.drop_first());
            },
        }
    }
}

proof fn lemma_untaken_step(p: Place, step: Step)
    ensures
        step_lowered(p, step, Seq::empty(), None) is Ok ==> step_is_motion_free(step),
    decreases step,
{
    let no = bumped(p.l.step_no);
    let label = "step "@ + decimal(no as nat) + " `"@ + step.name@ + "`"@;
    let title = "step "@ + decimal(no as nat) + ": "@ + step.name@;
    let counted = Place { l: LowerView { step_no: no, ..p.l }, ..p };
    if step.select@.len() > 0 {
        let here = counted.command(CommandView::Comment { text: title + " (branch)"@ });
        let ordinal = here.l.selects_seen;
        let l = LowerView { selects_seen: bumped(ordinal), ..here.l };
        match l.decided(Seq::empty(), Seq::empty(), ordinal, step.name@, label, 0) {
            Err(_) => {},
            Ok((after, taken)) => {
                let b = Branch {
                    active: Seq::empty(),
                    taken,
                    emitting: None,
                    entry: here.q,
                    label,
                };
                lemma_untaken_arms(after, step.select@, 0, b);
            },
        }
    } else {
        let here = counted.command(CommandView::Comment { text: title });
        lemma_untaken_actions(here, step.actions@, label, 0);
    }
}

proof fn lemma_untaken_actions(p: Place, actions: Seq<Action>, label: Seq<char>, from: int)
    requires
        0 <= from,
    ensures
        p.actions_lowered(actions, Seq::empty(), None, label, from) is Ok ==> forall|i: int|
            from <= i < actions.len() ==> !((#[trigger] actions[i]) is StartMotion) && !(actions[i]
                is StartToolpath),
    decreases actions.len() - from,
{
    if from < actions.len() {
        match p.action_lowered(actions[from], Seq::empty(), None, label) {
            Err(_) => {},
            Ok(q) => {
                lemma_untaken_actions(q, actions, label, from + 1);
            },
        }
    }
}

proof fn lemma_untaken_arms(l: LowerView, arms: Seq<SelectArm>, j: int, b: Branch)
    requires
        b.active.len() == 0,
        b.emitting is None,
    ensures
        arms_lowered(l, arms, j, b) is Ok ==> arms_are_motion_free(arms),
    decreases arms,
{
    if arms.len() > 0 {
        match test_of(arms[0].condition, l.io, b.label + " arm "@ + decimal((j + 1) as nat)) {
            Err(_) => {},
            Ok(_) => {
                let start = Place { l, q: b.entry, out: Seq::empty() };
                law_untaken_arms_hold_no_motion(start, arms[0].steps@);
                match steps_lowered(start, arms[0].steps@, Seq::empty(), None) {
                    Err(_) => {},
                    Ok(p) => {
                        lemma_untaken_arms(p.l, arms.drop_first(), j + 1, b);
                    },
                }
            },
        }
    }
}

/// A chain of linear moves comes to rest at its end: nothing blends past the
/// last one.
pub proof fn law_linear_chains_end_at_rest(p: Place, record: PlannedView)
    ensures
        p.moved(record).out.len() > 0 ==> (p.moved(record).out.last() matches CommandView::MoveLinear {
            blend,
            ..
        } ==> blend == 0),
{
}

/// An exported program uses every move that its timelines planned and every
/// branch that they took: a timeline that no longer matches its sequence is
/// refused.
pub proof fn law_exports_use_every_record(
    robot: Robot,
    sequence: Sequence,
    name: Seq<char>,
    l: LowerView,
    options: ProgramOptions,
)
    ensures
        lowered(robot, sequence, name, l, options) is Ok ==> (steps_lowered(
            program_start(l, options),
            sequence.steps@,
            counted(l.sources.len()),
            Some(0usize),
        ) matches Ok(p) && forall|i: int|
            0 <= i < p.l.sources.len() ==> (#[trigger] p.l.sources[i]).planned_next
                >= p.l.sources[i].planned.len() && p.l.sources[i].decisions_next
                >= p.l.sources[i].decisions.len()),
{
    match steps_lowered(
        program_start(l, options),
        sequence.steps@,
        counted(l.sources.len()),
        Some(0usize),
    ) {
        Ok(p) => {
            lemma_nothing_left(p.l.sources, name, 0);
        },
        Err(_) => {},
    }
}

proof fn lemma_nothing_left(sources: Seq<SourceView>, name: Seq<char>, from: int)
    requires
        0 <= from,
    ensures
        left_over(sources, name, from) is None ==> forall|i: int|
            from <= i < sources.len() ==> (#[trigger] sources[i]).planned_next
                >= sources[i].planned.len() && sources[i].decisions_next
                >= sources[i].decisions.len(),
    decreases sources.len() - from,
{
    if from < sources.len() {
        lemma_nothing_left(sources, name, from + 1);
    }
}

} // verus!
