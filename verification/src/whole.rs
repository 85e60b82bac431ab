//! Whole runs: what holds from the first scan to the timeline.

use vstd::prelude::*;

use crate::dispatch::{law_firing_moves_no_cursor, FireReply};
use crate::engine::{begun, Next, Phase, Reply, RunView};
use crate::fire::Fired;
use crate::fixed::{clip, Pico, Pose};
use crate::held::goes_through;
use crate::lanes::{law_writes_keep_lanes_tidy, tidy, LaneView, LanesView};
use crate::laws::{law_instants_are_scans, law_runs_start_at_zero, lemma_scans_closed, on_time};
use crate::names::{find, lemma_find};
use crate::programs::Onward;
use crate::ride::{CarryReply, DeckReply};
use crate::rollout::{RolloutOptions, RolloutView};
use crate::scene::Scene;
use crate::seq::{Action, Sequence};
use crate::setup::{fresh_lanes, lane_names, lemma_pins, pins, seeded};
use crate::stride::StrideReply;
use crate::supply::{fed_line, lemma_fed_devices, lemma_restocked_devices, restocked, Line};
use crate::tick::{
    devices_ticked, lemma_shifts_refer, lemma_tick_refers, ticks_of, MoveView, TickView,
};
use crate::tiling::ticking;
use crate::views::views;
use crate::world::TrackReply;

verus! {

/// Two runs that begin alike and are answered alike go through the same states,
/// and come to the same timeline.
pub proof fn law_equal_answers_make_equal_timelines(
    first: Seq<RunView>,
    second: Seq<RunView>,
    replies: Seq<Reply>,
    rests: Seq<Pose>,
)
    requires
        goes_through(first, replies),
        goes_through(second, replies),
        first[0] == second[0],
    ensures
        first == second,
        first.last().world.timeline(rests) == second.last().world.timeline(rests),
{
    assert forall|i: int| 0 <= i < first.len() implies first[i] == second[i] by {
        lemma_alike(first, second, replies, i);
    }
    assert(first =~= second);
}

proof fn lemma_alike(
    first: Seq<RunView>,
    second: Seq<RunView>,
    replies: Seq<Reply>,
    n: int,
)
    requires
        goes_through(first, replies),
        goes_through(second, replies),
        first[0] == second[0],
        0 <= n <= replies.len(),
    ensures
        first[n] == second[n],
    decreases n,
{
    if n > 0 {
        lemma_alike(first, second, replies, n - 1);
        assert(first[n - 1].next(replies[n - 1]) == Next::Leads(first[n - 1 + 1]));
        assert(second[n - 1].next(replies[n - 1]) == Next::Leads(second[n - 1 + 1]));
    }
}

/// The base tracks are the same.
pub open spec fn same_bases(v: RolloutView, w: RolloutView) -> bool {
    w.robots.len() == v.robots.len() && forall|r: int|
        0 <= r < v.robots.len() ==> (#[trigger] w.robots[r]).base == v.robots[r].base
}

/// Going on with a scan leaves the lanes and the base tracks alone.
pub open spec fn keeps_records(v: RolloutView, onward: Onward) -> bool {
    match onward {
        Onward::Fails(_) => true,
        Onward::Fires { world, .. } => world.lanes == v.lanes && same_bases(v, world) && world.t
            == v.t && world.options == v.options,
        Onward::Ends(world) => world.lanes == v.lanes && same_bases(v, world) && world.t == v.t
            && world.options == v.options,
    }
}

proof fn lemma_took_keeps(v: RolloutView, j: int)
    ensures
        v.took(j).lanes == v.lanes,
        same_bases(v, v.took(j)),
        v.took(j).t == v.t,
        v.took(j).options == v.options,
{
}

pub proof fn lemma_onward_keeps(v: RolloutView, chain: int)
    ensures
        keeps_records(v, v.onward(chain)),
    decreases
            v.programs.len() - v.current,
            v.options.immediate_chain_limit + 1 - chain,
{
    if v.current < v.programs.len() {
        let c = v.current as int;
        let w = match v.ready() {
            None => v,
            Some(j) => v.took(j),
        };
        match v.ready() {
            None => {},
            Some(j) => {
                lemma_took_keeps(v, j);
            },
        }
        if v.ready() is None || w.programs[c].finished() {
            let closed = w.closed_scan(c);
            match closed.next_turn() {
                Some(next) => {
                    lemma_onward_keeps(next, 0);
                },
                None => {},
            }
        } else if chain + 1 > v.options.immediate_chain_limit {
        } else {
            let e = w.entered();
            if e.entry_actions().len() > 0 {
            } else {
                lemma_onward_keeps(e, chain + 1);
            }
        }
    }
}

pub proof fn lemma_opening_keeps(v: RolloutView)
    ensures
        keeps_records(v, v.opening()),
    decreases v.programs.len() - v.current,
{
    if v.current < v.programs.len() {
        let e = v.entered();
        if e.entry_actions().len() == 0 {
            match e.next_turn() {
                Some(next) => {
                    lemma_opening_keeps(next);
                },
                None => {
                    lemma_onward_keeps(e.turn(0), 0);
                },
            }
        }
    }
}

pub proof fn lemma_opened_on_keeps(v: RolloutView)
    ensures
        keeps_records(v, v.opened_on()),
{
    match v.next_turn() {
        Some(next) => {
            lemma_opening_keeps(next);
        },
        None => {
            lemma_onward_keeps(v.turn(0), 0);
        },
    }
}

/// Every lane starts with an edge at zero, runs forward in time, alternates, and
/// has not got past `t`.
pub open spec fn all_tidy(lanes: LanesView, t: int) -> bool {
    forall|i: int|
        0 <= i < lanes.tracks.len() ==> tidy((#[trigger] lanes.tracks[i]).edges)
            && lanes.tracks[i].edges.last().0 <= t
}

proof fn lemma_set_tidy(lanes: LanesView, lane: int, t: Pico, value: bool)
    requires
        all_tidy(lanes, t as int),
        0 <= lane < lanes.tracks.len(),
    ensures
        all_tidy(lanes.set(lane, t, value), t as int),
        lanes.set(lane, t, value).tracks.len() == lanes.tracks.len(),
{
    assert(tidy(lanes.tracks[lane].edges));
    law_writes_keep_lanes_tidy(lanes, lane, t, value);
    let after = lanes.set(lane, t, value);
    assert forall|i: int| 0 <= i < after.tracks.len() implies tidy(
        (#[trigger] after.tracks[i]).edges,
    ) && after.tracks[i].edges.last().0 <= t by {
        if i != lane {
            assert(after.tracks[i] == lanes.tracks[i]);
        }
    }
}

proof fn lemma_set_all_tidy(lanes: LanesView, writes: Seq<(usize, bool)>, t: Pico)
    requires
        all_tidy(lanes, t as int),
        forall|i: int| 0 <= i < writes.len() ==> (#[trigger] writes[i]).0 < lanes.tracks.len(),
    ensures
        all_tidy(lanes.set_all(writes, t), t as int),
        lanes.set_all(writes, t).tracks.len() == lanes.tracks.len(),
    decreases writes.len(),
{
    if writes.len() > 0 {
        let first = writes.drop_last();
        assert forall|i: int| 0 <= i < first.len() implies (#[trigger] first[i]).0
            < lanes.tracks.len() by {
            assert(first[i] == writes[i]);
        }
        assert(writes.last() == writes[writes.len() - 1]);
        lemma_set_all_tidy(lanes, first, t);
        lemma_set_tidy(lanes.set_all(first, t), writes.last().0 as int, t, writes.last().1);
    }
}

proof fn lemma_fed_tidy(line: Line, n: nat, dt: Pico, t: Pico)
    requires
        n <= line.devices.len(),
        all_tidy(line.lanes, t as int),
        forall|d: int|
            0 <= d < line.devices.len() ==> (#[trigger] line.devices[d]).lane
                < line.lanes.tracks.len(),
    ensures
        all_tidy(fed_line(line, n, dt, t).lanes, t as int),
        fed_line(line, n, dt, t).lanes.tracks.len() == line.lanes.tracks.len(),
    decreases n,
{
    if n > 0 {
        lemma_fed_tidy(line, (n - 1) as nat, dt, t);
        lemma_fed_devices(line, (n - 1) as nat, dt, t);
        let less = fed_line(line, (n - 1) as nat, dt, t);
        assert(less.devices[n - 1].lane == line.devices[n - 1].lane);
        lemma_set_tidy(less.lanes, less.devices[n - 1].lane as int, t, false);
    }
}

proof fn lemma_tick_settled_tidy(v: RolloutView, tick: TickView, riders: Seq<Seq<String>>)
    requires
        all_tidy(v.lanes, v.t as int),
        forall|d: int|
            0 <= d < v.devices.len() ==> (#[trigger] v.devices[d]).lane < v.lanes.tracks.len(),
    ensures
        all_tidy(v.tick_settled(tick, riders).lanes, v.t as int),
{
    let carried = crate::world::advected(v.obstacles, tick.moved) + crate::engine::flat_riders(
        riders,
    );
    let w = v.stops_settled(carried);
    lemma_restocked_devices(w.line(), tick.returned, w.t);
    let line = restocked(w.line(), tick.returned, w.t);
    assert forall|d: int| 0 <= d < line.devices.len() implies (#[trigger] line.devices[d]).lane
        < line.lanes.tracks.len() by {
        assert(line.devices[d].lane == v.devices[d].lane);
    }
    lemma_fed_tidy(line, w.devices.len(), w.options.dt, w.t);
}

/// The lanes of a run are tidy as far as it has got.
pub open spec fn lanes_tidy(run: RunView) -> bool {
    all_tidy(run.world.lanes, run.world.t as int)
}

spec fn goes_tidy(next: Next) -> bool {
    next matches Next::Leads(after) ==> lanes_tidy(after)
}

proof fn lemma_came_to_tidy(run: RunView, onward: Onward)
    requires
        on_time(run),
        lanes_tidy(run),
        keeps_records(run.world, onward),
    ensures
        goes_tidy(run.came_to(onward)),
{
    match onward {
        Onward::Ends(world) => {
            let dt = run.world.options.dt as int;
            let tick = if run.tick < u64::MAX {
                (run.tick + 1) as u64
            } else {
                run.tick
            };
            assert(tick * dt >= run.tick * dt) by (nonlinear_arith)
                requires
                    tick >= run.tick,
                    dt > 0,
            ;
            let w = RolloutView { t: clip(tick * dt), ..world };
            assert(w.t >= run.world.t);
            assert(all_tidy(w.lanes, w.t as int)) by {
                assert forall|i: int| 0 <= i < w.lanes.tracks.len() implies tidy(
                    (#[trigger] w.lanes.tracks[i]).edges,
                ) && w.lanes.tracks[i].edges.last().0 <= w.t by {
                    assert(run.world.lanes.tracks[i].edges.last().0 <= run.world.t);
                }
            }
        },
        _ => {},
    }
}

proof fn lemma_sense_tidy(run: RunView, reply: Reply)
    requires
        on_time(run),
        run.sound(),
        run.asks(reply),
        run.phase is Sense,
        lanes_tidy(run),
    ensures
        goes_tidy(run.next(reply)),
{
    let v = run.world;
    match (run.phase, reply) {
        (Phase::Sense { starting }, Reply::Sensed(readings)) => {
            let writes = crate::sensors::sensor_writes(
                v.sensors,
                v.scene.sensors@,
                readings@,
                v.obstacles,
                v.scene.robots@,
            );
            assert forall|i: int| 0 <= i < writes.len() implies (#[trigger] writes[i]).0
                < v.lanes.tracks.len() by {
                assert(v.sensors[i].lane < v.lanes.tracks.len());
            }
            lemma_set_all_tidy(v.lanes, writes, v.t);
            let w = v.sensed(readings@);
            let there = RunView { world: w, ..run };
            if starting {
                lemma_scans_closed(w, w.programs.len());
                let closed = w.scans_closed(w.programs.len()).turn(0);
                lemma_opening_keeps(closed);
                lemma_came_to_tidy(there, closed.opening());
            } else {
                lemma_onward_keeps(w.turn(0), 0);
                lemma_came_to_tidy(there, w.turn(0).onward(0));
            }
        },
        _ => {},
    }
}

pub proof fn lemma_walks_keep(
    v: RolloutView,
    device: Seq<char>,
    walks: Seq<Option<crate::walk::GaitReply>>,
    n: nat,
)
    requires
        n <= v.robots.len(),
    ensures
        v.fired_walks(device, walks, n) matches Fired::Leads(w) ==> w.lanes == v.lanes
            && same_bases(v, w) && w.t == v.t,
    decreases n,
{
    if n > 0 {
        lemma_walks_keep(v, device, walks, (n - 1) as nat);
    }
}

proof fn lemma_fired_tidy(v: RolloutView, action: Action, reply: FireReply)
    requires
        v.sound(),
        all_tidy(v.lanes, v.t as int),
    ensures
        v.fired(action, reply) matches Fired::Leads(w) ==> all_tidy(w.lanes, v.t as int),
{
    match (action, reply) {
        (Action::SetSignal { signal, value }, FireReply::Nothing) => {
            match find(v.lanes.names(), signal@) {
                Some(lane) => {
                    lemma_find(v.lanes.names(), signal@, 0);
                    lemma_set_tidy(v.lanes, lane, v.t, value);
                },
                None => {},
            }
        },
        (Action::Device { device, command }, FireReply::Device(reply)) => {
            match v.device_index(device@) {
                Some(d) => match v.command_of(device@, command, reply.courses@) {
                    crate::command::Outcome::Taken { state, lane, .. } => {
                        let w = v.commanded(d, state, lane);
                        lemma_find(crate::devices::device_names(v.devices), device@, 0);
                        assert(v.devices[d].lane < v.lanes.tracks.len());
                        match lane {
                            Some(level) => {
                                lemma_set_tidy(v.lanes, v.devices[d].lane as int, v.t, level);
                            },
                            None => {},
                        }
                        lemma_walks_keep(w, device@, reply.walks@, w.robots.len());
                    },
                    _ => {},
                },
                None => {},
            }
        },
        _ => {},
    }
}

proof fn lemma_fire_tidy(run: RunView, reply: Reply)
    requires
        on_time(run),
        run.sound(),
        run.asks(reply),
        run.phase is Fire,
        lanes_tidy(run),
    ensures
        goes_tidy(run.next(reply)),
{
    let v = run.world;
    match (run.phase, reply) {
        (Phase::Fire { action, chain }, Reply::Fired(answer)) => {
            let a = v.entry_actions()[action as int];
            law_firing_moves_no_cursor(v, a, answer);
            lemma_fired_tidy(v, a, answer);
            match v.fired(a, answer) {
                Fired::Fails(_) => {},
                Fired::Leads(w) => {
                    let there = RunView { world: w, ..run };
                    match chain {
                        Some(n) => {
                            lemma_onward_keeps(w, n as int);
                            lemma_came_to_tidy(there, w.onward(n as int));
                        },
                        None => {
                            lemma_opened_on_keeps(w);
                            lemma_came_to_tidy(there, w.opened_on());
                        },
                    }
                },
            }
        },
        _ => {},
    }
}

proof fn lemma_devices_tidy(run: RunView, reply: Reply)
    requires
        run.sound(),
        run.asks(reply),
        run.phase is Devices,
        lanes_tidy(run),
        run.world.devices.len() <= usize::MAX,
    ensures
        goes_tidy(run.next(reply)),
{
    let v = run.world;
    match (run.phase, reply) {
        (Phase::Devices, Reply::Zones(points)) => {
            let inside = v.inside(views(points@));
            let raw = ticks_of(v.devices, inside, v.surroundings(), v.devices.len());
            lemma_tick_refers(
                v.devices,
                inside,
                v.surroundings(),
                v.lanes.tracks.len(),
                v.devices.len(),
            );
            lemma_set_all_tidy(v.lanes, raw.lanes, v.t);
            let ticked = devices_ticked(v.devices, v.options.dt, v.t);
            assert(crate::tick::of_vehicles(raw.moves, ticked));
            lemma_shifts_refer(ticked, raw.moves, raw.shifts, v.options.dt, v.t);
            let w = v.devices_advanced(inside);
            assert forall|d: int| 0 <= d < w.devices.len() implies (#[trigger] w.devices[d]).lane
                < w.lanes.tracks.len() by {
                assert(w.devices[d].lane == ticked[d].lane);
                assert(v.devices[d].lane < v.lanes.tracks.len());
            }
            lemma_tick_settled_tidy(
                RolloutView { moving: Seq::empty(), ..w },
                v.tick(inside),
                Seq::empty(),
            );
        },
        _ => {},
    }
}

pub proof fn lemma_loads_keep(v: RolloutView, moves: Seq<MoveView>, loads: Seq<Vec<Pose>>, n: nat)
    ensures
        ({
            let w = v.loads_placed(moves, loads, n);
            w.lanes == v.lanes && w.robots == v.robots && w.t == v.t && w.devices == v.devices
                && w.programs == v.programs && w.step_spans == v.step_spans
        }),
    decreases n,
{
    if n > 0 {
        lemma_loads_keep(v, moves, loads, (n - 1) as nat);
    }
}

pub proof fn lemma_walked_keep(v: RolloutView, replies: Seq<Option<StrideReply>>, n: nat)
    requires
        n <= v.robots.len(),
    ensures
        v.all_walked(replies, n) matches Fired::Leads(w) ==> w.lanes == v.lanes && same_bases(
            v,
            w,
        ) && w.t == v.t && w.programs == v.programs && w.step_spans == v.step_spans,
    decreases n,
{
    if n > 0 {
        lemma_walked_keep(v, replies, (n - 1) as nat);
    }
}

pub proof fn lemma_followed_keep(v: RolloutView, replies: Seq<TrackReply>, n: nat)
    requires
        n <= v.robots.len(),
    ensures
        v.all_tracked(replies, n) matches Fired::Leads(w) ==> w.lanes == v.lanes && same_bases(
            v,
            w,
        ) && w.t == v.t && w.programs == v.programs && w.step_spans == v.step_spans,
    decreases n,
{
    if n > 0 {
        lemma_followed_keep(v, replies, (n - 1) as nat);
    }
}

pub proof fn lemma_boarded_keep(
    v: RolloutView,
    moves: Seq<MoveView>,
    names: Seq<String>,
    replies: Seq<DeckReply>,
    n: nat,
)
    ensures
        ({
            let w = v.boarded(moves, names, replies, n);
            w.lanes == v.lanes && same_bases(v, w) && w.t == v.t && w.devices == v.devices
                && w.scene == v.scene && w.options == v.options && w.programs == v.programs && w.step_spans == v.step_spans
        }),
    decreases n,
{
    if n > 0 {
        lemma_boarded_keep(v, moves, names, replies, (n - 1) as nat);
        let less = v.boarded(moves, names, replies, (n - 1) as nat);
        lemma_walker_exists(less, less.mover(moves[n - 1])@, 0);
    }
}

proof fn lemma_walker_exists(v: RolloutView, device: Seq<char>, from: int)
    ensures
        v.walker_on(device, from) matches Some(r) ==> 0 <= r < v.robots.len(),
    decreases v.robots.len() - from,
{
    if 0 <= from < v.robots.len() && !v.walks(from, device) {
        lemma_walker_exists(v, device, from + 1);
    }
}

pub proof fn lemma_members_keep(
    v: RolloutView,
    m: MoveView,
    members: Seq<String>,
    turned: Seq<Seq<Pose>>,
    n: nat,
)
    ensures
        ({
            let w = v.members_carried(m, members, turned, n);
            w.lanes == v.lanes && w.robots == v.robots && w.t == v.t && w.devices == v.devices
                && w.scene == v.scene && w.options == v.options && w.bases == v.bases
                && w.programs == v.programs && w.step_spans == v.step_spans
        }),
    decreases n,
{
    if n > 0 {
        lemma_members_keep(v, m, members, turned, (n - 1) as nat);
    }
}

pub proof fn lemma_robots_keep(v: RolloutView, m: MoveView, reply: CarryReply, n: nat)
    ensures
        ({
            let w = v.robots_carried(m, reply, n);
            w.lanes == v.lanes && w.t == v.t && w.devices == v.devices && w.scene == v.scene
                && w.options == v.options && w.programs == v.programs && w.step_spans == v.step_spans
        }),
    decreases n,
{
    if n > 0 {
        lemma_robots_keep(v, m, reply, (n - 1) as nat);
    }
}

pub proof fn lemma_carried_keep(v: RolloutView, m: MoveView, riders: Seq<String>, reply: CarryReply)
    ensures
        ({
            let w = v.carried(m, riders, reply);
            w.lanes == v.lanes && w.t == v.t && w.devices == v.devices && w.scene == v.scene
                && w.options == v.options && w.programs == v.programs && w.step_spans == v.step_spans
        }),
{
    let members = v.mover_body(m) + riders;
    let turned = views(reply.members_turned@);
    let a = v.frame_carried(m, reply);
    lemma_members_keep(a, m, members, turned, members.len());
    let b = a.members_carried(m, members, turned, members.len());
    lemma_robots_keep(b, m, reply, v.robots.len());
}

proof fn lemma_clear_tidy(run: RunView, reply: Reply)
    requires
        run.sound(),
        run.asks(reply),
        run.phase is Clear,
        lanes_tidy(run),
    ensures
        goes_tidy(run.next(reply)),
{
    let v = run.world;
    match (run.phase, reply) {
        (Phase::Clear, Reply::Cleared { loads, meets, touched }) => {
            let moves = run.pending.moves;
            lemma_loads_keep(v, moves, loads@, moves.len());
            let w = v.loads_placed(moves, loads@, moves.len());
            match w.moves_checked(moves, run.riders, views(meets@), touched@) {
                Fired::Fails(_) => {},
                Fired::Leads(x) => {
                    assert forall|d: int| 0 <= d < x.devices.len() implies (
                    #[trigger] x.devices[d]).lane < x.lanes.tracks.len() by {
                        assert(v.devices[d].lane < v.lanes.tracks.len());
                    }
                    lemma_tick_settled_tidy(x, run.pending, run.riders);
                },
            }
        },
        _ => {},
    }
}

proof fn lemma_rest_tidy(run: RunView, reply: Reply)
    requires
        run.asks(reply),
        run.phase is Joints || run.phase is Board || run.phase is Carry || run.phase is Gaits
            || run.phase is Follow || run.phase is Contacts,
        lanes_tidy(run),
    ensures
        goes_tidy(run.next(reply)),
{
    let v = run.world;
    match (run.phase, reply) {
        (Phase::Board, Reply::Decks(replies)) => {
            let moves = run.pending.moves;
            let names = crate::world::advected(v.obstacles, run.pending.moved);
            lemma_boarded_keep(v, moves, names, replies@, moves.len());
        },
        (Phase::Carry { next }, Reply::Carried(answer)) => {
            lemma_carried_keep(
                v,
                run.pending.moves[next as int],
                run.riders[next as int],
                answer,
            );
        },
        (Phase::Gaits, Reply::Walked(replies)) => {
            lemma_walked_keep(v, replies@, v.robots.len());
        },
        (Phase::Follow, Reply::Followed(replies)) => {
            lemma_followed_keep(v, replies@, v.robots.len());
        },
        _ => {},
    }
}

/// Whatever a run is answered, its lanes stay tidy.
pub proof fn law_lanes_stay_tidy(run: RunView, reply: Reply)
    requires
        on_time(run),
        run.sound(),
        run.asks(reply),
        lanes_tidy(run),
        run.world.devices.len() <= usize::MAX,
    ensures
        run.next(reply) matches Next::Leads(after) ==> lanes_tidy(after),
{
    match run.phase {
        Phase::Sense { .. } => lemma_sense_tidy(run, reply),
        Phase::Fire { .. } => lemma_fire_tidy(run, reply),
        Phase::Devices => lemma_devices_tidy(run, reply),
        Phase::Clear => lemma_clear_tidy(run, reply),
        Phase::Done => {},
        _ => lemma_rest_tidy(run, reply),
    }
}

proof fn lemma_seeded_tidy(tracks: Seq<LaneView>, forced: Seq<(usize, bool)>)
    requires
        forall|i: int|
            0 <= i < tracks.len() ==> tidy((#[trigger] tracks[i]).edges)
                && tracks[i].edges.last().0 <= 0,
        forall|i: int| 0 <= i < forced.len() ==> (#[trigger] forced[i]).0 < tracks.len(),
    ensures
        seeded(tracks, forced).len() == tracks.len(),
        forall|i: int|
            0 <= i < tracks.len() ==> tidy((#[trigger] seeded(tracks, forced)[i]).edges)
                && seeded(tracks, forced)[i].edges.last().0 <= 0,
    decreases forced.len(),
{
    if forced.len() > 0 {
        let first = forced.drop_last();
        assert forall|i: int| 0 <= i < first.len() implies (#[trigger] first[i]).0
            < tracks.len() by {
            assert(first[i] == forced[i]);
        }
        lemma_seeded_tidy(tracks, first);
        let less = seeded(tracks, first);
        let all = seeded(tracks, forced);
        assert(forced.last() == forced[forced.len() - 1]);
        let lane = forced.last().0 as int;
        assert forall|i: int| 0 <= i < tracks.len() implies tidy((#[trigger] all[i]).edges)
            && all[i].edges.last().0 <= 0 by {
            if i != lane {
                assert(all[i] == less[i]);
            }
        }
    }
}

/// A run that starts has tidy lanes.
pub proof fn law_runs_start_tidy(
    scene: Scene,
    sequences: Seq<&Sequence>,
    options: RolloutOptions,
    scenario: Option<String>,
)
    requires
        fresh_lanes(scene).len() <= usize::MAX,
    ensures
        lanes_tidy(begun(scene, sequences, options, scenario)),
{
    let fresh = fresh_lanes(scene);
    lemma_pins(lane_names(fresh), scene.forced_inputs@);
    lemma_seeded_tidy(fresh, pins(lane_names(fresh), scene.forced_inputs@));
}

/// A run from its start on, each state of which is whole.
pub open spec fn whole_run(
    runs: Seq<RunView>,
    replies: Seq<Reply>,
    scene: Scene,
    sequences: Seq<&Sequence>,
    options: RolloutOptions,
    scenario: Option<String>,
) -> bool {
    &&& options.dt > 0
    &&& goes_through(runs, replies)
    &&& runs[0] == begun(scene, sequences, options, scenario)
    &&& forall|i: int|
        0 <= i < runs.len() ==> (#[trigger] runs[i]).sound() && runs[i].world.devices.len()
            <= usize::MAX
}

/// Over a whole run every lane starts with an edge at zero, runs forward in time,
/// alternates, and ends within the cycle.
pub proof fn law_lanes_are_tidy_over_a_run(
    runs: Seq<RunView>,
    replies: Seq<Reply>,
    scene: Scene,
    sequences: Seq<&Sequence>,
    options: RolloutOptions,
    scenario: Option<String>,
    rests: Seq<Pose>,
)
    requires
        whole_run(runs, replies, scene, sequences, options, scenario),
        fresh_lanes(scene).len() <= usize::MAX,
    ensures
        ({
            let timeline = runs.last().world.timeline(rests);
            forall|i: int|
                0 <= i < timeline.signals.len() ==> tidy((#[trigger] timeline.signals[i]).edges)
                    && timeline.signals[i].edges.last().0 <= timeline.duration
        }),
{
    lemma_tidy_so_far(runs, replies, scene, sequences, options, scenario, replies.len());
}

proof fn lemma_tidy_so_far(
    runs: Seq<RunView>,
    replies: Seq<Reply>,
    scene: Scene,
    sequences: Seq<&Sequence>,
    options: RolloutOptions,
    scenario: Option<String>,
    n: nat,
)
    requires
        whole_run(runs, replies, scene, sequences, options, scenario),
        fresh_lanes(scene).len() <= usize::MAX,
        n <= replies.len(),
    ensures
        on_time(runs[n as int]),
        lanes_tidy(runs[n as int]),
    decreases n,
{
    if n == 0 {
        law_runs_start_at_zero(scene, sequences, options, scenario);
        law_runs_start_tidy(scene, sequences, options, scenario);
    } else {
        let k = n - 1;
        lemma_tidy_so_far(runs, replies, scene, sequences, options, scenario, k as nat);
        assert(runs[k].sound());
        assert(runs[k].asks(replies[k]));
        law_instants_are_scans(runs[k], replies[k]);
        law_lanes_stay_tidy(runs[k], replies[k]);
    }
}

/// Some step span ends now.
pub open spec fn has_end(v: RolloutView) -> bool {
    exists|i: int| 0 <= i < v.step_spans.len() && (#[trigger] v.step_spans[i]).end == v.t
}

/// The first `n` programs each have a span open, and where there is one, some span
/// ends now. Nothing is said of more spans than can be counted.
pub open spec fn opened_to(v: RolloutView, n: int) -> bool {
    v.step_spans.len() <= usize::MAX ==> {
        &&& forall|p: int|
            0 <= p < n && p < v.programs.len() ==> (#[trigger] v.programs[p]).open_span
                < v.step_spans.len()
        &&& n > 0 ==> has_end(v)
    }
}

/// Every program has a span open, and where all are through, some span ends now.
pub open spec fn accounted(v: RolloutView) -> bool {
    v.step_spans.len() <= usize::MAX ==> {
        &&& forall|p: int|
            0 <= p < v.programs.len() ==> (#[trigger] v.programs[p]).open_span
                < v.step_spans.len()
        &&& v.finished() ==> has_end(v)
    }
}

/// What going on with a scan leads to is accounted for.
pub open spec fn goes_accounted(v: RolloutView, onward: Onward) -> bool {
    match onward {
        Onward::Fails(_) => true,
        Onward::Fires { world, chain } => {
            &&& world.step_spans.len() >= v.step_spans.len()
            &&& world.programs.len() == v.programs.len()
            &&& if chain is None {
                opened_to(world, world.current + 1)
            } else {
                accounted(world)
            }
        },
        Onward::Ends(world) => {
            &&& world.step_spans.len() >= v.step_spans.len()
            &&& world.programs.len() == v.programs.len()
            &&& accounted(world)
        },
    }
}

proof fn lemma_took_accounted(v: RolloutView, j: int)
    requires
        accounted(v),
        v.current < v.programs.len(),
    ensures
        accounted(v.took(j)),
        v.took(j).step_spans.len() == v.step_spans.len(),
        v.took(j).programs.len() == v.programs.len(),
{
    let w = v.took(j);
    let c = v.current as int;
    let span = v.programs[c].open_span as int;
    if v.step_spans.len() <= usize::MAX {
        assert(w.step_spans[span].end == w.t);
        assert forall|p: int| 0 <= p < w.programs.len() implies (
        #[trigger] w.programs[p]).open_span < w.step_spans.len() by {
            assert(v.programs[p].open_span < v.step_spans.len());
        }
    }
}

proof fn lemma_entered_accounted(v: RolloutView, n: int)
    requires
        v.current < v.programs.len(),
        v.step_spans.len() <= usize::MAX ==> forall|p: int|
            0 <= p < n && p < v.programs.len() ==> (#[trigger] v.programs[p]).open_span
                < v.step_spans.len(),
    ensures
        v.entered().step_spans.len() == v.step_spans.len() + 1,
        v.entered().programs.len() == v.programs.len(),
        v.entered().step_spans.len() <= usize::MAX ==> has_end(v.entered()) && forall|p: int|
            0 <= p < v.programs.len() && (p < n || p == v.current) ==> (
            #[trigger] v.entered().programs[p]).open_span < v.entered().step_spans.len(),
{
    let e = v.entered();
    assert(e.step_spans[v.step_spans.len() as int].end == e.t);
    if e.step_spans.len() <= usize::MAX {
        assert forall|p: int|
            0 <= p < v.programs.len() && (p < n || p == v.current) implies (
        #[trigger] e.programs[p]).open_span < e.step_spans.len() by {
            if p != v.current {
                assert(e.programs[p] == v.programs[p]);
                assert(v.programs[p].open_span < v.step_spans.len());
            }
        }
    }
}

proof fn lemma_onward_accounted(v: RolloutView, chain: int)
    requires
        accounted(v),
        chain >= 0,
    ensures
        goes_accounted(v, v.onward(chain)),
        v.onward(chain) matches Onward::Fires { chain, .. } ==> chain is Some,
    decreases
            v.programs.len() - v.current,
            v.options.immediate_chain_limit + 1 - chain,
{
    if v.current < v.programs.len() {
        let c = v.current as int;
        let w = match v.ready() {
            None => v,
            Some(j) => v.took(j),
        };
        match v.ready() {
            None => {},
            Some(j) => {
                lemma_took_accounted(v, j);
            },
        }
        if v.ready() is None || w.programs[c].finished() {
            let closed = w.closed_scan(c);
            assert(closed.step_spans == w.step_spans);
            assert forall|p: int| 0 <= p < closed.programs.len() implies (
            #[trigger] closed.programs[p]).open_span == w.programs[p].open_span
                && closed.programs[p].finished() == w.programs[p].finished() by {}
            assert(closed.finished() ==> w.finished()) by {
                if closed.finished() {
                    assert forall|p: int| 0 <= p < w.programs.len() implies (
                    #[trigger] w.programs[p]).finished() by {
                        assert(closed.programs[p].finished());
                    }
                }
            }
            assert(has_end(w) ==> has_end(closed)) by {
                if has_end(w) {
                    let i = choose|i: int|
                        0 <= i < w.step_spans.len() && (#[trigger] w.step_spans[i]).end == w.t;
                    assert(closed.step_spans[i].end == closed.t);
                }
            }
            assert(accounted(closed));
            match closed.next_turn() {
                Some(next) => {
                    lemma_turned(closed, next);
                    lemma_onward_accounted(next, 0);
                },
                None => {},
            }
        } else if chain + 1 > v.options.immediate_chain_limit {
        } else {
            lemma_entered_accounted(w, w.programs.len() as int);
            let e = w.entered();
            if e.entry_actions().len() > 0 {
            } else {
                lemma_onward_accounted(e, chain + 1);
            }
        }
    }
}

/// Whose turn it is matters to no account.
proof fn lemma_turned(v: RolloutView, w: RolloutView)
    requires
        w == (RolloutView { current: w.current, ..v }),
    ensures
        accounted(v) ==> accounted(w),
        has_end(v) ==> has_end(w),
{
    if has_end(v) {
        let i = choose|i: int|
            0 <= i < v.step_spans.len() && (#[trigger] v.step_spans[i]).end == v.t;
        assert(w.step_spans[i].end == w.t);
    }
    if accounted(v) && v.step_spans.len() <= usize::MAX {
        assert(w.finished() ==> v.finished()) by {
            if w.finished() {
                assert forall|p: int| 0 <= p < v.programs.len() implies (
                #[trigger] v.programs[p]).finished() by {
                    assert(w.programs[p].finished());
                }
            }
        }
        assert forall|p: int| 0 <= p < w.programs.len() implies (
        #[trigger] w.programs[p]).open_span < w.step_spans.len() by {
            assert(v.programs[p].open_span < v.step_spans.len());
        }
    }
}

proof fn lemma_opening_accounted(v: RolloutView)
    requires
        opened_to(v, v.current as int),
        v.current < v.programs.len() <= usize::MAX,
    ensures
        goes_accounted(v, v.opening()),
    decreases v.programs.len() - v.current,
{
    lemma_entered_accounted(v, v.current as int);
    let e = v.entered();
    assert(opened_to(e, e.current + 1)) by {
        if e.step_spans.len() <= usize::MAX {
            assert forall|p: int| 0 <= p < e.current + 1 && p < e.programs.len() implies (
            #[trigger] e.programs[p]).open_span < e.step_spans.len() by {}
        }
    }
    if e.entry_actions().len() == 0 {
        lemma_opened_on_accounted_from(e);
        match e.next_turn() {
            Some(next) => {
                lemma_opening_accounted(next);
            },
            None => {},
        }
    }
}

/// Once the first step of the current program has fired, the next program opens,
/// or, after the last, all of them go on.
proof fn lemma_opened_on_accounted_from(e: RolloutView)
    requires
        opened_to(e, e.current + 1),
        e.current < e.programs.len() <= usize::MAX,
    ensures
        e.next_turn() matches Some(next) ==> opened_to(next, next.current as int) && next.current
            < next.programs.len() && next.current == e.current + 1 && next.programs
            == e.programs && next.step_spans == e.step_spans,
        e.next_turn() is None ==> goes_accounted(e, e.turn(0).onward(0)),
{
    match e.next_turn() {
        Some(next) => {
            lemma_turned(e, next);
            if next.step_spans.len() <= usize::MAX {
                assert forall|p: int| 0 <= p < next.current && p < next.programs.len() implies (
                #[trigger] next.programs[p]).open_span < next.step_spans.len() by {
                    assert(e.programs[p].open_span < e.step_spans.len());
                }
            }
        },
        None => {
            let first = e.turn(0);
            lemma_turned(e, first);
            assert(accounted(first)) by {
                if first.step_spans.len() <= usize::MAX {
                    assert forall|p: int| 0 <= p < first.programs.len() implies (
                    #[trigger] first.programs[p]).open_span < first.step_spans.len() by {
                        assert(e.programs[p].open_span < e.step_spans.len());
                    }
                }
            }
            lemma_onward_accounted(first, 0);
        },
    }
}

proof fn lemma_opened_on_accounted(v: RolloutView)
    requires
        opened_to(v, v.current + 1),
        v.current < v.programs.len() <= usize::MAX,
    ensures
        goes_accounted(v, v.opened_on()),
{
    lemma_opened_on_accounted_from(v);
    match v.next_turn() {
        Some(next) => {
            lemma_opening_accounted(next);
        },
        None => {},
    }
}

/// A run whose step spans are accounted for: once every program is through, one
/// of them ends at that instant.
pub open spec fn steps_accounted(run: RunView) -> bool {
    match run.phase {
        Phase::Sense { starting } => starting || accounted(run.world),
        Phase::Fire { chain, .. } => if chain is None {
            opened_to(run.world, run.world.current + 1)
        } else {
            accounted(run.world)
        },
        Phase::Done => accounted(run.world) && run.world.finished(),
        _ => accounted(run.world),
    }
}

spec fn leads_accounted(next: Next) -> bool {
    next matches Next::Leads(after) ==> steps_accounted(after)
}

proof fn lemma_came_to_accounted(run: RunView, onward: Onward, v: RolloutView)
    requires
        goes_accounted(v, onward),
    ensures
        leads_accounted(run.came_to(onward)),
{
    match onward {
        Onward::Ends(world) => {
            if !world.finished() {
                let tick = if run.tick < u64::MAX {
                    (run.tick + 1) as u64
                } else {
                    run.tick
                };
                let w = RolloutView { t: clip(tick * world.options.dt), ..world };
                assert(!w.finished()) by {
                    if w.finished() {
                        assert forall|p: int| 0 <= p < world.programs.len() implies (
                        #[trigger] world.programs[p]).finished() by {
                            assert(w.programs[p].finished());
                        }
                    }
                }
                assert(accounted(w));
            }
        },
        _ => {},
    }
}

/// Where neither the programs nor their spans nor the clock change, neither does
/// the account.
proof fn lemma_same_account(v: RolloutView, w: RolloutView)
    requires
        w.programs == v.programs,
        w.step_spans == v.step_spans,
        w.t == v.t,
    ensures
        accounted(v) ==> accounted(w),
{
    if has_end(v) {
        let i = choose|i: int|
            0 <= i < v.step_spans.len() && (#[trigger] v.step_spans[i]).end == v.t;
        assert(w.step_spans[i].end == w.t);
    }
    if accounted(v) && v.step_spans.len() <= usize::MAX {
        assert(w.finished() ==> v.finished()) by {
            if w.finished() {
                assert forall|p: int| 0 <= p < v.programs.len() implies (
                #[trigger] v.programs[p]).finished() by {
                    assert(w.programs[p].finished());
                }
            }
        }
        assert forall|p: int| 0 <= p < w.programs.len() implies (
        #[trigger] w.programs[p]).open_span < w.step_spans.len() by {
            assert(v.programs[p].open_span < v.step_spans.len());
        }
    }
}

proof fn lemma_sense_accounted(run: RunView, reply: Reply)
    requires
        run.sound(),
        run.asks(reply),
        run.phase is Sense,
        steps_accounted(run),
        run.world.programs.len() <= usize::MAX,
    ensures
        leads_accounted(run.next(reply)),
{
    let v = run.world;
    match (run.phase, reply) {
        (Phase::Sense { starting }, Reply::Sensed(readings)) => {
            let w = v.sensed(readings@);
            if starting {
                lemma_scans_closed(w, w.programs.len());
                let closed = w.scans_closed(w.programs.len()).turn(0);
                lemma_opening_accounted(closed);
                lemma_came_to_accounted(run, closed.opening(), closed);
            } else {
                lemma_same_account(v, w.turn(0));
                lemma_onward_accounted(w.turn(0), 0);
                lemma_came_to_accounted(run, w.turn(0).onward(0), w.turn(0));
            }
        },
        _ => {},
    }
}

/// Firing an action changes no account.
proof fn lemma_fired_account(v: RolloutView, w: RolloutView, n: int)
    requires
        crate::dispatch::same_cursors(v, w),
    ensures
        accounted(v) ==> accounted(w),
        opened_to(v, n) ==> opened_to(w, n),
{
    assert forall|p: int| 0 <= p < v.programs.len() implies (#[trigger] w.programs[p]).open_span
        == v.programs[p].open_span && w.programs[p].finished() == v.programs[p].finished() by {}
    if has_end(v) {
        let i = choose|i: int|
            0 <= i < v.step_spans.len() && (#[trigger] v.step_spans[i]).end == v.t;
        assert(w.step_spans[i].end == w.t);
    }
    if accounted(v) && v.step_spans.len() <= usize::MAX {
        assert(w.finished() ==> v.finished()) by {
            if w.finished() {
                assert forall|p: int| 0 <= p < v.programs.len() implies (
                #[trigger] v.programs[p]).finished() by {
                    assert(w.programs[p].finished());
                }
            }
        }
    }
}

proof fn lemma_fire_accounted(run: RunView, reply: Reply)
    requires
        run.sound(),
        run.asks(reply),
        run.phase is Fire,
        steps_accounted(run),
        run.world.programs.len() <= usize::MAX,
    ensures
        leads_accounted(run.next(reply)),
{
    let v = run.world;
    match (run.phase, reply) {
        (Phase::Fire { action, chain }, Reply::Fired(answer)) => {
            let a = v.entry_actions()[action as int];
            law_firing_moves_no_cursor(v, a, answer);
            match v.fired(a, answer) {
                Fired::Fails(_) => {},
                Fired::Leads(w) => {
                    lemma_fired_account(v, w, v.current + 1);
                    match chain {
                        Some(n) => {
                            lemma_onward_accounted(w, n as int);
                            lemma_came_to_accounted(run, w.onward(n as int), w);
                        },
                        None => {
                            lemma_opened_on_accounted(w);
                            lemma_came_to_accounted(run, w.opened_on(), w);
                        },
                    }
                },
            }
        },
        _ => {},
    }
}

proof fn lemma_tick_keeps_programs(run: RunView, reply: Reply)
    requires
        run.asks(reply),
        ticking(run.phase),
    ensures
        run.next(reply) matches Next::Leads(after) ==> after.world.programs == run.world.programs
            && after.world.step_spans == run.world.step_spans && after.world.t == run.world.t && (
        ticking(after.phase) || after.phase == (Phase::Sense { starting: false })),
{
    let v = run.world;
    match (run.phase, reply) {
        (Phase::Board, Reply::Decks(replies)) => {
            let moves = run.pending.moves;
            let names = crate::world::advected(v.obstacles, run.pending.moved);
            lemma_boarded_keep(v, moves, names, replies@, moves.len());
        },
        (Phase::Carry { next }, Reply::Carried(answer)) => {
            lemma_carried_keep(
                v,
                run.pending.moves[next as int],
                run.riders[next as int],
                answer,
            );
        },
        (Phase::Clear, Reply::Cleared { loads, meets, touched }) => {
            let moves = run.pending.moves;
            lemma_loads_keep(v, moves, loads@, moves.len());
        },
        (Phase::Gaits, Reply::Walked(replies)) => {
            lemma_walked_keep(v, replies@, v.robots.len());
        },
        (Phase::Follow, Reply::Followed(replies)) => {
            lemma_followed_keep(v, replies@, v.robots.len());
        },
        _ => {},
    }
}

/// Whatever a run is answered, its step spans stay accounted for.
pub proof fn law_steps_stay_accounted(run: RunView, reply: Reply)
    requires
        run.sound(),
        run.asks(reply),
        steps_accounted(run),
        run.world.programs.len() <= usize::MAX,
    ensures
        run.next(reply) matches Next::Leads(after) ==> steps_accounted(after),
{
    match run.phase {
        Phase::Sense { .. } => lemma_sense_accounted(run, reply),
        Phase::Fire { .. } => lemma_fire_accounted(run, reply),
        Phase::Done => {},
        _ => {
            lemma_tick_keeps_programs(run, reply);
            match run.next(reply) {
                Next::Leads(after) => {
                    lemma_same_account(run.world, after.world);
                },
                _ => {},
            }
        },
    }
}

/// A run that comes to its end does so with a step: some step span ends at the
/// duration of the timeline.
pub proof fn law_a_run_ends_with_a_step(
    runs: Seq<RunView>,
    replies: Seq<Reply>,
    scene: Scene,
    sequences: Seq<&Sequence>,
    options: RolloutOptions,
    scenario: Option<String>,
    rests: Seq<Pose>,
)
    requires
        whole_run(runs, replies, scene, sequences, options, scenario),
        forall|i: int|
            0 <= i < runs.len() ==> (#[trigger] runs[i]).world.programs.len() <= usize::MAX,
        runs.last().phase is Done,
        runs.last().world.step_spans.len() <= usize::MAX,
    ensures
        ({
            let timeline = runs.last().world.timeline(rests);
            exists|i: int|
                0 <= i < timeline.step_spans.len() && (#[trigger] timeline.step_spans[i]).end
                    == timeline.duration
        }),
{
    lemma_accounted_so_far(runs, replies, scene, sequences, options, scenario, replies.len());
    let v = runs.last().world;
    assert(runs.last() == runs[replies.len() as int]);
    assert(has_end(v));
    let i = choose|i: int| 0 <= i < v.step_spans.len() && (#[trigger] v.step_spans[i]).end == v.t;
    assert(v.timeline(rests).step_spans[i].end == v.timeline(rests).duration);
}

proof fn lemma_accounted_so_far(
    runs: Seq<RunView>,
    replies: Seq<Reply>,
    scene: Scene,
    sequences: Seq<&Sequence>,
    options: RolloutOptions,
    scenario: Option<String>,
    n: nat,
)
    requires
        whole_run(runs, replies, scene, sequences, options, scenario),
        forall|i: int|
            0 <= i < runs.len() ==> (#[trigger] runs[i]).world.programs.len() <= usize::MAX,
        n <= replies.len(),
    ensures
        steps_accounted(runs[n as int]),
    decreases n,
{
    if n > 0 {
        let k = n - 1;
        lemma_accounted_so_far(runs, replies, scene, sequences, options, scenario, k as nat);
        assert(runs[k].sound());
        assert(runs[k].asks(replies[k]));
        law_steps_stay_accounted(runs[k], replies[k]);
    }
}

} // verus!
