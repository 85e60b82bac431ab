//! The base tracks of the robots that ride vehicles, over whole runs.

use vstd::prelude::*;

use crate::dispatch::{law_firing_moves_no_cursor, FireReply};
use crate::engine::{begun, Next, Phase, Reply, RunView};
use crate::finish::base_closed;
use crate::fire::Fired;
use crate::fixed::{clip, Pico, Pose};
use crate::laws::{law_instants_are_scans, law_runs_start_at_zero, lemma_scans_closed, on_time};
use crate::names::{find, lemma_find, names_of};
use crate::programs::Onward;
use crate::ride::{path_spans, CarryReply};
use crate::robots::RobotView;
use crate::rollout::{RolloutOptions, RolloutView};
use crate::scene::Scene;
use crate::seq::{Action, Sequence};
use crate::tick::{devices_ticked, ticks_of, MoveView};
use crate::tiling::{
    chained, law_closed_base_tiles, law_move_keeps_tiling, lemma_shifts_chained,
    lemma_ticks_chained, move_once, moves_chained, ticking,
};
use crate::tracks::{span_for, span_index, tiles, TrackSpan};
use crate::vehicle::Piece;
use crate::views::views;
use crate::whole::{
    keeps_records, lemma_boarded_keep, lemma_carried_keep, lemma_followed_keep, lemma_loads_keep,
    lemma_members_keep, lemma_onward_keeps, lemma_opened_on_keeps, lemma_opening_keeps,
    lemma_robots_keep, lemma_walked_keep, lemma_walks_keep, same_bases, whole_run,
};

verus! {

/// Spans none of which follows a link.
pub open spec fn off_links(spans: Seq<TrackSpan>) -> bool {
    forall|i: int| 0 <= i < spans.len() ==> (#[trigger] spans[i]) !is Follow
}

/// A base track that tiles, follows no link and has not got past `t`.
pub open spec fn base_tiles(rt: RobotView, t: int) -> bool {
    rt.base matches Some(spans) ==> tiles(spans) && off_links(spans) && (spans.len() > 0
        ==> spans.last().end() <= t)
}

proof fn lemma_path_off_links(
    spans: Seq<TrackSpan>,
    from: Pose,
    pieces: Seq<Piece>,
    turned: Seq<Pose>,
    n: nat,
)
    requires
        off_links(spans),
        n <= pieces.len(),
    ensures
        off_links(path_spans(spans, from, pieces, turned, n)),
    decreases n,
{
    if n > 0 {
        lemma_path_off_links(spans, from, pieces, turned, (n - 1) as nat);
        let less = path_spans(spans, from, pieces, turned, (n - 1) as nat);
        let all = path_spans(spans, from, pieces, turned, n);
        assert forall|i: int| 0 <= i < all.len() implies (#[trigger] all[i]) !is Follow by {
            if i < less.len() {
                assert(less[i] !is Follow);
            }
        }
    }
}

/// A span that speaks for an instant is one of the list.
proof fn lemma_span_index(spans: Seq<TrackSpan>, t: int, from: int)
    requires
        0 <= from,
    ensures
        span_index(spans, t, from) matches Some(i) ==> 0 <= i < spans.len(),
    decreases spans.len() - from,
{
    if from < spans.len() {
        lemma_span_index(spans, t, from + 1);
    }
}

/// Every base track tiles, and none has got past `t`.
pub open spec fn bases_by(v: RolloutView, t: int) -> bool {
    forall|r: int| 0 <= r < v.robots.len() ==> base_tiles(#[trigger] v.robots[r], t)
}

/// The robots that ride the vehicles still to move have not got past `t`.
pub open spec fn riders_wait(v: RolloutView, moves: Seq<MoveView>, from: int, t: int) -> bool {
    forall|r: int, j: int|
        #![trigger v.robots[r], moves[j]]
        0 <= r < v.robots.len() && from <= j < moves.len() && v.rides(r, v.mover(moves[j])@)
            ==> base_tiles(v.robots[r], t)
}

/// A run whose base tracks tile as far as it has got.
pub open spec fn bases_tile(run: RunView) -> bool {
    let v = run.world;
    let moves = run.pending.moves;
    &&& bases_by(v, v.t as int)
    &&& ticking(run.phase) ==> v.t >= v.options.dt
    &&& match run.phase {
        Phase::Joints => bases_by(v, v.t - v.options.dt),
        Phase::Devices => bases_by(v, v.t - v.options.dt),
        Phase::Board => bases_by(v, v.t - v.options.dt) && moves_chained(moves, v.options.dt, v.t),
        Phase::Carry { next } => moves_chained(moves, v.options.dt, v.t) && riders_wait(
            v,
            moves,
            next as int,
            v.t - v.options.dt,
        ),
        _ => true,
    }
}

spec fn goes_mounted(next: Next) -> bool {
    next matches Next::Leads(after) ==> bases_tile(after)
}

/// The same base tracks tile as the others do.
proof fn lemma_same_tile(v: RolloutView, w: RolloutView, t: int)
    requires
        same_bases(v, w),
        bases_by(v, t),
    ensures
        bases_by(w, t),
{
    assert forall|r: int| 0 <= r < w.robots.len() implies base_tiles(#[trigger] w.robots[r], t) by {
        assert(base_tiles(v.robots[r], t));
    }
}

/// What has not got past one instant has not got past a later one.
proof fn lemma_later(v: RolloutView, t: int, later: int)
    requires
        bases_by(v, t),
        t <= later,
    ensures
        bases_by(v, later),
{
    assert forall|r: int| 0 <= r < v.robots.len() implies base_tiles(
        #[trigger] v.robots[r],
        later,
    ) by {
        assert(base_tiles(v.robots[r], t));
    }
}

proof fn lemma_came_to_mounted(run: RunView, onward: Onward)
    requires
        on_time(run),
        bases_by(run.world, run.world.t as int),
        keeps_records(run.world, onward),
        run.world.t + run.world.options.dt <= Pico::MAX,
    ensures
        goes_mounted(run.came_to(onward)),
{
    match onward {
        Onward::Ends(world) => {
            let dt = run.world.options.dt as int;
            let tick = if run.tick < u64::MAX {
                (run.tick + 1) as u64
            } else {
                run.tick
            };
            assert(run.tick * dt >= 0) by (nonlinear_arith)
                requires
                    run.tick >= 0,
                    dt > 0,
            ;
            assert(run.tick * dt <= Pico::MAX);
            assert(run.tick < u64::MAX) by (nonlinear_arith)
                requires
                    run.tick * dt <= 0x7FFF_FFFF_FFFF_FFFF,
                    dt > 0,
            ;
            assert(tick * dt == run.tick * dt + dt) by (nonlinear_arith)
                requires
                    tick == run.tick + 1,
            ;
            let w = RolloutView { t: clip(tick * dt), ..world };
            assert(w.t == run.world.t + dt);
            lemma_same_tile(run.world, w, run.world.t as int);
            lemma_later(w, run.world.t as int, w.t as int);
            lemma_same_tile(run.world, world, run.world.t as int);
        },
        Onward::Fires { world, .. } => {
            lemma_same_tile(run.world, world, run.world.t as int);
        },
        _ => {},
    }
}

proof fn lemma_sense_mounted(run: RunView, reply: Reply)
    requires
        on_time(run),
        run.sound(),
        run.asks(reply),
        run.phase is Sense,
        bases_tile(run),
        run.world.t + run.world.options.dt <= Pico::MAX,
    ensures
        goes_mounted(run.next(reply)),
{
    let v = run.world;
    match (run.phase, reply) {
        (Phase::Sense { starting }, Reply::Sensed(readings)) => {
            let w = v.sensed(readings@);
            let there = RunView { world: w, ..run };
            lemma_same_tile(v, w, v.t as int);
            if starting {
                lemma_scans_closed(w, w.programs.len());
                let closed = w.scans_closed(w.programs.len()).turn(0);
                lemma_opening_keeps(closed);
                lemma_came_to_mounted(there, closed.opening());
            } else {
                lemma_onward_keeps(w.turn(0), 0);
                lemma_came_to_mounted(there, w.turn(0).onward(0));
            }
        },
        _ => {},
    }
}

proof fn lemma_fired_bases(v: RolloutView, action: Action, reply: FireReply)
    requires
        v.sound(),
        v.answered(action, reply),
    ensures
        v.fired(action, reply) matches Fired::Leads(w) ==> same_bases(v, w),
{
    match (action, reply) {
        (Action::Device { device, command }, FireReply::Device(reply)) => {
            match v.device_index(device@) {
                Some(d) => match v.command_of(device@, command, reply.courses@) {
                    crate::command::Outcome::Taken { state, lane, .. } => {
                        let w = v.commanded(d, state, lane);
                        lemma_walks_keep(w, device@, reply.walks@, w.robots.len());
                    },
                    _ => {},
                },
                None => {},
            }
        },
        (Action::StartMotion { motion }, FireReply::Motion(_)) => {
            lemma_find(names_of(v.scene.motions@), motion@, 0);
            match find(names_of(v.scene.motions@), motion@) {
                Some(k) => {
                    assert(v.scene.motions@[k].robot < v.robots.len());
                },
                None => {},
            }
        },
        _ => {},
    }
}

proof fn lemma_fire_mounted(run: RunView, reply: Reply)
    requires
        on_time(run),
        run.sound(),
        run.asks(reply),
        run.phase is Fire,
        bases_tile(run),
        run.world.t + run.world.options.dt <= Pico::MAX,
    ensures
        goes_mounted(run.next(reply)),
{
    let v = run.world;
    match (run.phase, reply) {
        (Phase::Fire { action, chain }, Reply::Fired(answer)) => {
            let a = v.entry_actions()[action as int];
            law_firing_moves_no_cursor(v, a, answer);
            lemma_fired_bases(v, a, answer);
            match v.fired(a, answer) {
                Fired::Fails(_) => {},
                Fired::Leads(w) => {
                    lemma_same_tile(v, w, v.t as int);
                    let there = RunView { world: w, ..run };
                    match chain {
                        Some(n) => {
                            lemma_onward_keeps(w, n as int);
                            lemma_came_to_mounted(there, w.onward(n as int));
                        },
                        None => {
                            lemma_opened_on_keeps(w);
                            lemma_came_to_mounted(there, w.opened_on());
                        },
                    }
                },
            }
        },
        _ => {},
    }
}

proof fn lemma_devices_mounted(run: RunView, reply: Reply)
    requires
        on_time(run),
        run.asks(reply),
        run.phase is Joints || run.phase is Devices,
        bases_tile(run),
    ensures
        goes_mounted(run.next(reply)),
{
    let v = run.world;
    match (run.phase, reply) {
        (Phase::Joints, Reply::Sampled(samples)) => {
            let w = v.joints_advanced(views(samples@));
            lemma_same_tile(v, w, v.t as int);
            lemma_same_tile(v, w, v.t - v.options.dt);
        },
        (Phase::Devices, Reply::Zones(points)) => {
            let inside = v.inside(views(points@));
            let plain = ticks_of(v.devices, inside, v.surroundings(), v.devices.len());
            lemma_ticks_chained(v.devices, inside, v.surroundings(), v.devices.len());
            lemma_shifts_chained(
                devices_ticked(v.devices, v.options.dt, v.t),
                plain.moves,
                plain.shifts,
                v.options.dt,
                v.t,
            );
            let w = v.devices_advanced(inside);
            lemma_same_tile(v, w, v.t as int);
            lemma_same_tile(v, w, v.t - v.options.dt);
            let x = RolloutView { moving: Seq::empty(), ..w };
            lemma_same_tile(v, x.tick_settled(v.tick(inside), Seq::empty()), v.t as int);
        },
        _ => {},
    }
}

proof fn lemma_board_mounted(run: RunView, reply: Reply)
    requires
        run.asks(reply),
        run.phase is Board,
        bases_tile(run),
    ensures
        goes_mounted(run.next(reply)),
{
    let v = run.world;
    match (run.phase, reply) {
        (Phase::Board, Reply::Decks(replies)) => {
            let moves = run.pending.moves;
            let names = crate::world::advected(v.obstacles, run.pending.moved);
            lemma_boarded_keep(v, moves, names, replies@, moves.len());
            let w = v.boarded(moves, names, replies@, moves.len());
            lemma_same_tile(v, w, v.t as int);
            lemma_same_tile(v, w, v.t - v.options.dt);
        },
        _ => {},
    }
}

/// What the base track of robot `r` is once the vehicle it rides has moved.
pub open spec fn base_carried(v: RolloutView, m: MoveView, r: int, reply: CarryReply) -> Option<
    Seq<TrackSpan>,
> {
    match v.robots[r].base {
        Some(spans) => Some(
            path_spans(
                spans,
                v.ride_start(r, reply),
                m.pieces,
                reply.bases_turned@[r]@,
                m.pieces.len(),
            ),
        ),
        None => None,
    }
}

proof fn lemma_bases_carried(v: RolloutView, m: MoveView, reply: CarryReply, n: nat)
    requires
        n <= v.robots.len(),
        v.bases.len() == v.robots.len(),
    ensures
        ({
            let w = v.robots_carried(m, reply, n);
            &&& w.robots.len() == v.robots.len()
            &&& w.bases.len() == v.bases.len()
            &&& forall|r: int|
                0 <= r < n ==> (#[trigger] w.robots[r]).base == if v.rides(r, v.mover(m)@) {
                    base_carried(v, m, r, reply)
                } else {
                    v.robots[r].base
                }
            &&& forall|r: int|
                n <= r < v.robots.len() ==> (#[trigger] w.robots[r]) == v.robots[r] && w.bases[r]
                    == v.bases[r]
        }),
    decreases n,
{
    if n > 0 {
        lemma_bases_carried(v, m, reply, (n - 1) as nat);
        lemma_robots_keep(v, m, reply, (n - 1) as nat);
        let less = v.robots_carried(m, reply, (n - 1) as nat);
        assert(less.robots[n - 1] == v.robots[n - 1]);
        assert(less.ride_start(n - 1, reply) == v.ride_start(n - 1, reply));
    }
}

proof fn lemma_carry_mounted(run: RunView, next: usize, answer: CarryReply)
    requires
        run.sound(),
        run.phase == (Phase::Carry { next }),
        bases_tile(run),
        run.pending.moves.len() <= usize::MAX,
        move_once(run.world, run.pending.moves),
    ensures
        bases_tile(run.carried_on(next, answer)),
{
    let v = run.world;
    let moves = run.pending.moves;
    let since = v.t - v.options.dt;
    let m = moves[next as int];
    let riders = run.riders[next as int];
    assert(m.pieces.len() > 0 && chained(m.pieces, since, v.t as int));
    let members = v.mover_body(m) + riders;
    let turned = views(answer.members_turned@);
    let a = v.frame_carried(m, answer);
    lemma_members_keep(a, m, members, turned, members.len());
    let b = a.members_carried(m, members, turned, members.len());
    lemma_bases_carried(b, m, answer, v.robots.len());
    lemma_carried_keep(v, m, riders, answer);
    let w = v.carried(m, riders, answer);
    assert forall|r: int| 0 <= r < w.robots.len() implies base_tiles(
        #[trigger] w.robots[r],
        v.t as int,
    ) && (v.rides(r, v.mover(m)@) || w.robots[r].base == v.robots[r].base) by {
        assert(b.robots[r] == v.robots[r]);
        assert(base_tiles(v.robots[r], v.t as int));
        assert(b.mover(m) == v.mover(m));
        if b.rides(r, b.mover(m)@) {
            assert(v.rides(r, v.mover(m)@));
            assert(moves[next as int] == m);
            assert(base_tiles(v.robots[r], since));
            match v.robots[r].base {
                Some(spans) => {
                    law_move_keeps_tiling(
                        spans,
                        b.ride_start(r, answer),
                        m.pieces,
                        answer.bases_turned@[r]@,
                        since,
                        v.t as int,
                        m.pieces.len(),
                    );
                    assert(m.pieces[m.pieces.len() - 1].t1 <= v.t);
                    lemma_path_off_links(
                        spans,
                        b.ride_start(r, answer),
                        m.pieces,
                        answer.bases_turned@[r]@,
                        m.pieces.len(),
                    );
                },
                None => {},
            }
        }
    }
    assert forall|r: int, j: int|
        #![trigger w.robots[r], moves[j]]
        0 <= r < w.robots.len() && next + 1 <= j < moves.len() && w.rides(
            r,
            w.mover(moves[j])@,
        ) implies base_tiles(w.robots[r], since) by {
        assert(v.mover(moves[next as int])@ != v.mover(moves[j])@);
        assert(v.rides(r, v.mover(moves[j])@));
        assert(!v.rides(r, v.mover(m)@));
        assert(base_tiles(v.robots[r], since));
    }
}

proof fn lemma_rest_mounted(run: RunView, reply: Reply)
    requires
        run.asks(reply),
        run.phase is Clear || run.phase is Gaits || run.phase is Follow || run.phase is Contacts,
    ensures
        run.next(reply) matches Next::Leads(after) ==> same_bases(run.world, after.world) && (
        after.phase is Gaits || after.phase is Follow || after.phase is Contacts
            || after.phase is Sense),
{
    let v = run.world;
    match (run.phase, reply) {
        (Phase::Clear, Reply::Cleared { loads, meets, touched }) => {
            let moves = run.pending.moves;
            lemma_loads_keep(v, moves, loads@, moves.len());
        },
        (Phase::Gaits, Reply::Walked(replies)) => {
            lemma_walked_keep(v, replies@, v.robots.len());
            match v.all_walked(replies@, v.robots.len()) {
                Fired::Leads(w) => {
                    assert(same_bases(v, w.spins_advanced()));
                },
                _ => {},
            }
        },
        (Phase::Follow, Reply::Followed(replies)) => {
            lemma_followed_keep(v, replies@, v.robots.len());
        },
        _ => {},
    }
}

/// The base track of every robot that rides a vehicle tiles from zero to where a
/// run has got, however it is answered, as long as no vehicle moves twice in one
/// tick.
pub proof fn law_base_tracks_tile(run: RunView, reply: Reply)
    requires
        on_time(run),
        run.sound(),
        run.asks(reply),
        bases_tile(run),
        run.world.t + run.world.options.dt <= Pico::MAX,
        run.pending.moves.len() <= usize::MAX,
        run.phase is Carry ==> move_once(run.world, run.pending.moves),
    ensures
        run.next(reply) matches Next::Leads(after) ==> bases_tile(after),
{
    match run.phase {
        Phase::Sense { .. } => lemma_sense_mounted(run, reply),
        Phase::Fire { .. } => lemma_fire_mounted(run, reply),
        Phase::Joints => lemma_devices_mounted(run, reply),
        Phase::Devices => lemma_devices_mounted(run, reply),
        Phase::Board => lemma_board_mounted(run, reply),
        Phase::Carry { next } => match reply {
            Reply::Carried(answer) => lemma_carry_mounted(run, next, answer),
            _ => {},
        },
        Phase::Done => {},
        _ => {
            lemma_rest_mounted(run, reply);
            law_instants_are_scans(run, reply);
            match run.next(reply) {
                Next::Leads(after) => {
                    lemma_same_tile(run.world, after.world, run.world.t as int);
                },
                _ => {},
            }
        },
    }
}

/// A run that starts has recorded no ride.
pub proof fn law_runs_start_mounted(
    scene: Scene,
    sequences: Seq<&Sequence>,
    options: RolloutOptions,
    scenario: Option<String>,
)
    ensures
        bases_tile(begun(scene, sequences, options, scenario)),
{
}

/// Over a whole run in which no vehicle moves twice in one tick, the base track of
/// every robot that rode a vehicle tiles the cycle, give or take 10^-12 s at its
/// end, and at no instant is the base on a link.
pub proof fn law_base_tracks_tile_the_cycle(
    runs: Seq<RunView>,
    replies: Seq<Reply>,
    scene: Scene,
    sequences: Seq<&Sequence>,
    options: RolloutOptions,
    scenario: Option<String>,
    rests: Seq<Pose>,
    r: int,
)
    requires
        whole_run(runs, replies, scene, sequences, options, scenario),
        forall|i: int|
            0 <= i < runs.len() ==> (#[trigger] runs[i]).world.t + options.dt <= Pico::MAX
                && runs[i].pending.moves.len() <= usize::MAX && (runs[i].phase is Carry
                ==> move_once(runs[i].world, runs[i].pending.moves)),
        0 <= r < runs.last().world.robots.len(),
    ensures
        ({
            let timeline = runs.last().world.timeline(rests);
            timeline.robots[r].base matches Some(spans) ==> {
                &&& tiles(spans)
                &&& spans.len() > 0 ==> timeline.duration - 1 <= spans.last().end()
                    <= timeline.duration
                &&& forall|t: int|
                    !(#[trigger] span_for(spans, t) matches Some(TrackSpan::Follow { .. }))
            }
        }),
{
    lemma_mounted_so_far(runs, replies, scene, sequences, options, scenario, replies.len());
    let v = runs.last().world;
    assert(runs.last() == runs[replies.len() as int]);
    assert(base_tiles(v.robots[r], v.t as int));
    match v.robots[r].base {
        Some(spans) => {
            if spans.len() > 0 {
                law_closed_base_tiles(spans, v.t, rests[r]);
            }
            let closed = base_closed(spans, v.t, rests[r]);
            assert forall|i: int| 0 <= i < closed.len() implies (#[trigger] closed[i]) !is Follow by {
                if i < spans.len() {
                    assert(spans[i] !is Follow);
                }
            }
            assert forall|t: int| !(#[trigger] span_for(closed, t) matches Some(
                TrackSpan::Follow { .. },
            )) by {
                lemma_span_index(closed, t, 0);
            }
        },
        None => {},
    }
}

proof fn lemma_mounted_so_far(
    runs: Seq<RunView>,
    replies: Seq<Reply>,
    scene: Scene,
    sequences: Seq<&Sequence>,
    options: RolloutOptions,
    scenario: Option<String>,
    n: nat,
)
    requires
        whole_run(runs, replies, scene, sequences, options, scenario),
        forall|i: int|
            0 <= i < runs.len() ==> (#[trigger] runs[i]).world.t + options.dt <= Pico::MAX
                && runs[i].pending.moves.len() <= usize::MAX && (runs[i].phase is Carry
                ==> move_once(runs[i].world, runs[i].pending.moves)),
        n <= replies.len(),
    ensures
        on_time(runs[n as int]),
        runs[n as int].world.options == options,
        bases_tile(runs[n as int]),
    decreases n,
{
    if n == 0 {
        law_runs_start_at_zero(scene, sequences, options, scenario);
        law_runs_start_mounted(scene, sequences, options, scenario);
    } else {
        let k = n - 1;
        lemma_mounted_so_far(runs, replies, scene, sequences, options, scenario, k as nat);
        assert(runs[k].sound());
        assert(runs[k].asks(replies[k]));
        law_instants_are_scans(runs[k], replies[k]);
        law_base_tracks_tile(runs[k], replies[k]);
    }
}

} // verus!
