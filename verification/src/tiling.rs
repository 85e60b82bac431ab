//! The tracks of whole runs: each starts at zero and ends with the cycle, and
//! those of the vehicles leave nothing out in between.

use vstd::prelude::*;

use crate::dispatch::{law_firing_moves_no_cursor, FireReply};
use crate::engine::{begun, Next, Phase, Reply, RunView};
use crate::finish::base_closed;
use crate::fire::Fired;
use crate::fixed::{clip, Pico, Pose};
use crate::laws::{
    law_instants_are_scans, leads_on, lemma_onward, lemma_opened_on, lemma_opening,
    lemma_scans_closed, on_time, same_tracks, spans_within,
};
use crate::names::{find, lemma_find};
use crate::programs::Onward;
use crate::ride::{bound, path_spans, path_tracks, CarryReply, DeckReply, Load};
use crate::rollout::{RolloutOptions, RolloutView};
use crate::scene::{Obstacle, Scene};
use crate::seq::{Action, Sequence};
use crate::setup::{stock, stowed_tracks};
use crate::stride::StrideReply;
use crate::supply::{fed_line, restocked, teleported, Line};
use crate::tick::{
    devices_ticked, tick_of, ticks_of, with_moved, with_shifts, Bodies, MoveView, Moved, Returned,
    ShiftView, Surroundings, TickView,
};
use crate::tracks::{
    all_tile, finished, jumped, law_finished_tracks_tile_the_cycle, law_piece_keeps_tiling,
    lemma_push_tiles, lemma_until_tiles, open_index, opened, pieced, respanned, ridden, stretched,
    tiles, track_names, with_piece, with_ride, TrackSpan, TrackView,
};
use crate::vehicle::{closed_pieces, walked, Leg, Piece};
use crate::views::views;
use crate::world::{settled, stop_time, stopped, TrackReply};

verus! {

/// A span list that has begun: its first span starts at zero.
pub open spec fn has_begun(spans: Seq<TrackSpan>) -> bool {
    spans.len() > 0 && spans[0].start() == 0
}

/// Every track has begun.
pub open spec fn all_begun(tracks: Seq<TrackView>) -> bool {
    forall|i: int| 0 <= i < tracks.len() ==> has_begun((#[trigger] tracks[i]).spans)
}

/// Once a track is open, every other has begun, and so has it, unless it opens
/// at zero and awaits its first span.
proof fn lemma_opens(tracks: Seq<TrackView>, name: Seq<char>, rest: Pose, since: Pico)
    requires
        all_begun(tracks),
        since >= 0,
    ensures
        ({
            let ready = opened(tracks, name, rest, since);
            let i = open_index(tracks, name);
            &&& 0 <= i < ready.len()
            &&& forall|k: int|
                0 <= k < ready.len() && k != i ==> has_begun((#[trigger] ready[k]).spans)
            &&& has_begun(ready[i].spans) || (ready[i].spans.len() == 0 && since == 0)
        }),
{
    lemma_find(track_names(tracks), name, 0);
    let ready = opened(tracks, name, rest, since);
    let i = open_index(tracks, name);
    assert forall|k: int| 0 <= k < ready.len() && k != i implies has_begun(
        (#[trigger] ready[k]).spans,
    ) by {
        assert(has_begun(tracks[k].spans));
    }
    if find(track_names(tracks), name) is Some {
        assert(has_begun(tracks[i].spans));
    }
}

proof fn lemma_respanned(tracks: Seq<TrackView>, i: int, spans: Seq<TrackSpan>)
    requires
        0 <= i < tracks.len(),
        forall|k: int| 0 <= k < tracks.len() && k != i ==> has_begun((#[trigger] tracks[k]).spans),
        has_begun(spans),
    ensures
        all_begun(respanned(tracks, i, spans)),
{
    let after = respanned(tracks, i, spans);
    assert forall|k: int| 0 <= k < after.len() implies has_begun((#[trigger] after[k]).spans) by {
        if k != i {
            assert(has_begun(tracks[k].spans));
        }
    }
}

proof fn lemma_jumped(
    tracks: Seq<TrackView>,
    name: Seq<char>,
    rest: Pose,
    t: Pico,
    span: TrackSpan,
)
    requires
        all_begun(tracks),
        t >= 0,
        span.start() == t,
    ensures
        all_begun(jumped(tracks, name, rest, t, span)),
{
    lemma_opens(tracks, name, rest, t);
    let ready = opened(tracks, name, rest, t);
    let i = open_index(tracks, name);
    lemma_respanned(ready, i, stretched(ready[i].spans, t).push(span));
}

proof fn lemma_ridden(
    tracks: Seq<TrackView>,
    name: Seq<char>,
    rest: Pose,
    t0: Pico,
    t1: Pico,
    velocity: crate::fixed::Vec3,
)
    requires
        all_begun(tracks),
        t0 >= 0,
    ensures
        all_begun(ridden(tracks, name, rest, t0, t1, velocity)),
{
    lemma_opens(tracks, name, rest, t0);
    let ready = opened(tracks, name, rest, t0);
    let i = open_index(tracks, name);
    lemma_respanned(ready, i, with_ride(ready[i].spans, rest, t0, t1, velocity));
}

proof fn lemma_pieced(tracks: Seq<TrackView>, name: Seq<char>, from: Pose, p: Piece)
    requires
        all_begun(tracks),
        p.t0 >= 0,
    ensures
        all_begun(pieced(tracks, name, from, p.t0, p.t1, p.motion)),
{
    if p.t0 < p.t1 {
        lemma_opens(tracks, name, from, p.t0);
        let ready = opened(tracks, name, from, p.t0);
        let i = open_index(tracks, name);
        lemma_respanned(ready, i, with_piece(ready[i].spans, from, p.t0, p.t1, p.motion));
    }
}

/// Pieces that start at zero or later and take time.
pub open spec fn pieces_timed(pieces: Seq<Piece>) -> bool {
    forall|i: int| 0 <= i < pieces.len() ==> 0 <= (#[trigger] pieces[i]).t0 < pieces[i].t1
}

/// Moves of at least one piece, each of which takes time.
pub open spec fn moves_timed(moves: Seq<MoveView>) -> bool {
    forall|i: int|
        0 <= i < moves.len() ==> (#[trigger] moves[i]).pieces.len() > 0 && pieces_timed(
            moves[i].pieces,
        )
}

proof fn lemma_path_tracks(
    tracks: Seq<TrackView>,
    name: Seq<char>,
    from: Pose,
    pieces: Seq<Piece>,
    turned: Seq<Pose>,
    n: nat,
)
    requires
        all_begun(tracks),
        pieces_timed(pieces),
        n <= pieces.len(),
    ensures
        all_begun(path_tracks(tracks, name, from, pieces, turned, n)),
    decreases n,
{
    if n > 0 {
        lemma_path_tracks(tracks, name, from, pieces, turned, (n - 1) as nat);
        lemma_pieced(
            path_tracks(tracks, name, from, pieces, turned, (n - 1) as nat),
            name,
            crate::ride::path_pose(from, pieces, turned, (n - 1) as nat),
            pieces[n - 1],
        );
    }
}

proof fn lemma_path_spans(
    spans: Seq<TrackSpan>,
    from: Pose,
    pieces: Seq<Piece>,
    turned: Seq<Pose>,
    n: nat,
)
    requires
        pieces_timed(pieces),
        has_begun(spans) || (spans.len() == 0 && pieces[0].t0 == 0 && n > 0),
        n <= pieces.len(),
    ensures
        has_begun(path_spans(spans, from, pieces, turned, n)),
    decreases n,
{
    if n > 0 {
        let less = path_spans(spans, from, pieces, turned, (n - 1) as nat);
        if has_begun(spans) || n > 1 {
            lemma_path_spans(spans, from, pieces, turned, (n - 1) as nat);
            assert(has_begun(less));
        }
        assert(0 <= pieces[n - 1].t0 < pieces[n - 1].t1);
    }
}

proof fn lemma_frame(v: RolloutView, m: MoveView, reply: CarryReply)
    requires
        all_begun(v.vehicles),
        m.pieces.len() > 0,
        pieces_timed(m.pieces),
    ensures
        all_begun(v.frame_carried(m, reply).vehicles),
        v.frame_carried(m, reply).objects == v.objects,
{
    let name = v.mover(m)@;
    let since = m.pieces[0].t0;
    lemma_opens(v.vehicles, name, m.start(reply.frame), since);
    let ready = opened(v.vehicles, name, m.start(reply.frame), since);
    let i = open_index(v.vehicles, name);
    lemma_path_spans(
        ready[i].spans,
        m.start(reply.frame),
        m.pieces,
        reply.frame_turned@,
        m.pieces.len(),
    );
    let spans = path_spans(
        ready[i].spans,
        m.start(reply.frame),
        m.pieces,
        reply.frame_turned@,
        m.pieces.len(),
    );
    let closing = v.frame_carried(m, reply).vehicles[i].spans;
    assert(has_begun(spans));
    lemma_respanned(ready, i, closing);
    assert(v.frame_carried(m, reply).vehicles =~= respanned(ready, i, closing));
}

proof fn lemma_members(
    v: RolloutView,
    m: MoveView,
    members: Seq<String>,
    turned: Seq<Seq<Pose>>,
    n: nat,
)
    requires
        all_begun(v.objects),
        pieces_timed(m.pieces),
    ensures
        all_begun(v.members_carried(m, members, turned, n).objects),
        v.members_carried(m, members, turned, n).vehicles == v.vehicles,
    decreases n,
{
    if n > 0 {
        lemma_members(v, m, members, turned, (n - 1) as nat);
        let less = v.members_carried(m, members, turned, (n - 1) as nat);
        match crate::scene::body_index(less.obstacles, members[n - 1]@) {
            Some(k) => {
                lemma_path_tracks(
                    less.objects,
                    members[n - 1]@,
                    less.obstacles[k].pose,
                    m.pieces,
                    turned[n - 1],
                    m.pieces.len(),
                );
            },
            None => {},
        }
    }
}

pub proof fn lemma_robots(v: RolloutView, m: MoveView, reply: CarryReply, n: nat)
    ensures
        same_tracks(v, v.robots_carried(m, reply, n)),
    decreases n,
{
    if n > 0 {
        lemma_robots(v, m, reply, (n - 1) as nat);
    }
}

proof fn lemma_carried(v: RolloutView, m: MoveView, riders: Seq<String>, reply: CarryReply)
    requires
        all_begun(v.objects),
        all_begun(v.vehicles),
        m.pieces.len() > 0,
        pieces_timed(m.pieces),
    ensures
        all_begun(v.carried(m, riders, reply).objects),
        all_begun(v.carried(m, riders, reply).vehicles),
{
    let members = v.mover_body(m) + riders;
    lemma_frame(v, m, reply);
    let a = v.frame_carried(m, reply);
    lemma_members(a, m, members, views(reply.members_turned@), members.len());
    let b = a.members_carried(m, members, views(reply.members_turned@), members.len());
    lemma_robots(b, m, reply, v.robots.len());
}

proof fn lemma_bound(
    before: Load,
    riders: Seq<String>,
    obstacles: Seq<Obstacle>,
    offsets: Seq<Pose>,
    robot: usize,
    link: usize,
    t: Pico,
    n: nat,
)
    requires
        all_begun(before.tracks),
        t >= 0,
    ensures
        all_begun(bound(before, riders, obstacles, offsets, robot, link, t, n).tracks),
    decreases n,
{
    if n > 0 {
        lemma_bound(before, riders, obstacles, offsets, robot, link, t, (n - 1) as nat);
        let less = bound(before, riders, obstacles, offsets, robot, link, t, (n - 1) as nat);
        let name = riders[n - 1]@;
        match find(crate::names::names_of(before.carried), name) {
            Some(_) => {
                lemma_find(track_names(less.tracks), name, 0);
                match find(track_names(less.tracks), name) {
                    Some(i) => {
                        assert(has_begun(less.tracks[i].spans));
                        let spans = less.tracks[i].spans;
                        lemma_respanned(
                            less.tracks,
                            i,
                            spans.update(spans.len() - 1, spans.last().until(t)),
                        );
                    },
                    None => {},
                }
            },
            None => match crate::scene::body_index(obstacles, name) {
                None => {},
                Some(k) => {
                    lemma_jumped(
                        less.tracks,
                        name,
                        obstacles[k].pose,
                        t,
                        TrackSpan::Follow { t0: t, t1: t, robot, link, offset: offsets[k] },
                    );
                },
            },
        }
    }
}

proof fn lemma_boarded(
    v: RolloutView,
    moves: Seq<MoveView>,
    advected: Seq<String>,
    replies: Seq<DeckReply>,
    n: nat,
)
    requires
        all_begun(v.objects),
        v.t >= 0,
    ensures
        all_begun(v.boarded(moves, advected, replies, n).objects),
        v.boarded(moves, advected, replies, n).vehicles == v.vehicles,
        v.boarded(moves, advected, replies, n).t == v.t,
    decreases n,
{
    if n > 0 {
        lemma_boarded(v, moves, advected, replies, (n - 1) as nat);
        let less = v.boarded(moves, advected, replies, (n - 1) as nat);
        let m = moves[n - 1];
        let riders = v.riders(m, advected, v.on_deck(m, replies[n - 1]), v.obstacles.len());
        match less.walker_on(less.mover(m)@, 0) {
            None => {},
            Some(r) => {
                let g = less.robots[r].gait->0;
                lemma_bound(
                    Load { carried: g.carried, tracks: less.objects },
                    riders,
                    less.obstacles,
                    replies[n - 1].offsets@,
                    r as usize,
                    less.gait_of(r).body,
                    less.t,
                    riders.len(),
                );
            },
        }
    }
}

proof fn lemma_moved(b: Bodies, moved: Seq<Moved>, dt: Pico, t: Pico)
    requires
        all_begun(b.tracks),
        0 < dt <= t,
    ensures
        all_begun(with_moved(b, moved, dt, t).tracks),
    decreases moved.len(),
{
    if moved.len() > 0 {
        lemma_moved(b, moved.drop_last(), dt, t);
        let less = with_moved(b, moved.drop_last(), dt, t);
        let m = moved.last();
        let o = less.obstacles[m.obstacle as int];
        lemma_ridden(less.tracks, o.name@, o.pose, clip(t - dt), t, m.velocity);
    }
}

proof fn lemma_settled(tracks: Seq<TrackView>, stops: Seq<(Seq<char>, Pose)>, t: Pico)
    requires
        all_begun(tracks),
        t >= 0,
    ensures
        all_begun(settled(tracks, stops, t)),
    decreases stops.len(),
{
    if stops.len() > 0 {
        lemma_settled(tracks, stops.drop_last(), t);
        let less = settled(tracks, stops.drop_last(), t);
        let (name, pose) = stops.last();
        let at = stop_time(less, name, t);
        lemma_find(track_names(less), name, 0);
        let ready = opened(less, name, pose, at);
        let i = open_index(less, name);
        match find(track_names(less), name) {
            Some(k) => {
                assert(has_begun(less[k].spans));
                assert forall|j: int| 0 <= j < ready.len() && j != i implies has_begun(
                    (#[trigger] ready[j]).spans,
                ) by {
                    assert(has_begun(less[j].spans));
                }
            },
            None => {
                lemma_opens(less, name, pose, t);
            },
        }
        lemma_respanned(
            ready,
            i,
            ready[i].spans.push(TrackSpan::Hold { t0: at, t1: at, pose }),
        );
    }
}

proof fn lemma_teleported(b: Bodies, name: Seq<char>, to: Pose, stowed: bool, t: Pico)
    requires
        all_begun(b.tracks),
        t >= 0,
    ensures
        all_begun(teleported(b, name, to, stowed, t).tracks),
{
    match crate::scene::body_index(b.obstacles, name) {
        Some(k) => {
            lemma_jumped(
                b.tracks,
                name,
                b.obstacles[k].pose,
                t,
                crate::supply::resting(t, to, stowed),
            );
        },
        None => {},
    }
}

proof fn lemma_restocked(line: Line, returned: Seq<Returned>, t: Pico)
    requires
        all_begun(line.bodies.tracks),
        t >= 0,
    ensures
        all_begun(restocked(line, returned, t).bodies.tracks),
    decreases returned.len(),
{
    if returned.len() > 0 {
        lemma_restocked(line, returned.drop_last(), t);
        let less = restocked(line, returned.drop_last(), t);
        let r = returned.last();
        match crate::supply::owned_member(less, r) {
            Some(i) => {
                let s = less.devices[r.source->0 as int].state->Source_0;
                lemma_teleported(
                    less.bodies,
                    less.bodies.obstacles[r.obstacle as int].name@,
                    crate::devices::slot(s.park, s.pitch, i),
                    true,
                    t,
                );
            },
            None => {},
        }
    }
}

proof fn lemma_fed(line: Line, n: nat, dt: Pico, t: Pico)
    requires
        all_begun(line.bodies.tracks),
        t >= 0,
    ensures
        all_begun(fed_line(line, n, dt, t).bodies.tracks),
    decreases n,
{
    if n > 0 {
        lemma_fed(line, (n - 1) as nat, dt, t);
        let less = fed_line(line, (n - 1) as nat, dt, t);
        match less.devices[n - 1].state {
            crate::devices::StateView::Source(s) => {
                match crate::supply::fed(s, dt).1 {
                    Some(i) => {
                        lemma_teleported(less.bodies, s.pool[i]@, s.pose, false, t);
                    },
                    None => {},
                }
            },
            _ => {},
        }
    }
}

proof fn lemma_tick_settled(v: RolloutView, tick: TickView, riders: Seq<Seq<String>>)
    requires
        all_begun(v.objects),
        v.t >= 0,
    ensures
        all_begun(v.tick_settled(tick, riders).objects),
        v.tick_settled(tick, riders).vehicles == v.vehicles,
{
    let carried = crate::world::advected(v.obstacles, tick.moved) + crate::engine::flat_riders(
        riders,
    );
    let stops = stopped(v.objects, v.obstacles, carried, v.t, v.objects.len());
    lemma_settled(v.objects, stops, v.t);
    let w = v.stops_settled(carried);
    lemma_restocked(w.line(), tick.returned, w.t);
    lemma_fed(restocked(w.line(), tick.returned, w.t), w.devices.len(), w.options.dt, w.t);
}

proof fn lemma_walk_timed(
    legs: Seq<Leg>,
    position: crate::fixed::Vec3,
    heading: Pico,
    left: Pico,
    t: Pico,
)
    requires
        0 <= left <= t,
    ensures
        forall|i: int|
            0 <= i < walked(legs, position, heading, left, t).pieces.len() ==> 0 <= (
            #[trigger] walked(legs, position, heading, left, t).pieces[i]).t0 < walked(
                legs,
                position,
                heading,
                left,
                t,
            ).pieces[i].t1 <= t,
    decreases legs.len(),
{
    if left > 1 && legs.len() > 0 {
        let leg = legs[0];
        let need = leg.need();
        let rest = legs.drop_first();
        let w = walked(legs, position, heading, left, t);
        if need <= 1 {
            lemma_walk_timed(
                rest,
                leg.position_after(position),
                leg.heading_after(heading),
                left,
                t,
            );
        } else {
            let step = if need <= left {
                need
            } else {
                left
            };
            if step >= need - 1 {
                let more = walked(
                    rest,
                    leg.position_after(position),
                    leg.heading_after(heading),
                    (left - step) as i64,
                    t,
                );
                lemma_walk_timed(
                    rest,
                    leg.position_after(position),
                    leg.heading_after(heading),
                    (left - step) as i64,
                    t,
                );
                assert forall|i: int| 0 <= i < w.pieces.len() implies 0 <= (
                #[trigger] w.pieces[i]).t0 < w.pieces[i].t1 <= t by {
                    if i > 0 {
                        assert(w.pieces[i] == more.pieces[i - 1]);
                    }
                }
            }
        }
    }
}

proof fn lemma_ticks_timed(
    devices: Seq<crate::devices::DeviceView>,
    inside: Seq<Seq<bool>>,
    w: Surroundings,
    n: nat,
)
    requires
        0 < w.dt <= w.t,
    ensures
        moves_timed(ticks_of(devices, inside, w, n).moves),
    decreases n,
{
    if n > 0 {
        lemma_ticks_timed(devices, inside, w, (n - 1) as nat);
        let less = ticks_of(devices, inside, w, (n - 1) as nat);
        let one = tick_of(devices[n - 1], (n - 1) as usize, inside[n - 1], w);
        let all = ticks_of(devices, inside, w, n);
        assert(moves_timed(one.moves)) by {
            match devices[n - 1].state {
                crate::devices::StateView::Vehicle(v) => {
                    lemma_walk_timed(v.legs, v.position, v.heading, w.dt, w.t);
                    let walk = walked(v.legs, v.position, v.heading, w.dt, w.t);
                    let pieces = closed_pieces(walk.pieces, walk.left, w.t);
                    assert forall|i: int| 0 <= i < pieces.len() implies 0 <= (
                    #[trigger] pieces[i]).t0 < pieces[i].t1 by {
                        assert(0 <= walk.pieces[i].t0 < walk.pieces[i].t1 <= w.t);
                    }
                },
                _ => {},
            }
        }
        assert forall|i: int| 0 <= i < all.moves.len() implies (
        #[trigger] all.moves[i]).pieces.len() > 0 && pieces_timed(all.moves[i].pieces) by {
            if i < less.moves.len() {
                assert(all.moves[i] == less.moves[i]);
            } else {
                assert(all.moves[i] == one.moves[i - less.moves.len()]);
            }
        }
    }
}

proof fn lemma_shifts_timed(
    devices: Seq<crate::devices::DeviceView>,
    moves: Seq<MoveView>,
    shifts: Seq<ShiftView>,
    dt: Pico,
    t: Pico,
)
    requires
        0 < dt <= t,
        moves_timed(moves),
    ensures
        moves_timed(with_shifts(devices, moves, shifts, dt, t).1),
    decreases shifts.len(),
{
    if shifts.len() > 0 {
        lemma_shifts_timed(devices, moves, shifts.drop_last(), dt, t);
    }
}

/// The phases within a tick.
pub open spec fn ticking(phase: Phase) -> bool {
    match phase {
        Phase::Sense { .. } => false,
        Phase::Fire { .. } => false,
        Phase::Done => false,
        _ => true,
    }
}

/// A run whose tracks have all begun.
pub open spec fn well_begun(run: RunView) -> bool {
    &&& all_begun(run.world.objects)
    &&& all_begun(run.world.vehicles)
    &&& ticking(run.phase) ==> run.world.t >= run.world.options.dt
    &&& run.phase is Board || run.phase is Carry ==> moves_timed(run.pending.moves)
}

proof fn lemma_stock(
    pool: Seq<String>,
    parked: Seq<bool>,
    park: Pose,
    pitch: crate::fixed::Vec3,
    n: nat,
)
    ensures
        all_begun(stock(pool, parked, park, pitch, n)),
    decreases n,
{
    if n > 0 {
        lemma_stock(pool, parked, park, pitch, (n - 1) as nat);
    }
}

proof fn lemma_stowed(devices: Seq<crate::devices::DeviceView>, n: nat)
    ensures
        all_begun(stowed_tracks(devices, n)),
    decreases n,
{
    if n > 0 {
        lemma_stowed(devices, (n - 1) as nat);
        let less = stowed_tracks(devices, (n - 1) as nat);
        let all = stowed_tracks(devices, n);
        match devices[n - 1].state {
            crate::devices::StateView::Source(s) => {
                let more = stock(s.pool, s.parked, s.park, s.pitch, s.pool.len());
                lemma_stock(s.pool, s.parked, s.park, s.pitch, s.pool.len());
                assert forall|i: int| 0 <= i < all.len() implies has_begun(
                    (#[trigger] all[i]).spans,
                ) by {
                    if i < less.len() {
                        assert(all[i] == less[i]);
                    } else {
                        assert(all[i] == more[i - less.len()]);
                    }
                }
            },
            _ => {
                assert(all =~= less);
            },
        }
    }
}

/// A run that starts has tracks for what is held and what waits in magazines,
/// and all of them have begun.
pub proof fn law_runs_start_well_begun(
    scene: Scene,
    sequences: Seq<&Sequence>,
    options: RolloutOptions,
    scenario: Option<String>,
)
    ensures
        well_begun(begun(scene, sequences, options, scenario)),
{
    let v = begun(scene, sequences, options, scenario).world;
    lemma_stowed(v.devices, v.devices.len());
    let held = crate::setup::grasped_tracks(scene.attachments@);
    let waiting = stowed_tracks(v.devices, v.devices.len());
    assert forall|i: int| 0 <= i < v.objects.len() implies has_begun(
        (#[trigger] v.objects[i]).spans,
    ) by {
        if i < held.len() {
            assert(v.objects[i] == held[i]);
        } else {
            assert(v.objects[i] == waiting[i - held.len()]);
        }
    }
}

proof fn lemma_fired(v: RolloutView, action: Action, reply: FireReply)
    requires
        all_begun(v.objects),
        v.t >= 0,
    ensures
        v.fired(action, reply) matches Fired::Leads(w) ==> all_begun(w.objects) && w.vehicles
            == v.vehicles,
{
    match (action, reply) {
        (Action::Attach { object, .. }, FireReply::Grasp { robot, grasp }) => {
            match grasp {
                Ok(a) => {
                    lemma_jumped(
                        v.objects,
                        object@,
                        v.obstacles[crate::scene::body_index(v.obstacles, object@)->0].pose,
                        v.t,
                        TrackSpan::Follow {
                            t0: v.t,
                            t1: v.t,
                            robot: a.robot,
                            link: a.link,
                            offset: a.grasp,
                        },
                    );
                },
                Err(_) => {},
            }
        },
        (Action::Detach { object }, FireReply::Release(pose)) => {
            match pose {
                Ok(p) => {
                    lemma_jumped(
                        v.objects,
                        object@,
                        p,
                        v.t,
                        TrackSpan::Hold { t0: v.t, t1: v.t, pose: p },
                    );
                },
                Err(_) => {},
            }
        },
        (Action::Device { device, command }, FireReply::Device(reply)) => {
            match v.device_index(device@) {
                Some(d) => match v.command_of(device@, command, reply.courses@) {
                    crate::command::Outcome::Taken { state, lane, .. } => {
                        let w = v.commanded(d, state, lane);
                        lemma_walks(w, device@, reply.walks@, w.robots.len());
                    },
                    _ => {},
                },
                None => {},
            }
        },
        _ => {},
    }
}

pub proof fn lemma_walks(
    v: RolloutView,
    device: Seq<char>,
    walks: Seq<Option<crate::walk::GaitReply>>,
    n: nat,
)
    ensures
        v.fired_walks(device, walks, n) matches Fired::Leads(w) ==> same_tracks(v, w),
    decreases n,
{
    if n > 0 {
        lemma_walks(v, device, walks, (n - 1) as nat);
    }
}

pub proof fn lemma_loads(v: RolloutView, moves: Seq<MoveView>, loads: Seq<Vec<Pose>>, n: nat)
    ensures
        same_tracks(v, v.loads_placed(moves, loads, n)),
        v.loads_placed(moves, loads, n).t == v.t,
    decreases n,
{
    if n > 0 {
        lemma_loads(v, moves, loads, (n - 1) as nat);
    }
}

pub proof fn lemma_strides(v: RolloutView, replies: Seq<Option<StrideReply>>, n: nat)
    ensures
        v.all_walked(replies, n) matches Fired::Leads(w) ==> same_tracks(v, w),
    decreases n,
{
    if n > 0 {
        lemma_strides(v, replies, (n - 1) as nat);
    }
}

pub proof fn lemma_follows(v: RolloutView, replies: Seq<TrackReply>, n: nat)
    ensures
        v.all_tracked(replies, n) matches Fired::Leads(w) ==> same_tracks(v, w),
    decreases n,
{
    if n > 0 {
        lemma_follows(v, replies, (n - 1) as nat);
    }
}

proof fn lemma_came_to(run: RunView, onward: Onward)
    requires
        on_time(run),
        all_begun(run.world.objects),
        all_begun(run.world.vehicles),
        leads_on(run.world, onward),
    ensures
        run.came_to(onward) matches Next::Leads(after) ==> well_begun(after),
{
    match onward {
        Onward::Ends(world) => {
            let dt = run.world.options.dt as int;
            let tick = if run.tick < u64::MAX {
                (run.tick + 1) as u64
            } else {
                run.tick
            };
            assert(tick * dt >= dt) by (nonlinear_arith)
                requires
                    tick >= 1,
                    dt > 0,
            ;
        },
        _ => {},
    }
}

/// Every track of a run has begun, whatever the run is answered: it holds a
/// span, and its first span starts at zero.
pub proof fn law_tracks_start_at_zero(run: RunView, reply: Reply)
    requires
        on_time(run),
        run.sound(),
        run.asks(reply),
        well_begun(run),
    ensures
        run.next(reply) matches Next::Leads(after) ==> well_begun(after),
{
    let v = run.world;
    law_instants_are_scans(run, reply);
    assert(v.t >= 0) by {
        assert(run.tick * v.options.dt >= 0) by (nonlinear_arith)
            requires
                run.tick >= 0,
                v.options.dt > 0,
        ;
    }
    match (run.phase, reply) {
        (Phase::Sense { starting }, Reply::Sensed(readings)) => {
            let w = v.sensed(readings@);
            if starting {
                lemma_scans_closed(w, w.programs.len());
                lemma_opening(w.scans_closed(w.programs.len()).turn(0));
                lemma_came_to(run, w.scans_closed(w.programs.len()).turn(0).opening());
            } else {
                lemma_onward(w.turn(0), 0);
                lemma_came_to(run, w.turn(0).onward(0));
            }
        },
        (Phase::Fire { action, chain }, Reply::Fired(answer)) => {
            let a = v.entry_actions()[action as int];
            law_firing_moves_no_cursor(v, a, answer);
            lemma_fired(v, a, answer);
            match v.fired(a, answer) {
                Fired::Fails(_) => {},
                Fired::Leads(w) => {
                    assert(spans_within(w));
                    let there = RunView { world: w, ..run };
                    match chain {
                        Some(n) => {
                            lemma_onward(w, n as int);
                            lemma_came_to(there, w.onward(n as int));
                        },
                        None => {
                            lemma_opened_on(w);
                            lemma_came_to(there, w.opened_on());
                        },
                    }
                },
            }
        },
        (Phase::Devices, Reply::Zones(points)) => {
            let inside = v.inside(views(points@));
            let plain = ticks_of(v.devices, inside, v.surroundings(), v.devices.len());
            lemma_ticks_timed(v.devices, inside, v.surroundings(), v.devices.len());
            lemma_shifts_timed(
                devices_ticked(v.devices, v.options.dt, v.t),
                plain.moves,
                plain.shifts,
                v.options.dt,
                v.t,
            );
            lemma_moved(
                Bodies { obstacles: v.obstacles, tracks: v.objects },
                plain.moved,
                v.options.dt,
                v.t,
            );
            let w = v.devices_advanced(inside);
            lemma_tick_settled(
                RolloutView { moving: Seq::empty(), ..w },
                v.tick(inside),
                Seq::empty(),
            );
        },
        (Phase::Board, Reply::Decks(replies)) => {
            let moves = run.pending.moves;
            lemma_boarded(
                v,
                moves,
                crate::world::advected(v.obstacles, run.pending.moved),
                replies@,
                moves.len(),
            );
        },
        (Phase::Carry { next }, Reply::Carried(answer)) => {
            let m = run.pending.moves[next as int];
            assert(m.pieces.len() > 0 && pieces_timed(m.pieces));
            lemma_carried(v, m, run.riders[next as int], answer);
        },
        (Phase::Clear, Reply::Cleared { loads, meets, touched }) => {
            let moves = run.pending.moves;
            lemma_loads(v, moves, loads@, moves.len());
            let w = v.loads_placed(moves, loads@, moves.len());
            match w.moves_checked(moves, run.riders, views(meets@), touched@) {
                Fired::Fails(_) => {},
                Fired::Leads(x) => {
                    lemma_tick_settled(x, run.pending, run.riders);
                },
            }
        },
        (Phase::Gaits, Reply::Walked(replies)) => {
            lemma_strides(v, replies@, v.robots.len());
        },
        (Phase::Follow, Reply::Followed(replies)) => {
            lemma_follows(v, replies@, v.robots.len());
        },
        _ => {},
    }
}

/// A run that is through closes into a timeline whose tracks all run from zero
/// to the end of the cycle.
pub proof fn law_tracks_run_to_the_end(run: RunView, rests: Seq<Pose>)
    requires
        well_begun(run),
    ensures
        ({
            let timeline = run.world.timeline(rests);
            &&& runs_through(timeline.objects, timeline.duration)
            &&& runs_through(timeline.vehicles, timeline.duration)
        }),
{
    lemma_closed(run.world.objects, run.world.t);
    lemma_closed(run.world.vehicles, run.world.t);
}

/// Every track runs from zero to `duration`.
pub open spec fn runs_through(tracks: Seq<TrackView>, duration: Pico) -> bool {
    forall|i: int|
        0 <= i < tracks.len() ==> has_begun((#[trigger] tracks[i]).spans)
            && tracks[i].spans.last().end() == duration
}

pub proof fn lemma_closed(tracks: Seq<TrackView>, duration: Pico)
    requires
        all_begun(tracks),
    ensures
        runs_through(finished(tracks, duration), duration),
{
    let after = finished(tracks, duration);
    assert forall|i: int| 0 <= i < after.len() implies has_begun((#[trigger] after[i]).spans)
        && after[i].spans.last().end() == duration by {
        assert(has_begun(tracks[i].spans));
    }
}

/// Pieces one after the other, between `from` and `to`.
pub open spec fn chained(pieces: Seq<Piece>, from: int, to: int) -> bool {
    &&& forall|i: int|
        0 <= i < pieces.len() ==> from <= (#[trigger] pieces[i]).t0 < pieces[i].t1 <= to
    &&& forall|i: int, j: int|
        #![trigger pieces[i], pieces[j]]
        0 <= i < j < pieces.len() ==> pieces[i].t1 <= pieces[j].t0
}

/// Moves of at least one piece, each a chain within the tick that ends at `t`.
pub open spec fn moves_chained(moves: Seq<MoveView>, dt: Pico, t: Pico) -> bool {
    forall|i: int|
        0 <= i < moves.len() ==> (#[trigger] moves[i]).pieces.len() > 0 && chained(
            moves[i].pieces,
            t - dt,
            t as int,
        )
}

proof fn lemma_walk_chained(
    legs: Seq<Leg>,
    position: crate::fixed::Vec3,
    heading: Pico,
    left: Pico,
    t: Pico,
)
    requires
        0 <= left <= t,
    ensures
        chained(walked(legs, position, heading, left, t).pieces, t - left, t as int),
    decreases legs.len(),
{
    if left > 1 && legs.len() > 0 {
        let leg = legs[0];
        let need = leg.need();
        let rest = legs.drop_first();
        let w = walked(legs, position, heading, left, t);
        if need <= 1 {
            lemma_walk_chained(
                rest,
                leg.position_after(position),
                leg.heading_after(heading),
                left,
                t,
            );
        } else {
            let step = if need <= left {
                need
            } else {
                left
            };
            if step >= need - 1 {
                let more = walked(
                    rest,
                    leg.position_after(position),
                    leg.heading_after(heading),
                    (left - step) as i64,
                    t,
                ).pieces;
                lemma_walk_chained(
                    rest,
                    leg.position_after(position),
                    leg.heading_after(heading),
                    (left - step) as i64,
                    t,
                );
                assert forall|i: int| 0 <= i < w.pieces.len() implies t - left <= (
                #[trigger] w.pieces[i]).t0 < w.pieces[i].t1 <= t by {
                    if i > 0 {
                        assert(w.pieces[i] == more[i - 1]);
                    }
                }
                assert forall|i: int, j: int|
                    #![trigger w.pieces[i], w.pieces[j]]
                    0 <= i < j < w.pieces.len() implies w.pieces[i].t1 <= w.pieces[j].t0 by {
                    assert(w.pieces[j] == more[j - 1]);
                    if i > 0 {
                        assert(w.pieces[i] == more[i - 1]);
                    }
                }
            }
        }
    }
}

pub proof fn lemma_ticks_chained(
    devices: Seq<crate::devices::DeviceView>,
    inside: Seq<Seq<bool>>,
    w: Surroundings,
    n: nat,
)
    requires
        0 < w.dt <= w.t,
    ensures
        moves_chained(ticks_of(devices, inside, w, n).moves, w.dt, w.t),
    decreases n,
{
    if n > 0 {
        lemma_ticks_chained(devices, inside, w, (n - 1) as nat);
        let less = ticks_of(devices, inside, w, (n - 1) as nat);
        let one = tick_of(devices[n - 1], (n - 1) as usize, inside[n - 1], w);
        let all = ticks_of(devices, inside, w, n);
        assert(moves_chained(one.moves, w.dt, w.t)) by {
            match devices[n - 1].state {
                crate::devices::StateView::Vehicle(v) => {
                    lemma_walk_chained(v.legs, v.position, v.heading, w.dt, w.t);
                    let walk = walked(v.legs, v.position, v.heading, w.dt, w.t);
                    let pieces = closed_pieces(walk.pieces, walk.left, w.t);
                    assert forall|i: int| 0 <= i < pieces.len() implies w.t - w.dt <= (
                    #[trigger] pieces[i]).t0 < pieces[i].t1 <= w.t by {
                        assert(walk.pieces[i].t0 < walk.pieces[i].t1);
                    }
                    assert forall|i: int, j: int|
                        #![trigger pieces[i], pieces[j]]
                        0 <= i < j < pieces.len() implies pieces[i].t1 <= pieces[j].t0 by {
                        assert(walk.pieces[i].t1 <= walk.pieces[j].t0);
                    }
                },
                _ => {},
            }
        }
        assert forall|i: int| 0 <= i < all.moves.len() implies (
        #[trigger] all.moves[i]).pieces.len() > 0 && chained(
            all.moves[i].pieces,
            w.t - w.dt,
            w.t as int,
        ) by {
            if i < less.moves.len() {
                assert(all.moves[i] == less.moves[i]);
            } else {
                assert(all.moves[i] == one.moves[i - less.moves.len()]);
            }
        }
    }
}

pub proof fn lemma_shifts_chained(
    devices: Seq<crate::devices::DeviceView>,
    moves: Seq<MoveView>,
    shifts: Seq<ShiftView>,
    dt: Pico,
    t: Pico,
)
    requires
        0 < dt <= t,
        moves_chained(moves, dt, t),
    ensures
        moves_chained(with_shifts(devices, moves, shifts, dt, t).1, dt, t),
    decreases shifts.len(),
{
    if shifts.len() > 0 {
        lemma_shifts_chained(devices, moves, shifts.drop_last(), dt, t);
    }
}

/// A vehicle's frame, or the base of a robot that rides it, stays unbroken over
/// a move: its spans tile, and end where the move does.
pub proof fn law_move_keeps_tiling(
    spans: Seq<TrackSpan>,
    from: Pose,
    pieces: Seq<Piece>,
    turned: Seq<Pose>,
    since: int,
    to: int,
    n: nat,
)
    requires
        tiles(spans),
        0 <= since,
        chained(pieces, since, to),
        spans.len() > 0 ==> spans.last().end() <= since,
        0 < n <= pieces.len(),
    ensures
        tiles(path_spans(spans, from, pieces, turned, n)),
        path_spans(spans, from, pieces, turned, n).len() > 0,
        path_spans(spans, from, pieces, turned, n).last().end() == pieces[n - 1].t1,
    decreases n,
{
    let less = path_spans(spans, from, pieces, turned, (n - 1) as nat);
    let p = pieces[n - 1];
    if n > 1 {
        law_move_keeps_tiling(spans, from, pieces, turned, since, to, (n - 1) as nat);
        assert(pieces[n - 2].t1 <= p.t0);
    }
    law_piece_keeps_tiling(
        less,
        crate::ride::path_pose(from, pieces, turned, (n - 1) as nat),
        p.t0,
        p.t1,
        p.motion,
    );
}

/// The base of a robot that rides a vehicle is unbroken in the timeline too, and
/// ends with the cycle, give or take 10^-12 s.
pub proof fn law_closed_base_tiles(spans: Seq<TrackSpan>, duration: Pico, rest: Pose)
    requires
        tiles(spans),
        spans.len() > 0,
        spans.last().end() <= duration,
    ensures
        tiles(base_closed(spans, duration, rest)),
        duration - 1 <= base_closed(spans, duration, rest).last().end() <= duration,
{
    let last = spans.last();
    assert(spans[spans.len() - 1].start() <= spans[spans.len() - 1].end());
    if last.moving() {
        if last.end() < duration - 1 {
            let closed = base_closed(spans, duration, rest);
            assert(closed =~= spans.push(closed.last()));
            lemma_push_tiles(spans, closed.last());
        }
    } else {
        lemma_until_tiles(spans, duration);
    }
}

/// Every track tiles, and none has got past `t`.
pub open spec fn tiled_by(tracks: Seq<TrackView>, t: int) -> bool {
    forall|i: int|
        0 <= i < tracks.len() ==> tiles((#[trigger] tracks[i]).spans) && tracks[i].spans.len() > 0
            && tracks[i].spans.last().end() <= t
}

/// The vehicles that are still to move have not got past `t`.
pub open spec fn awaits(v: RolloutView, moves: Seq<MoveView>, from: int, t: int) -> bool {
    forall|j: int|
        from <= j < moves.len() ==> behind(v.vehicles, #[trigger] v.mover(moves[j])@, t)
}

/// The track of `name` has not got past `t`.
pub open spec fn behind(tracks: Seq<TrackView>, name: Seq<char>, t: int) -> bool {
    match find(track_names(tracks), name) {
        Some(i) => tracks[i].spans.len() > 0 ==> tracks[i].spans.last().end() <= t,
        None => true,
    }
}

/// No vehicle moves twice in one tick.
pub open spec fn move_once(v: RolloutView, moves: Seq<MoveView>) -> bool {
    forall|i: int, j: int|
        #![trigger v.mover(moves[i]), v.mover(moves[j])]
        0 <= i < j < moves.len() ==> v.mover(moves[i])@ != v.mover(moves[j])@
}

/// A run whose vehicles' tracks tile as far as it has got.
pub open spec fn vehicles_tile(run: RunView) -> bool {
    let v = run.world;
    let moves = run.pending.moves;
    &&& tiled_by(v.vehicles, v.t as int)
    &&& ticking(run.phase) ==> v.t >= v.options.dt
    &&& match run.phase {
        Phase::Joints => tiled_by(v.vehicles, v.t - v.options.dt),
        Phase::Devices => tiled_by(v.vehicles, v.t - v.options.dt),
        Phase::Board => tiled_by(v.vehicles, v.t - v.options.dt) && moves_chained(
            moves,
            v.options.dt,
            v.t,
        ),
        Phase::Carry { next } => moves_chained(moves, v.options.dt, v.t) && awaits(
            v,
            moves,
            next as int,
            v.t - v.options.dt,
        ),
        _ => true,
    }
}

/// A run that starts has no vehicle's track that does not tile.
pub proof fn law_runs_start_tiled(
    scene: Scene,
    sequences: Seq<&Sequence>,
    options: RolloutOptions,
    scenario: Option<String>,
)
    ensures
        vehicles_tile(begun(scene, sequences, options, scenario)),
{
}

proof fn lemma_frame_tiles(v: RolloutView, m: MoveView, reply: CarryReply, since: int)
    requires
        tiled_by(v.vehicles, v.t as int),
        0 <= since,
        m.pieces.len() > 0,
        chained(m.pieces, since, v.t as int),
        behind(v.vehicles, v.mover(m)@, since),
    ensures
        tiled_by(v.frame_carried(m, reply).vehicles, v.t as int),
        forall|other: Seq<char>|
            other != v.mover(m)@ && #[trigger] behind(v.vehicles, other, since) ==> behind(
                v.frame_carried(m, reply).vehicles,
                other,
                since,
            ),
{
    let name = v.mover(m)@;
    let start = m.pieces[0].t0;
    assert(since <= start);
    lemma_find(track_names(v.vehicles), name, 0);
    let ready = opened(v.vehicles, name, m.start(reply.frame), start);
    let i = open_index(v.vehicles, name);
    let after = v.frame_carried(m, reply).vehicles;
    let first = ready[i].spans;
    match find(track_names(v.vehicles), name) {
        Some(k) => {
            assert(tiles(v.vehicles[k].spans));
        },
        None => {},
    }
    assert(tiles(first));
    assert(chained(m.pieces, start as int, v.t as int)) by {
        assert forall|q: int| 0 <= q < m.pieces.len() implies start <= (
        #[trigger] m.pieces[q]).t0 < m.pieces[q].t1 <= v.t by {
            if q > 0 {
                assert(m.pieces[0].t1 <= m.pieces[q].t0);
            }
        }
    }
    law_move_keeps_tiling(
        first,
        m.start(reply.frame),
        m.pieces,
        reply.frame_turned@,
        start as int,
        v.t as int,
        m.pieces.len(),
    );
    let spans = path_spans(
        first,
        m.start(reply.frame),
        m.pieces,
        reply.frame_turned@,
        m.pieces.len(),
    );
    let end = m.pieces.last().t1;
    assert(end == m.pieces[m.pieces.len() - 1].t1 && end <= v.t);
    if m.parked {
        let closing = after[i].spans;
        assert(closing =~= spans.push(closing.last()));
        lemma_push_tiles(spans, closing.last());
    }
    assert forall|k: int| 0 <= k < after.len() implies tiles((#[trigger] after[k]).spans)
        && after[k].spans.len() > 0 && after[k].spans.last().end() <= v.t by {
        if k != i {
            assert(after[k] == v.vehicles[k]);
            assert(tiles(v.vehicles[k].spans));
        }
    }
    assert forall|other: Seq<char>|
        other != name && #[trigger] behind(v.vehicles, other, since) implies behind(
        after,
        other,
        since,
    ) by {
        lemma_find(track_names(v.vehicles), other, 0);
        lemma_find(track_names(after), other, 0);
        match find(track_names(after), other) {
            Some(k) => {
                assert(track_names(after)[k] == other);
                assert(k != i);
                assert(after[k] == v.vehicles[k]);
                lemma_same_find(track_names(v.vehicles), track_names(after), other, k);
            },
            None => {},
        }
    }
}

/// A name found at `k` in a list that another only lengthens is found there in
/// the other too, where that reaches so far.
proof fn lemma_same_find(short: Seq<Seq<char>>, long: Seq<Seq<char>>, name: Seq<char>, k: int)
    requires
        find(long, name) == Some(k),
        0 <= k < short.len() <= long.len(),
        forall|i: int| 0 <= i < short.len() ==> short[i] == long[i],
    ensures
        find(short, name) == Some(k),
{
    lemma_find(long, name, 0);
    lemma_find(short, name, 0);
}

proof fn lemma_came_to_tiles(run: RunView, onward: Onward)
    requires
        on_time(run),
        tiled_by(run.world.vehicles, run.world.t as int),
        leads_on(run.world, onward),
        run.world.t + run.world.options.dt <= Pico::MAX,
    ensures
        run.came_to(onward) matches Next::Leads(after) ==> vehicles_tile(after),
{
    match onward {
        Onward::Ends(world) => {
            let dt = run.world.options.dt as int;
            let tick = if run.tick < u64::MAX {
                (run.tick + 1) as u64
            } else {
                run.tick
            };
            assert(run.tick * dt >= 0) by (nonlinear_arith)
                requires
                    run.tick >= 0,
                    dt > 0,
            ;
            assert(run.tick * dt <= Pico::MAX);
            assert(run.tick < u64::MAX) by (nonlinear_arith)
                requires
                    run.tick * dt <= 0x7FFF_FFFF_FFFF_FFFF,
                    dt > 0,
            ;
            assert(tick * dt == run.tick * dt + dt) by (nonlinear_arith)
                requires
                    tick == run.tick + 1,
            ;
            let w = RolloutView { t: clip(tick * dt), ..world };
            assert(w.t == run.world.t + dt);
            assert(tiled_by(w.vehicles, w.t as int)) by {
                assert forall|i: int| 0 <= i < w.vehicles.len() implies tiles(
                    (#[trigger] w.vehicles[i]).spans,
                ) && w.vehicles[i].spans.len() > 0 && w.vehicles[i].spans.last().end() <= w.t by {
                    assert(tiles(run.world.vehicles[i].spans));
                }
            }
        },
        _ => {},
    }
}

/// What follows, if anything does, has vehicles' tracks that tile.
spec fn goes_tiling(next: Next) -> bool {
    next matches Next::Leads(after) ==> vehicles_tile(after)
}

proof fn lemma_sense_tiles(run: RunView, reply: Reply)
    requires
        on_time(run),
        run.sound(),
        run.asks(reply),
        run.phase is Sense,
        vehicles_tile(run),
        run.world.t + run.world.options.dt <= Pico::MAX,
    ensures
        goes_tiling(run.next(reply)),
{
    let v = run.world;
    match (run.phase, reply) {
        (Phase::Sense { starting }, Reply::Sensed(readings)) => {
            let w = v.sensed(readings@);
            if starting {
                lemma_scans_closed(w, w.programs.len());
                lemma_opening(w.scans_closed(w.programs.len()).turn(0));
                lemma_came_to_tiles(run, w.scans_closed(w.programs.len()).turn(0).opening());
            } else {
                lemma_onward(w.turn(0), 0);
                lemma_came_to_tiles(run, w.turn(0).onward(0));
            }
        },
        _ => {},
    }
}

proof fn lemma_fire_tiles(run: RunView, reply: Reply)
    requires
        on_time(run),
        run.sound(),
        run.asks(reply),
        run.phase is Fire,
        vehicles_tile(run),
        run.world.t + run.world.options.dt <= Pico::MAX,
    ensures
        goes_tiling(run.next(reply)),
{
    let v = run.world;
    match (run.phase, reply) {
        (Phase::Fire { action, chain }, Reply::Fired(answer)) => {
            let a = v.entry_actions()[action as int];
            law_firing_moves_no_cursor(v, a, answer);
            lemma_fired_vehicles(v, a, answer);
            match v.fired(a, answer) {
                Fired::Fails(_) => {},
                Fired::Leads(w) => {
                    assert(spans_within(w));
                    let there = RunView { world: w, ..run };
                    match chain {
                        Some(n) => {
                            lemma_onward(w, n as int);
                            lemma_came_to_tiles(there, w.onward(n as int));
                        },
                        None => {
                            lemma_opened_on(w);
                            lemma_came_to_tiles(there, w.opened_on());
                        },
                    }
                },
            }
        },
        _ => {},
    }
}

proof fn lemma_devices_tile(run: RunView, reply: Reply)
    requires
        on_time(run),
        run.sound(),
        run.asks(reply),
        run.phase is Devices,
        vehicles_tile(run),
    ensures
        goes_tiling(run.next(reply)),
{
    let v = run.world;
    match (run.phase, reply) {
        (Phase::Devices, Reply::Zones(points)) => {
            let inside = v.inside(views(points@));
            let plain = ticks_of(v.devices, inside, v.surroundings(), v.devices.len());
            lemma_ticks_chained(v.devices, inside, v.surroundings(), v.devices.len());
            lemma_shifts_chained(
                devices_ticked(v.devices, v.options.dt, v.t),
                plain.moves,
                plain.shifts,
                v.options.dt,
                v.t,
            );
            let w = RolloutView { moving: Seq::empty(), ..v.devices_advanced(inside) };
            assert(w.tick_settled(v.tick(inside), Seq::empty()).vehicles == v.vehicles);
        },
        _ => {},
    }
}

proof fn lemma_board_tiles(run: RunView, reply: Reply)
    requires
        on_time(run),
        run.sound(),
        run.asks(reply),
        run.phase is Board,
        vehicles_tile(run),
    ensures
        goes_tiling(run.next(reply)),
{
    let v = run.world;
    match (run.phase, reply) {
        (Phase::Board, Reply::Decks(replies)) => {
            let moves = run.pending.moves;
            let names = crate::world::advected(v.obstacles, run.pending.moved);
            lemma_boarded_vehicles(v, moves, names, replies@, moves.len());
            let w = v.boarded(moves, names, replies@, moves.len());
            assert forall|j: int| 0 <= j < moves.len() implies behind(
                w.vehicles,
                #[trigger] w.mover(moves[j])@,
                v.t - v.options.dt,
            ) by {
                lemma_find(track_names(w.vehicles), w.mover(moves[j])@, 0);
                match find(track_names(w.vehicles), w.mover(moves[j])@) {
                    Some(i) => {
                        assert(w.vehicles[i].spans.last().end() <= v.t - v.options.dt);
                    },
                    None => {},
                }
            }
        },
        _ => {},
    }
}

/// Loads, legs, spins and grips leave the vehicles' tracks as they are.
proof fn lemma_vehicles_rest(run: RunView, reply: Reply)
    requires
        run.asks(reply),
        run.phase is Clear || run.phase is Gaits || run.phase is Follow || run.phase is Contacts,
    ensures
        run.next(reply) matches Next::Leads(after) ==> after.world.vehicles == run.world.vehicles
            && after.tick == run.tick && (after.phase is Gaits || after.phase is Follow
            || after.phase is Contacts || after.phase is Sense),
{
    let v = run.world;
    match (run.phase, reply) {
        (Phase::Clear, Reply::Cleared { loads, meets, touched }) => {
            let moves = run.pending.moves;
            lemma_loads(v, moves, loads@, moves.len());
        },
        (Phase::Gaits, Reply::Walked(replies)) => {
            lemma_strides(v, replies@, v.robots.len());
        },
        (Phase::Follow, Reply::Followed(replies)) => {
            lemma_follows(v, replies@, v.robots.len());
        },
        _ => {},
    }
}

proof fn lemma_rest_tiles(run: RunView, reply: Reply)
    requires
        on_time(run),
        run.sound(),
        run.asks(reply),
        run.phase is Clear || run.phase is Gaits || run.phase is Follow || run.phase is Contacts,
        vehicles_tile(run),
    ensures
        goes_tiling(run.next(reply)),
{
    lemma_vehicles_rest(run, reply);
    law_instants_are_scans(run, reply);
    match run.next(reply) {
        Next::Leads(after) => {
            lemma_stays_tiled(run, after);
        },
        _ => {},
    }
}

proof fn lemma_stays_tiled(run: RunView, after: RunView)
    requires
        vehicles_tile(run),
        ticking(run.phase),
        after.world.vehicles == run.world.vehicles,
        after.world.t == run.world.t,
        after.world.options == run.world.options,
        after.phase is Gaits || after.phase is Follow || after.phase is Contacts
            || after.phase is Sense,
    ensures
        vehicles_tile(after),
{
}

/// The tracks of the vehicles tile, from zero to where a run has got, however
/// it is answered, as long as no vehicle moves twice in one tick.
pub proof fn law_vehicle_tracks_tile(run: RunView, reply: Reply)
    requires
        on_time(run),
        run.sound(),
        run.asks(reply),
        vehicles_tile(run),
        run.world.t + run.world.options.dt <= Pico::MAX,
        run.pending.moves.len() <= usize::MAX,
        run.phase is Carry ==> move_once(run.world, run.pending.moves),
    ensures
        run.next(reply) matches Next::Leads(after) ==> vehicles_tile(after),
{
    match run.phase {
        Phase::Sense { .. } => lemma_sense_tiles(run, reply),
        Phase::Fire { .. } => lemma_fire_tiles(run, reply),
        Phase::Devices => lemma_devices_tile(run, reply),
        Phase::Board => lemma_board_tiles(run, reply),
        Phase::Carry { next } => match reply {
            Reply::Carried(answer) => lemma_carry_tiles(run, next, answer),
            _ => {},
        },
        Phase::Joints => {},
        Phase::Done => {},
        _ => lemma_rest_tiles(run, reply),
    }
}

proof fn lemma_carry_tiles(run: RunView, next: usize, answer: CarryReply)
    requires
        run.sound(),
        run.phase == (Phase::Carry { next }),
        vehicles_tile(run),
        run.pending.moves.len() <= usize::MAX,
        move_once(run.world, run.pending.moves),
    ensures
        vehicles_tile(run.carried_on(next, answer)),
{
    let v = run.world;
    let moves = run.pending.moves;
    let since = v.t - v.options.dt;
    let m = moves[next as int];
    let riders = run.riders[next as int];
    assert(m.pieces.len() > 0 && chained(m.pieces, since, v.t as int));
    assert(behind(v.vehicles, v.mover(m)@, since));
    lemma_frame_tiles(v, m, answer, since);
    let a = v.frame_carried(m, answer);
    let members = v.mover_body(m) + riders;
    lemma_members_vehicles(a, m, members, views(answer.members_turned@), members.len());
    let b = a.members_carried(m, members, views(answer.members_turned@), members.len());
    lemma_robots(b, m, answer, v.robots.len());
    lemma_robots_devices(b, m, answer, v.robots.len());
    let w = v.carried(m, riders, answer);
    assert(w.vehicles == a.vehicles);
    assert(w.devices == v.devices);
    assert forall|j: int| next + 1 <= j < moves.len() implies behind(
        w.vehicles,
        #[trigger] w.mover(moves[j])@,
        since,
    ) by {
        assert(behind(v.vehicles, v.mover(moves[j])@, since));
        assert(v.mover(moves[next as int])@ != v.mover(moves[j])@);
    }
}

pub proof fn lemma_members_vehicles(
    v: RolloutView,
    m: MoveView,
    members: Seq<String>,
    turned: Seq<Seq<Pose>>,
    n: nat,
)
    ensures
        v.members_carried(m, members, turned, n).vehicles == v.vehicles,
        v.members_carried(m, members, turned, n).devices == v.devices,
        v.members_carried(m, members, turned, n).t == v.t,
        v.members_carried(m, members, turned, n).options == v.options,
    decreases n,
{
    if n > 0 {
        lemma_members_vehicles(v, m, members, turned, (n - 1) as nat);
    }
}

pub proof fn lemma_robots_devices(v: RolloutView, m: MoveView, reply: CarryReply, n: nat)
    ensures
        v.robots_carried(m, reply, n).devices == v.devices,
        v.robots_carried(m, reply, n).t == v.t,
        v.robots_carried(m, reply, n).options == v.options,
    decreases n,
{
    if n > 0 {
        lemma_robots_devices(v, m, reply, (n - 1) as nat);
    }
}

proof fn lemma_boarded_vehicles(
    v: RolloutView,
    moves: Seq<MoveView>,
    advected: Seq<String>,
    replies: Seq<DeckReply>,
    n: nat,
)
    ensures
        v.boarded(moves, advected, replies, n).vehicles == v.vehicles,
        v.boarded(moves, advected, replies, n).devices == v.devices,
        v.boarded(moves, advected, replies, n).t == v.t,
        v.boarded(moves, advected, replies, n).options == v.options,
    decreases n,
{
    if n > 0 {
        lemma_boarded_vehicles(v, moves, advected, replies, (n - 1) as nat);
    }
}

proof fn lemma_fired_vehicles(v: RolloutView, action: Action, reply: FireReply)
    ensures
        v.fired(action, reply) matches Fired::Leads(w) ==> w.vehicles == v.vehicles,
{
    match (action, reply) {
        (Action::Device { device, command }, FireReply::Device(reply)) => {
            match v.device_index(device@) {
                Some(d) => match v.command_of(device@, command, reply.courses@) {
                    crate::command::Outcome::Taken { state, lane, .. } => {
                        let w = v.commanded(d, state, lane);
                        lemma_walks(w, device@, reply.walks@, w.robots.len());
                    },
                    _ => {},
                },
                None => {},
            }
        },
        _ => {},
    }
}

/// A run that is through closes into a timeline in which the track of every
/// vehicle that drove tiles the whole cycle.
pub proof fn law_vehicle_tracks_tile_the_cycle(run: RunView, rests: Seq<Pose>)
    requires
        vehicles_tile(run),
    ensures
        ({
            let timeline = run.world.timeline(rests);
            &&& all_tile(timeline.vehicles)
            &&& runs_through(timeline.vehicles, timeline.duration)
        }),
{
    let v = run.world;
    assert forall|i: int| 0 <= i < v.vehicles.len() implies tiles(
        (#[trigger] v.vehicles[i]).spans,
    ) && v.vehicles[i].spans.last().start() <= v.t && has_begun(v.vehicles[i].spans) by {
        assert(v.vehicles[i].spans.last().end() <= v.t);
        let spans = v.vehicles[i].spans;
        assert(spans[spans.len() - 1].start() <= spans[spans.len() - 1].end());
    }
    law_finished_tracks_tile_the_cycle(v.vehicles, v.t);
    lemma_closed(v.vehicles, v.t);
}

} // verus!
