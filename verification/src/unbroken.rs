//! The tracks of the bodies in whole runs: unbroken, as long as nothing moves a
//! body twice in one tick.

use vstd::prelude::*;

use crate::dispatch::{law_firing_moves_no_cursor, FireReply};
use crate::engine::{begun, Next, Phase, Reply, RunView};
use crate::fire::Fired;
use crate::fixed::{clip, Pico, Pose};
use crate::laws::{
    law_instants_are_scans, law_runs_start_at_zero, leads_on, lemma_onward, lemma_opened_on,
    lemma_opening, lemma_scans_closed, on_time, spans_within,
};
use crate::names::{find, lemma_find, names_of};
use crate::programs::Onward;
use crate::ride::{bound, path_pose, path_tracks, CarryReply, DeckReply, Load};
use crate::rollout::{RolloutOptions, RolloutView};
use crate::scene::{body_index, is_held, Obstacle, Scene};
use crate::seq::{Action, Sequence};
use crate::setup::{stock, stowed_tracks};
use crate::supply::{fed_line, restocked, teleported, Line};
use crate::tick::{
    devices_ticked, lemma_moved_exist, ticks_of, with_moved, Bodies, MoveView, Moved, Returned,
    TickView,
};
use crate::tiling::{
    behind, chained, has_begun, law_runs_start_tiled, law_vehicle_tracks_tile,
    law_vehicle_tracks_tile_the_cycle, lemma_closed, lemma_follows, lemma_loads,
    lemma_members_vehicles, lemma_robots, lemma_robots_devices, lemma_shifts_chained, lemma_strides,
    lemma_ticks_chained, lemma_walks, move_once, moves_chained, runs_through, ticking, tiled_by,
    vehicles_tile,
};
use crate::tracks::{
    all_tile, continues, jumped, law_finished_tracks_tile_the_cycle, law_piece_keeps_tiling,
    lemma_push_tiles, lemma_stretched_tiles, lemma_until_tiles, open_index, opened, respanned,
    ridden, stretched, tiles, track_names, with_piece, with_ride, TrackSpan, TrackView,
    VehiclePiece,
};
use crate::vehicle::Piece;
use crate::views::views;
use crate::whole::whole_run;
use crate::world::{advected, settled, stopped};

verus! {

/// Of two tracks of one thing, the later is at rest: what moves a thing finds
/// the first of its tracks.
pub open spec fn seconds_rest(tracks: Seq<TrackView>) -> bool {
    forall|i: int, j: int|
        #![trigger tracks[i], tracks[j]]
        0 <= i < j < tracks.len() && tracks[i].name == tracks[j].name
            ==> !tracks[j].spans.last().moving()
}

/// What has not got past an instant in `before` has not got past it in `after`,
/// but for `name`.
pub open spec fn others_stay(before: Seq<TrackView>, after: Seq<TrackView>, name: Seq<char>) -> bool {
    forall|other: Seq<char>, t: int|
        other != name && #[trigger] behind(before, other, t) ==> behind(after, other, t)
}

/// Giving one thing, known before or not, spans that tile leaves all the others
/// as they are.
proof fn lemma_one_respanned(
    tracks: Seq<TrackView>,
    name: Seq<char>,
    rest: Pose,
    since: Pico,
    spans: Seq<TrackSpan>,
    t: int,
)
    requires
        tiled_by(tracks, t),
        seconds_rest(tracks),
        tiles(spans),
        spans.len() > 0,
        spans.last().end() <= t,
    ensures
        ({
            let after = respanned(
                opened(tracks, name, rest, since),
                open_index(tracks, name),
                spans,
            );
            &&& tiled_by(after, t)
            &&& seconds_rest(after)
            &&& others_stay(tracks, after, name)
            &&& behind(after, name, spans.last().end() as int)
        }),
{
    lemma_find(track_names(tracks), name, 0);
    let ready = opened(tracks, name, rest, since);
    let i = open_index(tracks, name);
    let after = respanned(ready, i, spans);
    assert(after[i].name == name) by {
        match find(track_names(tracks), name) {
            Some(k) => {
                assert(track_names(tracks)[k] == name);
            },
            None => {},
        }
    }
    assert forall|k: int| 0 <= k < after.len() implies tiles((#[trigger] after[k]).spans)
        && after[k].spans.len() > 0 && after[k].spans.last().end() <= t by {
        if k != i {
            assert(after[k] == tracks[k]);
        }
    }
    assert forall|k: int| 0 <= k < tracks.len() implies #[trigger] track_names(after)[k]
        == track_names(tracks)[k] by {}
    assert forall|k: int| 0 <= k < i implies #[trigger] track_names(tracks)[k] != name by {}
    assert forall|a: int, b: int|
        #![trigger after[a], after[b]]
        0 <= a < b < after.len() && after[a].name == after[b].name
            implies !after[b].spans.last().moving() by {
        assert(track_names(after)[a] == track_names(tracks)[a]);
        if b == i {
            assert(track_names(tracks)[a] != name);
        } else {
            assert(after[b] == tracks[b]);
            assert(after[a].name == tracks[a].name);
        }
    }
    assert forall|other: Seq<char>, u: int|
        other != name && #[trigger] behind(tracks, other, u) implies behind(after, other, u) by {
        lemma_find(track_names(tracks), other, 0);
        lemma_find(track_names(after), other, 0);
        match find(track_names(after), other) {
            Some(k) => {
                assert(after[k].name == other);
                assert(k != i);
                assert(after[k] == tracks[k]);
                assert(track_names(tracks)[k] == other);
                let q = find(track_names(tracks), other)->0;
                assert(track_names(after)[q] == track_names(tracks)[q]);
                assert(q == k);
            },
            None => {},
        }
    }
    lemma_find(track_names(after), name, 0);
    assert(track_names(after)[i] == name);
    let k = find(track_names(after), name)->0;
    assert(k == i) by {
        if k < i {
            assert(track_names(after)[k] == track_names(tracks)[k]);
        }
    }
}

proof fn lemma_jump_tiles(
    tracks: Seq<TrackView>,
    name: Seq<char>,
    rest: Pose,
    t: Pico,
    span: TrackSpan,
)
    requires
        tiled_by(tracks, t as int),
        seconds_rest(tracks),
        t >= 0,
        span.start() == t,
        span.end() == t,
    ensures
        tiled_by(jumped(tracks, name, rest, t, span), t as int),
        seconds_rest(jumped(tracks, name, rest, t, span)),
        others_stay(tracks, jumped(tracks, name, rest, t, span), name),
{
    lemma_find(track_names(tracks), name, 0);
    let ready = opened(tracks, name, rest, t);
    let i = open_index(tracks, name);
    match find(track_names(tracks), name) {
        Some(k) => {
            assert(tiles(tracks[k].spans));
        },
        None => {},
    }
    let spans = ready[i].spans;
    lemma_stretched_tiles(spans, t);
    lemma_push_tiles(stretched(spans, t), span);
    lemma_one_respanned(tracks, name, rest, t, stretched(spans, t).push(span), t as int);
}

proof fn lemma_ride_tiles(
    tracks: Seq<TrackView>,
    name: Seq<char>,
    rest: Pose,
    t0: Pico,
    t1: Pico,
    velocity: crate::fixed::Vec3,
)
    requires
        tiled_by(tracks, t1 as int),
        seconds_rest(tracks),
        behind(tracks, name, t0 as int),
        0 <= t0 <= t1,
    ensures
        tiled_by(ridden(tracks, name, rest, t0, t1, velocity), t1 as int),
        seconds_rest(ridden(tracks, name, rest, t0, t1, velocity)),
        others_stay(tracks, ridden(tracks, name, rest, t0, t1, velocity), name),
{
    lemma_find(track_names(tracks), name, 0);
    let ready = opened(tracks, name, rest, t0);
    let i = open_index(tracks, name);
    match find(track_names(tracks), name) {
        Some(k) => {
            assert(tiles(tracks[k].spans));
        },
        None => {},
    }
    let spans = ready[i].spans;
    if spans.len() > 0 && continues(spans.last(), t0, VehiclePiece::Lin { velocity }) {
        assert(spans[spans.len() - 1].start() <= spans[spans.len() - 1].end());
        lemma_until_tiles(spans, t1);
    } else {
        lemma_stretched_tiles(spans, t0);
        lemma_push_tiles(
            stretched(spans, t0),
            TrackSpan::Linear { t0, t1, from: rest, velocity },
        );
    }
    lemma_one_respanned(
        tracks,
        name,
        rest,
        t0,
        with_ride(spans, rest, t0, t1, velocity),
        t1 as int,
    );
}

/// A path that starts where a body has got to.
proof fn lemma_path_tiles(
    tracks: Seq<TrackView>,
    name: Seq<char>,
    from: Pose,
    pieces: Seq<Piece>,
    turned: Seq<Pose>,
    since: int,
    to: int,
    n: nat,
)
    requires
        tiled_by(tracks, to),
        seconds_rest(tracks),
        0 <= since,
        chained(pieces, since, to),
        behind(tracks, name, since),
        n <= pieces.len(),
    ensures
        tiled_by(path_tracks(tracks, name, from, pieces, turned, n), to),
        seconds_rest(path_tracks(tracks, name, from, pieces, turned, n)),
        others_stay(tracks, path_tracks(tracks, name, from, pieces, turned, n), name),
        behind(
            path_tracks(tracks, name, from, pieces, turned, n),
            name,
            if n == 0 {
                since
            } else {
                pieces[n - 1].t1 as int
            },
        ),
    decreases n,
{
    if n > 0 {
        lemma_path_tiles(tracks, name, from, pieces, turned, since, to, (n - 1) as nat);
        let less = path_tracks(tracks, name, from, pieces, turned, (n - 1) as nat);
        let pose = path_pose(from, pieces, turned, (n - 1) as nat);
        let p = pieces[n - 1];
        assert(since <= p.t0 < p.t1 <= to);
        if n > 1 {
            assert(pieces[n - 2].t1 <= p.t0);
        }
        lemma_find(track_names(less), name, 0);
        match find(track_names(less), name) {
            Some(k) => {
                assert(tiles(less[k].spans));
            },
            None => {},
        }
        let spans = opened(less, name, pose, p.t0)[open_index(less, name)].spans;
        law_piece_keeps_tiling(spans, pose, p.t0, p.t1, p.motion);
        lemma_one_respanned(
            less,
            name,
            pose,
            p.t0,
            with_piece(spans, pose, p.t0, p.t1, p.motion),
            to,
        );
        let after = path_tracks(tracks, name, from, pieces, turned, n);
        assert forall|other: Seq<char>, u: int|
            other != name && #[trigger] behind(tracks, other, u) implies behind(
            after,
            other,
            u,
        ) by {
            assert(behind(less, other, u));
        }
    }
}

/// Bodies of different names, none of which is moved twice.
pub open spec fn moved_apart(obstacles: Seq<Obstacle>, moved: Seq<Moved>) -> bool {
    forall|i: int, j: int|
        #![trigger moved[i], moved[j]]
        0 <= i < j < moved.len() ==> obstacles[moved[i].obstacle as int].name@
            != obstacles[moved[j].obstacle as int].name@
}

proof fn lemma_moved_tiles(b: Bodies, moved: Seq<Moved>, dt: Pico, t: Pico)
    requires
        tiled_by(b.tracks, t - dt),
        seconds_rest(b.tracks),
        0 < dt <= t,
        forall|i: int| 0 <= i < moved.len() ==> (#[trigger] moved[i]).obstacle < b.obstacles.len(),
        moved_apart(b.obstacles, moved),
    ensures
        tiled_by(with_moved(b, moved, dt, t).tracks, t as int),
        seconds_rest(with_moved(b, moved, dt, t).tracks),
        with_moved(b, moved, dt, t).obstacles.len() == b.obstacles.len(),
        forall|k: int|
            0 <= k < b.obstacles.len() ==> (#[trigger] with_moved(b, moved, dt, t).obstacles[k]).name
                == b.obstacles[k].name,
        forall|name: Seq<char>|
            (forall|i: int|
                0 <= i < moved.len() ==> b.obstacles[(#[trigger] moved[i]).obstacle as int].name@
                    != name) ==> #[trigger] behind(
                with_moved(b, moved, dt, t).tracks,
                name,
                t - dt,
            ),
    decreases moved.len(),
{
    if moved.len() == 0 {
        assert forall|i: int| 0 <= i < b.tracks.len() implies tiles((#[trigger] b.tracks[i]).spans)
            && b.tracks[i].spans.len() > 0 && b.tracks[i].spans.last().end() <= t by {
            assert(b.tracks[i].spans.last().end() <= t - dt);
        }
        assert forall|name: Seq<char>| #[trigger] behind(b.tracks, name, t - dt) by {
            lemma_find(track_names(b.tracks), name, 0);
        }
    } else {
        let first = moved.drop_last();
        lemma_moved_tiles(b, first, dt, t);
        let less = with_moved(b, first, dt, t);
        let m = moved.last();
        let o = less.obstacles[m.obstacle as int];
        assert(m == moved[moved.len() - 1]);
        assert forall|i: int| 0 <= i < first.len() implies b.obstacles[(
        #[trigger] first[i]).obstacle as int].name@ != o.name@ by {
            assert(first[i] == moved[i]);
        }
        assert(behind(less.tracks, o.name@, t - dt));
        lemma_ride_tiles(less.tracks, o.name@, o.pose, clip(t - dt), t, m.velocity);
        let after = with_moved(b, moved, dt, t);
        assert forall|name: Seq<char>|
            (forall|i: int|
                0 <= i < moved.len() ==> b.obstacles[(#[trigger] moved[i]).obstacle as int].name@
                    != name) implies #[trigger] behind(after.tracks, name, t - dt) by {
            assert forall|i: int| 0 <= i < first.len() implies b.obstacles[(
            #[trigger] first[i]).obstacle as int].name@ != name by {
                assert(first[i] == moved[i]);
            }
            assert(behind(less.tracks, name, t - dt));
        }
    }
}

/// Whether a vehicle that moves takes the body of that name along: not one that
/// a machine's own body carries, and not one that a robot holds.
pub open spec fn takes_along(v: RolloutView, m: MoveView, name: Seq<char>) -> bool {
    body_index(v.obstacles, name) is Some && !(find(names_of(v.on_body(m)), name) is Some)
        && !is_held(v.attachments, name)
}

/// What a vehicle that moves takes along is named once, and nothing has moved it
/// since `since`.
pub open spec fn waits_for(
    v: RolloutView,
    m: MoveView,
    members: Seq<String>,
    since: int,
) -> bool {
    &&& forall|i: int, j: int|
        #![trigger members[i], members[j]]
        0 <= i < j < members.len() ==> members[i]@ != members[j]@
    &&& forall|i: int|
        0 <= i < members.len() && takes_along(v, m, (#[trigger] members[i])@) ==> behind(
            v.objects,
            members[i]@,
            since,
        )
}

pub proof fn lemma_walker(v: RolloutView, w: RolloutView, device: Seq<char>, from: int)
    requires
        w.robots == v.robots,
        w.scene == v.scene,
        from >= 0,
    ensures
        w.walker_on(device, from) == v.walker_on(device, from),
    decreases v.robots.len() - from,
{
    if from < v.robots.len() && !v.walks(from, device) {
        lemma_walker(v, w, device, from + 1);
    }
}

proof fn lemma_members_tile(
    v: RolloutView,
    m: MoveView,
    members: Seq<String>,
    turned: Seq<Seq<Pose>>,
    since: int,
    n: nat,
)
    requires
        tiled_by(v.objects, v.t as int),
        seconds_rest(v.objects),
        0 <= since,
        chained(m.pieces, since, v.t as int),
        waits_for(v, m, members, since),
        n <= members.len(),
    ensures
        ({
            let w = v.members_carried(m, members, turned, n);
            &&& tiled_by(w.objects, v.t as int)
            &&& seconds_rest(w.objects)
            &&& w.t == v.t
            &&& w.robots == v.robots
            &&& w.scene == v.scene
            &&& w.devices == v.devices
            &&& w.attachments == v.attachments
            &&& names_of(w.obstacles) == names_of(v.obstacles)
            &&& forall|i: int|
                n <= i < members.len() && takes_along(v, m, (#[trigger] members[i])@) ==> behind(
                    w.objects,
                    members[i]@,
                    since,
                )
        }),
    decreases n,
{
    if n > 0 {
        lemma_members_tile(v, m, members, turned, since, (n - 1) as nat);
        let less = v.members_carried(m, members, turned, (n - 1) as nat);
        let w = v.members_carried(m, members, turned, n);
        let name = members[n - 1]@;
        lemma_walker(v, less, v.mover(m)@, 0);
        assert(less.on_body(m) == v.on_body(m));
        assert(body_index(less.obstacles, name) == body_index(v.obstacles, name));
        if takes_along(v, m, name) {
            lemma_find(names_of(less.obstacles), name, 0);
            let k = body_index(less.obstacles, name)->0;
            lemma_path_tiles(
                less.objects,
                name,
                less.obstacles[k].pose,
                m.pieces,
                turned[n - 1],
                since,
                v.t as int,
                m.pieces.len(),
            );
            assert(names_of(w.obstacles) =~= names_of(less.obstacles)) by {
                assert forall|q: int| 0 <= q < w.obstacles.len() implies names_of(
                    w.obstacles,
                )[q] == names_of(less.obstacles)[q] by {
                    if q != k {
                        assert(w.obstacles[q] == less.obstacles[q]);
                    }
                }
            }
            assert forall|i: int|
                n <= i < members.len() && takes_along(v, m, (#[trigger] members[i])@) implies behind(
                w.objects,
                members[i]@,
                since,
            ) by {
                assert(behind(less.objects, members[i]@, since));
                assert(members[n - 1]@ != members[i]@);
            }
        } else {
            assert(w == less);
        }
    }
}

proof fn lemma_bound_tiles(
    before: Load,
    riders: Seq<String>,
    obstacles: Seq<Obstacle>,
    offsets: Seq<Pose>,
    robot: usize,
    link: usize,
    t: Pico,
    n: nat,
)
    requires
        tiled_by(before.tracks, t as int),
        seconds_rest(before.tracks),
        t >= 0,
    ensures
        tiled_by(bound(before, riders, obstacles, offsets, robot, link, t, n).tracks, t as int),
        seconds_rest(bound(before, riders, obstacles, offsets, robot, link, t, n).tracks),
    decreases n,
{
    if n > 0 {
        lemma_bound_tiles(before, riders, obstacles, offsets, robot, link, t, (n - 1) as nat);
        let less = bound(before, riders, obstacles, offsets, robot, link, t, (n - 1) as nat);
        let name = riders[n - 1]@;
        match find(names_of(before.carried), name) {
            Some(_) => {
                lemma_find(track_names(less.tracks), name, 0);
                match find(track_names(less.tracks), name) {
                    Some(i) => {
                        let spans = less.tracks[i].spans;
                        assert(tiles(spans));
                        assert(spans[spans.len() - 1].start() <= spans[spans.len() - 1].end());
                        lemma_until_tiles(spans, t);
                        lemma_one_respanned(
                            less.tracks,
                            name,
                            obstacles[0].pose,
                            t,
                            spans.update(spans.len() - 1, spans.last().until(t)),
                            t as int,
                        );
                    },
                    None => {},
                }
            },
            None => match body_index(obstacles, name) {
                None => {},
                Some(k) => {
                    lemma_jump_tiles(
                        less.tracks,
                        name,
                        obstacles[k].pose,
                        t,
                        TrackSpan::Follow { t0: t, t1: t, robot, link, offset: offsets[k] },
                    );
                },
            },
        }
    }
}

proof fn lemma_boarded_tiles(
    v: RolloutView,
    moves: Seq<MoveView>,
    names: Seq<String>,
    replies: Seq<DeckReply>,
    n: nat,
)
    requires
        tiled_by(v.objects, v.t as int),
        seconds_rest(v.objects),
        v.t >= 0,
    ensures
        tiled_by(v.boarded(moves, names, replies, n).objects, v.t as int),
        seconds_rest(v.boarded(moves, names, replies, n).objects),
        v.boarded(moves, names, replies, n).t == v.t,
        v.boarded(moves, names, replies, n).options == v.options,
    decreases n,
{
    if n > 0 {
        lemma_boarded_tiles(v, moves, names, replies, (n - 1) as nat);
        let less = v.boarded(moves, names, replies, (n - 1) as nat);
        let m = moves[n - 1];
        let riders = v.riders(m, names, v.on_deck(m, replies[n - 1]), v.obstacles.len());
        match less.walker_on(less.mover(m)@, 0) {
            None => {},
            Some(r) => {
                let g = less.robots[r].gait->0;
                lemma_bound_tiles(
                    Load { carried: g.carried, tracks: less.objects },
                    riders,
                    less.obstacles,
                    replies[n - 1].offsets@,
                    r as usize,
                    less.gait_of(r).body,
                    less.t,
                    riders.len(),
                );
            },
        }
    }
}

proof fn lemma_settled_tiles(
    tracks: Seq<TrackView>,
    obstacles: Seq<Obstacle>,
    carried: Seq<String>,
    t: Pico,
    n: nat,
)
    requires
        tiled_by(tracks, t as int),
        seconds_rest(tracks),
        n <= tracks.len(),
    ensures
        ({
            let after = settled(tracks, stopped(tracks, obstacles, carried, t, n), t);
            &&& tiled_by(after, t as int)
            &&& seconds_rest(after)
            &&& after.len() == tracks.len()
            &&& forall|k: int|
                0 <= k < tracks.len() ==> (#[trigger] after[k]).name == tracks[k].name
            &&& forall|k: int| n <= k < tracks.len() ==> (#[trigger] after[k]) == tracks[k]
        }),
    decreases n,
{
    if n > 0 {
        lemma_settled_tiles(tracks, obstacles, carried, t, (n - 1) as nat);
        let fewer = stopped(tracks, obstacles, carried, t, (n - 1) as nat);
        let stops = stopped(tracks, obstacles, carried, t, n);
        let less = settled(tracks, fewer, t);
        if stops.len() > fewer.len() {
            assert(stops.drop_last() =~= fewer);
            let i = n - 1;
            let name = tracks[i].name;
            assert(less[i] == tracks[i]);
            lemma_find(track_names(less), name, 0);
            match find(track_names(less), name) {
                Some(k) => {
                    assert(track_names(less)[k] == less[k].name);
                    assert(track_names(less)[i] == less[i].name);
                    assert(k == i) by {
                        if k < i {
                            assert(tracks[k].name == tracks[i].name);
                        }
                    }
                },
                None => {
                    assert(track_names(less)[i] == name);
                },
            }
            let pose = stops.last().1;
            let spans = less[i].spans;
            let at = spans.last().end();
            lemma_push_tiles(spans, TrackSpan::Hold { t0: at, t1: at, pose });
            lemma_one_respanned(
                less,
                name,
                pose,
                at,
                spans.push(TrackSpan::Hold { t0: at, t1: at, pose }),
                t as int,
            );
        }
    }
}

proof fn lemma_teleported_tiles(b: Bodies, name: Seq<char>, to: Pose, stowed: bool, t: Pico)
    requires
        tiled_by(b.tracks, t as int),
        seconds_rest(b.tracks),
        t >= 0,
    ensures
        tiled_by(teleported(b, name, to, stowed, t).tracks, t as int),
        seconds_rest(teleported(b, name, to, stowed, t).tracks),
{
    match body_index(b.obstacles, name) {
        Some(k) => {
            lemma_jump_tiles(
                b.tracks,
                name,
                b.obstacles[k].pose,
                t,
                crate::supply::resting(t, to, stowed),
            );
        },
        None => {},
    }
}

proof fn lemma_restocked_tiles(line: Line, returned: Seq<Returned>, t: Pico)
    requires
        tiled_by(line.bodies.tracks, t as int),
        seconds_rest(line.bodies.tracks),
        t >= 0,
    ensures
        tiled_by(restocked(line, returned, t).bodies.tracks, t as int),
        seconds_rest(restocked(line, returned, t).bodies.tracks),
    decreases returned.len(),
{
    if returned.len() > 0 {
        lemma_restocked_tiles(line, returned.drop_last(), t);
        let less = restocked(line, returned.drop_last(), t);
        let r = returned.last();
        match crate::supply::owned_member(less, r) {
            Some(i) => {
                let s = less.devices[r.source->0 as int].state->Source_0;
                lemma_teleported_tiles(
                    less.bodies,
                    less.bodies.obstacles[r.obstacle as int].name@,
                    crate::devices::slot(s.park, s.pitch, i),
                    true,
                    t,
                );
            },
            None => {},
        }
    }
}

proof fn lemma_fed_tiles(line: Line, n: nat, dt: Pico, t: Pico)
    requires
        tiled_by(line.bodies.tracks, t as int),
        seconds_rest(line.bodies.tracks),
        t >= 0,
    ensures
        tiled_by(fed_line(line, n, dt, t).bodies.tracks, t as int),
        seconds_rest(fed_line(line, n, dt, t).bodies.tracks),
    decreases n,
{
    if n > 0 {
        lemma_fed_tiles(line, (n - 1) as nat, dt, t);
        let less = fed_line(line, (n - 1) as nat, dt, t);
        match less.devices[n - 1].state {
            crate::devices::StateView::Source(s) => {
                match crate::supply::fed(s, dt).1 {
                    Some(i) => {
                        lemma_teleported_tiles(less.bodies, s.pool[i]@, s.pose, false, t);
                    },
                    None => {},
                }
            },
            _ => {},
        }
    }
}

proof fn lemma_tick_settled_tiles(v: RolloutView, tick: TickView, riders: Seq<Seq<String>>)
    requires
        tiled_by(v.objects, v.t as int),
        seconds_rest(v.objects),
        v.t >= 0,
    ensures
        tiled_by(v.tick_settled(tick, riders).objects, v.t as int),
        seconds_rest(v.tick_settled(tick, riders).objects),
{
    let carried = advected(v.obstacles, tick.moved) + crate::engine::flat_riders(riders);
    lemma_settled_tiles(v.objects, v.obstacles, carried, v.t, v.objects.len());
    let w = v.stops_settled(carried);
    lemma_restocked_tiles(w.line(), tick.returned, w.t);
    lemma_fed_tiles(restocked(w.line(), tick.returned, w.t), w.devices.len(), w.options.dt, w.t);
}

proof fn lemma_fired_tiles(v: RolloutView, action: Action, reply: FireReply)
    requires
        tiled_by(v.objects, v.t as int),
        seconds_rest(v.objects),
        v.t >= 0,
    ensures
        v.fired(action, reply) matches Fired::Leads(w) ==> tiled_by(w.objects, v.t as int)
            && seconds_rest(w.objects),
{
    match (action, reply) {
        (Action::Attach { object, .. }, FireReply::Grasp { robot, grasp }) => {
            match grasp {
                Ok(a) => {
                    lemma_jump_tiles(
                        v.objects,
                        object@,
                        v.obstacles[body_index(v.obstacles, object@)->0].pose,
                        v.t,
                        TrackSpan::Follow {
                            t0: v.t,
                            t1: v.t,
                            robot: a.robot,
                            link: a.link,
                            offset: a.grasp,
                        },
                    );
                },
                Err(_) => {},
            }
        },
        (Action::Detach { object }, FireReply::Release(pose)) => {
            match pose {
                Ok(p) => {
                    lemma_jump_tiles(
                        v.objects,
                        object@,
                        p,
                        v.t,
                        TrackSpan::Hold { t0: v.t, t1: v.t, pose: p },
                    );
                },
                Err(_) => {},
            }
        },
        (Action::Device { device, command }, FireReply::Device(reply)) => {
            match v.device_index(device@) {
                Some(d) => match v.command_of(device@, command, reply.courses@) {
                    crate::command::Outcome::Taken { state, lane, .. } => {
                        let w = v.commanded(d, state, lane);
                        lemma_walks(w, device@, reply.walks@, w.robots.len());
                    },
                    _ => {},
                },
                None => {},
            }
        },
        _ => {},
    }
}

/// A run whose bodies' tracks are unbroken as far as it has got.
pub open spec fn bodies_tile(run: RunView) -> bool {
    let v = run.world;
    let moves = run.pending.moves;
    &&& tiled_by(v.objects, v.t as int)
    &&& seconds_rest(v.objects)
    &&& ticking(run.phase) ==> v.t >= v.options.dt
    &&& match run.phase {
        Phase::Joints => tiled_by(v.objects, v.t - v.options.dt),
        Phase::Devices => tiled_by(v.objects, v.t - v.options.dt),
        Phase::Board => moves_chained(moves, v.options.dt, v.t),
        Phase::Carry { .. } => moves_chained(moves, v.options.dt, v.t),
        _ => true,
    }
}

/// A reply after which nothing has moved a body twice in one tick: no two
/// devices move the same one, and no vehicle takes along one that has been
/// moved already.
pub open spec fn moves_bodies_once(run: RunView, reply: Reply) -> bool {
    let v = run.world;
    match (run.phase, reply) {
        (Phase::Devices, Reply::Zones(points)) => moved_apart(
            v.obstacles,
            v.tick(v.inside(views(points@))).moved,
        ),
        (Phase::Carry { next }, Reply::Carried(_)) => {
            let m = run.pending.moves[next as int];
            waits_for(v, m, v.mover_body(m) + run.riders[next as int], v.t - v.options.dt)
        },
        _ => true,
    }
}

/// What follows, if anything does, has bodies' tracks that are unbroken.
spec fn goes_unbroken(next: Next) -> bool {
    next matches Next::Leads(after) ==> bodies_tile(after)
}

/// A run that starts has tracks that tile.
pub proof fn law_runs_start_unbroken(
    scene: Scene,
    sequences: Seq<&Sequence>,
    options: RolloutOptions,
    scenario: Option<String>,
)
    ensures
        bodies_tile(begun(scene, sequences, options, scenario)),
{
    let v = begun(scene, sequences, options, scenario).world;
    lemma_stowed_tiles(v.devices, v.devices.len());
    let held = crate::setup::grasped_tracks(scene.attachments@);
    let waiting = stowed_tracks(v.devices, v.devices.len());
    assert forall|i: int| 0 <= i < v.objects.len() implies tiles((#[trigger] v.objects[i]).spans)
        && v.objects[i].spans.len() > 0 && v.objects[i].spans.last().end() <= 0
        && !v.objects[i].spans.last().moving() by {
        if i < held.len() {
            assert(v.objects[i] == held[i]);
        } else {
            assert(v.objects[i] == waiting[i - held.len()]);
        }
    }
}

/// Nothing is in motion.
spec fn all_rest(tracks: Seq<TrackView>) -> bool {
    forall|i: int| 0 <= i < tracks.len() ==> !(#[trigger] tracks[i]).spans.last().moving()
}

proof fn lemma_stock_tiles(
    pool: Seq<String>,
    parked: Seq<bool>,
    park: Pose,
    pitch: crate::fixed::Vec3,
    n: nat,
)
    ensures
        tiled_by(stock(pool, parked, park, pitch, n), 0),
        all_rest(stock(pool, parked, park, pitch, n)),
    decreases n,
{
    if n > 0 {
        lemma_stock_tiles(pool, parked, park, pitch, (n - 1) as nat);
    }
}

proof fn lemma_stowed_tiles(devices: Seq<crate::devices::DeviceView>, n: nat)
    ensures
        tiled_by(stowed_tracks(devices, n), 0),
        all_rest(stowed_tracks(devices, n)),
    decreases n,
{
    if n > 0 {
        lemma_stowed_tiles(devices, (n - 1) as nat);
        let less = stowed_tracks(devices, (n - 1) as nat);
        let all = stowed_tracks(devices, n);
        match devices[n - 1].state {
            crate::devices::StateView::Source(s) => {
                let more = stock(s.pool, s.parked, s.park, s.pitch, s.pool.len());
                lemma_stock_tiles(s.pool, s.parked, s.park, s.pitch, s.pool.len());
                assert forall|i: int| 0 <= i < all.len() implies tiles((#[trigger] all[i]).spans)
                    && all[i].spans.len() > 0 && all[i].spans.last().end() <= 0
                    && !all[i].spans.last().moving() by {
                    if i < less.len() {
                        assert(all[i] == less[i]);
                    } else {
                        assert(all[i] == more[i - less.len()]);
                    }
                }
            },
            _ => {
                assert(all =~= less);
            },
        }
    }
}

proof fn lemma_came_to_tiles(run: RunView, onward: Onward)
    requires
        on_time(run),
        tiled_by(run.world.objects, run.world.t as int),
        seconds_rest(run.world.objects),
        leads_on(run.world, onward),
        run.world.t + run.world.options.dt <= Pico::MAX,
    ensures
        goes_unbroken(run.came_to(onward)),
{
    match onward {
        Onward::Ends(world) => {
            let dt = run.world.options.dt as int;
            let tick = if run.tick < u64::MAX {
                (run.tick + 1) as u64
            } else {
                run.tick
            };
            assert(run.tick * dt >= 0) by (nonlinear_arith)
                requires
                    run.tick >= 0,
                    dt > 0,
            ;
            assert(run.tick * dt <= Pico::MAX);
            assert(run.tick < u64::MAX) by (nonlinear_arith)
                requires
                    run.tick * dt <= 0x7FFF_FFFF_FFFF_FFFF,
                    dt > 0,
            ;
            assert(tick * dt == run.tick * dt + dt) by (nonlinear_arith)
                requires
                    tick == run.tick + 1,
            ;
            let w = RolloutView { t: clip(tick * dt), ..world };
            assert(w.t == run.world.t + dt);
            assert(tiled_by(w.objects, w.t as int)) by {
                assert forall|i: int| 0 <= i < w.objects.len() implies tiles(
                    (#[trigger] w.objects[i]).spans,
                ) && w.objects[i].spans.len() > 0 && w.objects[i].spans.last().end() <= w.t by {
                    assert(tiles(run.world.objects[i].spans));
                }
            }
        },
        _ => {},
    }
}

proof fn lemma_sense_unbroken(run: RunView, reply: Reply)
    requires
        on_time(run),
        run.sound(),
        run.asks(reply),
        run.phase is Sense,
        bodies_tile(run),
        run.world.t + run.world.options.dt <= Pico::MAX,
    ensures
        goes_unbroken(run.next(reply)),
{
    let v = run.world;
    match (run.phase, reply) {
        (Phase::Sense { starting }, Reply::Sensed(readings)) => {
            let w = v.sensed(readings@);
            if starting {
                lemma_scans_closed(w, w.programs.len());
                lemma_opening(w.scans_closed(w.programs.len()).turn(0));
                lemma_came_to_tiles(run, w.scans_closed(w.programs.len()).turn(0).opening());
            } else {
                lemma_onward(w.turn(0), 0);
                lemma_came_to_tiles(run, w.turn(0).onward(0));
            }
        },
        _ => {},
    }
}

proof fn lemma_fire_unbroken(run: RunView, reply: Reply)
    requires
        on_time(run),
        run.sound(),
        run.asks(reply),
        run.phase is Fire,
        bodies_tile(run),
        run.world.t >= 0,
        run.world.t + run.world.options.dt <= Pico::MAX,
    ensures
        goes_unbroken(run.next(reply)),
{
    let v = run.world;
    match (run.phase, reply) {
        (Phase::Fire { action, chain }, Reply::Fired(answer)) => {
            let a = v.entry_actions()[action as int];
            law_firing_moves_no_cursor(v, a, answer);
            lemma_fired_tiles(v, a, answer);
            match v.fired(a, answer) {
                Fired::Fails(_) => {},
                Fired::Leads(w) => {
                    assert(spans_within(w));
                    let there = RunView { world: w, ..run };
                    match chain {
                        Some(n) => {
                            lemma_onward(w, n as int);
                            lemma_came_to_tiles(there, w.onward(n as int));
                        },
                        None => {
                            lemma_opened_on(w);
                            lemma_came_to_tiles(there, w.opened_on());
                        },
                    }
                },
            }
        },
        _ => {},
    }
}

proof fn lemma_devices_unbroken(run: RunView, reply: Reply)
    requires
        on_time(run),
        run.sound(),
        run.asks(reply),
        run.phase is Devices,
        bodies_tile(run),
        run.world.obstacles.len() <= usize::MAX,
        moves_bodies_once(run, reply),
    ensures
        goes_unbroken(run.next(reply)),
{
    let v = run.world;
    match (run.phase, reply) {
        (Phase::Devices, Reply::Zones(points)) => {
            let inside = v.inside(views(points@));
            let plain = ticks_of(v.devices, inside, v.surroundings(), v.devices.len());
            lemma_ticks_chained(v.devices, inside, v.surroundings(), v.devices.len());
            lemma_shifts_chained(
                devices_ticked(v.devices, v.options.dt, v.t),
                plain.moves,
                plain.shifts,
                v.options.dt,
                v.t,
            );
            lemma_moved_exist(v.devices, inside, v.surroundings(), v.devices.len());
            lemma_moved_tiles(
                Bodies { obstacles: v.obstacles, tracks: v.objects },
                plain.moved,
                v.options.dt,
                v.t,
            );
            let w = v.devices_advanced(inside);
            lemma_tick_settled_tiles(
                RolloutView { moving: Seq::empty(), ..w },
                v.tick(inside),
                Seq::empty(),
            );
        },
        _ => {},
    }
}

proof fn lemma_board_unbroken(run: RunView, reply: Reply)
    requires
        run.asks(reply),
        run.phase is Board,
        bodies_tile(run),
        run.world.t >= 0,
    ensures
        goes_unbroken(run.next(reply)),
{
    let v = run.world;
    match (run.phase, reply) {
        (Phase::Board, Reply::Decks(replies)) => {
            let moves = run.pending.moves;
            let names = advected(v.obstacles, run.pending.moved);
            lemma_boarded_tiles(v, moves, names, replies@, moves.len());
        },
        _ => {},
    }
}

proof fn lemma_carry_unbroken(run: RunView, next: usize, answer: CarryReply)
    requires
        on_time(run),
        run.sound(),
        run.phase == (Phase::Carry { next }),
        bodies_tile(run),
        moves_bodies_once(run, Reply::Carried(answer)),
    ensures
        bodies_tile(run.carried_on(next, answer)),
{
    let v = run.world;
    let m = run.pending.moves[next as int];
    let since = v.t - v.options.dt;
    assert(chained(m.pieces, since, v.t as int));
    let members = v.mover_body(m) + run.riders[next as int];
    let turned = views(answer.members_turned@);
    let a = v.frame_carried(m, answer);
    lemma_walker(v, a, v.mover(m)@, 0);
    assert(a.on_body(m) == v.on_body(m));
    assert(waits_for(a, m, members, since)) by {
        assert forall|i: int|
            0 <= i < members.len() && takes_along(a, m, (#[trigger] members[i])@) implies behind(
            a.objects,
            members[i]@,
            since,
        ) by {
            assert(takes_along(v, m, members[i]@));
        }
    }
    lemma_members_tile(a, m, members, turned, since, members.len());
    let b = a.members_carried(m, members, turned, members.len());
    lemma_robots(b, m, answer, v.robots.len());
    lemma_carry_keeps_time(run, next, answer);
}

/// A carried load leaves the clock alone.
proof fn lemma_carry_keeps_time(run: RunView, next: usize, answer: CarryReply)
    requires
        on_time(run),
    ensures
        run.carried_on(next, answer).world.t == run.world.t,
        run.carried_on(next, answer).world.options == run.world.options,
{
    let v = run.world;
    let m = run.pending.moves[next as int];
    let members = v.mover_body(m) + run.riders[next as int];
    let a = v.frame_carried(m, answer);
    lemma_members_vehicles(a, m, members, views(answer.members_turned@), members.len());
    let b = a.members_carried(m, members, views(answer.members_turned@), members.len());
    lemma_robots_devices(b, m, answer, v.robots.len());
}

/// What the loads, legs, spins and grips leave of the bodies' tracks.
proof fn lemma_rest_unbroken(run: RunView, reply: Reply)
    requires
        on_time(run),
        run.sound(),
        run.asks(reply),
        run.phase is Clear || run.phase is Gaits || run.phase is Follow || run.phase is Contacts,
        bodies_tile(run),
        run.world.t >= 0,
    ensures
        run.next(reply) matches Next::Leads(after) ==> tiled_by(
            after.world.objects,
            run.world.t as int,
        ) && seconds_rest(after.world.objects) && (after.phase is Gaits || after.phase is Follow
            || after.phase is Contacts || after.phase is Sense),
{
    let v = run.world;
    match (run.phase, reply) {
        (Phase::Clear, Reply::Cleared { loads, meets, touched }) => {
            let moves = run.pending.moves;
            lemma_loads(v, moves, loads@, moves.len());
            let w = v.loads_placed(moves, loads@, moves.len());
            match w.moves_checked(moves, run.riders, views(meets@), touched@) {
                Fired::Fails(_) => {},
                Fired::Leads(x) => {
                    lemma_tick_settled_tiles(x, run.pending, run.riders);
                },
            }
        },
        (Phase::Gaits, Reply::Walked(replies)) => {
            lemma_strides(v, replies@, v.robots.len());
        },
        (Phase::Follow, Reply::Followed(replies)) => {
            lemma_follows(v, replies@, v.robots.len());
        },
        _ => {},
    }
}

/// The tracks of the bodies stay unbroken from zero to where a run has got,
/// however it is answered, as long as nothing moves a body twice in one tick.
pub proof fn law_body_tracks_tile(run: RunView, reply: Reply)
    requires
        on_time(run),
        run.sound(),
        run.asks(reply),
        bodies_tile(run),
        run.world.t + run.world.options.dt <= Pico::MAX,
        run.world.obstacles.len() <= usize::MAX,
        moves_bodies_once(run, reply),
    ensures
        run.next(reply) matches Next::Leads(after) ==> bodies_tile(after),
{
    assert(run.world.t >= 0) by {
        assert(run.tick * run.world.options.dt >= 0) by (nonlinear_arith)
            requires
                run.tick >= 0,
                run.world.options.dt > 0,
        ;
    }
    match run.phase {
        Phase::Sense { .. } => lemma_sense_unbroken(run, reply),
        Phase::Fire { .. } => lemma_fire_unbroken(run, reply),
        Phase::Devices => lemma_devices_unbroken(run, reply),
        Phase::Board => lemma_board_unbroken(run, reply),
        Phase::Carry { next } => match reply {
            Reply::Carried(answer) => lemma_carry_unbroken(run, next, answer),
            _ => {},
        },
        Phase::Joints => {},
        Phase::Done => {},
        _ => {
            lemma_rest_unbroken(run, reply);
            law_instants_are_scans(run, reply);
        },
    }
}

/// A run that is through closes into a timeline in which the track of every body
/// that anything moved tiles the whole cycle.
pub proof fn law_body_tracks_tile_the_cycle(run: RunView, rests: Seq<Pose>)
    requires
        bodies_tile(run),
    ensures
        ({
            let timeline = run.world.timeline(rests);
            &&& all_tile(timeline.objects)
            &&& runs_through(timeline.objects, timeline.duration)
        }),
{
    let v = run.world;
    assert forall|i: int| 0 <= i < v.objects.len() implies tiles((#[trigger] v.objects[i]).spans)
        && v.objects[i].spans.last().start() <= v.t && has_begun(v.objects[i].spans) by {
        assert(v.objects[i].spans.last().end() <= v.t);
        let spans = v.objects[i].spans;
        assert(spans[spans.len() - 1].start() <= spans[spans.len() - 1].end());
    }
    law_finished_tracks_tile_the_cycle(v.objects, v.t);
    lemma_closed(v.objects, v.t);
}

/// Over a whole run in which nothing moves a body twice in one tick, nor a vehicle,
/// the tracks of the bodies and of the vehicles tile the cycle, whatever they are
/// called.
pub proof fn law_tracks_tile_over_a_run(
    runs: Seq<RunView>,
    replies: Seq<Reply>,
    scene: Scene,
    sequences: Seq<&Sequence>,
    options: RolloutOptions,
    scenario: Option<String>,
    rests: Seq<Pose>,
)
    requires
        whole_run(runs, replies, scene, sequences, options, scenario),
        forall|i: int|
            0 <= i < replies.len() ==> moves_each_once(runs[i], #[trigger] replies[i]),
    ensures
        ({
            let timeline = runs.last().world.timeline(rests);
            &&& all_tile(timeline.objects)
            &&& runs_through(timeline.objects, timeline.duration)
            &&& all_tile(timeline.vehicles)
            &&& runs_through(timeline.vehicles, timeline.duration)
        }),
{
    lemma_tiled_so_far(runs, replies, scene, sequences, options, scenario, replies.len());
    assert(runs.last() == runs[replies.len() as int]);
    law_body_tracks_tile_the_cycle(runs.last(), rests);
    law_vehicle_tracks_tile_the_cycle(runs.last(), rests);
}

/// A reply after which nothing, body or vehicle, has moved twice in one tick, in a
/// run that the machine can count.
pub open spec fn moves_each_once(run: RunView, reply: Reply) -> bool {
    &&& moves_bodies_once(run, reply)
    &&& run.phase is Carry ==> move_once(run.world, run.pending.moves)
    &&& run.world.t + run.world.options.dt <= Pico::MAX
    &&& run.world.obstacles.len() <= usize::MAX
    &&& run.pending.moves.len() <= usize::MAX
}

proof fn lemma_tiled_so_far(
    runs: Seq<RunView>,
    replies: Seq<Reply>,
    scene: Scene,
    sequences: Seq<&Sequence>,
    options: RolloutOptions,
    scenario: Option<String>,
    n: nat,
)
    requires
        whole_run(runs, replies, scene, sequences, options, scenario),
        forall|i: int|
            0 <= i < replies.len() ==> moves_each_once(runs[i], #[trigger] replies[i]),
        n <= replies.len(),
    ensures
        on_time(runs[n as int]),
        bodies_tile(runs[n as int]),
        vehicles_tile(runs[n as int]),
    decreases n,
{
    if n == 0 {
        law_runs_start_at_zero(scene, sequences, options, scenario);
        law_runs_start_unbroken(scene, sequences, options, scenario);
        law_runs_start_tiled(scene, sequences, options, scenario);
    } else {
        let k = n - 1;
        lemma_tiled_so_far(runs, replies, scene, sequences, options, scenario, k as nat);
        assert(runs[k].sound());
        assert(runs[k].asks(replies[k]));
        assert(moves_each_once(runs[k], replies[k]));
        law_instants_are_scans(runs[k], replies[k]);
        law_body_tracks_tile(runs[k], replies[k]);
        law_vehicle_tracks_tile(runs[k], replies[k]);
    }
}

} // verus!
