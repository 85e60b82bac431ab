//! What a robot holds through a tick: nothing else moves it.

use vstd::prelude::*;

use crate::engine::{Next, Phase, Reply, RunView};
use crate::fire::Fired;
use crate::fixed::{clip, Pico, Pose};
use crate::laws::law_held_bodies_stay_with_their_robot;
use crate::names::{find, lemma_find, names_of};
use crate::ride::{bound, path_tracks, CarryReply, DeckReply, Load};
use crate::rollout::RolloutView;
use crate::scene::{body_index, is_held, Attachment, Obstacle};
use crate::stride::StrideReply;
use crate::supply::{fed_line, restocked, teleported, Line};
use crate::tick::{
    lemma_moved_exist, ticks_of, with_moved, Bodies, MoveView, Moved, Returned, TickView,
};
use crate::tiling::ticking;
use crate::tracks::{
    open_index, opened, respanned, stretched, track_names, with_piece, with_ride, TrackSpan,
    TrackView,
};
use crate::vehicle::Piece;
use crate::views::views;
use crate::world::{advected, settled, stop_time, stopped, TrackReply};

verus! {

/// Whether a span is one that a device, a vehicle or a magazine gives.
pub open spec fn is_driven(span: TrackSpan) -> bool {
    span is Linear || span is Pivot || span is Stowed
}

/// How many spans of a list devices, vehicles and magazines gave.
pub open spec fn driven(spans: Seq<TrackSpan>) -> nat
    decreases spans.len(),
{
    if spans.len() == 0 {
        0
    } else {
        driven(spans.drop_last()) + if is_driven(spans.last()) {
            1
        } else {
            0nat
        }
    }
}

/// How many such spans the track of `name` holds.
pub open spec fn driven_of(tracks: Seq<TrackView>, name: Seq<char>) -> nat {
    match find(track_names(tracks), name) {
        Some(i) => driven(tracks[i].spans),
        None => 0,
    }
}

/// Giving one thing other spans leaves the track of every other thing alone.
proof fn lemma_other_respanned(
    tracks: Seq<TrackView>,
    other: Seq<char>,
    rest: Pose,
    since: Pico,
    spans: Seq<TrackSpan>,
    name: Seq<char>,
)
    requires
        other != name,
    ensures
        driven_of(
            respanned(opened(tracks, other, rest, since), open_index(tracks, other), spans),
            name,
        ) == driven_of(tracks, name),
{
    let ready = opened(tracks, other, rest, since);
    let i = open_index(tracks, other);
    let after = respanned(ready, i, spans);
    lemma_find(track_names(tracks), other, 0);
    lemma_find(track_names(tracks), name, 0);
    lemma_find(track_names(after), name, 0);
    assert(after[i].name == other) by {
        match find(track_names(tracks), other) {
            Some(k) => {
                assert(track_names(tracks)[k] == other);
            },
            None => {},
        }
    }
    match find(track_names(after), name) {
        Some(k) => {
            assert(track_names(after)[k] == after[k].name);
            assert(k != i);
            assert(after[k] == tracks[k]);
            assert(track_names(tracks)[k] == name);
            match find(track_names(tracks), name) {
                Some(q) => {
                    assert(track_names(tracks)[q] == tracks[q].name);
                    assert(track_names(after)[q] == after[q].name);
                    assert(q == k);
                },
                None => {},
            }
        },
        None => {
            match find(track_names(tracks), name) {
                Some(q) => {
                    assert(track_names(tracks)[q] == tracks[q].name);
                    assert(track_names(after)[q] == after[q].name);
                    assert(q != i);
                },
                None => {},
            }
        },
    }
}

/// Giving one thing spans with as many driven ones as before leaves every count
/// as it was.
proof fn lemma_as_many(
    tracks: Seq<TrackView>,
    other: Seq<char>,
    rest: Pose,
    since: Pico,
    spans: Seq<TrackSpan>,
    name: Seq<char>,
)
    requires
        driven(spans) == driven(opened(tracks, other, rest, since)[open_index(tracks, other)].spans),
    ensures
        driven_of(
            respanned(opened(tracks, other, rest, since), open_index(tracks, other), spans),
            name,
        ) == driven_of(tracks, name),
{
    if other != name {
        lemma_other_respanned(tracks, other, rest, since, spans, name);
    } else {
        let ready = opened(tracks, name, rest, since);
        let i = open_index(tracks, name);
        let after = respanned(ready, i, spans);
        lemma_find(track_names(tracks), name, 0);
        lemma_find(track_names(after), name, 0);
        reveal_with_fuel(driven, 3);
        match find(track_names(tracks), name) {
            Some(k) => {
                assert(track_names(tracks)[k] == tracks[k].name);
                assert(track_names(after)[k] == after[k].name);
                match find(track_names(after), name) {
                    Some(q) => {
                        assert(track_names(after)[q] == after[q].name);
                        assert(track_names(tracks)[q] == tracks[q].name);
                        assert(q == k);
                    },
                    None => {},
                }
            },
            None => {
                assert(track_names(after)[i] == after[i].name);
                match find(track_names(after), name) {
                    Some(q) => {
                        assert(track_names(after)[q] == after[q].name);
                        if q < tracks.len() {
                            assert(track_names(tracks)[q] == tracks[q].name);
                        }
                        assert(q == i);
                    },
                    None => {},
                }
                assert(driven(ready[i].spans) == 0) by {
                    let opening = crate::tracks::opening(rest, since);
                    assert(ready[i].spans == opening);
                    if since > 0 {
                        assert(opening.drop_last() =~= Seq::<TrackSpan>::empty());
                    }
                }
            },
        }
    }
}

proof fn lemma_rest_pushed(spans: Seq<TrackSpan>, span: TrackSpan)
    requires
        !is_driven(span),
    ensures
        driven(spans.push(span)) == driven(spans),
{
    assert(spans.push(span).drop_last() =~= spans);
}

proof fn lemma_until(spans: Seq<TrackSpan>, t: Pico)
    requires
        spans.len() > 0,
    ensures
        driven(spans.update(spans.len() - 1, spans.last().until(t))) == driven(spans),
{
    let after = spans.update(spans.len() - 1, spans.last().until(t));
    assert(after.drop_last() =~= spans.drop_last());
}

proof fn lemma_jump_counts(
    tracks: Seq<TrackView>,
    other: Seq<char>,
    rest: Pose,
    t: Pico,
    span: TrackSpan,
    name: Seq<char>,
)
    requires
        other != name || !is_driven(span),
    ensures
        driven_of(crate::tracks::jumped(tracks, other, rest, t, span), name) == driven_of(
            tracks,
            name,
        ),
{
    let ready = opened(tracks, other, rest, t);
    let i = open_index(tracks, other);
    let spans = stretched(ready[i].spans, t).push(span);
    if other != name {
        lemma_other_respanned(tracks, other, rest, t, spans, name);
    } else {
        lemma_rest_pushed(stretched(ready[i].spans, t), span);
        if ready[i].spans.len() > 0 && ready[i].spans.last().end() < t {
            lemma_until(ready[i].spans, t);
        }
        lemma_as_many(tracks, other, rest, t, spans, name);
    }
}

/// The bodies of that name are where they were.
pub open spec fn stays_put(before: Seq<Obstacle>, after: Seq<Obstacle>, name: Seq<char>) -> bool {
    after.len() == before.len() && forall|k: int|
        0 <= k < before.len() ==> (#[trigger] after[k]).name == before[k].name && (
        before[k].name@ == name ==> after[k] == before[k])
}

/// The bodies keep their names.
pub open spec fn same_bodies(before: Seq<Obstacle>, after: Seq<Obstacle>) -> bool {
    after.len() == before.len() && forall|k: int|
        0 <= k < before.len() ==> (#[trigger] after[k]).name == before[k].name
}

proof fn lemma_moved_spares(b: Bodies, moved: Seq<Moved>, dt: Pico, t: Pico, name: Seq<char>)
    requires
        forall|i: int|
            0 <= i < moved.len() ==> (#[trigger] moved[i]).obstacle < b.obstacles.len()
                && b.obstacles[moved[i].obstacle as int].name@ != name,
    ensures
        driven_of(with_moved(b, moved, dt, t).tracks, name) == driven_of(b.tracks, name),
        stays_put(b.obstacles, with_moved(b, moved, dt, t).obstacles, name),
    decreases moved.len(),
{
    if moved.len() > 0 {
        let first = moved.drop_last();
        assert forall|i: int| 0 <= i < first.len() implies (#[trigger] first[i]).obstacle
            < b.obstacles.len() && b.obstacles[first[i].obstacle as int].name@ != name by {
            assert(first[i] == moved[i]);
        }
        lemma_moved_spares(b, first, dt, t, name);
        let less = with_moved(b, first, dt, t);
        let m = moved.last();
        assert(m == moved[moved.len() - 1]);
        let o = less.obstacles[m.obstacle as int];
        assert(o.name@ != name);
        let t0 = clip(t - dt);
        let spans = opened(less.tracks, o.name@, o.pose, t0)[open_index(
            less.tracks,
            o.name@,
        )].spans;
        lemma_other_respanned(
            less.tracks,
            o.name@,
            o.pose,
            t0,
            with_ride(spans, o.pose, t0, t, m.velocity),
            name,
        );
    }
}

proof fn lemma_bound_counts(
    before: Load,
    riders: Seq<String>,
    obstacles: Seq<Obstacle>,
    offsets: Seq<Pose>,
    robot: usize,
    link: usize,
    t: Pico,
    n: nat,
    name: Seq<char>,
)
    ensures
        driven_of(bound(before, riders, obstacles, offsets, robot, link, t, n).tracks, name)
            == driven_of(before.tracks, name),
    decreases n,
{
    if n > 0 {
        lemma_bound_counts(before, riders, obstacles, offsets, robot, link, t, (n - 1) as nat, name);
        let less = bound(before, riders, obstacles, offsets, robot, link, t, (n - 1) as nat);
        let rider = riders[n - 1]@;
        match find(names_of(before.carried), rider) {
            Some(_) => {
                match find(track_names(less.tracks), rider) {
                    Some(i) => {
                        let spans = less.tracks[i].spans;
                        if spans.len() > 0 && spans.last() is Follow {
                            lemma_until(spans, t);
                            lemma_as_many(
                                less.tracks,
                                rider,
                                obstacles[0].pose,
                                t,
                                spans.update(spans.len() - 1, spans.last().until(t)),
                                name,
                            );
                        }
                    },
                    None => {},
                }
            },
            None => match body_index(obstacles, rider) {
                None => {},
                Some(k) => {
                    lemma_jump_counts(
                        less.tracks,
                        rider,
                        obstacles[k].pose,
                        t,
                        TrackSpan::Follow { t0: t, t1: t, robot, link, offset: offsets[k] },
                        name,
                    );
                },
            },
        }
    }
}

proof fn lemma_boarded_counts(
    v: RolloutView,
    moves: Seq<MoveView>,
    names: Seq<String>,
    replies: Seq<DeckReply>,
    n: nat,
    name: Seq<char>,
)
    ensures
        ({
            let w = v.boarded(moves, names, replies, n);
            &&& driven_of(w.objects, name) == driven_of(v.objects, name)
            &&& w.attachments == v.attachments
            &&& w.obstacles == v.obstacles
        }),
    decreases n,
{
    if n > 0 {
        lemma_boarded_counts(v, moves, names, replies, (n - 1) as nat, name);
        let less = v.boarded(moves, names, replies, (n - 1) as nat);
        let m = moves[n - 1];
        let riders = v.riders(m, names, v.on_deck(m, replies[n - 1]), v.obstacles.len());
        match less.walker_on(less.mover(m)@, 0) {
            None => {},
            Some(r) => {
                let g = less.robots[r].gait->0;
                lemma_bound_counts(
                    Load { carried: g.carried, tracks: less.objects },
                    riders,
                    less.obstacles,
                    replies[n - 1].offsets@,
                    r as usize,
                    less.gait_of(r).body,
                    less.t,
                    riders.len(),
                    name,
                );
            },
        }
    }
}

proof fn lemma_path_counts(
    tracks: Seq<TrackView>,
    other: Seq<char>,
    from: Pose,
    pieces: Seq<Piece>,
    turned: Seq<Pose>,
    n: nat,
    name: Seq<char>,
)
    requires
        other != name,
    ensures
        driven_of(path_tracks(tracks, other, from, pieces, turned, n), name) == driven_of(
            tracks,
            name,
        ),
    decreases n,
{
    if n > 0 {
        lemma_path_counts(tracks, other, from, pieces, turned, (n - 1) as nat, name);
        let less = path_tracks(tracks, other, from, pieces, turned, (n - 1) as nat);
        let pose = crate::ride::path_pose(from, pieces, turned, (n - 1) as nat);
        let p = pieces[n - 1];
        if p.t0 < p.t1 {
            let spans = opened(less, other, pose, p.t0)[open_index(less, other)].spans;
            lemma_other_respanned(
                less,
                other,
                pose,
                p.t0,
                with_piece(spans, pose, p.t0, p.t1, p.motion),
                name,
            );
        }
    }
}

proof fn lemma_members_spare(
    v: RolloutView,
    m: MoveView,
    members: Seq<String>,
    turned: Seq<Seq<Pose>>,
    n: nat,
    name: Seq<char>,
)
    requires
        is_held(v.attachments, name),
    ensures
        ({
            let w = v.members_carried(m, members, turned, n);
            &&& driven_of(w.objects, name) == driven_of(v.objects, name)
            &&& w.attachments == v.attachments
            &&& stays_put(v.obstacles, w.obstacles, name)
        }),
    decreases n,
{
    if n > 0 {
        lemma_members_spare(v, m, members, turned, (n - 1) as nat, name);
        let less = v.members_carried(m, members, turned, (n - 1) as nat);
        let member = members[n - 1]@;
        match body_index(less.obstacles, member) {
            Some(k) => {
                lemma_find(names_of(less.obstacles), member, 0);
                assert(names_of(less.obstacles)[k] == less.obstacles[k].name@);
                if !is_held(less.attachments, member) {
                    assert(member != name);
                    lemma_path_counts(
                        less.objects,
                        member,
                        less.obstacles[k].pose,
                        m.pieces,
                        turned[n - 1],
                        m.pieces.len(),
                        name,
                    );
                }
            },
            None => {},
        }
    }
}

proof fn lemma_robots_spare(v: RolloutView, m: MoveView, reply: CarryReply, n: nat)
    ensures
        ({
            let w = v.robots_carried(m, reply, n);
            w.objects == v.objects && w.attachments == v.attachments && w.obstacles == v.obstacles
        }),
    decreases n,
{
    if n > 0 {
        lemma_robots_spare(v, m, reply, (n - 1) as nat);
    }
}

proof fn lemma_settled_counts(
    tracks: Seq<TrackView>,
    stops: Seq<(Seq<char>, Pose)>,
    t: Pico,
    name: Seq<char>,
)
    ensures
        driven_of(settled(tracks, stops, t), name) == driven_of(tracks, name),
    decreases stops.len(),
{
    if stops.len() > 0 {
        lemma_settled_counts(tracks, stops.drop_last(), t, name);
        let less = settled(tracks, stops.drop_last(), t);
        let (stop, pose) = stops.last();
        let at = stop_time(less, stop, t);
        let spans = opened(less, stop, pose, at)[open_index(less, stop)].spans;
        let hold = TrackSpan::Hold { t0: at, t1: at, pose };
        lemma_rest_pushed(spans, hold);
        lemma_as_many(less, stop, pose, at, spans.push(hold), name);
    }
}

proof fn lemma_teleported_counts(
    b: Bodies,
    other: Seq<char>,
    to: Pose,
    stowed: bool,
    t: Pico,
    name: Seq<char>,
)
    requires
        other != name || !stowed,
    ensures
        driven_of(teleported(b, other, to, stowed, t).tracks, name) == driven_of(b.tracks, name),
        same_bodies(b.obstacles, teleported(b, other, to, stowed, t).obstacles),
{
    match body_index(b.obstacles, other) {
        Some(k) => {
            lemma_find(names_of(b.obstacles), other, 0);
            lemma_jump_counts(
                b.tracks,
                other,
                b.obstacles[k].pose,
                t,
                crate::supply::resting(t, to, stowed),
                name,
            );
        },
        None => {},
    }
}

proof fn lemma_restocked_spares(line: Line, returned: Seq<Returned>, t: Pico, name: Seq<char>)
    requires
        forall|i: int|
            0 <= i < returned.len() ==> (#[trigger] returned[i]).obstacle
                < line.bodies.obstacles.len()
                && line.bodies.obstacles[returned[i].obstacle as int].name@ != name,
    ensures
        driven_of(restocked(line, returned, t).bodies.tracks, name) == driven_of(
            line.bodies.tracks,
            name,
        ),
        same_bodies(line.bodies.obstacles, restocked(line, returned, t).bodies.obstacles),
    decreases returned.len(),
{
    if returned.len() > 0 {
        let first = returned.drop_last();
        assert forall|i: int| 0 <= i < first.len() implies (#[trigger] first[i]).obstacle
            < line.bodies.obstacles.len()
            && line.bodies.obstacles[first[i].obstacle as int].name@ != name by {
            assert(first[i] == returned[i]);
        }
        lemma_restocked_spares(line, first, t, name);
        let less = restocked(line, first, t);
        let r = returned.last();
        assert(r == returned[returned.len() - 1]);
        match crate::supply::owned_member(less, r) {
            Some(i) => {
                let s = less.devices[r.source->0 as int].state->Source_0;
                lemma_teleported_counts(
                    less.bodies,
                    less.bodies.obstacles[r.obstacle as int].name@,
                    crate::devices::slot(s.park, s.pitch, i),
                    true,
                    t,
                    name,
                );
            },
            None => {},
        }
    }
}

proof fn lemma_fed_counts(line: Line, n: nat, dt: Pico, t: Pico, name: Seq<char>)
    ensures
        driven_of(fed_line(line, n, dt, t).bodies.tracks, name) == driven_of(
            line.bodies.tracks,
            name,
        ),
    decreases n,
{
    if n > 0 {
        lemma_fed_counts(line, (n - 1) as nat, dt, t, name);
        let less = fed_line(line, (n - 1) as nat, dt, t);
        match less.devices[n - 1].state {
            crate::devices::StateView::Source(s) => {
                match crate::supply::fed(s, dt).1 {
                    Some(i) => {
                        lemma_teleported_counts(less.bodies, s.pool[i]@, s.pose, false, t, name);
                    },
                    None => {},
                }
            },
            _ => {},
        }
    }
}

/// What is to go back to its magazine is nothing that a robot holds.
pub open spec fn returns_nothing_held(
    obstacles: Seq<Obstacle>,
    attachments: Seq<Attachment>,
    returned: Seq<Returned>,
) -> bool {
    forall|i: int|
        0 <= i < returned.len() ==> (#[trigger] returned[i]).obstacle < obstacles.len()
            && !is_held(attachments, obstacles[returned[i].obstacle as int].name@)
}

proof fn lemma_tick_settled_spares(
    v: RolloutView,
    tick: TickView,
    riders: Seq<Seq<String>>,
    name: Seq<char>,
)
    requires
        is_held(v.attachments, name),
        returns_nothing_held(v.obstacles, v.attachments, tick.returned),
    ensures
        ({
            let w = v.tick_settled(tick, riders);
            &&& driven_of(w.objects, name) == driven_of(v.objects, name)
            &&& w.attachments == v.attachments
        }),
{
    let carried = advected(v.obstacles, tick.moved) + crate::engine::flat_riders(riders);
    let stops = stopped(v.objects, v.obstacles, carried, v.t, v.objects.len());
    lemma_settled_counts(v.objects, stops, v.t, name);
    let w = v.stops_settled(carried);
    assert forall|i: int| 0 <= i < tick.returned.len() implies (
    #[trigger] tick.returned[i]).obstacle < w.obstacles.len()
        && w.obstacles[tick.returned[i].obstacle as int].name@ != name by {
        assert(!is_held(
            v.attachments,
            v.obstacles[tick.returned[i].obstacle as int].name@,
        ));
    }
    lemma_restocked_spares(w.line(), tick.returned, w.t, name);
    lemma_fed_counts(
        restocked(w.line(), tick.returned, w.t),
        w.devices.len(),
        w.options.dt,
        w.t,
        name,
    );
}

/// While a tick's moves are under way, nothing that is held waits to go back to
/// a magazine.
pub open spec fn spares_held(run: RunView) -> bool {
    run.phase is Board || run.phase is Carry || run.phase is Clear ==> returns_nothing_held(
        run.world.obstacles,
        run.world.attachments,
        run.pending.returned,
    )
}

/// What the robots hold is as it was: the same bodies by the same links, in the
/// same grasp; and the track of `name` has gained nothing from a device, a
/// vehicle or a magazine.
pub open spec fn keeps_hold(before: RolloutView, after: RolloutView, name: Seq<char>) -> bool {
    after.attachments == before.attachments && driven_of(after.objects, name) == driven_of(
        before.objects,
        name,
    )
}

proof fn lemma_loads_keep(v: RolloutView, moves: Seq<MoveView>, loads: Seq<Vec<Pose>>, n: nat)
    ensures
        ({
            let w = v.loads_placed(moves, loads, n);
            &&& w.objects == v.objects
            &&& w.attachments == v.attachments
            &&& same_bodies(v.obstacles, w.obstacles)
        }),
    decreases n,
{
    if n > 0 {
        lemma_loads_keep(v, moves, loads, (n - 1) as nat);
        let less = v.loads_placed(moves, loads, (n - 1) as nat);
        let w = v.loads_placed(moves, loads, n);
        match less.walker_on(less.mover(moves[n - 1])@, 0) {
            Some(r) => {
                match less.robots[r].gait {
                    Some(g) => {
                        lemma_load_keeps(
                            less.obstacles,
                            g.carried,
                            loads[n - 1]@,
                            g.carried.len(),
                        );
                    },
                    None => {},
                }
            },
            None => {},
        }
    }
}

proof fn lemma_load_keeps(
    obstacles: Seq<Obstacle>,
    carried: Seq<(String, Pose)>,
    poses: Seq<Pose>,
    n: nat,
)
    ensures
        same_bodies(obstacles, crate::ride::load_placed(obstacles, carried, poses, n)),
    decreases n,
{
    if n > 0 {
        lemma_load_keeps(obstacles, carried, poses, (n - 1) as nat);
        let less = crate::ride::load_placed(obstacles, carried, poses, (n - 1) as nat);
        lemma_find(names_of(less), carried[n - 1].0@, 0);
    }
}

proof fn lemma_walked_keep(v: RolloutView, replies: Seq<Option<StrideReply>>, n: nat)
    ensures
        v.all_walked(replies, n) matches Fired::Leads(w) ==> w.objects == v.objects
            && w.attachments == v.attachments,
    decreases n,
{
    if n > 0 {
        lemma_walked_keep(v, replies, (n - 1) as nat);
    }
}

proof fn lemma_followed_keep(v: RolloutView, replies: Seq<TrackReply>, n: nat)
    ensures
        v.all_tracked(replies, n) matches Fired::Leads(w) ==> w.objects == v.objects
            && w.attachments == v.attachments,
    decreases n,
{
    if n > 0 {
        lemma_followed_keep(v, replies, (n - 1) as nat);
    }
}

/// What follows, if anything does, keeps hold of `name`.
spec fn goes_holding(run: RunView, next: Next, name: Seq<char>) -> bool {
    next matches Next::Leads(after) ==> keeps_hold(run.world, after.world, name) && spares_held(
        after,
    )
}

proof fn lemma_devices_hold(run: RunView, reply: Reply, name: Seq<char>)
    requires
        run.asks(reply),
        run.phase is Devices,
        run.world.obstacles.len() <= usize::MAX,
        is_held(run.world.attachments, name),
    ensures
        goes_holding(run, run.next(reply), name),
        reply matches Reply::Zones(points) ==> stays_put(
            run.world.obstacles,
            run.world.devices_advanced(run.world.inside(views(points@))).obstacles,
            name,
        ),
{
    let v = run.world;
    match (run.phase, reply) {
        (Phase::Devices, Reply::Zones(points)) => {
            let inside = v.inside(views(points@));
            let plain = ticks_of(v.devices, inside, v.surroundings(), v.devices.len());
            lemma_moved_exist(v.devices, inside, v.surroundings(), v.devices.len());
            law_held_bodies_stay_with_their_robot(
                v.devices,
                inside,
                v.surroundings(),
                v.devices.len(),
            );
            assert forall|i: int| 0 <= i < plain.moved.len() implies (
            #[trigger] plain.moved[i]).obstacle < v.obstacles.len()
                && v.obstacles[plain.moved[i].obstacle as int].name@ != name by {
                assert(!is_held(
                    v.attachments,
                    v.obstacles[plain.moved[i].obstacle as int].name@,
                ));
            }
            lemma_moved_spares(
                Bodies { obstacles: v.obstacles, tracks: v.objects },
                plain.moved,
                v.options.dt,
                v.t,
                name,
            );
            let w = v.devices_advanced(inside);
            assert(returns_nothing_held(w.obstacles, w.attachments, plain.returned)) by {
                assert forall|i: int| 0 <= i < plain.returned.len() implies (
                #[trigger] plain.returned[i]).obstacle < w.obstacles.len() && !is_held(
                    w.attachments,
                    w.obstacles[plain.returned[i].obstacle as int].name@,
                ) by {
                    let k = plain.returned[i].obstacle as int;
                    assert(w.obstacles[k].name == v.obstacles[k].name);
                }
            }
            lemma_tick_settled_spares(
                RolloutView { moving: Seq::empty(), ..w },
                v.tick(inside),
                Seq::empty(),
                name,
            );
        },
        _ => {},
    }
}

proof fn lemma_carry_holds(run: RunView, reply: Reply, name: Seq<char>)
    requires
        run.sound(),
        run.asks(reply),
        run.phase is Carry,
        spares_held(run),
        is_held(run.world.attachments, name),
    ensures
        goes_holding(run, run.next(reply), name),
        run.next(reply) matches Next::Leads(after) ==> stays_put(
            run.world.obstacles,
            after.world.obstacles,
            name,
        ),
{
    let v = run.world;
    match (run.phase, reply) {
        (Phase::Carry { next }, Reply::Carried(answer)) => {
            let m = run.pending.moves[next as int];
            let members = v.mover_body(m) + run.riders[next as int];
            let turned = views(answer.members_turned@);
            let a = v.frame_carried(m, answer);
            lemma_members_spare(a, m, members, turned, members.len(), name);
            let b = a.members_carried(m, members, turned, members.len());
            lemma_robots_spare(b, m, answer, v.robots.len());
            let w = v.carried(m, run.riders[next as int], answer);
            assert(returns_nothing_held(w.obstacles, w.attachments, run.pending.returned)) by {
                assert forall|i: int| 0 <= i < run.pending.returned.len() implies (
                #[trigger] run.pending.returned[i]).obstacle < w.obstacles.len() && !is_held(
                    w.attachments,
                    w.obstacles[run.pending.returned[i].obstacle as int].name@,
                ) by {
                    let k = run.pending.returned[i].obstacle as int;
                    assert(w.obstacles[k].name == v.obstacles[k].name);
                }
            }
        },
        _ => {},
    }
}

proof fn lemma_clear_holds(run: RunView, reply: Reply, name: Seq<char>)
    requires
        run.asks(reply),
        run.phase is Clear,
        spares_held(run),
        is_held(run.world.attachments, name),
    ensures
        goes_holding(run, run.next(reply), name),
{
    let v = run.world;
    match (run.phase, reply) {
        (Phase::Clear, Reply::Cleared { loads, meets, touched }) => {
            let moves = run.pending.moves;
            lemma_loads_keep(v, moves, loads@, moves.len());
            let w = v.loads_placed(moves, loads@, moves.len());
            match w.moves_checked(moves, run.riders, views(meets@), touched@) {
                Fired::Fails(_) => {},
                Fired::Leads(x) => {
                    assert(returns_nothing_held(x.obstacles, x.attachments, run.pending.returned))
                        by {
                        assert forall|i: int| 0 <= i < run.pending.returned.len() implies (
                        #[trigger] run.pending.returned[i]).obstacle < x.obstacles.len()
                            && !is_held(
                            x.attachments,
                            x.obstacles[run.pending.returned[i].obstacle as int].name@,
                        ) by {
                            let k = run.pending.returned[i].obstacle as int;
                            assert(x.obstacles[k].name == v.obstacles[k].name);
                        }
                    }
                    lemma_tick_settled_spares(x, run.pending, run.riders, name);
                },
            }
        },
        _ => {},
    }
}

proof fn lemma_rest_hold(run: RunView, reply: Reply, name: Seq<char>)
    requires
        run.asks(reply),
        run.phase is Joints || run.phase is Gaits || run.phase is Follow || run.phase is Contacts,
    ensures
        goes_holding(run, run.next(reply), name),
{
    let v = run.world;
    match (run.phase, reply) {
        (Phase::Gaits, Reply::Walked(replies)) => {
            lemma_walked_keep(v, replies@, v.robots.len());
        },
        (Phase::Follow, Reply::Followed(replies)) => {
            lemma_followed_keep(v, replies@, v.robots.len());
        },
        _ => {},
    }
}

proof fn lemma_board_holds(run: RunView, reply: Reply, name: Seq<char>)
    requires
        run.asks(reply),
        run.phase is Board,
        spares_held(run),
    ensures
        goes_holding(run, run.next(reply), name),
{
    let v = run.world;
    match (run.phase, reply) {
        (Phase::Board, Reply::Decks(replies)) => {
            let moves = run.pending.moves;
            let names = advected(v.obstacles, run.pending.moved);
            lemma_boarded_counts(v, moves, names, replies@, moves.len(), name);
        },
        _ => {},
    }
}

/// Through every part of a tick a robot keeps what it holds: no conveyor, axis,
/// lift, vehicle or sink moves it, wherever it is, and it stays with the same
/// link in the same grasp.
pub proof fn law_a_tick_moves_nothing_held(run: RunView, reply: Reply, name: Seq<char>)
    requires
        run.sound(),
        run.asks(reply),
        ticking(run.phase),
        spares_held(run),
        run.world.obstacles.len() <= usize::MAX,
        is_held(run.world.attachments, name),
    ensures
        run.next(reply) matches Next::Leads(after) ==> keeps_hold(run.world, after.world, name)
            && spares_held(after),
{
    match run.phase {
        Phase::Devices => lemma_devices_hold(run, reply, name),
        Phase::Board => lemma_board_holds(run, reply, name),
        Phase::Carry { .. } => lemma_carry_holds(run, reply, name),
        Phase::Clear => lemma_clear_holds(run, reply, name),
        _ => lemma_rest_hold(run, reply, name),
    }
}

/// The states that a run goes through, one for every reply.
pub open spec fn goes_through(runs: Seq<RunView>, replies: Seq<Reply>) -> bool {
    &&& runs.len() == replies.len() + 1
    &&& forall|i: int|
        0 <= i < replies.len() ==> runs[i].asks(#[trigger] replies[i]) && runs[i].next(replies[i])
            == Next::Leads(runs[i + 1])
}

/// Over a whole tick, however its parts are answered, a robot keeps what it holds
/// as the tick began.
pub proof fn law_a_robot_keeps_hold_over_a_tick(
    runs: Seq<RunView>,
    replies: Seq<Reply>,
    name: Seq<char>,
)
    requires
        goes_through(runs, replies),
        runs[0].phase is Joints,
        forall|i: int|
            0 <= i < replies.len() ==> ticking((#[trigger] runs[i]).phase) && runs[i].sound()
                && runs[i].world.obstacles.len() <= usize::MAX,
        is_held(runs[0].world.attachments, name),
    ensures
        keeps_hold(runs[0].world, runs.last().world, name),
{
    lemma_keeps_hold(runs, replies, name, replies.len());
}

proof fn lemma_keeps_hold(runs: Seq<RunView>, replies: Seq<Reply>, name: Seq<char>, n: nat)
    requires
        goes_through(runs, replies),
        runs[0].phase is Joints,
        forall|i: int|
            0 <= i < replies.len() ==> ticking((#[trigger] runs[i]).phase) && runs[i].sound()
                && runs[i].world.obstacles.len() <= usize::MAX,
        is_held(runs[0].world.attachments, name),
        n <= replies.len(),
    ensures
        keeps_hold(runs[0].world, runs[n as int].world, name),
        spares_held(runs[n as int]),
    decreases n,
{
    if n > 0 {
        let k = n - 1;
        lemma_keeps_hold(runs, replies, name, k as nat);
        assert(ticking(runs[k].phase));
        assert(runs[k].asks(replies[k]));
        law_a_tick_moves_nothing_held(runs[k], replies[k], name);
    }
}

} // verus!
