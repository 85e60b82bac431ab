//! What rides a vehicle: its body, its deck load, the robots mounted on it,
//! and the aisle it needs.

use vstd::prelude::*;

use crate::devices::DeviceRuntime;
use crate::fixed::{clip, minus, Pico, Pose, Vec3};
use crate::gait::GaitView;
use crate::names::{contains_name, find, find_named, holds_name, names_of};
use crate::robots::RobotView;
use crate::rollout::{Rollout, RolloutView};
use crate::scene::{
    body_index, find_body, held, is_held, lemma_posed_names, posed, same_bodies, set_obstacle_pose,
    Attachment, Obstacle,
};
use crate::setup::lemma_kept_sound;
use crate::tick::{of_vehicles, MoveView, VehicleMove};
use crate::tracks::{
    apply_piece, jumped, moved_by, open_index, opened, pieced, push_vehicle_span, respanned,
    track_names, with_piece, TrackSpan, TrackView, Tracks,
};
use crate::vehicle::Piece;
use crate::views::{copied, copied_names, views};
use crate::world::lemma_same_robots;
use crate::zone::{mark_zone, zone_marks};

verus! {

/// Where a body is after the first `n` pieces of a motion; what a pivot turns
/// it to is handed in, piece by piece.
pub open spec fn path_pose(from: Pose, pieces: Seq<Piece>, turned: Seq<Pose>, n: nat) -> Pose
    decreases n,
{
    if n == 0 {
        from
    } else {
        let p = pieces[n - 1];
        moved_by(
            path_pose(from, pieces, turned, (n - 1) as nat),
            p.motion,
            clip(p.t1 - p.t0),
            turned[n - 1],
        )
    }
}

/// A span list after the first `n` pieces of a motion.
pub open spec fn path_spans(
    spans: Seq<TrackSpan>,
    from: Pose,
    pieces: Seq<Piece>,
    turned: Seq<Pose>,
    n: nat,
) -> Seq<TrackSpan>
    decreases n,
{
    if n == 0 {
        spans
    } else {
        let p = pieces[n - 1];
        with_piece(
            path_spans(spans, from, pieces, turned, (n - 1) as nat),
            path_pose(from, pieces, turned, (n - 1) as nat),
            p.t0,
            p.t1,
            p.motion,
        )
    }
}

/// The tracks after `name` has made the first `n` pieces of a motion.
pub open spec fn path_tracks(
    tracks: Seq<TrackView>,
    name: Seq<char>,
    from: Pose,
    pieces: Seq<Piece>,
    turned: Seq<Pose>,
    n: nat,
) -> Seq<TrackView>
    decreases n,
{
    if n == 0 {
        tracks
    } else {
        let p = pieces[n - 1];
        pieced(
            path_tracks(tracks, name, from, pieces, turned, (n - 1) as nat),
            name,
            path_pose(from, pieces, turned, (n - 1) as nat),
            p.t0,
            p.t1,
            p.motion,
        )
    }
}

fn follow_path(spans: &mut Vec<TrackSpan>, from: Pose, pieces: &Vec<Piece>, turned: &Vec<Pose>) -> (r:
    Pose)
    requires
        turned@.len() == pieces@.len(),
    ensures
        r == path_pose(from, pieces@, turned@, pieces@.len()),
        final(spans)@ == path_spans(old(spans)@, from, pieces@, turned@, pieces@.len()),
{
    let ghost before = spans@;
    let mut pose: Pose = from;
    let mut n: usize = 0;
    while n < pieces.len()
        invariant
            n <= pieces.len(),
            turned@.len() == pieces@.len(),
            pose == path_pose(from, pieces@, turned@, n as nat),
            spans@ == path_spans(before, from, pieces@, turned@, n as nat),
        decreases pieces.len() - n,
    {
        let p: &Piece = &pieces[n];
        push_vehicle_span(spans, pose, p.t0, p.t1, &p.motion);
        pose = apply_piece(pose, &p.motion, minus(p.t1, p.t0), turned[n]);
        n = n + 1;
    }
    pose
}

fn ride_path(
    tracks: &mut Tracks,
    name: &str,
    from: Pose,
    pieces: &Vec<Piece>,
    turned: &Vec<Pose>,
) -> (r: Pose)
    requires
        turned@.len() == pieces@.len(),
    ensures
        r == path_pose(from, pieces@, turned@, pieces@.len()),
        final(tracks)@ == path_tracks(old(tracks)@, name@, from, pieces@, turned@, pieces@.len()),
{
    let ghost before = tracks@;
    let mut pose: Pose = from;
    let mut n: usize = 0;
    while n < pieces.len()
        invariant
            n <= pieces.len(),
            turned@.len() == pieces@.len(),
            pose == path_pose(from, pieces@, turned@, n as nat),
            tracks@ == path_tracks(before, name@, from, pieces@, turned@, n as nat),
        decreases pieces.len() - n,
    {
        let p: &Piece = &pieces[n];
        tracks.extend_vehicle_span(name, pose, p.t0, p.t1, &p.motion);
        pose = apply_piece(pose, &p.motion, minus(p.t1, p.t0), turned[n]);
        n = n + 1;
    }
    pose
}

/// What the geometry says of a vehicle's deck at the start of its move.
#[derive(Debug)]
pub struct DeckReply {
    /// Each body's origin in the frame of the deck.
    pub points: Vec<Vec3>,
    /// Where each body is in the frame of the link that carries the load,
    /// where a machine walks the vehicle.
    pub offsets: Vec<Pose>,
}

/// Stretches the open span of `name` to `t`, where it follows a link.
pub open spec fn still_following(tracks: Seq<TrackView>, name: Seq<char>, t: Pico) -> Seq<TrackView> {
    match find(track_names(tracks), name) {
        Some(i) => if tracks[i].spans.len() > 0 && tracks[i].spans.last() is Follow {
            respanned(
                tracks,
                i,
                tracks[i].spans.update(
                    tracks[i].spans.len() - 1,
                    tracks[i].spans.last().until(t),
                ),
            )
        } else {
            tracks
        },
        None => tracks,
    }
}

/// A machine's load and the tracks, as it is bound to the machine's body.
#[verifier::ext_equal]
pub struct Load {
    pub carried: Seq<(String, Pose)>,
    pub tracks: Seq<TrackView>,
}

/// The first `n` of a deck's riders bound to the machine's body: one that was
/// carried already keeps its offset, a new one takes the offset it rests at
/// and follows the body's link from here.
pub open spec fn bound(
    before: Load,
    riders: Seq<String>,
    obstacles: Seq<Obstacle>,
    offsets: Seq<Pose>,
    robot: usize,
    link: usize,
    t: Pico,
    n: nat,
) -> Load
    decreases n,
{
    if n == 0 {
        Load { carried: Seq::empty(), tracks: before.tracks }
    } else {
        let less = bound(before, riders, obstacles, offsets, robot, link, t, (n - 1) as nat);
        let name = riders[n - 1];
        match find(names_of(before.carried), name@) {
            Some(i) => Load {
                carried: less.carried.push((name, before.carried[i].1)),
                tracks: still_following(less.tracks, name@, t),
            },
            None => match body_index(obstacles, name@) {
                None => less,
                Some(k) => Load {
                    carried: less.carried.push((name, offsets[k])),
                    tracks: jumped(
                        less.tracks,
                        name@,
                        obstacles[k].pose,
                        t,
                        TrackSpan::Follow { t0: t, t1: t, robot, link, offset: offsets[k] },
                    ),
                },
            },
        }
    }
}

impl RolloutView {
    /// The walking robot that a vehicle carries, from robot `from` on: the
    /// machine whose body is that vehicle's deck.
    pub open spec fn walker_on(self, device: Seq<char>, from: int) -> Option<int>
        decreases self.robots.len() - from,
    {
        if from < 0 || from >= self.robots.len() {
            None
        } else if self.walks(from, device) {
            Some(from)
        } else {
            self.walker_on(device, from + 1)
        }
    }

    /// The name of the vehicle that moves.
    pub open spec fn mover(self, m: MoveView) -> String {
        self.devices[m.device as int].name
    }

    /// The body of the vehicle that moves.
    pub open spec fn mover_body(self, m: MoveView) -> Seq<String> {
        (self.devices[m.device as int].state->Vehicle_0).body
    }

    /// What rides the deck of the vehicle that moves, among the first `n`
    /// bodies: not its own body, not held, not moved by another device.
    pub open spec fn riders(
        self,
        m: MoveView,
        advected: Seq<String>,
        aboard: Seq<bool>,
        n: nat,
    ) -> Seq<String>
        decreases n,
    {
        if n == 0 || (self.devices[m.device as int].state->Vehicle_0).tray is None {
            Seq::empty()
        } else {
            let less = self.riders(m, advected, aboard, (n - 1) as nat);
            let name = self.obstacles[n - 1].name;
            if !holds_name(self.mover_body(m), name@) && !is_held(self.attachments, name@)
                && !holds_name(advected, name@) && aboard[n - 1] {
                less.push(name)
            } else {
                less
            }
        }
    }

    /// The load of one vehicle bound to the body of the machine that walks
    /// it, where one does.
    pub open spec fn load_bound(self, m: MoveView, riders: Seq<String>, offsets: Seq<Pose>) -> RolloutView {
        match self.walker_on(self.mover(m)@, 0) {
            None => self,
            Some(r) => {
                let g = self.robots[r].gait->0;
                let load = bound(
                    Load { carried: g.carried, tracks: self.objects },
                    riders,
                    self.obstacles,
                    offsets,
                    r as usize,
                    self.gait_of(r).body,
                    self.t,
                    riders.len(),
                );
                RolloutView {
                    objects: load.tracks,
                    ..self.with_robot(
                        r,
                        RobotView {
                            gait: Some(GaitView { carried: load.carried, ..g }),
                            ..self.robots[r]
                        },
                    )
                }
            },
        }
    }

    /// The size of the deck of the vehicle that moves, where it has one.
    pub open spec fn deck_of(self, m: MoveView) -> Option<Vec3> {
        match (self.devices[m.device as int].state->Vehicle_0).tray {
            Some((_, size)) => Some(size),
            None => None,
        }
    }

    /// Which bodies have their origin on the deck of the vehicle that moves.
    pub open spec fn on_deck(self, m: MoveView, reply: DeckReply) -> Seq<bool> {
        zone_marks(reply.points@, self.deck_of(m))
    }

    /// The riders of every move.
    pub open spec fn all_riders(
        self,
        moves: Seq<MoveView>,
        advected: Seq<String>,
        replies: Seq<DeckReply>,
    ) -> Seq<Seq<String>> {
        Seq::new(
            moves.len(),
            |i: int|
                self.riders(
                    moves[i],
                    advected,
                    self.on_deck(moves[i], replies[i]),
                    self.obstacles.len(),
                ),
        )
    }

    /// The world once the loads of the first `n` moves are bound.
    pub open spec fn boarded(
        self,
        moves: Seq<MoveView>,
        advected: Seq<String>,
        replies: Seq<DeckReply>,
        n: nat,
    ) -> RolloutView
        decreases n,
    {
        if n == 0 {
            self
        } else {
            let riders = self.riders(
                moves[n - 1],
                advected,
                self.on_deck(moves[n - 1], replies[n - 1]),
                self.obstacles.len(),
            );
            self.boarded(moves, advected, replies, (n - 1) as nat).load_bound(
                moves[n - 1],
                riders,
                replies[n - 1].offsets@,
            )
        }
    }

    /// There is a reply of the right size for every move.
    pub open spec fn decks_answered(self, moves: Seq<MoveView>, replies: Seq<DeckReply>) -> bool {
        replies.len() == moves.len() && forall|i: int|
            0 <= i < replies.len() ==> (#[trigger] replies[i]).points@.len() == self.obstacles.len()
                && replies[i].offsets@.len() == self.obstacles.len()
    }
}

impl Tracks {
    fn keep_following(&mut self, name: &str, t: Pico)
        ensures
            final(self)@ == still_following(old(self)@, name@, t),
    {
        let ghost before = self@;
        match self.find(name) {
            Some(i) => {
                assert(self@[i as int] == self.list@[i as int]@);
                let n: usize = self.list[i].spans.len();
                if n > 0 {
                    let mut last: TrackSpan = self.list[i].spans[n - 1];
                    let follows: bool = match last {
                        TrackSpan::Follow { .. } => true,
                        _ => false,
                    };
                    if follows {
                        *last.end_mut() = t;
                        self.list[i].spans.set(n - 1, last);
                        assert(self@ =~= still_following(before, name@, t));
                    }
                }
            },
            None => {},
        }
    }
}

impl<'a> Rollout<'a> {
    /// The walking robot that a vehicle carries.
    pub fn walker_on(&self, device: &str) -> (r: Option<usize>)
        requires
            self.scene.robots@.len() == self.robots@.len(),
        ensures
            match (r, self@.walker_on(device@, 0)) {
                (Some(k), Some(w)) => k == w && k < self.robots@.len() && self@.walks(w, device@),
                (None, None) => true,
                _ => false,
            },
    {
        let mut k: usize = 0;
        while k < self.robots.len()
            invariant
                k <= self.robots.len(),
                self.scene.robots@.len() == self.robots@.len(),
                self@.walker_on(device@, 0) == self@.walker_on(device@, k as int),
            decreases self.robots.len() - k,
        {
            assert(self@.robots[k as int] == self.robots@[k as int]@);
            if self.robots[k].gait.is_some() && self.rides(k, device) {
                return Some(k);
            }
            k = k + 1;
        }
        None
    }

    pub(crate) fn mover_body(&self, device: usize) -> (r: Vec<String>)
        requires
            device < self.devices@.len(),
            self@.devices[device as int].state is Vehicle,
        ensures
            r@ == (self@.devices[device as int].state->Vehicle_0).body,
    {
        assert(self@.devices[device as int] == self.devices@[device as int]@);
        match &self.devices[device].state {
            DeviceRuntime::Vehicle(v) => copied_names(&v.body),
            _ => Vec::new(),
        }
    }

    fn deck_size(&self, device: usize) -> (r: Option<Vec3>)
        requires
            device < self.devices@.len(),
            self@.devices[device as int].state is Vehicle,
        ensures
            r == (match (self@.devices[device as int].state->Vehicle_0).tray {
                Some((_, size)) => Some(size),
                None => None,
            }),
    {
        assert(self@.devices[device as int] == self.devices@[device as int]@);
        match &self.devices[device].state {
            DeviceRuntime::Vehicle(v) => match v.tray {
                Some((_, size)) => Some(size),
                None => None,
            },
            _ => None,
        }
    }

    fn has_deck(&self, device: usize) -> (r: bool)
        requires
            device < self.devices@.len(),
            self@.devices[device as int].state is Vehicle,
        ensures
            r == ((self@.devices[device as int].state->Vehicle_0).tray is Some),
    {
        assert(self@.devices[device as int] == self.devices@[device as int]@);
        match &self.devices[device].state {
            DeviceRuntime::Vehicle(v) => v.tray.is_some(),
            _ => false,
        }
    }

    /// What rides the deck of a vehicle that moves.
    pub fn riders(&self, mv: &VehicleMove, advected: &Vec<String>, aboard: &Vec<bool>) -> (r: Vec<
        String,
    >)
        requires
            mv.device < self.devices@.len(),
            self@.devices[mv.device as int].state is Vehicle,
            aboard@.len() == self.obstacles@.len(),
        ensures
            r@ == self@.riders(mv@, advected@, aboard@, self.obstacles@.len()),
    {
        let mut out: Vec<String> = Vec::new();
        if !self.has_deck(mv.device) {
            return out;
        }
        let body: Vec<String> = self.mover_body(mv.device);
        let mut n: usize = 0;
        while n < self.obstacles.len()
            invariant
                n <= self.obstacles.len(),
                aboard@.len() == self.obstacles@.len(),
                (self@.devices[mv.device as int].state->Vehicle_0).tray is Some,
                body@ == self@.mover_body(mv@),
                out@ == self@.riders(mv@, advected@, aboard@, n as nat),
            decreases self.obstacles.len() - n,
        {
            let name: &str = self.obstacles[n].name.as_str();
            if !contains_name(&body, name) && !held(&self.attachments, name) && !contains_name(
                advected,
                name,
            ) && aboard[n] {
                out.push(self.obstacles[n].name.clone());
            }
            n = n + 1;
        }
        out
    }

    /// Binds this tick's deck load to the machine's body. One that has left
    /// the deck is simply dropped.
    fn carry_on_body(&mut self, mv: &VehicleMove, riders: &Vec<String>, offsets: &Vec<Pose>)
        requires
            old(self)@.sound(),
            mv.device < old(self).devices@.len(),
            offsets@.len() == old(self).obstacles@.len(),
        ensures
            final(self)@ == old(self)@.load_bound(mv@, riders@, offsets@),
            final(self)@.sound(),
            final(self)@ == (RolloutView {
                robots: final(self)@.robots,
                objects: final(self)@.objects,
                ..old(self)@
            }),
    {
        let ghost v = self@;
        assert(self@.devices[mv.device as int] == self.devices@[mv.device as int]@);
        let r: usize = match self.walker_on(self.devices[mv.device].name.as_str()) {
            Some(r) => r,
            None => {
                return;
            },
        };
        let ghost rt = v.robots[r as int];
        assert(rt == self.robots@[r as int]@);
        let link: usize = match &self.scene.robots[r].mount {
            Some(m) => match &m.gait {
                Some(g) => g.body,
                None => 0,
            },
            None => 0,
        };
        assert(link == v.gait_of(r as int).body);
        let t: Pico = self.t;
        let ghost g = rt.gait->0;
        let ghost before = Load { carried: g.carried, tracks: v.objects };
        let mut carried: Vec<(String, Pose)> = Vec::new();
        match &self.robots[r].gait {
            Some(gait) => {
                let mut n: usize = 0;
                while n < riders.len()
                    invariant
                        n <= riders.len(),
                        offsets@.len() == self.obstacles@.len(),
                        gait@ == g,
                        before.carried == g.carried,
                        self.obstacles@ == v.obstacles,
                        t == v.t,
                        self@ == (RolloutView { objects: self@.objects, ..v }),
                        self.robots@ == old(self).robots@,
                        v == old(self)@,
                        self.scene == old(self).scene,
                        (Load { carried: carried@, tracks: self@.objects }) == bound(
                            before,
                            riders@,
                            v.obstacles,
                            offsets@,
                            r,
                            link,
                            t,
                            n as nat,
                        ),
                    decreases riders.len() - n,
                {
                    let name: &str = riders[n].as_str();
                    match find_named(&gait.carried, name) {
                        Some(i) => {
                            carried.push((riders[n].clone(), gait.carried[i].1));
                            self.objects.keep_following(name, t);
                        },
                        None => {
                            match find_body(&self.obstacles, name) {
                                Some(k) => {
                                    let offset: Pose = offsets[k];
                                    carried.push((riders[n].clone(), offset));
                                    let pose: Pose = self.obstacles[k].pose;
                                    self.objects.jump(
                                        name,
                                        pose,
                                        t,
                                        TrackSpan::Follow { t0: t, t1: t, robot: r, link, offset },
                                    );
                                },
                                None => {},
                            }
                        },
                    }
                    assert(self@ =~= (RolloutView { objects: self@.objects, ..v }));
                    n = n + 1;
                }
            },
            None => {},
        }
        match &mut self.robots[r].gait {
            Some(gait) => {
                gait.carried = carried;
            },
            None => {},
        }
        proof {
            let want = v.load_bound(mv@, riders@, offsets@);
            assert(self.robots@[r as int]@ =~= want.robots[r as int]);
            assert(self@.robots =~= want.robots);
            assert(self@ =~= want);
            lemma_same_robots(v);
            lemma_kept_sound(v, self@);
        }
    }

    /// Finds what rides each vehicle that moves, and binds the load of a
    /// machine that walks to its body.
    pub fn board(
        &mut self,
        moves: &Vec<VehicleMove>,
        advected: &Vec<String>,
        replies: &Vec<DeckReply>,
    ) -> (out: Vec<Vec<String>>)
        requires
            old(self)@.sound(),
            of_vehicles(views(moves@), old(self)@.devices),
            old(self)@.decks_answered(views(moves@), replies@),
        ensures
            views(out@) == old(self)@.all_riders(views(moves@), advected@, replies@),
            final(self)@ == old(self)@.boarded(
                views(moves@),
                advected@,
                replies@,
                moves@.len(),
            ),
            final(self)@.sound(),
            final(self)@ == (RolloutView {
                robots: final(self)@.robots,
                objects: final(self)@.objects,
                ..old(self)@
            }),
    {
        let ghost v = self@;
        let ghost all = views(moves@);
        let mut out: Vec<Vec<String>> = Vec::new();
        let mut n: usize = 0;
        while n < moves.len()
            invariant
                n <= moves.len(),
                all == views(moves@),
                v.decks_answered(all, replies@),
                of_vehicles(all, v.devices),
                self@.sound(),
                self@ == (RolloutView { robots: self@.robots, objects: self@.objects, ..v }),
                self@ == v.boarded(all, advected@, replies@, n as nat),
                views(out@) == v.all_riders(all, advected@, replies@).take(n as int),
            decreases moves.len() - n,
        {
            let mv: &VehicleMove = &moves[n];
            assert(all[n as int] == mv@);
            assert(v.devices[all[n as int].device as int].state is Vehicle);
            assert(replies@[n as int].points@.len() == v.obstacles.len());
            let aboard: Vec<bool> = mark_zone(&replies[n].points, self.deck_size(mv.device));
            assert(aboard@ == v.on_deck(mv@, replies@[n as int]));
            let riders: Vec<String> = self.riders(mv, advected, &aboard);
            proof {
                lemma_riders_alike(
                    v,
                    self@,
                    mv@,
                    advected@,
                    aboard@,
                    v.obstacles.len(),
                );
            }
            self.carry_on_body(mv, &riders, &replies[n].offsets);
            let ghost before = views(out@);
            let ghost seen = riders@;
            out.push(riders);
            assert(views(out@) =~= before.push(seen));
            n = n + 1;
            assert(views(out@) =~= v.all_riders(all, advected@, replies@).take(n as int));
        }
        assert(views(out@) =~= v.all_riders(all, advected@, replies@));
        out
    }
}

/// Who rides depends on the bodies, the devices and what is held alone.
proof fn lemma_riders_alike(
    v: RolloutView,
    w: RolloutView,
    m: MoveView,
    advected: Seq<String>,
    aboard: Seq<bool>,
    n: nat,
)
    requires
        w.devices == v.devices,
        w.obstacles == v.obstacles,
        w.attachments == v.attachments,
    ensures
        w.riders(m, advected, aboard, n) == v.riders(m, advected, aboard, n),
    decreases n,
{
    if n > 0 {
        lemma_riders_alike(v, w, m, advected, aboard, (n - 1) as nat);
    }
}

/// What the geometry says of a vehicle's move: where pivots turn things to.
#[derive(Debug)]
pub struct CarryReply {
    /// How the vehicle's frame is turned at the start of its move; where it
    /// stands the move itself says.
    pub frame: Pose,
    /// What each piece, where it is a pivot, turns the frame to.
    pub frame_turned: Vec<Pose>,
    /// What each piece turns each member to: body first, riders after.
    pub members_turned: Vec<Vec<Pose>>,
    /// Each walking robot's base as the vehicle carries it, without what the
    /// walk composes onto it.
    pub bases: Vec<Pose>,
    /// What each piece turns each robot's base to.
    pub bases_turned: Vec<Vec<Pose>>,
    /// Each walking robot's base after the move, with what the walk composes
    /// onto it.
    pub bases_after: Vec<Pose>,
}

impl MoveView {
    /// The vehicle's frame at the start of the move, turned as `facing` is.
    pub open spec fn start(self, facing: Pose) -> Pose {
        Pose { at: self.position, ..facing }
    }
}

impl RolloutView {
    /// The vehicle's own frame is a track too: arrival closes it with a rest.
    pub open spec fn frame_carried(self, m: MoveView, reply: CarryReply) -> RolloutView {
        let name = self.mover(m)@;
        let start = m.start(reply.frame);
        let since = if m.pieces.len() > 0 {
            m.pieces[0].t0
        } else {
            0
        };
        let end = if m.pieces.len() > 0 {
            m.pieces.last().t1
        } else {
            since
        };
        let ready = opened(self.vehicles, name, start, since);
        let i = open_index(self.vehicles, name);
        let spans = path_spans(
            ready[i].spans,
            start,
            m.pieces,
            reply.frame_turned@,
            m.pieces.len(),
        );
        RolloutView {
            vehicles: respanned(
                ready,
                i,
                if m.parked {
                    spans.push(
                        TrackSpan::Hold {
                            t0: end,
                            t1: end,
                            pose: path_pose(
                                start,
                                m.pieces,
                                reply.frame_turned@,
                                m.pieces.len(),
                            ),
                        },
                    )
                } else {
                    spans
                },
            ),
            ..self
        }
    }

    /// What the body of the machine that walks the vehicle carries.
    pub open spec fn on_body(self, m: MoveView) -> Seq<(String, Pose)> {
        match self.walker_on(self.mover(m)@, 0) {
            Some(r) => (self.robots[r].gait->0).carried,
            None => Seq::empty(),
        }
    }

    /// One member of what a vehicle carries makes the vehicle's motion; not
    /// one that a machine's body carries, that a robot holds, or that is no
    /// body.
    pub open spec fn member_carried(self, m: MoveView, name: Seq<char>, turned: Seq<Pose>) -> RolloutView {
        match body_index(self.obstacles, name) {
            None => self,
            Some(k) => if find(names_of(self.on_body(m)), name) is Some || is_held(
                self.attachments,
                name,
            ) {
                self
            } else {
                RolloutView {
                    obstacles: posed(
                        self.obstacles,
                        k,
                        path_pose(self.obstacles[k].pose, m.pieces, turned, m.pieces.len()),
                    ),
                    objects: path_tracks(
                        self.objects,
                        name,
                        self.obstacles[k].pose,
                        m.pieces,
                        turned,
                        m.pieces.len(),
                    ),
                    ..self
                }
            },
        }
    }

    /// The first `n` members of what a vehicle carries make its motion.
    pub open spec fn members_carried(
        self,
        m: MoveView,
        members: Seq<String>,
        turned: Seq<Seq<Pose>>,
        n: nat,
    ) -> RolloutView
        decreases n,
    {
        if n == 0 {
            self
        } else {
            self.members_carried(m, members, turned, (n - 1) as nat).member_carried(
                m,
                members[n - 1]@,
                turned[n - 1],
            )
        }
    }

    /// Where the rigid ride of robot `r` starts: where its base is, or, of one
    /// that walks, where the base is without what the walk composes onto it.
    pub open spec fn ride_start(self, r: int, reply: CarryReply) -> Pose {
        if self.robots[r].gait is Some {
            reply.bases@[r]
        } else {
            self.bases[r]
        }
    }

    /// Where the base of robot `r` is after a move of the vehicle that it rides:
    /// it has made the same pieces as the vehicle's body. Onto the base of one
    /// that walks, the walk is composed.
    pub open spec fn ride_end(self, m: MoveView, r: int, reply: CarryReply) -> Pose {
        if self.robots[r].gait is Some {
            reply.bases_after@[r]
        } else {
            path_pose(self.bases[r], m.pieces, reply.bases_turned@[r]@, m.pieces.len())
        }
    }

    /// One robot, where it rides the vehicle, makes its motion.
    pub open spec fn robot_carried(self, m: MoveView, r: int, reply: CarryReply) -> RolloutView {
        if self.rides(r, self.mover(m)@) {
            let rt = self.robots[r];
            RolloutView {
                bases: self.bases.update(r, self.ride_end(m, r, reply)),
                ..self.with_robot(
                    r,
                    RobotView {
                        base: match rt.base {
                            Some(spans) => Some(
                                path_spans(
                                    spans,
                                    self.ride_start(r, reply),
                                    m.pieces,
                                    reply.bases_turned@[r]@,
                                    m.pieces.len(),
                                ),
                            ),
                            None => None,
                        },
                        ..rt
                    },
                )
            }
        } else {
            self
        }
    }

    /// The first `n` robots, those that ride the vehicle, make its motion.
    pub open spec fn robots_carried(self, m: MoveView, reply: CarryReply, n: nat) -> RolloutView
        decreases n,
    {
        if n == 0 {
            self
        } else {
            self.robots_carried(m, reply, (n - 1) as nat).robot_carried(m, n - 1, reply)
        }
    }

    /// The world after one vehicle's move: its frame, its body and its load,
    /// and the robots that ride it.
    pub open spec fn carried(self, m: MoveView, riders: Seq<String>, reply: CarryReply) -> RolloutView {
        let members = self.mover_body(m) + riders;
        self.frame_carried(m, reply).members_carried(
            m,
            members,
            views(reply.members_turned@),
            members.len(),
        ).robots_carried(m, reply, self.robots.len())
    }

    /// A reply that says enough of a move.
    pub open spec fn carry_answered(self, m: MoveView, riders: Seq<String>, reply: CarryReply) -> bool {
        &&& reply.frame_turned@.len() == m.pieces.len()
        &&& reply.members_turned@.len() == self.mover_body(m).len() + riders.len()
        &&& forall|i: int|
            0 <= i < reply.members_turned@.len() ==> (#[trigger] reply.members_turned@[i])@.len()
                == m.pieces.len()
        &&& reply.bases@.len() == self.robots.len()
        &&& reply.bases_turned@.len() == self.robots.len()
        &&& forall|r: int|
            0 <= r < reply.bases_turned@.len() ==> (#[trigger] reply.bases_turned@[r])@.len()
                == m.pieces.len()
        &&& reply.bases_after@.len() == self.robots.len()
    }
}

impl<'a> Rollout<'a> {
    fn carry_frame(&mut self, mv: &VehicleMove, reply: &CarryReply)
        requires
            mv.device < old(self).devices@.len(),
            reply.frame_turned@.len() == mv.pieces@.len(),
        ensures
            final(self)@ == old(self)@.frame_carried(mv@, *reply),
            final(self)@ == (RolloutView { vehicles: final(self)@.vehicles, ..old(self)@ }),
    {
        let ghost v = self@;
        assert(v.devices[mv.device as int] == self.devices@[mv.device as int]@);
        let n: usize = mv.pieces.len();
        let since: Pico = if n > 0 {
            mv.pieces[0].t0
        } else {
            0
        };
        let end: Pico = if n > 0 {
            mv.pieces[n - 1].t1
        } else {
            since
        };
        let start: Pose = Pose { at: mv.position, ..reply.frame };
        let i: usize = self.vehicles.track_at(
            self.devices[mv.device].name.as_str(),
            start,
            since,
        );
        let ghost ready = self.vehicles@;
        assert(ready[i as int] == self.vehicles.list@[i as int]@);
        let mut spans: Vec<TrackSpan> = copied(&self.vehicles.list[i].spans);
        let pose: Pose = follow_path(&mut spans, start, &mv.pieces, &reply.frame_turned);
        if mv.parked {
            spans.push(TrackSpan::Hold { t0: end, t1: end, pose });
        }
        let ghost after = spans@;
        self.vehicles.list[i].spans = spans;
        assert(self.vehicles@ =~= respanned(ready, i as int, after));
        assert(self@ =~= v.frame_carried(mv@, *reply));
    }

    fn is_on_body(&self, mv: &VehicleMove, name: &str) -> (b: bool)
        requires
            self@.sound(),
            mv.device < self.devices@.len(),
        ensures
            b == (find(names_of(self@.on_body(mv@)), name@) is Some),
    {
        assert(self@.devices[mv.device as int] == self.devices@[mv.device as int]@);
        match self.walker_on(self.devices[mv.device].name.as_str()) {
            Some(r) => {
                assert(self@.robots[r as int] == self.robots@[r as int]@);
                match &self.robots[r].gait {
                    Some(g) => find_named(&g.carried, name).is_some(),
                    None => false,
                }
            },
            None => false,
        }
    }

    fn carry_member(&mut self, mv: &VehicleMove, name: &str, turned: &Vec<Pose>)
        requires
            old(self)@.sound(),
            mv.device < old(self).devices@.len(),
            turned@.len() == mv.pieces@.len(),
        ensures
            final(self)@ == old(self)@.member_carried(mv@, name@, turned@),
            final(self)@.sound(),
            final(self)@ == (RolloutView {
                obstacles: final(self)@.obstacles,
                objects: final(self)@.objects,
                ..old(self)@
            }),
    {
        let ghost v = self@;
        if self.is_on_body(mv, name) {
            return;
        }
        if held(&self.attachments, name) {
            return;
        }
        match find_body(&self.obstacles, name) {
            Some(k) => {
                let from: Pose = self.obstacles[k].pose;
                let pose: Pose = ride_path(&mut self.objects, name, from, &mv.pieces, turned);
                proof {
                    lemma_posed_names(v.obstacles, k as int, pose);
                }
                set_obstacle_pose(&mut self.obstacles, k, pose);
            },
            None => {
                return;
            },
        }
        proof {
            assert(self@ =~= v.member_carried(mv@, name@, turned@));
            lemma_same_robots(v);
            lemma_kept_sound(v, self@);
        }
    }

    fn carry_robot(&mut self, mv: &VehicleMove, r: usize, reply: &CarryReply)
        requires
            old(self)@.sound(),
            mv.device < old(self).devices@.len(),
            r < old(self).robots@.len(),
            reply.bases@.len() == old(self).robots@.len(),
            reply.bases_turned@.len() == old(self).robots@.len(),
            reply.bases_turned@[r as int]@.len() == mv.pieces@.len(),
            reply.bases_after@.len() == old(self).robots@.len(),
        ensures
            final(self)@ == old(self)@.robot_carried(mv@, r as int, *reply),
            final(self)@.sound(),
            final(self)@ == (RolloutView {
                bases: final(self)@.bases,
                robots: final(self)@.robots,
                ..old(self)@
            }),
            final(self)@.robots.len() == old(self)@.robots.len(),
    {
        let ghost v = self@;
        assert(v.devices[mv.device as int] == self.devices@[mv.device as int]@);
        assert(v.robots[r as int] == self.robots@[r as int]@);
        if !self.rides(r, self.devices[mv.device].name.as_str()) {
            return;
        }
        let walks: bool = self.robots[r].gait.is_some();
        let start: Pose = if walks {
            reply.bases[r]
        } else {
            self.bases[r]
        };
        let mut untraced: Vec<TrackSpan> = Vec::new();
        let end: Pose = match &mut self.robots[r].base {
            Some(spans) => follow_path(spans, start, &mv.pieces, &reply.bases_turned[r]),
            None => follow_path(&mut untraced, start, &mv.pieces, &reply.bases_turned[r]),
        };
        self.bases.set(
            r,
            if walks {
                reply.bases_after[r]
            } else {
                end
            },
        );
        proof {
            let want = v.robot_carried(mv@, r as int, *reply);
            assert(self.robots@[r as int]@ =~= want.robots[r as int]);
            assert(self@.robots =~= want.robots);
            assert(self@ =~= want);
            lemma_same_robots(v);
            lemma_kept_sound(v, self@);
        }
    }

    /// One vehicle's move: its frame, its body and its load, and the robots
    /// that ride it, all by the same pieces, so that they stay exactly rigid
    /// with each other.
    pub fn carry(&mut self, mv: &VehicleMove, riders: &Vec<String>, reply: &CarryReply)
        requires
            old(self)@.sound(),
            mv.device < old(self).devices@.len(),
            old(self)@.devices[mv.device as int].state is Vehicle,
            old(self)@.carry_answered(mv@, riders@, *reply),
        ensures
            final(self)@ == old(self)@.carried(mv@, riders@, *reply),
            final(self)@.sound(),
            final(self)@.devices == old(self)@.devices,
            final(self)@.obstacles.len() == old(self)@.obstacles.len(),
            final(self)@.robots.len() == old(self)@.robots.len(),
    {
        let ghost v = self@;
        let ghost all = views(reply.members_turned@);
        let mut members: Vec<String> = self.mover_body(mv.device);
        let mut more: Vec<String> = copied_names(riders);
        members.append(&mut more);
        assert(members@ == v.mover_body(mv@) + riders@);
        self.carry_frame(mv, reply);
        let ghost framed = self@;
        proof {
            lemma_same_robots(v);
            lemma_kept_sound(v, self@);
        }
        let mut n: usize = 0;
        while n < members.len()
            invariant
                n <= members.len(),
                self@.sound(),
                mv.device < self.devices@.len(),
                self@ == (RolloutView {
                    obstacles: self@.obstacles,
                    objects: self@.objects,
                    ..framed
                }),
                all == views(reply.members_turned@),
                reply.members_turned@.len() == members@.len(),
                forall|i: int|
                    0 <= i < reply.members_turned@.len() ==> (
                    #[trigger] reply.members_turned@[i])@.len() == mv.pieces@.len(),
                self@ == framed.members_carried(mv@, members@, all, n as nat),
            decreases members.len() - n,
        {
            assert(all[n as int] == reply.members_turned@[n as int]@);
            self.carry_member(mv, members[n].as_str(), &reply.members_turned[n]);
            n = n + 1;
        }
        let ghost loaded = self@;
        let count: usize = self.robots.len();
        let mut r: usize = 0;
        while r < count
            invariant
                r <= count,
                count == self.robots@.len(),
                count == v.robots.len(),
                self@.sound(),
                mv.device < self.devices@.len(),
                v.carry_answered(mv@, riders@, *reply),
                self@ == (RolloutView { bases: self@.bases, robots: self@.robots, ..loaded }),
                self@ == loaded.robots_carried(mv@, *reply, r as nat),
            decreases count - r,
        {
            assert(reply.bases_turned@[r as int]@.len() == mv.pieces@.len());
            self.carry_robot(mv, r, reply);
            r = r + 1;
        }
    }
}

/// The bodies with the first `n` of a machine's load where its body puts them.
pub open spec fn load_placed(
    obstacles: Seq<Obstacle>,
    carried: Seq<(String, Pose)>,
    poses: Seq<Pose>,
    n: nat,
) -> Seq<Obstacle>
    decreases n,
{
    if n == 0 {
        obstacles
    } else {
        let less = load_placed(obstacles, carried, poses, (n - 1) as nat);
        match body_index(less, carried[n - 1].0@) {
            Some(k) => posed(less, k, poses[n - 1]),
            None => less,
        }
    }
}

impl RolloutView {
    /// What the machine carries, put where its body now is.
    pub open spec fn placed(self, r: int, poses: Seq<Pose>) -> RolloutView {
        match self.robots[r].gait {
            Some(g) => RolloutView {
                obstacles: load_placed(self.obstacles, g.carried, poses, g.carried.len()),
                ..self
            },
            None => self,
        }
    }

    /// How much robot `r` carries on its body.
    pub open spec fn load_of(self, r: int) -> nat {
        match self.robots[r].gait {
            Some(g) => g.carried.len(),
            None => 0,
        }
    }
}

impl<'a> Rollout<'a> {
    /// Puts what the machine carries where its body now is. The load is rigid
    /// with the body, not with the route.
    pub fn place_carried(&mut self, r: usize, poses: &Vec<Pose>)
        requires
            old(self)@.sound(),
            r < old(self).robots@.len(),
            poses@.len() == old(self)@.load_of(r as int),
        ensures
            final(self)@ == old(self)@.placed(r as int, poses@),
            final(self)@.sound(),
            final(self)@ == (RolloutView { obstacles: final(self)@.obstacles, ..old(self)@ }),
    {
        let ghost v = self@;
        assert(v.robots[r as int] == self.robots@[r as int]@);
        match &self.robots[r].gait {
            Some(g) => {
                let mut n: usize = 0;
                while n < g.carried.len()
                    invariant
                        n <= g.carried.len(),
                        poses@.len() == g.carried@.len(),
                        v == old(self)@,
                        same_bodies(v.obstacles, self.obstacles@),
                        self@ == (RolloutView { obstacles: self@.obstacles, ..v }),
                        self.robots@ == old(self).robots@,
                        self.obstacles@ == load_placed(
                            v.obstacles,
                            g.carried@,
                            poses@,
                            n as nat,
                        ),
                    decreases g.carried.len() - n,
                {
                    match find_body(&self.obstacles, g.carried[n].0.as_str()) {
                        Some(k) => {
                            proof {
                                lemma_posed_names(self.obstacles@, k as int, poses@[n as int]);
                            }
                            set_obstacle_pose(&mut self.obstacles, k, poses[n]);
                        },
                        None => {},
                    }
                    assert(self@ =~= (RolloutView { obstacles: self@.obstacles, ..v }));
                    n = n + 1;
                }
            },
            None => {},
        }
        proof {
            assert(self@ =~= v.placed(r as int, poses@));
            lemma_same_robots(v);
            lemma_kept_sound(v, self@);
        }
    }
}

/// The bodies with the first `n` held ones where the robots hold them.
pub open spec fn grips_placed(
    obstacles: Seq<Obstacle>,
    attachments: Seq<Attachment>,
    poses: Seq<Pose>,
    n: nat,
) -> Seq<Obstacle>
    decreases n,
{
    if n == 0 {
        obstacles
    } else {
        let less = grips_placed(obstacles, attachments, poses, (n - 1) as nat);
        match body_index(less, attachments[n - 1].object@) {
            Some(k) => posed(less, k, poses[n - 1]),
            None => less,
        }
    }
}

impl<'a> Rollout<'a> {
    /// Puts what robots hold where the robots now hold it.
    pub fn place_held(&mut self, poses: &Vec<Pose>)
        requires
            old(self)@.sound(),
            poses@.len() == old(self).attachments@.len(),
        ensures
            final(self)@ == (RolloutView {
                obstacles: grips_placed(
                    old(self)@.obstacles,
                    old(self)@.attachments,
                    poses@,
                    poses@.len(),
                ),
                ..old(self)@
            }),
            final(self)@.sound(),
    {
        let ghost v = self@;
        let mut n: usize = 0;
        while n < self.attachments.len()
            invariant
                n <= self.attachments@.len(),
                poses@.len() == self.attachments@.len(),
                same_bodies(v.obstacles, self.obstacles@),
                self@ == (RolloutView { obstacles: self@.obstacles, ..v }),
                self.obstacles@ == grips_placed(
                    v.obstacles,
                    v.attachments,
                    poses@,
                    n as nat,
                ),
            decreases self.attachments@.len() - n,
        {
            match find_body(&self.obstacles, self.attachments[n].object.as_str()) {
                Some(k) => {
                    proof {
                        lemma_posed_names(self.obstacles@, k as int, poses@[n as int]);
                    }
                    set_obstacle_pose(&mut self.obstacles, k, poses[n]);
                },
                None => {},
            }
            assert(self@ =~= (RolloutView { obstacles: self@.obstacles, ..v }));
            n = n + 1;
        }
        proof {
            lemma_same_robots(v);
            lemma_kept_sound(v, self@);
        }
    }
}

/// What rides a vehicle's deck is every body aboard that is none of its own, that no
/// robot holds and that no other device moves; a vehicle without a deck has no riders.
/// `k` is any body.
pub proof fn law_what_lies_on_a_deck_rides(
    v: RolloutView,
    m: MoveView,
    advected: Seq<String>,
    aboard: Seq<bool>,
    n: nat,
    k: int,
)
    requires
        n <= v.obstacles.len(),
        0 <= k < n,
    ensures
        ({
            let car = v.devices[m.device as int].state->Vehicle_0;
            let riders = v.riders(m, advected, aboard, n);
            let name = v.obstacles[k].name;
            &&& car.tray is None ==> riders.len() == 0
            &&& car.tray is Some && aboard[k] && !holds_name(car.body, name@) && !is_held(
                v.attachments,
                name@,
            ) && !holds_name(advected, name@) ==> riders.contains(name)
            &&& forall|i: int|
                0 <= i < riders.len() ==> !holds_name(car.body, (#[trigger] riders[i])@)
                    && !is_held(v.attachments, riders[i]@) && !holds_name(advected, riders[i]@)
        }),
    decreases n,
{
    let car = v.devices[m.device as int].state->Vehicle_0;
    let less = (n - 1) as nat;
    let before = v.riders(m, advected, aboard, less);
    let now = v.riders(m, advected, aboard, n);
    let name = v.obstacles[k].name;
    if less > 0 {
        law_what_lies_on_a_deck_rides(
            v,
            m,
            advected,
            aboard,
            less,
            if k < less {
                k
            } else {
                0
            },
        );
    }
    if car.tray is Some {
        if before.contains(name) {
            let i = choose|i: int| 0 <= i < before.len() && before[i] == name;
            assert(now[i] == name);
        }
        if now != before {
            assert(now[now.len() - 1] == v.obstacles[n - 1].name);
        }
        assert forall|i: int| 0 <= i < now.len() implies !holds_name(car.body, (#[trigger] now[i])@)
            && !is_held(v.attachments, now[i]@) && !holds_name(advected, now[i]@) by {
            if i < before.len() {
                assert(now[i] == before[i]);
            }
        }
    }
}

/// A body that makes a motion goes through its pieces one after the other: each straight
/// one takes it as far as its velocity does in its time, and each turn to where it turns
/// it.
pub proof fn law_a_body_goes_piece_by_piece(
    from: Pose,
    pieces: Seq<Piece>,
    turned: Seq<Pose>,
    n: nat,
)
    requires
        n < pieces.len(),
        i64::MIN <= pieces[n as int].t1 - pieces[n as int].t0 <= i64::MAX,
        pieces[n as int].motion matches crate::tracks::VehiclePiece::Lin { velocity }
            ==> crate::fixed::roomy(
            path_pose(from, pieces, turned, n).at,
            velocity,
            pieces[n as int].t1 - pieces[n as int].t0,
        ),
    ensures
        path_pose(from, pieces, turned, 0) == from,
        ({
            let before = path_pose(from, pieces, turned, n);
            let after = path_pose(from, pieces, turned, n + 1);
            match pieces[n as int].motion {
                crate::tracks::VehiclePiece::Lin { velocity } => crate::fixed::gets_to(
                    before.at,
                    after.at,
                    velocity,
                    pieces[n as int].t1 - pieces[n as int].t0,
                ) && after == (Pose { at: after.at, ..before }),
                crate::tracks::VehiclePiece::Piv { .. } => after == turned[n as int],
            }
        }),
{
    match pieces[n as int].motion {
        crate::tracks::VehiclePiece::Lin { velocity } => {
            crate::fixed::law_a_rate_takes_a_body_its_way(
                path_pose(from, pieces, turned, n),
                velocity,
                pieces[n as int].t1 - pieces[n as int].t0,
            );
        },
        _ => {},
    }
}

/// The machine that walks a vehicle is the first robot that is mounted on it and has a
/// gait.
pub proof fn law_a_walker_is_mounted_and_has_a_gait(
    v: RolloutView,
    device: Seq<char>,
    from: int,
    r: int,
)
    requires
        0 <= from,
    ensures
        from <= r < v.robots.len() && v.walks(r, device) && (forall|i: int|
            from <= i < r ==> !#[trigger] v.walks(i, device)) ==> v.walker_on(device, from)
            == Some(r),
        (forall|i: int| from <= i < v.robots.len() ==> !#[trigger] v.walks(i, device))
            ==> v.walker_on(device, from) is None,
        v.walks(r, device) <==> (v.scene.robots@[r].mount matches Some(m) && m.device@ == device)
            && v.robots[r].gait is Some,
    decreases v.robots.len() - from,
{
    if from < v.robots.len() {
        let here = v.walks(from, device);
        law_a_walker_is_mounted_and_has_a_gait(v, device, from + 1, r);
    }
}

/// A member of what a vehicle carries makes its motion, from where it is, unless a robot
/// holds it, a machine's body carries it, or it is no body; no other body moves. `k` is
/// the first body of its name.
pub proof fn law_a_member_makes_the_vehicles_motion(
    v: RolloutView,
    m: MoveView,
    name: Seq<char>,
    turned: Seq<Pose>,
    k: int,
)
    ensures
        (forall|j: int| 0 <= j < v.obstacles.len() ==> (#[trigger] v.obstacles[j]).name@ != name)
            ==> v.member_carried(m, name, turned) == v,
        is_held(v.attachments, name) || find(names_of(v.on_body(m)), name) is Some
            ==> v.member_carried(m, name, turned) == v,
        0 <= k < v.obstacles.len() && v.obstacles[k].name@ == name && (forall|j: int|
            0 <= j < k ==> (#[trigger] v.obstacles[j]).name@ != name) && !is_held(
            v.attachments,
            name,
        ) && find(names_of(v.on_body(m)), name) is None ==> {
            let w = v.member_carried(m, name, turned);
            &&& w.obstacles == v.obstacles.update(
                k,
                Obstacle {
                    pose: path_pose(v.obstacles[k].pose, m.pieces, turned, m.pieces.len()),
                    ..v.obstacles[k]
                },
            )
            &&& w == (RolloutView { obstacles: w.obstacles, objects: w.objects, ..v })
        },
{
    crate::names::law_a_name_stands_for_the_first(v.obstacles, name, k);
}

/// A robot makes the motion of the vehicle that it rides; one that does not ride it stays
/// where it is. No other robot is concerned.
pub proof fn law_a_rider_makes_the_vehicles_motion(
    v: RolloutView,
    m: MoveView,
    r: int,
    reply: CarryReply,
    s: int,
)
    requires
        0 <= r < v.robots.len(),
        v.bases.len() == v.robots.len(),
        0 <= s < v.robots.len(),
    ensures
        ({
            let w = v.robot_carried(m, r, reply);
            let rides = v.scene.robots@[r].mount matches Some(mount) && mount.device@
                == v.devices[m.device as int].name@;
            &&& !rides ==> w == v
            &&& rides && v.robots[r].gait is None ==> w.bases[r] == path_pose(
                v.bases[r],
                m.pieces,
                reply.bases_turned@[r]@,
                m.pieces.len(),
            )
            &&& rides && v.robots[r].gait is Some ==> w.bases[r] == reply.bases_after@[r]
            &&& w.robots[r].q == v.robots[r].q
            &&& s != r ==> w.bases[s] == v.bases[s] && w.robots[s] == v.robots[s]
        }),
{
}

/// A rider that a machine's body carried already keeps its place on it; a new one keeps
/// the place that it has now, and is followed there from now on. `n` is the rider.
pub proof fn law_a_load_keeps_its_place(
    before: Load,
    riders: Seq<String>,
    obstacles: Seq<Obstacle>,
    offsets: Seq<Pose>,
    robot: usize,
    link: usize,
    t: Pico,
    n: nat,
)
    requires
        n < riders.len(),
    ensures
        bound(before, riders, obstacles, offsets, robot, link, t, 0).carried.len() == 0,
        ({
            let less = bound(before, riders, obstacles, offsets, robot, link, t, n);
            let more = bound(before, riders, obstacles, offsets, robot, link, t, n + 1);
            let name = riders[n as int];
            match find(names_of(before.carried), name@) {
                Some(i) => more.carried == less.carried.push((name, before.carried[i].1)),
                None => match body_index(obstacles, name@) {
                    Some(k) => more.carried == less.carried.push((name, offsets[k]))
                        && exists|j: int| #[trigger]
                        crate::supply::ends_with(
                            more.tracks,
                            name@,
                            j,
                            TrackSpan::Follow { t0: t, t1: t, robot, link, offset: offsets[k] },
                        ),
                    None => more == less,
                },
            }
        }),
{
    let less = bound(before, riders, obstacles, offsets, robot, link, t, n);
    let name = riders[n as int];
    let more = bound(before, riders, obstacles, offsets, robot, link, t, n + 1);
    match body_index(obstacles, name@) {
        Some(k) => {
            let span = TrackSpan::Follow { t0: t, t1: t, robot, link, offset: offsets[k] };
            crate::fire::lemma_jump_ends(less.tracks, name@, obstacles[k].pose, t, span);
            if find(names_of(before.carried), name@) is None {
                assert(more.tracks == jumped(less.tracks, name@, obstacles[k].pose, t, span));
            }
        },
        None => {},
    }
}

/// What a machine carries, and what robots hold, is put where each is carried or held,
/// one body at a time; no other body moves with it.
pub proof fn law_a_load_is_put_where_it_is_carried(
    obstacles: Seq<Obstacle>,
    carried: Seq<(String, Pose)>,
    attachments: Seq<Attachment>,
    poses: Seq<Pose>,
    n: nat,
    k: int,
)
    requires
        n < carried.len(),
        n < attachments.len(),
    ensures
        load_placed(obstacles, carried, poses, 0) == obstacles,
        grips_placed(obstacles, attachments, poses, 0) == obstacles,
        ({
            let before = load_placed(obstacles, carried, poses, n);
            let name = carried[n as int].0@;
            0 <= k < before.len() && before[k].name@ == name && (forall|j: int|
                0 <= j < k ==> (#[trigger] before[j]).name@ != name) ==> load_placed(
                obstacles,
                carried,
                poses,
                n + 1,
            ) == before.update(k, Obstacle { pose: poses[n as int], ..before[k] })
        }),
        ({
            let before = grips_placed(obstacles, attachments, poses, n);
            let name = attachments[n as int].object@;
            0 <= k < before.len() && before[k].name@ == name && (forall|j: int|
                0 <= j < k ==> (#[trigger] before[j]).name@ != name) ==> grips_placed(
                obstacles,
                attachments,
                poses,
                n + 1,
            ) == before.update(k, Obstacle { pose: poses[n as int], ..before[k] })
        }),
{
    crate::names::law_a_name_stands_for_the_first(
        load_placed(obstacles, carried, poses, n),
        carried[n as int].0@,
        k,
    );
    crate::names::law_a_name_stands_for_the_first(
        grips_placed(obstacles, attachments, poses, n),
        attachments[n as int].object@,
        k,
    );
}

/// A vehicle that parks rests where its pieces took it, from the end of the last one on.
pub proof fn law_a_parked_vehicle_rests_where_it_came_to(
    v: RolloutView,
    m: MoveView,
    reply: CarryReply,
    i: int,
)
    requires
        m.pieces.len() > 0,
        0 <= i < v.vehicles.len(),
        v.vehicles[i].name == v.devices[m.device as int].name@,
        forall|j: int|
            0 <= j < i ==> (#[trigger] v.vehicles[j]).name != v.devices[m.device as int].name@,
    ensures
        ({
            let w = v.frame_carried(m, reply);
            let start = Pose { at: m.position, ..reply.frame };
            let end = m.pieces[m.pieces.len() - 1].t1;
            let n = m.pieces.len();
            let spans = w.vehicles[i].spans;
            let drive = path_spans(v.vehicles[i].spans, start, m.pieces, reply.frame_turned@, n);
            &&& w == (RolloutView { vehicles: w.vehicles, ..v })
            &&& w.vehicles.len() == v.vehicles.len()
            &&& forall|j: int| 0 <= j < v.vehicles.len() && j != i ==> #[trigger] w.vehicles[j]
                == v.vehicles[j]
            &&& !m.parked ==> spans == drive
            &&& m.parked ==> spans == drive.push(
                TrackSpan::Hold {
                    t0: end,
                    t1: end,
                    pose: path_pose(start, m.pieces, reply.frame_turned@, n),
                },
            )
        }),
{
    let name = v.devices[m.device as int].name@;
    let names = track_names(v.vehicles);
    crate::names::lemma_find(names, name, 0);
    assert(names[i] == name);
    match find(names, name) {
        Some(k) => {
            assert(names[k] == v.vehicles[k].name);
        },
        None => {},
    }
}

} // verus!
