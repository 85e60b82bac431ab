//! What rides a vehicle moves as one with it.

use vstd::prelude::*;

use crate::fixed::{clip, covered, Pose, Vec3};
use crate::names::{lemma_find, names_of};
use crate::ride::{path_pose, CarryReply};
use crate::rollout::RolloutView;
use crate::scene::body_index;
use crate::tick::MoveView;
use crate::tracks::VehiclePiece;
use crate::unbroken::{lemma_walker, takes_along};
use crate::vehicle::Piece;
use crate::views::views;
use crate::whole::{lemma_members_keep, lemma_robots_keep};

verus! {

/// How far one piece shifts what makes it: not at all where it turns it.
pub open spec fn piece_shift(p: Piece) -> Vec3 {
    match p.motion {
        VehiclePiece::Lin { velocity } => covered(velocity, clip(p.t1 - p.t0) as int),
        VehiclePiece::Piv { .. } => Vec3 { x: 0, y: 0, z: 0 },
    }
}

/// How far the first `n` pieces of a straight move shift what makes them, by
/// `part` of each shift.
pub open spec fn total_shift(pieces: Seq<Piece>, part: spec_fn(Vec3) -> int, n: nat) -> int
    decreases n,
{
    if n == 0 {
        0
    } else {
        total_shift(pieces, part, (n - 1) as nat) + part(piece_shift(pieces[n - 1]))
    }
}

/// Whether nothing that starts at `at` comes to the end of what can be counted in
/// the first `n` pieces.
pub open spec fn has_room(at: int, pieces: Seq<Piece>, part: spec_fn(Vec3) -> int, n: nat) -> bool {
    forall|k: nat|
        k <= n ==> i64::MIN <= at + (#[trigger] total_shift(pieces, part, k)) <= i64::MAX
}

/// Whether a move is straight all the way.
pub open spec fn is_straight(pieces: Seq<Piece>) -> bool {
    forall|i: int| 0 <= i < pieces.len() ==> (#[trigger] pieces[i]).motion is Lin
}

pub open spec fn x_of() -> spec_fn(Vec3) -> int {
    |v: Vec3| v.x as int
}

pub open spec fn y_of() -> spec_fn(Vec3) -> int {
    |v: Vec3| v.y as int
}

pub open spec fn z_of() -> spec_fn(Vec3) -> int {
    |v: Vec3| v.z as int
}

/// A straight move shifts whatever makes it by the same way, and turns nothing.
pub proof fn law_a_straight_move_shifts_all_alike(
    from: Pose,
    pieces: Seq<Piece>,
    turned: Seq<Pose>,
    n: nat,
)
    requires
        is_straight(pieces),
        n <= pieces.len(),
        has_room(from.at.x as int, pieces, x_of(), n),
        has_room(from.at.y as int, pieces, y_of(), n),
        has_room(from.at.z as int, pieces, z_of(), n),
    ensures
        ({
            let after = path_pose(from, pieces, turned, n);
            &&& after == (Pose { at: after.at, ..from })
            &&& after.at.x == from.at.x + total_shift(pieces, x_of(), n)
            &&& after.at.y == from.at.y + total_shift(pieces, y_of(), n)
            &&& after.at.z == from.at.z + total_shift(pieces, z_of(), n)
        }),
    decreases n,
{
    if n > 0 {
        let m = (n - 1) as nat;
        assert(has_room(from.at.x as int, pieces, x_of(), m));
        assert(has_room(from.at.y as int, pieces, y_of(), m));
        assert(has_room(from.at.z as int, pieces, z_of(), m));
        law_a_straight_move_shifts_all_alike(from, pieces, turned, m);
        assert(pieces[n - 1].motion is Lin);
        assert(i64::MIN <= from.at.x + total_shift(pieces, x_of(), n) <= i64::MAX);
        assert(i64::MIN <= from.at.y + total_shift(pieces, y_of(), n) <= i64::MAX);
        assert(i64::MIN <= from.at.z + total_shift(pieces, z_of(), n) <= i64::MAX);
    }
}

/// The names of what a vehicle takes along differ.
pub open spec fn named_once(members: Seq<String>) -> bool {
    forall|i: int, j: int|
        #![trigger members[i], members[j]]
        0 <= i < j < members.len() ==> members[i]@ != members[j]@
}

proof fn lemma_members_make_it(
    v: RolloutView,
    m: MoveView,
    members: Seq<String>,
    turned: Seq<Seq<Pose>>,
    n: nat,
)
    requires
        named_once(members),
        n <= members.len(),
    ensures
        ({
            let w = v.members_carried(m, members, turned, n);
            &&& w.attachments == v.attachments
            &&& w.obstacles.len() == v.obstacles.len()
            &&& names_of(w.obstacles) == names_of(v.obstacles)
            &&& forall|i: int|
                0 <= i < n && takes_along(v, m, (#[trigger] members[i])@)
                    ==> w.obstacles[body_index(v.obstacles, members[i]@)->0].pose == path_pose(
                    v.obstacles[body_index(v.obstacles, members[i]@)->0].pose,
                    m.pieces,
                    turned[i],
                    m.pieces.len(),
                )
            &&& forall|k: int|
                0 <= k < v.obstacles.len() && (forall|i: int|
                    0 <= i < n ==> (#[trigger] members[i])@ != v.obstacles[k].name@) ==> (
                #[trigger] w.obstacles[k]) == v.obstacles[k]
        }),
    decreases n,
{
    if n > 0 {
        lemma_members_make_it(v, m, members, turned, (n - 1) as nat);
        lemma_members_keep(v, m, members, turned, (n - 1) as nat);
        let less = v.members_carried(m, members, turned, (n - 1) as nat);
        let w = v.members_carried(m, members, turned, n);
        let name = members[n - 1]@;
        lemma_walker(v, less, v.mover(m)@, 0);
        assert(less.on_body(m) == v.on_body(m));
        lemma_find(names_of(v.obstacles), name, 0);
        assert(body_index(less.obstacles, name) == body_index(v.obstacles, name));
        if takes_along(v, m, name) {
            let k = body_index(v.obstacles, name)->0;
            assert(names_of(v.obstacles)[k] == v.obstacles[k].name@);
            assert(less.obstacles[k] == v.obstacles[k]) by {
                assert forall|i: int| 0 <= i < n - 1 implies (#[trigger] members[i])@
                    != v.obstacles[k].name@ by {
                    assert(members[i]@ != members[n - 1]@);
                }
            }
            assert(names_of(w.obstacles) =~= names_of(less.obstacles)) by {
                assert forall|q: int| 0 <= q < w.obstacles.len() implies names_of(w.obstacles)[q]
                    == names_of(less.obstacles)[q] by {
                    if q != k {
                        assert(w.obstacles[q] == less.obstacles[q]);
                    }
                }
            }
            assert forall|i: int| 0 <= i < n && takes_along(v, m, (#[trigger] members[i])@) implies
                w.obstacles[body_index(v.obstacles, members[i]@)->0].pose == path_pose(
                v.obstacles[body_index(v.obstacles, members[i]@)->0].pose,
                m.pieces,
                turned[i],
                m.pieces.len(),
            ) by {
                if i < n - 1 {
                    lemma_find(names_of(v.obstacles), members[i]@, 0);
                    let q = body_index(v.obstacles, members[i]@)->0;
                    assert(names_of(v.obstacles)[q] == v.obstacles[q].name@);
                    assert(members[i]@ != members[n - 1]@);
                    assert(q != k);
                    assert(w.obstacles[q] == less.obstacles[q]);
                }
            }
            assert forall|q: int|
                0 <= q < v.obstacles.len() && (forall|i: int|
                    0 <= i < n ==> (#[trigger] members[i])@ != v.obstacles[q].name@) implies (
            #[trigger] w.obstacles[q]) == v.obstacles[q] by {
                assert(members[n - 1]@ != v.obstacles[q].name@);
                assert(q != k);
                assert(less.obstacles[q] == v.obstacles[q]);
            }
        } else {
            assert(w == less);
            assert forall|q: int|
                0 <= q < v.obstacles.len() && (forall|i: int|
                    0 <= i < n ==> (#[trigger] members[i])@ != v.obstacles[q].name@) implies (
            #[trigger] w.obstacles[q]) == v.obstacles[q] by {
                assert(less.obstacles[q] == v.obstacles[q]);
            }
        }
    }
}

proof fn lemma_bases_make_it(v: RolloutView, m: MoveView, reply: CarryReply, n: nat)
    requires
        n <= v.robots.len(),
        v.bases.len() == v.robots.len(),
    ensures
        ({
            let w = v.robots_carried(m, reply, n);
            &&& w.obstacles == v.obstacles
            &&& w.bases.len() == v.bases.len()
            &&& w.robots.len() == v.robots.len()
            &&& forall|r: int|
                0 <= r < n ==> (#[trigger] w.bases[r]) == if v.rides(r, v.mover(m)@) {
                    v.ride_end(m, r, reply)
                } else {
                    v.bases[r]
                }
            &&& forall|r: int|
                n <= r < v.robots.len() ==> (#[trigger] w.bases[r]) == v.bases[r] && w.robots[r]
                    == v.robots[r]
        }),
    decreases n,
{
    if n > 0 {
        lemma_bases_make_it(v, m, reply, (n - 1) as nat);
        lemma_robots_keep(v, m, reply, (n - 1) as nat);
        let less = v.robots_carried(m, reply, (n - 1) as nat);
        assert(less.bases[n - 1] == v.bases[n - 1]);
        assert(less.ride_end(m, n - 1, reply) == v.ride_end(m, n - 1, reply));
    }
}

/// A vehicle's body, its load and the robots that ride it make one and the same
/// move: each by the pieces of the vehicle's. A robot that walks has its walk
/// composed onto that. Every other body, and every other base, stays where it is.
pub proof fn law_what_rides_makes_the_move(
    v: RolloutView,
    m: MoveView,
    riders: Seq<String>,
    reply: CarryReply,
)
    requires
        v.bases.len() == v.robots.len(),
        v.carry_answered(m, riders, reply),
        named_once(v.mover_body(m) + riders),
    ensures
        ({
            let members = v.mover_body(m) + riders;
            let w = v.carried(m, riders, reply);
            &&& forall|i: int|
                0 <= i < members.len() && takes_along(v, m, (#[trigger] members[i])@)
                    ==> w.obstacles[body_index(v.obstacles, members[i]@)->0].pose == path_pose(
                    v.obstacles[body_index(v.obstacles, members[i]@)->0].pose,
                    m.pieces,
                    reply.members_turned@[i]@,
                    m.pieces.len(),
                )
            &&& forall|r: int|
                0 <= r < v.robots.len() && v.rides(r, v.mover(m)@) && v.robots[r].gait is None
                    ==> (#[trigger] w.bases[r]) == path_pose(
                    v.bases[r],
                    m.pieces,
                    reply.bases_turned@[r]@,
                    m.pieces.len(),
                )
            &&& forall|r: int|
                0 <= r < v.robots.len() && !v.rides(r, v.mover(m)@) ==> (#[trigger] w.bases[r])
                    == v.bases[r]
            &&& forall|k: int|
                0 <= k < v.obstacles.len() && (forall|i: int|
                    0 <= i < members.len() ==> (#[trigger] members[i])@ != v.obstacles[k].name@)
                    ==> (#[trigger] w.obstacles[k]) == v.obstacles[k]
        }),
{
    let members = v.mover_body(m) + riders;
    let turned = views(reply.members_turned@);
    let a = v.frame_carried(m, reply);
    lemma_walker(v, a, v.mover(m)@, 0);
    assert(a.on_body(m) == v.on_body(m));
    lemma_members_make_it(a, m, members, turned, members.len());
    lemma_members_keep(a, m, members, turned, members.len());
    let b = a.members_carried(m, members, turned, members.len());
    lemma_bases_make_it(b, m, reply, v.robots.len());
    let w = v.carried(m, riders, reply);
    assert forall|i: int|
        0 <= i < members.len() && takes_along(v, m, (#[trigger] members[i])@) implies
        w.obstacles[body_index(v.obstacles, members[i]@)->0].pose == path_pose(
        v.obstacles[body_index(v.obstacles, members[i]@)->0].pose,
        m.pieces,
        reply.members_turned@[i]@,
        m.pieces.len(),
    ) by {
        assert(takes_along(a, m, members[i]@));
        assert(turned[i] == reply.members_turned@[i]@);
    }
    assert forall|k: int|
        0 <= k < v.obstacles.len() && (forall|i: int|
            0 <= i < members.len() ==> (#[trigger] members[i])@ != v.obstacles[k].name@) implies (
    #[trigger] w.obstacles[k]) == v.obstacles[k] by {
        assert(b.obstacles[k] == a.obstacles[k]);
    }
}

} // verus!
