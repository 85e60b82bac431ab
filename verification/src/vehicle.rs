//! Guided vehicles: routes over a path's waypoints, the legs of a drive, and
//! the walk along them.

use vstd::prelude::*;

use crate::fixed::{
    abs, clip, clipped, cover, covered, differ, difference, fine_norm, floor_div, length, length_at,
    longer_than, minus, muldiv, norm, plus, scaled, sum, summed, wrap_angle, wrapped, Pico, Vec3,
    FINE, FRAC_PI_2, NANO, PI, TAU, UNIT,
};
use crate::tracks::VehiclePiece;

verus! {

/// How an aerial vehicle yaws.
#[derive(Clone, Copy, Debug, PartialEq, Eq, Structural)]
pub enum AerialYaw {
    /// Faces the course of each leg.
    Course,
    /// Holds this heading.
    Fixed(Pico),
}

/// How a route becomes legs.
#[derive(Clone, Copy, Debug, PartialEq, Eq, Structural)]
pub enum Drive {
    /// Translates, never turns.
    Holonomic,
    /// Turns in place, then drives straight.
    Differential { allow_reverse: bool },
    /// Flies each axis at its own limit.
    Aerial { climb_speed: Pico, descent_speed: Pico, yaw: AerialYaw },
}

/// One leg of a drive. `need` is the time it still takes.
#[derive(Clone, Copy, Debug, PartialEq, Eq, Structural)]
pub enum Leg {
    /// Pivot in place to the absolute heading `face` at signed rate `omega`.
    Turn { face: Pico, omega: Pico, need: Pico },
    /// Straight to `to` at `velocity`.
    Straight { to: Vec3, velocity: Vec3, need: Pico },
}

/// A vehicle's motion over `[t0, t1]`.
#[derive(Clone, Copy, Debug, PartialEq, Eq, Structural)]
pub struct Piece {
    pub t0: Pico,
    pub t1: Pico,
    pub motion: VehiclePiece,
}

/// The indices from `from` to `to`, `from` left out, one up or down at a time.
pub open spec fn index_walk(from: int, to: int) -> Seq<usize> {
    if from <= to {
        Seq::new((to - from) as nat, |k: int| (from + 1 + k) as usize)
    } else {
        Seq::new((from - to) as nat, |k: int| (from - 1 - k) as usize)
    }
}

/// `count` steps of `step` around a ring of `n`, from `from` on.
pub open spec fn ring_walk(n: int, from: int, step: int, count: nat) -> Seq<usize>
    decreases count,
{
    if count == 0 {
        Seq::empty()
    } else {
        let next = (from + step) % n;
        seq![next as usize] + ring_walk(n, next, step, (count - 1) as nat)
    }
}

/// How far a walk over waypoints is, from `from` on, each edge rounded down to
/// a step of which a count holds `scale`.
pub open spec fn walk_length(waypoints: Seq<Vec3>, from: int, walk: Seq<usize>, scale: int) -> int
    decreases walk.len(),
{
    if walk.len() == 0 {
        0
    } else {
        let prev = if walk.len() == 1 {
            from
        } else {
            walk[walk.len() - 2] as int
        };
        walk_length(waypoints, from, walk.drop_last(), scale) + length_at(
            difference(waypoints[walk.last() as int], waypoints[prev]),
            scale,
        )
    }
}

/// By how much one way around a ring of `n` must be shorter than the other, in
/// steps of the fine measure: a count, and a step for every edge where those
/// are more, so that what rounding takes from a way decides nothing.
pub open spec fn margin(n: int) -> int {
    if n > FINE {
        n
    } else {
        FINE as int
    }
}

/// The way forward around a ring.
pub open spec fn forward_way(n: int, from: int, to: int) -> Seq<usize> {
    ring_walk(n, from, 1, ring_steps(n, from, to))
}

/// The way backward around a ring.
pub open spec fn backward_way(n: int, from: int, to: int) -> Seq<usize> {
    ring_walk(n, from, n - 1, ring_steps(n, to, from))
}

/// How many steps forward around a ring of `n` lead from `from` to `to`.
pub open spec fn ring_steps(n: int, from: int, to: int) -> nat {
    if from <= to {
        (to - from) as nat
    } else {
        (n - from + to) as nat
    }
}

/// The waypoints visited from `from` to `to`: the index walk on an open path;
/// on a ring the way around that is shorter, forward on a tie. Ways within
/// 10^-12 m of each other are a tie.
pub open spec fn route_of(waypoints: Seq<Vec3>, ring: bool, from: int, to: int) -> Seq<usize> {
    if from == to {
        Seq::empty()
    } else if !ring {
        index_walk(from, to)
    } else {
        let n = waypoints.len() as int;
        let forward = forward_way(n, from, to);
        let backward = backward_way(n, from, to);
        if walk_length(waypoints, from, backward, FINE as int) + margin(n) < walk_length(
            waypoints,
            from,
            forward,
            FINE as int,
        ) {
            backward
        } else {
            forward
        }
    }
}

fn walk_ring(n: usize, from: usize, step: usize, count: usize) -> (r: Vec<usize>)
    requires
        from < n,
        step < n,
    ensures
        r@ == ring_walk(n as int, from as int, step as int, count as nat),
{
    let mut out: Vec<usize> = Vec::new();
    let mut at: usize = from;
    let mut k: usize = 0;
    while k < count
        invariant
            k <= count,
            at < n,
            step < n,
            out@ + ring_walk(n as int, at as int, step as int, (count - k) as nat) == ring_walk(
                n as int,
                from as int,
                step as int,
                count as nat,
            ),
        decreases count - k,
    {
        let left: usize = n - at;
        let next: usize = if step < left {
            at + step
        } else {
            step - left
        };
        assert(next == (at + step) % n as int) by (nonlinear_arith)
            requires
                at < n,
                step < n,
                next == (if step < n - at { at + step } else { step - (n - at) }),
        ;
        let ghost rest = ring_walk(n as int, next as int, step as int, (count - k - 1) as nat);
        assert(out@ + (seq![next] + rest) =~= out@.push(next) + rest);
        out.push(next);
        at = next;
        k = k + 1;
    }
    assert(out@ =~= out@ + Seq::<usize>::empty());
    out
}

/// Every index of a ring walk lies on the ring.
pub proof fn lemma_ring_walk(n: int, from: int, step: int, count: nat)
    requires
        0 < n <= usize::MAX,
        0 <= from < n,
        0 <= step,
    ensures
        ring_walk(n, from, step, count).len() == count,
        forall|k: int| 0 <= k < count ==> (#[trigger] ring_walk(n, from, step, count)[k]) < n,
    decreases count,
{
    if count > 0 {
        let next = (from + step) % n;
        lemma_ring_walk(n, next, step, (count - 1) as nat);
        assert forall|k: int| 0 <= k < count implies (#[trigger] ring_walk(
            n,
            from,
            step,
            count,
        )[k]) < n by {
            if k > 0 {
                assert(ring_walk(n, from, step, count)[k] == ring_walk(
                    n,
                    next,
                    step,
                    (count - 1) as nat,
                )[k - 1]);
            }
        }
    }
}

/// How far a walk is in the fine measure: whole counts, and the steps over.
fn measure(waypoints: &Vec<Vec3>, from: usize, walk: &Vec<usize>) -> (r: (u128, u128))
    requires
        from < waypoints.len(),
        forall|k: int| 0 <= k < walk@.len() ==> (#[trigger] walk@[k]) < waypoints@.len(),
    ensures
        r.0 * FINE + r.1 == walk_length(waypoints@, from as int, walk@, FINE as int),
        r.0 <= 0xffff_ffff_ffff_ffff * 0x1_0000_0000_0000_0000,
        r.1 < FINE,
{
    let fine: u128 = FINE as u128;
    let mut whole: u128 = 0;
    let mut over: u128 = 0;
    let mut prev: usize = from;
    let mut k: usize = 0;
    while k < walk.len()
        invariant
            k <= walk.len(),
            fine == FINE,
            from < waypoints.len(),
            forall|j: int| 0 <= j < walk@.len() ==> (#[trigger] walk@[j]) < waypoints@.len(),
            prev == (if k == 0 {
                from
            } else {
                walk@[k - 1]
            }),
            prev < waypoints@.len(),
            whole * FINE + over == walk_length(
                waypoints@,
                from as int,
                walk@.take(k as int),
                FINE as int,
            ),
            over < FINE,
            whole <= k * 0x1_0000_0000_0000_0000,
        decreases walk.len() - k,
    {
        let i: usize = walk[k];
        let d: u128 = fine_norm(differ(waypoints[i], waypoints[prev]));
        proof {
            let more = walk@.take(k + 1);
            assert(more.drop_last() =~= walk@.take(k as int));
            assert(more.last() == i);
            assert(k > 0 ==> more[more.len() - 2] == walk@[k - 1]);
            lemma_bounded(k as int);
            assert((k + 1) * 0x1_0000_0000_0000_0000 == k * 0x1_0000_0000_0000_0000
                + 0x1_0000_0000_0000_0000) by (nonlinear_arith);
        }
        let part: u128 = over + d % fine;
        let ghost before = whole;
        let ghost old_over = over;
        if part < fine {
            whole = whole + d / fine;
            over = part;
        } else {
            whole = whole + d / fine + 1;
            over = part - fine;
        }
        proof {
            assert(d == (d / fine) * fine + d % fine) by (nonlinear_arith)
                requires
                    fine > 0,
            ;
            assert(whole * fine + over == before * fine + old_over + d) by (nonlinear_arith)
                requires
                    d == (d / fine) * fine + d % fine,
                    (whole == before + d / fine && over == old_over + d % fine) || (whole
                        == before + d / fine + 1 && over == old_over + d % fine - fine),
            ;
        }
        prev = i;
        k = k + 1;
    }
    proof {
        assert(walk@.take(k as int) =~= walk@);
        lemma_bounded(k as int);
    }
    (whole, over)
}

proof fn lemma_bounded(k: int)
    requires
        0 <= k <= usize::MAX,
    ensures
        k * 0x1_0000_0000_0000_0000 <= 0xffff_ffff_ffff_ffff * 0x1_0000_0000_0000_0000int,
{
    assert(k * 0x1_0000_0000_0000_0000 <= 0xffff_ffff_ffff_ffff * 0x1_0000_0000_0000_0000int)
        by (nonlinear_arith)
        requires
            0 <= k <= 0xffff_ffff_ffff_ffff,
    ;
}

/// Whether the way backward is shorter by more than the margin of a ring of `n`.
fn is_shorter(backward: (u128, u128), forward: (u128, u128), n: usize) -> (r: bool)
    requires
        backward.0 <= 0xffff_ffff_ffff_ffff * 0x1_0000_0000_0000_0000,
        backward.1 < FINE,
        forward.1 < FINE,
    ensures
        r == (backward.0 * FINE + backward.1 + margin(n as int) < forward.0 * FINE + forward.1),
{
    let fine: u128 = FINE as u128;
    let slack: u128 = if n as u128 > fine {
        n as u128
    } else {
        fine
    };
    let sum: u128 = backward.1 + slack;
    let whole: u128 = backward.0 + sum / fine;
    let over: u128 = sum % fine;
    proof {
        assert(whole * fine + over == backward.0 * fine + sum) by (nonlinear_arith)
            requires
                fine > 0,
                whole == backward.0 + sum / fine,
                over == sum % fine,
        ;
        if whole < forward.0 {
            assert((whole + 1) * fine <= forward.0 * fine) by (nonlinear_arith)
                requires
                    whole + 1 <= forward.0,
                    fine > 0,
            ;
            assert((whole + 1) * fine == whole * fine + fine) by (nonlinear_arith);
        } else if forward.0 < whole {
            assert((forward.0 + 1) * fine <= whole * fine) by (nonlinear_arith)
                requires
                    forward.0 + 1 <= whole,
                    fine > 0,
            ;
            assert((forward.0 + 1) * fine == forward.0 * fine + fine) by (nonlinear_arith);
        }
    }
    whole < forward.0 || (whole == forward.0 && over < forward.1)
}

/// Waypoint indices from `from` to `to`, without `from` and with `to`.
pub fn vehicle_route(waypoints: &Vec<Vec3>, ring: bool, from: usize, to: usize) -> (r: Vec<usize>)
    requires
        from < waypoints@.len(),
        to < waypoints@.len(),
    ensures
        r@ == route_of(waypoints@, ring, from as int, to as int),
        forall|k: int| 0 <= k < r@.len() ==> (#[trigger] r@[k]) < waypoints@.len(),
{
    let mut out: Vec<usize> = Vec::new();
    if from == to {
        return out;
    }
    if !ring {
        let ghost want = index_walk(from as int, to as int);
        let mut i: usize = from;
        while i != to
            invariant
                from < waypoints@.len(),
                to < waypoints@.len(),
                from < to ==> from <= i <= to,
                from > to ==> to <= i <= from,
                from != to,
                want == index_walk(from as int, to as int),
                out@.len() == abs(i - from),
                out@ == want.take(abs(i - from)),
            decreases abs(to - i),
        {
            i = if from < to {
                i + 1
            } else {
                i - 1
            };
            out.push(i);
            assert(out@ =~= want.take(abs(i - from)));
        }
        assert(out@ =~= want);
        return out;
    }
    let n: usize = waypoints.len();
    let ahead: usize = if from <= to {
        to - from
    } else {
        n - from + to
    };
    let back: usize = if to <= from {
        from - to
    } else {
        n - to + from
    };
    let forward: Vec<usize> = walk_ring(n, from, if n == 1 { 0 } else { 1 }, ahead);
    let backward: Vec<usize> = walk_ring(n, from, n - 1, back);
    proof {
        lemma_ring_walk(n as int, from as int, 1, ahead as nat);
        lemma_ring_walk(n as int, from as int, n - 1, back as nat);
    }
    if is_shorter(measure(waypoints, from, &backward), measure(waypoints, from, &forward), n) {
        backward
    } else {
        forward
    }
}

/// The horizontal part of a displacement.
pub open spec fn level_part(d: Vec3) -> Vec3 {
    Vec3 { x: d.x, y: d.y, z: 0 }
}

/// Whether a displacement is longer than 10^-9 m.
pub open spec fn long_enough(d: Vec3) -> bool {
    d.square() > NANO * NANO
}

/// The time to cover `len` at `speed`: for ever, where there is no speed.
pub open spec fn time_for(len: int, speed: Pico) -> Pico {
    if speed <= 0 {
        i64::MAX
    } else {
        clip(muldiv(len, UNIT as int, speed as int))
    }
}

/// `d` at `speed` along it.
pub open spec fn cruise(d: Vec3, speed: Pico) -> Vec3 {
    Vec3 {
        x: clip(muldiv(d.x as int, speed as int, length(d))),
        y: clip(muldiv(d.y as int, speed as int, length(d))),
        z: clip(muldiv(d.z as int, speed as int, length(d))),
    }
}

/// The straight leg over `d` to `to` at cruise speed, spent along the leg.
pub open spec fn straight_leg(to: Vec3, d: Vec3, speed: Pico) -> Leg {
    Leg::Straight { to, velocity: cruise(d, speed), need: time_for(length(d), speed) }
}

/// The turn from `heading` to `to`, where there is one to make.
pub open spec fn turn_legs(heading: Pico, to: Pico, turn_speed: Pico) -> Seq<Leg> {
    let dphi = wrapped(to - heading);
    if abs(dphi) > NANO {
        seq![
            Leg::Turn {
                face: to,
                omega: if dphi > 0 {
                    turn_speed
                } else {
                    clip(-turn_speed)
                },
                need: time_for(abs(dphi), turn_speed),
            },
        ]
    } else {
        Seq::empty()
    }
}

/// The heading on which a leg over `d` is driven. `course` is the direction
/// of its horizontal run.
pub open spec fn leg_heading(d: Vec3, course: Pico, heading: Pico, drive: Drive) -> Pico {
    let runs = long_enough(level_part(d));
    match drive {
        Drive::Holonomic => heading,
        Drive::Differential { allow_reverse } => {
            let travel = if runs {
                course
            } else {
                heading
            };
            if allow_reverse && runs && abs(wrapped(travel - heading)) > FRAC_PI_2 {
                wrapped(travel + PI) as i64
            } else {
                travel
            }
        },
        Drive::Aerial { yaw, .. } => match yaw {
            AerialYaw::Fixed(psi) => psi,
            AerialYaw::Course => if runs {
                course
            } else {
                heading
            },
        },
    }
}

/// How long an aerial leg takes: each axis at its own limit, the slower one
/// setting the clock.
pub open spec fn flight_time(d: Vec3, speed: Pico, climb: Pico, descent: Pico) -> Pico {
    let level = if long_enough(level_part(d)) {
        time_for(length(level_part(d)), speed)
    } else {
        0
    };
    let rise = if d.z > NANO {
        time_for(d.z as int, climb)
    } else if d.z < -NANO {
        time_for(-d.z, descent)
    } else {
        0
    };
    if level >= rise && level > 1 {
        level
    } else if rise > 1 {
        rise
    } else {
        1
    }
}

/// `d` in the time `t`, as a rate.
pub open spec fn rate_over(d: Vec3, t: Pico) -> Vec3 {
    Vec3 {
        x: clip(muldiv(d.x as int, UNIT as int, t as int)),
        y: clip(muldiv(d.y as int, UNIT as int, t as int)),
        z: clip(muldiv(d.z as int, UNIT as int, t as int)),
    }
}

/// The legs that cover `d` to `to`.
pub open spec fn legs_over(
    to: Vec3,
    d: Vec3,
    course: Pico,
    heading: Pico,
    speed: Pico,
    turn_speed: Pico,
    drive: Drive,
) -> Seq<Leg> {
    match drive {
        Drive::Holonomic => seq![straight_leg(to, d, speed)],
        Drive::Differential { .. } => turn_legs(
            heading,
            leg_heading(d, course, heading, drive),
            turn_speed,
        ).push(straight_leg(to, d, speed)),
        Drive::Aerial { climb_speed, descent_speed, .. } => {
            let t = flight_time(d, speed, climb_speed, descent_speed);
            turn_legs(heading, leg_heading(d, course, heading, drive), turn_speed).push(
                Leg::Straight { to, velocity: rate_over(d, t), need: t },
            )
        },
    }
}

/// The legs of a route from where the vehicle stands and faces: waypoint by
/// waypoint, one that coincides with where it is contributing none.
/// `courses` holds the direction of each of the route's runs.
pub open spec fn legs_of(
    waypoints: Seq<Vec3>,
    route: Seq<usize>,
    courses: Seq<Pico>,
    position: Vec3,
    heading: Pico,
    speed: Pico,
    turn_speed: Pico,
    drive: Drive,
) -> Seq<Leg>
    decreases route.len(),
{
    if route.len() == 0 {
        Seq::empty()
    } else {
        let to = waypoints[route[0] as int];
        let d = difference(to, position);
        if length(d) < NANO {
            legs_of(
                waypoints,
                route.drop_first(),
                courses.drop_first(),
                position,
                heading,
                speed,
                turn_speed,
                drive,
            )
        } else {
            legs_over(to, d, courses[0], heading, speed, turn_speed, drive) + legs_of(
                waypoints,
                route.drop_first(),
                courses.drop_first(),
                to,
                leg_heading(d, courses[0], heading, drive),
                speed,
                turn_speed,
                drive,
            )
        }
    }
}

fn time_to_cover(len: u64, speed: Pico) -> (r: Pico)
    ensures
        r == time_for(len as int, speed),
{
    if speed <= 0 {
        i64::MAX
    } else {
        assert(len * UNIT <= 0xffff_ffff_ffff_ffff * UNIT) by (nonlinear_arith)
            requires
                0 <= len <= 0xffff_ffff_ffff_ffff,
                UNIT == 1_000_000_000_000i64,
        ;
        assert(0 <= len * UNIT) by (nonlinear_arith)
            requires
                0 <= len,
                UNIT == 1_000_000_000_000i64,
        ;
        clipped(floor_div(len as i128 * UNIT as i128, speed as i128))
    }
}

fn cruise_velocity(d: Vec3, speed: Pico) -> (r: Vec3)
    requires
        length(d) > 0,
    ensures
        r == cruise(d, speed),
{
    let len: i128 = norm(d) as i128;
    Vec3 { x: scaled(d.x, speed, len), y: scaled(d.y, speed, len), z: scaled(d.z, speed, len) }
}

fn push_turn(legs: &mut Vec<Leg>, heading: Pico, to: Pico, turn_speed: Pico)
    ensures
        final(legs)@ == old(legs)@ + turn_legs(heading, to, turn_speed),
{
    let dphi: Pico = wrap_angle(to as i128 - heading as i128);
    let size: Pico = if dphi < 0 {
        -dphi
    } else {
        dphi
    };
    if size > NANO {
        let omega: Pico = if dphi > 0 {
            turn_speed
        } else {
            clipped(-(turn_speed as i128))
        };
        legs.push(Leg::Turn { face: to, omega, need: time_to_cover(size as u64, turn_speed) });
    }
    assert(legs@ =~= old(legs)@ + turn_legs(heading, to, turn_speed));
}

fn heading_for(d: Vec3, course: Pico, heading: Pico, drive: &Drive) -> (r: Pico)
    ensures
        r == leg_heading(d, course, heading, *drive),
{
    let runs: bool = longer_than(Vec3 { x: d.x, y: d.y, z: 0 }, NANO);
    match *drive {
        Drive::Holonomic => heading,
        Drive::Differential { allow_reverse } => {
            let travel: Pico = if runs {
                course
            } else {
                heading
            };
            let turn: Pico = wrap_angle(travel as i128 - heading as i128);
            let size: Pico = if turn < 0 {
                -turn
            } else {
                turn
            };
            // Backing up is facing the other way while travelling the same
            // direction, worth it whenever it is the shorter turn.
            if allow_reverse && runs && size > FRAC_PI_2 {
                wrap_angle(travel as i128 + PI as i128)
            } else {
                travel
            }
        },
        Drive::Aerial { yaw, .. } => match yaw {
            AerialYaw::Fixed(psi) => psi,
            AerialYaw::Course => if runs {
                course
            } else {
                heading
            },
        },
    }
}

fn time_of_flight(d: Vec3, speed: Pico, climb: Pico, descent: Pico) -> (r: Pico)
    ensures
        r == flight_time(d, speed, climb, descent),
        r >= 1,
{
    let flat: Vec3 = Vec3 { x: d.x, y: d.y, z: 0 };
    let level: Pico = if longer_than(flat, NANO) {
        time_to_cover(norm(flat), speed)
    } else {
        0
    };
    let rise: Pico = if d.z > NANO {
        time_to_cover(d.z as u64, climb)
    } else if d.z < -NANO {
        time_to_cover((-(d.z as i128)) as u64, descent)
    } else {
        0
    };
    if level >= rise && level > 1 {
        level
    } else if rise > 1 {
        rise
    } else {
        1
    }
}

/// Expands a route into turn and straight legs from the vehicle's current
/// heading. `courses[i]` is the direction of the run to `route[i]`.
pub fn build_legs(
    waypoints: &Vec<Vec3>,
    route: &Vec<usize>,
    courses: &Vec<Pico>,
    start: Vec3,
    heading: Pico,
    speed: Pico,
    turn_speed: Pico,
    drive: &Drive,
) -> (r: Vec<Leg>)
    requires
        courses@.len() == route@.len(),
        forall|k: int| 0 <= k < route@.len() ==> (#[trigger] route@[k]) < waypoints@.len(),
    ensures
        r@ == legs_of(
            waypoints@,
            route@,
            courses@,
            start,
            heading,
            speed,
            turn_speed,
            *drive,
        ),
{
    let mut legs: Vec<Leg> = Vec::new();
    let mut position: Vec3 = start;
    let mut facing: Pico = heading;
    let mut i: usize = 0;
    let ghost want = legs_of(
        waypoints@,
        route@,
        courses@,
        start,
        heading,
        speed,
        turn_speed,
        *drive,
    );
    assert(route@.skip(0) =~= route@);
    assert(courses@.skip(0) =~= courses@);
    assert(Seq::<Leg>::empty() + want =~= want);
    while i < route.len()
        invariant
            i <= route.len(),
            courses@.len() == route@.len(),
            forall|k: int| 0 <= k < route@.len() ==> (#[trigger] route@[k]) < waypoints@.len(),
            legs@ + legs_of(
                waypoints@,
                route@.skip(i as int),
                courses@.skip(i as int),
                position,
                facing,
                speed,
                turn_speed,
                *drive,
            ) == want,
        decreases route.len() - i,
    {
        let ghost rest = route@.skip(i as int);
        let ghost turns = courses@.skip(i as int);
        assert(rest[0] == route@[i as int]);
        assert(turns[0] == courses@[i as int]);
        assert(rest.drop_first() =~= route@.skip(i + 1));
        assert(turns.drop_first() =~= courses@.skip(i + 1));
        let to: Vec3 = waypoints[route[i]];
        let d: Vec3 = differ(to, position);
        let course: Pico = courses[i];
        i = i + 1;
        if norm(d) < NANO as u64 {
            continue ;
        }
        let ghost before = legs@;
        let ghost tail = legs_of(
            waypoints@,
            route@.skip(i as int),
            courses@.skip(i as int),
            to,
            leg_heading(d, course, facing, *drive),
            speed,
            turn_speed,
            *drive,
        );
        let next: Pico = heading_for(d, course, facing, drive);
        match *drive {
            Drive::Holonomic => {
                legs.push(
                    Leg::Straight {
                        to,
                        velocity: cruise_velocity(d, speed),
                        need: time_to_cover(norm(d), speed),
                    },
                );
            },
            Drive::Differential { .. } => {
                push_turn(&mut legs, facing, next, turn_speed);
                legs.push(
                    Leg::Straight {
                        to,
                        velocity: cruise_velocity(d, speed),
                        need: time_to_cover(norm(d), speed),
                    },
                );
            },
            Drive::Aerial { climb_speed, descent_speed, .. } => {
                push_turn(&mut legs, facing, next, turn_speed);
                let t: Pico = time_of_flight(d, speed, climb_speed, descent_speed);
                let velocity: Vec3 = Vec3 {
                    x: scaled(d.x, UNIT, t as i128),
                    y: scaled(d.y, UNIT, t as i128),
                    z: scaled(d.z, UNIT, t as i128),
                };
                legs.push(Leg::Straight { to, velocity, need: t });
            },
        }
        proof {
            let over = legs_over(to, d, course, facing, speed, turn_speed, *drive);
            assert(legs@ =~= before + over);
            assert(before + (over + tail) =~= legs@ + tail);
        }
        position = to;
        facing = next;
    }
    assert(legs@ =~= legs@ + Seq::<Leg>::empty());
    legs
}

impl Leg {
    pub open spec fn need(self) -> Pico {
        match self {
            Leg::Turn { need, .. } => need,
            Leg::Straight { need, .. } => need,
        }
    }

    /// The motion made on this leg by a vehicle at `position`.
    pub open spec fn motion(self, position: Vec3) -> VehiclePiece {
        match self {
            Leg::Turn { omega, .. } => VehiclePiece::Piv { center: position, omega },
            Leg::Straight { velocity, .. } => VehiclePiece::Lin { velocity },
        }
    }

    /// Where the vehicle stands once the leg is done.
    pub open spec fn position_after(self, position: Vec3) -> Vec3 {
        match self {
            Leg::Turn { .. } => position,
            Leg::Straight { to, .. } => to,
        }
    }

    /// Where the vehicle faces once the leg is done.
    pub open spec fn heading_after(self, heading: Pico) -> Pico {
        match self {
            Leg::Turn { face, .. } => face,
            Leg::Straight { .. } => heading,
        }
    }

    /// The leg with `step` of it done.
    pub open spec fn shortened(self, step: Pico) -> Leg {
        match self {
            Leg::Turn { face, omega, need } => Leg::Turn { face, omega, need: clip(need - step) },
            Leg::Straight { to, velocity, need } => Leg::Straight {
                to,
                velocity,
                need: clip(need - step),
            },
        }
    }

    /// Where the vehicle stands after `step` of the leg.
    pub open spec fn position_in(self, position: Vec3, step: Pico) -> Vec3 {
        match self {
            Leg::Turn { .. } => position,
            Leg::Straight { velocity, .. } => sum(position, covered(velocity, step as int)),
        }
    }

    /// Where the vehicle faces after `step` of the leg.
    pub open spec fn heading_in(self, heading: Pico, step: Pico) -> Pico {
        match self {
            Leg::Turn { omega, .. } => wrapped(
                heading + clip(muldiv(omega as int, step as int, UNIT as int)),
            ) as i64,
            Leg::Straight { .. } => heading,
        }
    }
}

/// Where a walk along legs has got to.
#[verifier::ext_equal]
pub struct WalkView {
    pub pieces: Seq<Piece>,
    pub legs: Seq<Leg>,
    pub position: Vec3,
    pub heading: Pico,
    /// What is left of the time.
    pub left: Pico,
}

/// The walk along `legs` in the time `left` that ends at `t`: leg boundaries
/// fall at exact instants inside the tick.
pub open spec fn walked(
    legs: Seq<Leg>,
    position: Vec3,
    heading: Pico,
    left: Pico,
    t: Pico,
) -> WalkView
    decreases legs.len(),
{
    if left <= 1 || legs.len() == 0 {
        WalkView { pieces: Seq::empty(), legs, position, heading, left }
    } else {
        let leg = legs[0];
        let need = leg.need();
        let rest = legs.drop_first();
        if need <= 1 {
            walked(rest, leg.position_after(position), leg.heading_after(heading), left, t)
        } else {
            let step = if need <= left {
                need
            } else {
                left
            };
            let t0 = clip(t - left);
            let piece = Piece { t0, t1: clip(t0 + step), motion: leg.motion(position) };
            if step >= need - 1 {
                let then_ = walked(
                    rest,
                    leg.position_after(position),
                    leg.heading_after(heading),
                    (left - step) as i64,
                    t,
                );
                WalkView { pieces: seq![piece] + then_.pieces, ..then_ }
            } else {
                WalkView {
                    pieces: seq![piece],
                    legs: legs.update(0, leg.shortened(step)),
                    position: leg.position_in(position, step),
                    heading: leg.heading_in(heading, step),
                    left: 0,
                }
            }
        }
    }
}

/// The pieces of a tick, the last one ending exactly at `t` where the tick's
/// time was used up.
pub open spec fn closed_pieces(pieces: Seq<Piece>, left: Pico, t: Pico) -> Seq<Piece> {
    if left <= 1 && pieces.len() > 0 {
        pieces.update(pieces.len() - 1, Piece { t1: t, ..pieces.last() })
    } else {
        pieces
    }
}

/// Walks `legs` through a tick of length `dt` that ends at `t`, and returns
/// the exact pieces of motion made.
pub fn walk_legs(
    legs: &mut Vec<Leg>,
    position: &mut Vec3,
    heading: &mut Pico,
    dt: Pico,
    t: Pico,
) -> (r: Vec<Piece>)
    ensures
        ({
            let w = walked(old(legs)@, *old(position), *old(heading), dt, t);
            &&& final(legs)@ == w.legs
            &&& *final(position) == w.position
            &&& *final(heading) == w.heading
            &&& r@ == closed_pieces(w.pieces, w.left, t)
        }),
{
    let ghost w = walked(legs@, *position, *heading, dt, t);
    let mut left: Pico = dt;
    let mut pieces: Vec<Piece> = Vec::new();
    assert(Seq::<Piece>::empty() + w.pieces =~= w.pieces);
    while left > 1 && legs.len() > 0
        invariant
            ({
                let v = walked(legs@, *position, *heading, left, t);
                &&& v.legs == w.legs
                &&& v.position == w.position
                &&& v.heading == w.heading
                &&& v.left == w.left
                &&& pieces@ + v.pieces == w.pieces
            }),
        decreases legs.len(), left,
    {
        let ghost v = walked(legs@, *position, *heading, left, t);
        let leg: Leg = legs[0];
        let ghost all = legs@;
        assert(all.remove(0) =~= all.drop_first());
        let need: Pico = match leg {
            Leg::Turn { need, .. } => need,
            Leg::Straight { need, .. } => need,
        };
        if need <= 1 {
            match leg {
                Leg::Turn { face, .. } => {
                    *heading = face;
                },
                Leg::Straight { to, .. } => {
                    *position = to;
                },
            }
            let _ = legs.remove(0);
            continue ;
        }
        let step: Pico = if need <= left {
            need
        } else {
            left
        };
        let t0: Pico = minus(t, left);
        let motion: VehiclePiece = match leg {
            Leg::Turn { omega, .. } => VehiclePiece::Piv { center: *position, omega },
            Leg::Straight { velocity, .. } => VehiclePiece::Lin { velocity },
        };
        let piece: Piece = Piece { t0, t1: plus(t0, step), motion };
        let ghost made = pieces@;
        pieces.push(piece);
        if step >= need - 1 {
            match leg {
                Leg::Turn { face, .. } => {
                    *heading = face;
                },
                Leg::Straight { to, .. } => {
                    *position = to;
                },
            }
            let _ = legs.remove(0);
            left = left - step;
            proof {
                let u = walked(legs@, *position, *heading, left, t);
                assert(v.pieces == seq![piece] + u.pieces);
                assert(made + (seq![piece] + u.pieces) =~= pieces@ + u.pieces);
            }
        } else {
            match leg {
                Leg::Turn { face, omega, need } => {
                    *heading = wrap_angle(
                        *heading as i128 + scaled(omega, step, UNIT as i128) as i128,
                    );
                    legs.set(0, Leg::Turn { face, omega, need: minus(need, step) });
                },
                Leg::Straight { to, velocity, need } => {
                    *position = summed(*position, cover(velocity, step));
                    legs.set(0, Leg::Straight { to, velocity, need: minus(need, step) });
                },
            }
            left = 0;
            proof {
                assert(pieces@ + Seq::<Piece>::empty() =~= made + seq![piece]);
            }
        }
    }
    assert(pieces@ + Seq::<Piece>::empty() =~= pieces@);
    let n: usize = pieces.len();
    if left <= 1 && n > 0 {
        let last: Piece = pieces[n - 1];
        pieces.set(n - 1, Piece { t0: last.t0, t1: t, motion: last.motion });
    }
    pieces
}

/// One leg of a drive laid out in time, with where it starts from.
#[derive(Clone, Copy, Debug, PartialEq, Eq, Structural)]
pub struct ProfilePiece {
    pub t0: Pico,
    pub t1: Pico,
    pub position: Vec3,
    pub heading: Pico,
    pub motion: VehiclePiece,
}

/// The closed-form drive a vehicle is about to make.
#[derive(Debug)]
pub struct BodyProfile {
    pub t0: Pico,
    pub t_end: Pico,
    pub pieces: Vec<ProfilePiece>,
    pub end_position: Vec3,
    pub end_heading: Pico,
}

/// What a profile says.
#[verifier::ext_equal]
pub struct ProfileView {
    pub t0: Pico,
    pub t_end: Pico,
    pub pieces: Seq<ProfilePiece>,
    pub end_position: Vec3,
    pub end_heading: Pico,
}

impl View for BodyProfile {
    type V = ProfileView;

    open spec fn view(&self) -> ProfileView {
        ProfileView {
            t0: self.t0,
            t_end: self.t_end,
            pieces: self.pieces@,
            end_position: self.end_position,
            end_heading: self.end_heading,
        }
    }
}

/// The legs laid out in time from `t` on, each with where it starts from.
pub open spec fn profiled(legs: Seq<Leg>, position: Vec3, heading: Pico, t: Pico) -> ProfileView
    decreases legs.len(),
{
    if legs.len() == 0 {
        ProfileView {
            t0: t,
            t_end: t,
            pieces: Seq::empty(),
            end_position: position,
            end_heading: heading,
        }
    } else {
        let leg = legs[0];
        let end = if leg.need() > 1 {
            clip(t + leg.need())
        } else {
            t
        };
        let rest = profiled(
            legs.drop_first(),
            leg.position_after(position),
            leg.heading_after(heading),
            end,
        );
        let here = if leg.need() > 1 {
            seq![ProfilePiece { t0: t, t1: end, position, heading, motion: leg.motion(position) }]
        } else {
            Seq::empty()
        };
        ProfileView { t0: t, pieces: here + rest.pieces, ..rest }
    }
}

/// The closed-form drive along `legs` from `t0` on. Built from the same legs
/// the tick walk consumes, so the body that footfalls are planned against is
/// the body that will be driven.
pub fn body_profile(legs: &Vec<Leg>, position: Vec3, heading: Pico, t0: Pico) -> (r: BodyProfile)
    ensures
        r@ == profiled(legs@, position, heading, t0),
{
    let ghost want = profiled(legs@, position, heading, t0);
    let mut pieces: Vec<ProfilePiece> = Vec::new();
    let mut at: Vec3 = position;
    let mut facing: Pico = heading;
    let mut t: Pico = t0;
    let mut i: usize = 0;
    assert(legs@.skip(0) =~= legs@);
    assert(Seq::<ProfilePiece>::empty() + want.pieces =~= want.pieces);
    while i < legs.len()
        invariant
            i <= legs.len(),
            ({
                let v = profiled(legs@.skip(i as int), at, facing, t);
                &&& v.t_end == want.t_end
                &&& v.end_position == want.end_position
                &&& v.end_heading == want.end_heading
                &&& pieces@ + v.pieces == want.pieces
            }),
        decreases legs.len() - i,
    {
        let ghost rest = legs@.skip(i as int);
        assert(rest[0] == legs@[i as int]);
        assert(rest.drop_first() =~= legs@.skip(i + 1));
        let ghost made = pieces@;
        let (need, motion): (Pico, VehiclePiece) = match legs[i] {
            Leg::Turn { need, omega, .. } => (need, VehiclePiece::Piv { center: at, omega }),
            Leg::Straight { need, velocity, .. } => (need, VehiclePiece::Lin { velocity }),
        };
        let end: Pico = if need > 1 {
            plus(t, need)
        } else {
            t
        };
        if need > 1 {
            pieces.push(ProfilePiece { t0: t, t1: end, position: at, heading: facing, motion });
        }
        match legs[i] {
            Leg::Turn { face, .. } => {
                facing = face;
            },
            Leg::Straight { to, .. } => {
                at = to;
            },
        }
        t = end;
        i = i + 1;
        proof {
            let v = profiled(legs@.skip(i as int), at, facing, t);
            if need > 1 {
                let here = pieces@.last();
                assert(made + (seq![here] + v.pieces) =~= pieces@ + v.pieces);
            } else {
                assert(Seq::<ProfilePiece>::empty() + v.pieces =~= v.pieces);
            }
        }
    }
    assert(pieces@ + Seq::<ProfilePiece>::empty() =~= pieces@);
    BodyProfile { t0, t_end: t, pieces, end_position: at, end_heading: facing }
}

/// Whether `a` is `k` turns from `b`.
pub open spec fn is_turns(a: int, b: int, k: int) -> bool {
    a == b + k * TAU
}

/// Whether two angles are whole turns apart.
pub open spec fn turns_apart(a: int, b: int) -> bool {
    exists|k: int| is_turns(a, b, k)
}

/// An angle wraps to the one of `(-PI, PI]` that is whole turns away from it, and
/// to no other.
pub proof fn law_an_angle_wraps_by_whole_turns(a: int, turns: int)
    ensures
        -PI < wrapped(a) <= PI,
        turns_apart(a, wrapped(a)),
        wrapped(a + turns * TAU) == wrapped(a),
        -PI < a <= PI ==> wrapped(a) == a,
{
    let tau = TAU as int;
    vstd::arithmetic::div_mod::lemma_fundamental_div_mod(a, tau);
    let q = a / tau;
    let k = if a % tau > PI {
        q + 1
    } else {
        q
    };
    assert(a == wrapped(a) + k * TAU) by (nonlinear_arith)
        requires
            a == tau * q + a % tau,
            wrapped(a) == (if a % tau > PI {
                a % tau - tau
            } else {
                a % tau
            }),
            k == (if a % tau > PI {
                q + 1
            } else {
                q
            }),
            tau == TAU as int,
    ;
    assert(is_turns(a, wrapped(a), k));
    vstd::arithmetic::div_mod::lemma_mod_multiples_vanish(turns, a, tau);
    assert(tau * turns + a == a + turns * TAU) by (nonlinear_arith)
        requires
            tau == TAU as int,
    ;
    if 0 <= a <= PI {
        vstd::arithmetic::div_mod::lemma_small_mod(a as nat, TAU as nat);
    } else if -PI < a < 0 {
        vstd::arithmetic::div_mod::lemma_mod_multiples_vanish(1, a, tau);
        vstd::arithmetic::div_mod::lemma_small_mod((a + TAU) as nat, TAU as nat);
    }
}

/// Half a turn on, an angle wraps to half a turn from where it did.
proof fn lemma_half_turn(a: int)
    ensures
        wrapped(a + PI) == (if wrapped(a) > 0 {
            wrapped(a) - PI
        } else {
            wrapped(a) + PI
        }),
{
    law_an_angle_wraps_by_whole_turns(a, 0);
    let k = choose|k: int| is_turns(a, wrapped(a), k);
    let w = wrapped(a);
    law_an_angle_wraps_by_whole_turns(w + PI, k);
    assert(a + PI == w + PI + k * TAU);
    if w > 0 {
        law_an_angle_wraps_by_whole_turns(w - PI, 1);
        assert(w - PI + 1 * TAU == w + PI);
    } else {
        law_an_angle_wraps_by_whole_turns(w + PI, 0);
    }
}

/// On a differential drive a leg is driven facing its course; one that may reverse
/// faces its course or exactly the other way, whichever asks for the lesser turn,
/// and so never turns by more than a quarter. A leg straight up or down is driven
/// without a turn.
pub proof fn law_a_leg_faces_its_course_or_away(
    d: Vec3,
    course: Pico,
    heading: Pico,
    allow_reverse: bool,
)
    requires
        -PI < course <= PI,
    ensures
        ({
            let faced = leg_heading(d, course, heading, Drive::Differential { allow_reverse });
            let ahead = abs(wrapped(course - heading));
            let runs = d.x * d.x + d.y * d.y > 1_000 * 1_000;
            &&& runs && !allow_reverse ==> faced == course
            &&& runs && allow_reverse ==> {
                &&& faced == course || faced == course + PI || faced == course - PI
                &&& -PI < faced <= PI
                &&& abs(wrapped(faced - heading)) <= FRAC_PI_2
                &&& abs(wrapped(faced - heading)) <= ahead
                &&& ahead <= FRAC_PI_2 ==> faced == course
                &&& ahead > FRAC_PI_2 ==> faced != course
            }
            &&& !runs ==> faced == heading
        }),
{
    law_an_angle_wraps_by_whole_turns(course as int, 0);
    law_an_angle_wraps_by_whole_turns(course - heading, 0);
    lemma_half_turn(course as int);
    lemma_half_turn(course - heading);
    assert(level_part(d).square() == d.x * d.x + d.y * d.y);
    let faced = leg_heading(d, course, heading, Drive::Differential { allow_reverse });
    if allow_reverse && long_enough(level_part(d)) && abs(wrapped(course - heading)) > FRAC_PI_2 {
        assert(faced == wrapped(course + PI));
        if faced == course - PI {
            law_an_angle_wraps_by_whole_turns(course - PI - heading, 1);
            assert(course - PI - heading + 1 * TAU == course - heading + PI);
        } else {
            assert(faced - heading == course - heading + PI);
        }
    }
}

/// A holonomic drive keeps its heading on every leg. What flies faces its course,
/// or the one heading it holds; straight up or down it turns only to the latter.
pub proof fn law_other_drives_face_as_they_are_told(
    d: Vec3,
    course: Pico,
    heading: Pico,
    climb_speed: Pico,
    descent_speed: Pico,
    psi: Pico,
)
    ensures
        leg_heading(d, course, heading, Drive::Holonomic) == heading,
        leg_heading(
            d,
            course,
            heading,
            Drive::Aerial { climb_speed, descent_speed, yaw: AerialYaw::Fixed(psi) },
        ) == psi,
        leg_heading(
            d,
            course,
            heading,
            Drive::Aerial { climb_speed, descent_speed, yaw: AerialYaw::Course },
        ) == (if d.x * d.x + d.y * d.y > 1_000 * 1_000 {
            course
        } else {
            heading
        }),
{
    assert(level_part(d).square() == d.x * d.x + d.y * d.y);
}

/// What is covered in a time at a speed: `need` is the time that a way takes,
/// rounded down, as far as a count reaches.
pub proof fn law_time_is_way_by_speed(len: int, speed: Pico)
    requires
        len >= 0,
        speed > 0,
    ensures
        ({
            let need = time_for(len, speed);
            &&& need >= 0
            &&& speed * need <= len * 1_000_000_000_000
            &&& need < i64::MAX ==> len * 1_000_000_000_000 < speed * (need + 1)
        }),
{
    let n = len * UNIT;
    let s = speed as int;
    assert(n >= 0) by (nonlinear_arith)
        requires
            len >= 0,
            n == len * UNIT,
            UNIT == 1_000_000_000_000i64,
    ;
    vstd::arithmetic::div_mod::lemma_fundamental_div_mod(n, s);
    vstd::arithmetic::div_mod::lemma_div_pos_is_pos(n, s);
    let need = time_for(len, speed);
    let q = n / s;
    assert(s * need <= s * q) by (nonlinear_arith)
        requires
            need <= q,
            s > 0,
    ;
    assert(s * (q + 1) == s * q + s) by (nonlinear_arith);
}

/// A turn is made the short way round, at the turning speed, in the time that its
/// angle takes, and ends facing as asked; a turn of no more than 10^-9 rad is not
/// made.
pub proof fn law_a_turn_goes_the_short_way(heading: Pico, to: Pico, turn_speed: Pico)
    requires
        turn_speed > 0,
    ensures
        ({
            let legs = turn_legs(heading, to, turn_speed);
            let angle = wrapped(to - heading);
            if abs(angle) <= 1_000 {
                legs.len() == 0
            } else {
                &&& legs.len() == 1
                &&& legs[0] matches Leg::Turn { face, omega, need } && face == to && omega == (
                if angle > 0 {
                    turn_speed as int
                } else {
                    -turn_speed
                }) && turn_speed * need <= abs(angle) * 1_000_000_000_000 && (need < i64::MAX
                    ==> abs(angle) * 1_000_000_000_000 < turn_speed * (need + 1))
            }
        }),
{
    let angle = wrapped(to - heading);
    law_an_angle_wraps_by_whole_turns(to - heading, 0);
    law_time_is_way_by_speed(abs(angle), turn_speed);
}

/// The length of a displacement is that of its square, rounded down, and no part
/// of it is longer.
pub proof fn law_no_part_is_longer_than_the_whole(d: Vec3)
    ensures
        length(d) >= 0,
        length(d) * length(d) <= d.x * d.x + d.y * d.y + d.z * d.z,
        d.x * d.x + d.y * d.y + d.z * d.z < (length(d) + 1) * (length(d) + 1),
        abs(d.x as int) <= length(d),
        abs(d.y as int) <= length(d),
        abs(d.z as int) <= length(d),
{
    lemma_length(d);
    let n = length(d);
    let (x, y, z) = (d.x as int, d.y as int, d.z as int);
    assert(x * x >= 0 && y * y >= 0 && z * z >= 0) by (nonlinear_arith);
    lemma_root_bound(x, n);
    lemma_root_bound(y, n);
    lemma_root_bound(z, n);
}

proof fn lemma_root_bound(x: int, n: int)
    requires
        n >= 0,
        x * x < (n + 1) * (n + 1),
    ensures
        abs(x) <= n,
{
    if abs(x) > n {
        assert(x * x >= (n + 1) * (n + 1)) by (nonlinear_arith)
            requires
                n >= 0,
                x >= n + 1 || -x >= n + 1,
        ;
    }
}

/// There is a root, and `length` is it.
proof fn lemma_length(d: Vec3)
    ensures
        crate::fixed::is_isqrt(d.square(), length(d)),
{
    let n = d.square();
    assert(n >= 0) by (nonlinear_arith)
        requires
            n == d.x * d.x + d.y * d.y + d.z * d.z,
    ;
    lemma_has_root(n as nat);
}

proof fn lemma_has_root(n: nat)
    ensures
        exists|r: int| crate::fixed::is_isqrt(n as int, r),
    decreases n,
{
    if n == 0 {
        assert(crate::fixed::is_isqrt(0, 0));
    } else {
        lemma_has_root((n - 1) as nat);
        let less = n - 1;
        let r = choose|r: int| crate::fixed::is_isqrt(less, r);
        assert((r + 2) * (r + 2) == (r + 1) * (r + 1) + 2 * (r + 1) + 1) by (nonlinear_arith);
        if n < (r + 1) * (r + 1) {
            assert(crate::fixed::is_isqrt(n as int, r));
        } else {
            assert(crate::fixed::is_isqrt(n as int, r + 1));
        }
    }
}

/// Whether on every axis `v` is to the speed as `d` to its length, rounded down.
pub open spec fn shares_out(v: Vec3, d: Vec3, speed: int) -> bool {
    let n = length(d);
    &&& 0 <= d.x * speed - n * v.x < n
    &&& 0 <= d.y * speed - n * v.y < n
    &&& 0 <= d.z * speed - n * v.z < n
}

/// What heads along `d` at a speed shares the speed out over the axes as `d` does.
pub proof fn law_cruising_is_along_the_way(d: Vec3, speed: Pico)
    requires
        length(d) > 0,
        speed > i64::MIN,
    ensures
        shares_out(cruise(d, speed), d, speed as int),
{
    law_no_part_is_longer_than_the_whole(d);
    let n = length(d);
    crate::fixed::lemma_part_of_speed(d.x as int, speed as int, n);
    crate::fixed::lemma_part_of_speed(d.y as int, speed as int, n);
    crate::fixed::lemma_part_of_speed(d.z as int, speed as int, n);
}

/// Whether `v` points as `d` does and is as long as the speed, but for what
/// rounding takes: the square of its length is that of the speed less six times the
/// speed at least, and no more than the rounded length of `d` and the counts make
/// it.
pub open spec fn goes_along(v: Vec3, d: Vec3, speed: int) -> bool {
    let n = length(d);
    let square = v.x * v.x + v.y * v.y + v.z * v.z;
    &&& speed * speed - 6 * speed <= square
    &&& (n * n) * square <= (speed * speed) * ((n + 1) * (n + 1)) + (6 * speed + 3) * (n * n)
    &&& abs(v.x * d.y - v.y * d.x) <= abs(d.x as int) + abs(d.y as int)
    &&& abs(v.y * d.z - v.z * d.y) <= abs(d.y as int) + abs(d.z as int)
    &&& abs(v.z * d.x - v.x * d.z) <= abs(d.z as int) + abs(d.x as int)
    &&& d.x >= 0 ==> v.x >= 0
    &&& d.x <= 0 ==> v.x <= 0
    &&& d.y >= 0 ==> v.y >= 0
    &&& d.y <= 0 ==> v.y <= 0
    &&& d.z >= 0 ==> v.z >= 0
    &&& d.z <= 0 ==> v.z <= 0
}

/// What heads along `d` at a speed of at least nothing goes as fast as that, and
/// the way that `d` points.
pub proof fn law_cruising_keeps_the_direction_and_takes_the_speed(d: Vec3, speed: Pico)
    requires
        length(d) > 0,
        speed >= 0,
    ensures
        goes_along(cruise(d, speed), d, speed as int),
{
    law_cruising_is_along_the_way(d, speed);
    law_no_part_is_longer_than_the_whole(d);
    let v = cruise(d, speed);
    crate::fixed::lemma_goes_along(
        d.x as int,
        d.y as int,
        d.z as int,
        v.x as int,
        v.y as int,
        v.z as int,
        length(d),
        speed as int,
    );
}

/// The time that legs take.
pub open spec fn time_of(legs: Seq<Leg>) -> int
    decreases legs.len(),
{
    if legs.len() == 0 {
        0
    } else {
        (if legs[0].need() > 1 {
            legs[0].need() as int
        } else {
            0
        }) + time_of(legs.drop_first())
    }
}

/// A drive that is given all the time it takes ends where, and faces as, its
/// profile says: what footfalls are planned against is what is driven.
pub proof fn law_walk_ends_where_the_profile_says(
    legs: Seq<Leg>,
    position: Vec3,
    heading: Pico,
    left: Pico,
    t: Pico,
    t0: Pico,
)
    requires
        left > time_of(legs) + 1,
    ensures
        ({
            let w = walked(legs, position, heading, left, t);
            let p = profiled(legs, position, heading, t0);
            &&& w.legs.len() == 0
            &&& w.position == p.end_position
            &&& w.heading == p.end_heading
            &&& w.left == left - time_of(legs)
            &&& w.pieces.len() == p.pieces.len()
        }),
    decreases legs.len(),
{
    lemma_time_of(legs);
    if legs.len() > 0 {
        let leg = legs[0];
        let rest = legs.drop_first();
        lemma_time_of(rest);
        let end = if leg.need() > 1 {
            clip(t0 + leg.need())
        } else {
            t0
        };
        let after = if leg.need() > 1 {
            (left - leg.need()) as i64
        } else {
            left
        };
        law_walk_ends_where_the_profile_says(
            rest,
            leg.position_after(position),
            leg.heading_after(heading),
            after,
            t,
            end,
        );
    }
}

proof fn lemma_time_of(legs: Seq<Leg>)
    ensures
        time_of(legs) >= 0,
    decreases legs.len(),
{
    if legs.len() > 0 {
        lemma_time_of(legs.drop_first());
    }
}

/// A way is driven by one straight leg to its end, after the turn that its drive asks
/// for, where there is one. On the ground the leg is driven at the speed given, in
/// the time that its length takes.
pub proof fn law_a_way_is_driven_straight_to_its_end(
    to: Vec3,
    d: Vec3,
    course: Pico,
    heading: Pico,
    speed: Pico,
    turn_speed: Pico,
    drive: Drive,
)
    requires
        length(d) > 0,
        speed > 0,
    ensures
        ({
            let legs = legs_over(to, d, course, heading, speed, turn_speed, drive);
            let turn = turn_legs(heading, leg_heading(d, course, heading, drive), turn_speed);
            let n = legs.len() as int;
            &&& drive is Holonomic ==> n == 1
            &&& !(drive is Holonomic) ==> n == turn.len() + 1 && forall|i: int|
                0 <= i < n - 1 ==> #[trigger] legs[i] == turn[i]
            &&& legs[n - 1] matches Leg::Straight { to: end, velocity, need } && end == to && (
            !(drive is Aerial) ==> shares_out(velocity, d, speed as int) && need >= 0 && speed
                * need <= length(d) * 1_000_000_000_000 && (need < i64::MAX ==> length(d)
                * 1_000_000_000_000 < speed * (need + 1)))
        }),
{
    law_cruising_is_along_the_way(d, speed);
    law_time_is_way_by_speed(length(d), speed);
}

/// What flies gives every axis the time that the slowest of them takes: no less than
/// the level part takes at its speed, than a climb takes at the climbing speed or a
/// descent at the descending speed, and exactly one of these, but no less than the
/// least count. It flies at the rate that brings it there in that time, rounded down.
pub proof fn law_a_flight_takes_as_long_as_its_slowest_part(
    to: Vec3,
    d: Vec3,
    course: Pico,
    heading: Pico,
    speed: Pico,
    turn_speed: Pico,
    climb_speed: Pico,
    descent_speed: Pico,
    yaw: AerialYaw,
)
    ensures
        ({
            let drive = Drive::Aerial { climb_speed, descent_speed, yaw };
            let legs = legs_over(to, d, course, heading, speed, turn_speed, drive);
            let runs = d.x * d.x + d.y * d.y > 1_000 * 1_000;
            let level = time_for(length(Vec3 { x: d.x, y: d.y, z: 0 }), speed);
            let up = time_for(d.z as int, climb_speed);
            let down = time_for(-d.z, descent_speed);
            &&& legs.len() > 0
            &&& legs[legs.len() - 1] matches Leg::Straight { to: end, velocity, need: t } && {
                &&& end == to
                &&& t >= 1
                &&& runs ==> t >= level
                &&& d.z > 1_000 ==> t >= up
                &&& d.z < -1_000 ==> t >= down
                &&& t == 1 || (runs && t == level) || (d.z > 1_000 && t == up) || (d.z < -1_000
                    && t == down)
                &&& brings_there(velocity.x as int, d.x as int, t as int)
                &&& brings_there(velocity.y as int, d.y as int, t as int)
                &&& brings_there(velocity.z as int, d.z as int, t as int)
            }
        }),
{
    assert(level_part(d).square() == d.x * d.x + d.y * d.y);
    let t = flight_time(d, speed, climb_speed, descent_speed);
    lemma_brings_there(d.x as int, t as int);
    lemma_brings_there(d.y as int, t as int);
    lemma_brings_there(d.z as int, t as int);
}

proof fn lemma_brings_there(way: int, t: int)
    requires
        t >= 1,
    ensures
        brings_there(clip(muldiv(way, UNIT as int, t)) as int, way, t),
{
    crate::fixed::law_quotients_are_rounded_down(way, UNIT as int, t);
    let q = muldiv(way, UNIT as int, t);
    let rate = clip(q) as int;
    assert(rate <= q ==> t * rate <= t * q) by (nonlinear_arith)
        requires
            t >= 1,
    ;
    assert(q <= rate ==> t * q <= t * rate) by (nonlinear_arith)
        requires
            t >= 1,
    ;
}

/// A rate that makes a way in a time, rounded down, as far as a count reaches.
pub open spec fn brings_there(rate: int, way: int, t: int) -> bool {
    &&& rate > i64::MIN && rate < i64::MAX ==> t * rate <= way * 1_000_000_000_000 < t * rate + t
    &&& rate == i64::MAX ==> t * rate <= way * 1_000_000_000_000
    &&& rate == i64::MIN ==> way * 1_000_000_000_000 < t * rate + t
}

/// A drive along a route ends less than 10^-9 m from the route's last waypoint; every
/// straight leg of it goes to a waypoint of the route; and the first waypoint that is
/// not where the vehicle stands already is what it drives to first.
pub proof fn law_a_drive_goes_along_its_route(
    waypoints: Seq<Vec3>,
    route: Seq<usize>,
    courses: Seq<Pico>,
    position: Vec3,
    heading: Pico,
    speed: Pico,
    turn_speed: Pico,
    drive: Drive,
    t: Pico,
    i: int,
)
    requires
        route.len() > 0,
    ensures
        ({
            let legs = legs_of(
                waypoints,
                route,
                courses,
                position,
                heading,
                speed,
                turn_speed,
                drive,
            );
            let end = profiled(legs, position, heading, t).end_position;
            let first = waypoints[route[0] as int];
            &&& length(difference(waypoints[route[route.len() - 1] as int], end)) < 1_000
            &&& 0 <= i < legs.len() ==> (legs[i] matches Leg::Straight { to, .. } ==> exists|k: int|
                0 <= k < route.len() && waypoints[#[trigger] route[k] as int] == to)
            &&& length(difference(first, position)) >= 1_000 ==> {
                let here = legs_over(
                    first,
                    difference(first, position),
                    courses[0],
                    heading,
                    speed,
                    turn_speed,
                    drive,
                );
                here.len() <= legs.len() && legs.take(here.len() as int) == here
            }
        }),
    decreases route.len(),
{
    let to = waypoints[route[0] as int];
    let d = difference(to, position);
    let more = route.drop_first();
    let less = courses.drop_first();
    let legs = legs_of(waypoints, route, courses, position, heading, speed, turn_speed, drive);
    if length(d) < NANO {
        if more.len() > 0 {
            law_a_drive_goes_along_its_route(
                waypoints,
                more,
                less,
                position,
                heading,
                speed,
                turn_speed,
                drive,
                t,
                i,
            );
            assert(more[more.len() - 1] == route[route.len() - 1]);
            if 0 <= i < legs.len() && legs[i] is Straight {
                let k = choose|k: int|
                    0 <= k < more.len() && waypoints[#[trigger] more[k] as int]
                        == legs[i]->Straight_to;
                assert(waypoints[route[k + 1] as int] == legs[i]->Straight_to);
            }
        }
    } else {
        let facing = leg_heading(d, courses[0], heading, drive);
        let here = legs_over(to, d, courses[0], heading, speed, turn_speed, drive);
        let rest = legs_of(waypoints, more, less, to, facing, speed, turn_speed, drive);
        assert(legs == here + rest);
        assert(legs.take(here.len() as int) =~= here);
        lemma_profile_over(here, rest, position, heading, t);
        assert(here[here.len() - 1]->Straight_to == to);
        let at = here.len() - 1;
        lemma_profile_end(here, position, heading, t);
        let start = profiled(here, position, heading, t);
        if more.len() > 0 {
            law_a_drive_goes_along_its_route(
                waypoints,
                more,
                less,
                to,
                facing,
                speed,
                turn_speed,
                drive,
                start.t_end,
                i - here.len(),
            );
            assert(more[more.len() - 1] == route[route.len() - 1]);
            lemma_end_position(rest, to, start.end_heading, facing, start.t_end);
        } else {
            assert(rest.len() == 0);
            lemma_no_way(to);
        }
        if 0 <= i < legs.len() && legs[i] is Straight {
            if i >= here.len() {
                assert(legs[i] == rest[i - here.len()]);
                let k = choose|k: int|
                    0 <= k < more.len() && waypoints[#[trigger] more[k] as int]
                        == legs[i]->Straight_to;
                assert(waypoints[route[k + 1] as int] == legs[i]->Straight_to);
            } else {
                assert(legs[i] == here[i]);
                assert(waypoints[route[0] as int] == to);
            }
        }
    }
}

proof fn lemma_no_way(p: Vec3)
    ensures
        length(difference(p, p)) < 1_000,
{
    let d = difference(p, p);
    law_no_part_is_longer_than_the_whole(d);
    let n = length(d);
    assert(d.x == 0 && d.y == 0 && d.z == 0);
    assert(d.x * d.x + d.y * d.y + d.z * d.z == 0) by (nonlinear_arith)
        requires
            d.x == 0,
            d.y == 0,
            d.z == 0,
    ;
    assert(n < 1) by (nonlinear_arith)
        requires
            n >= 0,
            n * n <= 0,
    ;
}

/// Where a profile ends does not depend on how it faces, nor on when it starts.
proof fn lemma_end_position(legs: Seq<Leg>, position: Vec3, h: Pico, g: Pico, t: Pico)
    ensures
        profiled(legs, position, h, t).end_position == profiled(legs, position, g, t).end_position,
    decreases legs.len(),
{
    if legs.len() > 0 {
        let leg = legs[0];
        let end = if leg.need() > 1 {
            clip(t + leg.need())
        } else {
            t
        };
        lemma_end_position(
            legs.drop_first(),
            leg.position_after(position),
            leg.heading_after(h),
            leg.heading_after(g),
            end,
        );
    }
}

/// Legs whose last one is straight end where it goes.
proof fn lemma_profile_end(legs: Seq<Leg>, position: Vec3, heading: Pico, t: Pico)
    requires
        legs.len() > 0,
        legs[legs.len() - 1] is Straight,
    ensures
        profiled(legs, position, heading, t).end_position == legs[legs.len() - 1]->Straight_to,
    decreases legs.len(),
{
    let leg = legs[0];
    let end = if leg.need() > 1 {
        clip(t + leg.need())
    } else {
        t
    };
    let rest = legs.drop_first();
    if rest.len() > 0 {
        assert(rest[rest.len() - 1] == legs[legs.len() - 1]);
        lemma_profile_end(rest, leg.position_after(position), leg.heading_after(heading), end);
    } else {
        assert(profiled(
            rest,
            leg.position_after(position),
            leg.heading_after(heading),
            end,
        ).end_position == leg.position_after(position));
    }
}

/// A profile over legs and then more legs.
proof fn lemma_profile_over(
    here: Seq<Leg>,
    rest: Seq<Leg>,
    position: Vec3,
    heading: Pico,
    t: Pico,
)
    ensures
        ({
            let a = profiled(here, position, heading, t);
            profiled(here + rest, position, heading, t).end_position == profiled(
                rest,
                a.end_position,
                a.end_heading,
                a.t_end,
            ).end_position
        }),
    decreases here.len(),
{
    if here.len() == 0 {
        assert(here + rest =~= rest);
    } else {
        let leg = here[0];
        let end = if leg.need() > 1 {
            clip(t + leg.need())
        } else {
            t
        };
        assert((here + rest)[0] == leg);
        assert((here + rest).drop_first() =~= here.drop_first() + rest);
        lemma_profile_over(
            here.drop_first(),
            rest,
            leg.position_after(position),
            leg.heading_after(heading),
            end,
        );
    }
}

/// In a tick that does not finish a leg, a vehicle goes along it: it makes one piece,
/// over the whole tick, and the leg is shorter by the tick. On a straight leg it gets
/// as far as the leg's velocity takes it; on a turn it stays where it is and turns at
/// the leg's rate.
pub proof fn law_a_tick_within_a_leg(
    legs: Seq<Leg>,
    position: Vec3,
    heading: Pico,
    left: Pico,
    t: Pico,
)
    requires
        legs.len() > 0,
        1 < left,
        left + 1 < legs[0].need(),
        t - left >= i64::MIN,
        legs[0] matches Leg::Straight { velocity, .. } ==> crate::fixed::roomy(
            position,
            velocity,
            left as int,
        ),
        legs[0] matches Leg::Turn { omega, .. } ==> crate::fixed::roomy_part(
            0,
            omega as int,
            left as int,
        ),
    ensures
        ({
            let w = walked(legs, position, heading, left, t);
            &&& w.left == 0
            &&& w.legs.len() == legs.len()
            &&& forall|i: int| 0 < i < legs.len() ==> #[trigger] w.legs[i] == legs[i]
            &&& w.pieces.len() == 1
            &&& w.pieces[0].t0 == t - left
            &&& w.pieces[0].t1 == t
            &&& match legs[0] {
                Leg::Straight { to, velocity, need } => {
                    &&& w.legs[0] == (Leg::Straight { to, velocity, need: (need - left) as i64 })
                    &&& w.pieces[0].motion == (VehiclePiece::Lin { velocity })
                    &&& w.heading == heading
                    &&& crate::fixed::gets_to(position, w.position, velocity, left as int)
                },
                Leg::Turn { face, omega, need } => {
                    &&& w.legs[0] == (Leg::Turn { face, omega, need: (need - left) as i64 })
                    &&& w.pieces[0].motion == (VehiclePiece::Piv { center: position, omega })
                    &&& w.position == position
                    &&& -PI <= w.heading <= PI
                    &&& exists|phi: int| #[trigger]
                        turns_apart(heading + phi, w.heading as int) && 0 <= omega * left
                            - 1_000_000_000_000 * phi < 1_000_000_000_000
                },
            }
        }),
{
    let w = walked(legs, position, heading, left, t);
    match legs[0] {
        Leg::Straight { velocity, .. } => {
            let p = crate::fixed::Pose { at: position, i: 0, j: 0, k: 0, w: 0 };
            crate::fixed::law_a_rate_takes_a_body_its_way(p, velocity, left as int);
        },
        Leg::Turn { omega, .. } => {
            crate::fixed::law_quotients_are_rounded_down(omega as int, left as int, UNIT as int);
            let phi = muldiv(omega as int, left as int, UNIT as int);
            law_an_angle_wraps_by_whole_turns(heading + phi, 0);
            assert(turns_apart(heading + phi, w.heading as int));
        },
    }
}

/// The pieces that a walk makes follow one another without a gap, from the start of
/// its time to where it is used up; a leg that is done is left where it goes, facing
/// as it asks.
pub proof fn law_pieces_follow_one_another(
    legs: Seq<Leg>,
    position: Vec3,
    heading: Pico,
    left: Pico,
    t: Pico,
    i: int,
)
    requires
        t - left >= i64::MIN,
        0 <= left,
    ensures
        ({
            let w = walked(legs, position, heading, left, t);
            let n = w.pieces.len() as int;
            &&& 0 <= w.left <= left
            &&& n == 0 ==> w.left == left
            &&& n > 0 ==> w.pieces[0].t0 == t - left
            &&& n > 0 ==> w.pieces[n - 1].t1 == t - w.left
            &&& 0 <= i < n - 1 ==> w.pieces[i].t1 == w.pieces[i + 1].t0
            &&& 0 <= i < n ==> w.pieces[i].t0 < w.pieces[i].t1
        }),
    decreases legs.len(),
{
    if left > 1 && legs.len() > 0 {
        let leg = legs[0];
        let need = leg.need();
        let rest = legs.drop_first();
        let w = walked(legs, position, heading, left, t);
        if need <= 1 {
            law_pieces_follow_one_another(
                rest,
                leg.position_after(position),
                leg.heading_after(heading),
                left,
                t,
                i,
            );
        } else {
            let step = if need <= left {
                need
            } else {
                left
            };
            if step >= need - 1 {
                let more = (left - step) as i64;
                let v = walked(
                    rest,
                    leg.position_after(position),
                    leg.heading_after(heading),
                    more,
                    t,
                );
                law_pieces_follow_one_another(
                    rest,
                    leg.position_after(position),
                    leg.heading_after(heading),
                    more,
                    t,
                    i - 1,
                );
                if v.pieces.len() > 0 {
                    assert(w.pieces[w.pieces.len() - 1] == v.pieces[v.pieces.len() - 1]);
                }
                if 0 <= i < w.pieces.len() - 1 {
                    assert(w.pieces[i + 1] == v.pieces[i]);
                    if i > 0 {
                        assert(w.pieces[i] == v.pieces[i - 1]);
                    }
                }
                if 0 < i < w.pieces.len() {
                    assert(w.pieces[i] == v.pieces[i - 1]);
                }
            }
        }
    }
}

/// A leg that a tick has time for, to within 10^-12 s, is done: the vehicle is where it
/// goes and faces as it asks, and what time is left goes to the legs behind it.
pub proof fn law_a_leg_that_is_done_is_left_behind(
    legs: Seq<Leg>,
    position: Vec3,
    heading: Pico,
    left: Pico,
    t: Pico,
)
    requires
        legs.len() > 0,
        1 < left,
        0 <= legs[0].need() <= left + 1,
    ensures
        ({
            let w = walked(legs, position, heading, left, t);
            let (at, facing) = match legs[0] {
                Leg::Straight { to, .. } => (to, heading),
                Leg::Turn { face, .. } => (position, face),
            };
            let spent = if legs[0].need() <= 1 {
                0
            } else if legs[0].need() <= left {
                legs[0].need() as int
            } else {
                left as int
            };
            let more = walked(legs.drop_first(), at, facing, (left - spent) as i64, t);
            &&& w.legs == more.legs
            &&& w.position == more.position
            &&& w.heading == more.heading
            &&& w.left == more.left
        }),
{
}

/// A tick whose time is used up ends with a piece that ends exactly with it; nothing
/// else about its pieces changes.
pub proof fn law_the_last_piece_ends_with_the_tick(pieces: Seq<Piece>, left: Pico, t: Pico, i: int)
    requires
        0 <= i < pieces.len(),
    ensures
        ({
            let closed = closed_pieces(pieces, left, t);
            &&& closed.len() == pieces.len()
            &&& i < pieces.len() - 1 || left > 1 ==> closed[i] == pieces[i]
            &&& i == pieces.len() - 1 && left <= 1 ==> closed[i] == (Piece { t1: t, ..pieces[i] })
        }),
{
}

/// A profile lays its legs out one behind the other: its pieces follow one another
/// without a gap, from its start to its end, which comes the time of its legs later.
pub proof fn law_a_profile_lays_its_legs_out(
    legs: Seq<Leg>,
    position: Vec3,
    heading: Pico,
    t: Pico,
    i: int,
)
    requires
        t + time_of(legs) <= i64::MAX,
    ensures
        ({
            let p = profiled(legs, position, heading, t);
            let n = p.pieces.len() as int;
            &&& p.t0 == t
            &&& p.t_end == t + time_of(legs)
            &&& n > 0 ==> p.pieces[0].t0 == t
            &&& n > 0 ==> p.pieces[n - 1].t1 == p.t_end
            &&& n == 0 ==> p.t_end == t
            &&& 0 <= i < n - 1 ==> p.pieces[i].t1 == p.pieces[i + 1].t0
            &&& legs.len() > 0 && legs[0].need() > 1 ==> n > 0 && p.pieces[0].position == position
                && p.pieces[0].heading == heading && (match (legs[0], p.pieces[0].motion) {
                (Leg::Straight { velocity, .. }, VehiclePiece::Lin { velocity: v }) => v
                    == velocity,
                (Leg::Turn { omega, .. }, VehiclePiece::Piv { center, omega: o }) => o == omega
                    && center == position,
                _ => false,
            })
        }),
    decreases legs.len(),
{
    lemma_time_of(legs);
    if legs.len() > 0 {
        let leg = legs[0];
        let rest = legs.drop_first();
        lemma_time_of(rest);
        let p = profiled(legs, position, heading, t);
        let end = if leg.need() > 1 {
            clip(t + leg.need())
        } else {
            t
        };
        let q = profiled(rest, leg.position_after(position), leg.heading_after(heading), end);
        let j = if leg.need() > 1 {
            i - 1
        } else {
            i
        };
        law_a_profile_lays_its_legs_out(
            rest,
            leg.position_after(position),
            leg.heading_after(heading),
            end,
            j,
        );
        if leg.need() > 1 {
            assert(forall|k: int| 0 <= k < q.pieces.len() ==> p.pieces[k + 1] == q.pieces[k]);
            if 0 <= i < p.pieces.len() - 1 {
                assert(p.pieces[i + 1] == q.pieces[i]);
                if i > 0 {
                    assert(p.pieces[(i - 1) + 1] == q.pieces[i - 1]);
                }
            }
            if q.pieces.len() > 0 {
                assert(p.pieces[(q.pieces.len() - 1) + 1] == q.pieces[q.pieces.len() - 1]);
            }
        } else {
            assert(p.pieces =~= q.pieces);
        }
    }
}

/// A route ends at the waypoint asked for.
pub proof fn law_route_arrives(waypoints: Seq<Vec3>, ring: bool, from: int, to: int)
    requires
        0 <= from < waypoints.len() <= usize::MAX,
        0 <= to < waypoints.len(),
        from != to,
    ensures
        route_of(waypoints, ring, from, to).len() > 0,
        route_of(waypoints, ring, from, to).last() == to,
{
    if ring {
        let n = waypoints.len() as int;
        lemma_ring_end(n, from, 1, ring_steps(n, from, to));
        lemma_ring_end(n, from, n - 1, ring_steps(n, to, from));
        let f = ring_steps(n, from, to) as int;
        let b = ring_steps(n, to, from) as int;
        assert((from + f * 1) % n == to) by {
            if from <= to {
                vstd::arithmetic::div_mod::lemma_small_mod(to as nat, n as nat);
            } else {
                assert(from + f == n + to);
                vstd::arithmetic::div_mod::lemma_mod_add_multiples_vanish(to, n);
                vstd::arithmetic::div_mod::lemma_small_mod(to as nat, n as nat);
            }
        }
        assert((from + b * (n - 1)) % n == to) by {
            // b(n − 1) = bn − b, and from − b is to or to − n.
            let q = if to <= from {
                b
            } else {
                b - 1
            };
            assert(from + b * (n - 1) == q * n + to) by (nonlinear_arith)
                requires
                    q == (if to <= from { b } else { b - 1 }),
                    b == (if to <= from { from - to } else { n - to + from }),
            ;
            vstd::arithmetic::div_mod::lemma_fundamental_div_mod_converse(
                from + b * (n - 1),
                n,
                q,
                to,
            );
        }
    }
}

proof fn lemma_ring_end(n: int, from: int, step: int, count: nat)
    requires
        0 < n <= usize::MAX,
        0 <= from < n,
        0 <= step,
        count > 0,
    ensures
        ring_walk(n, from, step, count).len() == count,
        ring_walk(n, from, step, count).last() == (from + count * step) % n,
    decreases count,
{
    lemma_ring_walk(n, from, step, count);
    let next = (from + step) % n;
    let rest = ring_walk(n, next, step, (count - 1) as nat);
    lemma_ring_walk(n, next, step, (count - 1) as nat);
    if count == 1 {
        assert(count * step == step) by (nonlinear_arith)
            requires
                count == 1,
        ;
        assert(ring_walk(n, from, step, count).last() == next as usize);
    } else {
        lemma_ring_end(n, next, step, (count - 1) as nat);
        assert(ring_walk(n, from, step, count).last() == rest.last());
        assert((next + (count - 1) * step) % n == (from + count * step) % n) by {
            vstd::arithmetic::div_mod::lemma_add_mod_noop(from + step, (count - 1) * step, n);
            vstd::arithmetic::div_mod::lemma_add_mod_noop(next, (count - 1) * step, n);
            vstd::arithmetic::div_mod::lemma_mod_twice(from + step, n);
            assert(from + step + (count - 1) * step == from + count * step) by (nonlinear_arith);
        }
    }
}


/// Two walks that are as long as each other: however fine the steps that each
/// edge is rounded down to, the sums differ by less than a step an edge.
pub open spec fn equally_long(waypoints: Seq<Vec3>, from: int, a: Seq<usize>, b: Seq<usize>) -> bool {
    forall|scale: int|
        scale > 0 ==> -(a.len() + b.len()) < (#[trigger] walk_length(waypoints, from, a, scale))
            - walk_length(waypoints, from, b, scale) < a.len() + b.len()
}

/// On a ring the way taken is longer than the other way around by no more than
/// the margin, and where both are equally long it is the way forward.
pub proof fn law_ring_takes_the_shorter_way(waypoints: Seq<Vec3>, from: int, to: int)
    requires
        0 <= from < waypoints.len() <= usize::MAX,
        0 <= to < waypoints.len(),
        from != to,
    ensures
        ({
            let n = waypoints.len() as int;
            let scale = FINE as int;
            let taken = route_of(waypoints, true, from, to);
            let forward = forward_way(n, from, to);
            let backward = backward_way(n, from, to);
            &&& taken == forward || taken == backward
            &&& walk_length(waypoints, from, taken, scale) <= walk_length(
                waypoints,
                from,
                forward,
                scale,
            )
            &&& walk_length(waypoints, from, taken, scale) <= walk_length(
                waypoints,
                from,
                backward,
                scale,
            ) + margin(n)
            &&& equally_long(waypoints, from, forward, backward) ==> taken == forward
        }),
{
    let n = waypoints.len() as int;
    lemma_ring_walk(n, from, 1, ring_steps(n, from, to));
    lemma_ring_walk(n, from, n - 1, ring_steps(n, to, from));
    let forward = forward_way(n, from, to);
    let backward = backward_way(n, from, to);
    assert(forward.len() + backward.len() == n);
    if equally_long(waypoints, from, forward, backward) {
        assert(walk_length(waypoints, from, forward, FINE as int) - walk_length(
            waypoints,
            from,
            backward,
            FINE as int,
        ) < n);
    }
}

/// Where `k` steps forward from `from` lead on a ring of `n`, none of them
/// further than once around.
pub open spec fn ahead_by(n: int, from: int, k: int) -> int {
    if from + k < n {
        from + k
    } else {
        from + k - n
    }
}

/// Where `k` steps backward lead.
pub open spec fn behind_by(n: int, from: int, k: int) -> int {
    if from - k >= 0 {
        from - k
    } else {
        from - k + n
    }
}

proof fn lemma_ahead(n: int, from: int, count: nat)
    requires
        1 < n <= usize::MAX,
        0 <= from < n,
        count < n,
    ensures
        forall|k: int|
            0 <= k < count ==> (#[trigger] ring_walk(n, from, 1, count)[k]) == ahead_by(
                n,
                from,
                k + 1,
            ),
    decreases count,
{
    lemma_ring_walk(n, from, 1, count);
    if count > 0 {
        let next = (from + 1) % n;
        assert(next == ahead_by(n, from, 1)) by (nonlinear_arith)
            requires
                0 <= from < n,
                1 < n,
                next == (from + 1) % n,
        ;
        lemma_ahead(n, next, (count - 1) as nat);
        lemma_ring_walk(n, next, 1, (count - 1) as nat);
        let rest = ring_walk(n, next, 1, (count - 1) as nat);
        assert forall|k: int| 0 <= k < count implies (#[trigger] ring_walk(n, from, 1, count)[k])
            == ahead_by(n, from, k + 1) by {
            if k > 0 {
                assert(ring_walk(n, from, 1, count)[k] == rest[k - 1]);
            }
        }
    }
}

proof fn lemma_behind(n: int, from: int, count: nat)
    requires
        1 < n <= usize::MAX,
        0 <= from < n,
        count < n,
    ensures
        forall|k: int|
            0 <= k < count ==> (#[trigger] ring_walk(n, from, n - 1, count)[k]) == behind_by(
                n,
                from,
                k + 1,
            ),
    decreases count,
{
    lemma_ring_walk(n, from, n - 1, count);
    if count > 0 {
        let next = (from + (n - 1)) % n;
        assert(next == behind_by(n, from, 1)) by (nonlinear_arith)
            requires
                0 <= from < n,
                1 < n,
                next == (from + (n - 1)) % n,
        ;
        lemma_behind(n, next, (count - 1) as nat);
        lemma_ring_walk(n, next, n - 1, (count - 1) as nat);
        let rest = ring_walk(n, next, n - 1, (count - 1) as nat);
        assert forall|k: int|
            0 <= k < count implies (#[trigger] ring_walk(n, from, n - 1, count)[k]) == behind_by(
            n,
            from,
            k + 1,
        ) by {
            if k > 0 {
                assert(ring_walk(n, from, n - 1, count)[k] == rest[k - 1]);
            }
        }
    }
}

/// Whether two waypoints are neighbours on the path.
pub open spec fn neighbours(n: int, ring: bool, a: int, b: int) -> bool {
    ||| b == a + 1
    ||| b == a - 1
    ||| ring && a == n - 1 && b == 0
    ||| ring && a == 0 && b == n - 1
}

/// A route leaves its start out, visits nothing twice, and goes from each
/// waypoint to a neighbour of it.
pub proof fn law_route_goes_by_neighbours(waypoints: Seq<Vec3>, ring: bool, from: int, to: int)
    requires
        0 <= from < waypoints.len() <= usize::MAX,
        0 <= to < waypoints.len(),
        from != to,
    ensures
        ({
            let n = waypoints.len() as int;
            let r = route_of(waypoints, ring, from, to);
            &&& r.len() > 0
            &&& neighbours(n, ring, from, r[0] as int)
            &&& forall|k: int| 0 <= k < r.len() ==> (#[trigger] r[k]) != from
            &&& forall|i: int, j: int|
                #![trigger r[i], r[j]]
                0 <= i < j < r.len() ==> r[i] != r[j]
            &&& forall|i: int, j: int|
                #![trigger r[i], r[j]]
                0 <= i < r.len() && j == i + 1 && j < r.len() ==> neighbours(
                    n,
                    ring,
                    r[i] as int,
                    r[j] as int,
                )
            &&& !ring ==> r.len() == abs(to - from)
        }),
{
    let n = waypoints.len() as int;
    if ring {
        lemma_ring_walk(n, from, 1, ring_steps(n, from, to));
        lemma_ring_walk(n, from, n - 1, ring_steps(n, to, from));
        lemma_ahead(n, from, ring_steps(n, from, to));
        lemma_behind(n, from, ring_steps(n, to, from));
    }
}

} // verus!
