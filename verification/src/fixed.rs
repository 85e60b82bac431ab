//! Fixed-point quantities.
//!
//! A [`Pico`] counts 10^-12 of its unit: picoseconds, picometres,
//! picoradians. Sums and comparisons of such counts are exact; products and
//! quotients are taken in 128 bits and rounded down.

use vstd::arithmetic::power2::{lemma2_to64, lemma_pow2_strictly_increases, lemma_pow2_unfold, pow2};
use vstd::prelude::*;

verus! {

/// An integer count of 10^-12 of a second, a metre or a radian.
pub type Pico = i64;

/// One whole unit (a second, a metre, a radian).
pub const UNIT: Pico = 1_000_000_000_000;

/// 10^-3 of a unit.
pub const MILLI: Pico = 1_000_000_000;

/// 10^-6 of a unit.
pub const MICRO: Pico = 1_000_000;

/// 10^-9 of a unit: the slack within which two instants are the same.
pub const NANO: Pico = 1_000;

/// Half a turn.
pub const PI: Pico = 3_141_592_653_590;

/// A whole turn.
pub const TAU: Pico = 6_283_185_307_180;

/// A quarter of a turn.
pub const FRAC_PI_2: Pico = 1_570_796_326_795;

/// A displacement or a rate, per axis.
#[derive(Clone, Copy, Debug, PartialEq, Eq, Structural)]
pub struct Vec3 {
    pub x: Pico,
    pub y: Pico,
    pub z: Pico,
}

/// A rigid pose: a translation and a unit quaternion. The quaternion is
/// carried, never read: the engine orders and shifts translations, and what
/// turns a pose is computed outside and handed in.
#[derive(Clone, Copy, Debug, PartialEq, Eq, Structural)]
pub struct Pose {
    pub at: Vec3,
    pub i: Pico,
    pub j: Pico,
    pub k: Pico,
    pub w: Pico,
}

impl Vec3 {
    /// The square of the length.
    pub open spec fn square(self) -> int {
        self.x * self.x + self.y * self.y + self.z * self.z
    }
}

/// The largest integer whose square is at most `n`.
pub open spec fn is_isqrt(n: int, r: int) -> bool {
    0 <= r && r * r <= n && n < (r + 1) * (r + 1)
}

/// The integer square root is unique.
pub proof fn lemma_isqrt_unique(n: int, a: int, b: int)
    requires
        is_isqrt(n, a),
        is_isqrt(n, b),
    ensures
        a == b,
{
    if a < b {
        assert((a + 1) * (a + 1) <= b * b) by (nonlinear_arith)
            requires
                0 <= a,
                a + 1 <= b,
        ;
    } else if b < a {
        assert((b + 1) * (b + 1) <= a * a) by (nonlinear_arith)
            requires
                0 <= b,
                b + 1 <= a,
        ;
    }
}

/// The largest integer whose square is at most `n`, by bisection.
pub fn isqrt(n: u128) -> (r: u64)
    requires
        n < 0x1_0000_0000_0000_0000 * 0x1_0000_0000_0000_0000int,
    ensures
        is_isqrt(n as int, r as int),
{
    let mut lo: u128 = 0;
    let mut hi: u128 = 0x1_0000_0000_0000_0000;
    while hi - lo > 1
        invariant
            0 <= lo < hi <= 0x1_0000_0000_0000_0000,
            lo * lo <= n < hi * hi,
        decreases hi - lo,
    {
        let mid: u128 = lo + (hi - lo) / 2;
        assert(mid < 0x1_0000_0000_0000_0000);
        assert(mid * mid < 0x1_0000_0000_0000_0000 * 0x1_0000_0000_0000_0000int)
            by (nonlinear_arith)
            requires
                0 <= mid < 0x1_0000_0000_0000_0000,
        ;
        if mid * mid <= n {
            lo = mid;
        } else {
            hi = mid;
        }
    }
    assert(hi == lo + 1);
    lo as u64
}

/// The integer square root of `n`.
pub open spec fn root(n: int) -> int {
    choose|r: int| is_isqrt(n, r)
}

/// The length of `v`, rounded down.
pub open spec fn length(v: Vec3) -> int {
    root(v.square())
}

/// The magnitude of `x`.
pub open spec fn abs(x: int) -> int {
    if x < 0 {
        -x
    } else {
        x
    }
}

fn square(x: i64) -> (r: u128)
    ensures
        r == x * x,
        r <= 0x4000_0000_0000_0000_0000_0000_0000_0000,
{
    let m: u128 = if x < 0 {
        (-(x as i128)) as u128
    } else {
        x as u128
    };
    assert(m * m == x * x) by (nonlinear_arith)
        requires
            m == x || m == -x,
    ;
    assert(m * m <= 0x8000_0000_0000_0000 * 0x8000_0000_0000_0000int) by (nonlinear_arith)
        requires
            0 <= m <= 0x8000_0000_0000_0000,
    ;
    m * m
}

/// The length of `v`, rounded down.
pub fn norm(v: Vec3) -> (r: u64)
    ensures
        r == length(v),
        is_isqrt(v.square(), r as int),
{
    let n: u128 = square(v.x) + square(v.y) + square(v.z);
    let r: u64 = isqrt(n);
    proof {
        let c = root(v.square());
        assert(is_isqrt(v.square(), r as int));
        lemma_isqrt_unique(v.square(), r as int, c);
    }
    r
}

/// How many steps of the fine measure a count holds.
pub const FINE: u64 = 0x1_0000_0000;

/// The length of `v` in steps of which a count holds `scale`, rounded down.
pub open spec fn length_at(v: Vec3, scale: int) -> int {
    root(v.square() * (scale * scale))
}

proof fn lemma_next_bit(n: int, p: int, s: int, r: int)
    requires
        s * s + r == n * (p * p),
    ensures
        (2 * s) * (2 * s) + 4 * r == n * ((2 * p) * (2 * p)),
        (2 * s + 1) * (2 * s + 1) + (4 * r - (4 * s + 1)) == n * ((2 * p) * (2 * p)),
{
    assert((2 * s) * (2 * s) == 4 * (s * s)) by (nonlinear_arith);
    assert((2 * s + 1) * (2 * s + 1) == 4 * (s * s) + 4 * s + 1) by (nonlinear_arith);
    assert(n * ((2 * p) * (2 * p)) == 4 * (n * (p * p))) by (nonlinear_arith);
}

/// The length of `v` in steps of the fine measure, rounded down: the root digit
/// by digit, below the point as above it.
pub fn fine_norm(v: Vec3) -> (r: u128)
    ensures
        r == length_at(v, FINE as int),
        r < 0x1_0000_0000_0000_0000 * FINE,
{
    let n: u128 = square(v.x) + square(v.y) + square(v.z);
    let whole: u64 = isqrt(n);
    let mut root_so_far: u128 = whole as u128;
    assert(whole * whole <= n);
    let mut rest: u128 = n - root_so_far * root_so_far;
    let mut p: u128 = 1;
    let mut k: u32 = 0;
    proof {
        assert(n < (whole + 1) * (whole + 1));
        assert((whole + 1) * (whole + 1) == whole * whole + 2 * whole + 1) by (nonlinear_arith);
        assert(n * (1int * 1int) == n) by (nonlinear_arith);
        lemma2_to64();
    }
    while k < 32
        invariant
            k <= 32,
            p == pow2(k as nat),
            0 < p <= FINE,
            root_so_far * root_so_far + rest == n * (p * p),
            rest <= 2 * root_so_far,
            root_so_far < 0x1_0000_0000_0000_0000 * p,
        decreases 32 - k,
    {
        proof {
            lemma2_to64();
            lemma_pow2_unfold((k + 1) as nat);
            if k + 1 < 32 {
                lemma_pow2_strictly_increases((k + 1) as nat, 32);
            }
            lemma_next_bit(n as int, p as int, root_so_far as int, rest as int);
        }
        let bit: u128 = 4 * root_so_far + 1;
        if 4 * rest >= bit {
            rest = 4 * rest - bit;
            root_so_far = 2 * root_so_far + 1;
        } else {
            rest = 4 * rest;
            root_so_far = 2 * root_so_far;
        }
        p = 2 * p;
        k = k + 1;
    }
    proof {
        lemma2_to64();
        let scaled = v.square() * (FINE * FINE);
        assert((root_so_far + 1) * (root_so_far + 1) == root_so_far * root_so_far + 2
            * root_so_far + 1) by (nonlinear_arith);
        assert(is_isqrt(scaled, root_so_far as int));
        lemma_isqrt_unique(scaled, root_so_far as int, root(scaled));
    }
    root_so_far
}

/// Whether `v` is longer than `bound`.
pub fn longer_than(v: Vec3, bound: Pico) -> (r: bool)
    requires
        0 <= bound,
    ensures
        r == (v.square() > bound * bound),
{
    square(v.x) + square(v.y) + square(v.z) > square(bound)
}

/// Whether `v` is shorter than `bound`.
pub fn shorter_than(v: Vec3, bound: Pico) -> (r: bool)
    requires
        0 <= bound,
    ensures
        r == (v.square() < bound * bound),
{
    square(v.x) + square(v.y) + square(v.z) < square(bound)
}

/// The nearest count that a [`Pico`] can hold.
pub open spec fn clip(x: int) -> Pico {
    if x > i64::MAX {
        i64::MAX
    } else if x < i64::MIN {
        i64::MIN
    } else {
        x as i64
    }
}

/// The nearest count that a [`Pico`] can hold.
pub fn clipped(x: i128) -> (r: Pico)
    ensures
        r == clip(x as int),
{
    if x > i64::MAX as i128 {
        i64::MAX
    } else if x < i64::MIN as i128 {
        i64::MIN
    } else {
        x as i64
    }
}

/// `a + b`, kept within range.
pub fn plus(a: Pico, b: Pico) -> (r: Pico)
    ensures
        r == clip(a + b),
{
    clipped(a as i128 + b as i128)
}

/// `a - b`, kept within range.
pub fn minus(a: Pico, b: Pico) -> (r: Pico)
    ensures
        r == clip(a - b),
{
    clipped(a as i128 - b as i128)
}

/// `a - b` per axis, kept within range.
pub open spec fn difference(a: Vec3, b: Vec3) -> Vec3 {
    Vec3 { x: clip(a.x - b.x), y: clip(a.y - b.y), z: clip(a.z - b.z) }
}

/// `a - b` per axis.
pub fn differ(a: Vec3, b: Vec3) -> (r: Vec3)
    ensures
        r == difference(a, b),
{
    Vec3 { x: minus(a.x, b.x), y: minus(a.y, b.y), z: minus(a.z, b.z) }
}

/// `a + b` per axis, kept within range.
pub open spec fn sum(a: Vec3, b: Vec3) -> Vec3 {
    Vec3 { x: clip(a.x + b.x), y: clip(a.y + b.y), z: clip(a.z + b.z) }
}

/// `a + b` per axis.
pub fn summed(a: Vec3, b: Vec3) -> (r: Vec3)
    ensures
        r == sum(a, b),
{
    Vec3 { x: plus(a.x, b.x), y: plus(a.y, b.y), z: plus(a.z, b.z) }
}

/// `a * b / c`, rounded down.
pub open spec fn muldiv(a: int, b: int, c: int) -> int {
    (a * b) / c
}

/// `a * b / c`, rounded down and kept within range.
pub fn scaled(a: Pico, b: Pico, c: i128) -> (r: Pico)
    requires
        c > 0,
    ensures
        r == clip(muldiv(a as int, b as int, c as int)),
{
    let x: i128 = a as i128;
    let y: i128 = b as i128;
    assert(-0x4000_0000_0000_0000_0000_0000_0000_0000 <= x * y
        <= 0x4000_0000_0000_0000_0000_0000_0000_0000) by (nonlinear_arith)
        requires
            -0x8000_0000_0000_0000 <= x <= 0x7fff_ffff_ffff_ffff,
            -0x8000_0000_0000_0000 <= y <= 0x7fff_ffff_ffff_ffff,
    ;
    clipped(floor_div(x * y, c))
}

/// `n / c`, rounded down.
pub fn floor_div(n: i128, c: i128) -> (r: i128)
    requires
        c > 0,
        n > i128::MIN,
    ensures
        r == n as int / c as int,
{
    if n >= 0 {
        let q: i128 = n / c;
        q
    } else {
        let m: i128 = -n;
        let q: i128 = m / c;
        let e: i128 = m % c;
        proof {
            vstd::arithmetic::div_mod::lemma_fundamental_div_mod(m as int, c as int);
        }
        if e == 0 {
            assert(n == c * (-(q as int)) + 0) by (nonlinear_arith)
                requires
                    m == c * q,
                    n == -m,
            ;
            proof {
                vstd::arithmetic::div_mod::lemma_fundamental_div_mod_converse(
                    n as int,
                    c as int,
                    -(q as int),
                    0,
                );
            }
            -q
        } else {
            assert(n == c * (-(q as int) - 1) + (c - e)) by (nonlinear_arith)
                requires
                    m == c * q + e,
                    n == -m,
            ;
            proof {
                vstd::arithmetic::div_mod::lemma_fundamental_div_mod_converse(
                    n as int,
                    c as int,
                    -(q as int) - 1,
                    c - e,
                );
            }
            -q - 1
        }
    }
}

/// What a rate covers in `dt`, per axis.
pub open spec fn covered(rate: Vec3, dt: int) -> Vec3 {
    Vec3 {
        x: clip(muldiv(rate.x as int, dt, UNIT as int)),
        y: clip(muldiv(rate.y as int, dt, UNIT as int)),
        z: clip(muldiv(rate.z as int, dt, UNIT as int)),
    }
}

/// What a rate covers in `dt`.
pub fn cover(rate: Vec3, dt: Pico) -> (r: Vec3)
    ensures
        r == covered(rate, dt as int),
{
    Vec3 {
        x: scaled(rate.x, dt, UNIT as i128),
        y: scaled(rate.y, dt, UNIT as i128),
        z: scaled(rate.z, dt, UNIT as i128),
    }
}

/// `pose` displaced by `d`, its rotation unchanged.
pub open spec fn shifted(pose: Pose, d: Vec3) -> Pose {
    Pose { at: sum(pose.at, d), ..pose }
}

/// `pose` displaced by `d`.
pub fn shift(pose: Pose, d: Vec3) -> (r: Pose)
    ensures
        r == shifted(pose, d),
{
    Pose { at: summed(pose.at, d), i: pose.i, j: pose.j, k: pose.k, w: pose.w }
}

/// A product over a divisor is rounded down: it is the greatest count of which the
/// divisor makes no more than the product.
pub proof fn law_quotients_are_rounded_down(a: int, b: int, c: int)
    requires
        c > 0,
    ensures
        c * muldiv(a, b, c) <= a * b < c * muldiv(a, b, c) + c,
{
    vstd::arithmetic::div_mod::lemma_fundamental_div_mod(a * b, c);
}

/// What fits is kept as it is; what does not becomes the nearest count that does.
pub proof fn law_counts_are_kept_where_they_fit(x: int, y: int)
    ensures
        i64::MIN <= x <= i64::MAX ==> clip(x) == x,
        i64::MIN <= clip(x) <= i64::MAX,
        i64::MIN <= y <= i64::MAX ==> abs(x - clip(x)) <= abs(x - y),
        x <= y ==> clip(x) <= clip(y),
{
}

/// A place and a way that leave room for one another: neither reaches beyond a
/// quarter of what a count can hold.
pub open spec fn roomy(at: Vec3, rate: Vec3, dt: int) -> bool {
    &&& roomy_part(at.x as int, rate.x as int, dt)
    &&& roomy_part(at.y as int, rate.y as int, dt)
    &&& roomy_part(at.z as int, rate.z as int, dt)
}

pub open spec fn roomy_part(at: int, rate: int, dt: int) -> bool {
    abs(at) <= 0x2000_0000_0000_0000 && abs(rate * dt) <= 0x2000_0000_0000_0000 * 1_000_000_000_000
}

/// Whether `to` is where something at `from` gets to in `dt` at `rate`, rounded
/// down on every axis.
pub open spec fn gets_to(from: Vec3, to: Vec3, rate: Vec3, dt: int) -> bool {
    &&& 0 <= rate.x * dt - 1_000_000_000_000 * (to.x - from.x) < 1_000_000_000_000
    &&& 0 <= rate.y * dt - 1_000_000_000_000 * (to.y - from.y) < 1_000_000_000_000
    &&& 0 <= rate.z * dt - 1_000_000_000_000 * (to.z - from.z) < 1_000_000_000_000
}

/// What moves at a rate gets as far as the rate takes it in the time, and does not
/// turn.
pub proof fn law_a_rate_takes_a_body_its_way(pose: Pose, rate: Vec3, dt: int)
    requires
        roomy(pose.at, rate, dt),
    ensures
        ({
            let after = shifted(pose, covered(rate, dt));
            &&& gets_to(pose.at, after.at, rate, dt)
            &&& after == (Pose { at: after.at, ..pose })
        }),
{
    lemma_covers_part(pose.at.x as int, rate.x as int, dt);
    lemma_covers_part(pose.at.y as int, rate.y as int, dt);
    lemma_covers_part(pose.at.z as int, rate.z as int, dt);
}

proof fn lemma_covers_part(at: int, rate: int, dt: int)
    requires
        roomy_part(at, rate, dt),
    ensures
        ({
            let after = clip(at + clip(muldiv(rate, dt, UNIT as int)));
            0 <= rate * dt - 1_000_000_000_000 * (after - at) < 1_000_000_000_000
        }),
{
    law_quotients_are_rounded_down(rate, dt, UNIT as int);
}

/// A part of a speed that is shared out over a way: no more than the speed.
pub proof fn lemma_part_of_speed(x: int, s: int, n: int)
    requires
        n > 0,
        abs(x) <= n,
        -i64::MAX <= s <= i64::MAX,
    ensures
        clip(muldiv(x, s, n)) == muldiv(x, s, n),
        0 <= x * s - n * muldiv(x, s, n) < n,
{
    law_quotients_are_rounded_down(x, s, n);
    let q = muldiv(x, s, n);
    assert(x * s <= n * abs(s) && -(n * abs(s)) <= x * s) by (nonlinear_arith)
        requires
            abs(x) <= n,
            n > 0,
            abs(x) == (if x < 0 { -x } else { x }),
            abs(s) == (if s < 0 { -s } else { s }),
    ;
    assert(q <= abs(s)) by (nonlinear_arith)
        requires
            n * q <= x * s,
            x * s <= n * abs(s),
            n > 0,
    ;
    assert(q >= -abs(s)) by (nonlinear_arith)
        requires
            x * s < n * q + n,
            -(n * abs(s)) <= x * s,
            n > 0,
    ;
}

/// A speed shared out over the axes as a way is keeps the direction of the way, and
/// its length is the speed, but for what rounding takes.
pub proof fn lemma_goes_along(dx: int, dy: int, dz: int, vx: int, vy: int, vz: int, n: int, s: int)
    requires
        n > 0,
        s >= 0,
        0 <= dx * s - n * vx < n,
        0 <= dy * s - n * vy < n,
        0 <= dz * s - n * vz < n,
        abs(dx) <= n,
        abs(dy) <= n,
        abs(dz) <= n,
        n * n <= dx * dx + dy * dy + dz * dz < (n + 1) * (n + 1),
    ensures
        s * s - 6 * s <= vx * vx + vy * vy + vz * vz,
        (n * n) * (vx * vx + vy * vy + vz * vz) <= (s * s) * ((n + 1) * (n + 1)) + (6 * s + 3) * (n
            * n),
        abs(vx * dy - vy * dx) <= abs(dx) + abs(dy),
        abs(vy * dz - vz * dy) <= abs(dy) + abs(dz),
        abs(vz * dx - vx * dz) <= abs(dz) + abs(dx),
        dx >= 0 ==> vx >= 0,
        dx <= 0 ==> vx <= 0,
        dy >= 0 ==> vy >= 0,
        dy <= 0 ==> vy <= 0,
        dz >= 0 ==> vz >= 0,
        dz <= 0 ==> vz <= 0,
{
    lemma_cross(dx, dy, vx, vy, dx * s - n * vx, dy * s - n * vy, n, s);
    lemma_cross(dy, dz, vy, vz, dy * s - n * vy, dz * s - n * vz, n, s);
    lemma_cross(dz, dx, vz, vx, dz * s - n * vz, dx * s - n * vx, n, s);
    lemma_sign(dx, vx, n, s);
    lemma_sign(dy, vy, n, s);
    lemma_sign(dz, vz, n, s);
    lemma_part_square(dx, vx, dx * s - n * vx, n, s);
    lemma_part_square(dy, vy, dy * s - n * vy, n, s);
    lemma_part_square(dz, vz, dz * s - n * vz, n, s);
    lemma_square_of_product(n, vx);
    lemma_square_of_product(n, vy);
    lemma_square_of_product(n, vz);
    lemma_three(n * n, vx * vx, vy * vy, vz * vz);
    lemma_three(s * s, dx * dx, dy * dy, dz * dz);
    lemma_between(
        n * n,
        s * s,
        vx * vx + vy * vy + vz * vz,
        dx * dx + dy * dy + dz * dz,
        (n + 1) * (n + 1),
        s,
    );
}

proof fn lemma_between(nn: int, ss: int, square: int, whole: int, over: int, s: int)
    requires
        nn > 0,
        ss >= 0,
        s >= 0,
        nn <= whole < over,
        nn * square >= ss * whole - 6 * (s * nn),
        nn * square <= ss * whole + 6 * (s * nn) + 3 * nn,
    ensures
        ss - 6 * s <= square,
        nn * square <= ss * over + (6 * s + 3) * nn,
{
    assert(ss * nn <= ss * whole && ss * whole <= ss * over) by (nonlinear_arith)
        requires
            nn <= whole < over,
            ss >= 0,
    ;
    assert((6 * s + 3) * nn == 6 * (s * nn) + 3 * nn) by (nonlinear_arith);
    assert(square >= ss - 6 * s) by (nonlinear_arith)
        requires
            nn * square >= ss * nn - 6 * (s * nn),
            nn > 0,
    ;
}

proof fn lemma_square_of_product(n: int, v: int)
    ensures
        (n * v) * (n * v) == (n * n) * (v * v),
{
    assert((n * v) * (n * v) == (n * n) * (v * v)) by (nonlinear_arith);
}

proof fn lemma_three(k: int, a: int, b: int, c: int)
    ensures
        k * (a + b + c) == k * a + k * b + k * c,
{
    assert(k * (a + b + c) == k * a + k * b + k * c) by (nonlinear_arith);
}

proof fn lemma_cross(dx: int, dy: int, vx: int, vy: int, ex: int, ey: int, n: int, s: int)
    requires
        n > 0,
        ex == dx * s - n * vx,
        ey == dy * s - n * vy,
        0 <= ex < n,
        0 <= ey < n,
    ensures
        abs(vx * dy - vy * dx) <= abs(dx) + abs(dy),
{
    let c = vx * dy - vy * dx;
    assert(n * c == ey * dx - ex * dy) by (nonlinear_arith)
        requires
            c == vx * dy - vy * dx,
            ex == dx * s - n * vx,
            ey == dy * s - n * vy,
    ;
    assert(ey * dx <= n * abs(dx) && -(n * abs(dx)) <= ey * dx) by (nonlinear_arith)
        requires
            0 <= ey < n,
            abs(dx) == (if dx < 0 { -dx } else { dx }),
    ;
    assert(ex * dy <= n * abs(dy) && -(n * abs(dy)) <= ex * dy) by (nonlinear_arith)
        requires
            0 <= ex < n,
            abs(dy) == (if dy < 0 { -dy } else { dy }),
    ;
    assert(c <= abs(dx) + abs(dy)) by (nonlinear_arith)
        requires
            n * c <= n * abs(dx) + n * abs(dy),
            n > 0,
    ;
    assert(-c <= abs(dx) + abs(dy)) by (nonlinear_arith)
        requires
            -(n * c) <= n * abs(dx) + n * abs(dy),
            n > 0,
    ;
}

proof fn lemma_sign(dx: int, vx: int, n: int, s: int)
    requires
        n > 0,
        s >= 0,
        0 <= dx * s - n * vx < n,
    ensures
        dx >= 0 ==> vx >= 0,
        dx <= 0 ==> vx <= 0,
{
    if dx >= 0 && vx < 0 {
        assert(n * vx <= -n && dx * s >= 0) by (nonlinear_arith)
            requires
                n > 0,
                vx <= -1,
                dx >= 0,
                s >= 0,
        ;
    }
    if dx <= 0 && vx > 0 {
        assert(n * vx > 0 && dx * s <= 0) by (nonlinear_arith)
            requires
                n > 0,
                vx >= 1,
                dx <= 0,
                s >= 0,
        ;
    }
}

proof fn lemma_part_square(dx: int, vx: int, ex: int, n: int, s: int)
    requires
        n > 0,
        s >= 0,
        abs(dx) <= n,
        ex == dx * s - n * vx,
        0 <= ex < n,
    ensures
        (n * vx) * (n * vx) >= (s * s) * (dx * dx) - 2 * (s * (n * n)),
        (n * vx) * (n * vx) <= (s * s) * (dx * dx) + 2 * (s * (n * n)) + n * n,
{
    let m = n * vx;
    assert(m * m == (s * s) * (dx * dx) - 2 * (s * (dx * ex)) + ex * ex) by (nonlinear_arith)
        requires
            m == dx * s - ex,
    ;
    assert(dx * ex <= n * n && -(n * n) <= dx * ex) by (nonlinear_arith)
        requires
            0 <= ex < n,
            -n <= dx <= n,
    ;
    assert(s * (dx * ex) <= s * (n * n) && -(s * (n * n)) <= s * (dx * ex)) by (nonlinear_arith)
        requires
            dx * ex <= n * n,
            -(n * n) <= dx * ex,
            s >= 0,
    ;
    assert(0 <= ex * ex <= n * n) by (nonlinear_arith)
        requires
            0 <= ex < n,
    ;
}

/// A displacement is what takes one place to the other, where the places leave
/// room for it.
pub proof fn law_a_displacement_leads_back(a: Vec3, b: Vec3)
    requires
        abs(a.x as int) <= 0x2000_0000_0000_0000 && abs(b.x as int) <= 0x2000_0000_0000_0000,
        abs(a.y as int) <= 0x2000_0000_0000_0000 && abs(b.y as int) <= 0x2000_0000_0000_0000,
        abs(a.z as int) <= 0x2000_0000_0000_0000 && abs(b.z as int) <= 0x2000_0000_0000_0000,
    ensures
        sum(b, difference(a, b)) == a,
        difference(sum(a, b), b) == a,
        difference(a, b).x == a.x - b.x && difference(a, b).y == a.y - b.y && difference(a, b).z
            == a.z - b.z,
{
}

/// What `a` wraps to: the angle of `(-PI, PI]` that differs from it by whole
/// turns.
pub open spec fn wrapped(a: int) -> int {
    let r = a % (TAU as int);
    if r > PI {
        r - TAU
    } else {
        r
    }
}

/// Wraps to `(-PI, PI]`. The exact half turn stays positive, so an about-face
/// always turns counter-clockwise.
pub fn wrap_angle(a: i128) -> (r: Pico)
    requires
        -40_000_000_000_000_000_000 <= a <= 40_000_000_000_000_000_000,
    ensures
        r == wrapped(a as int),
        -PI < r <= PI,
        (a - r) % (TAU as int) == 0,
{
    let tau: i128 = TAU as i128;
    let half: i128 = PI as i128;
    let shift: i128 = 40_000_000_000_000_000_000 / tau + 1;
    let up: i128 = a + shift * tau;
    let mut w: i128 = up % tau;
    proof {
        vstd::arithmetic::div_mod::lemma_mod_multiples_vanish(shift as int, a as int, tau as int);
        assert(shift * tau + a == tau * shift + a) by (nonlinear_arith);
    }
    if w > half {
        w = w - tau;
        proof {
            vstd::arithmetic::div_mod::lemma_mod_multiples_vanish(1, a - w, tau as int);
        }
    }
    proof {
        let q = a as int / (TAU as int);
        vstd::arithmetic::div_mod::lemma_fundamental_div_mod(a as int, TAU as int);
        let k = if a as int % (TAU as int) > PI { q + 1 } else { q };
        assert(a - w == (TAU as int) * k) by (nonlinear_arith)
            requires
                a as int == (TAU as int) * q + a as int % (TAU as int),
                w == (if a as int % (TAU as int) > PI { a as int % (TAU as int) - TAU } else {
                    a as int % (TAU as int)
                }),
                k == (if a as int % (TAU as int) > PI { q + 1 } else { q }),
        ;
        vstd::arithmetic::div_mod::lemma_mod_multiples_basic(k, TAU as int);
        assert((TAU as int) * k == k * (TAU as int)) by (nonlinear_arith);
    }
    w as i64
}

} // verus!
