//! Integer plane geometry for packet motion: exact square roots and steps of
//! bounded length toward a point.
use vstd::prelude::*;
use vstd::arithmetic::div_mod::{lemma_div_is_ordered, lemma_div_by_multiple, lemma_div_pos_is_pos};
use vstd::arithmetic::mul::lemma_mul_inequality;

verus! {

/// `r` is the integer square root of `s`: the largest `r` with `r * r <= s`.
pub open spec fn is_isqrt(s: int, r: int) -> bool {
    &&& 0 <= r
    &&& r * r <= s
    &&& s < (r + 1) * (r + 1)
}

/// The integer square root of a non-negative `s`.
pub open spec fn int_sqrt(s: int) -> int {
    choose|r: int| is_isqrt(s, r)
}

/// A number has at most one integer square root.
pub proof fn lemma_isqrt_unique(s: int, r1: int, r2: int)
    requires
        is_isqrt(s, r1),
        is_isqrt(s, r2),
    ensures
        r1 == r2,
{
    if r1 < r2 {
        lemma_mul_inequality(r1 + 1, r2, r1 + 1);
        lemma_mul_inequality(r1 + 1, r2, r2);
        assert((r1 + 1) * r2 == r2 * (r1 + 1)) by (nonlinear_arith);
    } else if r2 < r1 {
        lemma_mul_inequality(r2 + 1, r1, r2 + 1);
        lemma_mul_inequality(r2 + 1, r1, r1);
        assert((r2 + 1) * r1 == r1 * (r2 + 1)) by (nonlinear_arith);
    }
}

/// One axis of a move of length `m` along a vector of length `dist` whose
/// component on this axis is `d`, truncated toward zero.
pub open spec fn axis_step(d: int, m: int, dist: int) -> int {
    if d >= 0 {
        d * m / dist
    } else {
        -((-d) * m / dist)
    }
}

/// The integer square root of `s`, by bisection.
pub fn isqrt(s: u128) -> (r: u64)
    ensures
        is_isqrt(s as int, r as int),
        r == int_sqrt(s as int),
{
    let mut lo: u128 = 0;
    let mut hi: u128 = 0x1_0000_0000_0000_0000;
    assert(hi * hi > s) by (nonlinear_arith)
        requires
            hi == 0x1_0000_0000_0000_0000u128,
            s <= 0xffff_ffff_ffff_ffff_ffff_ffff_ffff_ffffu128,
    ;
    while lo + 1 < hi
        invariant
            lo < hi <= 0x1_0000_0000_0000_0000u128,
            lo * lo <= s,
            s < hi * hi,
        decreases hi - lo,
    {
        let mid: u128 = lo + (hi - lo) / 2;
        assert(mid * mid <= 0xffff_ffff_ffff_ffff_ffff_ffff_ffff_ffffu128) by (nonlinear_arith)
            requires
                mid < 0x1_0000_0000_0000_0000u128,
        ;
        if mid * mid <= s {
            lo = mid;
        } else {
            hi = mid;
        }
    }
    assert(lo + 1 == hi);
    proof {
        assert(is_isqrt(s as int, lo as int));
        lemma_isqrt_unique(s as int, lo as int, int_sqrt(s as int));
    }
    lo as u64
}

/// A component is at most the length of the vector it belongs to.
pub proof fn lemma_component_bounded(dx: int, dy: int, dist: int)
    requires
        is_isqrt(dx * dx + dy * dy, dist),
    ensures
        -dist <= dx <= dist,
{
    let a = if dx >= 0 { dx } else { -dx };
    assert(a * a == dx * dx) by (nonlinear_arith)
        requires
            a == dx || a == -dx,
    ;
    assert(dy * dy >= 0) by (nonlinear_arith);
    if a > dist {
        lemma_mul_inequality(dist + 1, a, dist + 1);
        lemma_mul_inequality(dist + 1, a, a);
        assert((dist + 1) * a == a * (dist + 1)) by (nonlinear_arith);
    }
}

/// A step no longer than the vector it follows stays within that component.
pub proof fn lemma_axis_step_bounded(d: int, m: int, dist: int)
    requires
        0 <= m <= dist,
        0 < dist,
        -dist <= d <= dist,
    ensures
        d >= 0 ==> 0 <= axis_step(d, m, dist) <= d,
        d < 0 ==> d <= axis_step(d, m, dist) <= 0,
        -m <= axis_step(d, m, dist) <= m,
{
    let a = if d >= 0 { d } else { -d };
    assert(0 <= a * m) by (nonlinear_arith)
        requires
            0 <= a,
            0 <= m,
    ;
    lemma_mul_inequality(m, dist, a);
    assert(m * a == a * m && dist * a == a * dist) by (nonlinear_arith);
    lemma_div_is_ordered(a * m, a * dist, dist);
    lemma_div_by_multiple(a, dist);
    lemma_mul_inequality(a, dist, m);
    assert(a * m <= dist * m);
    assert(dist * m == m * dist) by (nonlinear_arith);
    lemma_div_is_ordered(a * m, m * dist, dist);
    lemma_div_by_multiple(m, dist);
    if a * m > 0 {
        lemma_div_pos_is_pos(a * m, dist);
    }
    assert(0 <= (a * m) / dist) by (nonlinear_arith)
        requires
            0 <= a * m,
            0 < dist,
    ;
}

/// Largest speed a packet may have: more than any jittered speed.
pub const MAX_SPEED: u64 = 0x4_0000_0000;

/// Largest magnitude of a packet coordinate: a node coordinate plus a step
/// past it.
pub const COORD_BOUND: i64 = 0x8_0000_0000;

/// A step along a vector whose component here is `d` keeps the sign of `d`
/// and is no longer than the step.
pub proof fn lemma_axis_step_sign(d: int, m: int, dist: int)
    requires
        0 <= m,
        0 < dist,
        -dist <= d <= dist,
    ensures
        d >= 0 ==> 0 <= axis_step(d, m, dist) <= m,
        d < 0 ==> -m <= axis_step(d, m, dist) <= 0,
{
    let a = if d >= 0 { d } else { -d };
    assert(0 <= a * m) by (nonlinear_arith)
        requires
            0 <= a,
            0 <= m,
    ;
    lemma_mul_inequality(a, dist, m);
    assert(dist * m == m * dist) by (nonlinear_arith);
    lemma_div_is_ordered(a * m, m * dist, dist);
    lemma_div_by_multiple(m, dist);
    assert(0 <= (a * m) / dist) by (nonlinear_arith)
        requires
            0 <= a * m,
            0 < dist,
    ;
}

/// One axis of a move of length `m` along `(d, _)` of length `dist`.
pub fn step_component(d: i64, m: u64, dist: u64) -> (r: i64)
    requires
        0 < dist,
        m <= 0x20_0000_0000,
        -(dist as int) <= d <= dist as int,
        dist <= 0x20_0000_0000,
    ensures
        r == axis_step(d as int, m as int, dist as int),
{
    let a: u128 = if d >= 0 { d as u128 } else { (-(d as i128)) as u128 };
    assert(a * (m as u128) <= 0x20_0000_0000 * 0x20_0000_0000u128) by (nonlinear_arith)
        requires
            a <= 0x20_0000_0000,
            m <= 0x20_0000_0000,
    ;
    let q: u128 = a * (m as u128) / (dist as u128);
    proof {
        lemma_mul_inequality(a as int, dist as int, m as int);
        assert(dist as int * m as int == m as int * dist as int) by (nonlinear_arith);
        lemma_div_is_ordered(a as int * m as int, m as int * dist as int, dist as int);
        lemma_div_by_multiple(m as int, dist as int);
    }
    assert(q <= m);
    if d >= 0 {
        q as i64
    } else {
        -(q as i64)
    }
}

/// Within this distance of its target a packet has arrived.
pub const ARRIVAL_RADIUS: u64 = 5;

/// Where a packet at `(px, py)` moving at `speed` toward `(tx, ty)` is after
/// one step, or `None` when it is already within the arrival radius. The step
/// has length `speed` along the direction to the target, and a fast packet
/// may pass the target.
pub open spec fn step_toward_spec(px: int, py: int, tx: int, ty: int, speed: int) -> Option<(int, int)> {
    let dx = tx - px;
    let dy = ty - py;
    let s = dx * dx + dy * dy;
    if s < ARRIVAL_RADIUS * ARRIVAL_RADIUS {
        None
    } else {
        let dist = int_sqrt(s);
        Some((px + axis_step(dx, speed, dist), py + axis_step(dy, speed, dist)))
    }
}

/// Velocity of length `speed` from a point toward another one `(dx, dy)`
/// away; straight along the x axis when the two points coincide.
pub open spec fn heading_spec(dx: int, dy: int, speed: int) -> (int, int) {
    let dist = int_sqrt(dx * dx + dy * dy);
    if dist > 0 {
        (axis_step(dx, speed, dist), axis_step(dy, speed, dist))
    } else {
        (speed, 0)
    }
}

proof fn lemma_square_bound(d: int)
    requires
        -0x10_0000_0000 <= d <= 0x10_0000_0000,
    ensures
        0 <= d * d <= 0x100_0000_0000_0000_0000,
{
    assert(0 <= d * d <= 0x100_0000_0000_0000_0000) by (nonlinear_arith)
        requires
            -0x10_0000_0000 <= d <= 0x10_0000_0000,
    ;
}

/// The square of the length of `(dx, dy)`.
fn distance_squared(dx: i64, dy: i64) -> (r: u128)
    requires
        -0x10_0000_0000 <= dx <= 0x10_0000_0000,
        -0x10_0000_0000 <= dy <= 0x10_0000_0000,
    ensures
        r == dx * dx + dy * dy,
        r <= 0x200_0000_0000_0000_0000,
{
    proof {
        lemma_square_bound(dx as int);
        lemma_square_bound(dy as int);
    }
    let ax: i128 = dx as i128;
    let ay: i128 = dy as i128;
    (ax * ax + ay * ay) as u128
}

/// The length of a vector whose squared length is at most `2^73` is below
/// `2^37`, and each of its components is at most its length.
proof fn lemma_length_bounds(dx: int, dy: int, dist: int)
    requires
        is_isqrt(dx * dx + dy * dy, dist),
        dx * dx + dy * dy <= 0x200_0000_0000_0000_0000,
    ensures
        -dist <= dx <= dist,
        -dist <= dy <= dist,
        dist <= 0x20_0000_0000,
{
    lemma_component_bounded(dx, dy, dist);
    lemma_component_bounded(dy, dx, dist);
    assert(dy * dy + dx * dx == dx * dx + dy * dy);
    if dist > 0x20_0000_0000 {
        lemma_mul_inequality(0x20_0000_0000, dist, 0x20_0000_0000);
        lemma_mul_inequality(0x20_0000_0000, dist, dist);
        assert(0x20_0000_0000 * dist == dist * 0x20_0000_0000) by (nonlinear_arith);
    }
}

/// One step of a packet toward its target node; `None` once it has arrived.
/// The packet ends within its speed of the target, or between its old place
/// and the target, so its coordinates stay within `COORD_BOUND`.
pub fn step_toward(px: i64, py: i64, tx: i32, ty: i32, speed: u64) -> (r: Option<(i64, i64)>)
    requires
        -COORD_BOUND <= px <= COORD_BOUND,
        -COORD_BOUND <= py <= COORD_BOUND,
        speed <= MAX_SPEED,
    ensures
        r matches Some(q) ==> step_toward_spec(px as int, py as int, tx as int, ty as int, speed as int)
            == Some((q.0 as int, q.1 as int)),
        r matches Some(q) ==> -COORD_BOUND <= q.0 <= COORD_BOUND && -COORD_BOUND <= q.1 <= COORD_BOUND,
        r is None ==> step_toward_spec(px as int, py as int, tx as int, ty as int, speed as int)
            is None,
{
    let dx: i64 = tx as i64 - px;
    let dy: i64 = ty as i64 - py;
    let s = distance_squared(dx, dy);
    if s < (ARRIVAL_RADIUS * ARRIVAL_RADIUS) as u128 {
        return None;
    }
    let dist = isqrt(s);
    proof {
        lemma_length_bounds(dx as int, dy as int, dist as int);
        assert(dist > 0) by (nonlinear_arith)
            requires
                s >= 25,
                s < (dist + 1) * (dist + 1),
                dist >= 0,
        ;
        lemma_axis_step_sign(dx as int, speed as int, dist as int);
        lemma_axis_step_sign(dy as int, speed as int, dist as int);
        if speed <= dist {
            lemma_axis_step_bounded(dx as int, speed as int, dist as int);
            lemma_axis_step_bounded(dy as int, speed as int, dist as int);
        }
    }
    let sx = step_component(dx, speed, dist);
    let sy = step_component(dy, speed, dist);
    Some((px + sx, py + sy))
}

/// The velocity of a free-flying packet aimed at a point `(dx, dy)` away.
pub fn heading(dx: i64, dy: i64, speed: u64) -> (r: (i64, i64))
    requires
        -0x1_0000_0000 <= dx <= 0x1_0000_0000,
        -0x1_0000_0000 <= dy <= 0x1_0000_0000,
        speed <= MAX_SPEED,
    ensures
        (r.0 as int, r.1 as int) == heading_spec(dx as int, dy as int, speed as int),
{
    let s = distance_squared(dx, dy);
    let dist = isqrt(s);
    if dist > 0 {
        proof {
            lemma_length_bounds(dx as int, dy as int, dist as int);
        }
        (step_component(dx, speed, dist), step_component(dy, speed, dist))
    } else {
        (speed as i64, 0)
    }
}

} // verus!
