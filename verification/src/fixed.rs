//! Fixed-point numbers.
//!
//! Every quantity of a document (seconds, pixels, opacities, volumes, rates)
//! is an `i128` count of billionths. Sums and products of document values are
//! exact; a quotient is rounded down to the next billionth.

use vstd::prelude::*;
use crate::document::Easing;

verus! {

/// One second, one pixel, full opacity: `1.0` in billionths.
pub const UNIT: i128 = 1_000_000_000;

/// Largest magnitude of a number in a document: one hundred million units.
pub const LIMIT: i128 = 100_000_000_000_000_000;

/// Largest magnitude of a position on the timeline, beyond any sum of scene
/// durations that fits in memory.
pub const HORIZON: i128 = 60_000_000_000_000_000_000_000_000_000_000_000_000;

/// One tenth of a unit.
pub const TENTH: i128 = 100_000_000;

/// One twentieth of a unit.
pub const TWENTIETH: i128 = 50_000_000;

/// A number that a document may hold.
pub open spec fn in_range(x: int) -> bool {
    -LIMIT <= x <= LIMIT
}

/// A number no larger than `n` times the largest a document may hold.
pub open spec fn within(x: int, n: int) -> bool {
    -n * LIMIT <= x <= n * LIMIT
}

pub open spec fn max(a: int, b: int) -> int {
    if a >= b {
        a
    } else {
        b
    }
}

pub open spec fn min(a: int, b: int) -> int {
    if a <= b {
        a
    } else {
        b
    }
}

/// `x` held between `lo` and `hi`.
pub open spec fn clamped(x: int, lo: int, hi: int) -> int {
    if x < lo {
        lo
    } else if x > hi {
        hi
    } else {
        x
    }
}

/// The eased progress at progress `p` of the way, both in billionths: a
/// cubic curve that runs from 0 to one unit.
pub open spec fn eased(easing: Easing, p: int) -> int {
    match easing {
        Easing::Linear => p,
        Easing::EaseIn => (p * p * p) / (UNIT * UNIT),
        Easing::EaseOut => UNIT - ((UNIT - p) * (UNIT - p) * (UNIT - p)) / (UNIT * UNIT),
        Easing::EaseInOut => if 2 * p < UNIT {
            (4 * (p * p * p)) / (UNIT * UNIT)
        } else {
            UNIT - ((2 * UNIT - 2 * p) * (2 * UNIT - 2 * p) * (2 * UNIT - 2 * p)) / (2 * (UNIT
                * UNIT))
        },
    }
}

/// The value `e` billionths of the way from `from` to `to`.
pub open spec fn mixed(from: int, to: int, e: int) -> int {
    from + ((to - from) * e) / (UNIT as int)
}

/// How far `t` lies on the way from `start` to `end`, in billionths, held
/// between 0 and one unit.
pub open spec fn progress(t: int, start: int, end: int) -> int {
    clamped(((t - start) * UNIT) / (end - start), 0, UNIT as int)
}

pub proof fn lemma_cube_bound(p: int, bound: int)
    by (nonlinear_arith)
    requires
        0 <= p <= bound,
    ensures
        0 <= p * p <= bound * bound,
        0 <= p * p * p <= bound * bound * bound,
{
}

/// The larger of two numbers.
pub fn larger(a: i128, b: i128) -> (r: i128)
    ensures
        r == max(a as int, b as int),
{
    if a >= b {
        a
    } else {
        b
    }
}

/// The smaller of two numbers.
pub fn smaller(a: i128, b: i128) -> (r: i128)
    ensures
        r == min(a as int, b as int),
{
    if a <= b {
        a
    } else {
        b
    }
}

/// Division that rounds toward negative infinity.
pub fn floor_div(a: i128, b: i128) -> (r: i128)
    requires
        b > 0,
        -HORIZON * 2 <= a <= HORIZON * 2,
        b <= HORIZON,
    ensures
        r == a as int / b as int,
{
    if a >= 0 {
        a / b
    } else {
        let q: i128 = (-a - 1) / b;
        proof {
            lemma_floor_negative(a as int, b as int, q as int);
        }
        -q - 1
    }
}

proof fn lemma_floor_negative(a: int, b: int, q: int)
    by (nonlinear_arith)
    requires
        a < 0,
        b > 0,
        q == (-a - 1) / b,
    ensures
        -q - 1 == a / b,
        q >= 0,
{
    let r = (-a - 1) % b;
    assert(-a - 1 == b * q + r);
    assert(0 <= r < b);
    assert(a == b * (-q - 1) + (b - 1 - r));
    assert(0 <= b - 1 - r < b);
}

/// Apply an easing curve to a 0..1 progress fraction.
pub fn ease(easing: Easing, p: i128) -> (r: i128)
    requires
        0 <= p <= UNIT,
    ensures
        r == eased(easing, p as int),
        0 <= r <= UNIT,
{
    match easing {
        Easing::Linear => p,
        Easing::EaseIn => {
            proof {
                lemma_cube_bound(p as int, UNIT as int);
            }
            p * p * p / (UNIT * UNIT)
        },
        Easing::EaseOut => {
            let q: i128 = UNIT - p;
            proof {
                lemma_cube_bound(q as int, UNIT as int);
            }
            UNIT - q * q * q / (UNIT * UNIT)
        },
        Easing::EaseInOut => {
            if 2 * p < UNIT {
                proof {
                    lemma_cube_bound(p as int, UNIT as int / 2);
                }
                4 * (p * p * p) / (UNIT * UNIT)
            } else {
                let q: i128 = 2 * UNIT - 2 * p;
                proof {
                    lemma_cube_bound(q as int, UNIT as int);
                }
                UNIT - q * q * q / (2 * (UNIT * UNIT))
            }
        },
    }
}

pub proof fn lemma_eased_bounds(easing: Easing, p: int)
    requires
        0 <= p <= UNIT,
    ensures
        0 <= eased(easing, p) <= UNIT,
{
    lemma_cube_bound(p, UNIT as int);
    lemma_cube_bound(UNIT - p, UNIT as int);
    if 2 * p < UNIT {
        lemma_cube_bound(p, UNIT as int / 2);
    } else {
        lemma_cube_bound(2 * UNIT - 2 * p, UNIT as int);
    }
}

/// The value `e` billionths of the way from `from` to `to`.
pub fn mix(from: i128, to: i128, e: i128) -> (r: i128)
    requires
        within(from as int, 8),
        within(to as int, 8),
        0 <= e <= UNIT,
    ensures
        r == mixed(from as int, to as int, e as int),
        min(from as int, to as int) <= r <= max(from as int, to as int),
{
    let d: i128 = to - from;
    proof {
        lemma_mix_bounds(d as int, e as int);
    }
    from + floor_div(d * e, UNIT)
}

pub proof fn lemma_mix_bounds(d: int, e: int)
    by (nonlinear_arith)
    requires
        -16 * LIMIT <= d <= 16 * LIMIT,
        0 <= e <= UNIT,
    ensures
        -16 * LIMIT * UNIT <= d * e <= 16 * LIMIT * UNIT,
        d >= 0 ==> 0 <= (d * e) / (UNIT as int) <= d,
        d <= 0 ==> d <= (d * e) / (UNIT as int) <= 0,
{
    if d >= 0 {
        assert(0 <= d * e <= d * UNIT);
    } else {
        assert(d * UNIT <= d * e <= 0);
    }
}

/// How far `t` lies on the way from `start` to `end`.
pub fn fraction(t: i128, start: i128, end: i128) -> (r: i128)
    requires
        within(t as int, 32),
        within(start as int, 32),
        within(end as int, 32),
        start < end,
    ensures
        r == progress(t as int, start as int, end as int),
        0 <= r <= UNIT,
{
    let q: i128 = floor_div((t - start) * UNIT, end - start);
    if q < 0 {
        0
    } else if q > UNIT {
        UNIT
    } else {
        q
    }
}

/// A time in whole microseconds, rounded down; times before 0 count as 0.
pub open spec fn micros_of(t: int) -> int {
    max(t, 0) / 1000
}

/// Every easing curve starts at 0 and arrives at one unit.
pub proof fn law_ease_endpoints(easing: Easing)
    ensures
        eased(easing, 0) == 0,
        eased(easing, UNIT as int) == UNIT,
{
    assert(0int * 0 * 0 / (UNIT * UNIT) == 0);
    assert((UNIT * UNIT * UNIT) / (UNIT * UNIT) == UNIT);
}

/// A value between two ends stays between them, and the ends are met.
pub proof fn law_mix_endpoints(from: int, to: int)
    ensures
        mixed(from, to, 0) == from,
        mixed(from, to, UNIT as int) == to,
{
    assert(((to - from) * 0) / (UNIT as int) == 0);
    assert(((to - from) * UNIT) / (UNIT as int) == to - from) by {
        vstd::arithmetic::div_mod::lemma_div_multiples_vanish(to - from, UNIT as int);
    }
}

/// What the easing curves are: the cube of the progress, the same from the
/// other end, or half of the one and half of the other, each rounded to
/// billionths.
pub proof fn law_ease_cubic(easing: Easing, p: int)
    requires
        0 <= p <= UNIT,
    ensures
        ({
            let u = UNIT as int;
            let e = eased(easing, p);
            let (q, f) = (u - p, u - e);
            match easing {
                Easing::Linear => e == p,
                Easing::EaseIn => e * (u * u) <= p * p * p < (e + 1) * (u * u),
                Easing::EaseOut => f * (u * u) <= q * q * q < (f + 1) * (u * u),
                Easing::EaseInOut => if 2 * p < u {
                    e * (u * u) <= 4 * (p * p * p) < (e + 1) * (u * u)
                } else {
                    f * (u * u) <= 4 * (q * q * q) < (f + 1) * (u * u)
                },
            }
        }),
{
    let u = UNIT as int;
    let q = u - p;
    let s = u * u;
    lemma_floor(p * p * p, s);
    lemma_floor(q * q * q, s);
    lemma_floor(4 * (p * p * p), s);
    let d = (2 * u - 2 * p) * (2 * u - 2 * p) * (2 * u - 2 * p);
    assert(d == 8 * (q * q * q)) by (nonlinear_arith)
        requires
            d == (2 * u - 2 * p) * (2 * u - 2 * p) * (2 * u - 2 * p),
            q == u - p,
    ;
    lemma_floor(d, 2 * s);
    let f = d / (2 * s);
    assert(f * (2 * s) == 2 * (f * s)) by (nonlinear_arith);
    assert((f + 1) * (2 * s) == 2 * ((f + 1) * s)) by (nonlinear_arith);
    assert(f * s <= 4 * (q * q * q) < (f + 1) * s);
}

/// A quotient is rounded down.
proof fn lemma_floor(a: int, b: int)
    requires
        b > 0,
    ensures
        (a / b) * b <= a < (a / b + 1) * b,
{
    vstd::arithmetic::div_mod::lemma_fundamental_div_mod(a, b);
    vstd::arithmetic::div_mod::lemma_mod_bound(a, b);
    let x = a / b;
    assert((x + 1) * b == x * b + b) by (nonlinear_arith);
    assert(b * x == x * b) by (nonlinear_arith);
}

proof fn lemma_floor_order(a: int, c: int, b: int)
    requires
        a <= c,
        b > 0,
    ensures
        a / b <= c / b,
{
    vstd::arithmetic::div_mod::lemma_div_is_ordered(a, c, b);
}

/// Easing never turns back: further on the way is further on the curve.
pub proof fn law_ease_monotone(easing: Easing, p: int, q: int)
    requires
        0 <= p <= q <= UNIT,
    ensures
        eased(easing, p) <= eased(easing, q),
{
    let u = UNIT as int;
    let s = u * u;
    lemma_cube_order(p, q);
    lemma_cube_order(u - q, u - p);
    lemma_cube_order(2 * u - 2 * q, 2 * u - 2 * p);
    lemma_floor_order(p * p * p, q * q * q, s);
    lemma_floor_order(4 * (p * p * p), 4 * (q * q * q), s);
    lemma_floor_order(
        (u - q) * (u - q) * (u - q),
        (u - p) * (u - p) * (u - p),
        s,
    );
    lemma_floor_order(
        (2 * u - 2 * q) * (2 * u - 2 * q) * (2 * u - 2 * q),
        (2 * u - 2 * p) * (2 * u - 2 * p) * (2 * u - 2 * p),
        2 * s,
    );
    if easing == Easing::EaseInOut && 2 * p < u && 2 * q >= u {
        let (a, b) = (u / 2, 2 * u - 2 * q);
        lemma_cube_order(p, a);
        lemma_floor_order(4 * (p * p * p), 4 * (a * a * a), s);
        lemma_cube_order(b, u);
        lemma_floor_order(b * b * b, u * u * u, 2 * s);
        assert((4 * (a * a * a)) / s == a) by (nonlinear_arith)
            requires
                a == 500_000_000,
                s == 1_000_000_000_000_000_000,
        ;
        assert((u * u * u) / (2 * s) == a) by (nonlinear_arith)
            requires
                u == 1_000_000_000,
                a == 500_000_000,
                s == 1_000_000_000_000_000_000,
        ;
    }
}

proof fn lemma_cube_order(p: int, q: int)
    by (nonlinear_arith)
    requires
        0 <= p <= q,
    ensures
        p * p * p <= q * q * q,
{
    assert(p * p <= q * q);
    assert(p * p * p <= q * q * p);
    assert(q * q * p <= q * q * q);
}

/// The two one-sided curves mirror each other, and the two-sided one itself.
pub proof fn law_ease_mirror(p: int)
    requires
        0 <= p <= UNIT,
    ensures
        eased(Easing::EaseOut, p) + eased(Easing::EaseIn, UNIT - p) == UNIT,
        eased(Easing::EaseInOut, p) + eased(Easing::EaseInOut, UNIT - p) == UNIT,
{
    let u = UNIT as int;
    let q = u - p;
    let s = u * u;
    lemma_double_cube(p, s);
    lemma_double_cube(q, s);
    assert(2 * u - 2 * p == 2 * q);
    assert(2 * u - 2 * q == 2 * p);
    if 2 * p == u {
        assert((4 * (p * p * p)) / s == p) by (nonlinear_arith)
            requires
                p == 500_000_000,
                s == 1_000_000_000_000_000_000,
        ;
    }
}

proof fn lemma_double_cube(p: int, s: int)
    requires
        p >= 0,
        s > 0,
    ensures
        ((2 * p) * (2 * p) * (2 * p)) / (2 * s) == (4 * (p * p * p)) / s,
{
    let d = (2 * p) * (2 * p) * (2 * p);
    assert(d == 2 * (4 * (p * p * p))) by (nonlinear_arith)
        requires
            d == (2 * p) * (2 * p) * (2 * p),
    ;
    lemma_cube_bound(p, p);
    vstd::arithmetic::div_mod::lemma_div_denominator(d, 2, s);
    assert(d / 2 == 4 * (p * p * p));
}

/// A value on the way covers its share of the way, rounded down.
pub proof fn law_mix_share(from: int, to: int, e: int)
    ensures
        0 <= (to - from) * e - (mixed(from, to, e) - from) * UNIT < UNIT,
{
    lemma_floor((to - from) * e, UNIT as int);
    let x = ((to - from) * e) / (UNIT as int);
    assert((x + 1) * UNIT == x * UNIT + UNIT);
}

/// Values on the way come in the order of the way.
pub proof fn law_mix_monotone(from: int, to: int, e: int, f: int)
    requires
        e <= f,
    ensures
        from <= to ==> mixed(from, to, e) <= mixed(from, to, f),
        to <= from ==> mixed(from, to, f) <= mixed(from, to, e),
{
    let d = to - from;
    if d >= 0 {
        assert(d * e <= d * f) by (nonlinear_arith)
            requires
                d >= 0,
                e <= f,
        ;
        lemma_floor_order(d * e, d * f, UNIT as int);
    }
    if d <= 0 {
        assert(d * f <= d * e) by (nonlinear_arith)
            requires
                d <= 0,
                e <= f,
        ;
        lemma_floor_order(d * f, d * e, UNIT as int);
    }
}

/// Progress is the share of the time that has passed, rounded down; it is 0
/// until the start and one unit from the end on.
pub proof fn law_progress(t: int, start: int, end: int)
    requires
        start < end,
    ensures
        t <= start ==> progress(t, start, end) == 0,
        t >= end ==> progress(t, start, end) == UNIT,
        start <= t <= end ==> 0 <= (t - start) * UNIT - progress(t, start, end) * (end - start)
            < end - start,
{
    let d = end - start;
    let x = ((t - start) * UNIT) / d;
    lemma_floor((t - start) * UNIT, d);
    assert((x + 1) * d == x * d + d) by (nonlinear_arith);
    if t <= start {
        assert(x <= 0) by (nonlinear_arith)
            requires
                x * d <= (t - start) * UNIT,
                t <= start,
                d > 0,
                UNIT == 1_000_000_000,
        ;
    }
    if t >= end {
        assert(x >= UNIT) by (nonlinear_arith)
            requires
                (t - start) * UNIT < (x + 1) * d,
                t - start >= d,
                d > 0,
                UNIT == 1_000_000_000,
        ;
    }
    if start <= t <= end {
        assert(0 <= x <= UNIT) by (nonlinear_arith)
            requires
                x * d <= (t - start) * UNIT < (x + 1) * d,
                0 <= t - start <= d,
                d > 0,
                UNIT == 1_000_000_000,
        ;
    }
}

/// Later is further on.
pub proof fn law_progress_monotone(t: int, v: int, start: int, end: int)
    requires
        start < end,
        t <= v,
    ensures
        0 <= progress(t, start, end) <= progress(v, start, end) <= UNIT,
{
    lemma_floor_order((t - start) * UNIT, (v - start) * UNIT, end - start);
}

} // verus!
