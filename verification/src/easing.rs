//! The easing curve between two keyframes: a cubic Bezier curve whose
//! parameter is found by bisection.

use crate::fixed::{abs, div_trunc, lemma_tdiv_bounds, tdiv, ANGLE_LIMIT};
use vstd::prelude::*;

verus! {

/// The fixed-point value of 1.0 of a progress and of a control value of the
/// curve: these count millionths.
pub const FINE: i64 = 1_000_000;

/// Largest magnitude of a progress.
pub const PROGRESS_LIMIT: i64 = 1_000_000_000_000;

/// Largest magnitude of a control value.
pub const CONTROL_LIMIT: i64 = 10_000_000_000;

/// The curve parameter runs over `0..=STEPS`, which stands for `[0, 1]`.
/// Twenty halvings of that range end on a whole number.
pub const STEPS: i64 = 1_048_576;

/// The number of halvings.
pub const ROUNDS: u32 = 20;

/// `STEPS` cubed: the common denominator of the curve's coordinates.
pub const STEPS_CUBED: i128 = 1_152_921_504_606_846_976;

/// The X coordinate of the curve at parameter `k / STEPS`, times
/// `FINE * STEPS^3`. The curve is the cubic Bezier curve from 0 to 1 whose
/// two inner control values are `a / FINE` and `b / FINE`:
/// `3a*t*(1-t)^2 + 3b*t^2*(1-t) + t^3`.
pub open spec fn curve_x(a: int, b: int, k: int) -> int {
    3 * a * k * (STEPS - k) * (STEPS - k) + 3 * b * k * k * (STEPS - k) + FINE * k * k * k
}

/// The Y coordinate of the curve at parameter `k / STEPS`, times `STEPS^3`:
/// the smoothstep `3t^2 - 2t^3`.
pub open spec fn curve_y(k: int) -> int {
    k * k * (3 * STEPS - 2 * k)
}

/// The parameter that `rounds` halvings of `lo..hi` end on, when each
/// halving keeps the half in which the curve's X coordinate crosses
/// `x / FINE`: the lower bound moves up to the midpoint while the curve is
/// still left of `x` there, else the upper bound moves down to it. The
/// result is the last midpoint.
pub open spec fn bisect(a: int, b: int, x: int, lo: int, hi: int, rounds: nat) -> int
    decreases rounds,
{
    let mid = (lo + hi) / 2;
    if rounds <= 1 {
        mid
    } else if curve_x(a, b, mid) < x * STEPS_CUBED {
        bisect(a, b, x, mid, hi, (rounds - 1) as nat)
    } else {
        bisect(a, b, x, lo, mid, (rounds - 1) as nat)
    }
}

/// The eased value at progress `x`: the curve parameter is found by
/// bisection, and the curve's Y coordinate there maps `[0, 1]` onto
/// `[start, end]`. `control_a` shapes the start of the ease, `control_b` its
/// end; the curve's second control value is `1 - control_b`.
pub open spec fn eased(start: int, end: int, control_a: int, control_b: int, x: int) -> int {
    let k = bisect(control_a, FINE - control_b, x, 0, STEPS as int, ROUNDS as nat);
    start + tdiv(curve_y(k) * (end - start), STEPS_CUBED as int)
}

/// Two to the power of `r`.
pub open spec fn two_to(r: nat) -> int
    decreases r,
{
    if r == 0 {
        1
    } else {
        2 * two_to((r - 1) as nat)
    }
}

/// The steps of the curve parameter are two to the number of halvings.
pub proof fn lemma_steps()
    ensures
        two_to(ROUNDS as nat) == STEPS,
{
    reveal_with_fuel(two_to, 21);
}

/// Two to any power is positive.
pub proof fn lemma_two_to_positive(r: nat)
    ensures
        two_to(r) >= 1,
    decreases r,
{
    if r > 0 {
        lemma_two_to_positive((r - 1) as nat);
    }
}

/// Bisection closes in on the progress. Where the curve is left of `x` at
/// the lower bound and not left of it at the upper bound, and the bounds lie
/// two to the number of halvings apart, the parameter found lies strictly
/// between the bounds, the curve is left of `x` one step before it and not
/// left of `x` one step after it.
pub proof fn lemma_bisect_brackets(a: int, b: int, x: int, lo: int, hi: int, rounds: nat)
    requires
        rounds >= 1,
        hi - lo == two_to(rounds),
        curve_x(a, b, lo) < x * STEPS_CUBED <= curve_x(a, b, hi),
    ensures
        lo < bisect(a, b, x, lo, hi, rounds) < hi,
        curve_x(a, b, bisect(a, b, x, lo, hi, rounds) - 1) < x * STEPS_CUBED <= curve_x(
            a,
            b,
            bisect(a, b, x, lo, hi, rounds) + 1,
        ),
    decreases rounds,
{
    let half = two_to((rounds - 1) as nat);
    assert(two_to(rounds) == 2 * half);
    let mid = (lo + hi) / 2;
    assert(mid == lo + half);
    lemma_two_to_positive((rounds - 1) as nat);
    if rounds == 1 {
        assert(two_to(0) == 1);
    } else if curve_x(a, b, mid) < x * STEPS_CUBED {
        lemma_bisect_brackets(a, b, x, mid, hi, (rounds - 1) as nat);
    } else {
        lemma_bisect_brackets(a, b, x, lo, mid, (rounds - 1) as nat);
    }
}

/// The ease converges: for a progress above 0 and at most 1, the curve
/// parameter that the ease works with lies within one step of where the
/// curve's X coordinate crosses the progress, whatever the control values.
pub proof fn lemma_ease_converges(control_a: int, control_b: int, x: int)
    requires
        0 < x <= FINE,
    ensures
        0 < bisect(control_a, FINE - control_b, x, 0, STEPS as int, ROUNDS as nat) < STEPS,
        curve_x(
            control_a,
            FINE - control_b,
            bisect(control_a, FINE - control_b, x, 0, STEPS as int, ROUNDS as nat) - 1,
        ) < x * STEPS_CUBED <= curve_x(
            control_a,
            FINE - control_b,
            bisect(control_a, FINE - control_b, x, 0, STEPS as int, ROUNDS as nat) + 1,
        ),
{
    let a = control_a;
    let b = FINE - control_b;
    let m = STEPS as int;
    assert(m == 1_048_576 && FINE == 1_000_000 && STEPS_CUBED == 1_152_921_504_606_846_976);
    lemma_steps();
    assert(curve_x(a, b, 0) == 0) by (nonlinear_arith)
        requires
            curve_x(a, b, 0) == 3 * a * 0 * (m - 0) * (m - 0) + 3 * b * 0 * 0 * (m - 0) + 1_000_000 * 0
                * 0 * 0,
    ;
    assert(m * m * m == 1_152_921_504_606_846_976) by {
        assert(m * m == 1_099_511_627_776);
    }
    assert(curve_x(a, b, m) == 1_000_000 * (m * m * m)) by (nonlinear_arith)
        requires
            curve_x(a, b, m) == 3 * a * m * (m - m) * (m - m) + 3 * b * m * m * (m - m) + 1_000_000 * m
                * m * m,
    ;
    assert(0 < x * STEPS_CUBED <= 1_000_000 * (m * m * m)) by (nonlinear_arith)
        requires
            0 < x <= 1_000_000,
            STEPS_CUBED == 1_152_921_504_606_846_976,
            m * m * m == 1_152_921_504_606_846_976,
    ;
    lemma_bisect_brackets(a, b, x, 0, m, ROUNDS as nat);
}

/// The bisection stays inside the range it starts from.
pub proof fn lemma_bisect_range(a: int, b: int, x: int, lo: int, hi: int, rounds: nat)
    requires
        lo <= hi,
    ensures
        lo <= bisect(a, b, x, lo, hi, rounds) <= hi,
    decreases rounds,
{
    let mid = (lo + hi) / 2;
    if rounds > 1 {
        if curve_x(a, b, mid) < x * STEPS_CUBED {
            lemma_bisect_range(a, b, x, mid, hi, (rounds - 1) as nat);
        } else {
            lemma_bisect_range(a, b, x, lo, mid, (rounds - 1) as nat);
        }
    }
}

/// The curve's Y coordinate runs from 0 to 1 over the parameter range.
pub proof fn lemma_curve_y_range(k: int)
    requires
        0 <= k <= STEPS,
    ensures
        0 <= curve_y(k) <= STEPS_CUBED,
        curve_y(0) == 0,
        curve_y(STEPS as int) == STEPS_CUBED,
{
    let m = STEPS as int;
    assert(m == 1_048_576);
    assert(m * m * m == STEPS_CUBED) by {
        assert(m * m == 1_099_511_627_776);
    }
    assert(curve_y(m) == m * m * m) by (nonlinear_arith)
        requires
            curve_y(m) == m * m * (3 * m - 2 * m),
    ;
    assert(curve_y(0) == 0) by (nonlinear_arith)
        requires
            curve_y(0) == 0 * 0 * (3 * m - 2 * 0),
    ;
    assert(0 <= k * k * (3 * m - 2 * k) <= m * m * m) by (nonlinear_arith)
        requires
            0 <= k <= m,
    {
        // m^3 - 3mk^2 + 2k^3 = (m - k)^2 (m + 2k)
        assert(m * m * m - k * k * (3 * m - 2 * k) == (m - k) * (m - k) * (m + 2 * k));
        assert((m - k) * (m - k) * (m + 2 * k) >= 0);
        assert(k * k * (3 * m - 2 * k) >= 0);
    }
}

/// The eased value lies between `start` and `end`.
pub proof fn lemma_eased_between(start: int, end: int, control_a: int, control_b: int, x: int)
    ensures
        start <= end ==> start <= eased(start, end, control_a, control_b, x) <= end,
        end <= start ==> end <= eased(start, end, control_a, control_b, x) <= start,
{
    let k = bisect(control_a, FINE - control_b, x, 0, STEPS as int, ROUNDS as nat);
    lemma_bisect_range(control_a, FINE - control_b, x, 0, STEPS as int, ROUNDS as nat);
    lemma_curve_y_range(k);
    let y = curve_y(k);
    let c = STEPS_CUBED as int;
    let d = end - start;
    lemma_tdiv_bounds(y * d, c);
    if d >= 0 {
        assert(0 <= y * d <= c * d) by (nonlinear_arith)
            requires
                0 <= y <= c,
                d >= 0,
        ;
        assert(tdiv(y * d, c) <= d) by (nonlinear_arith)
            requires
                tdiv(y * d, c) * c <= y * d,
                y * d <= c * d,
                c > 0,
        ;
    } else {
        assert(c * d <= y * d <= 0) by (nonlinear_arith)
            requires
                0 <= y <= c,
                d <= 0,
        ;
        assert(tdiv(y * d, c) >= d) by (nonlinear_arith)
            requires
                tdiv(y * d, c) * c >= y * d,
                y * d >= c * d,
                c > 0,
        ;
    }
}

/// `curve_x` in executable code.
#[verifier::rlimit(40)]
fn curve_x_at(a: i64, b: i64, k: i64) -> (r: i128)
    requires
        abs(a as int) <= 2 * CONTROL_LIMIT,
        abs(b as int) <= 2 * CONTROL_LIMIT,
        0 <= k <= STEPS,
    ensures
        r == curve_x(a as int, b as int, k as int),
        abs(r as int) <= 130_000_000_000 * STEPS_CUBED,
{
    let m: i128 = STEPS as i128;
    let k: i128 = k as i128;
    let u: i128 = m - k;
    let a: i128 = a as i128;
    let b: i128 = b as i128;
    assert(m == 1_048_576 && FINE == 1_000_000 && CONTROL_LIMIT == 10_000_000_000);
    assert(m * m * m == STEPS_CUBED) by {
        assert(m * m == 1_099_511_627_776);
    }
    assert(0 <= k * u <= m * m && 0 <= k * u * u <= m * m * m && 0 <= k * k <= m * m && 0 <= k * k
        * u <= m * m * m && 0 <= k * k * k <= m * m * m) by (nonlinear_arith)
        requires
            0 <= k <= m,
            0 <= u <= m,
            m == 1_048_576,
    ;
    let kuu: i128 = k * u * u;
    let kku: i128 = k * k * u;
    let kkk: i128 = k * k * k;
    assert(abs(3 * a * kuu) <= 60_000_000_000 * (m * m * m) && abs(3 * b * kku) <= 60_000_000_000
        * (m * m * m) && 0 <= 1_000_000 * kkk <= 1_000_000 * (m * m * m)) by (nonlinear_arith)
        requires
            abs(a as int) <= 20_000_000_000,
            abs(b as int) <= 20_000_000_000,
            0 <= kuu <= m * m * m,
            0 <= kku <= m * m * m,
            0 <= kkk <= m * m * m,
    ;
    let r: i128 = 3 * a * kuu + 3 * b * kku + (FINE as i128) * kkk;
    assert(r == curve_x(a as int, b as int, k as int)) by (nonlinear_arith)
        requires
            r == 3 * a * kuu + 3 * b * kku + 1_000_000 * kkk,
            kuu == k * u * u,
            kku == k * k * u,
            kkk == k * k * k,
            u == 1_048_576 - k,
            curve_x(a as int, b as int, k as int) == 3 * a * k * (1_048_576 - k) * (1_048_576 - k)
                + 3 * b * k * k * (1_048_576 - k) + 1_000_000 * k * k * k,
    ;
    r
}

/// `curve_y` in executable code.
fn curve_y_at(k: i64) -> (r: i128)
    requires
        0 <= k <= STEPS,
    ensures
        r == curve_y(k as int),
        0 <= r <= STEPS_CUBED,
{
    proof {
        lemma_curve_y_range(k as int);
    }
    let m: i128 = STEPS as i128;
    let k: i128 = k as i128;
    assert(0 <= k * k <= m * m) by (nonlinear_arith)
        requires
            0 <= k <= m,
    ;
    assert(m * m == 1_099_511_627_776);
    let kk: i128 = k * k;
    assert(0 <= kk * (3 * m - 2 * k) <= 1_099_511_627_776 * 3_145_728) by (nonlinear_arith)
        requires
            0 <= kk <= 1_099_511_627_776,
            0 <= 3 * m - 2 * k <= 3_145_728,
    ;
    kk * (3 * m - 2 * k)
}

/// The value at progress `x` of the ease from `start` to `end`.
#[verifier::rlimit(40)]
pub fn ease(start: i64, end: i64, control_a: i64, control_b: i64, x: i64) -> (r: i64)
    requires
        abs(start as int) <= 4 * ANGLE_LIMIT,
        abs(end as int) <= 4 * ANGLE_LIMIT,
        abs(control_a as int) <= CONTROL_LIMIT,
        abs(control_b as int) <= CONTROL_LIMIT,
        abs(x as int) <= PROGRESS_LIMIT,
    ensures
        r == eased(start as int, end as int, control_a as int, control_b as int, x as int),
        start <= end ==> start <= r <= end,
        end <= start ==> end <= r <= start,
{
    let a: i64 = control_a;
    let b: i64 = FINE - control_b;
    let target: i128 = (x as i128) * STEPS_CUBED;
    let mut lo: i64 = 0;
    let mut hi: i64 = STEPS;
    let mut k: i64 = STEPS / 2;
    let mut round: u32 = 0;
    while round < ROUNDS
        invariant
            0 <= round <= ROUNDS,
            0 <= lo <= hi <= STEPS,
            0 <= k <= STEPS,
            abs(a as int) <= 2 * CONTROL_LIMIT,
            abs(b as int) <= 2 * CONTROL_LIMIT,
            target == x * STEPS_CUBED,
            round < ROUNDS ==> bisect(a as int, b as int, x as int, 0, STEPS as int, ROUNDS as nat)
                == bisect(
                a as int,
                b as int,
                x as int,
                lo as int,
                hi as int,
                (ROUNDS - round) as nat,
            ),
            round == ROUNDS ==> k == bisect(
                a as int,
                b as int,
                x as int,
                0,
                STEPS as int,
                ROUNDS as nat,
            ),
        decreases ROUNDS - round,
    {
        k = (lo + hi) / 2;
        if round + 1 < ROUNDS {
            if curve_x_at(a, b, k) < target {
                lo = k;
            } else {
                hi = k;
            }
        }
        round = round + 1;
    }
    proof {
        lemma_eased_between(
            start as int,
            end as int,
            control_a as int,
            control_b as int,
            x as int,
        );
    }
    let y: i128 = curve_y_at(k);
    assert(abs(y * (end - start)) <= STEPS_CUBED * (8 * ANGLE_LIMIT)) by (nonlinear_arith)
        requires
            0 <= y <= STEPS_CUBED,
            abs(end - start) <= 8 * ANGLE_LIMIT,
    ;
    let q: i128 = div_trunc(y * (end as i128 - start as i128), STEPS_CUBED);
    (start as i128 + q) as i64
}

} // verus!
