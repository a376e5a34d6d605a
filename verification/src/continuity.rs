//! The trail is continuous where one segment hands over to the next.

use crate::degree::{
    angle_between, closer_end, ease_end, ease_start, folded, unwrapped_end, FULL_TURN, HALF_TURN,
    };
use crate::easing::{
    bisect, curve_x, curve_y, eased, lemma_ease_converges, lemma_steps, lemma_two_to_positive,
    two_to, FINE, ROUNDS, STEPS, STEPS_CUBED,
};
use crate::fixed::{abs, lemma_tdiv_bounds, tdiv, UNIT};
use crate::traildistance::TrailDistance;
use vstd::prelude::*;

verus! {

/// The distance between two angles of `[0, 180)` on the half circle that
/// they live on.
pub open spec fn fold_gap(x: int, y: int) -> int {
    if abs(x - y) <= HALF_TURN - abs(x - y) {
        abs(x - y)
    } else {
        HALF_TURN - abs(x - y)
    }
}

/// A curvature value that keeps the easing curve inside the unit square:
/// between 0 and 100.
pub open spec fn gentle(curv: int) -> bool {
    0 <= curv <= 100 * UNIT
}

/// With both control values between 0 and 1, the curve's X coordinate is not
/// negative and stays below 1 before the end of the parameter range.
#[verifier::rlimit(40)]
pub proof fn lemma_curve_x_range(a: int, b: int, k: int)
    requires
        0 <= a <= FINE,
        0 <= b <= FINE,
        0 <= k <= STEPS,
    ensures
        0 <= curve_x(a, b, k),
        k < STEPS ==> curve_x(a, b, k) < FINE * STEPS_CUBED,
{
    let m = STEPS as int;
    let u = m - k;
    assert(m == 1_048_576 && FINE == 1_000_000);
    assert(m * m * m == STEPS_CUBED) by {
        assert(m * m == 1_099_511_627_776);
    }
    let kuu = k * u * u;
    let kku = k * k * u;
    let kkk = k * k * k;
    assert(kuu >= 0 && kku >= 0 && kkk >= 0 && 3 * kuu + 3 * kku + kkk + u * u * u == m * m * m
        && (u >= 1 ==> u * u * u >= 1)) by (nonlinear_arith)
        requires
            kuu == k * u * u,
            kku == k * k * u,
            kkk == k * k * k,
            u == m - k,
            0 <= k <= m,
    ;
    assert(curve_x(a, b, k) == 3 * a * kuu + 3 * b * kku + 1_000_000 * kkk) by (nonlinear_arith)
        requires
            curve_x(a, b, k) == 3 * a * k * (1_048_576 - k) * (1_048_576 - k) + 3 * b * k * k * (
            1_048_576 - k) + 1_000_000 * k * k * k,
            kuu == k * u * u,
            kku == k * k * u,
            kkk == k * k * k,
            u == 1_048_576 - k,
    ;
    assert(0 <= 3 * a * kuu <= 3_000_000 * kuu && 0 <= 3 * b * kku <= 3_000_000 * kku)
        by (nonlinear_arith)
        requires
            0 <= a <= 1_000_000,
            0 <= b <= 1_000_000,
            kuu >= 0,
            kku >= 0,
    ;
}

/// Where the curve is never left of `x`, the halvings of `0..2^r` end on 1.
pub proof fn lemma_bisect_down(a: int, b: int, x: int, r: nat)
    requires
        r >= 1,
        forall|k: int| 0 <= k <= two_to(r) ==> !(#[trigger] curve_x(a, b, k) < x * STEPS_CUBED),
    ensures
        bisect(a, b, x, 0, two_to(r), r) == 1,
    decreases r,
{
    let hi = two_to(r);
    let mid = (0 + hi) / 2;
    assert(hi == 2 * two_to((r - 1) as nat));
    assert(mid == two_to((r - 1) as nat));
    if r == 1 {
        assert(two_to(0) == 1);
    } else {
        lemma_two_to_positive((r - 1) as nat);
        assert(!(curve_x(a, b, mid) < x * STEPS_CUBED));
        assert forall|k: int| 0 <= k <= two_to((r - 1) as nat) implies !(#[trigger] curve_x(
            a,
            b,
            k,
        ) < x * STEPS_CUBED) by {
            assert(k <= two_to(r));
        }
        lemma_bisect_down(a, b, x, (r - 1) as nat);
    }
}

/// Where the curve is left of `x` all the way, the halvings of
/// `lo..lo + 2^r` end one below the upper bound.
pub proof fn lemma_bisect_up(a: int, b: int, x: int, lo: int, r: nat)
    requires
        r >= 1,
        forall|k: int| lo <= k < lo + two_to(r) ==> #[trigger] curve_x(a, b, k) < x * STEPS_CUBED,
    ensures
        bisect(a, b, x, lo, lo + two_to(r), r) == lo + two_to(r) - 1,
    decreases r,
{
    let half = two_to((r - 1) as nat);
    let hi = lo + two_to(r);
    assert(two_to(r) == 2 * half);
    let mid = (lo + hi) / 2;
    assert(mid == lo + half);
    lemma_two_to_positive((r - 1) as nat);
    if r == 1 {
        assert(two_to(0) == 1);
    } else {
        assert(curve_x(a, b, mid) < x * STEPS_CUBED);
        assert forall|k: int| mid <= k < mid + half implies #[trigger] curve_x(a, b, k) < x
            * STEPS_CUBED by {
            assert(lo <= k < lo + two_to(r));
        }
        lemma_bisect_up(a, b, x, mid, (r - 1) as nat);
    }
}

/// At progress 0 an ease with gentle control values stands at its start, and
/// at progress 1 within a thousandth of its end.
#[verifier::rlimit(40)]
pub proof fn lemma_eased_ends(start: int, end: int, control_a: int, control_b: int)
    requires
        0 <= control_a <= FINE,
        0 <= control_b <= FINE,
        abs(end - start) <= 3 * FULL_TURN,
    ensures
        eased(start, end, control_a, control_b, 0) == start,
        abs(eased(start, end, control_a, control_b, FINE as int) - end) <= 1,
{
    let a = control_a;
    let b = FINE - control_b;
    let m = STEPS as int;
    let c = STEPS_CUBED as int;
    let d = end - start;
    assert(m == 1_048_576 && FINE == 1_000_000 && FULL_TURN == 360_000 && c
        == 1_152_921_504_606_846_976);
    lemma_steps();
    assert(0 * STEPS_CUBED == 0);
    assert forall|k: int| 0 <= k <= two_to(ROUNDS as nat) implies !(#[trigger] curve_x(a, b, k) < 0
        * STEPS_CUBED) by {
        lemma_curve_x_range(a, b, k);
    }
    lemma_bisect_down(a, b, 0, ROUNDS as nat);
    assert forall|k: int| 0 <= k < 0 + two_to(ROUNDS as nat) implies #[trigger] curve_x(a, b, k)
        < FINE * STEPS_CUBED by {
        lemma_curve_x_range(a, b, k);
    }
    lemma_bisect_up(a, b, FINE as int, 0, ROUNDS as nat);
    // progress 0
    let y0 = curve_y(1);
    assert(y0 == 3 * m - 2) by (nonlinear_arith)
        requires
            y0 == 1 * 1 * (3 * m - 2 * 1),
    ;
    assert(abs(y0 * d) < c) by (nonlinear_arith)
        requires
            y0 == 3 * 1_048_576 - 2,
            abs(d) <= 1_080_000,
            c == 1_152_921_504_606_846_976,
    ;
    lemma_tdiv_bounds(y0 * d, c);
    let q0 = tdiv(y0 * d, c);
    assert(q0 == 0) by (nonlinear_arith)
        requires
            abs(q0) * c <= abs(y0 * d),
            abs(y0 * d) < c,
            c > 0,
    ;
    // progress 1
    let y1 = curve_y(m - 1);
    assert(y1 == c - 3 * m + 2) by (nonlinear_arith)
        requires
            y1 == (m - 1) * (m - 1) * (3 * m - 2 * (m - 1)),
            m == 1_048_576,
            c == 1_152_921_504_606_846_976,
    ;
    lemma_tdiv_bounds(y1 * d, c);
    let q1 = tdiv(y1 * d, c);
    assert(abs(q1 - d) <= 1) by (nonlinear_arith)
        requires
            y1 == c - 3 * 1_048_576 + 2,
            abs(d) <= 1_080_000,
            c == 1_152_921_504_606_846_976,
            y1 * d >= 0 ==> q1 * c <= y1 * d < q1 * c + c,
            y1 * d <= 0 ==> q1 * c - c < y1 * d <= q1 * c,
    {
        assert(y1 * d == c * d - (3 * 1_048_576 - 2) * d);
        assert(abs((3 * 1_048_576 - 2) * d) < c);
    }
}

/// The unwrapped end differs from the end it was given by a whole number of
/// half turns, two at most.
pub proof fn lemma_unwrapped_end(from: int, to: int)
    ensures
        unwrapped_end(from, to) == to || unwrapped_end(from, to) == to + HALF_TURN
            || unwrapped_end(from, to) == to - HALF_TURN || unwrapped_end(from, to) == to
            + FULL_TURN || unwrapped_end(from, to) == to - FULL_TURN,
{
}

/// The remainder of a number that is a multiple of the half turn plus a
/// remainder in range.
pub proof fn lemma_remainder(x: int, q: int, r: int)
    requires
        x == q * 180_000 + r,
        0 <= r < 180_000,
    ensures
        x % 180_000 == r,
{
    vstd::arithmetic::div_mod::lemma_fundamental_div_mod_converse(x, 180_000, q, r);
}

/// An angle moved by a whole number of half turns, two at most, is the same
/// angle of the half circle.
pub proof fn lemma_half_turns(x: int, y: int)
    requires
        y == x || y == x + 180_000 || y == x - 180_000 || y == x + 360_000 || y == x - 360_000,
    ensures
        y % 180_000 == x % 180_000,
{
    let q = x / 180_000;
    let r = x % 180_000;
    assert(x == q * 180_000 + r && 0 <= r < 180_000);
    if y == x + 180_000 {
        lemma_remainder(y, q + 1, r);
    } else if y == x - 180_000 {
        lemma_remainder(y, q - 1, r);
    } else if y == x + 360_000 {
        lemma_remainder(y, q + 2, r);
    } else if y == x - 360_000 {
        lemma_remainder(y, q - 2, r);
    }
}

/// An angle reduced to a full turn is the same angle of the half circle.
pub proof fn lemma_full_turn(x: int)
    ensures
        (x % 360_000) % 180_000 == x % 180_000,
        0 <= x % 360_000 < 360_000,
{
    let q = x / 360_000;
    let r = x % 360_000;
    assert(x == q * 360_000 + r && 0 <= r < 360_000);
    let h = r / 180_000;
    let t = r % 180_000;
    assert(r == h * 180_000 + t && 0 <= t < 180_000);
    lemma_remainder(x, 2 * q + h, t);
}

/// The end of an ease stands for the angle of the keyframe it leads to, on
/// the half circle.
#[verifier::rlimit(40)]
pub proof fn lemma_ease_end(a: TrailDistance, b: TrailDistance)
    ensures
        ease_end(a, b) % (HALF_TURN as int) == (b.degree as int) % (HALF_TURN as int),
{
    assert(HALF_TURN == 180_000 && FULL_TURN == 360_000);
    let to = b.degree as int;
    let near = closer_end(a.degree + a.delta, to);
    assert(near == to || near == to + 180_000);
    lemma_half_turns(to, near);
    let wrapped = near % 360_000;
    lemma_full_turn(near);
    let e = unwrapped_end(ease_start(a), wrapped);
    lemma_unwrapped_end(ease_start(a), wrapped);
    lemma_half_turns(wrapped, e);
    assert(e == ease_end(a, b));
}

/// The end of an ease and the start of the ease that follows it stand for
/// the same angle of the half circle, unless the keyframe between them
/// turns.
#[verifier::rlimit(40)]
pub proof fn lemma_ends_meet(a: TrailDistance, b: TrailDistance)
    requires
        (b.delta as int) % (HALF_TURN as int) == 0,
    ensures
        ease_end(a, b) % (HALF_TURN as int) == ease_start(b) % (HALF_TURN as int),
        folded(ease_start(b)) == folded(b.degree + b.delta),
{
    assert(HALF_TURN == 180_000 && FULL_TURN == 360_000);
    lemma_ease_end(a, b);
    let sum = b.degree + b.delta;
    lemma_full_turn(sum);
    assert(ease_start(b) == sum % 360_000);
    lemma_same_angle(b.degree as int, b.delta as int);
    lemma_folded(sum);
    lemma_folded(ease_start(b));
}

/// A sweep of whole half turns leaves the angle of the half circle as it is.
pub proof fn lemma_same_angle(x: int, sweep: int)
    requires
        sweep % 180_000 == 0,
    ensures
        (x + sweep) % 180_000 == x % 180_000,
{
    let q = x / 180_000;
    let r = x % 180_000;
    let k = sweep / 180_000;
    assert(x == q * 180_000 + r && 0 <= r < 180_000);
    assert(sweep == k * 180_000 + sweep % 180_000);
    lemma_remainder(x + sweep, q + k, r);
}

/// A folded angle is the angle of the half circle.
pub proof fn lemma_folded(x: int)
    ensures
        folded(x) == x % 180_000,
        0 <= folded(x) < 180_000,
{
    assert(HALF_TURN == 180_000 && FULL_TURN == 360_000);
    if x < 0 {
        lemma_half_turns(x, x + 360_000);
    }
}

/// The eased angle at the very end of the segment from `a` to `b`, before it
/// is folded.
pub open spec fn arrival(a: TrailDistance, b: TrailDistance) -> int {
    eased(ease_start(a), ease_end(a, b), a.next_curv * 10, b.prev_curv * 10, FINE as int)
}

/// With gentle curvature values, a segment starts exactly at the angle its
/// first keyframe turns to and arrives, at progress 1, within a thousandth of
/// a degree of its end angle.
pub proof fn lemma_angle_at_ends(a: TrailDistance, b: TrailDistance)
    requires
        gentle(a.next_curv as int),
        gentle(b.prev_curv as int),
    ensures
        angle_between(a, b, 0) == folded(ease_start(a)),
        angle_between(a, b, FINE as int) == folded(arrival(a, b)),
        abs(arrival(a, b) - ease_end(a, b)) <= 1,
{
    assert(UNIT == 1000 && FINE == 1_000_000);
    lemma_ends_meet_range(a, b);
    lemma_eased_ends(ease_start(a), ease_end(a, b), a.next_curv * 10, b.prev_curv * 10);
}

/// Two angles that lie within a thousandth of angles that agree on the half
/// circle lie within a thousandth of each other once folded.
pub proof fn lemma_fold_gap(e1: int, end1: int, s2: int)
    requires
        abs(e1 - end1) <= 1,
        end1 % (HALF_TURN as int) == s2 % (HALF_TURN as int),
    ensures
        fold_gap(folded(e1), folded(s2)) <= 1,
{
    assert(HALF_TURN == 180_000 && FULL_TURN == 360_000);
    lemma_folded(e1);
    lemma_folded(s2);
    let q = end1 / 180_000;
    let r = end1 % 180_000;
    assert(end1 == q * 180_000 + r && 0 <= r < 180_000);
    assert(s2 % 180_000 == r);
    if e1 == end1 + 1 {
        if r + 1 < 180_000 {
            lemma_remainder(e1, q, r + 1);
        } else {
            lemma_remainder(e1, q + 1, 0);
        }
    } else if e1 == end1 - 1 {
        if r >= 1 {
            lemma_remainder(e1, q, r - 1);
        } else {
            lemma_remainder(e1, q - 1, 179_999);
        }
    } else {
        assert(e1 == end1);
    }
}

/// The trail is continuous across a keyframe that does not turn it. Where
/// the keyframe `b` between two segments turns by a whole number of half
/// turns (none, as a rule), and the curvature values at play are between 0
/// and 100, the angle at the very end of the segment from `a` to `b` and the
/// angle at the very start of the segment from `b` to `c` lie within a
/// thousandth of a degree of each other on the half circle, also where the
/// angles themselves wrap around. The start of a segment is exactly the angle
/// its first keyframe turns to.
#[verifier::rlimit(40)]
pub proof fn lemma_boundary_continuity(a: TrailDistance, b: TrailDistance, c: TrailDistance)
    requires
        (b.delta as int) % (HALF_TURN as int) == 0,
        gentle(a.next_curv as int),
        gentle(b.prev_curv as int),
        gentle(b.next_curv as int),
        gentle(c.prev_curv as int),
    ensures
        fold_gap(angle_between(a, b, FINE as int), angle_between(b, c, 0)) <= 1,
        angle_between(b, c, 0) == folded(b.degree + b.delta),
{
    lemma_ends_meet(a, b);
    lemma_angle_at_ends(a, b);
    lemma_angle_at_ends(b, c);
    lemma_fold_gap(arrival(a, b), ease_end(a, b), ease_start(b));
}

/// With both curvature values 0 the easing curve is straight: its X
/// coordinate is its Y coordinate.
pub proof fn lemma_straight_curve(k: int)
    ensures
        curve_x(0, FINE as int, k) == FINE * curve_y(k),
{
    let m = STEPS as int;
    assert(FINE == 1_000_000);
    assert(3 * 0 * k * (m - k) * (m - k) + 3 * 1_000_000 * k * k * (m - k) + 1_000_000 * k * k * k
        == 1_000_000 * (k * k * (3 * m - 2 * k))) by (nonlinear_arith);
}

/// From one step of the curve parameter to the next the curve's Y
/// coordinate does not fall, and rises by at most twice `STEPS` squared.
pub proof fn lemma_curve_y_step(k: int)
    requires
        0 <= k < STEPS,
    ensures
        0 <= curve_y(k + 1) - curve_y(k) <= 2 * STEPS * STEPS,
{
    let m = STEPS as int;
    assert(m == 1_048_576);
    assert((k + 1) * (k + 1) * (3 * m - 2 * (k + 1)) - k * k * (3 * m - 2 * k) == 6 * (k * (m - k))
        + 3 * m - 6 * k - 2) by (nonlinear_arith);
    assert(0 <= 4 * (k * (m - k)) <= m * m) by (nonlinear_arith)
        requires
            0 <= k < m,
    {
        assert((m - 2 * k) * (m - 2 * k) >= 0);
        assert((m - 2 * k) * (m - 2 * k) == m * m - 4 * (k * (m - k)));
    }
    assert(m * m == 1_099_511_627_776);
    assert(2 * STEPS * STEPS == 2 * (m * m));
    assert(6 * (k * (m - k)) + 3 * m - 6 * k - 2 >= 0) by {
        if k == 0 {
            assert(k * (m - k) == 0);
        } else {
            assert(k * (m - k) >= m - 1) by (nonlinear_arith)
                requires
                    1 <= k < m,
            ;
        }
    }
}

/// An ease with both curvature values 0 is linear: at progress `x` it
/// stands, within six thousandths of a degree, at `x` of the way from start
/// to end.
#[verifier::rlimit(60)]
pub proof fn lemma_linear_ease(start: int, end: int, x: int)
    requires
        0 <= x <= FINE,
        abs(end - start) <= 3 * FULL_TURN,
    ensures
        abs(FINE * (eased(start, end, 0, 0, x) - start) - x * (end - start)) <= 6 * FINE,
{
    let m = STEPS as int;
    let c = STEPS_CUBED as int;
    let d = end - start;
    assert(m == 1_048_576 && FINE == 1_000_000 && FULL_TURN == 360_000 && c
        == 1_152_921_504_606_846_976);
    if x == 0 {
        lemma_eased_ends(start, end, 0, 0);
        assert(x * d == 0);
    } else {
        lemma_ease_converges(0, 0, x);
        let k = bisect(0, FINE - 0, x, 0, STEPS as int, ROUNDS as nat);
        let y = curve_y(k);
        let lo = curve_y(k - 1);
        let hi = curve_y(k + 1);
        lemma_straight_curve(k - 1);
        lemma_straight_curve(k + 1);
        lemma_curve_y_step(k - 1);
        lemma_curve_y_step(k);
        assert(m * m == 1_099_511_627_776);
        assert(2 * STEPS * STEPS == 2_199_023_255_552);
        let xc = x * c;
        assert(1_000_000 * lo < xc <= 1_000_000 * hi);
        // how far the curve's coordinate is from the progress
        let u = 1_000_000 * y - xc;
        assert(abs(u) <= 4_398_046_511_104_000_000);
        // how far the rounded quotient is from the exact one
        let q = tdiv(y * d, c);
        lemma_tdiv_bounds(y * d, c);
        let v = q * c - y * d;
        assert(abs(v) < c);
        assert(eased(start, end, 0, 0, x) - start == q);
        let w = 1_000_000 * q - x * d;
        assert(w * c == 1_000_000 * v + d * u) by (nonlinear_arith)
            requires
                v == q * c - y * d,
                u == 1_000_000 * y - xc,
                xc == x * c,
                w == 1_000_000 * q - x * d,
        ;
        assert(abs(d * u) <= 1_080_000 * 4_398_046_511_104_000_000) by (nonlinear_arith)
            requires
                abs(d) <= 1_080_000,
                abs(u) <= 4_398_046_511_104_000_000,
        ;
        assert(abs(w * c) < 6_000_000 * c);
        assert(abs(w) < 6_000_000) by (nonlinear_arith)
            requires
                abs(w * c) < 6_000_000 * c,
                c > 0,
        ;
    }
}

/// Two angles that lie within `d1` and `d2` of angles that agree on the half
/// circle lie within `d1 + d2` of each other once folded.
pub proof fn lemma_fold_gap_within(e1: int, end1: int, d1: int, e2: int, s2: int, d2: int)
    requires
        abs(e1 - end1) <= d1,
        abs(e2 - s2) <= d2,
        end1 % (HALF_TURN as int) == s2 % (HALF_TURN as int),
    ensures
        fold_gap(folded(e1), folded(e2)) <= d1 + d2,
{
    assert(HALF_TURN == 180_000 && FULL_TURN == 360_000);
    lemma_folded(e1);
    lemma_folded(e2);
    let p = e1 % 180_000;
    let q = e2 % 180_000;
    let r = end1 % 180_000;
    assert(e1 == (e1 / 180_000) * 180_000 + p);
    assert(e2 == (e2 / 180_000) * 180_000 + q);
    assert(end1 == (end1 / 180_000) * 180_000 + r);
    assert(s2 == (s2 / 180_000) * 180_000 + r);
    // the folded angles differ by what the angles differ by, up to whole
    // half turns
    let n = (end1 / 180_000) - (s2 / 180_000) - (e1 / 180_000) + (e2 / 180_000);
    let delta = (e1 - end1) - (e2 - s2);
    assert(p - q == delta + n * 180_000);
    assert(abs(delta) <= d1 + d2);
    assert(-180_000 < p - q < 180_000);
    if abs(delta) < 180_000 {
        assert(-1 <= n <= 1);
    }
}

/// The trail is continuous near a keyframe that does not turn it, where the
/// eases are straight. With all four curvature values 0 and `eps` millionths
/// of progress before the keyframe `b` on the segment from `a` and after it
/// on the segment to `c`, the two angles lie within `0.00216 * eps` and
/// twelve thousandths of a degree of each other on the half circle, also
/// where the angles themselves wrap around: the gap closes as `eps` does, and
/// stays below a quarter of a degree for a ten-thousandth of progress.
#[verifier::rlimit(60)]
pub proof fn lemma_continuity_near_boundary(
    a: TrailDistance,
    b: TrailDistance,
    c: TrailDistance,
    eps: int,
)
    requires
        (b.delta as int) % (HALF_TURN as int) == 0,
        a.next_curv == 0,
        b.prev_curv == 0,
        b.next_curv == 0,
        c.prev_curv == 0,
        0 <= eps <= FINE,
    ensures
        1000 * fold_gap(angle_between(a, b, FINE - eps), angle_between(b, c, eps)) <= 2160 * eps
            + 12_000,
        eps <= 100 ==> fold_gap(angle_between(a, b, FINE - eps), angle_between(b, c, eps)) <= 228,
{
    assert(FINE == 1_000_000 && HALF_TURN == 180_000 && FULL_TURN == 360_000);
    lemma_ends_meet(a, b);
    lemma_ends_meet_range(a, b);
    lemma_ends_meet_range(b, c);
    let s1 = ease_start(a);
    let t1 = ease_end(a, b);
    let s2 = ease_start(b);
    let t2 = ease_end(b, c);
    lemma_linear_ease(s1, t1, FINE - eps);
    lemma_linear_ease(s2, t2, eps);
    let e1 = eased(s1, t1, 0, 0, FINE - eps);
    let e2 = eased(s2, t2, 0, 0, eps);
    assert(angle_between(a, b, FINE - eps) == folded(e1));
    assert(angle_between(b, c, eps) == folded(e2));
    let d1 = t1 - s1;
    let d2 = t2 - s2;
    assert(abs(eps * d1) <= 1_080_000 * eps) by (nonlinear_arith)
        requires
            0 <= eps,
            abs(d1) <= 1_080_000,
    ;
    assert(abs(eps * d2) <= 1_080_000 * eps) by (nonlinear_arith)
        requires
            0 <= eps,
            abs(d2) <= 1_080_000,
    ;
    assert((1_000_000 - eps) * d1 == 1_000_000 * d1 - eps * d1) by (nonlinear_arith);
    assert(abs(1_000_000 * (e1 - t1)) <= 6_000_000 + 1_080_000 * eps);
    assert(abs(1_000_000 * (e2 - s2)) <= 6_000_000 + 1_080_000 * eps);
    let within = (6000 + 1080 * eps) / 1000;
    assert(abs(e1 - t1) <= within);
    assert(abs(e2 - s2) <= within);
    lemma_fold_gap_within(e1, t1, within, e2, s2, within);
}

/// With both control values between 0 and 1, the curve's X coordinate is at
/// least the cube of the parameter, and falls short of 1 by at least the
/// cube of what the parameter falls short of 1 by.
#[verifier::rlimit(40)]
pub proof fn lemma_curve_x_cubes(a: int, b: int, k: int)
    requires
        0 <= a <= FINE,
        0 <= b <= FINE,
        0 <= k <= STEPS,
    ensures
        curve_x(a, b, k) >= FINE * (k * k * k),
        FINE * STEPS_CUBED - curve_x(a, b, k) >= FINE * ((STEPS - k) * (STEPS - k) * (STEPS - k)),
{
    let m = STEPS as int;
    let u = m - k;
    assert(m == 1_048_576 && FINE == 1_000_000);
    assert(m * m * m == STEPS_CUBED) by {
        assert(m * m == 1_099_511_627_776);
    }
    let kuu = k * u * u;
    let kku = k * k * u;
    let kkk = k * k * k;
    let uuu = u * u * u;
    assert(kuu >= 0 && kku >= 0 && kkk >= 0 && uuu >= 0 && 3 * kuu + 3 * kku + kkk + uuu == m * m
        * m) by (nonlinear_arith)
        requires
            kuu == k * u * u,
            kku == k * k * u,
            kkk == k * k * k,
            uuu == u * u * u,
            u == m - k,
            0 <= k <= m,
    ;
    assert(curve_x(a, b, k) == 3 * a * kuu + 3 * b * kku + 1_000_000 * kkk) by (nonlinear_arith)
        requires
            curve_x(a, b, k) == 3 * a * k * (1_048_576 - k) * (1_048_576 - k) + 3 * b * k * k * (
            1_048_576 - k) + 1_000_000 * k * k * k,
            kuu == k * u * u,
            kku == k * k * u,
            kkk == k * k * k,
            u == 1_048_576 - k,
    ;
    assert(0 <= 3 * a * kuu <= 3_000_000 * kuu && 0 <= 3 * b * kku <= 3_000_000 * kku)
        by (nonlinear_arith)
        requires
            0 <= a <= 1_000_000,
            0 <= b <= 1_000_000,
            kuu >= 0,
            kku >= 0,
    ;
    assert((STEPS - k) * (STEPS - k) * (STEPS - k) == uuu);
}

/// The curve's Y coordinate is at most three times the square of the
/// parameter, and falls short of 1 by at most three times the square of
/// what the parameter falls short of 1 by.
pub proof fn lemma_curve_y_squares(k: int)
    requires
        0 <= k <= STEPS,
    ensures
        0 <= curve_y(k) <= 3 * STEPS * (k * k),
        0 <= STEPS_CUBED - curve_y(k) <= 3 * STEPS * ((STEPS - k) * (STEPS - k)),
{
    let m = STEPS as int;
    let u = m - k;
    assert(m == 1_048_576);
    assert(m * m * m == STEPS_CUBED) by {
        assert(m * m == 1_099_511_627_776);
    }
    assert(0 <= k * k * (3 * m - 2 * k) <= 3 * m * (k * k)) by (nonlinear_arith)
        requires
            0 <= k <= m,
    ;
    assert(m * m * m - k * k * (3 * m - 2 * k) == u * u * (m + 2 * k)) by (nonlinear_arith)
        requires
            u == m - k,
    ;
    assert(0 <= u * u * (m + 2 * k) <= 3 * m * (u * u)) by (nonlinear_arith)
        requires
            0 <= k <= m,
            u == m - k,
    ;
}

/// A whole number whose cube is below the cube of another is below it.
pub proof fn lemma_cube_order(x: int, y: int)
    requires
        0 <= x,
        0 <= y,
        x * x * x < y * y * y,
    ensures
        x < y,
{
    if x >= y {
        assert(x * x * x >= y * y * y) by (nonlinear_arith)
            requires
                x >= y,
                y >= 0,
        {
            assert(x * x >= y * y);
            assert(x * x * x >= y * y * x);
            assert(y * y * x >= y * y * y);
        }
    }
}

/// An ease with gentle control values stays near its ends near the ends of
/// the progress. Where `reach` steps of the curve parameter, cubed, stand
/// for more than the progress `eps`, the eased value at progress `eps` lies
/// within `3 * reach^2 / STEPS^2` of the way from its start, and the eased
/// value at `eps` before progress 1 within as much, and a thousandth of a
/// degree, of its end. `reach` may be as small as the cube root of `eps`
/// allows: the eased value closes in on its ends as `eps` does.
#[verifier::rlimit(80)]
pub proof fn lemma_ease_near_ends(
    start: int,
    end: int,
    control_a: int,
    control_b: int,
    eps: int,
    reach: int,
)
    requires
        0 <= control_a <= FINE,
        0 <= control_b <= FINE,
        abs(end - start) <= 3 * FULL_TURN,
        0 <= eps,
        1 <= reach <= STEPS,
        eps * STEPS_CUBED < FINE * (reach * reach * reach),
    ensures
        abs(eased(start, end, control_a, control_b, eps) - start) * (STEPS * STEPS) <= 3 * abs(
            end - start,
        ) * (reach * reach),
        abs(eased(start, end, control_a, control_b, FINE - eps) - end) * (STEPS * STEPS) <= 3
            * abs(end - start) * (reach * reach) + STEPS * STEPS,
{
    let a = control_a;
    let b = FINE - control_b;
    let m = STEPS as int;
    let c = STEPS_CUBED as int;
    let d = end - start;
    let rr = reach * reach;
    assert(m == 1_048_576 && FINE == 1_000_000 && FULL_TURN == 360_000 && c
        == 1_152_921_504_606_846_976);
    assert(m * m == 1_099_511_627_776);
    assert(STEPS * STEPS == m * m);
    assert(m * m * m == c);
    assert(rr >= 1 && reach * reach * reach == rr * reach && rr <= m * m) by (nonlinear_arith)
        requires
            rr == reach * reach,
            1 <= reach <= m,
    ;
    assert(3 * abs(d) * rr >= 0) by (nonlinear_arith)
        requires
            rr >= 1,
            abs(d) >= 0,
    ;
    assert(eps < FINE) by {
        if eps >= FINE {
            assert(eps * c >= 1_000_000 * c) by (nonlinear_arith)
                requires
                    eps >= 1_000_000,
                    c > 0,
            ;
            assert(rr * reach <= m * m * m) by (nonlinear_arith)
                requires
                    0 <= rr <= m * m,
                    1 <= reach <= m,
            ;
        }
    }
    lemma_eased_ends(start, end, control_a, control_b);
    if eps == 0 {
        assert(FINE - eps == FINE);
    } else {
        // near the start
        lemma_ease_converges(control_a, control_b, eps);
        let k = bisect(a, b, eps, 0, STEPS as int, ROUNDS as nat);
        lemma_curve_x_cubes(a, b, k - 1);
        let below = (k - 1) * (k - 1) * (k - 1);
        assert(below < reach * reach * reach) by (nonlinear_arith)
            requires
                1_000_000 * below <= curve_x(a, b, k - 1),
                curve_x(a, b, k - 1) < eps * c,
                eps * c < 1_000_000 * (reach * reach * reach),
        ;
        lemma_cube_order(k - 1, reach);
        lemma_curve_y_squares(k);
        let y = curve_y(k);
        assert(k * k <= rr) by (nonlinear_arith)
            requires
                0 <= k <= reach,
                rr == reach * reach,
        ;
        assert(0 <= y <= 3 * m * rr) by (nonlinear_arith)
            requires
                0 <= y <= 3 * m * (k * k),
                k * k <= rr,
                m > 0,
        ;
        let q = tdiv(y * d, c);
        lemma_tdiv_bounds(y * d, c);
        assert(eased(start, end, control_a, control_b, eps) - start == q);
        assert(abs(y * d) <= 3 * m * rr * abs(d)) by (nonlinear_arith)
            requires
                0 <= y <= 3 * m * rr,
        ;
        assert(abs(q) * (m * m) <= 3 * abs(d) * rr) by (nonlinear_arith)
            requires
                abs(q) * c <= abs(y * d),
                abs(y * d) <= 3 * m * rr * abs(d),
                c == m * m * m,
                m > 0,
        {
            assert(abs(q) * (m * m) * m <= (3 * abs(d) * rr) * m);
        }
        // near the end
        let x = FINE - eps;
        lemma_ease_converges(control_a, control_b, x);
        let k2 = bisect(a, b, x, 0, STEPS as int, ROUNDS as nat);
        let u = m - k2;
        lemma_curve_x_cubes(a, b, k2 + 1);
        let short = (u - 1) * (u - 1) * (u - 1);
        assert((STEPS - (k2 + 1)) * (STEPS - (k2 + 1)) * (STEPS - (k2 + 1)) == short);
        assert(x * c == 1_000_000 * c - eps * c) by (nonlinear_arith)
            requires
                x == 1_000_000 - eps,
        ;
        assert(short < reach * reach * reach) by (nonlinear_arith)
            requires
                1_000_000 * c - curve_x(a, b, k2 + 1) >= 1_000_000 * short,
                1_000_000 * c - eps * c <= curve_x(a, b, k2 + 1),
                eps * c < 1_000_000 * (reach * reach * reach),
        ;
        lemma_cube_order(u - 1, reach);
        lemma_curve_y_squares(k2);
        let y2 = curve_y(k2);
        let g = c - y2;
        assert(u * u <= rr) by (nonlinear_arith)
            requires
                0 <= u <= reach,
                rr == reach * reach,
        ;
        assert((STEPS - k2) * (STEPS - k2) == u * u);
        assert(0 <= g <= 3 * m * rr) by (nonlinear_arith)
            requires
                0 <= g <= 3 * m * (u * u),
                u * u <= rr,
                m > 0,
        ;
        let q2 = tdiv(y2 * d, c);
        lemma_tdiv_bounds(y2 * d, c);
        assert(eased(start, end, control_a, control_b, x) - end == q2 - d);
        let v = q2 * c - y2 * d;
        assert(abs(v) < c);
        assert((q2 - d) * c == v - g * d) by (nonlinear_arith)
            requires
                v == q2 * c - y2 * d,
                g == c - y2,
        ;
        assert(abs(g * d) <= 3 * m * rr * abs(d)) by (nonlinear_arith)
            requires
                0 <= g <= 3 * m * rr,
        ;
        assert(abs(q2 - d) * c <= 3 * m * rr * abs(d) + c) by (nonlinear_arith)
            requires
                (q2 - d) * c == v - g * d,
                abs(v) < c,
                abs(g * d) <= 3 * m * rr * abs(d),
                c > 0,
        ;
        assert(abs(q2 - d) * (m * m) <= 3 * abs(d) * rr + m * m) by (nonlinear_arith)
            requires
                abs(q2 - d) * c <= 3 * m * rr * abs(d) + c,
                c == m * m * m,
                m > 0,
        {
            assert(abs(q2 - d) * (m * m) * m <= (3 * abs(d) * rr + m * m) * m);
        }
    }
}

/// How far, in thousandths of a degree, an ease of at most three turns with
/// gentle control values can stand from its end while the curve parameter is
/// within `reach` steps of that end: `3.24 * reach^2 / STEPS^2` degrees and
/// a thousandth.
pub open spec fn reach_bound(reach: int) -> int {
    (3_240_000 * (reach * reach)) / 1_099_511_627_776 + 1
}

/// What is at most `3 * span * reach^2 / STEPS^2`, and one more, is at most
/// `reach_bound(reach)`, for a span of three turns at most.
pub proof fn lemma_reach_bound(x: int, span: int, reach: int)
    requires
        0 <= x,
        0 <= span <= 3 * FULL_TURN,
        1 <= reach,
        x * (STEPS * STEPS) <= 3 * span * (reach * reach) + STEPS * STEPS,
    ensures
        x <= reach_bound(reach),
{
    let rr = reach * reach;
    assert(STEPS * STEPS == 1_099_511_627_776 && FULL_TURN == 360_000);
    assert(rr >= 1) by (nonlinear_arith)
        requires
            rr == reach * reach,
            reach >= 1,
    ;
    assert(3 * span * rr <= 3_240_000 * rr) by (nonlinear_arith)
        requires
            0 <= span <= 1_080_000,
            rr >= 1,
    ;
    let t = 3_240_000 * rr;
    assert(x * 1_099_511_627_776 <= t + 1_099_511_627_776);
    assert(t == 1_099_511_627_776 * (t / 1_099_511_627_776) + t % 1_099_511_627_776);
}

/// An ease with gentle control values stays within `reach_bound(reach)` of
/// its start at progress `eps` and of its end at `eps` before progress 1,
/// where `reach` steps of the curve parameter, cubed, stand for more than
/// `eps`.
pub proof fn lemma_ease_within_reach(
    start: int,
    end: int,
    control_a: int,
    control_b: int,
    eps: int,
    reach: int,
)
    requires
        0 <= control_a <= FINE,
        0 <= control_b <= FINE,
        abs(end - start) <= 3 * FULL_TURN,
        0 <= eps,
        1 <= reach <= STEPS,
        eps * STEPS_CUBED < FINE * (reach * reach * reach),
    ensures
        abs(eased(start, end, control_a, control_b, eps) - start) <= reach_bound(reach),
        abs(eased(start, end, control_a, control_b, FINE - eps) - end) <= reach_bound(reach),
{
    lemma_ease_near_ends(start, end, control_a, control_b, eps, reach);
    assert(STEPS * STEPS == 1_099_511_627_776);
    lemma_reach_bound(
        abs(eased(start, end, control_a, control_b, eps) - start),
        abs(end - start),
        reach,
    );
    lemma_reach_bound(
        abs(eased(start, end, control_a, control_b, FINE - eps) - end),
        abs(end - start),
        reach,
    );
}

/// The trail is continuous near a keyframe that does not turn it, whatever
/// the curvature values between 0 and 100. Where `reach` steps of the curve
/// parameter, cubed, stand for more than `eps` millionths of progress, the
/// angle `eps` before the keyframe `b` on the segment from `a` and the angle
/// `eps` after it on the segment to `c` lie within twice
/// `reach_bound(reach)` of each other on the half circle, also where the
/// angles themselves wrap around. `reach` may be as small as the cube root of
/// `eps` allows, so the gap closes as `eps` does.
pub proof fn lemma_continuity_modulus(
    a: TrailDistance,
    b: TrailDistance,
    c: TrailDistance,
    eps: int,
    reach: int,
)
    requires
        (b.delta as int) % (HALF_TURN as int) == 0,
        gentle(a.next_curv as int),
        gentle(b.prev_curv as int),
        gentle(b.next_curv as int),
        gentle(c.prev_curv as int),
        0 <= eps,
        1 <= reach <= STEPS,
        eps * STEPS_CUBED < FINE * (reach * reach * reach),
    ensures
        fold_gap(angle_between(a, b, FINE - eps), angle_between(b, c, eps)) <= 2 * reach_bound(
            reach,
        ),
{
    assert(UNIT == 1000 && FINE == 1_000_000);
    lemma_ends_meet(a, b);
    lemma_ends_meet_range(a, b);
    lemma_ends_meet_range(b, c);
    let s1 = ease_start(a);
    let t1 = ease_end(a, b);
    let s2 = ease_start(b);
    let t2 = ease_end(b, c);
    lemma_ease_within_reach(s1, t1, a.next_curv * 10, b.prev_curv * 10, eps, reach);
    lemma_ease_within_reach(s2, t2, b.next_curv * 10, c.prev_curv * 10, eps, reach);
    let e1 = eased(s1, t1, a.next_curv * 10, b.prev_curv * 10, FINE - eps);
    let e2 = eased(s2, t2, b.next_curv * 10, c.prev_curv * 10, eps);
    lemma_fold_gap_within(e1, t1, reach_bound(reach), e2, s2, reach_bound(reach));
}

/// The trail is continuous near a keyframe that does not turn it: with
/// curvature values between 0 and 100, a ten-thousandth of progress or less
/// before the keyframe and as much after it, the two angles lie within 14
/// degrees of each other on the half circle; a millionth of progress from
/// it, within 0.65 degrees.
pub proof fn lemma_continuity_near_keyframe(
    a: TrailDistance,
    b: TrailDistance,
    c: TrailDistance,
    eps: int,
)
    requires
        (b.delta as int) % (HALF_TURN as int) == 0,
        gentle(a.next_curv as int),
        gentle(b.prev_curv as int),
        gentle(b.next_curv as int),
        gentle(c.prev_curv as int),
        0 <= eps <= 100,
    ensures
        fold_gap(angle_between(a, b, FINE - eps), angle_between(b, c, eps)) <= 13_980,
        eps <= 1 ==> fold_gap(angle_between(a, b, FINE - eps), angle_between(b, c, eps)) <= 650,
{
    assert(FINE == 1_000_000 && STEPS == 1_048_576 && STEPS_CUBED
        == 1_152_921_504_606_846_976);
    assert(48_700 * 48_700 == 2_371_690_000int);
    assert(48_700 * 48_700 * 48_700 == 115_501_303_000_000int);
    assert(reach_bound(48_700) == 6_989);
    lemma_continuity_modulus(a, b, c, eps, 48_700);
    if eps <= 1 {
        assert(10_486 * 10_486 == 109_956_196int);
        assert(10_486 * 10_486 * 10_486 == 1_153_000_671_256int);
        assert(reach_bound(10_486) == 325);
        lemma_continuity_modulus(a, b, c, eps, 10_486);
    }
}

/// The start of an ease is in `[0, 360)` and its end within three turns of
/// it.
pub proof fn lemma_ends_meet_range(a: TrailDistance, b: TrailDistance)
    ensures
        0 <= ease_start(a) < FULL_TURN,
        abs(ease_end(a, b) - ease_start(a)) <= 3 * FULL_TURN,
{
    assert(HALF_TURN == 180_000 && FULL_TURN == 360_000);
    let near = closer_end(a.degree + a.delta, b.degree as int);
    lemma_full_turn(near);
    lemma_full_turn(a.degree + a.delta);
    lemma_unwrapped_end(ease_start(a), near % 360_000);
}

} // verus!
