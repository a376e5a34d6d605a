//! Fixed-point conventions, magnitude limits and integer helpers.

use vstd::prelude::*;

verus! {

/// The fixed-point value of 1.0 of a speed, a tempo, an angle or a curvature
/// value: these count thousandths.
pub const UNIT: i64 = 1000;

/// One millisecond of chart time, one second of real time: these count
/// millionths.
pub const TIME_UNIT: i64 = 1_000_000;

/// One unit of distance: what a speed of 1.0 covers in a millisecond. It is
/// `2 * UNIT * TIME_UNIT`, so that the area under a speed line is a whole
/// number of distance counts: twice the speed times the time under a step,
/// the sum of the two speeds times the time under a ramp.
pub const DISTANCE_UNIT: i64 = 2_000_000_000;

/// Milliseconds of chart time in a second of real time.
pub const MILLIS: i64 = 1000;

/// Largest magnitude of a time in a chart entry: ten million milliseconds.
/// The limits on times and speeds are as wide as 64 bits allow together: a
/// distance is a speed times a time, at `DISTANCE_UNIT` counts to the unit.
pub const TIME_LIMIT: i64 = 10_000_000_000_000;

/// Largest magnitude of a time that a query may ask about.
pub const QUERY_TIME_LIMIT: i64 = 20_000_000_000_000;

/// Largest magnitude of a scroll speed: 100.0.
pub const SPEED_LIMIT: i64 = 100_000;

/// Largest distance that a sample of the speed table can hold:
/// `2 * SPEED_LIMIT * TIME_LIMIT`.
pub const DISTANCE_LIMIT: i64 = 2_000_000_000_000_000_000;

/// Largest magnitude of a distance that a query returns or may ask about.
pub const QUERY_DISTANCE_LIMIT: i64 = 8_000_000_000_000_000_000;

/// Largest magnitude of an angle, a sweep or a curvature value.
pub const ANGLE_LIMIT: i64 = 1_000_000_000;

/// Largest tempo: 10000 beats per minute. The smallest is one beat per
/// minute (`UNIT`): between the two, the beat count of every time within the
/// limits fits 64 bits, and a count of a beat lasts less than a count of
/// real time.
pub const BPM_LIMIT: i64 = 10_000_000;

/// Largest repeat count of a slide.
pub const AMOUNT_LIMIT: i32 = 1_000_000;

/// Quotient rounded toward zero, for a positive divisor.
pub open spec fn tdiv(a: int, b: int) -> int {
    if a >= 0 {
        a / b
    } else {
        -((-a) / b)
    }
}

/// Remainder that goes with `tdiv`: it has the sign of `a`.
pub open spec fn trem(a: int, b: int) -> int {
    a - b * tdiv(a, b)
}

/// Absolute value.
pub open spec fn abs(a: int) -> int {
    if a >= 0 {
        a
    } else {
        -a
    }
}

/// `tdiv` in executable code.
pub fn div_trunc(a: i128, b: i128) -> (q: i128)
    requires
        b > 0,
    ensures
        q == tdiv(a as int, b as int),
{
    a / b
}

/// `trem` in executable code.
pub fn rem_trunc(a: i64, b: i64) -> (r: i64)
    requires
        b > 0,
    ensures
        r == trem(a as int, b as int),
        -b < r < b,
{
    proof {
        lemma_tdiv_bounds(a as int, b as int);
    }
    a % b
}

/// The non-negative remainder of `a` modulo a positive `b`.
pub fn rem_floor(a: i64, b: i64) -> (r: i64)
    requires
        b > 0,
    ensures
        r == (a as int) % (b as int),
        0 <= r < b,
{
    let r: i64 = a % b;
    proof {
        lemma_tdiv_bounds(a as int, b as int);
        if a < 0 {
            let n = -(a as int);
            let bi = b as int;
            assert(n == bi * (n / bi) + n % bi) by (nonlinear_arith)
                requires
                    bi > 0,
            ;
            assert(0 <= n % bi < bi);
            if n % bi == 0 {
                assert((a as int) == (-(n / bi)) * bi + 0) by (nonlinear_arith)
                    requires
                        n == bi * (n / bi),
                        a as int == -n,
                ;
                vstd::arithmetic::div_mod::lemma_fundamental_div_mod_converse(
                    a as int,
                    bi,
                    -(n / bi),
                    0,
                );
            } else {
                assert((a as int) == (-(n / bi) - 1) * bi + (bi - n % bi)) by (nonlinear_arith)
                    requires
                        n == bi * (n / bi) + n % bi,
                        a as int == -n,
                ;
                vstd::arithmetic::div_mod::lemma_fundamental_div_mod_converse(
                    a as int,
                    bi,
                    -(n / bi) - 1,
                    bi - n % bi,
                );
            }
        }
    }
    if r < 0 {
        r + b
    } else {
        r
    }
}

/// `tdiv` never overshoots: the quotient times the divisor stays between zero
/// and `a`, and misses `a` by less than the divisor.
pub proof fn lemma_tdiv_bounds(a: int, b: int)
    requires
        b > 0,
    ensures
        a >= 0 ==> 0 <= tdiv(a, b) * b <= a < tdiv(a, b) * b + b,
        a <= 0 ==> a <= tdiv(a, b) * b <= 0 && tdiv(a, b) * b - b < a,
        a >= 0 ==> 0 <= trem(a, b) < b,
        a <= 0 ==> -b < trem(a, b) <= 0,
        a >= 0 ==> trem(a, b) == a % b,
        a <= 0 ==> trem(a, b) == -((-a) % b),
        abs(tdiv(a, b)) == abs(a) / b,
        abs(tdiv(a, b)) * b <= abs(a),
{
    let n = abs(a);
    assert(n == b * (n / b) + n % b && 0 <= n % b < b) by (nonlinear_arith)
        requires
            b > 0,
            n >= 0,
    ;
    assert((n / b) * b == b * (n / b)) by (nonlinear_arith);
    assert((-(n / b)) * b == -(b * (n / b))) by (nonlinear_arith);
    assert(b * (-(n / b)) == -(b * (n / b))) by (nonlinear_arith);
    assert(n / b >= 0) by (nonlinear_arith)
        requires
            n == b * (n / b) + n % b,
            0 <= n % b < b,
            n >= 0,
            b > 0,
    ;
}

/// `tdiv` never decreases when its numerator grows.
pub proof fn lemma_tdiv_monotone(a: int, b: int, c: int)
    requires
        a <= b,
        c > 0,
    ensures
        tdiv(a, c) <= tdiv(b, c),
{
    lemma_tdiv_bounds(a, c);
    lemma_tdiv_bounds(b, c);
    let qa = tdiv(a, c);
    let qb = tdiv(b, c);
    if a >= 0 {
        assert(qa <= qb) by (nonlinear_arith)
            requires
                qa * c <= a,
                a <= b,
                b < qb * c + c,
                c > 0,
        ;
    } else if b <= 0 {
        assert(qa <= qb) by (nonlinear_arith)
            requires
                qa * c - c < a,
                a <= b,
                b <= qb * c,
                c > 0,
        ;
    } else {
        assert(qa <= 0) by (nonlinear_arith)
            requires
                qa * c <= 0,
                c > 0,
        ;
        assert(qb >= 0) by (nonlinear_arith)
            requires
                0 <= qb * c,
                c > 0,
        ;
    }
}

/// A common positive factor of numerator and divisor cancels.
pub proof fn lemma_tdiv_cancel(k: int, a: int, c: int)
    requires
        k > 0,
        c > 0,
    ensures
        tdiv(k * a, k * c) == tdiv(a, c),
{
    let n = abs(a);
    assert(k * c > 0) by (nonlinear_arith)
        requires
            k > 0,
            c > 0,
    ;
    assert(n == c * (n / c) + n % c && 0 <= n % c < c) by (nonlinear_arith)
        requires
            c > 0,
            n >= 0,
    ;
    let q = n / c;
    let r = n % c;
    assert(k * n == q * (k * c) + k * r && 0 <= k * r < k * c) by (nonlinear_arith)
        requires
            n == c * q + r,
            0 <= r < c,
            k > 0,
    ;
    vstd::arithmetic::div_mod::lemma_fundamental_div_mod_converse(k * n, k * c, q, k * r);
    if a >= 0 {
        assert(k * a >= 0) by (nonlinear_arith)
            requires
                k > 0,
                a >= 0,
        ;
    } else {
        assert(k * a < 0 && -(k * a) == k * n) by (nonlinear_arith)
            requires
                k > 0,
                a < 0,
                n == -a,
        ;
    }
}

/// Two numerators that lie at most `m` divisors apart give quotients that lie
/// at most `m + 1` apart.
pub proof fn lemma_tdiv_step(a: int, b: int, c: int, m: int)
    requires
        c > 0,
        a <= b,
        b - a <= m * c,
    ensures
        0 <= tdiv(b, c) - tdiv(a, c) <= m + 1,
{
    lemma_tdiv_monotone(a, b, c);
    lemma_tdiv_bounds(a, c);
    lemma_tdiv_bounds(b, c);
    let qa = tdiv(a, c);
    let qb = tdiv(b, c);
    assert(qb * c < b + c);
    assert(qa * c > a - c);
    assert(qb - qa <= m + 1) by (nonlinear_arith)
        requires
            qb * c < b + c,
            qa * c > a - c,
            b - a <= m * c,
            c > 0,
    ;
}

/// A numerator that is not negative and grows by the divisor or more gives
/// a greater quotient.
pub proof fn lemma_tdiv_strict(a: int, b: int, c: int)
    requires
        c > 0,
        0 <= a,
        a + c <= b,
    ensures
        tdiv(a, c) < tdiv(b, c),
{
    lemma_tdiv_bounds(a, c);
    lemma_tdiv_bounds(b, c);
    let qa = tdiv(a, c);
    let qb = tdiv(b, c);
    assert(qa < qb) by (nonlinear_arith)
        requires
            qa * c <= a,
            b < qb * c + c,
            a + c <= b,
            c > 0,
    ;
}

} // verus!
