//! The inverse of the integrator: the time at which a distance is reached,
//! and the laws that tie it to the speed table.

use crate::fixed::{
    abs, div_trunc, lemma_tdiv_bounds, lemma_tdiv_cancel, lemma_tdiv_monotone, lemma_tdiv_step,
    lemma_tdiv_strict, tdiv, DISTANCE_LIMIT, DISTANCE_UNIT, QUERY_DISTANCE_LIMIT, SPEED_LIMIT,
    TIME_LIMIT,
};
use crate::index::{
    ascending, find_pos, in_force, keys_of, lemma_in_force, selects, ByDistance, ByTime,
    IN_FORCE,
};
use crate::integrate::{
    carry_from, distance_at, distance_from, forward, lemma_area_bound, lemma_speed_table_ok,
    sample_after, segment_area, speed_table, speed_table_ok, speeds_ok,
};
use crate::speed::Speed;
use crate::speeddistance::SpeedDistance;
use vstd::prelude::*;

verus! {

/// The first sample from `p` on whose speed is not zero; the length of the
/// table if there is none.
pub open spec fn moving_from(table: Seq<SpeedDistance>, p: int) -> int
    decreases table.len() - p,
{
    if p >= table.len() {
        table.len() as int
    } else if table[p].speed != 0 {
        p
    } else {
        moving_from(table, p + 1)
    }
}

/// The first sample from `p` on that does not stand at `time`; the length of
/// the table if there is none.
pub open spec fn later_from(table: Seq<SpeedDistance>, time: int, p: int) -> int
    decreases table.len() - p,
{
    if p >= table.len() {
        table.len() as int
    } else if table[p].time != time {
        p
    } else {
        later_from(table, time, p + 1)
    }
}

/// `e` after sample `s`, on the ramp towards sample `n`, the distance `d` has
/// been reached.
pub open spec fn reaches(s: SpeedDistance, n: SpeedDistance, d: int, e: int) -> bool {
    distance_from(s, Some(n), s.time + e) >= d
}

/// The least elapsed time from `e` on at which the ramp from `s` to `n` has
/// reached `d`; the length of the ramp if it never does.
pub open spec fn first_reaching(s: SpeedDistance, n: SpeedDistance, d: int, e: int) -> int
    decreases (n.time - s.time) - e,
{
    if e >= n.time - s.time {
        n.time - s.time
    } else if reaches(s, n, d, e) {
        e
    } else {
        first_reaching(s, n, d, e + 1)
    }
}

/// The time at which the scroll path reaches distance `d`. The sample in
/// force is the last one whose distance is at most `d`; samples of speed
/// zero are passed over, since a stalled segment cannot be inverted. If no
/// moving sample is left, the path stalls at the sample in force and its time
/// is the answer. On a ramp (the next sample at a later time is smooth) the
/// quadratic relation between elapsed time and distance is solved for the
/// least elapsed time at which `d` is reached; elsewhere the linear relation
/// gives `t1 + (d - d1) / v1`, rounded toward zero to a count of time.
pub open spec fn time_at(table: Seq<SpeedDistance>, d: int) -> int {
    let p0 = in_force(keys_of::<SpeedDistance, ByDistance>(table), d);
    let p1 = moving_from(table, p0);
    if p1 >= table.len() {
        table[p0].time as int
    } else {
        let s = table[p1];
        let p2 = later_from(table, s.time as int, p1 + 1);
        if p2 < table.len() && table[p2].smooth == 1 && d > s.distance {
            s.time + first_reaching(s, table[p2], d, 0)
        } else {
            s.time + tdiv(d - s.distance, 2 * s.speed)
        }
    }
}

/// Every sample of the table scrolls forwards.
pub open spec fn moving(table: Seq<SpeedDistance>) -> bool {
    forall|i: int| 0 <= i < table.len() ==> (#[trigger] table[i]).speed > 0
}

/// On a chart that never scrolls backwards, the distances of the speed table
/// never decrease from one sample to the next.
pub proof fn lemma_distances_ascending(table: Seq<SpeedDistance>)
    requires
        speed_table_ok(table),
        forward(table),
    ensures
        ascending(keys_of::<SpeedDistance, ByDistance>(table)),
{
    let keys = keys_of::<SpeedDistance, ByDistance>(table);
    assert forall|i: int, j: int| 0 <= i <= j < keys.len() implies keys[i] <= keys[j] by {
        lemma_distance_step(table, i, j);
    }
}

/// A later sample is at least as far along as an earlier one; exactly as far
/// if both stand at the same time; and farther if it stands at a later time
/// and every sample between them moves.
pub proof fn lemma_distance_step(table: Seq<SpeedDistance>, i: int, j: int)
    requires
        speed_table_ok(table),
        forward(table),
        0 <= i <= j < table.len(),
    ensures
        table[i].distance <= table[j].distance,
        table[i].time <= table[j].time,
        table[i].time == table[j].time ==> table[i].distance == table[j].distance,
        moving(table) && table[i].time < table[j].time ==> table[i].distance < table[j].distance,
    decreases j - i,
{
    if i < j {
        lemma_distance_step(table, i, j - 1);
        let times = keys_of::<SpeedDistance, ByTime>(table);
        assert(times[j - 1] <= times[j]);
        assert(times[i] <= times[j - 1]);
        assert(table[j - 1].within_limits() && table[j].within_limits());
        assert(table[j].distance == table[j - 1].distance + segment_area(
            table[j - 1].speed as int,
            table[j].speed as int,
            table[j].time - table[j - 1].time,
            table[j].smooth as int,
        ));
        lemma_area_bound(
            table[j - 1].speed as int,
            table[j].speed as int,
            table[j].time - table[j - 1].time,
            table[j].smooth as int,
        );
    }
}

/// The speed table of speed points that never scroll backwards has
/// distances that never decrease as time goes on.
pub proof fn lemma_speed_table_distances_ascending(speeds: Seq<Speed>)
    requires
        speeds_ok(speeds),
        forall|i: int| 0 <= i < speeds.len() ==> (#[trigger] speeds[i]).speed >= 0,
    ensures
        forward(speed_table(speeds)),
        ascending(keys_of::<SpeedDistance, ByDistance>(speed_table(speeds))),
        ascending(keys_of::<SpeedDistance, ByTime>(speed_table(speeds))),
{
    lemma_speed_table_ok(speeds);
    let table = speed_table(speeds);
    assert forall|i: int| 0 <= i < table.len() implies (#[trigger] table[i]).speed >= 0 by {
        let off: int = if speeds.len() == 0 || speeds[0].time != 0 {
            1
        } else {
            0
        };
        if i >= off {
            assert(table[i].speed == speeds[i - off].speed);
        }
    }
    lemma_distances_ascending(table);
}

/// The speed table of speed points that all scroll forwards has samples
/// that all scroll forwards, so both round trips hold of it.
pub proof fn lemma_speed_table_moving(speeds: Seq<Speed>)
    requires
        speeds_ok(speeds),
        forall|i: int| 0 <= i < speeds.len() ==> (#[trigger] speeds[i]).speed > 0,
    ensures
        speed_table_ok(speed_table(speeds)),
        moving(speed_table(speeds)),
{
    lemma_speed_table_ok(speeds);
    let table = speed_table(speeds);
    assert forall|i: int| 0 <= i < table.len() implies (#[trigger] table[i]).speed > 0 by {
        let off: int = if speeds.len() == 0 || speeds[0].time != 0 {
            1
        } else {
            0
        };
        if i >= off {
            assert(table[i].speed == speeds[i - off].speed);
        }
    }
}

/// The numerator of the ramp's distance term at elapsed time `e`.
pub open spec fn ramp_numer(s: SpeedDistance, n: SpeedDistance, e: int) -> int {
    2 * s.speed * e * (n.time - s.time) + e * e * (n.speed - s.speed)
}

/// On a ramp between two samples of speeds at least `slowest` and at most
/// `fastest`, the numerator of the distance term is not negative and grows,
/// from one elapsed time to a later one, by at least and at most the time
/// between them times twice the length of the ramp times the bound.
pub proof fn lemma_ramp_numer(
    s: SpeedDistance,
    n: SpeedDistance,
    e1: int,
    e2: int,
    slowest: int,
    fastest: int,
)
    requires
        0 <= slowest <= s.speed <= fastest,
        slowest <= n.speed <= fastest,
        0 <= e1 <= e2 <= n.time - s.time,
    ensures
        ramp_numer(s, n, e1) >= 0,
        ramp_numer(s, n, e2) - ramp_numer(s, n, e1) >= (e2 - e1) * slowest * (2 * (n.time
            - s.time)),
        ramp_numer(s, n, e2) - ramp_numer(s, n, e1) <= (e2 - e1) * fastest * (2 * (n.time
            - s.time)),
{
    let span = n.time - s.time;
    let v1 = s.speed as int;
    let v2 = n.speed as int;
    let a = v2 - v1;
    let n1 = ramp_numer(s, n, e1);
    let n2 = ramp_numer(s, n, e2);
    assert(n1 >= 0 && n2 - n1 >= (e2 - e1) * slowest * (2 * span) && n2 - n1 <= (e2 - e1)
        * fastest * (2 * span)) by (nonlinear_arith)
        requires
            n1 == 2 * v1 * e1 * span + e1 * e1 * a,
            n2 == 2 * v1 * e2 * span + e2 * e2 * a,
            a == v2 - v1,
            0 <= slowest <= v1 <= fastest,
            slowest <= v2 <= fastest,
            0 <= e1 <= e2 <= span,
    {
        // the slope of the numerator at any time of the ramp lies between
        // twice the length times the two speeds
        let slope = 2 * v1 * span + (e1 + e2) * a;
        assert(n2 - n1 == (e2 - e1) * slope);
        assert(n1 == e1 * (2 * v1 * span + e1 * a));
        if a >= 0 {
            assert((e1 + e2) * a >= 0);
            assert((e1 + e2) * a <= 2 * span * a);
            assert(e1 * a >= 0);
        } else {
            assert((e1 + e2) * a <= 0);
            assert((e1 + e2) * a >= 2 * span * a);
            assert(e1 * a >= 2 * span * a);
        }
        assert(2 * v1 * span + 2 * span * a == 2 * span * v2);
        assert(2 * span * v1 >= 2 * span * slowest && 2 * span * v2 >= 2 * span * slowest);
        assert(2 * span * v1 <= 2 * span * fastest && 2 * span * v2 <= 2 * span * fastest);
        assert(2 * span * slowest <= slope <= 2 * span * fastest);
        assert(2 * v1 * span + e1 * a >= 0);
        assert((e2 - e1) * slope >= (e2 - e1) * (2 * span * slowest));
        assert((e2 - e1) * slope <= (e2 - e1) * (2 * span * fastest));
        assert((e2 - e1) * (2 * span * slowest) == (e2 - e1) * slowest * (2 * span));
        assert((e2 - e1) * (2 * span * fastest) == (e2 - e1) * fastest * (2 * span));
    }
}

/// On a ramp between two samples that do not scroll backwards, the distance
/// never decreases as time goes on.
pub proof fn lemma_ramp_monotone(s: SpeedDistance, n: SpeedDistance, e1: int, e2: int)
    requires
        s.speed >= 0,
        n.speed >= 0,
        n.smooth == 1,
        0 <= e1 <= e2 <= n.time - s.time,
        n.time > s.time,
    ensures
        distance_from(s, Some(n), s.time + e1) <= distance_from(s, Some(n), s.time + e2),
        distance_from(s, Some(n), s.time + e1) == s.distance + tdiv(
            ramp_numer(s, n, e1),
            n.time - s.time,
        ),
{
    let fastest = if s.speed >= n.speed {
        s.speed as int
    } else {
        n.speed as int
    };
    lemma_ramp_numer(s, n, e1, e2, 0, fastest);
    assert((e2 - e1) * 0 * (2 * (n.time - s.time)) == 0) by (nonlinear_arith);
    lemma_tdiv_monotone(ramp_numer(s, n, e1), ramp_numer(s, n, e2), n.time - s.time);
}

/// On a ramp between two samples that move, the distance grows with every
/// count of time.
pub proof fn lemma_ramp_strict(s: SpeedDistance, n: SpeedDistance, e1: int, e2: int)
    requires
        s.speed >= 1,
        n.speed >= 1,
        n.smooth == 1,
        0 <= e1 < e2 <= n.time - s.time,
    ensures
        distance_from(s, Some(n), s.time + e1) < distance_from(s, Some(n), s.time + e2),
{
    let span = n.time - s.time;
    let fastest = if s.speed >= n.speed {
        s.speed as int
    } else {
        n.speed as int
    };
    lemma_ramp_numer(s, n, e1, e2, 1, fastest);
    lemma_ramp_monotone(s, n, e1, e2);
    lemma_ramp_monotone(s, n, e2, e2);
    let n1 = ramp_numer(s, n, e1);
    let n2 = ramp_numer(s, n, e2);
    assert(n1 + span <= n2) by (nonlinear_arith)
        requires
            n2 - n1 >= (e2 - e1) * 1 * (2 * span),
            e2 - e1 >= 1,
            span >= 1,
    ;
    lemma_tdiv_strict(n1, n2, span);
}

/// One count of time further on a ramp, the distance has grown by at most
/// twice `fastest` and one, where `fastest` bounds both speeds.
pub proof fn lemma_ramp_step(s: SpeedDistance, n: SpeedDistance, e: int, fastest: int)
    requires
        0 <= s.speed <= fastest,
        0 <= n.speed <= fastest,
        n.smooth == 1,
        0 < e <= n.time - s.time,
    ensures
        distance_from(s, Some(n), s.time + e) - distance_from(s, Some(n), s.time + e - 1) <= 2
            * fastest + 1,
{
    let span = n.time - s.time;
    lemma_ramp_numer(s, n, e - 1, e, 0, fastest);
    lemma_ramp_monotone(s, n, e - 1, e);
    lemma_ramp_monotone(s, n, e, e);
    let n1 = ramp_numer(s, n, e - 1);
    let n2 = ramp_numer(s, n, e);
    assert(n1 <= n2 && n2 - n1 <= (2 * fastest) * span) by (nonlinear_arith)
        requires
            n2 - n1 >= (e - (e - 1)) * 0 * (2 * span),
            n2 - n1 <= (e - (e - 1)) * fastest * (2 * span),
    ;
    lemma_tdiv_step(n1, n2, span, 2 * fastest);
}

/// At its end, the ramp has reached the distance of the sample it leads to.
pub proof fn lemma_ramp_end(s: SpeedDistance, n: SpeedDistance)
    requires
        n.smooth == 1,
        n.time > s.time,
    ensures
        distance_from(s, Some(n), n.time as int) == s.distance + segment_area(
            s.speed as int,
            n.speed as int,
            n.time - s.time,
            n.smooth as int,
        ),
{
    let span = n.time - s.time;
    let v1 = s.speed as int;
    let v2 = n.speed as int;
    let x = (v1 + v2) * span;
    assert(2 * v1 * span * span + span * span * (v2 - v1) == span * x) by (nonlinear_arith)
        requires
            x == (v1 + v2) * span,
    ;
    assert(span * 1 == span);
    lemma_tdiv_cancel(span, x, 1);
    lemma_tdiv_bounds(x, 1);
}

/// What `first_reaching` returns: a time on the ramp that no earlier time
/// from `e` on satisfies `reaches`, and that satisfies it unless it is the
/// ramp's end.
pub proof fn lemma_first_reaching(s: SpeedDistance, n: SpeedDistance, d: int, e: int)
    requires
        0 <= e <= n.time - s.time,
    ensures
        e <= first_reaching(s, n, d, e) <= n.time - s.time,
        forall|x: int| e <= x < first_reaching(s, n, d, e) ==> !reaches(s, n, d, x),
        first_reaching(s, n, d, e) < n.time - s.time ==> reaches(
            s,
            n,
            d,
            first_reaching(s, n, d, e),
        ),
    decreases (n.time - s.time) - e,
{
    if e < n.time - s.time && !reaches(s, n, d, e) {
        lemma_first_reaching(s, n, d, e + 1);
    }
}

/// A time on the ramp that no earlier time satisfies `reaches`, and that
/// satisfies it unless it is the ramp's end, is what `first_reaching`
/// returns.
pub proof fn lemma_first_reaching_is(s: SpeedDistance, n: SpeedDistance, d: int, e: int, r: int)
    requires
        0 <= e <= r <= n.time - s.time,
        forall|x: int| e <= x < r ==> !reaches(s, n, d, x),
        r < n.time - s.time ==> reaches(s, n, d, r),
    ensures
        first_reaching(s, n, d, e) == r,
    decreases r - e,
{
    if e < r {
        assert(!reaches(s, n, d, e));
        lemma_first_reaching_is(s, n, d, e + 1, r);
    }
}

/// At a sample's own time the distance carried on from it is the sample's.
pub proof fn lemma_distance_from_start(s: SpeedDistance, next: Option<SpeedDistance>)
    ensures
        distance_from(s, next, s.time as int) == s.distance,
{
    if next is Some && next->0.smooth == 1 && next->0.time > s.time {
        let span = next->0.time - s.time;
        assert(2 * s.speed * 0 * span + 0 * 0 * (next->0.speed - s.speed) == 0)
            by (nonlinear_arith);
        lemma_tdiv_bounds(0, span);
    } else {
        assert(2 * s.speed * 0 == 0);
    }
}

/// At the end of a segment the distance carried on from its first sample is
/// the distance of the sample that ends it.
pub proof fn lemma_segment_end(table: Seq<SpeedDistance>, p: int)
    requires
        speed_table_ok(table),
        0 <= p,
        p + 1 < table.len(),
        table[p + 1].time > table[p].time,
    ensures
        distance_from(table[p], Some(table[p + 1]), table[p + 1].time as int) == table[p
            + 1].distance,
{
    let s = table[p];
    let n = table[p + 1];
    assert(n.distance == s.distance + segment_area(
        s.speed as int,
        n.speed as int,
        n.time - s.time,
        n.smooth as int,
    ));
    if n.smooth == 1 {
        lemma_ramp_end(s, n);
    }
}

/// Within a segment of positive length, and at its end, the distance at a
/// time is the one carried on from the segment's first sample.
#[verifier::rlimit(40)]
pub proof fn lemma_distance_at_in_segment(table: Seq<SpeedDistance>, p: int, e: int)
    requires
        speed_table_ok(table),
        forward(table),
        0 <= p,
        p + 1 < table.len(),
        table[p + 1].time > table[p].time,
        0 <= e <= table[p + 1].time - table[p].time,
    ensures
        distance_at(table, table[p].time + e) == distance_from(
            table[p],
            Some(table[p + 1]),
            table[p].time + e,
        ),
{
    let times = keys_of::<SpeedDistance, ByTime>(table);
    let s = table[p];
    let n = table[p + 1];
    let t = s.time + e;
    lemma_in_force(times, t);
    let f = in_force(times, t);
    assert(times[0] <= times[p]);
    assert(times[p] == s.time && times[p + 1] == n.time);
    if e < n.time - s.time {
        assert(selects(times, t, IN_FORCE as int, p)) by {
            assert forall|j: int| p < j < times.len() implies times[j] > t by {
                assert(times[p + 1] <= times[j]);
            }
        }
        assert(f == p);
    } else {
        assert(selects(times, t, IN_FORCE as int, f));
        assert(times[f] <= t);
        if f < p + 1 {
            assert(times[p + 1] > t);
        }
        assert(times[p + 1] <= times[f]);
        lemma_distance_step(table, p + 1, f);
        lemma_distance_from_start(table[f], sample_after(table, f));
        lemma_segment_end(table, p);
    }
}

/// The segment that a distance strictly between the first and the last
/// distance of a moving table lies in: the index of its first sample.
pub proof fn lemma_segment_of_distance(table: Seq<SpeedDistance>, d: int) -> (p: int)
    requires
        speed_table_ok(table),
        moving(table),
        table[0].distance <= d < table.last().distance,
    ensures
        0 <= p,
        p + 1 < table.len(),
        table[p].distance <= d < table[p + 1].distance,
        table[p].time < table[p + 1].time,
        in_force(keys_of::<SpeedDistance, ByDistance>(table), d) == p,
        moving_from(table, p) == p,
        later_from(table, table[p].time as int, p + 1) == p + 1,
{
    let dist = keys_of::<SpeedDistance, ByDistance>(table);
    assert(forward(table));
    lemma_distances_ascending(table);
    lemma_in_force(dist, d);
    let p = in_force(dist, d);
    assert(dist[0] <= d);
    assert(selects(dist, d, IN_FORCE as int, p));
    assert(dist.last() == table.last().distance);
    assert(p + 1 < table.len());
    assert(dist[p] == table[p].distance && dist[p + 1] == table[p + 1].distance);
    assert(table[p].speed > 0);
    lemma_distance_step(table, p, p + 1);
    p
}

/// The segment of a time from the first sample on and before the last: the
/// index of its first sample.
pub proof fn lemma_segment_of_time(table: Seq<SpeedDistance>, t: int) -> (p: int)
    requires
        speed_table_ok(table),
        forward(table),
        table[0].time <= t < table.last().time,
    ensures
        0 <= p,
        p + 1 < table.len(),
        table[p].time <= t < table[p + 1].time,
        distance_at(table, t) == distance_from(table[p], Some(table[p + 1]), t),
{
    let times = keys_of::<SpeedDistance, ByTime>(table);
    lemma_in_force(times, t);
    let p = in_force(times, t);
    assert(times[0] <= t);
    assert(selects(times, t, IN_FORCE as int, p));
    assert(times.last() == table.last().time);
    assert(p + 1 < table.len());
    assert(times[p] == table[p].time && times[p + 1] == table[p + 1].time);
    lemma_distance_at_in_segment(table, p, t - table[p].time);
    p
}

/// The round trip from a distance to the time at which it is reached and
/// back to the distance at that time. On a chart whose every sample scrolls
/// forwards, and for a distance strictly between the first and the last
/// distance of the speed table, the round trip ends within twice the speed
/// limit in counts of distance of where it started, which is a
/// ten-thousandth of a unit of distance, and so within a thousandth.
#[verifier::rlimit(40)]
pub proof fn lemma_round_trip(table: Seq<SpeedDistance>, d: int)
    requires
        speed_table_ok(table),
        moving(table),
        table[0].distance < d < table.last().distance,
    ensures
        abs(distance_at(table, time_at(table, d)) - d) <= 2 * SPEED_LIMIT,
        abs(distance_at(table, time_at(table, d)) - d) * 1000 <= DISTANCE_UNIT,
{
    assert(forward(table));
    assert(SPEED_LIMIT == 100_000 && DISTANCE_UNIT == 2_000_000_000);
    let p = lemma_segment_of_distance(table, d);
    let s = table[p];
    let n = table[p + 1];
    let span = n.time - s.time;
    let v = s.speed as int;
    assert(s.within_limits() && n.within_limits());
    assert(0 < s.speed <= SPEED_LIMIT && 0 < n.speed <= SPEED_LIMIT);
    lemma_segment_end(table, p);
    if n.smooth == 1 && d > s.distance {
        let r = first_reaching(s, n, d, 0);
        lemma_first_reaching(s, n, d, 0);
        assert(reaches(s, n, d, span));
        assert(reaches(s, n, d, r));
        lemma_distance_from_start(s, Some(n));
        assert(!reaches(s, n, d, 0));
        assert(!reaches(s, n, d, r - 1));
        lemma_ramp_step(s, n, r, SPEED_LIMIT as int);
        lemma_distance_at_in_segment(table, p, r);
        assert(time_at(table, d) == s.time + r);
    } else {
        let gap = d - s.distance;
        let q = tdiv(gap, 2 * v);
        assert(time_at(table, d) == s.time + q);
        lemma_tdiv_bounds(gap, 2 * v);
        if n.smooth == 1 {
            assert(gap == 0);
            lemma_distance_at_in_segment(table, p, 0);
            lemma_distance_from_start(s, Some(n));
        } else {
            assert(n.distance == s.distance + 2 * v * span);
            assert(0 <= q < span) by (nonlinear_arith)
                requires
                    0 <= q * (2 * v) <= gap,
                    gap < 2 * v * span,
                    v > 0,
            ;
            lemma_distance_at_in_segment(table, p, q);
            assert(distance_from(s, Some(n), s.time + q) == s.distance + 2 * v * q);
            assert(2 * v * q == q * (2 * v)) by (nonlinear_arith);
        }
    }
}

/// The round trip from a time to the distance reached at it and back to the
/// time at which that distance is reached. On a chart whose every sample
/// scrolls forwards, and for a time from the first sample on and before the
/// last, the round trip ends exactly at the time it started from.
#[verifier::rlimit(40)]
pub proof fn lemma_round_trip_time(table: Seq<SpeedDistance>, t: int)
    requires
        speed_table_ok(table),
        moving(table),
        table[0].time <= t < table.last().time,
    ensures
        time_at(table, distance_at(table, t)) == t,
{
    assert(forward(table));
    let p = lemma_segment_of_time(table, t);
    let s = table[p];
    let n = table[p + 1];
    let span = n.time - s.time;
    let dt = t - s.time;
    let v = s.speed as int;
    let d = distance_at(table, t);
    assert(s.speed >= 1 && n.speed >= 1);
    lemma_segment_end(table, p);
    lemma_distance_from_start(s, Some(n));
    // the distance at t lies in the segment of t
    if n.smooth == 1 {
        lemma_ramp_monotone(s, n, 0, dt);
        lemma_ramp_strict(s, n, dt, span);
    } else {
        assert(0 <= 2 * v * dt < 2 * v * span) by (nonlinear_arith)
            requires
                v >= 1,
                0 <= dt < span,
        ;
        assert(n.distance == s.distance + 2 * v * span);
    }
    assert(s.distance <= d < n.distance);
    lemma_distance_step(table, 0, p);
    lemma_distance_step(table, p + 1, table.len() - 1);
    let p0 = lemma_segment_of_distance(table, d);
    assert(p0 == p) by {
        if p0 < p {
            lemma_distance_step(table, p0 + 1, p);
        } else if p < p0 {
            lemma_distance_step(table, p + 1, p0);
        }
    }
    if n.smooth == 1 && d > s.distance {
        let e = first_reaching(s, n, d, 0);
        lemma_first_reaching(s, n, d, 0);
        assert(reaches(s, n, d, dt));
        if dt < e {
            assert(!reaches(s, n, d, dt));
        }
        assert(reaches(s, n, d, e));
        if e < dt {
            lemma_ramp_strict(s, n, e, dt);
        }
    } else if n.smooth == 1 {
        lemma_tdiv_bounds(0, 2 * v);
        if dt > 0 {
            lemma_ramp_strict(s, n, 0, dt);
        }
    } else {
        assert(d - s.distance == (2 * v) * dt) by (nonlinear_arith)
            requires
                d - s.distance == 2 * v * dt,
        ;
        assert((2 * v) * 1 == 2 * v);
        lemma_tdiv_cancel(2 * v, dt, 1);
        lemma_tdiv_bounds(dt, 1);
    }
}

/// Solves the ramp's quadratic relation: the least elapsed time at which the
/// ramp from `s` to `n` has reached `d`.
fn ramp_time(s: SpeedDistance, n: SpeedDistance, d: i64) -> (e: i64)
    requires
        s.within_limits(),
        n.within_limits(),
        s.speed >= 0,
        n.speed >= 0,
        n.smooth == 1,
        n.time > s.time,
    ensures
        e == first_reaching(s, n, d as int, 0),
        0 <= e <= n.time - s.time,
{
    let span: i64 = n.time - s.time;
    if carry_from(s, Some(n), s.time) >= d {
        proof {
            lemma_first_reaching_is(s, n, d as int, 0, 0);
        }
        return 0;
    }
    let mut lo: i64 = 0;
    let mut hi: i64 = span;
    while hi - lo > 1
        invariant
            0 <= lo < hi <= span,
            span == n.time - s.time,
            s.within_limits(),
            n.within_limits(),
            s.speed >= 0,
            n.speed >= 0,
            n.smooth == 1,
            !reaches(s, n, d as int, lo as int),
            hi < span ==> reaches(s, n, d as int, hi as int),
        decreases hi - lo,
    {
        let mid: i64 = lo + (hi - lo) / 2;
        if carry_from(s, Some(n), s.time + mid) >= d {
            hi = mid;
        } else {
            lo = mid;
        }
    }
    proof {
        assert forall|x: int| 0 <= x < hi implies !reaches(s, n, d as int, x) by {
            lemma_ramp_monotone(s, n, x, lo as int);
        }
        lemma_first_reaching_is(s, n, d as int, 0, hi as int);
    }
    hi
}

/// The time at which the scroll path reaches distance `d`.
#[verifier::rlimit(40)]
pub fn find_time_at(table: &Vec<SpeedDistance>, d: i64) -> (t: i64)
    requires
        speed_table_ok(table@),
        forward(table@),
        abs(d as int) <= QUERY_DISTANCE_LIMIT,
    ensures
        t == time_at(table@, d as int),
{
    let n: usize = table.len();
    let p0: usize = find_pos::<SpeedDistance, ByDistance>(table, d, IN_FORCE);
    proof {
        lemma_distances_ascending(table@);
        lemma_in_force(keys_of::<SpeedDistance, ByDistance>(table@), d as int);
    }
    let mut p1: usize = p0;
    while p1 < n && table[p1].speed == 0
        invariant
            p0 <= p1 <= n,
            n == table.len(),
            moving_from(table@, p0 as int) == moving_from(table@, p1 as int),
        decreases n - p1,
    {
        p1 = p1 + 1;
    }
    if p1 >= n {
        return table[p0].time;
    }
    let s: SpeedDistance = table[p1];
    let mut p2: usize = p1 + 1;
    while p2 < n && table[p2].time == s.time
        invariant
            p1 < p2 <= n,
            n == table.len(),
            later_from(table@, s.time as int, p1 + 1) == later_from(
                table@,
                s.time as int,
                p2 as int,
            ),
        decreases n - p2,
    {
        p2 = p2 + 1;
    }
    proof {
        assert(table@[p1 as int].within_limits());
        assert(table@[p1 as int].speed >= 0);
        assert(QUERY_DISTANCE_LIMIT == 8_000_000_000_000_000_000 && DISTANCE_LIMIT
            == 2_000_000_000_000_000_000 && TIME_LIMIT == 10_000_000_000_000);
    }
    if p2 < n && table[p2].smooth == 1 && d > s.distance {
        let next: SpeedDistance = table[p2];
        proof {
            assert(table@[p2 as int].within_limits());
            assert(table@[p2 as int].speed >= 0);
            let times = keys_of::<SpeedDistance, ByTime>(table@);
            assert(times[p1 as int] <= times[p2 as int]);
        }
        s.time + ramp_time(s, next, d)
    } else {
        let num: i128 = d as i128 - s.distance as i128;
        let den: i128 = 2 * (s.speed as i128);
        proof {
            lemma_tdiv_bounds(num as int, den as int);
            let q = tdiv(num as int, den as int);
            assert(abs(q) * 2 <= abs(num as int)) by (nonlinear_arith)
                requires
                    abs(q) * den <= abs(num as int),
                    den >= 2,
            ;
        }
        let q: i128 = div_trunc(num, den);
        (s.time as i128 + q) as i64
    }
}

} // verus!
