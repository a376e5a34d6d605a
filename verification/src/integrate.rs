//! The speed-to-distance integrator: the speed table, and the distance
//! reached at a time.

use crate::fixed::{
    abs, div_trunc, lemma_tdiv_bounds, tdiv, DISTANCE_LIMIT, QUERY_DISTANCE_LIMIT,
    QUERY_TIME_LIMIT, SPEED_LIMIT, TIME_LIMIT, UNIT,
};
use crate::index::{
    ascending, check_ascending, find_pos, in_force, keys_of, lemma_in_force, ByDistance, ByTime,
    IN_FORCE,
};
use crate::speed::Speed;
use crate::speeddistance::SpeedDistance;
use vstd::prelude::*;

verus! {

/// The distance travelled over a segment of length `dt` that starts at speed
/// `v_start` and ends at a point of speed `v_end`: the trapezoid under the
/// ramp if that point is smooth (`(v_start + v_end) * dt / 2`), else the
/// rectangle under `v_start` (`v_start * dt`). In counts of distance both are
/// whole numbers, so nothing is rounded.
pub open spec fn segment_area(v_start: int, v_end: int, dt: int, smooth: int) -> int {
    if smooth == 1 {
        (v_start + v_end) * dt
    } else {
        2 * v_start * dt
    }
}

/// The cumulative distance at speed point `k`. Before the first point the
/// speed is taken to start from 1.0 at time 0.
pub open spec fn distance_upto(speeds: Seq<Speed>, k: int) -> int
    decreases k,
{
    if k <= 0 {
        segment_area(
            UNIT as int,
            speeds[0].speed as int,
            speeds[0].time as int,
            speeds[0].smooth as int,
        )
    } else {
        distance_upto(speeds, k - 1) + segment_area(
            speeds[k - 1].speed as int,
            speeds[k].speed as int,
            speeds[k].time - speeds[k - 1].time,
            speeds[k].smooth as int,
        )
    }
}

/// The sample that stands for the start of every chart whose first speed
/// point is not at time 0: unit speed, no distance yet.
pub open spec fn seed() -> SpeedDistance {
    SpeedDistance { time: 0, speed: UNIT, smooth: 0, distance: 0 }
}

/// The sample of speed point `k`.
pub open spec fn sample_of(speeds: Seq<Speed>, k: int) -> SpeedDistance {
    SpeedDistance {
        time: speeds[k].time,
        speed: speeds[k].speed,
        smooth: speeds[k].smooth,
        distance: distance_upto(speeds, k) as i64,
    }
}

/// The speed table of a list of speed points: one sample per point, after
/// the seed where the first point is not at time 0 (or there is no point).
pub open spec fn speed_table(speeds: Seq<Speed>) -> Seq<SpeedDistance> {
    let samples = Seq::new(speeds.len(), |k: int| sample_of(speeds, k));
    if speeds.len() == 0 || speeds[0].time != 0 {
        seq![seed()] + samples
    } else {
        samples
    }
}

/// A list of speed points that can be integrated: every point is within its
/// limits and the points are in time order.
pub open spec fn speeds_ok(speeds: Seq<Speed>) -> bool {
    &&& forall|i: int| 0 <= i < speeds.len() ==> (#[trigger] speeds[i]).within_limits()
    &&& ascending(keys_of::<Speed, ByTime>(speeds))
}

/// Each sample's distance is the one before it plus the area of the segment
/// between them.
pub open spec fn integrated(table: Seq<SpeedDistance>) -> bool {
    forall|k: int|
        1 <= k < table.len() ==> (#[trigger] table[k]).distance == table[k - 1].distance
            + segment_area(
            table[k - 1].speed as int,
            table[k].speed as int,
            table[k].time - table[k - 1].time,
            table[k].smooth as int,
        )
}

/// A speed table that queries can be answered from: it is not empty, every
/// sample is within its limits, the samples are in time order, no sample lies
/// farther than its time allows, and the distances are integrated.
pub open spec fn speed_table_ok(table: Seq<SpeedDistance>) -> bool {
    &&& table.len() > 0
    &&& forall|i: int| 0 <= i < table.len() ==> (#[trigger] table[i]).within_limits()
    &&& forall|i: int|
        0 <= i < table.len() ==> abs((#[trigger] table[i]).distance as int) <= 2 * SPEED_LIMIT
            * table[i].time
    &&& ascending(keys_of::<SpeedDistance, ByTime>(table))
    &&& integrated(table)
}

/// No sample of the table scrolls backwards.
pub open spec fn forward(table: Seq<SpeedDistance>) -> bool {
    forall|i: int| 0 <= i < table.len() ==> (#[trigger] table[i]).speed >= 0
}

/// The area of a segment is bounded by the speed limit times its length; it
/// is not negative where the speeds are not, and positive where the speeds
/// and the length are.
pub proof fn lemma_area_bound(v_start: int, v_end: int, dt: int, smooth: int)
    requires
        abs(v_start) <= SPEED_LIMIT,
        abs(v_end) <= SPEED_LIMIT,
        dt >= 0,
    ensures
        abs(segment_area(v_start, v_end, dt, smooth)) <= 2 * SPEED_LIMIT * dt,
        v_start >= 0 && v_end >= 0 ==> segment_area(v_start, v_end, dt, smooth) >= 0,
        v_start > 0 && v_end > 0 && dt > 0 ==> segment_area(v_start, v_end, dt, smooth) > 0,
        dt == 0 ==> segment_area(v_start, v_end, dt, smooth) == 0,
{
    assert(SPEED_LIMIT == 100_000);
    let x = segment_area(v_start, v_end, dt, smooth);
    assert(abs(x) <= 200_000 * dt && (v_start >= 0 && v_end >= 0 ==> x >= 0) && (v_start > 0
        && v_end > 0 && dt > 0 ==> x > 0) && (dt == 0 ==> x == 0)) by (nonlinear_arith)
        requires
            x == (v_start + v_end) * dt || x == 2 * v_start * dt,
            abs(v_start) <= 100_000,
            abs(v_end) <= 100_000,
            dt >= 0,
    ;
}

/// The cumulative distance at a speed point is bounded by the speed limit
/// times the point's time.
pub proof fn lemma_distance_upto_bound(speeds: Seq<Speed>, k: int)
    requires
        speeds_ok(speeds),
        0 <= k < speeds.len(),
    ensures
        abs(distance_upto(speeds, k)) <= 2 * SPEED_LIMIT * speeds[k].time,
        abs(distance_upto(speeds, k)) <= DISTANCE_LIMIT,
    decreases k,
{
    let keys = keys_of::<Speed, ByTime>(speeds);
    assert(speeds[k].within_limits());
    if k == 0 {
        assert(speeds[0].within_limits());
        lemma_area_bound(
            UNIT as int,
            speeds[0].speed as int,
            speeds[0].time as int,
            speeds[0].smooth as int,
        );
    } else {
        lemma_distance_upto_bound(speeds, k - 1);
        assert(speeds[k - 1].within_limits());
        assert(keys[k - 1] <= keys[k]);
        lemma_area_bound(
            speeds[k - 1].speed as int,
            speeds[k].speed as int,
            speeds[k].time - speeds[k - 1].time,
            speeds[k].smooth as int,
        );
    }
}

/// The speed table of an admissible list of speed points is a table that
/// queries can be answered from.
#[verifier::rlimit(40)]
pub proof fn lemma_speed_table_ok(speeds: Seq<Speed>)
    requires
        speeds_ok(speeds),
    ensures
        speed_table_ok(speed_table(speeds)),
{
    let table = speed_table(speeds);
    let seeded = speeds.len() == 0 || speeds[0].time != 0;
    let off: int = if seeded {
        1
    } else {
        0
    };
    let skeys = keys_of::<Speed, ByTime>(speeds);
    let tkeys = keys_of::<SpeedDistance, ByTime>(table);
    assert forall|i: int| 0 <= i < table.len() implies (#[trigger] table[i]).within_limits()
        && abs(table[i].distance as int) <= 2 * SPEED_LIMIT * table[i].time by {
        if i >= off {
            assert(table[i] == sample_of(speeds, i - off));
            assert(speeds[i - off].within_limits());
            lemma_distance_upto_bound(speeds, i - off);
        }
    }
    assert forall|i: int, j: int| 0 <= i <= j < tkeys.len() implies tkeys[i] <= tkeys[j] by {
        if i >= off {
            assert(table[i] == sample_of(speeds, i - off));
            assert(table[j] == sample_of(speeds, j - off));
            assert(skeys[i - off] <= skeys[j - off]);
        } else if j >= off {
            assert(table[j] == sample_of(speeds, j - off));
            assert(speeds[j - off].within_limits());
        }
    }
    assert forall|k: int| 1 <= k < table.len() implies (#[trigger] table[k]).distance == table[k
        - 1].distance + segment_area(
        table[k - 1].speed as int,
        table[k].speed as int,
        table[k].time - table[k - 1].time,
        table[k].smooth as int,
    ) by {
        assert(table[k] == sample_of(speeds, k - off));
        lemma_distance_upto_bound(speeds, k - off);
        if k - off >= 1 {
            assert(table[k - 1] == sample_of(speeds, k - off - 1));
            lemma_distance_upto_bound(speeds, k - off - 1);
        }
    }
}

/// Integrates the speed points into the speed table.
#[verifier::rlimit(40)]
pub fn build_speed_table(speeds: &Vec<Speed>) -> (table: Vec<SpeedDistance>)
    requires
        speeds_ok(speeds@),
    ensures
        table@ == speed_table(speeds@),
        speed_table_ok(table@),
        (forall|i: int| 0 <= i < speeds@.len() ==> (#[trigger] speeds@[i]).speed >= 0) ==> forward(
            table@,
        ) && ascending(keys_of::<SpeedDistance, ByDistance>(table@)),
{
    let mut table: Vec<SpeedDistance> = Vec::new();
    let n: usize = speeds.len();
    if n == 0 || speeds[0].time != 0 {
        table.push(SpeedDistance::new(0, UNIT, 0, 0));
    }
    let ghost off: int = table.len() as int;
    let mut acc: i64 = 0;
    let mut i: usize = 0;
    while i < n
        invariant
            0 <= i <= n,
            n == speeds.len(),
            speeds_ok(speeds@),
            off == (if speeds.len() == 0 || speeds[0].time != 0 {
                1int
            } else {
                0int
            }),
            table.len() == off + i,
            off == 1 ==> table[0] == seed(),
            forall|k: int| 0 <= k < i ==> table[off + k] == sample_of(speeds@, k),
            i == 0 ==> acc == 0,
            i > 0 ==> acc == distance_upto(speeds@, i - 1),
        decreases n - i,
    {
        let cur: Speed = speeds[i];
        let v_start: i64;
        let dt: i64;
        proof {
            assert(speeds@[i as int].within_limits());
            lemma_distance_upto_bound(speeds@, i as int);
            if i > 0 {
                assert(speeds@[i - 1].within_limits());
                lemma_distance_upto_bound(speeds@, i - 1);
                let keys = keys_of::<Speed, ByTime>(speeds@);
                assert(keys[i - 1] <= keys[i as int]);
            }
        }
        if i == 0 {
            v_start = UNIT;
            dt = cur.time;
        } else {
            let prev: Speed = speeds[i - 1];
            v_start = prev.speed;
            dt = cur.time - prev.time;
        }
        let area: i128 = area_of(v_start, cur.speed, dt, cur.smooth);
        assert(area == segment_area(
            v_start as int,
            cur.speed as int,
            dt as int,
            cur.smooth as int,
        ));
        assert(acc + area == distance_upto(speeds@, i as int));
        acc = (acc as i128 + area) as i64;
        table.push(SpeedDistance::new(cur.time, cur.speed, cur.smooth, acc));
        i = i + 1;
    }
    proof {
        assert(table@ =~= speed_table(speeds@));
        lemma_speed_table_ok(speeds@);
        if forall|i: int| 0 <= i < speeds@.len() ==> (#[trigger] speeds@[i]).speed >= 0 {
            crate::inverse::lemma_speed_table_distances_ascending(speeds@);
        }
    }
    table
}

/// The distance reached at time `t` when sample `s` is in force and `next`
/// is the sample after it, if any. Inside a segment that ends at a smooth
/// sample the speed ramps, so the distance is quadratic in the elapsed time
/// (`d1 + v1*dt + dt^2*(v2-v1)/(2*span)`), rounded toward zero to a count of
/// distance; anywhere else it is linear (`d1 + v1*dt`) and exact.
pub open spec fn distance_from(s: SpeedDistance, next: Option<SpeedDistance>, t: int) -> int {
    let dt = t - s.time;
    if next is Some && next->0.smooth == 1 && next->0.time > s.time && 0 <= dt <= next->0.time
        - s.time {
        let span = next->0.time - s.time;
        s.distance + tdiv(2 * s.speed * dt * span + dt * dt * (next->0.speed - s.speed), span)
    } else {
        s.distance + 2 * s.speed * dt
    }
}

/// The sample after `p`, if there is one.
pub open spec fn sample_after(table: Seq<SpeedDistance>, p: int) -> Option<SpeedDistance> {
    if p + 1 < table.len() {
        Some(table[p + 1])
    } else {
        None
    }
}

/// The distance reached at time `t`: the sample in force at `t` is the last
/// one whose time is at most `t` (the first sample if `t` precedes the
/// table), and the distance is carried on from it.
pub open spec fn distance_at(table: Seq<SpeedDistance>, t: int) -> int {
    let p = in_force(keys_of::<SpeedDistance, ByTime>(table), t);
    distance_from(table[p], sample_after(table, p), t)
}

/// The distance carried on from a sample stays within the query limit.
pub proof fn lemma_distance_from_bound(s: SpeedDistance, next: Option<SpeedDistance>, t: int)
    requires
        s.within_limits(),
        next is Some ==> next->0.within_limits(),
        abs(t) <= QUERY_TIME_LIMIT,
    ensures
        abs(distance_from(s, next, t)) <= QUERY_DISTANCE_LIMIT,
{
    let dt = t - s.time;
    assert(SPEED_LIMIT == 100_000 && TIME_LIMIT == 10_000_000_000_000 && QUERY_TIME_LIMIT
        == 20_000_000_000_000 && DISTANCE_LIMIT == 2_000_000_000_000_000_000
        && QUERY_DISTANCE_LIMIT == 8_000_000_000_000_000_000);
    if next is Some && next->0.smooth == 1 && next->0.time > s.time && 0 <= dt <= next->0.time
        - s.time {
        let span = next->0.time - s.time;
        let a = next->0.speed - s.speed;
        let numer = 2 * s.speed * dt * span + dt * dt * a;
        assert(abs(numer) <= 4_000_000_000_000_000_000 * span) by (nonlinear_arith)
            requires
                numer == 2 * s.speed * dt * span + dt * dt * a,
                abs(s.speed as int) <= 100_000,
                abs(a) <= 200_000,
                0 <= dt <= span,
                span <= 10_000_000_000_000,
        {
            assert(abs(2 * s.speed * dt * span) <= 200_000 * dt * span);
            assert(abs(dt * dt * a) <= dt * span * 200_000);
            assert(dt * span <= 10_000_000_000_000 * span);
        }
        lemma_tdiv_bounds(numer, span);
        let q = abs(tdiv(numer, span));
        assert(q <= 4_000_000_000_000_000_000) by (nonlinear_arith)
            requires
                q * span <= 4_000_000_000_000_000_000 * span,
                span > 0,
                q >= 0,
        ;
    } else {
        assert(abs(2 * s.speed * dt) <= 6_000_000_000_000_000_000) by (nonlinear_arith)
            requires
                abs(s.speed as int) <= 100_000,
                abs(dt) <= 30_000_000_000_000,
        ;
    }
}

/// The distance reached at time `t`, carried on from sample `s`, which is
/// followed by `next`.
pub fn carry_from(s: SpeedDistance, next: Option<SpeedDistance>, t: i64) -> (d: i64)
    requires
        s.within_limits(),
        next is Some ==> next->0.within_limits(),
        abs(t as int) <= QUERY_TIME_LIMIT,
    ensures
        d == distance_from(s, next, t as int),
        abs(d as int) <= QUERY_DISTANCE_LIMIT,
{
    let dt: i64 = t - s.time;
    proof {
        lemma_distance_from_bound(s, next, t as int);
        assert(SPEED_LIMIT == 100_000 && TIME_LIMIT == 10_000_000_000_000 && QUERY_TIME_LIMIT
            == 20_000_000_000_000);
    }
    let ramp: Option<SpeedDistance> = match next {
        Some(n) => if n.smooth == 1 && n.time > s.time && 0 <= dt && dt <= n.time - s.time {
            Some(n)
        } else {
            None
        },
        None => None,
    };
    match ramp {
        Some(n) => {
            let span: i64 = n.time - s.time;
            let a: i64 = n.speed - s.speed;
            assert(abs(2 * s.speed * dt) <= 2 * SPEED_LIMIT * TIME_LIMIT && abs(
                2 * s.speed * dt * span,
            ) <= 2 * SPEED_LIMIT * TIME_LIMIT * TIME_LIMIT && abs(dt * dt) <= TIME_LIMIT
                * TIME_LIMIT && abs(dt * dt * a) <= TIME_LIMIT * TIME_LIMIT * (2 * SPEED_LIMIT))
                by (nonlinear_arith)
                requires
                    abs(s.speed as int) <= SPEED_LIMIT,
                    abs(a as int) <= 2 * SPEED_LIMIT,
                    0 <= dt <= span,
                    span <= TIME_LIMIT,
            ;
            let numer: i128 = 2 * (s.speed as i128) * (dt as i128) * (span as i128) + (dt as i128)
                * (dt as i128) * (a as i128);
            let q: i128 = div_trunc(numer, span as i128);
            (s.distance as i128 + q) as i64
        },
        None => {
            assert(abs(2 * s.speed * dt) <= 6_000_000_000_000_000_000) by (nonlinear_arith)
                requires
                    abs(s.speed as int) <= 100_000,
                    abs(dt as int) <= 30_000_000_000_000,
            ;
            (s.distance as i128 + 2 * (s.speed as i128) * (dt as i128)) as i64
        },
    }
}

/// The sample after `p`, if there is one.
pub fn next_sample(table: &Vec<SpeedDistance>, p: usize) -> (next: Option<SpeedDistance>)
    requires
        p < table.len(),
    ensures
        next == sample_after(table@, p as int),
{
    if p + 1 < table.len() {
        Some(table[p + 1])
    } else {
        None
    }
}

/// The distance reached at time `t`.
pub fn find_distance_at(table: &Vec<SpeedDistance>, t: i64) -> (d: i64)
    requires
        speed_table_ok(table@),
        abs(t as int) <= QUERY_TIME_LIMIT,
    ensures
        d == distance_at(table@, t as int),
        abs(d as int) <= QUERY_DISTANCE_LIMIT,
{
    let p: usize = find_pos::<SpeedDistance, ByTime>(table, t, IN_FORCE);
    proof {
        lemma_in_force(keys_of::<SpeedDistance, ByTime>(table@), t as int);
    }
    proof {
        assert(table@[p as int].within_limits());
        if p + 1 < table.len() {
            assert(table@[p + 1].within_limits());
        }
    }
    carry_from(table[p], next_sample(table, p), t)
}

/// `segment_area` in executable code.
fn area_of(v_start: i64, v_end: i64, dt: i64, smooth: i32) -> (area: i128)
    requires
        abs(v_start as int) <= SPEED_LIMIT,
        abs(v_end as int) <= SPEED_LIMIT,
        0 <= dt <= TIME_LIMIT,
    ensures
        area == segment_area(v_start as int, v_end as int, dt as int, smooth as int),
        abs(area as int) <= 2 * SPEED_LIMIT * dt,
{
    proof {
        lemma_area_bound(v_start as int, v_end as int, dt as int, smooth as int);
        assert(SPEED_LIMIT == 100_000 && TIME_LIMIT == 10_000_000_000_000);
    }
    if smooth == 1 {
        assert(abs((v_start + v_end) * dt) <= 2_000_000_000_000_000_000) by (nonlinear_arith)
            requires
                abs(v_start as int) <= 100_000,
                abs(v_end as int) <= 100_000,
                0 <= dt <= 10_000_000_000_000,
        ;
        (v_start as i128 + v_end as i128) * (dt as i128)
    } else {
        assert(abs(2 * v_start * dt) <= 2_000_000_000_000_000_000) by (nonlinear_arith)
            requires
                abs(v_start as int) <= 100_000,
                0 <= dt <= 10_000_000_000_000,
        ;
        2 * (v_start as i128) * (dt as i128)
    }
}

/// Decides `speed_table_ok`.
#[verifier::rlimit(40)]
pub fn check_speed_table(table: &Vec<SpeedDistance>) -> (ok: bool)
    ensures
        ok == speed_table_ok(table@),
{
    let n: usize = table.len();
    if n == 0 {
        return false;
    }
    if !check_ascending::<SpeedDistance, ByTime>(table) {
        return false;
    }
    let ghost times = keys_of::<SpeedDistance, ByTime>(table@);
    let mut k: usize = 0;
    assert(SPEED_LIMIT == 100_000 && TIME_LIMIT == 10_000_000_000_000 && DISTANCE_LIMIT
        == 2_000_000_000_000_000_000);
    while k < n
        invariant
            0 <= k <= n,
            n == table.len(),
            times == keys_of::<SpeedDistance, ByTime>(table@),
            ascending(times),
            forall|i: int| 0 <= i < k ==> (#[trigger] table@[i]).within_limits(),
            forall|i: int|
                0 <= i < k ==> abs((#[trigger] table@[i]).distance as int) <= 2 * SPEED_LIMIT
                    * table@[i].time,
            forall|i: int|
                1 <= i < k ==> (#[trigger] table@[i]).distance == table@[i - 1].distance
                    + segment_area(
                    table@[i - 1].speed as int,
                    table@[i].speed as int,
                    table@[i].time - table@[i - 1].time,
                    table@[i].smooth as int,
                ),
        decreases n - k,
    {
        let cur: SpeedDistance = table[k];
        if !cur.check_limits() {
            return false;
        }
        let reach: i128 = if cur.distance >= 0 {
            cur.distance as i128
        } else {
            -(cur.distance as i128)
        };
        if reach > 2 * (SPEED_LIMIT as i128) * (cur.time as i128) {
            return false;
        }
        if k > 0 {
            let prev: SpeedDistance = table[k - 1];
            assert(table@[k - 1].within_limits());
            assert(times[k - 1] <= times[k as int]);
            let area: i128 = area_of(prev.speed, cur.speed, cur.time - prev.time, cur.smooth);
            if cur.distance as i128 != prev.distance as i128 + area {
                return false;
            }
        }
        k = k + 1;
    }
    true
}

/// Decides `forward`.
pub fn check_forward(table: &Vec<SpeedDistance>) -> (ok: bool)
    ensures
        ok == forward(table@),
{
    let mut k: usize = 0;
    while k < table.len()
        invariant
            0 <= k <= table.len(),
            forall|i: int| 0 <= i < k ==> (#[trigger] table@[i]).speed >= 0,
        decreases table.len() - k,
    {
        if table[k].speed < 0 {
            return false;
        }
        k = k + 1;
    }
    true
}

} // verus!
