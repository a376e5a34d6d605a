//! The converter between time and beats.
//!
//! Beats are counted in seconds: a stretch of `dt` seconds at a tempo of
//! `bpm` holds `dt / 60 * bpm` beats. The time of a tempo point is read in
//! the unit of the time that is asked about: a tempo point whose time is 2.0
//! takes effect at the real time of 2.0 seconds. A chart time is asked about
//! as the real time it stands for, a thousandth of it.
//!
//! The converter works on stamps: counts of a billionth of a second, which
//! are counts of chart time as they stand and `MILLIS` times the counts of a
//! real time. So the stamp of a tempo point is `MILLIS` times its time.

use crate::bpm::BPM;
use crate::fixed::{
    abs, div_trunc, lemma_tdiv_bounds, tdiv, BPM_LIMIT, MILLIS, QUERY_TIME_LIMIT, TIME_LIMIT,
    UNIT,
};
use crate::hitsound::bpms_ok;
use crate::index::{ascending, in_force, keys_of, lemma_in_force, selects, ByTime, IN_FORCE};
use vstd::prelude::*;

verus! {

/// One beat: beat counts are billionths of a beat.
pub const BEAT_UNIT: i64 = 1_000_000_000;

/// The ticks in a count of a beat. Beats are kept exactly, in ticks: a
/// stretch of `dt` stamps at a tempo of `bpm` holds `dt * bpm` ticks, since
/// a beat lasts `60 / bpm` seconds. Only the beat count that is handed out
/// is rounded, once.
pub const BEAT_DIVISOR: i64 = 60_000;

/// Largest magnitude of a beat count that may be asked about: a hundred
/// million beats, so that its time fits 64 bits.
pub const BEAT_LIMIT: i64 = 100_000_000_000_000_000;

/// Largest beat count that a query returns.
pub const BEAT_REACH: i64 = 2_000_000_000_000_000_000;

/// How far, in stamps, the way from a time to its beat count and back may
/// fall short of the time: 60 billionths of a second.
pub const BEAT_TOLERANCE: i64 = 60;

/// The stamps of the tempo points, in order: the times at which they take
/// effect, in billionths of a second.
pub open spec fn stamps(bpms: Seq<BPM>) -> Seq<int> {
    Seq::new(bpms.len(), |k: int| MILLIS * bpms[k].time)
}

/// The ticks at tempo point `k`: beats are counted from the first tempo
/// point on, each segment at the tempo of the point that starts it.
pub open spec fn ticks_upto(bpms: Seq<BPM>, k: int) -> int
    decreases k,
{
    if k <= 0 {
        0
    } else {
        ticks_upto(bpms, k - 1) + (MILLIS * bpms[k].time - MILLIS * bpms[k - 1].time) * bpms[k
            - 1].bpm
    }
}

/// The ticks at the tempo points, in order.
pub open spec fn tick_marks(bpms: Seq<BPM>) -> Seq<int> {
    Seq::new(bpms.len(), |k: int| ticks_upto(bpms, k))
}

/// The ticks at the stamp `time`: none before the first tempo point, else
/// the ticks at the tempo point in force and those of the time since.
pub open spec fn ticks_at(bpms: Seq<BPM>, time: int) -> int {
    if bpms.len() == 0 || time < MILLIS * bpms[0].time {
        0
    } else {
        let p = in_force(stamps(bpms), time);
        ticks_upto(bpms, p) + (time - MILLIS * bpms[p].time) * bpms[p].bpm
    }
}

/// The beat count at the stamp `time`, rounded toward zero.
pub open spec fn beat_at(bpms: Seq<BPM>, time: int) -> int {
    tdiv(ticks_at(bpms, time), BEAT_DIVISOR as int)
}

/// The stamp at which the beat count reaches `beat`: 0 for a negative count
/// or without tempo points, else the stamp of the last tempo point whose
/// ticks are at most those of `beat`, plus the time the remaining ticks take
/// at its tempo, rounded toward zero.
pub open spec fn time_of_beat(bpms: Seq<BPM>, beat: int) -> int {
    if bpms.len() == 0 || beat < 0 {
        0
    } else {
        let p = in_force(tick_marks(bpms), beat * BEAT_DIVISOR);
        MILLIS * bpms[p].time + tdiv(
            beat * BEAT_DIVISOR - ticks_upto(bpms, p),
            bpms[p].bpm as int,
        )
    }
}

/// The stamps of tempo points in time order are ascending.
pub proof fn lemma_stamps_ascending(bpms: Seq<BPM>)
    requires
        bpms_ok(bpms),
    ensures
        ascending(stamps(bpms)),
{
    let keys = keys_of::<BPM, ByTime>(bpms);
    let marks = stamps(bpms);
    assert(MILLIS == 1000);
    assert forall|i: int, j: int| 0 <= i <= j < marks.len() implies marks[i] <= marks[j] by {
        assert(keys[i] <= keys[j]);
    }
}

/// From one tempo point to a later one the ticks grow at least by the
/// stamps between them times the slowest tempo, and at most by those stamps
/// times the fastest.
pub proof fn lemma_ticks_growth(bpms: Seq<BPM>, i: int, j: int)
    requires
        bpms_ok(bpms),
        0 <= i <= j < bpms.len(),
    ensures
        bpms[i].time <= bpms[j].time,
        ticks_upto(bpms, j) - ticks_upto(bpms, i) >= UNIT * (MILLIS * bpms[j].time - MILLIS
            * bpms[i].time),
        ticks_upto(bpms, j) - ticks_upto(bpms, i) <= BPM_LIMIT * (MILLIS * bpms[j].time - MILLIS
            * bpms[i].time),
        ticks_upto(bpms, i) >= 0,
    decreases j,
{
    let keys = keys_of::<BPM, ByTime>(bpms);
    assert(UNIT == 1000 && BPM_LIMIT == 10_000_000 && MILLIS == 1000);
    if i < j {
        lemma_ticks_growth(bpms, i, j - 1);
        assert(keys[j - 1] <= keys[j]);
        assert(bpms[j - 1].within_limits());
        let dt = MILLIS * bpms[j].time - MILLIS * bpms[j - 1].time;
        let b = bpms[j - 1].bpm as int;
        assert(1000 * dt <= dt * b <= 10_000_000 * dt) by (nonlinear_arith)
            requires
                dt >= 0,
                1000 <= b <= 10_000_000,
        ;
    }
    lemma_ticks_nonneg(bpms, i);
}

/// The ticks at a tempo point are not negative.
pub proof fn lemma_ticks_nonneg(bpms: Seq<BPM>, k: int)
    requires
        bpms_ok(bpms),
        0 <= k < bpms.len(),
    ensures
        ticks_upto(bpms, k) >= 0,
    decreases k,
{
    if k > 0 {
        lemma_ticks_nonneg(bpms, k - 1);
        let keys = keys_of::<BPM, ByTime>(bpms);
        assert(keys[k - 1] <= keys[k]);
        assert(bpms[k - 1].within_limits());
        assert(MILLIS == 1000);
        let dt = MILLIS * bpms[k].time - MILLIS * bpms[k - 1].time;
        let b = bpms[k - 1].bpm as int;
        assert(dt * b >= 0) by (nonlinear_arith)
            requires
                dt >= 0,
                b >= 0,
        ;
    }
}

/// The ticks at the tempo points are ascending.
pub proof fn lemma_tick_marks_ascending(bpms: Seq<BPM>)
    requires
        bpms_ok(bpms),
    ensures
        ascending(tick_marks(bpms)),
{
    let marks = tick_marks(bpms);
    assert forall|i: int, j: int| 0 <= i <= j < marks.len() implies marks[i] <= marks[j] by {
        lemma_ticks_growth(bpms, i, j);
        assert(UNIT == 1000 && MILLIS == 1000);
    }
}

/// A stamp from the first tempo point on lies in the segment of the tempo
/// point in force; its ticks are those of that point and of the time since.
pub proof fn lemma_segment_of_beat_time(bpms: Seq<BPM>, time: int) -> (p: int)
    requires
        bpms_ok(bpms),
        bpms.len() > 0,
        MILLIS * bpms[0].time <= time,
    ensures
        0 <= p < bpms.len(),
        p == in_force(stamps(bpms), time),
        MILLIS * bpms[p].time <= time,
        p + 1 < bpms.len() ==> time < MILLIS * bpms[p + 1].time,
        ticks_at(bpms, time) == ticks_upto(bpms, p) + (time - MILLIS * bpms[p].time) * bpms[p].bpm,
{
    let keys = stamps(bpms);
    lemma_stamps_ascending(bpms);
    lemma_in_force(keys, time);
    let p = in_force(keys, time);
    assert(keys[0] <= time);
    assert(selects(keys, time, IN_FORCE as int, p));
    if p + 1 < bpms.len() {
        assert(keys[p + 1] > time);
    }
    p
}

/// The way from a time to its beat count and back. For tempo points in
/// time order and a stamp from the first of them on, the stamp that the beat
/// count leads back to is not after the stamp it came from, and falls short
/// of it by at most `BEAT_TOLERANCE`: 60 billionths of a second.
#[verifier::rlimit(60)]
pub proof fn lemma_beat_round_trip(bpms: Seq<BPM>, time: int)
    requires
        bpms_ok(bpms),
        bpms.len() > 0,
        MILLIS * bpms[0].time <= time,
    ensures
        0 <= time - time_of_beat(bpms, beat_at(bpms, time)) <= BEAT_TOLERANCE,
{
    let marks = tick_marks(bpms);
    let d = BEAT_DIVISOR as int;
    assert(d == 60_000 && UNIT == 1000 && BPM_LIMIT == 10_000_000 && BEAT_TOLERANCE == 60
        && MILLIS == 1000);
    let p = lemma_segment_of_beat_time(bpms, time);
    let sp = MILLIS * bpms[p].time;
    let total = ticks_at(bpms, time);
    lemma_ticks_growth(bpms, 0, p);
    assert(bpms[p].within_limits());
    let rest = (time - sp) * bpms[p].bpm;
    assert(rest >= 1000 * (time - sp)) by (nonlinear_arith)
        requires
            rest == (time - sp) * bpms[p].bpm,
            time - sp >= 0,
            bpms[p].bpm >= 1000,
    ;
    assert(total >= 0);
    lemma_tdiv_bounds(total, d);
    let beat = beat_at(bpms, time);
    let target = beat * d;
    assert(beat >= 0) by (nonlinear_arith)
        requires
            total < beat * d + d,
            total >= 0,
            d > 0,
    ;
    assert(target == beat * BEAT_DIVISOR);
    assert(0 <= target <= total < target + d);
    // the tempo point that the beat count leads back to
    lemma_tick_marks_ascending(bpms);
    lemma_in_force(marks, target);
    let q = in_force(marks, target);
    assert(marks[0] == 0);
    assert(selects(marks, target, IN_FORCE as int, q));
    assert(marks[q] == ticks_upto(bpms, q));
    assert(q <= p) by {
        if q > p {
            lemma_ticks_growth(bpms, p + 1, q);
            let dt = MILLIS * bpms[p + 1].time - sp;
            assert(dt > time - sp);
            assert(dt * bpms[p].bpm > rest) by (nonlinear_arith)
                requires
                    rest == (time - sp) * bpms[p].bpm,
                    dt > time - sp,
                    bpms[p].bpm >= 1000,
            ;
        }
    }
    assert(bpms[q].within_limits());
    let tempo = bpms[q].bpm as int;
    let sq = MILLIS * bpms[q].time;
    let left = target - ticks_upto(bpms, q);
    lemma_tdiv_bounds(left, tempo);
    let e = tdiv(left, tempo);
    let back = sq + e;
    assert(time_of_beat(bpms, beat) == back);
    assert(e >= 0) by (nonlinear_arith)
        requires
            left < e * tempo + tempo,
            left >= 0,
            tempo > 0,
    ;
    // the ticks at the stamp found are at most those of the beat count, and
    // fall short of them by less than a stamp holds at the tempo
    let found = ticks_upto(bpms, q) + e * tempo;
    assert(target - tempo < found <= target);
    if q == p {
        assert(0 <= time - back <= 60) by (nonlinear_arith)
            requires
                found == ticks_upto(bpms, p) + e * tempo,
                total == ticks_upto(bpms, p) + (time - sp) * tempo,
                back == sp + e,
                target - tempo < found <= target,
                target <= total < target + 60_000,
                tempo >= 1000,
        ;
    } else {
        // the stamp found lies before the next tempo point
        lemma_ticks_growth(bpms, q + 1, p);
        assert(marks[q + 1] > target);
        let sn = MILLIS * bpms[q + 1].time;
        let dq = sn - sq;
        assert(marks[q + 1] == ticks_upto(bpms, q) + dq * tempo);
        let x = dq - e;
        assert(x >= 1 && ticks_upto(bpms, q + 1) - found >= 1000 * (x - 1) + tempo)
            by (nonlinear_arith)
            requires
                ticks_upto(bpms, q + 1) == ticks_upto(bpms, q) + dq * tempo,
                found == ticks_upto(bpms, q) + e * tempo,
                found <= target,
                ticks_upto(bpms, q + 1) > target,
                tempo >= 1000,
                x == dq - e,
        ;
        // the ticks from there to the stamp asked about
        assert(total - ticks_upto(bpms, q + 1) >= 1000 * (time - sn));
        assert(1000 * (x - 1) + 1000 * (time - sn) < 60_000);
        assert(time - back == (time - sn) + x);
    }
}

/// Time and beats are exact inverses of each other at a tempo point whose
/// beat count is a whole number of counts: the beat count at the point's
/// stamp is that number, and it leads back to the point's stamp.
#[verifier::rlimit(40)]
pub proof fn lemma_beat_time_inverse(bpms: Seq<BPM>, k: int)
    requires
        bpms_ok(bpms),
        0 <= k < bpms.len(),
        ticks_upto(bpms, k) % (BEAT_DIVISOR as int) == 0,
    ensures
        beat_at(bpms, MILLIS * bpms[k].time) * BEAT_DIVISOR == ticks_upto(bpms, k),
        time_of_beat(bpms, beat_at(bpms, MILLIS * bpms[k].time)) == MILLIS * bpms[k].time,
{
    let keys = stamps(bpms);
    let marks = tick_marks(bpms);
    let d = BEAT_DIVISOR as int;
    assert(d == 60_000 && UNIT == 1000 && BPM_LIMIT == 10_000_000 && MILLIS == 1000);
    let t = MILLIS * bpms[k].time;
    let ticks = ticks_upto(bpms, k);
    lemma_ticks_growth(bpms, 0, k);
    let p = lemma_segment_of_beat_time(bpms, t);
    lemma_stamps_ascending(bpms);
    assert(selects(keys, t, IN_FORCE as int, p)) by {
        lemma_in_force(keys, t);
        assert(keys[0] <= t);
    }
    assert(p >= k) by {
        if p < k {
            assert(keys[k] > t);
        }
    }
    lemma_ticks_growth(bpms, k, p);
    assert(MILLIS * bpms[p].time == t);
    assert((t - MILLIS * bpms[p].time) * bpms[p].bpm == 0) by (nonlinear_arith)
        requires
            t - MILLIS * bpms[p].time == 0,
    ;
    assert(ticks_at(bpms, t) == ticks);
    let beat = beat_at(bpms, t);
    assert(ticks == d * (ticks / d) + ticks % d);
    assert(beat == ticks / d);
    assert(beat * d == ticks);
    assert(beat >= 0);
    assert(beat * BEAT_DIVISOR == ticks);
    lemma_tick_marks_ascending(bpms);
    lemma_in_force(marks, ticks);
    let q = in_force(marks, ticks);
    assert(marks[0] == 0);
    assert(marks[k] == ticks);
    assert(selects(marks, ticks, IN_FORCE as int, q));
    assert(q >= k) by {
        if q < k {
            assert(marks[k] > ticks);
        }
    }
    lemma_ticks_growth(bpms, k, q);
    assert(marks[q] == ticks_upto(bpms, q));
    assert(MILLIS * bpms[q].time == t);
    assert(bpms[q].within_limits());
    lemma_tdiv_bounds(0, bpms[q].bpm as int);
}

/// The way from a real time to its beat count and back. For tempo points
/// in time order and a real time from the first of them on, the real time
/// that the beat count leads back to is not after the real time it came
/// from, and falls short of it by at most one millionth of a second.
pub proof fn lemma_beat_round_trip_real(bpms: Seq<BPM>, real_time: int)
    requires
        bpms_ok(bpms),
        bpms.len() > 0,
        bpms[0].time <= real_time,
    ensures
        0 <= real_time - tdiv(
            time_of_beat(bpms, beat_at(bpms, real_time * MILLIS)),
            MILLIS as int,
        ) <= 1,
{
    assert(MILLIS == 1000 && BEAT_TOLERANCE == 60);
    let time = real_time * MILLIS;
    lemma_beat_round_trip(bpms, time);
    let back = time_of_beat(bpms, beat_at(bpms, time));
    lemma_tdiv_bounds(back, 1000);
}

/// The beat count at the stamp `time`.
#[verifier::rlimit(40)]
pub fn find_beat_at(bpms: &Vec<BPM>, time: i64) -> (beat: i64)
    requires
        bpms_ok(bpms@),
        abs(time as int) <= QUERY_TIME_LIMIT,
    ensures
        beat == beat_at(bpms@, time as int),
        0 <= beat <= BEAT_REACH,
{
    let n: usize = bpms.len();
    let ghost keys = stamps(bpms@);
    let mut acc: i128 = 0;
    let mut k: usize = 0;
    assert(BEAT_DIVISOR == 60_000 && BPM_LIMIT == 10_000_000 && TIME_LIMIT
        == 10_000_000_000_000 && QUERY_TIME_LIMIT == 20_000_000_000_000 && UNIT == 1000
        && BEAT_REACH == 2_000_000_000_000_000_000 && MILLIS == 1000);
    proof {
        lemma_tdiv_bounds(0, BEAT_DIVISOR as int);
        lemma_stamps_ascending(bpms@);
    }
    while k < n && (bpms[k].time as i128) * 1000 <= time as i128
        invariant
            0 <= k <= n,
            n == bpms.len(),
            bpms_ok(bpms@),
            keys == stamps(bpms@),
            ascending(keys),
            MILLIS == 1000,
            k > 0 ==> acc == ticks_upto(bpms@, k - 1),
            k == 0 ==> acc == 0,
            forall|j: int| 0 <= j < k ==> keys[j] <= time,
        decreases n - k,
    {
        proof {
            lemma_ticks_growth(bpms@, 0, k as int);
            assert(bpms@[k as int].within_limits());
            assert(bpms@[0].within_limits());
            assert(keys[k as int] == 1000 * bpms@[k as int].time);
        }
        if k > 0 {
            let prev: BPM = bpms[k - 1];
            let cur: BPM = bpms[k];
            proof {
                assert(bpms@[k - 1].within_limits());
                assert(keys[k - 1] <= keys[k as int]);
                lemma_ticks_growth(bpms@, 0, k - 1);
            }
            let dt: i128 = (cur.time as i128) * 1000 - (prev.time as i128) * 1000;
            assert(0 <= dt * prev.bpm <= 20_000_000_000_000_000 * 10_000_000)
                by (nonlinear_arith)
                requires
                    0 <= dt <= 20_000_000_000_000_000,
                    0 <= prev.bpm <= 10_000_000,
            ;
            acc = acc + dt * (prev.bpm as i128);
        }
        k = k + 1;
    }
    if k == 0 {
        return 0;
    }
    let p: usize = k - 1;
    let last: BPM = bpms[p];
    proof {
        assert(keys[0] <= time);
        assert(keys[0] == 1000 * bpms@[0].time);
        assert(selects(keys, time as int, IN_FORCE as int, p as int)) by {
            assert forall|j: int| p < j < keys.len() implies keys[j] > time by {
                assert(keys[k as int] == 1000 * bpms@[k as int].time);
                assert(keys[k as int] <= keys[j]);
            }
        }
        lemma_in_force(keys, time as int);
        lemma_ticks_growth(bpms@, 0, p as int);
        assert(bpms@[p as int].within_limits());
        assert(bpms@[0].within_limits());
        assert(keys[p as int] == 1000 * bpms@[p as int].time);
    }
    let since: i128 = time as i128 - (last.time as i128) * 1000;
    assert(0 <= since * last.bpm <= 10_000_000 * since) by (nonlinear_arith)
        requires
            0 <= since,
            0 <= last.bpm <= 10_000_000,
    ;
    let total: i128 = acc + since * (last.bpm as i128);
    proof {
        assert(0 <= total <= 10_000_000 * 10_020_000_000_000_000);
        lemma_tdiv_bounds(total as int, BEAT_DIVISOR as int);
    }
    div_trunc(total, BEAT_DIVISOR as i128) as i64
}

/// The stamp at which the beat count reaches `beat`.
#[verifier::rlimit(40)]
pub fn find_time_of_beat(bpms: &Vec<BPM>, beat: i64) -> (time: i64)
    requires
        bpms_ok(bpms@),
        abs(beat as int) <= BEAT_LIMIT,
    ensures
        time == time_of_beat(bpms@, beat as int),
{
    let n: usize = bpms.len();
    if n == 0 || beat < 0 {
        return 0;
    }
    let ghost marks = tick_marks(bpms@);
    let ghost keys = keys_of::<BPM, ByTime>(bpms@);
    assert(BEAT_DIVISOR == 60_000 && BPM_LIMIT == 10_000_000 && TIME_LIMIT
        == 10_000_000_000_000 && BEAT_LIMIT == 100_000_000_000_000_000 && UNIT == 1000
        && MILLIS == 1000);
    let target: i128 = (beat as i128) * (BEAT_DIVISOR as i128);
    let mut acc: i128 = 0;
    let mut k: usize = 1;
    proof {
        lemma_tick_marks_ascending(bpms@);
    }
    loop
        invariant
            1 <= k <= n,
            n == bpms.len(),
            bpms_ok(bpms@),
            0 <= beat <= BEAT_LIMIT,
            target == beat * BEAT_DIVISOR,
            marks == tick_marks(bpms@),
            keys == keys_of::<BPM, ByTime>(bpms@),
            ascending(marks),
            MILLIS == 1000,
            acc == ticks_upto(bpms@, k - 1),
            0 <= acc <= target,
        ensures
            k == n || marks[k as int] > target,
        decreases n - k,
    {
        if k >= n {
            break ;
        }
        let prev: BPM = bpms[k - 1];
        let cur: BPM = bpms[k];
        proof {
            lemma_ticks_growth(bpms@, k - 1, k as int);
            assert(bpms@[k - 1].within_limits());
            assert(bpms@[k as int].within_limits());
            assert(keys[k - 1] <= keys[k as int]);
        }
        let dt: i128 = (cur.time as i128) * 1000 - (prev.time as i128) * 1000;
        assert(0 <= dt * prev.bpm <= 20_000_000_000_000_000 * 10_000_000)
            by (nonlinear_arith)
            requires
                0 <= dt <= 20_000_000_000_000_000,
                0 <= prev.bpm <= 10_000_000,
        ;
        let seg: i128 = dt * (prev.bpm as i128);
        if acc + seg > target {
            break ;
        }
        acc = acc + seg;
        k = k + 1;
    }
    let p: usize = k - 1;
    let last: BPM = bpms[p];
    proof {
        assert(marks[0] == 0);
        assert(selects(marks, target as int, IN_FORCE as int, p as int)) by {
            assert(marks[p as int] == acc);
            assert forall|j: int| p < j < marks.len() implies marks[j] > target by {
                assert(marks[k as int] <= marks[j]);
            }
        }
        lemma_in_force(marks, target as int);
        assert(bpms@[p as int].within_limits());
        lemma_tdiv_bounds((target - acc) as int, last.bpm as int);
        assert(tdiv((target - acc) as int, last.bpm as int) <= 6_000_000_000_000_000_000)
            by (nonlinear_arith)
            requires
                0 <= tdiv((target - acc) as int, last.bpm as int) * last.bpm <= target - acc,
                target - acc <= 100_000_000_000_000_000 * 60_000,
                last.bpm >= 1000,
        ;
    }
    let rest: i128 = div_trunc(target - acc, last.bpm as i128);
    ((last.time as i128) * 1000 + rest) as i64
}

} // verus!
