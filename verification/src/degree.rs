//! The degree interpolator: the angle between two keyframes, and the angle
//! of a track at a time.

use crate::easing::{ease, eased, FINE, PROGRESS_LIMIT};
use crate::fixed::{
    abs, div_trunc, lemma_tdiv_bounds, rem_floor, tdiv, ANGLE_LIMIT, QUERY_DISTANCE_LIMIT,
    QUERY_TIME_LIMIT,
};
use crate::index::{
    ascending, check_ascending, find_pos, in_force, keys_of, lemma_in_force, ByDistance,
    IN_FORCE,
};
use crate::integrate::{distance_at, find_distance_at, speed_table_ok};
use crate::speeddistance::SpeedDistance;
use crate::traildistance::TrailDistance;
use vstd::prelude::*;

verus! {

/// A full turn, 360 degrees.
pub const FULL_TURN: i64 = 360_000;

/// A half turn, 180 degrees. The play-field looks the same after a half turn.
pub const HALF_TURN: i64 = 180_000;

/// A quarter turn, 90 degrees.
pub const QUARTER_TURN: i64 = 90_000;

/// The angle between two directions, at most a half turn.
pub open spec fn arc_gap(x: int, y: int) -> int {
    let g = abs(x - y) % (FULL_TURN as int);
    if g > HALF_TURN {
        FULL_TURN - g
    } else {
        g
    }
}

/// The end angle to ease towards: the keyframe's angle or the one a half
/// turn from it, whichever is closer to `from`; the keyframe's own on a tie.
pub open spec fn closer_end(from: int, to: int) -> int {
    if arc_gap(to + HALF_TURN, from) < arc_gap(to, from) {
        to + HALF_TURN
    } else {
        to
    }
}

/// The end angle shifted by a half or a full turn so that the ease does not
/// jump across the 0/360 boundary. `from` and `to` are in `[0, 360)`. For a
/// start in the upper half, the shifts +360, +180, -180 are tried in this
/// order and the first that brings the end within a quarter turn of the
/// start is taken; for a start in the lower half, the shifts -360, -180,
/// +180, and the end must come closer than a quarter turn.
pub open spec fn unwrapped_end(from: int, to: int) -> int {
    if from >= HALF_TURN {
        if abs(from - (to + FULL_TURN)) <= QUARTER_TURN {
            to + FULL_TURN
        } else if abs(from - (to + HALF_TURN)) <= QUARTER_TURN {
            to + HALF_TURN
        } else if abs(from - (to - HALF_TURN)) <= QUARTER_TURN {
            to - HALF_TURN
        } else {
            to
        }
    } else {
        if abs(from - (to - FULL_TURN)) < QUARTER_TURN {
            to - FULL_TURN
        } else if abs(from - (to - HALF_TURN)) < QUARTER_TURN {
            to - HALF_TURN
        } else if abs(from - (to + HALF_TURN)) < QUARTER_TURN {
            to + HALF_TURN
        } else {
            to
        }
    }
}

/// An angle reduced to `[0, 180)`: a negative angle is first raised by a
/// full turn.
pub open spec fn folded(angle: int) -> int {
    let raised = if angle < 0 {
        angle + FULL_TURN
    } else {
        angle
    };
    raised % (HALF_TURN as int)
}

/// The angle the ease leaves from: the keyframe's angle after its own turn,
/// in `[0, 360)`.
pub open spec fn ease_start(from: TrailDistance) -> int {
    (from.degree + from.delta) % (FULL_TURN as int)
}

/// The angle the ease arrives at: the closer of the two representations of
/// the next keyframe's angle, in `[0, 360)`, then unwrapped.
pub open spec fn ease_end(from: TrailDistance, to: TrailDistance) -> int {
    unwrapped_end(
        ease_start(from),
        closer_end(from.degree + from.delta, to.degree as int) % (FULL_TURN as int),
    )
}

/// The angle at `progress` (0 to 1, in millionths) of the way from keyframe
/// `from` to keyframe `to`, in `[0, 180)`. The ease out of `from` is shaped
/// by its `next_curv`, the ease into `to` by its `prev_curv`, each a
/// percentage: a hundredth of it is the control value, which counts
/// millionths.
pub open spec fn angle_between(from: TrailDistance, to: TrailDistance, progress: int) -> int {
    folded(
        eased(
            ease_start(from),
            ease_end(from, to),
            from.next_curv * 10,
            to.prev_curv * 10,
            progress,
        ),
    )
}

/// `arc_gap` in executable code.
fn arc_gap_of(x: i64, y: i64) -> (g: i64)
    requires
        abs(x as int) <= 8 * ANGLE_LIMIT,
        abs(y as int) <= 8 * ANGLE_LIMIT,
    ensures
        g == arc_gap(x as int, y as int),
{
    let d: i64 = if x >= y {
        x - y
    } else {
        y - x
    };
    let g: i64 = d % FULL_TURN;
    if g > HALF_TURN {
        FULL_TURN - g
    } else {
        g
    }
}

/// The magnitude of the difference of two angles.
fn gap(x: i64, y: i64) -> (g: i64)
    requires
        abs(x as int) <= 8 * ANGLE_LIMIT,
        abs(y as int) <= 8 * ANGLE_LIMIT,
    ensures
        g == abs(x - y),
{
    if x >= y {
        x - y
    } else {
        y - x
    }
}

/// `unwrapped_end` in executable code.
fn unwrap_end(from: i64, to: i64) -> (r: i64)
    requires
        0 <= from < FULL_TURN,
        0 <= to < FULL_TURN,
    ensures
        r == unwrapped_end(from as int, to as int),
        -FULL_TURN <= r < 2 * FULL_TURN,
{
    if from >= HALF_TURN {
        if gap(from, to + FULL_TURN) <= QUARTER_TURN {
            to + FULL_TURN
        } else if gap(from, to + HALF_TURN) <= QUARTER_TURN {
            to + HALF_TURN
        } else if gap(from, to - HALF_TURN) <= QUARTER_TURN {
            to - HALF_TURN
        } else {
            to
        }
    } else {
        if gap(from, to - FULL_TURN) < QUARTER_TURN {
            to - FULL_TURN
        } else if gap(from, to - HALF_TURN) < QUARTER_TURN {
            to - HALF_TURN
        } else if gap(from, to + HALF_TURN) < QUARTER_TURN {
            to + HALF_TURN
        } else {
            to
        }
    }
}

/// `folded` in executable code.
pub fn fold(angle: i64) -> (r: i64)
    requires
        abs(angle as int) <= 8 * ANGLE_LIMIT,
    ensures
        r == folded(angle as int),
        0 <= r < HALF_TURN,
{
    let raised: i64 = if angle < 0 {
        angle + FULL_TURN
    } else {
        angle
    };
    rem_floor(raised, HALF_TURN)
}

/// A folded angle is in `[0, 180)`.
pub proof fn lemma_folded_range(angle: int)
    ensures
        0 <= folded(angle) < HALF_TURN,
{
}

/// The angle at `progress` of the way from `trail1` to `trail2`.
pub fn degree_between(trail1: TrailDistance, trail2: TrailDistance, progress: i64) -> (r: i64)
    requires
        trail1.within_limits(),
        trail2.within_limits(),
        abs(progress as int) <= PROGRESS_LIMIT,
    ensures
        r == angle_between(trail1, trail2, progress as int),
        0 <= r < HALF_TURN,
{
    let raw1: i64 = trail1.degree + trail1.delta;
    let mut raw2: i64 = trail2.degree;
    if arc_gap_of(raw2 + HALF_TURN, raw1) < arc_gap_of(raw2, raw1) {
        raw2 = raw2 + HALF_TURN;
    }
    let degree1: i64 = rem_floor(raw1, FULL_TURN);
    let degree2: i64 = unwrap_end(degree1, rem_floor(raw2, FULL_TURN));
    let control_a: i64 = trail1.next_curv * 10;
    let control_b: i64 = trail2.prev_curv * 10;
    let eased_angle: i64 = ease(degree1, degree2, control_a, control_b, progress);
    fold(eased_angle)
}

/// An angle track that queries can be answered from: it is not empty, every
/// keyframe is within its limits, and the keyframes are in distance order.
pub open spec fn track_ok(track: Seq<TrailDistance>) -> bool {
    &&& track.len() > 0
    &&& forall|i: int| 0 <= i < track.len() ==> (#[trigger] track[i]).within_limits()
    &&& ascending(keys_of::<TrailDistance, ByDistance>(track))
}

/// How far `distance` lies between two keyframes, from 0 to 1, in
/// millionths; 0 if it lies before the first of them.
pub open spec fn progress_between(from: TrailDistance, to: TrailDistance, distance: int) -> int {
    if distance <= from.distance {
        0
    } else {
        tdiv((distance - from.distance) * FINE, to.distance - from.distance)
    }
}

/// The angle of a track at time `time`, which is `distance` along the scroll
/// path. The keyframe in force is the last one at or before `distance`. At
/// or before that keyframe's own time the angle is the keyframe's, as it
/// stands. After that time the angle is in `[0, 180)`: eased between two
/// keyframes; the keyframe's own angle, folded, where the next keyframe is
/// not farther along than it; and after the last keyframe the keyframe's
/// angle after its own turn, folded.
pub open spec fn track_angle(track: Seq<TrailDistance>, distance: int, time: int) -> int {
    let p = in_force(keys_of::<TrailDistance, ByDistance>(track), distance);
    if time <= track[p].time {
        track[p].degree as int
    } else if p + 1 < track.len() {
        if track[p + 1].distance > track[p].distance {
            angle_between(track[p], track[p + 1], progress_between(track[p], track[p + 1], distance))
        } else {
            folded(track[p].degree as int)
        }
    } else {
        folded(track[p].degree + track[p].delta)
    }
}

/// The angle of a track at a time, given the speed table that places the
/// time on the scroll path.
pub open spec fn degree_at(track: Seq<TrailDistance>, table: Seq<SpeedDistance>, time: int) -> int {
    track_angle(track, distance_at(table, time), time)
}

/// The time of the keyframe in force at `time`.
pub open spec fn bracket_time(track: Seq<TrailDistance>, table: Seq<SpeedDistance>, time: int) -> int {
    track[in_force(keys_of::<TrailDistance, ByDistance>(track), distance_at(table, time))].time as int
}

/// The angle of `track` at `time`, which is `distance` along the scroll path.
pub fn find_track_angle(track: &Vec<TrailDistance>, distance: i64, time: i64) -> (r: i64)
    requires
        track_ok(track@),
        abs(distance as int) <= QUERY_DISTANCE_LIMIT,
    ensures
        r == track_angle(track@, distance as int, time as int),
        abs(r as int) <= 2 * ANGLE_LIMIT,
        time > track@[in_force(keys_of::<TrailDistance, ByDistance>(track@), distance as int)].time
            ==> 0 <= r < HALF_TURN,
{
    let p: usize = find_pos::<TrailDistance, ByDistance>(track, distance, IN_FORCE);
    proof {
        lemma_in_force(keys_of::<TrailDistance, ByDistance>(track@), distance as int);
        assert(track@[p as int].within_limits());
    }
    let from: TrailDistance = track[p];
    if time <= from.time {
        from.degree
    } else if p + 1 < track.len() {
        let to: TrailDistance = track[p + 1];
        proof {
            assert(track@[p + 1].within_limits());
        }
        if to.distance > from.distance {
            let progress: i64 = if distance <= from.distance {
                0
            } else {
                assert(abs((distance - from.distance) * FINE) <= 2 * QUERY_DISTANCE_LIMIT
                    * 1_000_000) by (nonlinear_arith)
                    requires
                        abs(distance - from.distance) <= 2 * QUERY_DISTANCE_LIMIT,
                        FINE == 1_000_000,
                ;
                let num: i128 = (distance as i128 - from.distance as i128) * (FINE as i128);
                let span: i128 = to.distance as i128 - from.distance as i128;
                proof {
                    let keys = keys_of::<TrailDistance, ByDistance>(track@);
                    assert(keys[p as int] <= distance);
                    assert(keys[p + 1] > distance);
                    lemma_tdiv_bounds(num as int, span as int);
                    assert(tdiv(num as int, span as int) < FINE) by (nonlinear_arith)
                        requires
                            tdiv(num as int, span as int) * span <= num,
                            num == (distance - from.distance) * FINE,
                            distance - from.distance < span,
                            span > 0,
                    ;
                }
                div_trunc(num, span) as i64
            };
            degree_between(from, to, progress)
        } else {
            fold(from.degree)
        }
    } else {
        fold(from.degree + from.delta)
    }
}

/// The angle of `track` at `time`.
pub fn find_degree_at(track: &Vec<TrailDistance>, table: &Vec<SpeedDistance>, time: i64) -> (r:
    i64)
    requires
        track_ok(track@),
        speed_table_ok(table@),
        abs(time as int) <= QUERY_TIME_LIMIT,
    ensures
        r == degree_at(track@, table@, time as int),
        abs(r as int) <= 2 * ANGLE_LIMIT,
        time > bracket_time(track@, table@, time as int) ==> 0 <= r < HALF_TURN,
{
    let distance: i64 = find_distance_at(table, time);
    find_track_angle(track, distance, time)
}

/// Decides `track_ok`.
pub fn check_track(track: &Vec<TrailDistance>) -> (ok: bool)
    ensures
        ok == track_ok(track@),
{
    if track.len() == 0 {
        return false;
    }
    let mut k: usize = 0;
    while k < track.len()
        invariant
            0 <= k <= track.len(),
            forall|i: int| 0 <= i < k ==> (#[trigger] track@[i]).within_limits(),
        decreases track.len() - k,
    {
        if !track[k].check_limits() {
            return false;
        }
        k = k + 1;
    }
    check_ascending::<TrailDistance, ByDistance>(track)
}

} // verus!
