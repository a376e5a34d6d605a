//! The builders of the two angle tracks: the trail, and the track of the
//! held device.

use crate::degree::{degree_at, find_degree_at, track_ok, HALF_TURN, QUARTER_TURN};
use crate::fixed::{
    abs, div_trunc, lemma_tdiv_bounds, rem_trunc, tdiv, trem, ANGLE_LIMIT, QUERY_TIME_LIMIT,
    TIME_LIMIT,
};
use crate::index::{in_force, keys_of, lemma_in_force, ByTime};
use crate::integrate::{
    distance_at, find_distance_at, lemma_distance_from_bound, sample_after, speed_table_ok,
};
use crate::note::{Catch, Note};
use crate::sort::{
    lemma_ordered_by_distance, lemma_stable_sort, lemma_stable_sort_keeps, sort_by_rank,
    stable_sort, DistanceTimeRank,
};
use crate::speeddistance::SpeedDistance;
use crate::traildistance::TrailDistance;
use vstd::prelude::*;

verus! {

/// How far past the last keyframe the trail's closing sentinel stands:
/// 50000 ms.
pub const FAR_AHEAD: i64 = 50_000_000_000;

/// How far past its last keyframe the device track's closing sentinel stands:
/// 200 ms.
pub const SETTLE: i64 = 200_000_000;

/// How long before and after a rotation the device turns: 30 ms.
pub const ROLL: i64 = 30_000_000;

/// A catch this close after a note takes the note's place on the device
/// track: 100 ms.
pub const NEAR: i64 = 100_000_000;

/// Every note is within its limits.
pub open spec fn notes_ok(notes: Seq<Note>) -> bool {
    forall|i: int| 0 <= i < notes.len() ==> (#[trigger] notes[i]).within_limits()
}

/// At least one note bends the trail.
pub open spec fn has_keyframe(notes: Seq<Note>) -> bool {
    exists|i: int| 0 <= i < notes.len() && (#[trigger] notes[i]).is_keyframe()
}

/// A keyframe at `time` on the scroll path of `table`.
pub open spec fn frame(
    table: Seq<SpeedDistance>,
    time: int,
    degree: int,
    delta: int,
    prev_curv: int,
    next_curv: int,
) -> TrailDistance {
    TrailDistance {
        time: time as i64,
        degree: degree as i64,
        delta: delta as i64,
        prev_curv: prev_curv as i64,
        next_curv: next_curv as i64,
        distance: distance_at(table, time) as i64,
    }
}

/// The keyframe that a note leaves on the trail: rotations and trail notes
/// leave their angle, sweep and curvature; other notes leave nothing.
pub open spec fn keyframe_of(note: Note, table: Seq<SpeedDistance>) -> Option<TrailDistance> {
    match note {
        Note::Rotate(n) => Some(
            frame(
                table,
                n.time as int,
                n.degree as int,
                n.delta as int,
                n.prev_curv as int,
                n.next_curv as int,
            ),
        ),
        Note::Trail(n) => Some(
            frame(
                table,
                n.time as int,
                n.degree as int,
                n.delta as int,
                n.prev_curv as int,
                n.next_curv as int,
            ),
        ),
        _ => None,
    }
}

/// The keyframes of the first `k` notes, in note order.
pub open spec fn keyframes(notes: Seq<Note>, table: Seq<SpeedDistance>, k: int) -> Seq<
    TrailDistance,
>
    decreases k,
{
    if k <= 0 {
        Seq::empty()
    } else {
        match keyframe_of(notes[k - 1], table) {
            Some(f) => keyframes(notes, table, k - 1).push(f),
            None => keyframes(notes, table, k - 1),
        }
    }
}

/// The keyframes between their two sentinels. A sentinel at time 0 and
/// distance 0 repeats the angle of the first keyframe, so that the trail
/// holds still before it. A sentinel far past the last keyframe holds the
/// angle the last keyframe turns to.
pub open spec fn with_sentinels(frames: Seq<TrailDistance>, table: Seq<SpeedDistance>) -> Seq<
    TrailDistance,
> {
    let first = frames[0];
    let last = frames.last();
    let opening = TrailDistance {
        time: 0,
        degree: first.degree,
        delta: 0,
        prev_curv: first.prev_curv,
        next_curv: first.next_curv,
        distance: 0,
    };
    let closing = frame(
        table,
        last.time + FAR_AHEAD,
        last.degree + last.delta,
        0,
        last.prev_curv as int,
        last.next_curv as int,
    );
    (seq![opening] + frames).push(closing)
}

/// The trail track of a chart: the keyframes of its notes between the two
/// sentinels, in order of distance, and of time where distances are equal.
pub open spec fn trail_track(notes: Seq<Note>, table: Seq<SpeedDistance>) -> Seq<TrailDistance> {
    stable_sort::<TrailDistance, DistanceTimeRank>(
        with_sentinels(keyframes(notes, table, notes.len() as int), table),
    )
}

/// A keyframe from a note within its limits is within the limits of a
/// keyframe.
proof fn lemma_frame_ok(
    table: Seq<SpeedDistance>,
    time: int,
    degree: int,
    delta: int,
    prev_curv: int,
    next_curv: int,
)
    requires
        speed_table_ok(table),
        abs(time) <= QUERY_TIME_LIMIT,
        abs(degree) <= 2 * ANGLE_LIMIT,
        abs(delta) <= ANGLE_LIMIT,
        abs(prev_curv) <= ANGLE_LIMIT,
        abs(next_curv) <= ANGLE_LIMIT,
    ensures
        frame(table, time, degree, delta, prev_curv, next_curv).within_limits(),
        frame(table, time, degree, delta, prev_curv, next_curv).time == time,
        frame(table, time, degree, delta, prev_curv, next_curv).degree == degree,
        frame(table, time, degree, delta, prev_curv, next_curv).delta == delta,
        frame(table, time, degree, delta, prev_curv, next_curv).prev_curv == prev_curv,
        frame(table, time, degree, delta, prev_curv, next_curv).next_curv == next_curv,
        frame(table, time, degree, delta, prev_curv, next_curv).distance == distance_at(
            table,
            time,
        ),
{
    let keys = keys_of::<SpeedDistance, ByTime>(table);
    lemma_in_force(keys, time);
    let p = in_force(keys, time);
    assert(table[p].within_limits());
    if p + 1 < table.len() {
        assert(table[p + 1].within_limits());
    }
    lemma_distance_from_bound(table[p], sample_after(table, p), time);
}

/// Makes a keyframe at `time` on the scroll path of `table`.
fn make_frame(
    table: &Vec<SpeedDistance>,
    time: i64,
    degree: i64,
    delta: i64,
    prev_curv: i64,
    next_curv: i64,
) -> (f: TrailDistance)
    requires
        speed_table_ok(table@),
        abs(time as int) <= QUERY_TIME_LIMIT,
        abs(degree as int) <= 2 * ANGLE_LIMIT,
        abs(delta as int) <= ANGLE_LIMIT,
        abs(prev_curv as int) <= ANGLE_LIMIT,
        abs(next_curv as int) <= ANGLE_LIMIT,
    ensures
        f == frame(
            table@,
            time as int,
            degree as int,
            delta as int,
            prev_curv as int,
            next_curv as int,
        ),
        f.within_limits(),
{
    proof {
        lemma_frame_ok(
            table@,
            time as int,
            degree as int,
            delta as int,
            prev_curv as int,
            next_curv as int,
        );
    }
    TrailDistance::new(time, degree, delta, prev_curv, next_curv, find_distance_at(table, time))
}

/// The keyframes of the first `k` notes are within their limits, and there
/// is one as soon as one of these notes bends the trail.
proof fn lemma_keyframes(notes: Seq<Note>, table: Seq<SpeedDistance>, k: int)
    requires
        notes_ok(notes),
        speed_table_ok(table),
        0 <= k <= notes.len(),
    ensures
        forall|i: int|
            0 <= i < keyframes(notes, table, k).len() ==> (#[trigger] keyframes(
                notes,
                table,
                k,
            )[i]).within_limits(),
        forall|i: int|
            0 <= i < keyframes(notes, table, k).len() ==> abs(
                (#[trigger] keyframes(notes, table, k)[i]).time as int,
            ) <= TIME_LIMIT && abs(keyframes(notes, table, k)[i].degree as int) <= ANGLE_LIMIT,
        (exists|i: int| 0 <= i < k && (#[trigger] notes[i]).is_keyframe()) ==> keyframes(
            notes,
            table,
            k,
        ).len() > 0,
    decreases k,
{
    if k > 0 {
        lemma_keyframes(notes, table, k - 1);
        let n = notes[k - 1];
        assert(n.within_limits());
        match n {
            Note::Rotate(r) => {
                lemma_frame_ok(
                    table,
                    r.time as int,
                    r.degree as int,
                    r.delta as int,
                    r.prev_curv as int,
                    r.next_curv as int,
                );
            },
            Note::Trail(r) => {
                lemma_frame_ok(
                    table,
                    r.time as int,
                    r.degree as int,
                    r.delta as int,
                    r.prev_curv as int,
                    r.next_curv as int,
                );
            },
            _ => {},
        }
        if exists|i: int| 0 <= i < k && (#[trigger] notes[i]).is_keyframe() {
            let i = choose|i: int| 0 <= i < k && (#[trigger] notes[i]).is_keyframe();
            if i < k - 1 {
                assert(notes[i].is_keyframe());
            }
        }
    }
}

/// Builds the trail track from the notes of a chart and its speed table.
#[verifier::rlimit(40)]
pub fn build_trail_track(notes: &Vec<Note>, table: &Vec<SpeedDistance>) -> (track: Vec<
    TrailDistance,
>)
    requires
        notes_ok(notes@),
        has_keyframe(notes@),
        speed_table_ok(table@),
    ensures
        track@ == trail_track(notes@, table@),
        track_ok(track@),
{
    let mut frames: Vec<TrailDistance> = Vec::new();
    let n: usize = notes.len();
    let mut i: usize = 0;
    while i < n
        invariant
            0 <= i <= n,
            n == notes.len(),
            notes_ok(notes@),
            speed_table_ok(table@),
            frames@ == keyframes(notes@, table@, i as int),
        decreases n - i,
    {
        proof {
            assert(notes@[i as int].within_limits());
        }
        match &notes[i] {
            Note::Trail(trail) => {
                let f: TrailDistance = make_frame(
                    table,
                    trail.time,
                    trail.degree,
                    trail.delta,
                    trail.prev_curv,
                    trail.next_curv,
                );
                frames.push(f);
            },
            Note::Rotate(rotate) => {
                let f: TrailDistance = make_frame(
                    table,
                    rotate.time,
                    rotate.degree,
                    rotate.delta,
                    rotate.prev_curv,
                    rotate.next_curv,
                );
                frames.push(f);
            },
            _ => {},
        }
        i = i + 1;
    }
    proof {
        lemma_keyframes(notes@, table@, n as int);
        let w = choose|w: int| 0 <= w < notes@.len() && (#[trigger] notes@[w]).is_keyframe();
        assert(notes@[w].is_keyframe());
        assert(frames@[0].within_limits());
        assert(frames@[frames@.len() - 1].within_limits());
    }
    let first: TrailDistance = frames[0];
    let last: TrailDistance = frames[frames.len() - 1];
    let ghost all_frames = frames@;
    frames.insert(0, TrailDistance::new(0, first.degree, 0, first.prev_curv, first.next_curv, 0));
    let closing: TrailDistance = make_frame(
        table,
        last.time + FAR_AHEAD,
        last.degree + last.delta,
        0,
        last.prev_curv,
        last.next_curv,
    );
    frames.push(closing);
    proof {
        assert(frames@ =~= with_sentinels(all_frames, table@));
        assert forall|j: int| 0 <= j < frames@.len() implies (#[trigger] frames@[j]).within_limits() by {
            if 1 <= j < 1 + all_frames.len() {
                assert(frames@[j] == all_frames[j - 1]);
            }
        }
        lemma_stable_sort::<TrailDistance, DistanceTimeRank>(frames@);
        lemma_stable_sort_keeps::<TrailDistance, DistanceTimeRank>(
            frames@,
            |f: TrailDistance| f.within_limits(),
        );
        lemma_ordered_by_distance::<TrailDistance>(
            stable_sort::<TrailDistance, DistanceTimeRank>(frames@),
        );
    }
    sort_by_rank::<TrailDistance, DistanceTimeRank>(&frames)
}

/// The catch that takes the place of note `i` on the device track: the first
/// catch among the note itself and the two notes after it, looking no
/// further than the first of them that lies more than `NEAR` after note `i`.
/// `j` counts the notes looked at so far.
pub open spec fn catch_ahead(notes: Seq<Note>, i: int, j: int) -> Option<Catch>
    decreases 3 - j,
{
    if j >= 3 || i + j >= notes.len() {
        None
    } else if notes[i + j].time() - notes[i].time() > NEAR {
        None
    } else if notes[i + j] is Catch {
        Some(notes[i + j]->Catch_0)
    } else {
        catch_ahead(notes, i, j + 1)
    }
}

/// A sample of the device track: it holds an angle, with no sweep.
pub open spec fn held(
    table: Seq<SpeedDistance>,
    time: int,
    degree: int,
    prev_curv: int,
    next_curv: int,
) -> TrailDistance {
    frame(table, time, degree, 0, prev_curv, next_curv)
}

/// The samples that note `i` leaves on the device track.
///
/// * Where a catch lies close ahead (`catch_ahead`), the device follows the
///   catch: one sample at the catch's time, at the trail's angle there.
/// * A tap, a flick and a slide leave their own angle, reduced by half
///   turns.
/// * A bomb leaves the trail's angle at its time, reduced by half turns.
/// * A rotation leaves three samples: its angle `ROLL` before its time, the
///   angle half way through the turn at its time, and the angle after the
///   turn `ROLL` after its time.
/// * A trail note leaves nothing.
pub open spec fn device_samples(
    notes: Seq<Note>,
    i: int,
    table: Seq<SpeedDistance>,
    trail: Seq<TrailDistance>,
) -> Seq<TrailDistance> {
    match catch_ahead(notes, i, 0) {
        Some(c) => seq![held(table, c.time as int, degree_at(trail, table, c.time as int), 0, 0)],
        None => match notes[i] {
            Note::Tap(n) => seq![
                held(table, n.time as int, trem(n.degree as int, HALF_TURN as int), 0, 0),
            ],
            Note::Flick(n) => seq![
                held(table, n.time as int, trem(n.degree as int, HALF_TURN as int), 0, 0),
            ],
            Note::Slide(n) => seq![
                held(table, n.time as int, trem(n.degree as int, HALF_TURN as int), 0, 0),
            ],
            Note::Bomb(n) => seq![
                held(
                    table,
                    n.time as int,
                    trem(degree_at(trail, table, n.time as int), HALF_TURN as int),
                    0,
                    0,
                ),
            ],
            Note::Rotate(n) => seq![
                held(
                    table,
                    n.time - ROLL,
                    trem(n.degree as int, HALF_TURN as int),
                    n.prev_curv as int,
                    n.next_curv as int,
                ),
                held(
                    table,
                    n.time as int,
                    trem(n.degree as int, HALF_TURN as int) + tdiv(n.delta as int, 2),
                    n.prev_curv as int,
                    n.next_curv as int,
                ),
                held(
                    table,
                    n.time + ROLL,
                    trem(n.degree as int, HALF_TURN as int) + n.delta,
                    n.prev_curv as int,
                    n.next_curv as int,
                ),
            ],
            _ => Seq::empty(),
        },
    }
}

/// The samples that the first `k` notes leave on the device track.
pub open spec fn device_frames(
    notes: Seq<Note>,
    table: Seq<SpeedDistance>,
    trail: Seq<TrailDistance>,
    k: int,
) -> Seq<TrailDistance>
    decreases k,
{
    if k <= 0 {
        Seq::empty()
    } else {
        device_frames(notes, table, trail, k - 1) + device_samples(notes, k - 1, table, trail)
    }
}

/// The device samples between their two sentinels: the device rests at a
/// quarter turn at time 0 and distance 0, and `SETTLE` after its last sample
/// it still holds the angle of that sample.
pub open spec fn with_rest(frames: Seq<TrailDistance>, table: Seq<SpeedDistance>) -> Seq<
    TrailDistance,
> {
    let opening = TrailDistance {
        time: 0,
        degree: QUARTER_TURN,
        delta: 0,
        prev_curv: 0,
        next_curv: 0,
        distance: 0,
    };
    let opened = seq![opening] + frames;
    let last = opened.last();
    opened.push(
        frame(
            table,
            last.time + SETTLE,
            last.degree + last.delta,
            0,
            last.prev_curv as int,
            last.next_curv as int,
        ),
    )
}

/// The device track of a chart: the samples of its notes between the two
/// sentinels, in order of distance, and of time where distances are equal.
pub open spec fn device_track(
    notes: Seq<Note>,
    table: Seq<SpeedDistance>,
    trail: Seq<TrailDistance>,
) -> Seq<TrailDistance> {
    stable_sort::<TrailDistance, DistanceTimeRank>(
        with_rest(device_frames(notes, table, trail, notes.len() as int), table),
    )
}

/// A device sample: within the limits of a keyframe, not turning, and at a
/// time that leaves room for the closing sentinel.
pub open spec fn device_sample_ok(f: TrailDistance) -> bool {
    &&& f.within_limits()
    &&& f.delta == 0
    &&& abs(f.time as int) <= TIME_LIMIT + ROLL
}

/// `catch_ahead` in executable code.
fn find_catch_ahead(notes: &Vec<Note>, i: usize) -> (r: Option<Catch>)
    requires
        i < notes.len(),
        notes_ok(notes@),
    ensures
        r == catch_ahead(notes@, i as int, 0),
        r is Some ==> abs(r->0.time as int) <= TIME_LIMIT,
{
    let time: i64 = notes[i].get_time();
    let mut j: usize = 0;
    proof {
        assert(notes@[i as int].within_limits());
    }
    while j < 3
        invariant
            0 <= j <= 3,
            i < notes.len(),
            notes_ok(notes@),
            time == notes@[i as int].time(),
            abs(time as int) <= TIME_LIMIT,
            catch_ahead(notes@, i as int, 0) == catch_ahead(notes@, i as int, j as int),
        decreases 3 - j,
    {
        if j >= notes.len() - i {
            return None;
        }
        let temp: &Note = &notes[i + j];
        proof {
            assert(notes@[i + j].within_limits());
        }
        if temp.get_time() - time > NEAR {
            return None;
        }
        if let Note::Catch(c) = temp {
            return Some(*c);
        }
        j = j + 1;
    }
    None
}

/// Makes a sample of the device track.
fn make_held(
    table: &Vec<SpeedDistance>,
    time: i64,
    degree: i64,
    prev_curv: i64,
    next_curv: i64,
) -> (f: TrailDistance)
    requires
        speed_table_ok(table@),
        abs(time as int) <= TIME_LIMIT + ROLL,
        abs(degree as int) <= 2 * ANGLE_LIMIT,
        abs(prev_curv as int) <= ANGLE_LIMIT,
        abs(next_curv as int) <= ANGLE_LIMIT,
    ensures
        f == held(table@, time as int, degree as int, prev_curv as int, next_curv as int),
        device_sample_ok(f),
{
    make_frame(table, time, degree, 0, prev_curv, next_curv)
}

/// Appends to `frames` the samples that note `i` leaves on the device track.
#[verifier::rlimit(40)]
fn push_device_samples(
    frames: &mut Vec<TrailDistance>,
    notes: &Vec<Note>,
    i: usize,
    table: &Vec<SpeedDistance>,
    trail: &Vec<TrailDistance>,
)
    requires
        i < notes.len(),
        notes_ok(notes@),
        speed_table_ok(table@),
        track_ok(trail@),
        forall|j: int| 0 <= j < old(frames)@.len() ==> device_sample_ok(#[trigger] old(frames)@[j]),
    ensures
        final(frames)@ == old(frames)@ + device_samples(notes@, i as int, table@, trail@),
        forall|j: int| 0 <= j < final(frames)@.len() ==> device_sample_ok(#[trigger] final(frames)@[j]),
{
    let ghost before = frames@;
    proof {
        assert(notes@[i as int].within_limits());
    }
    match find_catch_ahead(notes, i) {
        Some(c) => {
            let degree: i64 = find_degree_at(trail, table, c.time);
            frames.push(make_held(table, c.time, degree, 0, 0));
            assert(frames@ =~= before + device_samples(notes@, i as int, table@, trail@));
        },
        None => {
            match &notes[i] {
                Note::Tap(n) => {
                    frames.push(make_held(table, n.time, rem_trunc(n.degree, HALF_TURN), 0, 0));
                },
                Note::Flick(n) => {
                    frames.push(make_held(table, n.time, rem_trunc(n.degree, HALF_TURN), 0, 0));
                },
                Note::Slide(n) => {
                    frames.push(make_held(table, n.time, rem_trunc(n.degree, HALF_TURN), 0, 0));
                },
                Note::Bomb(n) => {
                    let degree: i64 = find_degree_at(trail, table, n.time);
                    frames.push(make_held(table, n.time, rem_trunc(degree, HALF_TURN), 0, 0));
                },
                Note::Rotate(n) => {
                    let base: i64 = rem_trunc(n.degree, HALF_TURN);
                    proof {
                        lemma_tdiv_bounds(n.delta as int, 2);
                    }
                    let half: i64 = div_trunc(n.delta as i128, 2) as i64;
                    frames.push(make_held(table, n.time - ROLL, base, n.prev_curv, n.next_curv));
                    frames.push(make_held(table, n.time, base + half, n.prev_curv, n.next_curv));
                    frames.push(
                        make_held(table, n.time + ROLL, base + n.delta, n.prev_curv, n.next_curv),
                    );
                },
                _ => {},
            }
            assert(frames@ =~= before + device_samples(notes@, i as int, table@, trail@));
        },
    }
}

/// Builds the device track from the notes of a chart, its speed table and
/// its trail track.
#[verifier::rlimit(40)]
pub fn build_device_track(
    notes: &Vec<Note>,
    table: &Vec<SpeedDistance>,
    trail: &Vec<TrailDistance>,
) -> (track: Vec<TrailDistance>)
    requires
        notes_ok(notes@),
        speed_table_ok(table@),
        track_ok(trail@),
    ensures
        track@ == device_track(notes@, table@, trail@),
        track_ok(track@),
{
    let mut frames: Vec<TrailDistance> = Vec::new();
    let n: usize = notes.len();
    let mut i: usize = 0;
    while i < n
        invariant
            0 <= i <= n,
            n == notes.len(),
            notes_ok(notes@),
            speed_table_ok(table@),
            track_ok(trail@),
            frames@ == device_frames(notes@, table@, trail@, i as int),
            forall|j: int| 0 <= j < frames@.len() ==> device_sample_ok(#[trigger] frames@[j]),
        decreases n - i,
    {
        push_device_samples(&mut frames, notes, i, table, trail);
        i = i + 1;
    }
    let ghost all_frames = frames@;
    frames.insert(0, TrailDistance::new(0, QUARTER_TURN, 0, 0, 0, 0));
    let last: TrailDistance = frames[frames.len() - 1];
    proof {
        if all_frames.len() > 0 {
            assert(last == all_frames[all_frames.len() - 1]);
            assert(device_sample_ok(last));
        }
    }
    let closing: TrailDistance = make_frame(
        table,
        last.time + SETTLE,
        last.degree + last.delta,
        0,
        last.prev_curv,
        last.next_curv,
    );
    frames.push(closing);
    proof {
        assert(frames@ =~= with_rest(all_frames, table@));
        assert forall|j: int| 0 <= j < frames@.len() implies (#[trigger] frames@[j]).within_limits() by {
            if 1 <= j < 1 + all_frames.len() {
                assert(frames@[j] == all_frames[j - 1]);
                assert(device_sample_ok(all_frames[j - 1]));
            }
        }
        lemma_stable_sort::<TrailDistance, DistanceTimeRank>(frames@);
        lemma_stable_sort_keeps::<TrailDistance, DistanceTimeRank>(
            frames@,
            |f: TrailDistance| f.within_limits(),
        );
        lemma_ordered_by_distance::<TrailDistance>(
            stable_sort::<TrailDistance, DistanceTimeRank>(frames@),
        );
    }
    sort_by_rank::<TrailDistance, DistanceTimeRank>(&frames)
}

} // verus!
