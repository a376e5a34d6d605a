use chart_engine::beat::{find_beat_at, find_time_of_beat, BEAT_UNIT};
use chart_engine::bpm::BPM;
use chart_engine::chart::{Chart, ChartProperties, Section};
use chart_engine::degree::{check_track, degree_between, find_degree_at, find_track_angle, fold};
use chart_engine::easing::{ease, FINE};
use chart_engine::fixed::{
    div_trunc, rem_floor, rem_trunc, DISTANCE_UNIT, QUERY_DISTANCE_LIMIT, TIME_UNIT, UNIT,
};
use chart_engine::hitsound::{build_hit_list, HitSound};
use chart_engine::index::{find_pos, ByDistance, ByTime, NOT_FOUND};
use chart_engine::integrate::{build_speed_table, find_distance_at};
use chart_engine::inverse::find_time_at;
use chart_engine::note::{Bomb, Catch, Flick, Note, Rotate, Slide, Tap, Trail};
use chart_engine::sort::{sort_by_rank, DistanceTimeRank, TimeRank};
use chart_engine::speed::Speed;
use chart_engine::speeddistance::SpeedDistance;
use chart_engine::trail::{build_device_track, build_trail_track};
use chart_engine::traildistance::TrailDistance;

/// A speed, a tempo, an angle or a curvature value, in thousandths.
fn fx(whole: i64) -> i64 {
    whole * UNIT
}

/// A time in milliseconds or a real time in seconds, in millionths.
fn ms(whole: i64) -> i64 {
    whole * TIME_UNIT
}

/// A progress or a control value of an ease, given in thousandths, in
/// millionths.
fn fine(thousandths: i64) -> i64 {
    thousandths * (FINE / UNIT)
}

/// A beat count, in billionths.
fn beats(whole: i64) -> i64 {
    whole * BEAT_UNIT
}

/// A distance, in counts of distance.
fn dist(whole: i64) -> i64 {
    whole * DISTANCE_UNIT
}

fn keyed(times: &[i64]) -> Vec<BPM> {
    times.iter().map(|t| BPM::new(*t, fx(120))).collect()
}

#[test]
fn index_modes_on_duplicate_keys() {
    let chart = Chart::create_empty_chart();
    let table = keyed(&[0, 0, 0, 5, 5, 10]);
    assert_eq!(chart.find_pos_by_time(&table, 0, 0), 0);
    assert_eq!(chart.find_pos_by_time(&table, 0, 1), 0);
    assert_eq!(chart.find_pos_by_time(&table, 0, 3), 3);
    assert_eq!(chart.find_pos_by_time(&table, 5, 2), 2);
}

#[test]
fn index_modes_between_and_outside_keys() {
    let table = keyed(&[0, 0, 0, 5, 5, 10]);
    // between keys
    assert_eq!(find_pos::<BPM, ByTime>(&table, 7, 0), 3);
    assert_eq!(find_pos::<BPM, ByTime>(&table, 7, 1), 5);
    assert_eq!(find_pos::<BPM, ByTime>(&table, 7, 2), 4);
    assert_eq!(find_pos::<BPM, ByTime>(&table, 7, 3), 5);
    assert_eq!(find_pos::<BPM, ByTime>(&table, 7, 4), 4);
    // on a key
    assert_eq!(find_pos::<BPM, ByTime>(&table, 5, 0), 3);
    assert_eq!(find_pos::<BPM, ByTime>(&table, 5, 1), 3);
    assert_eq!(find_pos::<BPM, ByTime>(&table, 5, 3), 5);
    assert_eq!(find_pos::<BPM, ByTime>(&table, 5, 4), 4);
    // before every key
    assert_eq!(find_pos::<BPM, ByTime>(&table, -1, 0), 0);
    assert_eq!(find_pos::<BPM, ByTime>(&table, -1, 1), 0);
    assert_eq!(find_pos::<BPM, ByTime>(&table, -1, 2), 0);
    assert_eq!(find_pos::<BPM, ByTime>(&table, -1, 3), 0);
    assert_eq!(find_pos::<BPM, ByTime>(&table, -1, 9), 0);
    // after every key
    assert_eq!(find_pos::<BPM, ByTime>(&table, 11, 0), 5);
    assert_eq!(find_pos::<BPM, ByTime>(&table, 11, 1), 5);
    assert_eq!(find_pos::<BPM, ByTime>(&table, 11, 2), 5);
    assert_eq!(find_pos::<BPM, ByTime>(&table, 11, 3), 5);
    assert_eq!(find_pos::<BPM, ByTime>(&table, 11, 9), 5);
    assert_eq!(find_pos::<BPM, ByTime>(&table, 10, 3), 5);
    assert_eq!(find_pos::<BPM, ByTime>(&table, 0, 2), 0);
}

#[test]
fn index_on_empty_table_is_not_found() {
    let chart = Chart::create_empty_chart();
    let empty: Vec<BPM> = Vec::new();
    for mode in 0..5 {
        assert_eq!(chart.find_pos_by_time(&empty, 0, mode), NOT_FOUND);
    }
    let no_frames: Vec<TrailDistance> = Vec::new();
    assert_eq!(chart.find_pos_by_distance(&no_frames, 0, 1), usize::MAX);
}

#[test]
fn index_by_distance_uses_the_distance() {
    let table = vec![
        SpeedDistance::new(0, fx(1), 0, 0),
        SpeedDistance::new(ms(10), fx(1), 0, dist(100)),
        SpeedDistance::new(ms(20), fx(1), 0, dist(300)),
    ];
    assert_eq!(find_pos::<SpeedDistance, ByDistance>(&table, dist(100), 1), 1);
    assert_eq!(find_pos::<SpeedDistance, ByDistance>(&table, dist(15), 1), 1);
    assert_eq!(find_pos::<SpeedDistance, ByTime>(&table, ms(15), 1), 2);
    assert_eq!(find_pos::<SpeedDistance, ByDistance>(&table, dist(299), 4), 1);
}

#[test]
fn integer_helpers() {
    assert_eq!(div_trunc(7, 2), 3);
    assert_eq!(div_trunc(-7, 2), -3);
    assert_eq!(rem_trunc(-190_000, 180_000), -10_000);
    assert_eq!(rem_trunc(190_000, 180_000), 10_000);
    assert_eq!(rem_floor(-10_000, 360_000), 350_000);
    assert_eq!(rem_floor(370_000, 360_000), 10_000);
    assert_eq!(rem_floor(-360_000, 360_000), 0);
}

#[test]
fn speed_table_of_no_points_is_the_seed() {
    let table = build_speed_table(&Vec::new());
    assert_eq!(table, vec![SpeedDistance::new(0, fx(1), 0, 0)]);
    assert_eq!(find_distance_at(&table, ms(2000)), dist(2000));
    assert_eq!(find_distance_at(&table, ms(-30)), dist(-30));
}

#[test]
fn speed_table_steps_and_ramps() {
    let speeds = vec![
        Speed::new(ms(1000), fx(2), 0),
        Speed::new(ms(2000), fx(4), 1),
        Speed::new(ms(2000), fx(1), 0),
        Speed::new(ms(3000), fx(0), 0),
    ];
    let table = build_speed_table(&speeds);
    assert_eq!(
        table,
        vec![
            SpeedDistance::new(0, fx(1), 0, 0),
            // rectangle under the seed's 1.0
            SpeedDistance::new(ms(1000), fx(2), 0, dist(1000)),
            // trapezoid from 2.0 to 4.0
            SpeedDistance::new(ms(2000), fx(4), 1, dist(4000)),
            // a step at the same time adds nothing
            SpeedDistance::new(ms(2000), fx(1), 0, dist(4000)),
            SpeedDistance::new(ms(3000), fx(0), 0, dist(5000)),
        ]
    );
    // linear inside a step segment
    assert_eq!(find_distance_at(&table, ms(500)), dist(500));
    // quadratic inside the ramp: 1000 + 2*500 + 500^2 * 2 / (2 * 1000)
    assert_eq!(find_distance_at(&table, ms(1500)), dist(2250));
    // after the step the later sample is in force
    assert_eq!(find_distance_at(&table, ms(2500)), dist(4500));
    // stalled after the last sample
    assert_eq!(find_distance_at(&table, ms(9000)), dist(5000));
}

#[test]
fn first_point_at_time_zero_needs_no_seed() {
    let table = build_speed_table(&vec![Speed::new(0, fx(3), 1)]);
    assert_eq!(table, vec![SpeedDistance::new(0, fx(3), 1, 0)]);
    assert_eq!(find_distance_at(&table, ms(10)), dist(30));
}

#[test]
fn time_at_inverts_distance_at() {
    let speeds = vec![
        Speed::new(ms(1000), fx(2), 0),
        Speed::new(ms(2000), fx(4), 1),
        Speed::new(ms(3000), fx(1), 0),
    ];
    let table = build_speed_table(&speeds);
    assert_eq!(find_time_at(&table, dist(500)), ms(500));
    assert_eq!(find_time_at(&table, dist(1000)), ms(1000));
    assert_eq!(find_time_at(&table, dist(2250)), ms(1500));
    assert_eq!(find_time_at(&table, dist(4000)), ms(2000));
    // past the last sample the last speed carries on
    assert_eq!(find_time_at(&table, dist(8500)), ms(3500));
    for d in (1..8000).step_by(7) {
        let d = d * (DISTANCE_UNIT / 1000) + 3;
        let back = find_distance_at(&table, find_time_at(&table, d));
        assert!((back - d).abs() <= 2 * 4 * UNIT + 1, "distance {} came back as {}", d, back);
    }
}

#[test]
fn time_at_passes_over_stalled_samples() {
    let table = vec![
        SpeedDistance::new(0, fx(1), 0, 0),
        SpeedDistance::new(ms(1000), 0, 0, dist(1000)),
    ];
    // nothing moves any more: the path stalls at the sample in force
    assert_eq!(find_time_at(&table, dist(1000)), ms(1000));
    assert_eq!(find_time_at(&table, dist(1500)), ms(1000));
    let table = vec![
        SpeedDistance::new(0, 0, 0, 0),
        SpeedDistance::new(ms(1000), fx(2), 0, 0),
    ];
    assert_eq!(find_time_at(&table, dist(100)), ms(1050));
}

#[test]
fn ease_is_linear_in_the_middle_and_exact_values() {
    // control values 0 and 0: curve x = 3t^2 - 2t^3 = y, so y follows x
    let y = ease(0, fx(100), 0, 0, fine(500));
    assert_eq!(y, 49_999);
    // the parameter stops one step short of either end
    assert_eq!(ease(fx(10), fx(20), 0, 0, 0), fx(10));
    assert_eq!(ease(fx(10), fx(20), 0, 0, FINE), 19_999);
    assert_eq!(ease(fx(20), fx(10), 0, 0, 0), fx(20));
    // with control values one third apart the curve's x is t itself:
    // y = 3t^2 - 2t^3 at t = 1/4 is 0.15625
    assert_eq!(ease(0, fx(1000), fine(333), fine(334), fine(250)), 156_512);
}

#[test]
fn degree_between_takes_the_short_way() {
    let chart = Chart::create_empty_chart();
    let from = TrailDistance::new(0, fx(350), 0, 0, 0, 0);
    let to = TrailDistance::new(ms(1000), fx(10), 0, 0, 0, dist(1000));
    // from 350 the end 10 unwraps to 370; half way is 360, folded to 0
    let mid = chart.find_degree_by_2_trails(from, to, fine(500));
    assert!(mid == 179_999 || mid == 0, "got {}", mid);
    assert_eq!(chart.find_degree_by_2_trails(from, to, 0), fx(170));
    // from 10 the end 350 unwraps to -10; the start of the ease is 10
    let back = TrailDistance::new(0, fx(10), 0, 0, 0, 0);
    let to2 = TrailDistance::new(ms(1000), fx(350), 0, 0, 0, dist(1000));
    assert_eq!(degree_between(back, to2, 0), fx(10));
    // its end is -10, reached but for a thousandth, and folded to 170
    assert_eq!(degree_between(back, to2, FINE), 170_001);
    // the sweep of the first keyframe moves the start
    let turned = TrailDistance::new(0, fx(10), fx(80), 0, 0, 0);
    let to3 = TrailDistance::new(ms(1000), fx(100), 0, 0, 0, dist(1000));
    assert_eq!(degree_between(turned, to3, 0), fx(90));
}

#[test]
fn fold_reduces_by_half_turns() {
    assert_eq!(fold(fx(190)), fx(10));
    assert_eq!(fold(fx(-10)), fx(170));
    assert_eq!(fold(fx(180)), 0);
    assert_eq!(fold(fx(360)), 0);
    assert_eq!(fold(fx(-350)), fx(10));
}

fn sample_chart() -> Chart {
    let mut chart = Chart::create_empty_chart();
    chart.version = 3;
    chart.bpm.push(BPM::new(0, fx(120)));
    chart.speed.push(Speed::new(0, fx(1), 0));
    chart.note.push(Note::Trail(Trail::new(ms(1000), fx(30), 0, fx(50), fx(50))));
    chart.note.push(Note::Tap(Tap::new(ms(500), fx(200))));
    chart.note.push(Note::Rotate(Rotate::new(ms(3000), fx(60), fx(-90), fx(50), fx(50))));
    chart.note.push(Note::Slide(Slide::new(ms(1000), fx(45), 2, fx(90), 4, 4, 0, 0)));
    chart.note.push(Note::Catch(Catch::new(ms(2000), 0)));
    chart.note.push(Note::Flick(Flick::new(ms(2500), fx(10))));
    chart.note.push(Note::Bomb(Bomb::new(ms(4000), fx(10))));
    chart
}

#[test]
fn update_sorts_and_builds_every_table() {
    let mut chart = sample_chart();
    assert!(chart.check_entries());
    chart.update();
    let times: Vec<i64> = chart.note.iter().map(|n| n.get_time()).collect();
    assert_eq!(
        times,
        vec![ms(500), ms(1000), ms(1000), ms(2000), ms(2500), ms(3000), ms(4000)]
    );
    // entries at one time keep their order: the trail note came first
    assert!(matches!(chart.note[1], Note::Trail(_)));
    assert!(matches!(chart.note[2], Note::Slide(_)));
    assert_eq!(chart.speed_distance, vec![SpeedDistance::new(0, fx(1), 0, 0)]);
    assert_eq!(
        chart.trail_distance,
        vec![
            TrailDistance::new(0, fx(30), 0, fx(50), fx(50), 0),
            TrailDistance::new(ms(1000), fx(30), 0, fx(50), fx(50), dist(1000)),
            TrailDistance::new(ms(3000), fx(60), fx(-90), fx(50), fx(50), dist(3000)),
            TrailDistance::new(ms(53000), fx(-30), 0, fx(50), fx(50), dist(53000)),
        ]
    );
    assert_eq!(chart.trail_distance_plain, chart.trail_distance);
    assert_eq!(chart.speed_distance_plain, chart.speed_distance);
    for pair in chart.phone_trail_distance.windows(2) {
        assert!(pair[0].distance <= pair[1].distance);
    }
    for pair in chart.hitsound_list.windows(2) {
        assert!(pair[0].time <= pair[1].time);
    }
}

#[test]
fn trail_holds_still_before_the_first_and_after_the_last_keyframe() {
    let mut chart = sample_chart();
    chart.update();
    assert_eq!(chart.find_degree_by_time(0), fx(30));
    assert_eq!(chart.find_degree_by_time(ms(700)), fx(30));
    assert_eq!(chart.find_degree_by_time(ms(1000)), fx(30));
    // after the rotation of -90 from 60 the trail stands at -30, that is 150
    let late = chart.find_degree_by_time(ms(20000));
    assert!((late - fx(150)).abs() <= 1 || late <= 1, "got {}", late);
    assert_eq!(chart.find_degree_by_time(ms(60000)), fx(150));
    assert_eq!(
        find_degree_at(&chart.trail_distance, &chart.speed_distance, ms(60000)),
        fx(150)
    );
}

#[test]
fn trail_eases_between_keyframes() {
    let mut chart = sample_chart();
    chart.update();
    // from 30 at 1000 ms to 60 at 3000 ms, with control values 0.5 and 0.5
    let a = chart.find_degree_by_time(ms(1500));
    let b = chart.find_degree_by_time(ms(2000));
    let c = chart.find_degree_by_time(ms(2500));
    assert!(fx(30) < a && a < b && b < c && c < fx(60));
    assert!((b - fx(45)).abs() <= 2, "got {}", b);
    let direct =
        chart.find_degree_by_2_trails(chart.trail_distance[1], chart.trail_distance[2], fine(500));
    assert_eq!(b, direct);
    assert_eq!(chart.find_degree_by_distance(dist(2000)), b);
}

#[test]
fn device_track_follows_the_rules_of_each_note() {
    let mut chart = Chart::create_empty_chart();
    chart.note.push(Note::Trail(Trail::new(0, fx(30), 0, 0, 0)));
    chart.note.push(Note::Tap(Tap::new(ms(1000), fx(200))));
    chart.note.push(Note::Flick(Flick::new(ms(2000), fx(-190))));
    chart.note.push(Note::Rotate(Rotate::new(ms(3000), fx(190), fx(-45), fx(1), fx(2))));
    chart.note.push(Note::Bomb(Bomb::new(ms(4000), 0)));
    chart.note.push(Note::Tap(Tap::new(ms(5000), fx(10))));
    chart.note.push(Note::Catch(Catch::new(ms(5050), fx(1))));
    chart.note.push(Note::Slide(Slide::new(ms(6000), fx(370), 0, 0, 1, 1, 0, 0)));
    chart.update();
    let trail_at_4000 = chart.find_degree_by_time(ms(4000));
    let trail_at_5050 = chart.find_degree_by_time(ms(5050));
    let expected = vec![
        TrailDistance::new(0, fx(90), 0, 0, 0, 0),
        TrailDistance::new(ms(1000), fx(20), 0, 0, 0, dist(1000)),
        TrailDistance::new(ms(2000), fx(-10), 0, 0, 0, dist(2000)),
        TrailDistance::new(ms(2970), fx(10), 0, fx(1), fx(2), dist(2970)),
        TrailDistance::new(ms(3000), fx(10) - 22_500, 0, fx(1), fx(2), dist(3000)),
        TrailDistance::new(ms(3030), fx(10) - fx(45), 0, fx(1), fx(2), dist(3030)),
        TrailDistance::new(ms(4000), trail_at_4000 % fx(180), 0, 0, 0, dist(4000)),
        // the tap at 5000 gives way to the catch 50 ms after it
        TrailDistance::new(ms(5050), trail_at_5050, 0, 0, 0, dist(5050)),
        // and the catch leaves its own sample
        TrailDistance::new(ms(5050), trail_at_5050, 0, 0, 0, dist(5050)),
        TrailDistance::new(ms(6000), fx(10), 0, 0, 0, dist(6000)),
        TrailDistance::new(ms(6200), fx(10), 0, 0, 0, dist(6200)),
    ];
    assert_eq!(chart.phone_trail_distance, expected);
    assert_eq!(chart.find_phone_degree_by_time(0), fx(90));
    // half way from the rest angle 90 to the tap's 20
    assert_eq!(chart.find_phone_degree_by_time(ms(500)), 55_001);
    let rebuilt = build_device_track(&chart.note, &chart.speed_distance, &chart.trail_distance);
    assert_eq!(rebuilt, chart.phone_trail_distance);
    let trail = build_trail_track(&chart.note, &chart.speed_distance);
    assert_eq!(trail, chart.trail_distance);
    // the opening sentinel stands before the first keyframe, also at time 0
    assert_eq!(trail.len(), 4);
    assert_eq!(trail[0], TrailDistance::new(0, fx(30), 0, 0, 0, 0));
    assert_eq!(trail[1], TrailDistance::new(0, fx(30), 0, 0, 0, 0));
}

#[test]
fn a_catch_too_far_ahead_does_not_take_over() {
    let mut chart = Chart::create_empty_chart();
    chart.note.push(Note::Trail(Trail::new(0, fx(30), 0, 0, 0)));
    chart.note.push(Note::Tap(Tap::new(ms(1000), fx(20))));
    chart.note.push(Note::Catch(Catch::new(ms(1100) + 1, 0)));
    chart.update();
    assert_eq!(chart.phone_trail_distance[1], TrailDistance::new(ms(1000), fx(20), 0, 0, 0, dist(1000)));
    let mut chart = Chart::create_empty_chart();
    chart.note.push(Note::Trail(Trail::new(0, fx(30), 0, 0, 0)));
    chart.note.push(Note::Tap(Tap::new(ms(1000), fx(20))));
    chart.note.push(Note::Catch(Catch::new(ms(1100), 0)));
    chart.update();
    assert_eq!(chart.phone_trail_distance[1].time, ms(1100));
}

#[test]
fn slide_synthesizes_three_ticks() {
    let mut chart = Chart::create_empty_chart();
    chart.bpm.push(BPM::new(0, fx(120)));
    chart.note.push(Note::Slide(Slide::new(ms(1000), 0, 2, 0, 4, 4, 0, 0)));
    chart.update_hitsound();
    assert_eq!(
        chart.hitsound_list,
        vec![
            HitSound::new(ms(1000), 2),
            HitSound::new(ms(1125), 2),
            HitSound::new(ms(1250), 2),
            HitSound::new(ms(1375), 2),
        ]
    );
}

#[test]
fn slide_ticks_use_the_tempo_at_the_slide() {
    let bpms = vec![BPM::new(0, fx(120)), BPM::new(ms(2000), fx(60))];
    let notes = vec![
        Note::Slide(Slide::new(ms(1999), 0, 3, 0, 2, 3, 0, 0)),
        Note::Slide(Slide::new(ms(2000), 0, 1, 0, 2, 2, 0, 0)),
    ];
    let list = build_hit_list(&notes, &bpms);
    assert_eq!(
        list,
        vec![
            HitSound::new(ms(1999), 2),
            HitSound::new(ms(2000), 2),
            HitSound::new(ms(2249), 2),
            HitSound::new(ms(2499), 2),
            HitSound::new(ms(2500), 2),
        ]
    );
}

#[test]
fn hit_sounds_by_note_kind() {
    let bpms = vec![BPM::new(0, fx(120))];
    let notes = vec![
        Note::Tap(Tap::new(ms(1), 0)),
        Note::Flick(Flick::new(ms(2), 0)),
        Note::Slide(Slide::new(ms(3), 0, 0, 0, 4, 1, 0, 0)),
        Note::Slide(Slide::new(ms(4), 0, 3, 0, 4, 0, 0, 0)),
        Note::Rotate(Rotate::new(ms(5), 0, -1, 0, 0)),
        Note::Rotate(Rotate::new(ms(6), 0, 0, 0, 0)),
        Note::Catch(Catch::new(ms(7), 0)),
        Note::Trail(Trail::new(ms(8), 0, 0, 0, 0)),
        Note::Bomb(Bomb::new(ms(9), 0)),
    ];
    let list = build_hit_list(&notes, &bpms);
    let codes: Vec<(i64, i32)> = list.iter().map(|h| (h.time, h.note_type)).collect();
    assert_eq!(
        codes,
        vec![(ms(1), 0), (ms(2), 1), (ms(3), 2), (ms(4), 2), (ms(5), 3), (ms(6), 4), (ms(7), 5)]
    );
    assert!(list.iter().all(|h| !h.played));
}

#[test]
fn reset_marks_earlier_events_as_played() {
    let mut chart = sample_chart();
    chart.update();
    chart.reset_hitsound(ms(1250));
    for h in &chart.hitsound_list {
        assert_eq!(h.played, h.time < ms(1250));
    }
    assert!(chart.hitsound_list.iter().any(|h| h.played));
    assert!(chart.hitsound_list.iter().any(|h| !h.played));
    chart.reset_hitsound(0);
    assert!(chart.hitsound_list.iter().all(|h| !h.played));
    let mut h = HitSound::new(5_000, 1);
    h.play();
    assert!(h.played);
}

#[test]
fn beats_and_time_at_120_bpm() {
    let mut chart = Chart::create_empty_chart();
    chart.bpm.push(BPM::new(0, fx(120)));
    let time = chart.beat_to_chart_time(beats(4));
    assert_eq!(time, ms(2000));
    assert_eq!(chart.chart_time_to_beat(time), beats(4));
    assert_eq!(chart.beat_to_real_time(beats(4)), ms(2));
    assert_eq!(chart.real_time_to_beat(ms(2)), beats(4));
    assert_eq!(chart.real_time_to_chart_time(ms(2)), ms(2000));
    assert_eq!(chart.chart_time_to_real_time(ms(2000)), ms(2));
    assert_eq!(chart.chart_time_to_real_time(-1_999_999), -1_999);
    assert_eq!(chart.find_bpm_by_time(ms(77)), fx(120));
    let table = build_speed_table(&chart.speed);
    assert_eq!(find_distance_at(&table, ms(2000)), dist(2000));
}

#[test]
fn beats_across_tempo_changes() {
    // tempo points at 1.0, 3.0 and 4.0 seconds; the stamps asked about are
    // billionths of a second, so 2 s is the stamp of 2000 ms
    let bpms = vec![BPM::new(ms(1), fx(60)), BPM::new(ms(3), fx(120)), BPM::new(ms(4), fx(30))];
    // nothing counts before the first tempo point
    assert_eq!(find_beat_at(&bpms, ms(500)), 0);
    assert_eq!(find_beat_at(&bpms, ms(1000)), 0);
    assert_eq!(find_beat_at(&bpms, ms(2000)), beats(1));
    assert_eq!(find_beat_at(&bpms, ms(3000)), beats(2));
    assert_eq!(find_beat_at(&bpms, ms(3500)), beats(3));
    assert_eq!(find_beat_at(&bpms, ms(4000)), beats(4));
    assert_eq!(find_beat_at(&bpms, ms(6000)), beats(5));
    assert_eq!(find_time_of_beat(&bpms, -1_000), 0);
    assert_eq!(find_time_of_beat(&bpms, 0), ms(1000));
    assert_eq!(find_time_of_beat(&bpms, beats(1)), ms(2000));
    assert_eq!(find_time_of_beat(&bpms, beats(2)), ms(3000));
    assert_eq!(find_time_of_beat(&bpms, beats(3)), ms(3500));
    assert_eq!(find_time_of_beat(&bpms, beats(4)), ms(4000));
    assert_eq!(find_time_of_beat(&bpms, beats(5)), ms(6000));
    assert_eq!(find_time_of_beat(&Vec::new(), beats(5)), 0);
    assert_eq!(find_beat_at(&Vec::new(), ms(5)), 0);
    for k in 0..bpms.len() {
        let stamp = bpms[k].time * 1000;
        let beat = find_beat_at(&bpms, stamp);
        assert_eq!(find_time_of_beat(&bpms, beat), stamp);
    }
}

#[test]
fn tempo_times_are_read_in_the_unit_of_the_time_asked_about() {
    let mut chart = Chart::create_empty_chart();
    chart.bpm = vec![BPM::new(0, fx(120)), BPM::new(ms(2), fx(60))];
    // two seconds at 120 beats a minute, then one second at 60
    assert_eq!(chart.real_time_to_beat(ms(2)), beats(4));
    assert_eq!(chart.real_time_to_beat(ms(3)), beats(5));
    assert_eq!(chart.beat_to_real_time(beats(5)), ms(3));
    assert_eq!(chart.beat_to_real_time(beats(4)), ms(2));
    assert_eq!(chart.real_time_to_beat(ms(1)), beats(2));
    // a chart time is asked about as the real time it stands for
    assert_eq!(chart.chart_time_to_beat(ms(2000)), beats(4));
    assert_eq!(chart.chart_time_to_beat(ms(3000)), beats(5));
    assert_eq!(chart.chart_time_to_beat(ms(2)), beats(4) / 1000);
    assert_eq!(chart.beat_to_chart_time(beats(5)), ms(3000));
    // the tempo in effect at a chart time reads the same times as chart times
    assert_eq!(chart.find_bpm_by_time(ms(2)), fx(60));
    assert_eq!(chart.find_bpm_by_time(ms(2) - 1), fx(120));
}

#[test]
fn tempo_in_effect_is_the_first_of_its_run() {
    let mut chart = Chart::create_empty_chart();
    chart.bpm.push(BPM::new(0, fx(100)));
    chart.bpm.push(BPM::new(ms(10), fx(110)));
    chart.bpm.push(BPM::new(ms(10), fx(120)));
    chart.bpm.push(BPM::new(ms(20), fx(130)));
    assert_eq!(chart.find_bpm_by_time(-5_000), fx(100));
    assert_eq!(chart.find_bpm_by_time(ms(10)), fx(110));
    assert_eq!(chart.find_bpm_by_time(ms(15)), fx(110));
    assert_eq!(chart.find_bpm_by_time(ms(25)), fx(130));
    assert_eq!(BPM::new(ms(2500), fx(120)).real_time(), 2_500_000);
}

#[test]
fn speed_in_force() {
    let mut chart = Chart::create_empty_chart();
    chart.speed.push(Speed::new(0, fx(1), 0));
    chart.speed.push(Speed::new(ms(10), fx(2), 0));
    chart.speed.push(Speed::new(ms(10), fx(3), 0));
    assert_eq!(chart.find_speed_by_time(-1_000), fx(1));
    assert_eq!(chart.find_speed_by_time(ms(5)), fx(1));
    assert_eq!(chart.find_speed_by_time(ms(10)), fx(3));
    assert_eq!(chart.find_speed_by_time(ms(99)), fx(3));
}

#[test]
fn sorting_is_stable() {
    let notes = vec![
        Note::Tap(Tap::new(ms(3), 1)),
        Note::Tap(Tap::new(ms(1), 2)),
        Note::Flick(Flick::new(ms(3), 3)),
        Note::Tap(Tap::new(ms(1), 4)),
        Note::Tap(Tap::new(ms(2), 5)),
    ];
    let sorted = sort_by_rank::<Note, TimeRank>(&notes);
    assert_eq!(
        sorted,
        vec![
            Note::Tap(Tap::new(ms(1), 2)),
            Note::Tap(Tap::new(ms(1), 4)),
            Note::Tap(Tap::new(ms(2), 5)),
            Note::Tap(Tap::new(ms(3), 1)),
            Note::Flick(Flick::new(ms(3), 3)),
        ]
    );
    let frames = vec![
        TrailDistance::new(ms(9), 1, 0, 0, 0, dist(5)),
        TrailDistance::new(ms(2), 2, 0, 0, 0, dist(5)),
        TrailDistance::new(ms(7), 3, 0, 0, 0, dist(1)),
        TrailDistance::new(ms(2), 4, 0, 0, 0, dist(5)),
    ];
    let sorted = sort_by_rank::<TrailDistance, DistanceTimeRank>(&frames);
    let degrees: Vec<i64> = sorted.iter().map(|f| f.degree).collect();
    assert_eq!(degrees, vec![3, 2, 4, 1]);
    let mut chart = Chart::create_empty_chart();
    chart.note = notes;
    chart.bpm = vec![BPM::new(ms(2), fx(1)), BPM::new(ms(1), fx(1))];
    chart.sort_chart();
    assert_eq!(chart.bpm[0].time, ms(1));
    assert_eq!(chart.note[0], Note::Tap(Tap::new(ms(1), 2)));
}

#[test]
fn plain_chart_runs_at_unit_speed() {
    let mut chart = sample_chart();
    chart.speed = vec![Speed::new(0, fx(2), 0)];
    chart.update();
    assert_eq!(chart.find_distance_by_time(ms(1000)), dist(2000));
    assert_eq!(chart.find_time_by_distance(dist(2000)), ms(1000));
    let plain = chart.get_plain_chart();
    assert_eq!(plain.speed, vec![Speed::new(0, fx(1), 0)]);
    assert_eq!(plain.find_distance_by_time(ms(1000)), dist(1000));
    assert_eq!(plain.trail_distance, chart.trail_distance_plain);
    assert_eq!(plain.trail_distance[1].distance, dist(1000));
    assert_eq!(chart.trail_distance[1].distance, dist(2000));
    assert_eq!(plain.note, chart.note);
    assert_eq!(plain.version, 3);
}

#[test]
fn entries_are_checked_against_the_limits() {
    let mut chart = Chart::create_empty_chart();
    // no keyframe
    assert!(!chart.check_entries());
    chart.note.push(Note::Trail(Trail::new(0, 0, 0, 0, 0)));
    assert!(chart.check_entries());
    // a ticking slide needs a tempo
    chart.note.push(Note::Slide(Slide::new(0, 0, 0, 0, 4, 2, 0, 0)));
    assert!(!chart.check_entries());
    chart.bpm.push(BPM::new(0, fx(120)));
    assert!(chart.check_entries());
    // and a positive snap
    chart.note.push(Note::Slide(Slide::new(0, 0, 0, 0, 0, 2, 0, 0)));
    assert!(!chart.check_entries());
    chart.note.pop();
    chart.bpm.push(BPM::new(0, 0));
    assert!(!chart.check_entries());
    chart.bpm.pop();
    chart.speed.push(Speed::new(-1_000, fx(1), 0));
    assert!(!chart.check_entries());
    chart.speed.pop();
    chart.note.push(Note::Tap(Tap::new(i64::MAX, 0)));
    assert!(!chart.check_entries());
}

#[test]
fn properties_and_sections() {
    let p = ChartProperties::new();
    assert_eq!(p, ChartProperties::init(0, 0, 0, 0, 0, 0));
    let q = ChartProperties::init(1, 2, 3, 4, 5, 6);
    assert_eq!((q.start_chart_time, q.end_chart_time, q.start_distance), (1, 2, 3));
    assert_eq!((q.end_distance, q.show_distance, q.cur_degree), (4, 5, 6));
    assert_ne!(Section::NoSection, Section::BpmSection);
    assert_ne!(Section::SpeedSection, Section::NoteSection);
    let chart = Chart::create_empty_chart();
    assert_eq!(chart.get_y_from_x(0, fx(10), 0, 0, 0), 0);
}

#[test]
fn distances_never_decrease_on_a_forward_chart() {
    let speeds = vec![
        Speed::new(ms(10), fx(3), 1),
        Speed::new(ms(10), 0, 0),
        Speed::new(ms(500), 0, 1),
        Speed::new(ms(700), 7, 1),
        Speed::new(ms(900), fx(2), 0),
    ];
    let table = build_speed_table(&speeds);
    for pair in table.windows(2) {
        assert!(pair[0].time <= pair[1].time);
        assert!(pair[0].distance <= pair[1].distance);
    }
    // a chart that scrolls backwards loses distance
    let back = build_speed_table(&vec![Speed::new(0, fx(-1), 0), Speed::new(ms(1000), fx(1), 0)]);
    assert_eq!(back[1].distance, dist(-1000));
}

#[test]
fn time_comes_back_from_its_distance() {
    let speeds = vec![
        Speed::new(0, 500, 0),
        Speed::new(ms(1000), fx(2), 1),
        Speed::new(ms(2000), 250, 0),
        Speed::new(ms(3000), fx(1), 1),
    ];
    let table = build_speed_table(&speeds);
    // every speed is above zero, so a time comes back as it went
    for t in (1..2999).step_by(13) {
        let t = t * TIME_UNIT + 7;
        let back = find_time_at(&table, find_distance_at(&table, t));
        assert_eq!(back, t);
    }
    for sample in &table {
        assert_eq!(find_time_at(&table, sample.distance), sample.time);
    }
}

#[test]
fn the_trail_is_continuous_where_segments_meet() {
    // across the 0/360 wrap: 350 -> 10 -> 40, and 10 -> 350 -> 340
    let tracks = [
        [fx(350), fx(10), fx(40)],
        [fx(10), fx(350), fx(340)],
        [fx(170), fx(190), fx(200)],
        [fx(0), fx(180), fx(359)],
        [fx(90), fx(-90), fx(725)],
    ];
    for degrees in tracks {
        for (curv_in, curv_out) in [(0, 0), (fx(50), fx(50)), (fx(100), fx(20)), (fx(33), fx(100))] {
            let a = TrailDistance::new(0, degrees[0], 0, curv_in, curv_out, 0);
            let b = TrailDistance::new(ms(1000), degrees[1], 0, curv_in, curv_out, dist(1000));
            let c = TrailDistance::new(ms(2000), degrees[2], 0, curv_in, curv_out, dist(2000));
            let end = degree_between(a, b, FINE);
            let start = degree_between(b, c, 0);
            let gap = (end - start).abs().min(fx(180) - (end - start).abs());
            assert!(gap <= 1, "{:?}: {} and {}", degrees, end, start);
            assert_eq!(start, fold(degrees[1]));
            // a millionth and a ten-thousandth of progress from the keyframe
            for (eps, bound) in [(1, 650), (100, 13_978)] {
                let before = degree_between(a, b, FINE - eps);
                let after = degree_between(b, c, eps);
                let gap = (before - after).abs().min(fx(180) - (before - after).abs());
                assert!(gap <= bound, "{:?} at {}: {} and {}", degrees, eps, before, after);
            }
        }
    }
    // a keyframe that turns makes the trail jump by its sweep
    let a = TrailDistance::new(0, 0, 0, 0, 0, 0);
    let b = TrailDistance::new(ms(1000), fx(10), fx(90), 0, 0, dist(1000));
    let c = TrailDistance::new(ms(2000), fx(100), 0, 0, 0, dist(2000));
    assert_eq!(degree_between(b, c, 0), fx(100));
    assert!((degree_between(a, b, FINE) - fx(10)).abs() <= 1);
}

#[test]
fn a_built_chart_is_ready() {
    let mut chart = sample_chart();
    assert!(!chart.check_ready());
    chart.update();
    assert!(chart.check_ready());
    // a sample that does not continue the integration spoils the table
    chart.speed = vec![Speed::new(0, fx(1), 0), Speed::new(ms(1000), fx(2), 0)];
    chart.update();
    assert!(chart.check_ready());
    chart.speed_distance[1].distance += 1;
    assert!(!chart.check_ready());
    chart.speed_distance[1].distance -= 1;
    assert!(chart.check_ready());
    chart.trail_distance.swap(0, 1);
    assert!(!chart.check_ready());
    chart.trail_distance.swap(0, 1);
    chart.bpm.push(BPM::new(-5_000, fx(100)));
    assert!(!chart.check_ready());
}

#[test]
fn sorting_a_sorted_chart_changes_nothing() {
    let mut chart = sample_chart();
    chart.update();
    let before = chart.clone();
    chart.sort_chart();
    assert_eq!(chart, before);
    chart.update();
    assert_eq!(chart, before);
}

#[test]
fn a_segment_without_length_is_a_point() {
    // two keyframes at one distance, asked about from before both
    let track = vec![
        TrailDistance::new(0, fx(10), 0, 0, 0, dist(5)),
        TrailDistance::new(ms(10), fx(20), 0, 0, 0, dist(5)),
        TrailDistance::new(ms(20), fx(30), 0, 0, 0, dist(9)),
    ];
    assert!(check_track(&track));
    assert_eq!(find_track_angle(&track, 0, ms(5)), fx(10));
    // at their distance the later one is in force
    assert_eq!(find_track_angle(&track, dist(5), ms(10)), fx(20));
    assert_eq!(find_track_angle(&track, dist(5), ms(11)), fx(20));
    // before both, and after the time of the first: its angle, folded
    let wide = vec![
        TrailDistance::new(0, fx(400), 0, 0, 0, dist(5)),
        TrailDistance::new(ms(10), fx(20), 0, 0, 0, dist(5)),
    ];
    assert_eq!(find_track_angle(&wide, 0, ms(5)), fx(40));
    assert_eq!(find_track_angle(&wide, 0, 0), fx(400));
    // at or before the time of the keyframe in force its angle stands as it is
    let track = vec![
        TrailDistance::new(0, fx(400), fx(5), 0, 0, 0),
        TrailDistance::new(ms(10), fx(20), 0, 0, 0, dist(10)),
    ];
    assert_eq!(find_track_angle(&track, dist(3), 0), fx(400));
    assert_eq!(find_track_angle(&track, dist(3), -5_000), fx(400));
    // after the last keyframe the trail stands at the angle it turned to
    assert_eq!(find_track_angle(&track, dist(50), ms(50)), fx(20));
    let turned = vec![TrailDistance::new(0, fx(400), fx(-50), 0, 0, 0)];
    assert_eq!(find_track_angle(&turned, dist(50), ms(50)), fx(170));
    assert!(!check_track(&Vec::new()));
}

#[test]
fn samples_at_one_time_do_not_break_the_ramp() {
    // a smooth sample at the time of the sample before it: no ramp to ride
    let table = vec![
        SpeedDistance::new(0, fx(1), 0, 0),
        SpeedDistance::new(0, fx(3), 1, 0),
        SpeedDistance::new(ms(10), fx(3), 0, dist(30)),
    ];
    assert_eq!(find_distance_at(&table, 0), 0);
    assert_eq!(find_distance_at(&table, ms(5)), dist(15));
    assert_eq!(find_time_at(&table, dist(15)), ms(5));
    assert_eq!(find_time_at(&table, 0), 0);
}

#[test]
fn the_ease_rises_with_the_progress() {
    for (a, b) in [(0, 0), (500, 500), (1000, 0), (0, 1000), (250, 900)] {
        let mut last = ease(0, fx(1000), fine(a), fine(b), 0);
        assert_eq!(last, 0);
        for x in 1..=1000 {
            let y = ease(0, fx(1000), fine(a), fine(b), fine(x));
            assert!(last <= y && y <= fx(1000), "controls {} {}: {} then {}", a, b, last, y);
            last = y;
        }
        assert!(last >= fx(1000) - 1);
    }
}

#[test]
fn a_slide_head_sounds_as_a_slide_whatever_its_kind() {
    let bpms = vec![BPM::new(0, fx(120))];
    for kind in [0, 1, 2, 3, 7, -1] {
        let notes = vec![Note::Slide(Slide::new(ms(40), 0, kind, 0, 4, 1, 0, 0))];
        assert_eq!(build_hit_list(&notes, &bpms), vec![HitSound::new(ms(40), 2)]);
    }
    let mut chart = Chart::create_empty_chart();
    chart.note.push(Note::Slide(Slide::new(ms(40), 0, 0, 0, 4, 1, 0, 0)));
    chart.update_hitsound();
    assert_eq!(chart.hitsound_list.len(), 1);
    assert_eq!(chart.hitsound_list[0].note_type, 2);
}

#[test]
fn a_small_distance_comes_back_at_a_fast_speed() {
    let table = build_speed_table(&vec![Speed::new(0, fx(3), 0), Speed::new(ms(1000), fx(3), 0)]);
    // 0.002 of a distance unit at speed 3.0
    let d = DISTANCE_UNIT / 500;
    let t = find_time_at(&table, d);
    assert_eq!(t, 666);
    let back = find_distance_at(&table, t);
    assert_eq!(back, 3_996_000);
    assert!((back - d).abs() * 1000 <= DISTANCE_UNIT);
    // the error stays under a ten-thousandth of a unit at every distance
    for k in 1..3000 {
        let d = k * DISTANCE_UNIT + k * 7_919;
        let back = find_distance_at(&table, find_time_at(&table, d));
        assert!((back - d).abs() <= 2 * 3 * UNIT + 1, "distance {} came back as {}", d, back);
    }
}

#[test]
fn a_short_time_comes_back_at_a_slow_speed() {
    let table = build_speed_table(&vec![Speed::new(0, 1, 0), Speed::new(ms(1000), 1, 0)]);
    // half a millisecond at speed 0.001
    let t = TIME_UNIT / 2;
    let d = find_distance_at(&table, t);
    assert_eq!(d, 1_000_000);
    assert_eq!(find_time_at(&table, d), t);
    for t in [1, 2, 999, 1_000_001, ms(999) + 999_999] {
        assert_eq!(find_time_at(&table, find_distance_at(&table, t)), t);
    }
}

#[test]
fn a_time_comes_back_from_its_beat() {
    let mut chart = Chart::create_empty_chart();
    chart.bpm.push(BPM::new(0, fx(1)));
    // half a second at one beat a minute
    let real = TIME_UNIT / 2;
    let beat = chart.real_time_to_beat(real);
    assert_eq!(beat, 8_333_333);
    let back = chart.beat_to_real_time(beat);
    assert_eq!(back, 499_999);
    // half a millisecond of chart time
    let beat = chart.chart_time_to_beat(TIME_UNIT / 2);
    assert_eq!(beat, 8_333);
    assert_eq!(chart.beat_to_chart_time(beat), 499_980);
    let bpms = vec![BPM::new(0, fx(173)), BPM::new(ms(2) + 1, fx(1)), BPM::new(ms(5), 9_999_999)];
    for k in 0..4000 {
        let t = k * 2_718_281 + k;
        let back = find_time_of_beat(&bpms, find_beat_at(&bpms, t));
        // a count of the beat lasts 60 billionths of a second at the slowest tempo
        assert!(0 <= t - back && t - back <= 60, "time {} came back as {}", t, back);
    }
}

#[test]
fn a_distance_is_checked_before_its_angle_is_asked() {
    let mut chart = sample_chart();
    chart.update();
    assert!(chart.check_distance(dist(2000)));
    assert!(chart.check_distance(dist(-2000)));
    // at speed 1.0 the far end of the distances lies beyond the times
    assert!(!chart.check_distance(QUERY_DISTANCE_LIMIT));
    assert!(!chart.check_distance(-QUERY_DISTANCE_LIMIT));
    assert!(chart.check_distance(dist(20_000_000)));
    assert!(!chart.check_distance(dist(20_000_000) + 2 * UNIT));
}

#[test]
fn straight_eases_meet_near_a_keyframe() {
    // across the 0/360 wrap and back, with all curvature values 0
    let tracks = [
        [fx(350), fx(10), fx(40)],
        [fx(10), fx(350), fx(340)],
        [fx(170), fx(190), fx(200)],
        [fx(0), fx(180), fx(359)],
        [fx(90), fx(-90), fx(725)],
        [fx(0), fx(270), fx(0)],
    ];
    for degrees in tracks {
        let a = TrailDistance::new(0, degrees[0], 0, 0, 0, 0);
        let b = TrailDistance::new(ms(1000), degrees[1], 0, 0, 0, dist(1000));
        let c = TrailDistance::new(ms(2000), degrees[2], 0, 0, 0, dist(2000));
        for eps in [0, 1, 7, 100, 1_000, 50_000, 500_000] {
            let before = degree_between(a, b, FINE - eps);
            let after = degree_between(b, c, eps);
            let gap = (before - after).abs().min(fx(180) - (before - after).abs());
            assert!(
                1000 * gap <= 2160 * eps + 12_000,
                "{:?} at {}: {} and {}",
                degrees,
                eps,
                before,
                after
            );
        }
    }
    // half way along a straight ease of 90 degrees
    let a = TrailDistance::new(0, fx(10), 0, 0, 0, 0);
    let b = TrailDistance::new(ms(1000), fx(100), 0, 0, 0, dist(1000));
    assert!((degree_between(a, b, fine(500)) - fx(55)).abs() <= 6);
    assert!((degree_between(a, b, fine(999)) - 99_910).abs() <= 6);
    // a ten-thousandth of progress before the keyframe
    assert!((degree_between(a, b, FINE - 100) - 99_991).abs() <= 6);
}

#[test]
fn the_tables_are_built_without_a_tempo() {
    let mut chart = Chart::create_empty_chart();
    chart.speed.push(Speed::new(ms(1000), fx(2), 0));
    chart.note.push(Note::Slide(Slide::new(ms(500), 0, 0, 0, 4, 3, 0, 0)));
    chart.note.push(Note::Trail(Trail::new(ms(200), fx(30), 0, 0, 0)));
    // a slide that ticks needs a tempo for its hit events, not for the tables
    assert!(!chart.check_entries());
    assert!(chart.check_scroll());
    chart.distance_preprocessing();
    assert_eq!(chart.speed_distance.len(), 2);
    assert_eq!(chart.trail_distance.len(), 3);
    assert_eq!(chart.trail_distance[1], TrailDistance::new(ms(200), fx(30), 0, 0, 0, dist(200)));
    assert!(matches!(chart.note[0], Note::Trail(_)));
    assert_eq!(chart.find_distance_by_time(ms(2000)), dist(3000));
    assert_eq!(chart.find_degree_by_time(ms(700)), fx(30));
    // a tempo beyond the limits does not matter here either
    chart.bpm.push(BPM::new(0, 0));
    assert!(chart.check_scroll());
    chart.distance_preprocessing();
    assert_eq!(chart.speed_distance.len(), 2);
    // but a chart without a keyframe has no trail
    chart.note.remove(0);
    assert!(!chart.check_scroll());
}
