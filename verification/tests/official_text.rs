use chart_engine::bpm::BPM;
use chart_engine::chart::Chart;
use chart_engine::note::{
    shape_of_code, Bomb, Catch, Flick, Note, NoteShape, Rotate, Slide, Tap, Trail,
};
use chart_engine::official::{parse_official, write_official, LoadError};
use chart_engine::speed::Speed;
use chart_engine::text::{
    push_decimal, push_integer, push_time, read_decimal, read_integer, read_time,
};

fn decimal(s: &str) -> Option<i64> {
    read_decimal(s.as_bytes(), 0, s.len())
}

fn integer(s: &str) -> Option<i32> {
    read_integer(s.as_bytes(), 0, s.len())
}

fn shown(v: i64) -> String {
    let mut out = Vec::new();
    push_decimal(&mut out, v);
    String::from_utf8(out).unwrap()
}

#[test]
fn decimals_are_read_in_thousandths() {
    assert_eq!(decimal("0"), Some(0));
    assert_eq!(decimal("120"), Some(120_000));
    assert_eq!(decimal("187.5"), Some(187_500));
    assert_eq!(decimal("-0.25"), Some(-250));
    assert_eq!(decimal("+3.001"), Some(3_001));
    assert_eq!(decimal(".5"), Some(500));
    assert_eq!(decimal("5."), Some(5_000));
    assert_eq!(decimal("-.5"), Some(-500));
    assert_eq!(decimal("007.010"), Some(7_010));
    // digits past the third decimal are dropped
    assert_eq!(decimal("0.33333334"), Some(333));
    assert_eq!(decimal("-1.9999"), Some(-1_999));
}

fn time(s: &str) -> Option<i64> {
    read_time(s.as_bytes(), 0, s.len())
}

fn shown_time(v: i64) -> String {
    let mut out = Vec::new();
    push_time(&mut out, v);
    String::from_utf8(out).unwrap()
}

#[test]
fn times_are_read_in_millionths() {
    assert_eq!(time("0"), Some(0));
    assert_eq!(time("1000.5"), Some(1_000_500_000));
    assert_eq!(time("0.000001"), Some(1));
    assert_eq!(time("-0.000001"), Some(-1));
    assert_eq!(time("12.3456789"), Some(12_345_678));
    assert_eq!(time(".25"), Some(250_000));
    assert_eq!(time("9223372036854.775807"), Some(i64::MAX));
    assert_eq!(time("9223372036854.775808"), None);
    assert_eq!(time("-9223372036854.775808"), Some(i64::MIN));
    for bad in ["", "-", ".", "1.2.3", "1e", " 1"] {
        assert_eq!(time(bad), None, "{:?}", bad);
    }
}

#[test]
fn an_exponent_moves_the_point() {
    assert_eq!(decimal("1e3"), Some(1_000_000));
    assert_eq!(decimal("1E3"), Some(1_000_000));
    assert_eq!(decimal("1e+2"), Some(100_000));
    assert_eq!(decimal("1.5E-2"), Some(15));
    assert_eq!(decimal("12345e-4"), Some(1_234));
    assert_eq!(decimal(".5e1"), Some(5_000));
    assert_eq!(decimal("5.e1"), Some(50_000));
    assert_eq!(decimal("-2.5e1"), Some(-25_000));
    assert_eq!(decimal("+187.5e0"), Some(187_500));
    assert_eq!(decimal("0.000123e4"), Some(1_230));
    assert_eq!(decimal("-0.0009e0"), Some(0));
    // at the edge of the range
    assert_eq!(decimal("9e15"), Some(9_000_000_000_000_000_000));
    assert_eq!(decimal("9223372036854775807e-3"), Some(i64::MAX));
    assert_eq!(decimal("-9223372036854775808e-3"), Some(i64::MIN));
    assert_eq!(decimal("9223372036854775808e-3"), None);
    assert_eq!(decimal("1e16"), None);
    assert_eq!(decimal("-1e16"), None);
    assert_eq!(decimal("1e2147483647"), None);
    // nothing is left of a small number, and zero stays zero
    assert_eq!(decimal("1e-999"), Some(0));
    assert_eq!(decimal("123456e-2147483648"), Some(0));
    assert_eq!(decimal("0e999"), Some(0));
    assert_eq!(decimal("0.0e2147483647"), Some(0));
    assert_eq!(decimal("99999999999999999999999999999999e-30"), Some(99_999));
    for bad in ["1e", "e5", "1e5e", "1e1.5", "1e-", "1.2.3e1", "1 e1", ".e1", "-e1", "1e99999999999", "1ee1"] {
        assert_eq!(decimal(bad), None, "{:?}", bad);
    }
    assert_eq!(time("1.5e3"), Some(1_500_000_000));
    assert_eq!(time("25e-7"), Some(2));
    assert_eq!(time("2.5e-7"), Some(0));
    assert_eq!(time("-1234567e-3"), Some(-1_234_567_000));
    assert_eq!(time("1e13"), None);
    let (chart, _) = parse_official(b"# BPM\n1e3,1.2e2\n# Speed\n0,25e-1,1\n").unwrap();
    assert_eq!(chart.bpm, vec![BPM::new(1_000_000_000, 120_000)]);
    assert_eq!(chart.speed, vec![Speed::new(0, 2_500, 1)]);
}

#[test]
fn times_are_written_with_three_or_six_decimals_at_most() {
    assert_eq!(shown_time(0), "0");
    assert_eq!(shown_time(1_000_500_000), "1000.5");
    assert_eq!(shown_time(30_000_000_000), "30000");
    assert_eq!(shown_time(1), "0.000001");
    assert_eq!(shown_time(-1_500), "-0.001500");
    assert_eq!(shown_time(250_000), "0.25");
    assert_eq!(shown_time(12_345_678), "12.345678");
    assert_eq!(shown_time(i64::MIN), "-9223372036854.775808");
    let mut v: i64 = 1;
    for _ in 0..200 {
        for x in [v, -v, v + 1, v * 1000, i64::MAX - v, i64::MIN + v] {
            assert_eq!(time(&shown_time(x)), Some(x));
        }
        v = v.wrapping_mul(31).wrapping_add(7) & 0x0fff_ffff_ffff;
    }
}

#[test]
fn what_is_no_decimal_is_refused() {
    for bad in ["", "-", "+", ".", "-.", "1.2.3", "1,5", " 1", "1 ", "abc", "--1", "1-", "0x10", "inf", "NaN"] {
        assert_eq!(decimal(bad), None, "{:?}", bad);
    }
}

#[test]
fn decimals_at_the_edge_of_the_range() {
    assert_eq!(decimal("9223372036854775.807"), Some(i64::MAX));
    assert_eq!(decimal("9223372036854775.808"), None);
    assert_eq!(decimal("-9223372036854775.808"), Some(i64::MIN));
    assert_eq!(decimal("-9223372036854775.809"), None);
    assert_eq!(decimal("9223372036854776"), None);
    assert_eq!(decimal("99999999999999999999999999999999999999999999"), None);
    assert_eq!(decimal("-99999999999999999999999999999999999999999999.5"), None);
    assert_eq!(decimal("00000000000000000000000000000000000000000001"), Some(1_000));
}

#[test]
fn integers_are_read() {
    assert_eq!(integer("0"), Some(0));
    assert_eq!(integer("11"), Some(11));
    assert_eq!(integer("-4"), Some(-4));
    assert_eq!(integer("+4"), Some(4));
    assert_eq!(integer("2147483647"), Some(i32::MAX));
    assert_eq!(integer("2147483648"), None);
    assert_eq!(integer("-2147483648"), Some(i32::MIN));
    assert_eq!(integer("-2147483649"), None);
    assert_eq!(integer("99999999999999999999"), None);
    for bad in ["", "-", "1.0", "1 ", "a", "1,2"] {
        assert_eq!(integer(bad), None, "{:?}", bad);
    }
}

#[test]
fn decimals_are_written_without_trailing_zeros() {
    assert_eq!(shown(0), "0");
    assert_eq!(shown(120_000), "120");
    assert_eq!(shown(187_500), "187.5");
    assert_eq!(shown(-250), "-0.25");
    assert_eq!(shown(3_001), "3.001");
    assert_eq!(shown(-1), "-0.001");
    assert_eq!(shown(10), "0.01");
    assert_eq!(shown(i64::MAX), "9223372036854775.807");
    assert_eq!(shown(i64::MIN), "-9223372036854775.808");
    let mut out = Vec::new();
    push_integer(&mut out, i32::MIN);
    out.push(b' ');
    push_integer(&mut out, 0);
    out.push(b' ');
    push_integer(&mut out, 1234);
    assert_eq!(out, b"-2147483648 0 1234".to_vec());
}

#[test]
fn written_numbers_read_back() {
    let mut v: i64 = 1;
    for _ in 0..200 {
        for x in [v, -v, v + 1, v * 1000, i64::MAX - v, i64::MIN + v] {
            assert_eq!(decimal(&shown(x)), Some(x));
        }
        v = v.wrapping_mul(31).wrapping_add(7) & 0x0fff_ffff_ffff;
    }
    for x in [0, 1, -1, i32::MAX, i32::MIN, 11] {
        let mut out = Vec::new();
        push_integer(&mut out, x);
        assert_eq!(read_integer(&out, 0, out.len()), Some(x));
    }
}

const TEXT: &str = "# Version 2\n\n# BPM\n0,120\n30000,187.5\n\n# Speed\n0,1,0\n1000.5,2.25,1\n\n# Note\n0,1000,90\n1,2000,-45.5\n2,3000,10,3,350,4,8,50,50\n4,4000,0,-90,30,70\n5,5000,1\n6,6000,12\n11,0,30,0,50,50\n";

fn expected_notes() -> Vec<Note> {
    vec![
        Note::Tap(Tap::new(1_000_000_000, 90_000)),
        Note::Flick(Flick::new(2_000_000_000, -45_500)),
        Note::Slide(Slide::new(3_000_000_000, 10_000, 3, 350_000, 4, 8, 50_000, 50_000)),
        Note::Rotate(Rotate::new(4_000_000_000, 0, -90_000, 30_000, 70_000)),
        Note::Catch(Catch::new(5_000_000_000, 1_000)),
        Note::Bomb(Bomb::new(6_000_000_000, 12_000)),
        Note::Trail(Trail::new(0, 30_000, 0, 50_000, 50_000)),
    ]
}

#[test]
fn a_chart_text_is_read() {
    let (chart, skipped) = parse_official(TEXT.as_bytes()).unwrap();
    assert_eq!(chart.version, 2);
    assert_eq!(chart.offset, 0);
    assert_eq!(chart.bpm, vec![BPM::new(0, 120_000), BPM::new(30_000_000_000, 187_500)]);
    assert_eq!(chart.speed, vec![Speed::new(0, 1_000, 0), Speed::new(1_000_500_000, 2_250, 1)]);
    assert_eq!(chart.note, expected_notes());
    // the empty lines that close the tempo and the speed section
    assert_eq!(skipped, vec![6, 10]);
    assert!(chart.speed_distance.is_empty());
    assert!(chart.hitsound_list.is_empty());
}

#[test]
fn carriage_returns_and_a_missing_last_line_end() {
    let text = "# Version 7\r\n# BPM\r\n0,120\r\n# Note\r\n0,1,2";
    let (chart, skipped) = parse_official(text.as_bytes()).unwrap();
    assert_eq!(chart.version, 7);
    assert_eq!(chart.bpm, vec![BPM::new(0, 120_000)]);
    assert_eq!(chart.note, vec![Note::Tap(Tap::new(1_000_000, 2_000))]);
    assert!(skipped.is_empty());
    // a carriage return with no line end behind it stays in the field
    let r = parse_official(b"# BPM\n0,120\r");
    assert_eq!(r, Err(LoadError::BadNumber { line: 2 }));
    let (empty, _) = parse_official(b"").unwrap();
    assert_eq!(empty, Chart::create_empty_chart());
}

#[test]
fn lines_that_do_not_fit_are_skipped() {
    let text = "stray line\n# BPM\n0\n0,1,2\n\n# Speed\n0,1\n# Note\n0,1\n9,1,2\n0,1,2,3\n2,1,2\n4,1,2,3\n11,1,2,3,4,5,6\n5,1,2\n# BPM again\n3,4\n";
    let (chart, skipped) = parse_official(text.as_bytes()).unwrap();
    assert_eq!(chart.bpm, vec![BPM::new(3_000_000, 4_000)]);
    assert!(chart.speed.is_empty());
    assert_eq!(chart.note, vec![Note::Catch(Catch::new(1_000_000, 2_000))]);
    assert_eq!(skipped, vec![3, 4, 5, 7, 9, 10, 11, 12, 13, 14]);
}

#[test]
fn a_field_that_is_no_number_fails_the_load() {
    assert_eq!(parse_official(b"# BPM\n0,fast\n"), Err(LoadError::BadNumber { line: 2 }));
    assert_eq!(parse_official(b"# Speed\n0,1,0\n0,1,0.5\n"), Err(LoadError::BadNumber { line: 3 }));
    assert_eq!(parse_official(b"# Note\nx,1,2\n"), Err(LoadError::BadNumber { line: 2 }));
    assert_eq!(parse_official(b"# Note\n0,1,\n"), Err(LoadError::BadNumber { line: 2 }));
    assert_eq!(parse_official(b"# Note\n2,1,2,3.5,4,5,6,7,8\n"), Err(LoadError::BadNumber { line: 2 }));
    assert_eq!(parse_official(b"# Version\n"), Err(LoadError::BadNumber { line: 1 }));
    assert_eq!(parse_official(b"\n# Version 1.5\n"), Err(LoadError::BadNumber { line: 2 }));
    // an unknown type is skipped before its fields are read
    assert!(parse_official(b"# Note\n7,x,y\n").is_ok());
    // the version is the last word of its line
    let (chart, _) = parse_official(b"# Version of this chart: \t 12  \n").unwrap();
    assert_eq!(chart.version, 12);
}

#[test]
fn loading_rebuilds_the_tables() {
    let chart = Chart::load_chart_from_official(TEXT.as_bytes()).unwrap();
    assert_eq!(chart.version, 2);
    let times: Vec<i64> = chart.note.iter().map(|n| n.get_time()).collect();
    assert_eq!(times, vec![0, ms(1000), ms(2000), ms(3000), ms(4000), ms(5000), ms(6000)]);
    assert_eq!(chart.speed_distance.len(), 2);
    assert_eq!(chart.trail_distance.len(), 4);
    // on the ramp from 1.0 to 2.25: 1000 + 1000^2 * 1.25 / (2 * 1000.5)
    assert_eq!(chart.find_distance_by_time(ms(1000)), 3_249_375_312_343);
    assert!(!chart.hitsound_list.is_empty());
    assert!(!chart.phone_trail_distance.is_empty());
    assert_eq!(chart.trail_distance_plain.len(), 4);
}

#[test]
fn loading_hands_out_the_skipped_lines() {
    let (chart, skipped) = Chart::load_chart_with_diagnostics(TEXT.as_bytes()).unwrap();
    assert_eq!(skipped, vec![6, 10]);
    assert_eq!(chart, Chart::load_chart_from_official(TEXT.as_bytes()).unwrap());
    let text = "# Note\n11,0,30,0,0,0\nstray\n9,1,2\n0,1\n0,5,10\n";
    let (chart, skipped) = Chart::load_chart_with_diagnostics(text.as_bytes()).unwrap();
    assert_eq!(skipped, vec![3, 4, 5]);
    assert_eq!(chart.note.len(), 2);
    assert!(chart.check_ready());
    let r = Chart::load_chart_with_diagnostics(b"# Note\n0,1,2\n");
    assert_eq!(r, Err(LoadError::Inadmissible));
    let r = Chart::load_chart_with_diagnostics(b"# Note\n0,1,x\n");
    assert_eq!(r, Err(LoadError::BadNumber { line: 2 }));
}

#[test]
fn loading_refuses_what_cannot_be_computed_with() {
    // no note bends the trail
    let r = Chart::load_chart_from_official(b"# Note\n0,1,2\n");
    assert_eq!(r, Err(LoadError::Inadmissible));
    // a time beyond the limit
    let r = Chart::load_chart_from_official(b"# Note\n11,10000000.000001,0,0,0,0\n");
    assert_eq!(r, Err(LoadError::Inadmissible));
    let r = Chart::load_chart_from_official(b"# Note\n11,10000000,0,0,0,0\n");
    assert!(r.is_ok());
    let r = Chart::load_chart_from_official(b"# BPM\n0,x\n# Note\n11,0,0,0,0,0\n");
    assert_eq!(r, Err(LoadError::BadNumber { line: 2 }));
}

#[test]
fn a_chart_is_written_as_text() {
    let mut chart = Chart::create_empty_chart();
    chart.version = 2;
    chart.bpm = vec![BPM::new(0, 120_000), BPM::new(30_000_000_000, 187_500)];
    chart.speed = vec![Speed::new(0, 1_000, 0), Speed::new(1_000_500_000, 2_250, 1)];
    chart.note = expected_notes();
    let text = chart.export_to_txt();
    assert_eq!(String::from_utf8(text.clone()).unwrap(), TEXT);
    assert_eq!(write_official(&chart), text);
    let empty = Chart::create_empty_chart().export_to_txt();
    assert_eq!(String::from_utf8(empty).unwrap(), "# Version 0\n\n# BPM\n\n# Speed\n\n# Note\n");
}

#[test]
fn the_text_of_a_chart_reads_back_as_the_chart() {
    let mut chart = Chart::create_empty_chart();
    chart.version = -3;
    chart.bpm = vec![BPM::new(i64::MIN, i64::MAX), BPM::new(-1_000, 1)];
    chart.speed = vec![Speed::new(5_000, -5, i32::MIN), Speed::new(0, 0, i32::MAX)];
    chart.note = expected_notes();
    chart.note.push(Note::Slide(Slide::new(i64::MAX, i64::MIN, -1, 999, 0, -7, 1, -1)));
    let (back, _) = parse_official(&chart.export_to_txt()).unwrap();
    assert_eq!(back, chart);
    let loaded = Chart::load_chart_from_official(TEXT.as_bytes()).unwrap();
    let (again, _) = parse_official(&loaded.export_to_txt()).unwrap();
    assert_eq!(again.bpm, loaded.bpm);
    assert_eq!(again.speed, loaded.speed);
    assert_eq!(again.note, loaded.note);
    assert_eq!(again.version, loaded.version);
}

#[test]
fn a_chart_is_loaded_from_its_entries() {
    let bpm = vec![BPM::new(ms(1000), fx(120)), BPM::new(0, fx(60))];
    let note = expected_notes();
    let chart = Chart::load_chart_from_json(5, 250, bpm, note).unwrap();
    assert_eq!(chart.version, 5);
    assert_eq!(chart.offset, 250);
    assert_eq!(chart.bpm, vec![BPM::new(0, fx(60)), BPM::new(ms(1000), fx(120))]);
    assert!(chart.speed.is_empty());
    assert_eq!(chart.note[0], Note::Trail(Trail::new(0, 30_000, 0, 50_000, 50_000)));
    assert!(chart.check_ready());
    assert_eq!(chart.find_distance_by_time(ms(1234)), 1234 * 2_000_000_000);
    // no note bends the trail
    let r = Chart::load_chart_from_json(5, 0, Vec::new(), vec![Note::Tap(Tap::new(0, 0))]);
    assert_eq!(r, Err(LoadError::Inadmissible));
}

#[test]
fn the_json_form_holds_the_trail_angle_of_each_catch() {
    let chart = Chart::load_chart_from_official(TEXT.as_bytes()).unwrap();
    let degrees = chart.export_to_json();
    assert_eq!(degrees.len(), chart.note.len());
    for (note, degree) in chart.note.iter().zip(degrees) {
        match note {
            Note::Catch(c) => assert_eq!(degree, Some(chart.find_degree_by_time(c.time))),
            _ => assert_eq!(degree, None),
        }
    }
}

#[test]
fn type_codes_and_shapes() {
    let codes: Vec<i32> = expected_notes().iter().map(|n| n.type_code()).collect();
    assert_eq!(codes, vec![0, 1, 2, 4, 5, 6, 11]);
    assert_eq!(shape_of_code(0), Some(NoteShape::Plain));
    assert_eq!(shape_of_code(1), Some(NoteShape::Plain));
    assert_eq!(shape_of_code(2), Some(NoteShape::Sliding));
    assert_eq!(shape_of_code(3), None);
    assert_eq!(shape_of_code(4), Some(NoteShape::Turning));
    assert_eq!(shape_of_code(5), Some(NoteShape::Plain));
    assert_eq!(shape_of_code(6), Some(NoteShape::Plain));
    assert_eq!(shape_of_code(11), Some(NoteShape::Turning));
    assert_eq!(shape_of_code(-1), None);
    assert_eq!(Note::plain(5, 1, 2), Note::Catch(Catch::new(1, 2)));
    assert_eq!(Note::plain(6, 1, 2), Note::Bomb(Bomb::new(1, 2)));
    assert_eq!(Note::plain(0, 1, 2), Note::Tap(Tap::new(1, 2)));
    assert_eq!(Note::plain(1, 1, 2), Note::Flick(Flick::new(1, 2)));
    assert_eq!(Note::turning(4, 1, 2, 3, 4, 5), Note::Rotate(Rotate::new(1, 2, 3, 4, 5)));
    assert_eq!(Note::turning(11, 1, 2, 3, 4, 5), Note::Trail(Trail::new(1, 2, 3, 4, 5)));
}

fn fx(whole: i64) -> i64 {
    whole * 1000
}

fn ms(whole: i64) -> i64 {
    whole * 1_000_000
}
