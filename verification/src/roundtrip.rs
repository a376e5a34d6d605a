//! Writing a chart as text and reading the text back gives the chart.

use crate::bpm::BPM;
use crate::chart::Section;
use crate::note::{
    shape_of, Note, NoteShape, Rotate, Slide, Trail, ROTATE_CODE, SLIDE_CODE, TRAIL_CODE,
};
use crate::official::{
    after_first_line, bpm_fields, bpm_line, bpm_lines, bpm_tag, empty_draft, first_line, is_space,
    joined, last_word, note_fields, note_line, note_lines, note_tag, official_lines,
    official_text, parse_text, plain_note, read_lines, render, slide_note, speed_fields,
    speed_line, speed_lines, speed_tag, split, starts_with, step, turning_note, version_line,
    version_tag, word_end, word_start, Draft, Outcome, COMMA, NEWLINE, RETURN,
};
use crate::speed::Speed;
use crate::text::{
    format_decimal, format_integer, format_time, is_digit, lemma_decimal_round_trip,
    lemma_first_at, lemma_integer_round_trip, lemma_time_round_trip, parse_decimal,
    parse_integer, parse_time, DOT, MINUS,
};
use vstd::prelude::*;

verus! {

/// The text holds digits, minus signs and dots only, and is not empty: it
/// has the form of a number.
pub open spec fn number_like(s: Seq<u8>) -> bool {
    &&& s.len() > 0
    &&& forall|i: int|
        0 <= i < s.len() ==> is_digit(#[trigger] s[i]) || s[i] == MINUS || s[i] == DOT
}

/// The line holds digits, minus signs, dots and commas only, and is not
/// empty: it has the form of an entry.
pub open spec fn entry_like(s: Seq<u8>) -> bool {
    &&& s.len() > 0
    &&& forall|i: int|
        0 <= i < s.len() ==> is_digit(#[trigger] s[i]) || s[i] == MINUS || s[i] == DOT || s[i]
            == COMMA
}

/// The line can be read back from a text: it holds no line end and does not
/// end with a carriage return.
pub open spec fn plain_line(line: Seq<u8>) -> bool {
    &&& forall|i: int| 0 <= i < line.len() ==> #[trigger] line[i] != NEWLINE
    &&& line.len() > 0 ==> line.last() != RETURN
}

/// The draft after every line of `lines`, or the number of the line that
/// failed.
pub open spec fn fold_lines(lines: Seq<Seq<u8>>, d: Draft) -> Result<Draft, nat>
    decreases lines.len(),
{
    if lines.len() == 0 {
        Ok(d)
    } else {
        match step(d, lines[0]) {
            None => Err(d.lines + 1),
            Some(d2) => fold_lines(lines.drop_first(), d2),
        }
    }
}

/// The rendered text starts with the first line and its line end.
pub proof fn lemma_render_front(lines: Seq<Seq<u8>>)
    requires
        lines.len() > 0,
    ensures
        render(lines) == lines[0] + seq![NEWLINE] + render(lines.drop_first()),
    decreases lines.len(),
{
    if lines.len() == 1 {
        assert(lines.drop_last() =~= Seq::<Seq<u8>>::empty());
        assert(lines.drop_first() =~= Seq::<Seq<u8>>::empty());
        assert(render(lines) =~= lines[0] + seq![NEWLINE] + render(lines.drop_first()));
    } else {
        let init = lines.drop_last();
        lemma_render_front(init);
        assert(init[0] == lines[0]);
        assert(lines.drop_first().drop_last() =~= init.drop_first());
        assert(lines.drop_first().last() == lines.last());
        assert(render(lines) =~= lines[0] + seq![NEWLINE] + render(lines.drop_first()));
    }
}

/// Reading a rendered text is reading its lines one by one.
pub proof fn lemma_read_rendered(lines: Seq<Seq<u8>>, d: Draft)
    requires
        forall|i: int| 0 <= i < lines.len() ==> plain_line(#[trigger] lines[i]),
    ensures
        read_lines(render(lines), d) == fold_lines(lines, d),
    decreases lines.len(),
{
    if lines.len() > 0 {
        let text = render(lines);
        let line = lines[0];
        let rest = render(lines.drop_first());
        lemma_render_front(lines);
        assert(plain_line(line));
        let e = line.len() as int;
        assert(text[e] == NEWLINE);
        assert forall|k: int| 0 <= k < e implies text[k] != NEWLINE by {
            assert(text[k] == line[k]);
        }
        lemma_first_at(text, NEWLINE, 0, e);
        if e > 0 {
            assert(text[e - 1] == line.last());
        }
        assert(text.subrange(0, e) =~= line);
        assert(first_line(text) == line);
        assert(text.skip(e + 1) =~= rest);
        assert(after_first_line(text) == rest);
        match step(d, line) {
            None => {},
            Some(d2) => {
                assert forall|i: int| 0 <= i < lines.drop_first().len() implies plain_line(
                    #[trigger] lines.drop_first()[i],
                ) by {
                    assert(lines.drop_first()[i] == lines[i + 1]);
                }
                lemma_read_rendered(lines.drop_first(), d2);
            },
        }
    }
}

/// Reading two lists of lines one after the other is reading the first and
/// going on with the second.
pub proof fn lemma_fold_concat(a: Seq<Seq<u8>>, b: Seq<Seq<u8>>, d: Draft)
    ensures
        fold_lines(a + b, d) == match fold_lines(a, d) {
            Ok(d2) => fold_lines(b, d2),
            Err(line) => Err(line),
        },
    decreases a.len(),
{
    if a.len() == 0 {
        assert(a + b =~= b);
    } else {
        assert((a + b)[0] == a[0]);
        assert((a + b).drop_first() =~= a.drop_first() + b);
        match step(d, a[0]) {
            None => {},
            Some(d2) => {
                lemma_fold_concat(a.drop_first(), b, d2);
            },
        }
    }
}

/// Fields without commas, joined by commas, split into the same fields.
#[verifier::rlimit(40)]
pub proof fn lemma_split_joined(fields: Seq<Seq<u8>>)
    requires
        fields.len() >= 1,
        forall|i: int| 0 <= i < fields.len() ==> number_like(#[trigger] fields[i]),
    ensures
        split(joined(fields), COMMA) == fields,
        entry_like(joined(fields)),
        joined(fields)[0] == fields[0][0],
    decreases fields.len(),
{
    let s = joined(fields);
    let f0 = fields[0];
    assert(number_like(f0));
    if fields.len() == 1 {
        assert forall|k: int| 0 <= k < f0.len() implies f0[k] != COMMA by {
            assert(is_digit(f0[k]) || f0[k] == MINUS || f0[k] == DOT);
        }
        lemma_first_at(s, COMMA, 0, s.len() as int);
        assert(split(s, COMMA) =~= fields);
    } else {
        let rest = fields.drop_first();
        assert forall|i: int| 0 <= i < rest.len() implies number_like(#[trigger] rest[i]) by {
            assert(rest[i] == fields[i + 1]);
        }
        lemma_split_joined(rest);
        let e = f0.len() as int;
        assert(s == f0 + seq![COMMA] + joined(rest));
        assert(s[e] == COMMA);
        assert forall|k: int| 0 <= k < e implies s[k] != COMMA by {
            assert(s[k] == f0[k]);
            assert(is_digit(f0[k]) || f0[k] == MINUS || f0[k] == DOT);
        }
        lemma_first_at(s, COMMA, 0, e);
        assert(s.subrange(0, e) =~= f0);
        assert(s.skip(e + 1) =~= joined(rest));
        assert(split(s, COMMA) =~= fields);
        assert forall|i: int| 0 <= i < s.len() implies is_digit(#[trigger] s[i]) || s[i] == MINUS
            || s[i] == DOT || s[i] == COMMA by {
            if i < e {
                assert(s[i] == f0[i]);
            } else if i > e {
                assert(s[i] == joined(rest)[i - e - 1]);
            }
        }
        assert(s[0] == f0[0]);
    }
}

/// A line that has the form of an entry holds no line end, does not end
/// with a carriage return, and starts with none of the tags.
pub proof fn lemma_entry_line(line: Seq<u8>)
    requires
        entry_like(line),
    ensures
        plain_line(line),
        !starts_with(line, version_tag()),
        !starts_with(line, bpm_tag()),
        !starts_with(line, speed_tag()),
        !starts_with(line, note_tag()),
{
    assert(is_digit(line[0]) || line[0] == MINUS || line[0] == DOT || line[0] == COMMA);
    assert(is_digit(line.last()) || line.last() == MINUS || line.last() == DOT || line.last()
        == COMMA);
    assert forall|i: int| 0 <= i < line.len() implies #[trigger] line[i] != NEWLINE by {
        assert(is_digit(line[i]) || line[i] == MINUS || line[i] == DOT || line[i] == COMMA);
    }
    if starts_with(line, version_tag()) {
        assert(line.subrange(0, 9)[0] == version_tag()[0]);
    }
    if starts_with(line, bpm_tag()) {
        assert(line.subrange(0, 5)[0] == bpm_tag()[0]);
    }
    if starts_with(line, speed_tag()) {
        assert(line.subrange(0, 7)[0] == speed_tag()[0]);
    }
    if starts_with(line, note_tag()) {
        assert(line.subrange(0, 6)[0] == note_tag()[0]);
    }
}

/// A fixed-point number as text has the form of a number and reads back.
pub proof fn lemma_decimal_text(v: i64)
    ensures
        number_like(format_decimal(v as int)),
        parse_decimal(format_decimal(v as int)) == Some(v),
{
    lemma_decimal_round_trip(v as int);
}

/// A time as text has the form of a number and reads back.
pub proof fn lemma_time_text(v: i64)
    ensures
        number_like(format_time(v as int)),
        parse_time(format_time(v as int)) == Some(v),
{
    lemma_time_round_trip(v as int);
}

/// A whole number as text has the form of a number and reads back.
pub proof fn lemma_integer_text(v: i32)
    ensures
        number_like(format_integer(v as int)),
        parse_integer(format_integer(v as int)) == Some(v),
{
    lemma_integer_round_trip(v as int);
}

/// The line of a tempo point reads back as the tempo point.
pub proof fn lemma_bpm_line(b: BPM)
    ensures
        entry_like(joined(bpm_fields(b))),
        bpm_line(joined(bpm_fields(b))) == Outcome::Entry(b),
{
    let f = bpm_fields(b);
    lemma_time_text(b.time);
    lemma_decimal_text(b.bpm);
    lemma_split_joined(f);
}

/// The line of a speed point reads back as the speed point.
pub proof fn lemma_speed_line(s: Speed)
    ensures
        entry_like(joined(speed_fields(s))),
        speed_line(joined(speed_fields(s))) == Outcome::Entry(s),
{
    let f = speed_fields(s);
    lemma_time_text(s.time);
    lemma_decimal_text(s.speed);
    lemma_integer_text(s.smooth);
    lemma_split_joined(f);
}

/// The line of an angle-only note reads back as the note.
#[verifier::rlimit(40)]
pub proof fn lemma_plain_note_line(note: Note)
    requires
        note is Tap || note is Flick || note is Catch || note is Bomb,
    ensures
        entry_like(joined(note_fields(note))),
        note_line(joined(note_fields(note))) == Outcome::Entry(note),
{
    let f = note_fields(note);
    let kind: i32 = note.code();
    assert(shape_of(kind) == Some(NoteShape::Plain));
    assert(Note::plain_of(kind, note.time() as i64, note.degree() as i64) == note);
    lemma_integer_text(kind);
    lemma_time_text(note.time() as i64);
    lemma_decimal_text(note.degree() as i64);
    assert(f[0] == format_integer(kind as int));
    assert(f[1] == format_time(note.time()));
    assert(f[2] == format_decimal(note.degree()));
    assert(f.len() == 3);
    lemma_split_joined(f);
    assert(plain_note(f, kind) == Outcome::Entry(note));
}

/// The line of a rotation reads back as the note.
#[verifier::rlimit(40)]
pub proof fn lemma_rotate_note_line(n: Rotate)
    ensures
        entry_like(joined(note_fields(Note::Rotate(n)))),
        note_line(joined(note_fields(Note::Rotate(n)))) == Outcome::Entry(Note::Rotate(n)),
{
    let f = note_fields(Note::Rotate(n));
    lemma_integer_text(ROTATE_CODE);
    assert(shape_of(ROTATE_CODE) == Some(NoteShape::Turning));
    lemma_time_text(n.time);
    lemma_decimal_text(n.degree);
    lemma_decimal_text(n.delta);
    lemma_decimal_text(n.prev_curv);
    lemma_decimal_text(n.next_curv);
    assert(f.len() == 6);
    assert forall|i: int| 0 <= i < f.len() implies number_like(#[trigger] f[i]) by {
        if i == 0 {
        } else if i == 1 {
        } else if i == 2 {
        } else if i == 3 {
        } else if i == 4 {
        } else {
        }
    }
    lemma_split_joined(f);
    assert(turning_note(f, ROTATE_CODE) == Outcome::Entry(Note::Rotate(n)));
}

/// The line of a trail note reads back as the note.
#[verifier::rlimit(40)]
pub proof fn lemma_trail_note_line(n: Trail)
    ensures
        entry_like(joined(note_fields(Note::Trail(n)))),
        note_line(joined(note_fields(Note::Trail(n)))) == Outcome::Entry(Note::Trail(n)),
{
    let f = note_fields(Note::Trail(n));
    lemma_integer_text(TRAIL_CODE);
    assert(shape_of(TRAIL_CODE) == Some(NoteShape::Turning));
    lemma_time_text(n.time);
    lemma_decimal_text(n.degree);
    lemma_decimal_text(n.delta);
    lemma_decimal_text(n.prev_curv);
    lemma_decimal_text(n.next_curv);
    assert(f.len() == 6);
    assert forall|i: int| 0 <= i < f.len() implies number_like(#[trigger] f[i]) by {
        if i == 0 {
        } else if i == 1 {
        } else if i == 2 {
        } else if i == 3 {
        } else if i == 4 {
        } else {
        }
    }
    lemma_split_joined(f);
    assert(turning_note(f, TRAIL_CODE) == Outcome::Entry(Note::Trail(n)));
}

/// The line of a slide reads back as the slide.
#[verifier::rlimit(40)]
pub proof fn lemma_slide_note_line(n: Slide)
    ensures
        entry_like(joined(note_fields(Note::Slide(n)))),
        note_line(joined(note_fields(Note::Slide(n)))) == Outcome::Entry(Note::Slide(n)),
{
    let f = note_fields(Note::Slide(n));
    lemma_integer_text(SLIDE_CODE);
    assert(shape_of(SLIDE_CODE) == Some(NoteShape::Sliding));
    lemma_time_text(n.time);
    lemma_decimal_text(n.degree);
    lemma_integer_text(n.slidetype);
    lemma_decimal_text(n.end_degree);
    lemma_integer_text(n.snap);
    lemma_integer_text(n.amount);
    lemma_decimal_text(n.prev_curv);
    lemma_decimal_text(n.next_curv);
    assert(f.len() == 9);
    assert forall|i: int| 0 <= i < f.len() implies number_like(#[trigger] f[i]) by {
        if i == 0 {
        } else if i == 1 {
        } else if i == 2 {
        } else if i == 3 {
        } else if i == 4 {
        } else if i == 5 {
        } else if i == 6 {
        } else if i == 7 {
        } else {
        }
    }
    lemma_split_joined(f);
    assert(slide_note(f) == Outcome::Entry(Note::Slide(n)));
}

/// The line of a note reads back as the note.
pub proof fn lemma_note_line(note: Note)
    ensures
        entry_like(joined(note_fields(note))),
        note_line(joined(note_fields(note))) == Outcome::Entry(note),
{
    match note {
        Note::Slide(n) => {
            lemma_slide_note_line(n);
        },
        Note::Rotate(n) => {
            lemma_rotate_note_line(n);
        },
        Note::Trail(n) => {
            lemma_trail_note_line(n);
        },
        _ => {
            lemma_plain_note_line(note);
        },
    }
}

/// The lines of tempo points, read in the tempo section, add the tempo
/// points to the draft.
pub proof fn lemma_fold_bpm(bpm: Seq<BPM>, d: Draft)
    requires
        d.section == Section::BpmSection,
    ensures
        fold_lines(bpm_lines(bpm), d) == Ok::<Draft, nat>(
            Draft { bpm: d.bpm + bpm, lines: d.lines + bpm.len(), ..d },
        ),
    decreases bpm.len(),
{
    let lines = bpm_lines(bpm);
    if bpm.len() == 0 {
        assert(d.bpm + bpm =~= d.bpm);
    } else {
        lemma_bpm_line(bpm[0]);
        lemma_entry_line(lines[0]);
        let d2 = Draft { bpm: d.bpm.push(bpm[0]), lines: d.lines + 1, ..d };
        assert(step(d, lines[0]) == Some(d2));
        assert(lines.drop_first() =~= bpm_lines(bpm.drop_first()));
        lemma_fold_bpm(bpm.drop_first(), d2);
        assert(d2.bpm + bpm.drop_first() =~= d.bpm + bpm);
    }
}

/// The lines of speed points, read in the speed section, add the speed
/// points to the draft.
pub proof fn lemma_fold_speed(speed: Seq<Speed>, d: Draft)
    requires
        d.section == Section::SpeedSection,
    ensures
        fold_lines(speed_lines(speed), d) == Ok::<Draft, nat>(
            Draft { speed: d.speed + speed, lines: d.lines + speed.len(), ..d },
        ),
    decreases speed.len(),
{
    let lines = speed_lines(speed);
    if speed.len() == 0 {
        assert(d.speed + speed =~= d.speed);
    } else {
        lemma_speed_line(speed[0]);
        lemma_entry_line(lines[0]);
        let d2 = Draft { speed: d.speed.push(speed[0]), lines: d.lines + 1, ..d };
        assert(step(d, lines[0]) == Some(d2));
        assert(lines.drop_first() =~= speed_lines(speed.drop_first()));
        lemma_fold_speed(speed.drop_first(), d2);
        assert(d2.speed + speed.drop_first() =~= d.speed + speed);
    }
}

/// The lines of notes, read in the note section, add the notes to the draft.
pub proof fn lemma_fold_note(note: Seq<Note>, d: Draft)
    requires
        d.section == Section::NoteSection,
    ensures
        fold_lines(note_lines(note), d) == Ok::<Draft, nat>(
            Draft { note: d.note + note, lines: d.lines + note.len(), ..d },
        ),
    decreases note.len(),
{
    let lines = note_lines(note);
    if note.len() == 0 {
        assert(d.note + note =~= d.note);
    } else {
        lemma_note_line(note[0]);
        lemma_entry_line(lines[0]);
        let d2 = Draft { note: d.note.push(note[0]), lines: d.lines + 1, ..d };
        assert(step(d, lines[0]) == Some(d2));
        assert(lines.drop_first() =~= note_lines(note.drop_first()));
        lemma_fold_note(note.drop_first(), d2);
        assert(d2.note + note.drop_first() =~= d.note + note);
    }
}

/// Where no byte from `b` up to `e` is white space, and the byte before `b`
/// is, the word that ends at `e` starts at `b`.
pub proof fn lemma_word_start(s: Seq<u8>, b: int, e: int)
    requires
        0 <= b <= e <= s.len(),
        forall|k: int| b <= k < e ==> !is_space(#[trigger] s[k]),
        b > 0 ==> is_space(s[b - 1]),
    ensures
        word_start(s, e) == b,
    decreases e - b,
{
    if b < e {
        assert(!is_space(s[e - 1]));
        lemma_word_start(s, b, e - 1);
    }
}

/// The version line sets the version.
#[verifier::rlimit(40)]
pub proof fn lemma_step_version(d: Draft, version: i32)
    ensures
        step(d, version_line(version)) == Some(
            Draft { version: version, lines: d.lines + 1, ..d },
        ),
        plain_line(version_line(version)),
{
    let line = version_line(version);
    let number = format_integer(version as int);
    lemma_integer_text(version);
    assert(line.subrange(0, 9) =~= version_tag());
    let len = line.len() as int;
    assert forall|k: int| 10 <= k < len implies !is_space(#[trigger] line[k]) by {
        assert(line[k] == number[k - 10]);
        assert(is_digit(number[k - 10]) || number[k - 10] == MINUS || number[k - 10] == DOT);
    }
    assert(line[9] == 32);
    assert(!is_space(line[len - 1]));
    assert(word_end(line, len) == len);
    lemma_word_start(line, 10, len);
    assert(line.subrange(10, len) =~= number);
    assert(last_word(line) == number);
    assert forall|i: int| 0 <= i < line.len() implies #[trigger] line[i] != NEWLINE by {
        if i >= 10 {
            assert(!is_space(line[i]));
        } else if i < 9 {
            assert(line[i] == version_tag()[i]);
        }
    }
}

/// The tag lines hold no line end.
pub proof fn lemma_tags_plain()
    ensures
        plain_line(bpm_tag()),
        plain_line(speed_tag()),
        plain_line(note_tag()),
        plain_line(Seq::empty()),
{
}

/// The line `# BPM` opens the tempo section.
pub proof fn lemma_step_bpm_tag(d: Draft)
    ensures
        step(d, bpm_tag()) == Some(
            Draft { section: Section::BpmSection, lines: d.lines + 1, ..d },
        ),
{
    assert(bpm_tag().subrange(0, 5) =~= bpm_tag());
}

/// The line `# Speed` opens the speed section.
pub proof fn lemma_step_speed_tag(d: Draft)
    ensures
        step(d, speed_tag()) == Some(
            Draft { section: Section::SpeedSection, lines: d.lines + 1, ..d },
        ),
{
    assert(speed_tag().subrange(0, 7) =~= speed_tag());
    assert(speed_tag().subrange(0, 5)[2] != bpm_tag()[2]);
}

/// The line `# Note` opens the note section.
pub proof fn lemma_step_note_tag(d: Draft)
    ensures
        step(d, note_tag()) == Some(
            Draft { section: Section::NoteSection, lines: d.lines + 1, ..d },
        ),
{
    assert(note_tag().subrange(0, 6) =~= note_tag());
    assert(note_tag().subrange(0, 5)[2] != bpm_tag()[2]);
}

/// An empty line is passed over outside every section and skipped inside
/// one.
pub proof fn lemma_step_empty(d: Draft)
    ensures
        d.section == Section::NoSection ==> step(d, Seq::empty()) == Some(
            Draft { lines: d.lines + 1, ..d },
        ),
        d.section != Section::NoSection ==> step(d, Seq::empty()) == Some(
            Draft { skipped: d.skipped.push(d.lines + 1), lines: d.lines + 1, ..d },
        ),
{
    let none = Seq::<u8>::empty();
    assert(bpm_line(none) == Outcome::<BPM>::Skipped);
    assert(speed_line(none) == Outcome::<Speed>::Skipped);
    assert(note_line(none) == Outcome::<Note>::Skipped);
}

/// Reading two lines one after the other.
pub proof fn lemma_fold_two(x: Seq<u8>, y: Seq<u8>, d: Draft, d1: Draft, d2: Draft)
    requires
        step(d, x) == Some(d1),
        step(d1, y) == Some(d2),
    ensures
        fold_lines(seq![x, y], d) == Ok::<Draft, nat>(d2),
{
    let l = seq![x, y];
    let l1 = l.drop_first();
    assert(l1 =~= seq![y]);
    let l2 = l1.drop_first();
    assert(l2 =~= Seq::<Seq<u8>>::empty());
    assert(fold_lines(l2, d2) == Ok::<Draft, nat>(d2));
    assert(l1[0] == y);
    assert(fold_lines(l1, d1) == Ok::<Draft, nat>(d2));
    assert(l[0] == x);
}

/// Every line of a chart text can be read back from the text.
#[verifier::rlimit(40)]
pub proof fn lemma_official_lines_plain(
    version: i32,
    bpm: Seq<BPM>,
    speed: Seq<Speed>,
    note: Seq<Note>,
)
    ensures
        forall|i: int|
            0 <= i < official_lines(version, bpm, speed, note).len() ==> plain_line(
                #[trigger] official_lines(version, bpm, speed, note)[i],
            ),
{
    let none = Seq::<u8>::empty();
    let a = seq![version_line(version), none, bpm_tag()];
    let b = bpm_lines(bpm);
    let c = seq![none, speed_tag()];
    let e = speed_lines(speed);
    let f = seq![none, note_tag()];
    let g = note_lines(note);
    let lines = official_lines(version, bpm, speed, note);
    assert(lines == a + b + c + e + f + g);
    lemma_tags_plain();
    lemma_step_version(empty_draft(), version);
    assert forall|i: int| 0 <= i < lines.len() implies plain_line(#[trigger] lines[i]) by {
        let n1 = a.len() as int;
        let n2 = n1 + b.len();
        let n3 = n2 + c.len();
        let n4 = n3 + e.len();
        let n5 = n4 + f.len();
        if i < n1 {
            assert(lines[i] == a[i]);
        } else if i < n2 {
            assert(lines[i] == b[i - n1]);
            lemma_bpm_line(bpm[i - n1]);
            lemma_entry_line(b[i - n1]);
        } else if i < n3 {
            assert(lines[i] == c[i - n2]);
        } else if i < n4 {
            assert(lines[i] == e[i - n3]);
            lemma_speed_line(speed[i - n3]);
            lemma_entry_line(e[i - n3]);
        } else if i < n5 {
            assert(lines[i] == f[i - n4]);
        } else {
            assert(lines[i] == g[i - n5]);
            lemma_note_line(note[i - n5]);
            lemma_entry_line(g[i - n5]);
        }
    }
}

/// Reading the head of a chart text: the version line, an empty line and
/// the tempo tag.
pub proof fn lemma_fold_head(version: i32)
    ensures
        fold_lines(seq![version_line(version), Seq::empty(), bpm_tag()], empty_draft()) == Ok::<
            Draft,
            nat,
        >(
            Draft {
                version: version,
                section: Section::BpmSection,
                lines: 3,
                ..empty_draft()
            },
        ),
{
    let none = Seq::<u8>::empty();
    let d0 = empty_draft();
    let d1 = Draft { version: version, lines: 1, ..d0 };
    let d2 = Draft { lines: 2, ..d1 };
    let d3 = Draft { section: Section::BpmSection, lines: 3, ..d2 };
    lemma_step_version(d0, version);
    lemma_step_empty(d1);
    lemma_step_bpm_tag(d2);
    lemma_fold_two(none, bpm_tag(), d1, d2, d3);
    let a = seq![version_line(version), none, bpm_tag()];
    assert(a.drop_first() =~= seq![none, bpm_tag()]);
    assert(a[0] == version_line(version));
    assert(step(d0, a[0]) == Some(d1));
}

/// The round trip through the text format. The text of a chart, read back,
/// gives the same version, the same tempo points, the same speed points and
/// the same notes, each in the same order.
#[verifier::rlimit(40)]
pub proof fn lemma_official_round_trip(
    version: i32,
    bpm: Seq<BPM>,
    speed: Seq<Speed>,
    note: Seq<Note>,
)
    ensures
        parse_text(official_text(version, bpm, speed, note)) is Ok,
        parse_text(official_text(version, bpm, speed, note))->Ok_0.version == version,
        parse_text(official_text(version, bpm, speed, note))->Ok_0.bpm == bpm,
        parse_text(official_text(version, bpm, speed, note))->Ok_0.speed == speed,
        parse_text(official_text(version, bpm, speed, note))->Ok_0.note == note,
{
    let none = Seq::<u8>::empty();
    let a = seq![version_line(version), none, bpm_tag()];
    let b = bpm_lines(bpm);
    let c = seq![none, speed_tag()];
    let e = speed_lines(speed);
    let f = seq![none, note_tag()];
    let g = note_lines(note);
    let lines = official_lines(version, bpm, speed, note);
    assert(lines == a + b + c + e + f + g);
    let d0 = empty_draft();
    lemma_official_lines_plain(version, bpm, speed, note);
    lemma_read_rendered(lines, d0);
    // the head: version, empty line, tempo tag
    let d3 = Draft { version: version, section: Section::BpmSection, lines: 3, ..d0 };
    lemma_fold_head(version);
    // the tempo points
    lemma_fold_bpm(bpm, d3);
    let d4 = Draft { bpm: d3.bpm + bpm, lines: d3.lines + bpm.len(), ..d3 };
    assert(d4.bpm =~= bpm);
    // empty line, speed tag
    let d5 = Draft { skipped: d4.skipped.push(d4.lines + 1), lines: d4.lines + 1, ..d4 };
    let d6 = Draft { section: Section::SpeedSection, lines: d5.lines + 1, ..d5 };
    lemma_step_empty(d4);
    lemma_step_speed_tag(d5);
    lemma_fold_two(none, speed_tag(), d4, d5, d6);
    // the speed points
    lemma_fold_speed(speed, d6);
    let d7 = Draft { speed: d6.speed + speed, lines: d6.lines + speed.len(), ..d6 };
    assert(d7.speed =~= speed);
    // empty line, note tag
    let d8 = Draft { skipped: d7.skipped.push(d7.lines + 1), lines: d7.lines + 1, ..d7 };
    let d9 = Draft { section: Section::NoteSection, lines: d8.lines + 1, ..d8 };
    lemma_step_empty(d7);
    lemma_step_note_tag(d8);
    lemma_fold_two(none, note_tag(), d7, d8, d9);
    // the notes
    lemma_fold_note(note, d9);
    let d10 = Draft { note: d9.note + note, lines: d9.lines + note.len(), ..d9 };
    assert(d10.note =~= note);
    // all together
    lemma_fold_concat(a, b, d0);
    lemma_fold_concat(a + b, c, d0);
    lemma_fold_concat(a + b + c, e, d0);
    lemma_fold_concat(a + b + c + e, f, d0);
    lemma_fold_concat(a + b + c + e + f, g, d0);
    assert(fold_lines(a, d0) == Ok::<Draft, nat>(d3));
    assert(fold_lines(a + b, d0) == Ok::<Draft, nat>(d4));
    assert(fold_lines(a + b + c, d0) == Ok::<Draft, nat>(d6));
    assert(fold_lines(a + b + c + e, d0) == Ok::<Draft, nat>(d7));
    assert(fold_lines(a + b + c + e + f, d0) == Ok::<Draft, nat>(d9));
    assert(fold_lines(lines, d0) == Ok::<Draft, nat>(d10));
}

} // verus!
