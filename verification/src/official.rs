//! The line-oriented text format of a chart: reading it and writing it.
//!
//! A chart text has the sections `# BPM`, `# Speed` and `# Note`, each line
//! of a section holding the fields of one entry separated by commas, and a
//! line `# Version <number>`. Lines that do not fit their section are
//! skipped; a field that is no number makes the whole text fail.

use crate::bpm::BPM;
use crate::chart::{Chart, Section};
use crate::note::{
    shape_of, shape_of_code, Note, NoteShape, Slide, BOMB_CODE, CATCH_CODE, FLICK_CODE, ROTATE_CODE,
    SLIDE_CODE, TAP_CODE, TRAIL_CODE,
};
use crate::speed::Speed;
use crate::text::{
    find_byte, first_at, format_decimal, format_integer, format_time, lemma_first_at_found,
    parse_decimal, parse_integer, parse_time, push_decimal, push_integer, push_time,
    read_decimal, read_integer, read_time,
};
use vstd::prelude::*;

verus! {

/// The byte that ends a line.
pub const NEWLINE: u8 = 10;

/// The byte that may precede the end of a line.
pub const RETURN: u8 = 13;

/// The byte that separates fields.
pub const COMMA: u8 = 44;

/// Why a chart text could not be loaded.
#[derive(Clone, Copy, Debug, PartialEq, Eq)]
pub enum LoadError {
    /// A field of the given line (counted from 1) is not a number.
    BadNumber { line: usize },
    /// The chart cannot be computed with: an entry is beyond the limits, no
    /// note bends the trail, or a slide that ticks has no tempo.
    Inadmissible,
}

/// What a line of a section yields.
pub enum Outcome<T> {
    /// An entry of the section.
    Entry(T),
    /// Nothing: the line does not fit the section and is skipped.
    Skipped,
    /// A field that should be a number is none.
    Failed,
}

/// A chart text read so far.
pub ghost struct Draft {
    /// The section that the next line belongs to.
    pub section: Section,
    pub version: i32,
    pub bpm: Seq<BPM>,
    pub speed: Seq<Speed>,
    pub note: Seq<Note>,
    /// The lines, counted from 1, that were skipped.
    pub skipped: Seq<nat>,
    /// The number of lines read.
    pub lines: nat,
}

/// `# Version`
pub open spec fn version_tag() -> Seq<u8> {
    seq![35u8, 32u8, 86u8, 101u8, 114u8, 115u8, 105u8, 111u8, 110u8]
}

/// `# BPM`
pub open spec fn bpm_tag() -> Seq<u8> {
    seq![35u8, 32u8, 66u8, 80u8, 77u8]
}

/// `# Speed`
pub open spec fn speed_tag() -> Seq<u8> {
    seq![35u8, 32u8, 83u8, 112u8, 101u8, 101u8, 100u8]
}

/// `# Note`
pub open spec fn note_tag() -> Seq<u8> {
    seq![35u8, 32u8, 78u8, 111u8, 116u8, 101u8]
}

/// `s` starts with `prefix`.
pub open spec fn starts_with(s: Seq<u8>, prefix: Seq<u8>) -> bool {
    s.len() >= prefix.len() && s.subrange(0, prefix.len() as int) == prefix
}

/// The byte is white space.
pub open spec fn is_space(c: u8) -> bool {
    c == 32 || (9 <= c <= 13)
}

/// The end of the last word of `s[..e]`: `e` less the white space before it.
pub open spec fn word_end(s: Seq<u8>, e: int) -> int
    decreases e,
{
    if e <= 0 {
        0
    } else if is_space(s[e - 1]) {
        word_end(s, e - 1)
    } else {
        e
    }
}

/// The start of the word that ends at `e`.
pub open spec fn word_start(s: Seq<u8>, e: int) -> int
    decreases e,
{
    if e <= 0 {
        0
    } else if is_space(s[e - 1]) {
        e
    } else {
        word_start(s, e - 1)
    }
}

/// The last of the words of `s` that white space separates.
pub open spec fn last_word(s: Seq<u8>) -> Seq<u8> {
    let e = word_end(s, s.len() as int);
    s.subrange(word_start(s, e), e)
}

/// The fields of `s` that `sep` separates.
pub open spec fn split(s: Seq<u8>, sep: u8) -> Seq<Seq<u8>>
    decreases s.len(),
{
    let e = first_at(s, sep, 0);
    if e >= s.len() {
        seq![s]
    } else {
        proof {
            lemma_first_at_found(s, sep, 0);
        }
        seq![s.subrange(0, e)] + split(s.skip(e + 1), sep)
    }
}

/// What a line of the tempo section yields: `time,bpm`.
pub open spec fn bpm_line(line: Seq<u8>) -> Outcome<BPM> {
    let f = split(line, COMMA);
    if line.len() == 0 || f.len() != 2 {
        Outcome::Skipped
    } else {
        let time = parse_time(f[0]);
        let bpm = parse_decimal(f[1]);
        if time is Some && bpm is Some {
            Outcome::Entry(BPM { time: time->0, bpm: bpm->0 })
        } else {
            Outcome::Failed
        }
    }
}

/// What a line of the speed section yields: `time,speed,smooth`.
pub open spec fn speed_line(line: Seq<u8>) -> Outcome<Speed> {
    let f = split(line, COMMA);
    if line.len() == 0 || f.len() != 3 {
        Outcome::Skipped
    } else {
        let time = parse_time(f[0]);
        let speed = parse_decimal(f[1]);
        let smooth = parse_integer(f[2]);
        if time is Some && speed is Some && smooth is Some {
            Outcome::Entry(Speed { time: time->0, speed: speed->0, smooth: smooth->0 })
        } else {
            Outcome::Failed
        }
    }
}

/// The angle-only note of a line `type,time,degree`.
pub open spec fn plain_note(f: Seq<Seq<u8>>, kind: i32) -> Outcome<Note> {
    if f.len() != 3 {
        Outcome::Skipped
    } else {
        let t = parse_time(f[1]);
        let d = parse_decimal(f[2]);
        if t is Some && d is Some {
            let time = t->0;
            let degree = d->0;
            Outcome::Entry(Note::plain_of(kind, time, degree))
        } else {
            Outcome::Failed
        }
    }
}

/// The turning note of a line `type,time,degree,delta,prev_curv,next_curv`.
pub open spec fn turning_note(f: Seq<Seq<u8>>, kind: i32) -> Outcome<Note> {
    if f.len() != 6 {
        Outcome::Skipped
    } else {
        let t = parse_time(f[1]);
        let d = parse_decimal(f[2]);
        let w = parse_decimal(f[3]);
        let p = parse_decimal(f[4]);
        let n = parse_decimal(f[5]);
        if t is Some && d is Some && w is Some && p is Some && n is Some {
            let time = t->0;
            let degree = d->0;
            let delta = w->0;
            let prev_curv = p->0;
            let next_curv = n->0;
            Outcome::Entry(Note::turning_of(kind, time, degree, delta, prev_curv, next_curv))
        } else {
            Outcome::Failed
        }
    }
}

/// The slide of a line
/// `2,time,degree,slidetype,end_degree,snap,amount,prev_curv,next_curv`.
pub open spec fn slide_note(f: Seq<Seq<u8>>) -> Outcome<Note> {
    if f.len() != 9 {
        Outcome::Skipped
    } else {
        let t = parse_time(f[1]);
        let d = parse_decimal(f[2]);
        let k = parse_integer(f[3]);
        let e = parse_decimal(f[4]);
        let s = parse_integer(f[5]);
        let a = parse_integer(f[6]);
        let p = parse_decimal(f[7]);
        let n = parse_decimal(f[8]);
        if t is Some && d is Some && k is Some && e is Some && s is Some && a is Some && p is Some
            && n is Some {
            Outcome::Entry(
                Note::Slide(
                    Slide {
                        time: t->0,
                        degree: d->0,
                        slidetype: k->0,
                        end_degree: e->0,
                        snap: s->0,
                        amount: a->0,
                        prev_curv: p->0,
                        next_curv: n->0,
                    },
                ),
            )
        } else {
            Outcome::Failed
        }
    }
}

/// What a line of the note section yields. The first field is the type code
/// of the note. A line of fewer than three fields, of an unknown type or of
/// the wrong number of fields for its type is skipped.
pub open spec fn note_line(line: Seq<u8>) -> Outcome<Note> {
    let f = split(line, COMMA);
    if line.len() == 0 || f.len() < 3 {
        Outcome::Skipped
    } else {
        match parse_integer(f[0]) {
            None => Outcome::Failed,
            Some(kind) => match shape_of(kind) {
                Some(NoteShape::Plain) => plain_note(f, kind),
                Some(NoteShape::Turning) => turning_note(f, kind),
                Some(NoteShape::Sliding) => slide_note(f),
                None => Outcome::Skipped,
            },
        }
    }
}

/// The draft before any line is read.
pub open spec fn empty_draft() -> Draft {
    Draft {
        section: Section::NoSection,
        version: 0,
        bpm: Seq::empty(),
        speed: Seq::empty(),
        note: Seq::empty(),
        skipped: Seq::empty(),
        lines: 0,
    }
}

/// The draft after one more line; `None` if a field of the line that should
/// be a number is none. A line that starts with `# Version` sets the
/// version to its last word; a line that starts with `# BPM`, `# Speed` or
/// `# Note` opens that section; any other line belongs to the section that
/// is open, and outside every section it is passed over.
pub open spec fn step(d: Draft, line: Seq<u8>) -> Option<Draft> {
    let d1 = Draft { lines: d.lines + 1, ..d };
    let skip = Draft { skipped: d.skipped.push(d.lines + 1), ..d1 };
    if starts_with(line, version_tag()) {
        match parse_integer(last_word(line)) {
            Some(v) => Some(Draft { version: v, ..d1 }),
            None => None,
        }
    } else if starts_with(line, bpm_tag()) {
        Some(Draft { section: Section::BpmSection, ..d1 })
    } else if starts_with(line, speed_tag()) {
        Some(Draft { section: Section::SpeedSection, ..d1 })
    } else if starts_with(line, note_tag()) {
        Some(Draft { section: Section::NoteSection, ..d1 })
    } else {
        match d.section {
            Section::NoSection => Some(d1),
            Section::BpmSection => match bpm_line(line) {
                Outcome::Entry(b) => Some(Draft { bpm: d.bpm.push(b), ..d1 }),
                Outcome::Skipped => Some(skip),
                Outcome::Failed => None,
            },
            Section::SpeedSection => match speed_line(line) {
                Outcome::Entry(s) => Some(Draft { speed: d.speed.push(s), ..d1 }),
                Outcome::Skipped => Some(skip),
                Outcome::Failed => None,
            },
            Section::NoteSection => match note_line(line) {
                Outcome::Entry(n) => Some(Draft { note: d.note.push(n), ..d1 }),
                Outcome::Skipped => Some(skip),
                Outcome::Failed => None,
            },
        }
    }
}

/// The first line of a text: what precedes the first line end, less a
/// carriage return right before that line end.
pub open spec fn first_line(text: Seq<u8>) -> Seq<u8> {
    let e = first_at(text, NEWLINE, 0);
    if e < text.len() && e > 0 && text[e - 1] == RETURN {
        text.subrange(0, e - 1)
    } else {
        text.subrange(0, e)
    }
}

/// The text after its first line.
pub open spec fn after_first_line(text: Seq<u8>) -> Seq<u8> {
    let e = first_at(text, NEWLINE, 0);
    if e < text.len() {
        text.skip(e + 1)
    } else {
        Seq::empty()
    }
}

/// The draft after every line of `text`, or the number of the line that
/// failed.
pub open spec fn read_lines(text: Seq<u8>, d: Draft) -> Result<Draft, nat>
    decreases text.len(),
{
    if text.len() == 0 {
        Ok(d)
    } else {
        match step(d, first_line(text)) {
            None => Err(d.lines + 1),
            Some(d2) => {
                proof {
                    lemma_first_at_found(text, NEWLINE, 0);
                }
                read_lines(after_first_line(text), d2)
            },
        }
    }
}

/// What a chart text holds, or the number of the line that failed.
pub open spec fn parse_text(text: Seq<u8>) -> Result<Draft, nat> {
    read_lines(text, empty_draft())
}

/// A chart holds what a draft holds, and no derived table yet.
pub open spec fn holds(chart: Chart, d: Draft) -> bool {
    &&& chart.version == d.version
    &&& chart.offset == 0
    &&& chart.bpm@ == d.bpm
    &&& chart.speed@ == d.speed
    &&& chart.note@ == d.note
    &&& chart.speed_distance@.len() == 0
    &&& chart.speed_distance_plain@.len() == 0
    &&& chart.trail_distance@.len() == 0
    &&& chart.trail_distance_plain@.len() == 0
    &&& chart.hitsound_list@.len() == 0
    &&& chart.phone_trail_distance@.len() == 0
}

/// The line numbers of `skipped` are those of the draft.
pub open spec fn same_lines(skipped: Seq<usize>, d: Draft) -> bool {
    &&& skipped.len() == d.skipped.len()
    &&& forall|i: int| 0 <= i < skipped.len() ==> #[trigger] skipped[i] == d.skipped[i]
}

/// Whether a byte is white space.
fn space(c: u8) -> (r: bool)
    ensures
        r == is_space(c),
{
    c == 32 || (9 <= c && c <= 13)
}

/// The tag `# Version` as bytes.
fn make_version_tag() -> (tag: Vec<u8>)
    ensures
        tag@ == version_tag(),
{
    let mut tag: Vec<u8> = Vec::new();
    tag.push(35);
    tag.push(32);
    tag.push(86);
    tag.push(101);
    tag.push(114);
    tag.push(115);
    tag.push(105);
    tag.push(111);
    tag.push(110);
    assert(tag@ =~= version_tag());
    tag
}

/// The tag `# BPM` as bytes.
fn make_bpm_tag() -> (tag: Vec<u8>)
    ensures
        tag@ == bpm_tag(),
{
    let mut tag: Vec<u8> = Vec::new();
    tag.push(35);
    tag.push(32);
    tag.push(66);
    tag.push(80);
    tag.push(77);
    assert(tag@ =~= bpm_tag());
    tag
}

/// The tag `# Speed` as bytes.
fn make_speed_tag() -> (tag: Vec<u8>)
    ensures
        tag@ == speed_tag(),
{
    let mut tag: Vec<u8> = Vec::new();
    tag.push(35);
    tag.push(32);
    tag.push(83);
    tag.push(112);
    tag.push(101);
    tag.push(101);
    tag.push(100);
    assert(tag@ =~= speed_tag());
    tag
}

/// The tag `# Note` as bytes.
fn make_note_tag() -> (tag: Vec<u8>)
    ensures
        tag@ == note_tag(),
{
    let mut tag: Vec<u8> = Vec::new();
    tag.push(35);
    tag.push(32);
    tag.push(78);
    tag.push(111);
    tag.push(116);
    tag.push(101);
    assert(tag@ =~= note_tag());
    tag
}

/// Whether `text[start..end]` starts with `tag`.
fn has_tag(text: &[u8], start: usize, end: usize, tag: &Vec<u8>) -> (r: bool)
    requires
        start <= end <= text@.len(),
    ensures
        r == starts_with(text@.subrange(start as int, end as int), tag@),
{
    let ghost line = text@.subrange(start as int, end as int);
    if end - start < tag.len() {
        return false;
    }
    let mut i: usize = 0;
    while i < tag.len()
        invariant
            0 <= i <= tag.len(),
            start <= end <= text@.len(),
            end - start >= tag.len(),
            line == text@.subrange(start as int, end as int),
            forall|k: int| 0 <= k < i ==> line[k] == tag@[k],
        decreases tag.len() - i,
    {
        if text[start + i] != tag[i] {
            assert(line[i as int] == text@[start + i]);
            assert(line.subrange(0, tag.len() as int)[i as int] != tag@[i as int]);
            return false;
        }
        assert(line[i as int] == text@[start + i]);
        i = i + 1;
    }
    assert(line.subrange(0, tag.len() as int) =~= tag@);
    true
}

/// The range of the last word of `text[start..end]`.
fn last_word_range(text: &[u8], start: usize, end: usize) -> (r: (usize, usize))
    requires
        start <= end <= text@.len(),
    ensures
        start <= r.0 <= r.1 <= end,
        text@.subrange(r.0 as int, r.1 as int) == last_word(
            text@.subrange(start as int, end as int),
        ),
{
    let ghost line = text@.subrange(start as int, end as int);
    let mut e: usize = end;
    while e > start && space(text[e - 1])
        invariant
            start <= e <= end <= text@.len(),
            line == text@.subrange(start as int, end as int),
            word_end(line, line.len() as int) == word_end(line, e - start),
        decreases e,
    {
        assert(line[e - 1 - start] == text@[e - 1]);
        e = e - 1;
    }
    assert(e > start ==> line[e - 1 - start] == text@[e - 1]);
    let b: usize = e;
    while e > start && !space(text[e - 1])
        invariant
            start <= e <= b <= end <= text@.len(),
            line == text@.subrange(start as int, end as int),
            word_start(line, b - start) == word_start(line, e - start),
        decreases e,
    {
        assert(line[e - 1 - start] == text@[e - 1]);
        e = e - 1;
    }
    assert(e > start ==> line[e - 1 - start] == text@[e - 1]);
    assert(text@.subrange(e as int, b as int) =~= line.subrange(e - start, b - start));
    (e, b)
}

/// The text of each field range.
pub open spec fn field_texts(text: Seq<u8>, fields: Seq<(usize, usize)>) -> Seq<Seq<u8>> {
    Seq::new(fields.len(), |i: int| text.subrange(fields[i].0 as int, fields[i].1 as int))
}

/// The ranges of the fields of `text[start..end]` that commas separate.
#[verifier::rlimit(40)]
fn split_fields(text: &[u8], start: usize, end: usize) -> (fields: Vec<(usize, usize)>)
    requires
        start <= end <= text@.len(),
    ensures
        field_texts(text@, fields@) == split(text@.subrange(start as int, end as int), COMMA),
        forall|i: int|
            0 <= i < fields@.len() ==> start <= (#[trigger] fields@[i]).0 <= fields@[i].1 <= end,
{
    let ghost line = text@.subrange(start as int, end as int);
    let mut fields: Vec<(usize, usize)> = Vec::new();
    let mut cur: usize = start;
    assert(line.skip(0) =~= line);
    assert(field_texts(text@, fields@) =~= Seq::<Seq<u8>>::empty());
    loop
        invariant_except_break
            split(line, COMMA) == field_texts(text@, fields@) + split(
                line.skip(cur - start),
                COMMA,
            ),
        invariant
            start <= cur <= end <= text@.len(),
            line == text@.subrange(start as int, end as int),
            forall|i: int|
                0 <= i < fields@.len() ==> start <= (#[trigger] fields@[i]).0 <= fields@[i].1
                    <= end,
        ensures
            split(line, COMMA) == field_texts(text@, fields@),
        decreases end - cur,
    {
        let e: usize = find_byte(text, cur, end, COMMA);
        let ghost rest = line.skip(cur - start);
        let ghost before = field_texts(text@, fields@);
        proof {
            assert(rest =~= text@.subrange(cur as int, end as int));
        }
        fields.push((cur, e));
        proof {
            assert(field_texts(text@, fields@) =~= before.push(
                text@.subrange(cur as int, e as int),
            ));
        }
        if e >= end {
            proof {
                assert(text@.subrange(cur as int, e as int) =~= rest);
                assert(split(rest, COMMA) =~= seq![rest]);
                assert(before.push(rest) =~= before + seq![rest]);
            }
            break ;
        }
        proof {
            assert(rest.subrange(0, e - cur) =~= text@.subrange(cur as int, e as int));
            assert(rest.skip(e - cur + 1) =~= line.skip(e + 1 - start));
            assert(split(rest, COMMA) =~= seq![rest.subrange(0, e - cur)] + split(
                rest.skip(e - cur + 1),
                COMMA,
            ));
            assert(before + (seq![rest.subrange(0, e - cur)] + split(
                rest.skip(e - cur + 1),
                COMMA,
            )) =~= before.push(rest.subrange(0, e - cur)) + split(
                rest.skip(e - cur + 1),
                COMMA,
            ));
        }
        cur = e + 1;
    }
    fields
}

/// Reads field `i` as a fixed-point number.
fn decimal_field(text: &[u8], fields: &Vec<(usize, usize)>, i: usize) -> (r: Option<i64>)
    requires
        i < fields@.len(),
        forall|k: int|
            0 <= k < fields@.len() ==> (#[trigger] fields@[k]).0 <= fields@[k].1 <= text@.len(),
    ensures
        r == parse_decimal(field_texts(text@, fields@)[i as int]),
{
    let range: (usize, usize) = fields[i];
    assert(fields@[i as int].0 <= fields@[i as int].1 <= text@.len());
    read_decimal(text, range.0, range.1)
}

/// Reads field `i` as a time.
fn time_field(text: &[u8], fields: &Vec<(usize, usize)>, i: usize) -> (r: Option<i64>)
    requires
        i < fields@.len(),
        forall|k: int|
            0 <= k < fields@.len() ==> (#[trigger] fields@[k]).0 <= fields@[k].1 <= text@.len(),
    ensures
        r == parse_time(field_texts(text@, fields@)[i as int]),
{
    let range: (usize, usize) = fields[i];
    assert(fields@[i as int].0 <= fields@[i as int].1 <= text@.len());
    read_time(text, range.0, range.1)
}

/// Reads field `i` as a whole number.
fn integer_field(text: &[u8], fields: &Vec<(usize, usize)>, i: usize) -> (r: Option<i32>)
    requires
        i < fields@.len(),
        forall|k: int|
            0 <= k < fields@.len() ==> (#[trigger] fields@[k]).0 <= fields@[k].1 <= text@.len(),
    ensures
        r == parse_integer(field_texts(text@, fields@)[i as int]),
{
    let range: (usize, usize) = fields[i];
    assert(fields@[i as int].0 <= fields@[i as int].1 <= text@.len());
    read_integer(text, range.0, range.1)
}

/// Reads a line of the tempo section.
fn read_bpm_line(text: &[u8], start: usize, end: usize) -> (r: Outcome<BPM>)
    requires
        start <= end <= text@.len(),
    ensures
        r == bpm_line(text@.subrange(start as int, end as int)),
{
    let fields: Vec<(usize, usize)> = split_fields(text, start, end);
    if start == end || fields.len() != 2 {
        return Outcome::Skipped;
    }
    match (time_field(text, &fields, 0), decimal_field(text, &fields, 1)) {
        (Some(time), Some(bpm)) => Outcome::Entry(BPM::new(time, bpm)),
        _ => Outcome::Failed,
    }
}

/// Reads a line of the speed section.
fn read_speed_line(text: &[u8], start: usize, end: usize) -> (r: Outcome<Speed>)
    requires
        start <= end <= text@.len(),
    ensures
        r == speed_line(text@.subrange(start as int, end as int)),
{
    let fields: Vec<(usize, usize)> = split_fields(text, start, end);
    if start == end || fields.len() != 3 {
        return Outcome::Skipped;
    }
    match (
        time_field(text, &fields, 0),
        decimal_field(text, &fields, 1),
        integer_field(text, &fields, 2),
    ) {
        (Some(time), Some(speed), Some(smooth)) => Outcome::Entry(Speed::new(time, speed, smooth)),
        _ => Outcome::Failed,
    }
}

/// Reads an angle-only note from the fields of its line.
fn read_plain_note(text: &[u8], fields: &Vec<(usize, usize)>, kind: i32) -> (r: Outcome<Note>)
    requires
        shape_of(kind) == Some(NoteShape::Plain),
        forall|k: int|
            0 <= k < fields@.len() ==> (#[trigger] fields@[k]).0 <= fields@[k].1 <= text@.len(),
    ensures
        r == plain_note(field_texts(text@, fields@), kind),
{
    if fields.len() != 3 {
        return Outcome::Skipped;
    }
    match (time_field(text, fields, 1), decimal_field(text, fields, 2)) {
        (Some(time), Some(degree)) => Outcome::Entry(Note::plain(kind, time, degree)),
        _ => Outcome::Failed,
    }
}

/// Reads a turning note from the fields of its line.
fn read_turning_note(text: &[u8], fields: &Vec<(usize, usize)>, kind: i32) -> (r: Outcome<Note>)
    requires
        shape_of(kind) == Some(NoteShape::Turning),
        forall|k: int|
            0 <= k < fields@.len() ==> (#[trigger] fields@[k]).0 <= fields@[k].1 <= text@.len(),
    ensures
        r == turning_note(field_texts(text@, fields@), kind),
{
    if fields.len() != 6 {
        return Outcome::Skipped;
    }
    match (
        time_field(text, fields, 1),
        decimal_field(text, fields, 2),
        decimal_field(text, fields, 3),
        decimal_field(text, fields, 4),
        decimal_field(text, fields, 5),
    ) {
        (Some(time), Some(degree), Some(delta), Some(prev_curv), Some(next_curv)) => {
            Outcome::Entry(Note::turning(kind, time, degree, delta, prev_curv, next_curv))
        },
        _ => Outcome::Failed,
    }
}

/// Reads a slide from the fields of its line.
fn read_slide_note(text: &[u8], fields: &Vec<(usize, usize)>) -> (r: Outcome<Note>)
    requires
        forall|k: int|
            0 <= k < fields@.len() ==> (#[trigger] fields@[k]).0 <= fields@[k].1 <= text@.len(),
    ensures
        r == slide_note(field_texts(text@, fields@)),
{
    if fields.len() != 9 {
        return Outcome::Skipped;
    }
    match (
        time_field(text, fields, 1),
        decimal_field(text, fields, 2),
        integer_field(text, fields, 3),
        decimal_field(text, fields, 4),
        integer_field(text, fields, 5),
        integer_field(text, fields, 6),
        decimal_field(text, fields, 7),
        decimal_field(text, fields, 8),
    ) {
        (
            Some(time),
            Some(degree),
            Some(slidetype),
            Some(end_degree),
            Some(snap),
            Some(amount),
            Some(prev_curv),
            Some(next_curv),
        ) => Outcome::Entry(
            Note::Slide(
                Slide::new(
                    time,
                    degree,
                    slidetype,
                    end_degree,
                    snap,
                    amount,
                    prev_curv,
                    next_curv,
                ),
            ),
        ),
        _ => Outcome::Failed,
    }
}

/// Reads a line of the note section.
fn read_note_line(text: &[u8], start: usize, end: usize) -> (r: Outcome<Note>)
    requires
        start <= end <= text@.len(),
    ensures
        r == note_line(text@.subrange(start as int, end as int)),
{
    let fields: Vec<(usize, usize)> = split_fields(text, start, end);
    if start == end || fields.len() < 3 {
        return Outcome::Skipped;
    }
    match integer_field(text, &fields, 0) {
        None => Outcome::Failed,
        Some(kind) => match shape_of_code(kind) {
            Some(NoteShape::Plain) => read_plain_note(text, &fields, kind),
            Some(NoteShape::Turning) => read_turning_note(text, &fields, kind),
            Some(NoteShape::Sliding) => read_slide_note(text, &fields),
            None => Outcome::Skipped,
        },
    }
}

/// Reads a chart text. Gives the chart that the text holds, with no derived
/// table yet, and the numbers of the lines that were skipped; or the number
/// of the first line with a field that should be a number and is none.
#[verifier::rlimit(40)]
pub fn parse_official(text: &[u8]) -> (r: Result<(Chart, Vec<usize>), LoadError>)
    ensures
        match parse_text(text@) {
            Ok(d) => r is Ok && holds(r->Ok_0.0, d) && same_lines(r->Ok_0.1@, d),
            Err(line) => r == Err::<(Chart, Vec<usize>), LoadError>(
                LoadError::BadNumber { line: line as usize },
            ) && line <= usize::MAX,
        },
{
    let version_bytes: Vec<u8> = make_version_tag();
    let bpm_bytes: Vec<u8> = make_bpm_tag();
    let speed_bytes: Vec<u8> = make_speed_tag();
    let note_bytes: Vec<u8> = make_note_tag();
    let mut chart: Chart = Chart::create_empty_chart();
    let mut skipped: Vec<usize> = Vec::new();
    let mut section: Section = Section::NoSection;
    let mut lines: usize = 0;
    let mut pos: usize = 0;
    let len: usize = text.len();
    let ghost mut d: Draft = empty_draft();
    proof {
        assert(text@.skip(0) =~= text@);
        assert(chart.bpm@ =~= d.bpm && chart.speed@ =~= d.speed && chart.note@ =~= d.note);
    }
    while pos < len
        invariant
            0 <= pos <= len,
            len == text@.len(),
            lines <= pos,
            version_bytes@ == version_tag(),
            bpm_bytes@ == bpm_tag(),
            speed_bytes@ == speed_tag(),
            note_bytes@ == note_tag(),
            read_lines(text@, empty_draft()) == read_lines(text@.skip(pos as int), d),
            holds(chart, d),
            same_lines(skipped@, d),
            d.section == section,
            d.lines == lines,
        decreases len - pos,
    {
        let e: usize = find_byte(text, pos, len, NEWLINE);
        let line_end: usize = if e < len && e > pos && text[e - 1] == RETURN {
            e - 1
        } else {
            e
        };
        let next: usize = if e < len {
            e + 1
        } else {
            len
        };
        let ghost rest = text@.skip(pos as int);
        let ghost line = text@.subrange(pos as int, line_end as int);
        proof {
            assert(rest =~= text@.subrange(pos as int, len as int));
            assert(first_at(rest, NEWLINE, 0) == e - pos);
            if e > pos {
                assert(rest[e - pos - 1] == text@[e - 1]);
            }
            assert(first_line(rest) =~= line);
            assert(after_first_line(rest) =~= text@.skip(next as int));
        }
        lines = lines + 1;
        let ghost d0 = d;
        if has_tag(text, pos, line_end, &version_bytes) {
            let word: (usize, usize) = last_word_range(text, pos, line_end);
            match read_integer(text, word.0, word.1) {
                Some(v) => {
                    chart.version = v;
                    proof {
                        d = Draft { version: v, lines: d0.lines + 1, ..d0 };
                    }
                },
                None => {
                    return Err(LoadError::BadNumber { line: lines });
                },
            }
        } else if has_tag(text, pos, line_end, &bpm_bytes) {
            section = Section::BpmSection;
            proof {
                d = Draft { section: Section::BpmSection, lines: d0.lines + 1, ..d0 };
            }
        } else if has_tag(text, pos, line_end, &speed_bytes) {
            section = Section::SpeedSection;
            proof {
                d = Draft { section: Section::SpeedSection, lines: d0.lines + 1, ..d0 };
            }
        } else if has_tag(text, pos, line_end, &note_bytes) {
            section = Section::NoteSection;
            proof {
                d = Draft { section: Section::NoteSection, lines: d0.lines + 1, ..d0 };
            }
        } else {
            match section {
                Section::NoSection => {
                    proof {
                        d = Draft { lines: d0.lines + 1, ..d0 };
                    }
                },
                Section::BpmSection => match read_bpm_line(text, pos, line_end) {
                    Outcome::Entry(b) => {
                        chart.bpm.push(b);
                        proof {
                            d = Draft { bpm: d0.bpm.push(b), lines: d0.lines + 1, ..d0 };
                        }
                    },
                    Outcome::Skipped => {
                        skipped.push(lines);
                        proof {
                            d = Draft {
                                skipped: d0.skipped.push(d0.lines + 1),
                                lines: d0.lines + 1,
                                ..d0
                            };
                        }
                    },
                    Outcome::Failed => {
                        return Err(LoadError::BadNumber { line: lines });
                    },
                },
                Section::SpeedSection => match read_speed_line(text, pos, line_end) {
                    Outcome::Entry(s) => {
                        chart.speed.push(s);
                        proof {
                            d = Draft { speed: d0.speed.push(s), lines: d0.lines + 1, ..d0 };
                        }
                    },
                    Outcome::Skipped => {
                        skipped.push(lines);
                        proof {
                            d = Draft {
                                skipped: d0.skipped.push(d0.lines + 1),
                                lines: d0.lines + 1,
                                ..d0
                            };
                        }
                    },
                    Outcome::Failed => {
                        return Err(LoadError::BadNumber { line: lines });
                    },
                },
                Section::NoteSection => match read_note_line(text, pos, line_end) {
                    Outcome::Entry(n) => {
                        chart.note.push(n);
                        proof {
                            d = Draft { note: d0.note.push(n), lines: d0.lines + 1, ..d0 };
                        }
                    },
                    Outcome::Skipped => {
                        skipped.push(lines);
                        proof {
                            d = Draft {
                                skipped: d0.skipped.push(d0.lines + 1),
                                lines: d0.lines + 1,
                                ..d0
                            };
                        }
                    },
                    Outcome::Failed => {
                        return Err(LoadError::BadNumber { line: lines });
                    },
                },
            }
        }
        proof {
            assert(step(d0, line) == Some(d));
        }
        pos = next;
    }
    proof {
        assert(text@.skip(len as int).len() == 0);
    }
    Ok((chart, skipped))
}

/// The fields joined by commas.
pub open spec fn joined(fields: Seq<Seq<u8>>) -> Seq<u8>
    decreases fields.len(),
{
    if fields.len() == 0 {
        Seq::empty()
    } else if fields.len() == 1 {
        fields[0]
    } else {
        fields[0] + seq![COMMA] + joined(fields.drop_first())
    }
}

/// The lines, each followed by a line end.
pub open spec fn render(lines: Seq<Seq<u8>>) -> Seq<u8>
    decreases lines.len(),
{
    if lines.len() == 0 {
        Seq::empty()
    } else {
        render(lines.drop_last()) + lines.last() + seq![NEWLINE]
    }
}

/// The fields of a tempo point: `time,bpm`.
pub open spec fn bpm_fields(b: BPM) -> Seq<Seq<u8>> {
    seq![format_time(b.time as int), format_decimal(b.bpm as int)]
}

/// The fields of a speed point: `time,speed,smooth`.
pub open spec fn speed_fields(s: Speed) -> Seq<Seq<u8>> {
    seq![
        format_time(s.time as int),
        format_decimal(s.speed as int),
        format_integer(s.smooth as int),
    ]
}

/// The fields of a note: its type code, then its time, its angle and what
/// else it holds, in the order of the format.
pub open spec fn note_fields(note: Note) -> Seq<Seq<u8>> {
    match note {
        Note::Tap(n) => seq![
                format_integer(TAP_CODE as int),
                format_time(n.time as int),
                format_decimal(n.degree as int),
            ],
        Note::Flick(n) => seq![
                format_integer(FLICK_CODE as int),
                format_time(n.time as int),
                format_decimal(n.degree as int),
            ],
        Note::Slide(n) => seq![
                format_integer(SLIDE_CODE as int),
                format_time(n.time as int),
                format_decimal(n.degree as int),
                format_integer(n.slidetype as int),
                format_decimal(n.end_degree as int),
                format_integer(n.snap as int),
                format_integer(n.amount as int),
                format_decimal(n.prev_curv as int),
                format_decimal(n.next_curv as int),
            ],
        Note::Rotate(n) => seq![
                format_integer(ROTATE_CODE as int),
                format_time(n.time as int),
                format_decimal(n.degree as int),
                format_decimal(n.delta as int),
                format_decimal(n.prev_curv as int),
                format_decimal(n.next_curv as int),
            ],
        Note::Catch(n) => seq![
                format_integer(CATCH_CODE as int),
                format_time(n.time as int),
                format_decimal(n.degree as int),
            ],
        Note::Trail(n) => seq![
                format_integer(TRAIL_CODE as int),
                format_time(n.time as int),
                format_decimal(n.degree as int),
                format_decimal(n.delta as int),
                format_decimal(n.prev_curv as int),
                format_decimal(n.next_curv as int),
            ],
        Note::Bomb(n) => seq![
                format_integer(BOMB_CODE as int),
                format_time(n.time as int),
                format_decimal(n.degree as int),
            ],
    }
}

/// The line `# Version <version>`.
pub open spec fn version_line(version: i32) -> Seq<u8> {
    version_tag() + seq![32u8] + format_integer(version as int)
}

/// The lines of the tempo points.
pub open spec fn bpm_lines(bpm: Seq<BPM>) -> Seq<Seq<u8>> {
    Seq::new(bpm.len(), |i: int| joined(bpm_fields(bpm[i])))
}

/// The lines of the speed points.
pub open spec fn speed_lines(speed: Seq<Speed>) -> Seq<Seq<u8>> {
    Seq::new(speed.len(), |i: int| joined(speed_fields(speed[i])))
}

/// The lines of the notes.
pub open spec fn note_lines(note: Seq<Note>) -> Seq<Seq<u8>> {
    Seq::new(note.len(), |i: int| joined(note_fields(note[i])))
}

/// The lines of a chart text: the version, then each section after an empty
/// line and its tag.
pub open spec fn official_lines(
    version: i32,
    bpm: Seq<BPM>,
    speed: Seq<Speed>,
    note: Seq<Note>,
) -> Seq<Seq<u8>> {
    seq![version_line(version), Seq::empty(), bpm_tag()] + bpm_lines(bpm) + seq![
        Seq::empty(),
        speed_tag(),
    ] + speed_lines(speed) + seq![Seq::empty(), note_tag()] + note_lines(note)
}

/// The text of a chart.
pub open spec fn official_text(
    version: i32,
    bpm: Seq<BPM>,
    speed: Seq<Speed>,
    note: Seq<Note>,
) -> Seq<u8> {
    render(official_lines(version, bpm, speed, note))
}

/// One more field behind a list of fields that is not empty goes behind a
/// comma.
pub proof fn lemma_joined_push(fields: Seq<Seq<u8>>, f: Seq<u8>)
    requires
        fields.len() >= 1,
    ensures
        joined(fields.push(f)) == joined(fields) + seq![COMMA] + f,
    decreases fields.len(),
{
    let more = fields.push(f);
    assert(more[0] == fields[0]);
    if fields.len() == 1 {
        assert(more.drop_first() =~= seq![f]);
        assert(joined(more.drop_first()) == f);
    } else {
        lemma_joined_push(fields.drop_first(), f);
        assert(more.drop_first() =~= fields.drop_first().push(f));
        assert(joined(more) =~= joined(fields) + seq![COMMA] + f);
    }
}

/// Appends a comma and the fixed-point number `v` to a line that holds the
/// fields `fs` so far.
fn push_next_decimal(
    out: &mut Vec<u8>,
    v: i64,
    Ghost(before): Ghost<Seq<u8>>,
    Ghost(fs): Ghost<Seq<Seq<u8>>>,
)
    requires
        fs.len() >= 1,
        old(out)@ == before + joined(fs),
    ensures
        final(out)@ == before + joined(fs.push(format_decimal(v as int))),
{
    out.push(COMMA);
    push_decimal(out, v);
    proof {
        lemma_joined_push(fs, format_decimal(v as int));
        assert(out@ =~= before + joined(fs.push(format_decimal(v as int))));
    }
}

/// Appends a comma and the time `v` to a line that holds the fields `fs` so
/// far.
fn push_next_time(
    out: &mut Vec<u8>,
    v: i64,
    Ghost(before): Ghost<Seq<u8>>,
    Ghost(fs): Ghost<Seq<Seq<u8>>>,
)
    requires
        fs.len() >= 1,
        old(out)@ == before + joined(fs),
    ensures
        final(out)@ == before + joined(fs.push(format_time(v as int))),
{
    out.push(COMMA);
    push_time(out, v);
    proof {
        lemma_joined_push(fs, format_time(v as int));
        assert(out@ =~= before + joined(fs.push(format_time(v as int))));
    }
}

/// Appends a comma and the whole number `v` to a line that holds the fields
/// `fs` so far.
fn push_next_integer(
    out: &mut Vec<u8>,
    v: i32,
    Ghost(before): Ghost<Seq<u8>>,
    Ghost(fs): Ghost<Seq<Seq<u8>>>,
)
    requires
        fs.len() >= 1,
        old(out)@ == before + joined(fs),
    ensures
        final(out)@ == before + joined(fs.push(format_integer(v as int))),
{
    out.push(COMMA);
    push_integer(out, v);
    proof {
        lemma_joined_push(fs, format_integer(v as int));
        assert(out@ =~= before + joined(fs.push(format_integer(v as int))));
    }
}

/// Appends the line of a note, without its line end.
#[verifier::rlimit(40)]
fn push_note_line(out: &mut Vec<u8>, note: &Note)
    ensures
        final(out)@ == old(out)@ + joined(note_fields(*note)),
{
    let ghost before = out@;
    let ghost mut fs: Seq<Seq<u8>> = Seq::empty();
    match note {
        Note::Tap(n) => {
            push_integer(out, TAP_CODE);
            proof {
                fs = seq![format_integer(TAP_CODE as int)];
                assert(out@ =~= before + joined(fs));
            }
            push_next_time(out, n.time, Ghost(before), Ghost(fs));
            proof {
                fs = fs.push(format_time(n.time as int));
            }
            push_next_decimal(out, n.degree, Ghost(before), Ghost(fs));
            proof {
                fs = fs.push(format_decimal(n.degree as int));
            }
            proof {
                assert(fs =~= note_fields(*note));
            }
        },
        Note::Flick(n) => {
            push_integer(out, FLICK_CODE);
            proof {
                fs = seq![format_integer(FLICK_CODE as int)];
                assert(out@ =~= before + joined(fs));
            }
            push_next_time(out, n.time, Ghost(before), Ghost(fs));
            proof {
                fs = fs.push(format_time(n.time as int));
            }
            push_next_decimal(out, n.degree, Ghost(before), Ghost(fs));
            proof {
                fs = fs.push(format_decimal(n.degree as int));
            }
            proof {
                assert(fs =~= note_fields(*note));
            }
        },
        Note::Slide(n) => {
            push_integer(out, SLIDE_CODE);
            proof {
                fs = seq![format_integer(SLIDE_CODE as int)];
                assert(out@ =~= before + joined(fs));
            }
            push_next_time(out, n.time, Ghost(before), Ghost(fs));
            proof {
                fs = fs.push(format_time(n.time as int));
            }
            push_next_decimal(out, n.degree, Ghost(before), Ghost(fs));
            proof {
                fs = fs.push(format_decimal(n.degree as int));
            }
            push_next_integer(out, n.slidetype, Ghost(before), Ghost(fs));
            proof {
                fs = fs.push(format_integer(n.slidetype as int));
            }
            push_next_decimal(out, n.end_degree, Ghost(before), Ghost(fs));
            proof {
                fs = fs.push(format_decimal(n.end_degree as int));
            }
            push_next_integer(out, n.snap, Ghost(before), Ghost(fs));
            proof {
                fs = fs.push(format_integer(n.snap as int));
            }
            push_next_integer(out, n.amount, Ghost(before), Ghost(fs));
            proof {
                fs = fs.push(format_integer(n.amount as int));
            }
            push_next_decimal(out, n.prev_curv, Ghost(before), Ghost(fs));
            proof {
                fs = fs.push(format_decimal(n.prev_curv as int));
            }
            push_next_decimal(out, n.next_curv, Ghost(before), Ghost(fs));
            proof {
                fs = fs.push(format_decimal(n.next_curv as int));
            }
            proof {
                assert(fs =~= note_fields(*note));
            }
        },
        Note::Rotate(n) => {
            push_integer(out, ROTATE_CODE);
            proof {
                fs = seq![format_integer(ROTATE_CODE as int)];
                assert(out@ =~= before + joined(fs));
            }
            push_next_time(out, n.time, Ghost(before), Ghost(fs));
            proof {
                fs = fs.push(format_time(n.time as int));
            }
            push_next_decimal(out, n.degree, Ghost(before), Ghost(fs));
            proof {
                fs = fs.push(format_decimal(n.degree as int));
            }
            push_next_decimal(out, n.delta, Ghost(before), Ghost(fs));
            proof {
                fs = fs.push(format_decimal(n.delta as int));
            }
            push_next_decimal(out, n.prev_curv, Ghost(before), Ghost(fs));
            proof {
                fs = fs.push(format_decimal(n.prev_curv as int));
            }
            push_next_decimal(out, n.next_curv, Ghost(before), Ghost(fs));
            proof {
                fs = fs.push(format_decimal(n.next_curv as int));
            }
            proof {
                assert(fs =~= note_fields(*note));
            }
        },
        Note::Catch(n) => {
            push_integer(out, CATCH_CODE);
            proof {
                fs = seq![format_integer(CATCH_CODE as int)];
                assert(out@ =~= before + joined(fs));
            }
            push_next_time(out, n.time, Ghost(before), Ghost(fs));
            proof {
                fs = fs.push(format_time(n.time as int));
            }
            push_next_decimal(out, n.degree, Ghost(before), Ghost(fs));
            proof {
                fs = fs.push(format_decimal(n.degree as int));
            }
            proof {
                assert(fs =~= note_fields(*note));
            }
        },
        Note::Trail(n) => {
            push_integer(out, TRAIL_CODE);
            proof {
                fs = seq![format_integer(TRAIL_CODE as int)];
                assert(out@ =~= before + joined(fs));
            }
            push_next_time(out, n.time, Ghost(before), Ghost(fs));
            proof {
                fs = fs.push(format_time(n.time as int));
            }
            push_next_decimal(out, n.degree, Ghost(before), Ghost(fs));
            proof {
                fs = fs.push(format_decimal(n.degree as int));
            }
            push_next_decimal(out, n.delta, Ghost(before), Ghost(fs));
            proof {
                fs = fs.push(format_decimal(n.delta as int));
            }
            push_next_decimal(out, n.prev_curv, Ghost(before), Ghost(fs));
            proof {
                fs = fs.push(format_decimal(n.prev_curv as int));
            }
            push_next_decimal(out, n.next_curv, Ghost(before), Ghost(fs));
            proof {
                fs = fs.push(format_decimal(n.next_curv as int));
            }
            proof {
                assert(fs =~= note_fields(*note));
            }
        },
        Note::Bomb(n) => {
            push_integer(out, BOMB_CODE);
            proof {
                fs = seq![format_integer(BOMB_CODE as int)];
                assert(out@ =~= before + joined(fs));
            }
            push_next_time(out, n.time, Ghost(before), Ghost(fs));
            proof {
                fs = fs.push(format_time(n.time as int));
            }
            push_next_decimal(out, n.degree, Ghost(before), Ghost(fs));
            proof {
                fs = fs.push(format_decimal(n.degree as int));
            }
            proof {
                assert(fs =~= note_fields(*note));
            }
        },
    }
}

/// Appends the bytes of `tag` and a line end.
fn push_tag_line(out: &mut Vec<u8>, tag: &Vec<u8>)
    ensures
        final(out)@ == old(out)@ + tag@ + seq![NEWLINE],
{
    let ghost before = out@;
    let mut i: usize = 0;
    while i < tag.len()
        invariant
            0 <= i <= tag.len(),
            out@ == before + tag@.subrange(0, i as int),
        decreases tag.len() - i,
    {
        out.push(tag[i]);
        assert(out@ =~= before + tag@.subrange(0, i + 1));
        i = i + 1;
    }
    out.push(NEWLINE);
    assert(out@ =~= before + tag@ + seq![NEWLINE]);
}

/// Writes the text of a chart: its version, tempo points, speed points and
/// notes.
#[verifier::rlimit(40)]
pub fn write_official(chart: &Chart) -> (out: Vec<u8>)
    ensures
        out@ == official_text(chart.version, chart.bpm@, chart.speed@, chart.note@),
{
    let mut out: Vec<u8> = Vec::new();
    let version_bytes: Vec<u8> = make_version_tag();
    let bpm_bytes: Vec<u8> = make_bpm_tag();
    let speed_bytes: Vec<u8> = make_speed_tag();
    let note_bytes: Vec<u8> = make_note_tag();
    let ghost mut lines: Seq<Seq<u8>> = Seq::empty();
    let ghost version = chart.version;
    let ghost bpm = chart.bpm@;
    let ghost speed = chart.speed@;
    let ghost note = chart.note@;
    // # Version <version>
    let mut i: usize = 0;
    while i < version_bytes.len()
        invariant
            0 <= i <= version_bytes.len(),
            out@ == version_bytes@.subrange(0, i as int),
        decreases version_bytes.len() - i,
    {
        out.push(version_bytes[i]);
        assert(out@ =~= version_bytes@.subrange(0, i + 1));
        i = i + 1;
    }
    out.push(32);
    push_integer(&mut out, chart.version);
    out.push(NEWLINE);
    proof {
        lines = seq![version_line(version)];
        assert(lines.drop_last() =~= Seq::<Seq<u8>>::empty());
        assert(render(lines.drop_last()) =~= Seq::<u8>::empty());
        assert(out@ =~= render(lines));
    }
    // an empty line, then # BPM
    out.push(NEWLINE);
    proof {
        let more = lines.push(Seq::empty());
        assert(more.drop_last() =~= lines);
        assert(out@ =~= render(more));
        lines = more;
    }
    push_tag_line(&mut out, &bpm_bytes);
    proof {
        let more = lines.push(bpm_tag());
        assert(more.drop_last() =~= lines);
        assert(out@ =~= render(more));
        lines = more;
    }
    let ghost head = lines;
    i = 0;
    while i < chart.bpm.len()
        invariant
            0 <= i <= chart.bpm.len(),
            bpm == chart.bpm@,
            out@ == render(head + bpm_lines(bpm).subrange(0, i as int)),
        decreases chart.bpm.len() - i,
    {
        let ghost before = out@;
        let b: BPM = chart.bpm[i];
        push_time(&mut out, b.time);
        proof {
            assert(out@ =~= before + joined(seq![format_time(b.time as int)]));
        }
        let ghost one = seq![format_time(b.time as int)];
        push_next_decimal(&mut out, b.bpm, Ghost(before), Ghost(one));
        out.push(NEWLINE);
        proof {
            let sofar = head + bpm_lines(bpm).subrange(0, i as int);
            let more = head + bpm_lines(bpm).subrange(0, i + 1);
            assert(seq![format_time(b.time as int)].push(format_decimal(b.bpm as int))
                =~= bpm_fields(b));
            assert(more.drop_last() =~= sofar);
            assert(more.last() == joined(bpm_fields(b)));
            assert(out@ =~= render(more));
        }
        i = i + 1;
    }
    proof {
        assert(bpm_lines(bpm).subrange(0, bpm.len() as int) =~= bpm_lines(bpm));
        lines = head + bpm_lines(bpm);
    }
    // an empty line, then # Speed
    out.push(NEWLINE);
    proof {
        let more = lines.push(Seq::empty());
        assert(more.drop_last() =~= lines);
        assert(out@ =~= render(more));
        lines = more;
    }
    push_tag_line(&mut out, &speed_bytes);
    proof {
        let more = lines.push(speed_tag());
        assert(more.drop_last() =~= lines);
        assert(out@ =~= render(more));
        lines = more;
    }
    let ghost head2 = lines;
    i = 0;
    while i < chart.speed.len()
        invariant
            0 <= i <= chart.speed.len(),
            speed == chart.speed@,
            out@ == render(head2 + speed_lines(speed).subrange(0, i as int)),
        decreases chart.speed.len() - i,
    {
        let ghost before = out@;
        let s: Speed = chart.speed[i];
        push_time(&mut out, s.time);
        proof {
            assert(out@ =~= before + joined(seq![format_time(s.time as int)]));
        }
        let ghost one = seq![format_time(s.time as int)];
        let ghost two = one.push(format_decimal(s.speed as int));
        push_next_decimal(&mut out, s.speed, Ghost(before), Ghost(one));
        push_next_integer(&mut out, s.smooth, Ghost(before), Ghost(two));
        out.push(NEWLINE);
        proof {
            let sofar = head2 + speed_lines(speed).subrange(0, i as int);
            let more = head2 + speed_lines(speed).subrange(0, i + 1);
            assert(seq![format_time(s.time as int)].push(format_decimal(s.speed as int)).push(
                format_integer(s.smooth as int),
            ) =~= speed_fields(s));
            assert(more.drop_last() =~= sofar);
            assert(more.last() == joined(speed_fields(s)));
            assert(out@ =~= render(more));
        }
        i = i + 1;
    }
    proof {
        assert(speed_lines(speed).subrange(0, speed.len() as int) =~= speed_lines(speed));
        lines = head2 + speed_lines(speed);
    }
    // an empty line, then # Note
    out.push(NEWLINE);
    proof {
        let more = lines.push(Seq::empty());
        assert(more.drop_last() =~= lines);
        assert(out@ =~= render(more));
        lines = more;
    }
    push_tag_line(&mut out, &note_bytes);
    proof {
        let more = lines.push(note_tag());
        assert(more.drop_last() =~= lines);
        assert(out@ =~= render(more));
        lines = more;
    }
    let ghost head3 = lines;
    i = 0;
    while i < chart.note.len()
        invariant
            0 <= i <= chart.note.len(),
            note == chart.note@,
            out@ == render(head3 + note_lines(note).subrange(0, i as int)),
        decreases chart.note.len() - i,
    {
        push_note_line(&mut out, &chart.note[i]);
        out.push(NEWLINE);
        proof {
            let sofar = head3 + note_lines(note).subrange(0, i as int);
            let more = head3 + note_lines(note).subrange(0, i + 1);
            assert(more.drop_last() =~= sofar);
            assert(more.last() == joined(note_fields(note[i as int])));
            assert(out@ =~= render(more));
        }
        i = i + 1;
    }
    proof {
        assert(note_lines(note).subrange(0, note.len() as int) =~= note_lines(note));
        assert(head3 + note_lines(note) =~= official_lines(version, bpm, speed, note));
    }
    out
}

} // verus!
