//! The chart: the aggregate of tempo points, speed points and notes, with
//! the tables derived from them and the queries against those tables.

use crate::beat::{
    beat_at, find_beat_at, find_time_of_beat, time_of_beat, BEAT_LIMIT, BEAT_REACH,
};
use crate::bpm::BPM;
use crate::degree::{
    angle_between, bracket_time, check_track, degree_at, degree_between, find_degree_at,
    track_ok, HALF_TURN,
};
use crate::easing::{ease, eased, CONTROL_LIMIT, PROGRESS_LIMIT};
use crate::fixed::{
    abs, div_trunc, lemma_tdiv_bounds, tdiv, ANGLE_LIMIT, BPM_LIMIT, QUERY_DISTANCE_LIMIT,
    MILLIS, QUERY_TIME_LIMIT, UNIT,
};
use crate::hitsound::{
    bpms_ok, build_hit_list, check_bpms, find_tempo, hit_list, needs_tempo, reset_hits, reset_list, tempo_at,
    HitSound,
};
use crate::index::{
    ascending, find_pos, in_force, keys_of, lemma_in_force, selects, ByDistance, ByTime,
    DistanceGetter, TimeGetter, IN_FORCE, NOT_FOUND,
};
use crate::integrate::{
    build_speed_table, check_speed_table, distance_at, find_distance_at, forward, speed_table, speed_table_ok,
    };
use crate::inverse::{find_time_at, time_at};
use crate::note::Note;
use crate::official::{
    official_text, parse_official, parse_text, same_lines, write_official, LoadError,
};
use crate::sort::{
    lemma_ordered_by_time, lemma_stable_sort, lemma_stable_sort_keeps, sort_by_rank, stable_sort,
    DistanceTimeRank, TimeRank,
};
use crate::speed::Speed;
use crate::speeddistance::SpeedDistance;
use crate::trail::{
    build_device_track, build_trail_track, device_track, has_keyframe, notes_ok, trail_track,
};
use crate::traildistance::TrailDistance;
use vstd::prelude::*;

verus! {

/// A chart with the tables derived from it.
///
/// `bpm`, `speed` and `note` are the chart proper. `speed_distance`,
/// `trail_distance`, `phone_trail_distance` and `hitsound_list` are derived
/// from them by `update`; `speed_distance_plain` and `trail_distance_plain`
/// are the tables the same notes have at a constant speed of 1.0.
#[derive(Clone, Debug, PartialEq, Eq)]
pub struct Chart {
    pub version: i32,
    pub offset: i64,
    pub bpm: Vec<BPM>,
    pub speed: Vec<Speed>,
    pub note: Vec<Note>,
    pub speed_distance: Vec<SpeedDistance>,
    pub speed_distance_plain: Vec<SpeedDistance>,
    pub trail_distance: Vec<TrailDistance>,
    pub trail_distance_plain: Vec<TrailDistance>,
    pub hitsound_list: Vec<HitSound>,
    pub phone_trail_distance: Vec<TrailDistance>,
}

/// The window of a chart that is on display.
#[derive(Clone, Copy, Debug, PartialEq, Eq)]
pub struct ChartProperties {
    pub start_chart_time: i64,
    pub end_chart_time: i64,
    pub start_distance: i64,
    pub end_distance: i64,
    pub show_distance: i64,
    pub cur_degree: i64,
}

impl ChartProperties {
    pub fn new() -> (r: Self)
        ensures
            r.start_chart_time == 0,
            r.end_chart_time == 0,
            r.start_distance == 0,
            r.end_distance == 0,
            r.show_distance == 0,
            r.cur_degree == 0,
    {
        Self {
            start_chart_time: 0,
            end_chart_time: 0,
            start_distance: 0,
            end_distance: 0,
            show_distance: 0,
            cur_degree: 0,
        }
    }

    pub fn init(
        start_chart_time: i64,
        end_chart_time: i64,
        start_distance: i64,
        end_distance: i64,
        show_distance: i64,
        cur_degree: i64,
    ) -> (r: Self)
        ensures
            r.start_chart_time == start_chart_time,
            r.end_chart_time == end_chart_time,
            r.start_distance == start_distance,
            r.end_distance == end_distance,
            r.show_distance == show_distance,
            r.cur_degree == cur_degree,
    {
        Self {
            start_chart_time,
            end_chart_time,
            start_distance,
            end_distance,
            show_distance,
            cur_degree,
        }
    }
}

/// The section of a chart text that a line belongs to.
#[derive(Clone, Copy, Debug, PartialEq, Eq)]
pub enum Section {
    NoSection,
    BpmSection,
    SpeedSection,
    NoteSection,
}

/// The speed points of the plain variant of every chart: a constant 1.0.
pub open spec fn plain_speeds() -> Seq<Speed> {
    seq![Speed { time: 0, speed: UNIT, smooth: 0 }]
}

/// Every entry is within its limits, some note bends the trail, and there is
/// a tempo if a slide needs one. The entries need not be in time order.
pub open spec fn entries_ok(bpm: Seq<BPM>, speed: Seq<Speed>, note: Seq<Note>) -> bool {
    &&& forall|i: int| 0 <= i < bpm.len() ==> (#[trigger] bpm[i]).within_limits()
    &&& forall|i: int| 0 <= i < speed.len() ==> (#[trigger] speed[i]).within_limits()
    &&& notes_ok(note)
    &&& has_keyframe(note)
    &&& needs_tempo(note) ==> bpm.len() > 0
}

/// Every speed point and every note is within its limits and some note
/// bends the trail: what the speed table and the two angle tracks are built
/// from. The entries need not be in time order.
pub open spec fn scroll_ok(speed: Seq<Speed>, note: Seq<Note>) -> bool {
    &&& forall|i: int| 0 <= i < speed.len() ==> (#[trigger] speed[i]).within_limits()
    &&& notes_ok(note)
    &&& has_keyframe(note)
}

/// A copy of `v`.
pub fn copy_vec<T: Copy>(v: &Vec<T>) -> (r: Vec<T>)
    ensures
        r@ == v@,
{
    let mut r: Vec<T> = Vec::new();
    let mut i: usize = 0;
    while i < v.len()
        invariant
            0 <= i <= v.len(),
            r@ == v@.subrange(0, i as int),
        decreases v.len() - i,
    {
        r.push(v[i]);
        assert(v@.subrange(0, i + 1) =~= v@.subrange(0, i as int).push(v@[i as int]));
        i = i + 1;
    }
    assert(v@.subrange(0, v.len() as int) =~= v@);
    r
}

impl Chart {
    /// Every entry of the chart is within its limits, some note bends the
    /// trail, and there is a tempo if a slide needs one. The entries need
    /// not be in time order.
    pub open spec fn entries_ok(&self) -> bool {
        entries_ok(self.bpm@, self.speed@, self.note@)
    }

    /// Every speed point and every note of the chart is within its limits
    /// and some note bends the trail.
    pub open spec fn scroll_ok(&self) -> bool {
        scroll_ok(self.speed@, self.note@)
    }

    /// The speed table and both angle tracks are well formed.
    pub open spec fn tables_ok(&self) -> bool {
        &&& speed_table_ok(self.speed_distance@)
        &&& track_ok(self.trail_distance@)
        &&& track_ok(self.phone_trail_distance@)
    }

    /// The speed table and the two angle tracks are those of the chart's
    /// speed points and notes.
    pub open spec fn tables_built(&self) -> bool {
        &&& self.speed_distance@ == speed_table(self.speed@)
        &&& self.trail_distance@ == trail_track(self.note@, self.speed_distance@)
        &&& self.phone_trail_distance@ == device_track(
            self.note@,
            self.speed_distance@,
            self.trail_distance@,
        )
    }

    /// The plain tables are those of the chart's notes at a constant speed
    /// of 1.0.
    pub open spec fn plain_built(&self) -> bool {
        &&& self.speed_distance_plain@ == speed_table(plain_speeds())
        &&& self.trail_distance_plain@ == trail_track(self.note@, self.speed_distance_plain@)
    }

    /// Every query can be answered: the tempo points are in order, and the
    /// speed table and both angle tracks are well formed.
    pub open spec fn ready(&self) -> bool {
        &&& bpms_ok(self.bpm@)
        &&& speed_table_ok(self.speed_distance@)
        &&& track_ok(self.trail_distance@)
        &&& track_ok(self.phone_trail_distance@)
    }

    /// No speed point of the chart scrolls backwards.
    pub open spec fn scrolls_forward(&self) -> bool {
        forall|i: int| 0 <= i < self.speed@.len() ==> (#[trigger] self.speed@[i]).speed >= 0
    }

    /// The chart proper is that of `other`: version, offset, tempo points,
    /// speed points and notes.
    pub open spec fn same_chart(&self, other: &Chart) -> bool {
        &&& self.version == other.version
        &&& self.offset == other.offset
        &&& self.bpm@ == other.bpm@
        &&& self.speed@ == other.speed@
        &&& self.note@ == other.note@
    }

    pub fn create_empty_chart() -> (r: Self)
        ensures
            r.version == 0,
            r.offset == 0,
            r.bpm@.len() == 0,
            r.speed@.len() == 0,
            r.note@.len() == 0,
            r.speed_distance@.len() == 0,
            r.speed_distance_plain@.len() == 0,
            r.trail_distance@.len() == 0,
            r.trail_distance_plain@.len() == 0,
            r.hitsound_list@.len() == 0,
            r.phone_trail_distance@.len() == 0,
    {
        Self {
            version: 0,
            offset: 0,
            bpm: Vec::new(),
            speed: Vec::new(),
            note: Vec::new(),
            speed_distance: Vec::new(),
            speed_distance_plain: Vec::new(),
            trail_distance: Vec::new(),
            trail_distance_plain: Vec::new(),
            hitsound_list: Vec::new(),
            phone_trail_distance: Vec::new(),
        }
    }

    /// Decides `entries_ok`.
    pub fn check_entries(&self) -> (ok: bool)
        ensures
            ok == self.entries_ok(),
    {
        let mut i: usize = 0;
        while i < self.bpm.len()
            invariant
                0 <= i <= self.bpm.len(),
                forall|k: int| 0 <= k < i ==> (#[trigger] self.bpm@[k]).within_limits(),
            decreases self.bpm.len() - i,
        {
            if !self.bpm[i].check_limits() {
                return false;
            }
            i = i + 1;
        }
        i = 0;
        while i < self.speed.len()
            invariant
                0 <= i <= self.speed.len(),
                forall|k: int| 0 <= k < i ==> (#[trigger] self.speed@[k]).within_limits(),
            decreases self.speed.len() - i,
        {
            if !self.speed[i].check_limits() {
                return false;
            }
            i = i + 1;
        }
        let mut keyframe: bool = false;
        let mut ticking: bool = false;
        i = 0;
        while i < self.note.len()
            invariant
                0 <= i <= self.note.len(),
                forall|k: int| 0 <= k < i ==> (#[trigger] self.note@[k]).within_limits(),
                keyframe == (exists|k: int| 0 <= k < i && (#[trigger] self.note@[k]).is_keyframe()),
                ticking == (exists|k: int|
                    0 <= k < i && (#[trigger] self.note@[k]) is Slide
                        && self.note@[k]->Slide_0.has_ticks()),
            decreases self.note.len() - i,
        {
            if !self.note[i].check_limits() {
                return false;
            }
            match &self.note[i] {
                Note::Rotate(_) => {
                    keyframe = true;
                },
                Note::Trail(_) => {
                    keyframe = true;
                },
                Note::Slide(s) => {
                    if s.amount > 1 {
                        ticking = true;
                    }
                },
                _ => {},
            }
            i = i + 1;
        }
        keyframe && (!ticking || self.bpm.len() > 0)
    }

    /// Decides `scroll_ok`.
    pub fn check_scroll(&self) -> (ok: bool)
        ensures
            ok == self.scroll_ok(),
    {
        let mut i: usize = 0;
        while i < self.speed.len()
            invariant
                0 <= i <= self.speed.len(),
                forall|k: int| 0 <= k < i ==> (#[trigger] self.speed@[k]).within_limits(),
            decreases self.speed.len() - i,
        {
            if !self.speed[i].check_limits() {
                return false;
            }
            i = i + 1;
        }
        let mut keyframe: bool = false;
        i = 0;
        while i < self.note.len()
            invariant
                0 <= i <= self.note.len(),
                forall|k: int| 0 <= k < i ==> (#[trigger] self.note@[k]).within_limits(),
                keyframe == (exists|k: int| 0 <= k < i && (#[trigger] self.note@[k]).is_keyframe()),
            decreases self.note.len() - i,
        {
            if !self.note[i].check_limits() {
                return false;
            }
            match &self.note[i] {
                Note::Rotate(_) => {
                    keyframe = true;
                },
                Note::Trail(_) => {
                    keyframe = true;
                },
                _ => {},
            }
            i = i + 1;
        }
        keyframe
    }

    /// Decides `ready`.
    pub fn check_ready(&self) -> (ok: bool)
        ensures
            ok == self.ready(),
    {
        check_bpms(&self.bpm) && check_speed_table(&self.speed_distance) && check_track(
            &self.trail_distance,
        ) && check_track(&self.phone_trail_distance)
    }

    /// Rebuilds every derived table: sorts the chart, integrates the speed
    /// points, projects the notes onto the two angle tracks, derives the
    /// plain tables and expands the hit list.
    #[verifier::rlimit(40)]
    pub fn update(&mut self)
        requires
            old(self).entries_ok(),
        ensures
            final(self).version == old(self).version,
            final(self).offset == old(self).offset,
            final(self).bpm@ == stable_sort::<BPM, TimeRank>(old(self).bpm@),
            final(self).speed@ == stable_sort::<Speed, TimeRank>(old(self).speed@),
            final(self).note@ == stable_sort::<Note, TimeRank>(old(self).note@),
            final(self).tables_built(),
            final(self).plain_built(),
            final(self).hitsound_list@ == hit_list(final(self).note@, final(self).bpm@),
            ascending(keys_of::<HitSound, ByTime>(final(self).hitsound_list@)),
            final(self).ready(),
            final(self).entries_ok(),
            speed_table_ok(final(self).speed_distance_plain@),
            track_ok(final(self).trail_distance_plain@),
            old(self).scrolls_forward() ==> forward(final(self).speed_distance@) && ascending(
                keys_of::<SpeedDistance, ByDistance>(final(self).speed_distance@),
            ),
    {
        self.distance_preprocessing();
        self.update_plain_chart();
        self.update_hitsound();
    }

    /// Marks every hit event before `chart_time` as triggered and every
    /// other one as not yet triggered.
    pub fn reset_hitsound(&mut self, chart_time: i64)
        ensures
            final(self).hitsound_list@ == reset_list(old(self).hitsound_list@, chart_time as int),
            final(self).same_chart(old(self)),
            final(self).speed_distance@ == old(self).speed_distance@,
            final(self).speed_distance_plain@ == old(self).speed_distance_plain@,
            final(self).trail_distance@ == old(self).trail_distance@,
            final(self).trail_distance_plain@ == old(self).trail_distance_plain@,
            final(self).phone_trail_distance@ == old(self).phone_trail_distance@,
    {
        reset_hits(&mut self.hitsound_list, chart_time);
    }

    /// Expands the notes into the hit list, every event not yet triggered.
    pub fn update_hitsound(&mut self)
        requires
            notes_ok(old(self).note@),
            bpms_ok(old(self).bpm@),
            needs_tempo(old(self).note@) ==> old(self).bpm@.len() > 0,
        ensures
            final(self).hitsound_list@ == hit_list(old(self).note@, old(self).bpm@),
            ascending(keys_of::<HitSound, ByTime>(final(self).hitsound_list@)),
            final(self).same_chart(old(self)),
            final(self).speed_distance@ == old(self).speed_distance@,
            final(self).speed_distance_plain@ == old(self).speed_distance_plain@,
            final(self).trail_distance@ == old(self).trail_distance@,
            final(self).trail_distance_plain@ == old(self).trail_distance_plain@,
            final(self).phone_trail_distance@ == old(self).phone_trail_distance@,
    {
        self.hitsound_list = build_hit_list(&self.note, &self.bpm);
    }

    /// Derives the plain tables: those of the same notes at a constant speed
    /// of 1.0.
    pub fn update_plain_chart(&mut self)
        requires
            notes_ok(old(self).note@),
            has_keyframe(old(self).note@),
        ensures
            final(self).plain_built(),
            speed_table_ok(final(self).speed_distance_plain@),
            track_ok(final(self).trail_distance_plain@),
            final(self).same_chart(old(self)),
            final(self).speed_distance@ == old(self).speed_distance@,
            final(self).trail_distance@ == old(self).trail_distance@,
            final(self).phone_trail_distance@ == old(self).phone_trail_distance@,
            final(self).hitsound_list@ == old(self).hitsound_list@,
    {
        let mut plain: Vec<Speed> = Vec::new();
        plain.push(Speed::new(0, UNIT, 0));
        proof {
            assert(plain@ =~= plain_speeds());
            assert(plain@[0].within_limits());
        }
        self.speed_distance_plain = build_speed_table(&plain);
        self.trail_distance_plain = build_trail_track(&self.note, &self.speed_distance_plain);
    }

    /// The plain variant of the chart: the same notes at a constant speed of
    /// 1.0, with the plain tables in place of the derived ones.
    pub fn get_plain_chart(&self) -> (plain: Chart)
        ensures
            plain.version == self.version,
            plain.offset == self.offset,
            plain.bpm@ == self.bpm@,
            plain.note@ == self.note@,
            plain.speed@ == plain_speeds(),
            plain.speed_distance@ == self.speed_distance_plain@,
            plain.trail_distance@ == self.trail_distance_plain@,
            plain.speed_distance_plain@ == self.speed_distance_plain@,
            plain.trail_distance_plain@ == self.trail_distance_plain@,
            plain.hitsound_list@ == self.hitsound_list@,
            plain.phone_trail_distance@ == self.phone_trail_distance@,
    {
        let mut speed: Vec<Speed> = Vec::new();
        speed.push(Speed::new(0, UNIT, 0));
        proof {
            assert(speed@ =~= plain_speeds());
        }
        Chart {
            version: self.version,
            offset: self.offset,
            bpm: copy_vec(&self.bpm),
            speed,
            note: copy_vec(&self.note),
            speed_distance: copy_vec(&self.speed_distance_plain),
            speed_distance_plain: copy_vec(&self.speed_distance_plain),
            trail_distance: copy_vec(&self.trail_distance_plain),
            trail_distance_plain: copy_vec(&self.trail_distance_plain),
            hitsound_list: copy_vec(&self.hitsound_list),
            phone_trail_distance: copy_vec(&self.phone_trail_distance),
        }
    }

    /// Loads a chart from its text: reads the text, checks the entries
    /// against the limits and rebuilds every derived table. A field that
    /// should be a number and is none fails the load with the number of its
    /// line; a chart that cannot be computed with fails it as inadmissible.
    #[verifier::rlimit(40)]
    pub fn load_chart_from_official(text: &[u8]) -> (r: Result<Chart, LoadError>)
        ensures
            match parse_text(text@) {
                Err(line) => r == Err::<Chart, LoadError>(
                    LoadError::BadNumber { line: line as usize },
                ),
                Ok(d) => if entries_ok(d.bpm, d.speed, d.note) {
                    &&& r is Ok
                    &&& r->Ok_0.version == d.version
                    &&& r->Ok_0.offset == 0
                    &&& r->Ok_0.bpm@ == stable_sort::<BPM, TimeRank>(d.bpm)
                    &&& r->Ok_0.speed@ == stable_sort::<Speed, TimeRank>(d.speed)
                    &&& r->Ok_0.note@ == stable_sort::<Note, TimeRank>(d.note)
                    &&& r->Ok_0.tables_built()
                    &&& r->Ok_0.plain_built()
                    &&& r->Ok_0.hitsound_list@ == hit_list(r->Ok_0.note@, r->Ok_0.bpm@)
                    &&& r->Ok_0.ready()
                } else {
                    r == Err::<Chart, LoadError>(LoadError::Inadmissible)
                },
            },
    {
        match Chart::load_chart_with_diagnostics(text) {
            Err(e) => Err(e),
            Ok((chart, _)) => Ok(chart),
        }
    }

    /// Loads a chart from its text as `load_chart_from_official` does, and
    /// hands out with it the numbers of the lines that did not fit the format
    /// and were skipped, in order.
    #[verifier::rlimit(40)]
    pub fn load_chart_with_diagnostics(text: &[u8]) -> (r: Result<(Chart, Vec<usize>), LoadError>)
        ensures
            match parse_text(text@) {
                Err(line) => r == Err::<(Chart, Vec<usize>), LoadError>(
                    LoadError::BadNumber { line: line as usize },
                ),
                Ok(d) => if entries_ok(d.bpm, d.speed, d.note) {
                    &&& r is Ok
                    &&& same_lines(r->Ok_0.1@, d)
                    &&& r->Ok_0.0.version == d.version
                    &&& r->Ok_0.0.offset == 0
                    &&& r->Ok_0.0.bpm@ == stable_sort::<BPM, TimeRank>(d.bpm)
                    &&& r->Ok_0.0.speed@ == stable_sort::<Speed, TimeRank>(d.speed)
                    &&& r->Ok_0.0.note@ == stable_sort::<Note, TimeRank>(d.note)
                    &&& r->Ok_0.0.tables_built()
                    &&& r->Ok_0.0.plain_built()
                    &&& r->Ok_0.0.hitsound_list@ == hit_list(r->Ok_0.0.note@, r->Ok_0.0.bpm@)
                    &&& r->Ok_0.0.ready()
                } else {
                    r == Err::<(Chart, Vec<usize>), LoadError>(LoadError::Inadmissible)
                },
            },
    {
        match parse_official(text) {
            Err(e) => Err(e),
            Ok((mut chart, skipped)) => {
                if chart.check_entries() {
                    chart.update();
                    Ok((chart, skipped))
                } else {
                    Err(LoadError::Inadmissible)
                }
            },
        }
    }

    /// Loads a chart from the values that its JSON form holds: checks the
    /// entries against the limits and rebuilds every derived table. A chart
    /// of this form has no speed points of its own, so it scrolls at the
    /// constant speed of the seed.
    #[verifier::rlimit(40)]
    pub fn load_chart_from_json(version: i32, offset: i64, bpm: Vec<BPM>, note: Vec<Note>) -> (r:
        Result<Chart, LoadError>)
        ensures
            if entries_ok(bpm@, Seq::empty(), note@) {
                &&& r is Ok
                &&& r->Ok_0.version == version
                &&& r->Ok_0.offset == offset
                &&& r->Ok_0.bpm@ == stable_sort::<BPM, TimeRank>(bpm@)
                &&& r->Ok_0.speed@.len() == 0
                &&& r->Ok_0.note@ == stable_sort::<Note, TimeRank>(note@)
                &&& r->Ok_0.tables_built()
                &&& r->Ok_0.plain_built()
                &&& r->Ok_0.hitsound_list@ == hit_list(r->Ok_0.note@, r->Ok_0.bpm@)
                &&& r->Ok_0.ready()
            } else {
                r == Err::<Chart, LoadError>(LoadError::Inadmissible)
            },
    {
        let mut chart: Chart = Chart::create_empty_chart();
        chart.version = version;
        chart.offset = offset;
        chart.bpm = bpm;
        chart.note = note;
        proof {
            assert(chart.speed@ =~= Seq::<Speed>::empty());
        }
        if chart.check_entries() {
            chart.update();
            proof {
                lemma_stable_sort::<Speed, TimeRank>(Seq::<Speed>::empty());
            }
            Ok(chart)
        } else {
            Err(LoadError::Inadmissible)
        }
    }

    /// What the JSON form of the chart holds beside the chart's own entries
    /// and tables: for each note in turn, the angle of the trail at the time
    /// of the note if it is a catch, else nothing.
    pub fn export_to_json(&self) -> (degrees: Vec<Option<i64>>)
        requires
            speed_table_ok(self.speed_distance@),
            track_ok(self.trail_distance@),
            notes_ok(self.note@),
        ensures
            degrees@.len() == self.note@.len(),
            forall|i: int|
                0 <= i < degrees@.len() ==> #[trigger] degrees@[i] == (if self.note@[i] is Catch {
                    Some(
                        degree_at(
                            self.trail_distance@,
                            self.speed_distance@,
                            self.note@[i].time(),
                        ) as i64,
                    )
                } else {
                    None
                }),
    {
        let mut degrees: Vec<Option<i64>> = Vec::new();
        let mut i: usize = 0;
        while i < self.note.len()
            invariant
                0 <= i <= self.note.len(),
                speed_table_ok(self.speed_distance@),
                track_ok(self.trail_distance@),
                notes_ok(self.note@),
                degrees@.len() == i,
                forall|k: int|
                    0 <= k < i ==> #[trigger] degrees@[k] == (if self.note@[k] is Catch {
                        Some(
                            degree_at(
                                self.trail_distance@,
                                self.speed_distance@,
                                self.note@[k].time(),
                            ) as i64,
                        )
                    } else {
                        None
                    }),
            decreases self.note.len() - i,
        {
            proof {
                assert(self.note@[i as int].within_limits());
            }
            match &self.note[i] {
                Note::Catch(catch) => {
                    degrees.push(Some(self.find_degree_by_time(catch.time)));
                },
                _ => {
                    degrees.push(None);
                },
            }
            i = i + 1;
        }
        degrees
    }

    /// The text of the chart: its version, tempo points, speed points and
    /// notes in the text format. Read back, the text gives the same chart.
    pub fn export_to_txt(&self) -> (text: Vec<u8>)
        ensures
            text@ == official_text(self.version, self.bpm@, self.speed@, self.note@),
            parse_text(text@) is Ok,
            parse_text(text@)->Ok_0.version == self.version,
            parse_text(text@)->Ok_0.bpm == self.bpm@,
            parse_text(text@)->Ok_0.speed == self.speed@,
            parse_text(text@)->Ok_0.note == self.note@,
    {
        proof {
            crate::roundtrip::lemma_official_round_trip(
                self.version,
                self.bpm@,
                self.speed@,
                self.note@,
            );
        }
        write_official(self)
    }

    /// Sorts tempo points, speed points, notes and the speed table by time,
    /// and the two angle tracks by distance, then time. Entries of equal
    /// rank keep their order.
    pub fn sort_chart(&mut self)
        ensures
            final(self).version == old(self).version,
            final(self).offset == old(self).offset,
            final(self).bpm@ == stable_sort::<BPM, TimeRank>(old(self).bpm@),
            final(self).speed@ == stable_sort::<Speed, TimeRank>(old(self).speed@),
            final(self).note@ == stable_sort::<Note, TimeRank>(old(self).note@),
            final(self).speed_distance@ == stable_sort::<SpeedDistance, TimeRank>(
                old(self).speed_distance@,
            ),
            final(self).trail_distance@ == stable_sort::<TrailDistance, DistanceTimeRank>(
                old(self).trail_distance@,
            ),
            final(self).phone_trail_distance@ == stable_sort::<TrailDistance, DistanceTimeRank>(
                old(self).phone_trail_distance@,
            ),
            final(self).speed_distance_plain@ == old(self).speed_distance_plain@,
            final(self).trail_distance_plain@ == old(self).trail_distance_plain@,
            final(self).hitsound_list@ == old(self).hitsound_list@,
    {
        self.bpm = sort_by_rank::<BPM, TimeRank>(&self.bpm);
        self.speed = sort_by_rank::<Speed, TimeRank>(&self.speed);
        self.note = sort_by_rank::<Note, TimeRank>(&self.note);
        self.speed_distance = sort_by_rank::<SpeedDistance, TimeRank>(&self.speed_distance);
        self.trail_distance = sort_by_rank::<TrailDistance, DistanceTimeRank>(
            &self.trail_distance,
        );
        self.phone_trail_distance = sort_by_rank::<TrailDistance, DistanceTimeRank>(
            &self.phone_trail_distance,
        );
    }

    /// Chart time (milliseconds) of a real time (seconds).
    pub fn real_time_to_chart_time(&self, real_time: i64) -> (chart_time: i64)
        requires
            abs(real_time as int) * MILLIS <= i64::MAX,
        ensures
            chart_time == real_time * MILLIS,
    {
        assert(MILLIS == 1000);
        real_time * MILLIS
    }

    /// Real time (seconds) of a chart time (milliseconds), rounded toward
    /// zero.
    pub fn chart_time_to_real_time(&self, chart_time: i64) -> (real_time: i64)
        ensures
            real_time == tdiv(chart_time as int, MILLIS as int),
    {
        proof {
            lemma_tdiv_bounds(chart_time as int, MILLIS as int);
        }
        div_trunc(chart_time as i128, MILLIS as i128) as i64
    }

    /// The beat count at a real time. The times of the tempo points are read
    /// as real times, in seconds: each tempo point takes effect at the stamp
    /// of `MILLIS` times its time, as the real time stands at the stamp of
    /// `MILLIS` times its count, and a segment of `dt` seconds at a tempo of
    /// `bpm` counts `dt / 60 * bpm` beats.
    pub fn real_time_to_beat(&self, real_time: i64) -> (beat: i64)
        requires
            bpms_ok(self.bpm@),
            abs(real_time as int) * MILLIS <= QUERY_TIME_LIMIT,
        ensures
            beat == beat_at(self.bpm@, real_time * MILLIS),
            0 <= beat <= BEAT_REACH,
    {
        assert(MILLIS == 1000);
        find_beat_at(&self.bpm, real_time * MILLIS)
    }

    /// The real time at which the beat count reaches `beat`, rounded toward
    /// zero: the inverse of `real_time_to_beat`.
    pub fn beat_to_real_time(&self, beat: i64) -> (real_time: i64)
        requires
            bpms_ok(self.bpm@),
            abs(beat as int) <= BEAT_LIMIT,
        ensures
            real_time == tdiv(time_of_beat(self.bpm@, beat as int), MILLIS as int),
    {
        let chart_time: i64 = find_time_of_beat(&self.bpm, beat);
        self.chart_time_to_real_time(chart_time)
    }

    /// The beat count at a chart time: that at the real time which the chart
    /// time stands for, a thousandth of it. A count of chart time is a stamp
    /// as it stands.
    pub fn chart_time_to_beat(&self, chart_time: i64) -> (beat: i64)
        requires
            bpms_ok(self.bpm@),
            abs(chart_time as int) <= QUERY_TIME_LIMIT,
        ensures
            beat == beat_at(self.bpm@, chart_time as int),
            0 <= beat <= BEAT_REACH,
    {
        find_beat_at(&self.bpm, chart_time)
    }

    /// The chart time at which the beat count reaches `beats`: a thousand
    /// times the real time at which it does.
    pub fn beat_to_chart_time(&self, beats: i64) -> (chart_time: i64)
        requires
            bpms_ok(self.bpm@),
            abs(beats as int) <= BEAT_LIMIT,
        ensures
            chart_time == time_of_beat(self.bpm@, beats as int),
    {
        find_time_of_beat(&self.bpm, beats)
    }

    /// Finds an entry of a time-ordered table by its time. The modes are
    /// those of `selects`: 0 the entry of greatest time at most `time` (the
    /// first of its run), 1 the first entry at or after `time`, 2 the last
    /// entry before `time`, 3 the first entry after `time`, any other mode
    /// the entry in force at `time`. An empty table gives `NOT_FOUND`.
    pub fn find_pos_by_time<T: TimeGetter>(&self, input: &Vec<T>, time: i64, mode: i32) -> (r:
        usize)
        ensures
            input.len() == 0 ==> r == NOT_FOUND,
            input.len() > 0 ==> r < input.len(),
            input.len() > 0 && ascending(keys_of::<T, ByTime>(input@)) ==> selects(
                keys_of::<T, ByTime>(input@),
                time as int,
                mode as int,
                r as int,
            ),
    {
        find_pos::<T, ByTime>(input, time, mode)
    }

    /// Finds an entry of a distance-ordered table by its distance, under the
    /// modes of `find_pos_by_time`.
    pub fn find_pos_by_distance<T: DistanceGetter>(&self, input: &Vec<T>, pos: i64, mode: i32) -> (r:
        usize)
        ensures
            input.len() == 0 ==> r == NOT_FOUND,
            input.len() > 0 ==> r < input.len(),
            input.len() > 0 && ascending(keys_of::<T, ByDistance>(input@)) ==> selects(
                keys_of::<T, ByDistance>(input@),
                pos as int,
                mode as int,
                r as int,
            ),
    {
        find_pos::<T, ByDistance>(input, pos, mode)
    }

    /// The distance the scroll path has reached at `time`.
    pub fn find_distance_by_time(&self, time: i64) -> (distance: i64)
        requires
            speed_table_ok(self.speed_distance@),
            abs(time as int) <= QUERY_TIME_LIMIT,
        ensures
            distance == distance_at(self.speed_distance@, time as int),
            abs(distance as int) <= QUERY_DISTANCE_LIMIT,
    {
        find_distance_at(&self.speed_distance, time)
    }

    /// The tempo in effect at `chart_time`.
    pub fn find_bpm_by_time(&self, chart_time: i64) -> (bpm: i64)
        requires
            self.bpm@.len() > 0,
            bpms_ok(self.bpm@),
        ensures
            bpm == tempo_at(self.bpm@, chart_time as int),
            UNIT <= bpm <= BPM_LIMIT,
    {
        find_tempo(&self.bpm, chart_time)
    }

    /// The time at which the scroll path reaches `distance`.
    pub fn find_time_by_distance(&self, distance: i64) -> (time: i64)
        requires
            speed_table_ok(self.speed_distance@),
            forward(self.speed_distance@),
            abs(distance as int) <= QUERY_DISTANCE_LIMIT,
        ensures
            time == time_at(self.speed_distance@, distance as int),
    {
        find_time_at(&self.speed_distance, distance)
    }

    /// The speed of the speed point in force at `time`: the last one at or
    /// before `time`, or the first one if `time` precedes them all.
    pub fn find_speed_by_time(&self, time: i64) -> (speed: i64)
        requires
            self.speed@.len() > 0,
        ensures
            ascending(keys_of::<Speed, ByTime>(self.speed@)) ==> speed == self.speed@[in_force(
                keys_of::<Speed, ByTime>(self.speed@),
                time as int,
            )].speed,
    {
        let p: usize = find_pos::<Speed, ByTime>(&self.speed, time, IN_FORCE);
        proof {
            lemma_in_force(keys_of::<Speed, ByTime>(self.speed@), time as int);
        }
        self.speed[p].speed
    }

    /// Rebuilds the speed table and the two angle tracks. The chart is
    /// sorted first, so that the tables come out in order whatever the order
    /// of the entries was. No tempo is read: the tempo points are sorted and
    /// nothing else.
    #[verifier::rlimit(40)]
    pub fn distance_preprocessing(&mut self)
        requires
            old(self).scroll_ok(),
        ensures
            final(self).version == old(self).version,
            final(self).offset == old(self).offset,
            final(self).bpm@ == stable_sort::<BPM, TimeRank>(old(self).bpm@),
            final(self).speed@ == stable_sort::<Speed, TimeRank>(old(self).speed@),
            final(self).note@ == stable_sort::<Note, TimeRank>(old(self).note@),
            final(self).tables_built(),
            final(self).tables_ok(),
            final(self).scroll_ok(),
            old(self).entries_ok() ==> final(self).ready() && final(self).entries_ok(),
            old(self).scrolls_forward() ==> forward(final(self).speed_distance@) && ascending(
                keys_of::<SpeedDistance, ByDistance>(final(self).speed_distance@),
            ),
            final(self).speed_distance_plain@ == old(self).speed_distance_plain@,
            final(self).trail_distance_plain@ == old(self).trail_distance_plain@,
            final(self).hitsound_list@ == old(self).hitsound_list@,
    {
        proof {
            lemma_stable_sort::<BPM, TimeRank>(self.bpm@);
            lemma_stable_sort::<Speed, TimeRank>(self.speed@);
            lemma_stable_sort::<Note, TimeRank>(self.note@);
            if self.entries_ok() {
                lemma_stable_sort_keeps::<BPM, TimeRank>(self.bpm@, |b: BPM| b.within_limits());
            }
            lemma_stable_sort_keeps::<Speed, TimeRank>(self.speed@, |s: Speed| s.within_limits());
            lemma_stable_sort_keeps::<Note, TimeRank>(self.note@, |n: Note| n.within_limits());
            if self.scrolls_forward() {
                lemma_stable_sort_keeps::<Speed, TimeRank>(self.speed@, |s: Speed| s.speed >= 0);
            }
            lemma_ordered_by_time::<BPM>(stable_sort::<BPM, TimeRank>(self.bpm@));
            lemma_ordered_by_time::<Speed>(stable_sort::<Speed, TimeRank>(self.speed@));
            let notes = self.note@;
            let sorted = stable_sort::<Note, TimeRank>(notes);
            let w = choose|w: int| 0 <= w < notes.len() && (#[trigger] notes[w]).is_keyframe();
            assert(notes.contains(notes[w]));
            assert(sorted.contains(notes[w]));
            let w2 = choose|w2: int| 0 <= w2 < sorted.len() && sorted[w2] == notes[w];
            assert(sorted[w2].is_keyframe());
            if needs_tempo(sorted) {
                let k = choose|k: int|
                    0 <= k < sorted.len() && (#[trigger] sorted[k]) is Slide
                        && sorted[k]->Slide_0.has_ticks();
                assert(sorted.contains(sorted[k]));
                assert(notes.contains(sorted[k]));
                let k2 = choose|k2: int| 0 <= k2 < notes.len() && notes[k2] == sorted[k];
                assert(notes[k2] is Slide && notes[k2]->Slide_0.has_ticks());
            }
        }
        self.bpm = sort_by_rank::<BPM, TimeRank>(&self.bpm);
        self.speed = sort_by_rank::<Speed, TimeRank>(&self.speed);
        self.note = sort_by_rank::<Note, TimeRank>(&self.note);
        self.speed_distance = build_speed_table(&self.speed);
        self.trail_distance = build_trail_track(&self.note, &self.speed_distance);
        self.phone_trail_distance = build_device_track(
            &self.note,
            &self.speed_distance,
            &self.trail_distance,
        );
    }

    /// The value at progress `x` of the ease from `start` to `end`, shaped by
    /// the two control values. The progress and the control values count
    /// millionths.
    pub fn get_y_from_x(&self, start: i64, end: i64, control_a: i64, control_b: i64, x: i64) -> (y:
        i64)
        requires
            abs(start as int) <= 4 * ANGLE_LIMIT,
            abs(end as int) <= 4 * ANGLE_LIMIT,
            abs(control_a as int) <= CONTROL_LIMIT,
            abs(control_b as int) <= CONTROL_LIMIT,
            abs(x as int) <= PROGRESS_LIMIT,
        ensures
            y == eased(start as int, end as int, control_a as int, control_b as int, x as int),
            start <= end ==> start <= y <= end,
            end <= start ==> end <= y <= start,
    {
        ease(start, end, control_a, control_b, x)
    }

    /// The angle at `progress` of the way from keyframe `trail1` to keyframe
    /// `trail2`, in `[0, 180)`. The progress counts millionths.
    pub fn find_degree_by_2_trails(
        &self,
        trail1: TrailDistance,
        trail2: TrailDistance,
        progress: i64,
    ) -> (degree: i64)
        requires
            trail1.within_limits(),
            trail2.within_limits(),
            abs(progress as int) <= PROGRESS_LIMIT,
        ensures
            degree == angle_between(trail1, trail2, progress as int),
            0 <= degree < HALF_TURN,
    {
        degree_between(trail1, trail2, progress)
    }

    /// The angle of the trail at `time`.
    pub fn find_degree_by_time(&self, time: i64) -> (degree: i64)
        requires
            speed_table_ok(self.speed_distance@),
            track_ok(self.trail_distance@),
            abs(time as int) <= QUERY_TIME_LIMIT,
        ensures
            degree == degree_at(self.trail_distance@, self.speed_distance@, time as int),
            time > bracket_time(self.trail_distance@, self.speed_distance@, time as int) ==> 0
                <= degree < HALF_TURN,
    {
        find_degree_at(&self.trail_distance, &self.speed_distance, time)
    }

    /// The angle of the held device at `time`.
    pub fn find_phone_degree_by_time(&self, time: i64) -> (degree: i64)
        requires
            speed_table_ok(self.speed_distance@),
            track_ok(self.phone_trail_distance@),
            abs(time as int) <= QUERY_TIME_LIMIT,
        ensures
            degree == degree_at(self.phone_trail_distance@, self.speed_distance@, time as int),
            time > bracket_time(self.phone_trail_distance@, self.speed_distance@, time as int)
                ==> 0 <= degree < HALF_TURN,
    {
        find_degree_at(&self.phone_trail_distance, &self.speed_distance, time)
    }

    /// Whether the time at which the scroll path reaches `distance` is one
    /// that a query may ask about; `find_degree_by_distance` asks for this.
    pub fn check_distance(&self, distance: i64) -> (ok: bool)
        requires
            speed_table_ok(self.speed_distance@),
            forward(self.speed_distance@),
            abs(distance as int) <= QUERY_DISTANCE_LIMIT,
        ensures
            ok == (abs(time_at(self.speed_distance@, distance as int)) <= QUERY_TIME_LIMIT),
    {
        let time: i64 = self.find_time_by_distance(distance);
        -QUERY_TIME_LIMIT <= time && time <= QUERY_TIME_LIMIT
    }

    /// The angle of the trail where the scroll path reaches `distance`.
    pub fn find_degree_by_distance(&self, distance: i64) -> (degree: i64)
        requires
            speed_table_ok(self.speed_distance@),
            forward(self.speed_distance@),
            track_ok(self.trail_distance@),
            abs(distance as int) <= QUERY_DISTANCE_LIMIT,
            abs(time_at(self.speed_distance@, distance as int)) <= QUERY_TIME_LIMIT,
        ensures
            degree == degree_at(
                self.trail_distance@,
                self.speed_distance@,
                time_at(self.speed_distance@, distance as int),
            ),
    {
        let time: i64 = self.find_time_by_distance(distance);
        self.find_degree_by_time(time)
    }
}

} // verus!
