//! Hit events: the instants at which a sound is due.

use crate::bpm::BPM;
use crate::fixed::{abs, div_trunc, lemma_tdiv_bounds, tdiv, AMOUNT_LIMIT, BPM_LIMIT, TIME_LIMIT, UNIT};
use crate::index::{
    ascending, check_ascending, find_pos, in_force_first, keys_of, lemma_in_force_first, ByTime,
    TimeGetter, AT_OR_BEFORE,
};
use crate::note::{Note, Slide};
use crate::sort::{lemma_stable_sort, sort_by_rank, stable_sort, TimeRank};
use crate::trail::notes_ok;
use vstd::prelude::*;

verus! {

/// The sound of a tap.
pub const SOUND_TAP: i32 = 0;

/// The sound of a flick.
pub const SOUND_FLICK: i32 = 1;

/// The sound of a slide and of each of its ticks.
pub const SOUND_SLIDE: i32 = 2;

/// The sound of a rotation to the left (a negative sweep).
pub const SOUND_ROTATE_LEFT: i32 = 3;

/// The sound of a rotation to the right.
pub const SOUND_ROTATE_RIGHT: i32 = 4;

/// The sound of a catch.
pub const SOUND_CATCH: i32 = 5;

/// The length of a beat at a tempo of one thousandth of a beat per minute,
/// in counts of time: a beat lasts `60000 / bpm` milliseconds.
pub const BEAT_SCALE: i64 = 60_000_000_000_000;

/// A hit event: at `time` the sound `note_type` is due; `played` tells
/// whether it has been triggered.
#[derive(Clone, Copy, Debug, PartialEq, Eq)]
pub struct HitSound {
    pub time: i64,
    pub note_type: i32,
    pub played: bool,
}

impl HitSound {
    pub fn new(time: i64, note_type: i32) -> (r: Self)
        ensures
            r.time == time,
            r.note_type == note_type,
            !r.played,
    {
        Self { time, note_type, played: false }
    }

    pub fn play(&mut self)
        ensures
            final(self).played,
            final(self).time == old(self).time,
            final(self).note_type == old(self).note_type,
    {
        self.played = true;
    }
}

impl TimeGetter for HitSound {
    open spec fn time_of(&self) -> int {
        self.time as int
    }

    fn get_time(&self) -> (t: i64) {
        self.time
    }
}

/// A list of tempo points that can be computed with: every point is within
/// its limits and the points are in time order.
pub open spec fn bpms_ok(bpms: Seq<BPM>) -> bool {
    &&& forall|i: int| 0 <= i < bpms.len() ==> (#[trigger] bpms[i]).within_limits()
    &&& ascending(keys_of::<BPM, ByTime>(bpms))
}

/// Some slide synthesizes ticks, so that a tempo is needed.
pub open spec fn needs_tempo(notes: Seq<Note>) -> bool {
    exists|i: int|
        0 <= i < notes.len() && (#[trigger] notes[i]) is Slide && notes[i]->Slide_0.has_ticks()
}

/// The tempo in effect at `time`: that of the first tempo point that stands
/// at the latest time at or before `time`, or of the first point of all if
/// `time` precedes them.
pub open spec fn tempo_at(bpms: Seq<BPM>, time: int) -> int {
    bpms[in_force_first(keys_of::<BPM, ByTime>(bpms), time)].bpm as int
}

/// The sound of the hit at a note's own time: a tap 0, a flick 1, a slide 2
/// whatever its slide kind, a rotation 3 to the left and 4 to the right, a
/// catch 5. Trail notes and bombs make no sound.
pub open spec fn sound_of(note: Note) -> Option<i32> {
    match note {
        Note::Tap(_) => Some(SOUND_TAP),
        Note::Flick(_) => Some(SOUND_FLICK),
        Note::Slide(_) => Some(SOUND_SLIDE),
        Note::Rotate(r) => Some(
            if r.delta < 0 {
                SOUND_ROTATE_LEFT
            } else {
                SOUND_ROTATE_RIGHT
            },
        ),
        Note::Catch(_) => Some(SOUND_CATCH),
        Note::Trail(_) => None,
        Note::Bomb(_) => None,
    }
}

/// The time of tick `j` of a slide under tempo `bpm`: `j` subdivisions of
/// the beat after the slide's own time, a beat lasting `60000 / bpm`
/// milliseconds and holding `snap` subdivisions.
pub open spec fn tick_time(slide: Slide, bpm: int, j: int) -> int {
    slide.time + tdiv(j * BEAT_SCALE, bpm * slide.snap)
}

/// The ticks of a slide: one for each `j` from 1 to `amount - 1`.
pub open spec fn ticks_of(slide: Slide, bpm: int) -> Seq<HitSound> {
    Seq::new(
        if slide.amount > 1 {
            (slide.amount - 1) as nat
        } else {
            0
        },
        |j: int|
            HitSound {
                time: tick_time(slide, bpm, j + 1) as i64,
                note_type: SOUND_SLIDE,
                played: false,
            },
    )
}

/// The hit events of one note: the hit at its own time, if it sounds, and
/// for a slide its ticks, at the tempo in effect at the slide's time.
pub open spec fn hits_of(note: Note, bpms: Seq<BPM>) -> Seq<HitSound> {
    let head = match sound_of(note) {
        Some(code) => seq![HitSound { time: note.time() as i64, note_type: code, played: false }],
        None => Seq::empty(),
    };
    match note {
        Note::Slide(s) => head + ticks_of(s, tempo_at(bpms, s.time as int)),
        _ => head,
    }
}

/// The hit events of the first `k` notes, in note order.
pub open spec fn hits(notes: Seq<Note>, bpms: Seq<BPM>, k: int) -> Seq<HitSound>
    decreases k,
{
    if k <= 0 {
        Seq::empty()
    } else {
        hits(notes, bpms, k - 1) + hits_of(notes[k - 1], bpms)
    }
}

/// The hit list of a chart: the hit events of its notes in time order,
/// events at one time in note order.
pub open spec fn hit_list(notes: Seq<Note>, bpms: Seq<BPM>) -> Seq<HitSound> {
    stable_sort::<HitSound, TimeRank>(hits(notes, bpms, notes.len() as int))
}

/// The hit list after a seek to `chart_time`: every event before that time
/// counts as triggered, every event at or after it as not yet triggered.
pub open spec fn reset_list(list: Seq<HitSound>, chart_time: int) -> Seq<HitSound> {
    Seq::new(
        list.len(),
        |i: int|
            HitSound {
                time: list[i].time,
                note_type: list[i].note_type,
                played: list[i].time < chart_time,
            },
    )
}

/// The tempo in effect at `time`.
pub fn find_tempo(bpms: &Vec<BPM>, time: i64) -> (bpm: i64)
    requires
        bpms.len() > 0,
        bpms_ok(bpms@),
    ensures
        bpm == tempo_at(bpms@, time as int),
        UNIT <= bpm <= BPM_LIMIT,
{
    let index: usize = find_pos::<BPM, ByTime>(bpms, time, AT_OR_BEFORE);
    proof {
        lemma_in_force_first(keys_of::<BPM, ByTime>(bpms@), time as int);
        assert(bpms@[index as int].within_limits());
    }
    bpms[index].bpm
}

/// Appends the ticks of a slide to `list`.
fn push_ticks(list: &mut Vec<HitSound>, slide: &Slide, bpm: i64)
    requires
        abs(slide.time as int) <= TIME_LIMIT,
        slide.amount <= AMOUNT_LIMIT,
        slide.has_ticks() ==> slide.snap >= 1,
        UNIT <= bpm <= BPM_LIMIT,
    ensures
        final(list)@ == old(list)@ + ticks_of(*slide, bpm as int),
{
    let ghost before = list@;
    let mut j: i32 = 1;
    assert(list@ =~= before + ticks_of(*slide, bpm as int).subrange(0, 0));
    while j < slide.amount
        invariant
            1 <= j,
            slide.amount > 1 ==> j <= slide.amount,
            slide.amount <= 1 ==> j == 1,
            abs(slide.time as int) <= TIME_LIMIT,
            slide.amount <= AMOUNT_LIMIT,
            slide.has_ticks() ==> slide.snap >= 1,
            UNIT <= bpm <= BPM_LIMIT,
            list@ == before + ticks_of(*slide, bpm as int).subrange(0, j - 1),
        decreases slide.amount - j,
    {
        assert(BEAT_SCALE == 60_000_000_000_000 && AMOUNT_LIMIT == 1_000_000 && UNIT == 1000
            && BPM_LIMIT == 10_000_000 && TIME_LIMIT == 10_000_000_000_000);
        let num: i128 = (j as i128) * (BEAT_SCALE as i128);
        assert(1000 <= bpm * slide.snap <= 10_000_000 * 0x7fff_ffff) by (nonlinear_arith)
            requires
                1000 <= bpm <= 10_000_000,
                1 <= slide.snap <= 0x7fff_ffff,
        ;
        let den: i128 = (bpm as i128) * (slide.snap as i128);
        proof {
            lemma_tdiv_bounds(num as int, den as int);
            assert(tdiv(num as int, den as int) * 1000 <= num) by (nonlinear_arith)
                requires
                    0 <= tdiv(num as int, den as int) * den <= num,
                    den >= 1000,
            ;
        }
        let offset: i128 = div_trunc(num, den);
        assert(0 <= offset <= 60_000_000_000_000_000);
        let time: i64 = (slide.time as i128 + offset) as i64;
        list.push(HitSound::new(time, SOUND_SLIDE));
        proof {
            let ticks = ticks_of(*slide, bpm as int);
            assert(ticks[j - 1].time == time);
            assert(ticks.subrange(0, j as int) =~= ticks.subrange(0, j - 1).push(ticks[j - 1]));
            assert(list@ =~= before + ticks.subrange(0, j as int));
        }
        j = j + 1;
    }
    proof {
        let ticks = ticks_of(*slide, bpm as int);
        if slide.amount <= 1 {
            assert(j == 1);
            assert(ticks.len() == 0);
            assert(ticks.subrange(0, 0) =~= ticks);
        } else {
            assert(j == slide.amount);
            assert(ticks.len() == j - 1);
            assert(ticks.subrange(0, j - 1) =~= ticks);
        }
        assert(list@ == before + ticks);
    }
}

/// Appends the hit events of one note to `list`.
fn push_hits(list: &mut Vec<HitSound>, note: &Note, bpms: &Vec<BPM>)
    requires
        note.within_limits(),
        bpms_ok(bpms@),
        note is Slide && note->Slide_0.has_ticks() ==> bpms.len() > 0,
    ensures
        final(list)@ == old(list)@ + hits_of(*note, bpms@),
{
    let ghost before = list@;
    match note {
        Note::Tap(tap) => {
            list.push(HitSound::new(tap.time, SOUND_TAP));
        },
        Note::Flick(flick) => {
            list.push(HitSound::new(flick.time, SOUND_FLICK));
        },
        Note::Slide(slide) => {
            list.push(HitSound::new(slide.time, SOUND_SLIDE));
            if slide.amount > 1 {
                let bpm: i64 = find_tempo(bpms, slide.time);
                push_ticks(list, slide, bpm);
            } else {
                assert(ticks_of(*slide, tempo_at(bpms@, slide.time as int)) =~= Seq::empty());
            }
        },
        Note::Rotate(rotate) => {
            let note_type: i32 = if rotate.delta < 0 {
                SOUND_ROTATE_LEFT
            } else {
                SOUND_ROTATE_RIGHT
            };
            list.push(HitSound::new(rotate.time, note_type));
        },
        Note::Catch(catch) => {
            list.push(HitSound::new(catch.time, SOUND_CATCH));
        },
        Note::Trail(_) => {},
        Note::Bomb(_) => {},
    }
    assert(list@ =~= before + hits_of(*note, bpms@));
}

/// Expands the notes of a chart into its hit list.
pub fn build_hit_list(notes: &Vec<Note>, bpms: &Vec<BPM>) -> (list: Vec<HitSound>)
    requires
        notes_ok(notes@),
        bpms_ok(bpms@),
        needs_tempo(notes@) ==> bpms.len() > 0,
    ensures
        list@ == hit_list(notes@, bpms@),
        ascending(keys_of::<HitSound, ByTime>(list@)),
{
    let mut list: Vec<HitSound> = Vec::new();
    let n: usize = notes.len();
    let mut i: usize = 0;
    while i < n
        invariant
            0 <= i <= n,
            n == notes.len(),
            notes_ok(notes@),
            bpms_ok(bpms@),
            needs_tempo(notes@) ==> bpms.len() > 0,
            list@ == hits(notes@, bpms@, i as int),
        decreases n - i,
    {
        proof {
            assert(notes@[i as int].within_limits());
        }
        push_hits(&mut list, &notes[i], bpms);
        i = i + 1;
    }
    proof {
        lemma_stable_sort::<HitSound, TimeRank>(list@);
        crate::sort::lemma_ordered_by_time::<HitSound>(stable_sort::<HitSound, TimeRank>(list@));
    }
    sort_by_rank::<HitSound, TimeRank>(&list)
}

/// Marks every event before `chart_time` as triggered and every other event
/// as not yet triggered.
pub fn reset_hits(list: &mut Vec<HitSound>, chart_time: i64)
    ensures
        final(list)@ == reset_list(old(list)@, chart_time as int),
{
    let n: usize = list.len();
    let mut i: usize = 0;
    while i < n
        invariant
            0 <= i <= n,
            n == list.len(),
            list@.len() == old(list)@.len(),
            forall|k: int| 0 <= k < i ==> list@[k] == reset_list(old(list)@, chart_time as int)[k],
            forall|k: int| i <= k < n ==> list@[k] == old(list)@[k],
        decreases n - i,
    {
        let h: HitSound = list[i];
        list.set(i, HitSound { time: h.time, note_type: h.note_type, played: h.time < chart_time });
        i = i + 1;
    }
    assert(list@ =~= reset_list(old(list)@, chart_time as int));
}

/// Decides `bpms_ok`.
pub fn check_bpms(bpms: &Vec<BPM>) -> (ok: bool)
    ensures
        ok == bpms_ok(bpms@),
{
    let mut k: usize = 0;
    while k < bpms.len()
        invariant
            0 <= k <= bpms.len(),
            forall|i: int| 0 <= i < k ==> (#[trigger] bpms@[i]).within_limits(),
        decreases bpms.len() - k,
    {
        if !bpms[k].check_limits() {
            return false;
        }
        k = k + 1;
    }
    check_ascending::<BPM, ByTime>(bpms)
}

} // verus!
