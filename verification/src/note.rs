//! The seven kinds of note.

use crate::fixed::{abs, AMOUNT_LIMIT, ANGLE_LIMIT, TIME_LIMIT};
use crate::index::TimeGetter;
use vstd::prelude::*;

verus! {

/// A tap at an angle.
#[derive(Clone, Copy, Debug, PartialEq, Eq)]
pub struct Tap {
    pub time: i64,
    pub degree: i64,
}

impl Tap {
    pub fn new(time: i64, degree: i64) -> (r: Self)
        ensures
            r.time == time,
            r.degree == degree,
    {
        Self { time, degree }
    }
}

/// A flick at an angle.
#[derive(Clone, Copy, Debug, PartialEq, Eq)]
pub struct Flick {
    pub time: i64,
    pub degree: i64,
}

impl Flick {
    pub fn new(time: i64, degree: i64) -> (r: Self)
        ensures
            r.time == time,
            r.degree == degree,
    {
        Self { time, degree }
    }
}

/// A slide: it starts at `degree` and sweeps, eased by the two curvature
/// values, to `end_degree`, ticking `amount` times at a rhythm of `snap`
/// ticks per beat.
#[derive(Clone, Copy, Debug, PartialEq, Eq)]
pub struct Slide {
    pub time: i64,
    pub degree: i64,
    pub slidetype: i32,
    pub end_degree: i64,
    pub snap: i32,
    pub amount: i32,
    pub prev_curv: i64,
    pub next_curv: i64,
}

impl Slide {
    pub fn new(
        time: i64,
        degree: i64,
        slidetype: i32,
        end_degree: i64,
        snap: i32,
        amount: i32,
        prev_curv: i64,
        next_curv: i64,
    ) -> (r: Self)
        ensures
            r.time == time,
            r.degree == degree,
            r.slidetype == slidetype,
            r.end_degree == end_degree,
            r.snap == snap,
            r.amount == amount,
            r.prev_curv == prev_curv,
            r.next_curv == next_curv,
    {
        Self { time, degree, slidetype, end_degree, snap, amount, prev_curv, next_curv }
    }

    /// The slide synthesizes ticks after its own hit.
    pub open spec fn has_ticks(&self) -> bool {
        self.amount > 1
    }
}

/// A rotation of the play-field: from `degree` it turns by `delta`.
#[derive(Clone, Copy, Debug, PartialEq, Eq)]
pub struct Rotate {
    pub time: i64,
    pub degree: i64,
    pub delta: i64,
    pub prev_curv: i64,
    pub next_curv: i64,
}

impl Rotate {
    pub fn new(time: i64, degree: i64, delta: i64, prev_curv: i64, next_curv: i64) -> (r: Self)
        ensures
            r.time == time,
            r.degree == degree,
            r.delta == delta,
            r.prev_curv == prev_curv,
            r.next_curv == next_curv,
    {
        Self { time, degree, delta, prev_curv, next_curv }
    }
}

/// A catch; its angle follows the trail.
#[derive(Clone, Copy, Debug, PartialEq, Eq)]
pub struct Catch {
    pub time: i64,
    pub degree: i64,
}

impl Catch {
    pub fn new(time: i64, degree: i64) -> (r: Self)
        ensures
            r.time == time,
            r.degree == degree,
    {
        Self { time, degree }
    }
}

/// A keyframe of the trail: it is never hit, it only bends the trail.
#[derive(Clone, Copy, Debug, PartialEq, Eq)]
pub struct Trail {
    pub time: i64,
    pub degree: i64,
    pub delta: i64,
    pub prev_curv: i64,
    pub next_curv: i64,
}

impl Trail {
    pub fn new(time: i64, degree: i64, delta: i64, prev_curv: i64, next_curv: i64) -> (r: Self)
        ensures
            r.time == time,
            r.degree == degree,
            r.delta == delta,
            r.prev_curv == prev_curv,
            r.next_curv == next_curv,
    {
        Self { time, degree, delta, prev_curv, next_curv }
    }
}

/// A bomb at an angle.
#[derive(Clone, Copy, Debug, PartialEq, Eq)]
pub struct Bomb {
    pub time: i64,
    pub degree: i64,
}

impl Bomb {
    pub fn new(time: i64, degree: i64) -> (r: Self)
        ensures
            r.time == time,
            r.degree == degree,
    {
        Self { time, degree }
    }
}

/// The type code of a tap.
pub const TAP_CODE: i32 = 0;

/// The type code of a flick.
pub const FLICK_CODE: i32 = 1;

/// The type code of a slide.
pub const SLIDE_CODE: i32 = 2;

/// The type code of a rotation.
pub const ROTATE_CODE: i32 = 4;

/// The type code of a catch.
pub const CATCH_CODE: i32 = 5;

/// The type code of a bomb.
pub const BOMB_CODE: i32 = 6;

/// The type code of a trail note.
pub const TRAIL_CODE: i32 = 11;

/// The fields that a note of some kind holds.
#[derive(Clone, Copy, Debug, PartialEq, Eq)]
pub enum NoteShape {
    /// A time and an angle: a tap, a flick, a catch or a bomb.
    Plain,
    /// The fields of a slide.
    Sliding,
    /// A time, an angle, a sweep and two curvature values: a rotation or a
    /// trail note.
    Turning,
}

/// The shape of the notes of a type code; `None` for a code that is no type.
pub open spec fn shape_of(kind: i32) -> Option<NoteShape> {
    if kind == TAP_CODE || kind == FLICK_CODE || kind == CATCH_CODE || kind == BOMB_CODE {
        Some(NoteShape::Plain)
    } else if kind == SLIDE_CODE {
        Some(NoteShape::Sliding)
    } else if kind == ROTATE_CODE || kind == TRAIL_CODE {
        Some(NoteShape::Turning)
    } else {
        None
    }
}

/// `shape_of` in executable code.
pub fn shape_of_code(kind: i32) -> (r: Option<NoteShape>)
    ensures
        r == shape_of(kind),
{
    if kind == TAP_CODE || kind == FLICK_CODE || kind == CATCH_CODE || kind == BOMB_CODE {
        Some(NoteShape::Plain)
    } else if kind == SLIDE_CODE {
        Some(NoteShape::Sliding)
    } else if kind == ROTATE_CODE || kind == TRAIL_CODE {
        Some(NoteShape::Turning)
    } else {
        None
    }
}

/// A note of any kind.
#[derive(Clone, Copy, Debug, PartialEq, Eq)]
pub enum Note {
    Tap(Tap),
    Flick(Flick),
    Slide(Slide),
    Rotate(Rotate),
    Catch(Catch),
    Trail(Trail),
    Bomb(Bomb),
}

impl Note {
    /// The time the note stands at.
    pub open spec fn time(&self) -> int {
        match *self {
            Note::Tap(n) => n.time as int,
            Note::Flick(n) => n.time as int,
            Note::Slide(n) => n.time as int,
            Note::Rotate(n) => n.time as int,
            Note::Catch(n) => n.time as int,
            Note::Trail(n) => n.time as int,
            Note::Bomb(n) => n.time as int,
        }
    }

    /// The angle the note stands at.
    pub open spec fn degree(&self) -> int {
        match *self {
            Note::Tap(n) => n.degree as int,
            Note::Flick(n) => n.degree as int,
            Note::Slide(n) => n.degree as int,
            Note::Rotate(n) => n.degree as int,
            Note::Catch(n) => n.degree as int,
            Note::Trail(n) => n.degree as int,
            Note::Bomb(n) => n.degree as int,
        }
    }

    /// The type code of the note.
    pub open spec fn code(&self) -> i32 {
        match *self {
            Note::Tap(_) => TAP_CODE,
            Note::Flick(_) => FLICK_CODE,
            Note::Slide(_) => SLIDE_CODE,
            Note::Rotate(_) => ROTATE_CODE,
            Note::Catch(_) => CATCH_CODE,
            Note::Trail(_) => TRAIL_CODE,
            Note::Bomb(_) => BOMB_CODE,
        }
    }

    /// The angle-only note of type `kind` at `time` and `degree`.
    pub open spec fn plain_of(kind: i32, time: i64, degree: i64) -> Note {
        if kind == TAP_CODE {
            Note::Tap(Tap { time, degree })
        } else if kind == FLICK_CODE {
            Note::Flick(Flick { time, degree })
        } else if kind == CATCH_CODE {
            Note::Catch(Catch { time, degree })
        } else {
            Note::Bomb(Bomb { time, degree })
        }
    }

    /// The turning note of type `kind`.
    pub open spec fn turning_of(
        kind: i32,
        time: i64,
        degree: i64,
        delta: i64,
        prev_curv: i64,
        next_curv: i64,
    ) -> Note {
        if kind == ROTATE_CODE {
            Note::Rotate(Rotate { time, degree, delta, prev_curv, next_curv })
        } else {
            Note::Trail(Trail { time, degree, delta, prev_curv, next_curv })
        }
    }

    /// The note bends the trail: it is a rotation or a trail keyframe.
    pub open spec fn is_keyframe(&self) -> bool {
        *self is Rotate || *self is Trail
    }

    /// The note can be computed with: its time and every angle and curvature
    /// value are within their limits, and a slide repeats at most
    /// `AMOUNT_LIMIT` times, at a positive snap if it ticks at all.
    pub open spec fn within_limits(&self) -> bool {
        &&& abs(self.time()) <= TIME_LIMIT
        &&& abs(self.degree()) <= ANGLE_LIMIT
        &&& match *self {
            Note::Slide(n) => {
                &&& abs(n.end_degree as int) <= ANGLE_LIMIT
                &&& abs(n.prev_curv as int) <= ANGLE_LIMIT
                &&& abs(n.next_curv as int) <= ANGLE_LIMIT
                &&& n.amount <= AMOUNT_LIMIT
                &&& n.has_ticks() ==> n.snap >= 1
            },
            Note::Rotate(n) => {
                &&& abs(n.delta as int) <= ANGLE_LIMIT
                &&& abs(n.prev_curv as int) <= ANGLE_LIMIT
                &&& abs(n.next_curv as int) <= ANGLE_LIMIT
            },
            Note::Trail(n) => {
                &&& abs(n.delta as int) <= ANGLE_LIMIT
                &&& abs(n.prev_curv as int) <= ANGLE_LIMIT
                &&& abs(n.next_curv as int) <= ANGLE_LIMIT
            },
            _ => true,
        }
    }

    /// The type code of the note.
    pub fn type_code(&self) -> (c: i32)
        ensures
            c == self.code(),
            shape_of(c) is Some,
    {
        match self {
            Note::Tap(_) => TAP_CODE,
            Note::Flick(_) => FLICK_CODE,
            Note::Slide(_) => SLIDE_CODE,
            Note::Rotate(_) => ROTATE_CODE,
            Note::Catch(_) => CATCH_CODE,
            Note::Trail(_) => TRAIL_CODE,
            Note::Bomb(_) => BOMB_CODE,
        }
    }

    /// Makes the angle-only note of type `kind`.
    pub fn plain(kind: i32, time: i64, degree: i64) -> (n: Note)
        requires
            shape_of(kind) == Some(NoteShape::Plain),
        ensures
            n == Note::plain_of(kind, time, degree),
            n.code() == kind,
            n.time() == time,
            n.degree() == degree,
    {
        if kind == TAP_CODE {
            Note::Tap(Tap::new(time, degree))
        } else if kind == FLICK_CODE {
            Note::Flick(Flick::new(time, degree))
        } else if kind == CATCH_CODE {
            Note::Catch(Catch::new(time, degree))
        } else {
            Note::Bomb(Bomb::new(time, degree))
        }
    }

    /// Makes the turning note of type `kind`.
    pub fn turning(
        kind: i32,
        time: i64,
        degree: i64,
        delta: i64,
        prev_curv: i64,
        next_curv: i64,
    ) -> (n: Note)
        requires
            shape_of(kind) == Some(NoteShape::Turning),
        ensures
            n == Note::turning_of(kind, time, degree, delta, prev_curv, next_curv),
            n.code() == kind,
            n.time() == time,
            n.degree() == degree,
            n.is_keyframe(),
    {
        if kind == ROTATE_CODE {
            Note::Rotate(Rotate::new(time, degree, delta, prev_curv, next_curv))
        } else {
            Note::Trail(Trail::new(time, degree, delta, prev_curv, next_curv))
        }
    }

    pub fn get_time(&self) -> (t: i64)
        ensures
            t == self.time(),
    {
        match self {
            Note::Tap(tap) => tap.time,
            Note::Flick(flick) => flick.time,
            Note::Slide(slide) => slide.time,
            Note::Rotate(rotate) => rotate.time,
            Note::Catch(catch) => catch.time,
            Note::Trail(trail) => trail.time,
            Note::Bomb(bomb) => bomb.time,
        }
    }

    /// Decides `within_limits`.
    pub fn check_limits(&self) -> (ok: bool)
        ensures
            ok == self.within_limits(),
    {
        match self {
            Note::Tap(n) => in_range(n.time, TIME_LIMIT) && in_range(n.degree, ANGLE_LIMIT),
            Note::Flick(n) => in_range(n.time, TIME_LIMIT) && in_range(n.degree, ANGLE_LIMIT),
            Note::Catch(n) => in_range(n.time, TIME_LIMIT) && in_range(n.degree, ANGLE_LIMIT),
            Note::Bomb(n) => in_range(n.time, TIME_LIMIT) && in_range(n.degree, ANGLE_LIMIT),
            Note::Slide(n) => in_range(n.time, TIME_LIMIT) && in_range(n.degree, ANGLE_LIMIT)
                && in_range(n.end_degree, ANGLE_LIMIT) && in_range(n.prev_curv, ANGLE_LIMIT)
                && in_range(n.next_curv, ANGLE_LIMIT) && n.amount <= AMOUNT_LIMIT && (n.amount
                <= 1 || n.snap >= 1),
            Note::Rotate(n) => in_range(n.time, TIME_LIMIT) && in_range(n.degree, ANGLE_LIMIT)
                && in_range(n.delta, ANGLE_LIMIT) && in_range(n.prev_curv, ANGLE_LIMIT)
                && in_range(n.next_curv, ANGLE_LIMIT),
            Note::Trail(n) => in_range(n.time, TIME_LIMIT) && in_range(n.degree, ANGLE_LIMIT)
                && in_range(n.delta, ANGLE_LIMIT) && in_range(n.prev_curv, ANGLE_LIMIT)
                && in_range(n.next_curv, ANGLE_LIMIT),
        }
    }
}

/// Whether the magnitude of `v` is at most `limit`.
pub fn in_range(v: i64, limit: i64) -> (ok: bool)
    requires
        limit >= 0,
    ensures
        ok == (abs(v as int) <= limit),
{
    -limit <= v && v <= limit
}

impl TimeGetter for Note {
    open spec fn time_of(&self) -> int {
        self.time()
    }

    fn get_time(&self) -> (t: i64) {
        Note::get_time(self)
    }
}

} // verus!
