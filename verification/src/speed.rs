//! Scroll-speed points.

use crate::fixed::{abs, SPEED_LIMIT, TIME_LIMIT};
use crate::index::TimeGetter;
use vstd::prelude::*;

verus! {

/// A scroll-speed change at `time`. With `smooth` equal to 1 the speed ramps
/// linearly from the previous point to this one; otherwise the previous speed
/// holds until `time` and steps to `speed` there.
#[derive(Clone, Copy, Debug, PartialEq, Eq)]
pub struct Speed {
    pub time: i64,
    pub speed: i64,
    pub smooth: i32,
}

impl Speed {
    pub fn new(time: i64, speed: i64, smooth: i32) -> (r: Self)
        ensures
            r.time == time,
            r.speed == speed,
            r.smooth == smooth,
    {
        Self { time, speed, smooth }
    }

    /// The speed point can be integrated: its time is not negative and, like
    /// the magnitude of its speed, within the limit.
    pub open spec fn within_limits(&self) -> bool {
        &&& 0 <= self.time <= TIME_LIMIT
        &&& abs(self.speed as int) <= SPEED_LIMIT
    }

    /// Decides `within_limits`.
    pub fn check_limits(&self) -> (ok: bool)
        ensures
            ok == self.within_limits(),
    {
        0 <= self.time && self.time <= TIME_LIMIT && -SPEED_LIMIT <= self.speed && self.speed
            <= SPEED_LIMIT
    }
}

impl TimeGetter for Speed {
    open spec fn time_of(&self) -> int {
        self.time as int
    }

    fn get_time(&self) -> (t: i64) {
        self.time
    }
}

} // verus!
