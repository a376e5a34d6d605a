//! Samples of the speed table.

use crate::fixed::{abs, DISTANCE_LIMIT, SPEED_LIMIT, TIME_LIMIT};
use crate::index::{DistanceGetter, TimeGetter};
use vstd::prelude::*;

verus! {

/// A speed point together with the cumulative scroll distance reached at its
/// time.
#[derive(Clone, Copy, Debug, PartialEq, Eq)]
pub struct SpeedDistance {
    pub time: i64,
    pub speed: i64,
    pub smooth: i32,
    pub distance: i64,
}

impl SpeedDistance {
    pub fn new(time: i64, speed: i64, smooth: i32, distance: i64) -> (r: Self)
        ensures
            r.time == time,
            r.speed == speed,
            r.smooth == smooth,
            r.distance == distance,
    {
        Self { time, speed, smooth, distance }
    }

    /// The sample can be computed with: time, speed and distance are within
    /// their limits.
    pub open spec fn within_limits(&self) -> bool {
        &&& 0 <= self.time <= TIME_LIMIT
        &&& abs(self.speed as int) <= SPEED_LIMIT
        &&& abs(self.distance as int) <= DISTANCE_LIMIT
    }

    /// Decides `within_limits`.
    pub fn check_limits(&self) -> (ok: bool)
        ensures
            ok == self.within_limits(),
    {
        0 <= self.time && self.time <= TIME_LIMIT && -SPEED_LIMIT <= self.speed && self.speed
            <= SPEED_LIMIT && -DISTANCE_LIMIT <= self.distance && self.distance <= DISTANCE_LIMIT
    }
}

impl TimeGetter for SpeedDistance {
    open spec fn time_of(&self) -> int {
        self.time as int
    }

    fn get_time(&self) -> (t: i64) {
        self.time
    }
}

impl DistanceGetter for SpeedDistance {
    open spec fn distance_of(&self) -> int {
        self.distance as int
    }

    fn get_distance(&self) -> (d: i64) {
        self.distance
    }
}

} // verus!
