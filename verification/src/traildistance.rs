//! Keyframes of an angle track.

use crate::fixed::{abs, ANGLE_LIMIT, QUERY_DISTANCE_LIMIT, QUERY_TIME_LIMIT};
use crate::index::{DistanceGetter, TimeGetter};
use vstd::prelude::*;

verus! {

/// An angle keyframe projected onto the distance axis: at `time`, which is
/// `distance` along the scroll path, the track stands at `degree` and turns
/// by `delta` at once. `prev_curv` shapes the ease into the keyframe,
/// `next_curv` the ease out of it.
#[derive(Clone, Copy, Debug, PartialEq, Eq)]
pub struct TrailDistance {
    pub time: i64,
    pub degree: i64,
    pub delta: i64,
    pub prev_curv: i64,
    pub next_curv: i64,
    pub distance: i64,
}

impl TrailDistance {
    pub fn new(
        time: i64,
        degree: i64,
        delta: i64,
        prev_curv: i64,
        next_curv: i64,
        distance: i64,
    ) -> (r: Self)
        ensures
            r.time == time,
            r.degree == degree,
            r.delta == delta,
            r.prev_curv == prev_curv,
            r.next_curv == next_curv,
            r.distance == distance,
    {
        Self { time, degree, delta, prev_curv, next_curv, distance }
    }

    /// The keyframe can be computed with: every field is within its limit.
    pub open spec fn within_limits(&self) -> bool {
        &&& abs(self.time as int) <= QUERY_TIME_LIMIT
        &&& abs(self.degree as int) <= 2 * ANGLE_LIMIT
        &&& abs(self.delta as int) <= ANGLE_LIMIT
        &&& abs(self.prev_curv as int) <= ANGLE_LIMIT
        &&& abs(self.next_curv as int) <= ANGLE_LIMIT
        &&& abs(self.distance as int) <= QUERY_DISTANCE_LIMIT
    }

    /// Decides `within_limits`.
    pub fn check_limits(&self) -> (ok: bool)
        ensures
            ok == self.within_limits(),
    {
        -QUERY_TIME_LIMIT <= self.time && self.time <= QUERY_TIME_LIMIT && -2 * ANGLE_LIMIT
            <= self.degree && self.degree <= 2 * ANGLE_LIMIT && -ANGLE_LIMIT <= self.delta
            && self.delta <= ANGLE_LIMIT && -ANGLE_LIMIT <= self.prev_curv && self.prev_curv
            <= ANGLE_LIMIT && -ANGLE_LIMIT <= self.next_curv && self.next_curv <= ANGLE_LIMIT
            && -QUERY_DISTANCE_LIMIT <= self.distance && self.distance <= QUERY_DISTANCE_LIMIT
    }
}

impl TimeGetter for TrailDistance {
    open spec fn time_of(&self) -> int {
        self.time as int
    }

    fn get_time(&self) -> (t: i64) {
        self.time
    }
}

impl DistanceGetter for TrailDistance {
    open spec fn distance_of(&self) -> int {
        self.distance as int
    }

    fn get_distance(&self) -> (d: i64) {
        self.distance
    }
}

} // verus!
