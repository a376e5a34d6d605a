//! Tempo points.

use crate::fixed::{abs, div_trunc, tdiv, BPM_LIMIT, MILLIS, TIME_LIMIT, UNIT};
use crate::index::TimeGetter;
use vstd::prelude::*;

verus! {

/// A tempo change: from `time` on, the tempo is `bpm` beats per minute.
#[derive(Clone, Copy, Debug, PartialEq, Eq)]
pub struct BPM {
    pub time: i64,
    pub bpm: i64,
}

impl BPM {
    pub fn new(time: i64, bpm: i64) -> (r: Self)
        ensures
            r.time == time,
            r.bpm == bpm,
    {
        Self { time, bpm }
    }

    /// The tempo point can be computed with: its time is within the limit and
    /// its tempo is at least one beat per minute and within the limit.
    pub open spec fn within_limits(&self) -> bool {
        &&& abs(self.time as int) <= TIME_LIMIT
        &&& UNIT <= self.bpm <= BPM_LIMIT
    }

    /// Decides `within_limits`.
    pub fn check_limits(&self) -> (ok: bool)
        ensures
            ok == self.within_limits(),
    {
        -TIME_LIMIT <= self.time && self.time <= TIME_LIMIT && UNIT <= self.bpm && self.bpm
            <= BPM_LIMIT
    }

    /// The time of the tempo point in seconds, rounded toward zero.
    pub fn real_time(&self) -> (r: i64)
        ensures
            r == tdiv(self.time as int, MILLIS as int),
    {
        proof {
            crate::fixed::lemma_tdiv_bounds(self.time as int, MILLIS as int);
        }
        div_trunc(self.time as i128, MILLIS as i128) as i64
    }
}

impl TimeGetter for BPM {
    open spec fn time_of(&self) -> int {
        self.time as int
    }

    fn get_time(&self) -> (t: i64) {
        self.time
    }
}

} // verus!
