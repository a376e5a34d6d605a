//! A chart engine for a circular rhythm game.
//!
//! A chart is a list of tempo changes, scroll-speed changes and timed notes
//! placed at angles. From it the engine derives sample tables and answers, in
//! logarithmic time, how far the play-field has scrolled at a given time and
//! which angle the trail occupies there.
//!
//! Every real quantity is a fixed-point number, stored as an `i64` that counts
//! fractions of its unit. Speeds, tempi, angles and curvature values count
//! thousandths (`fixed::UNIT`). Times in milliseconds and real times in
//! seconds count millionths (`fixed::TIME_UNIT`), as do the progress and the
//! control values of an ease (`easing::FINE`); beats count billionths
//! (`beat::BEAT_UNIT`). Distances count in `fixed::DISTANCE_UNIT`, which is
//! chosen so that the area under the speed line is a whole number of counts:
//! the speed table is exact, the way from a time to its distance and back is
//! exact, and the way from a distance to its time and back ends within a
//! ten-thousandth of a unit of distance. All arithmetic is integer arithmetic
//! with an explicit rounding rule, so every query is deterministic.

pub mod beat;
pub mod bpm;
pub mod chart;
pub mod continuity;
pub mod degree;
pub mod easing;
pub mod fixed;
pub mod hitsound;
pub mod index;
pub mod integrate;
pub mod inverse;
pub mod note;
pub mod official;
pub mod roundtrip;
pub mod sort;
pub mod speed;
pub mod speeddistance;
pub mod text;
pub mod trail;
pub mod traildistance;
