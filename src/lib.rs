//! Course timetabling: entity model, identifier normalization, the penalty
//! evaluator that scores a candidate timetable, and the integer side of a
//! simulated-annealing search over timetables.

pub mod model;
pub mod penalty;
pub mod schedule;
pub mod normalize;
pub mod annealing;
pub mod text;
