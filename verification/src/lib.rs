//! Consolidation of per-trip stop sequences of a transit schedule.
//!
//! Trips are grouped by route and direction; within each group the trips'
//! individual stop orders are merged into one canonical stop order that is
//! consistent with every trip, or the cycle among the recorded orderings is
//! reported. Around that core stand the report helpers: projecting a trip
//! onto the canonical order, counting stopping patterns, laying out
//! timetable cells, and formatting times.

pub mod bitvec;
pub mod merge;
pub mod multimap;
pub mod report;
pub mod table;
pub mod types;
