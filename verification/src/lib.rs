//! A course-enrollment planner: given, for two alternating academic terms,
//! a table of subjects and the alternative meeting-time sections each subject
//! offers, it searches for complete, conflict-free, credit-bounded enrollment
//! plans spanning as many terms as needed, forking the search at every choice
//! point, and exposes the data needed to rank the finished plans.

pub mod classes;
pub mod conflict;
pub mod credits;
pub mod engine;
pub mod scoring;
pub mod selector;
pub mod semester;
pub mod slots;
pub mod timesheet;
