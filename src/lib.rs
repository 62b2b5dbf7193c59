//! Final grades for a programming project, computed from an autograder's
//! submission export: parsing, deadline penalties, rubric validation and
//! selection of each student's best submission.
//!
//! Points, ordering keys and penalty fractions are held as integers in
//! millionths, and instants as nanoseconds since the Unix epoch, so that every
//! comparison and score is exact.  A student's submissions refer to the student
//! by university ID; grades refer to students and submissions by position.

pub mod decimal;
pub mod determinism;
pub mod export;
pub mod extensions;
pub mod grading;
pub mod report;
pub mod roster;
pub mod submissions;
pub mod table;
pub mod text;
pub mod time;
pub mod yaml;
