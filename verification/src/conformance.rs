//! Measuring the engine: against the results of another engine, against the
//! regression corpus of the Core Rule Set, and against requests whose verdict is
//! known.
//!
//! What is measured is read and printed elsewhere; here is what a measurement
//! says.

pub mod patterns;
pub mod ranking;
pub mod references;
pub mod requests;
pub mod sources;
pub mod stages;
pub mod sweep;
