//! Splitting long audio recordings into bounded-length segments.
//!
//! The library decides where a recording is cut (at fixed intervals or at
//! detected silences), reads the text that the transcoder and the prober
//! print, builds their command lines, and turns the transcoder's progress
//! lines into per-file progress records. Running the programs is left to
//! the caller.

pub mod timing;
pub mod planner;
pub mod diagnostics;
pub mod error;
pub mod progress;
pub mod driver;
pub mod invocation;
pub mod listing;
