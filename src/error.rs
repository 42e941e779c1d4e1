//! Why one file could not be segmented.

use vstd::prelude::*;

verus! {

/// A failure to segment one file. Each is reported for that file alone.
#[derive(Debug, Clone, Copy, PartialEq, Eq, Structural)]
pub enum SegmentError {
    /// The input path names no file to derive the output names from.
    InvalidInputName,
    /// A segment length of zero, or one whose seconds do not fit in `i32`.
    InvalidSegmentLength,
    /// A silence marker in the transcoder's output followed by no time.
    BadSilenceTime,
    /// The prober printed something other than a duration.
    BadDuration,
    /// The silence detection or the prober exited with this status other
    /// than success, or with none (`None`).
    PlanningFailed(Option<i32>),
    /// The transcoder exited with this status other than success, or with
    /// none (`None`): killed, or its output ended before its exit.
    ProcessFailed(Option<i32>),
}

/// A failure to segment one file: the file's path and what went wrong.
#[derive(Debug, Clone, PartialEq, Eq)]
pub struct SegmentationError {
    pub path: String,
    pub cause: SegmentError,
}

impl SegmentationError {
    /// The failure `cause` of the file at `path`.
    pub fn new(path: &str, cause: SegmentError) -> (r: SegmentationError)
        ensures
            r.path@ == path@,
            r.cause == cause,
    {
        SegmentationError { path: path.to_owned(), cause }
    }
}

} // verus!
