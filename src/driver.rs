//! One file's segmentation: planning its cuts, and turning the transcoder's
//! events into progress records and a final outcome.
//!
//! The caller runs the programs: it hands in what they printed and how they
//! exited, and performs the action that comes back.

use vstd::prelude::*;

use crate::diagnostics::{audio_file_duration, silence_points, silences_from};
use crate::error::{SegmentError, SegmentationError};
use crate::planner::{
    fixed_cuts, fixed_split_points, ints, segment_micros, silence_cuts, split_at_silences,
};
use crate::progress::{
    line_observation, next, read_line, regex_first_group, Observation, Phase, Report, Tracker,
    FULL_PROGRESS, SEGMENT_OPENED_PATTERN,
};
use crate::timing::parsed_seconds;

verus! {

/// A progress record for the presentation layer.
#[derive(Debug, Clone, PartialEq, Eq)]
pub struct SegmentProgress {
    /// The input file's name, without its directory.
    pub file_name: String,
    /// Progress in hundredths of a percent, from 0 to 10 000.
    pub progress: u32,
    /// Set on the one record that ends a file that was segmented.
    pub completed: bool,
    /// The file's place in its batch.
    pub index: usize,
    /// The size of the batch.
    pub total: usize,
}

/// An event of the running transcoder.
#[derive(Debug, PartialEq, Eq)]
pub enum RunEvent {
    /// A line of its diagnostic output.
    Stderr(Vec<u8>),
    /// Its exit, with its status code when it has one.
    Terminated(Option<i32>),
    /// Its output ended without an exit being reported.
    Closed,
}

/// What the caller does next.
#[derive(Debug, PartialEq, Eq)]
pub enum RunAction {
    /// Nothing; read the next event.
    Wait,
    /// Emit this record and read the next event.
    Emit(SegmentProgress),
    /// Emit this terminal record; the file is done.
    Finish(SegmentProgress),
    /// The file failed; report this error.
    Fail(SegmentationError),
}

/// One file's segmentation while the transcoder runs.
pub struct SegmentRun {
    /// The input file's path, for errors.
    pub path: String,
    /// The input file's name, for progress records.
    pub file_name: String,
    pub index: usize,
    pub total: usize,
    pub tracker: Tracker,
}

/// `rec` is the record of `run`'s file with this progress and flag.
pub open spec fn is_record(
    rec: SegmentProgress,
    run: SegmentRun,
    progress: u32,
    completed: bool,
) -> bool {
    &&& rec.file_name@ == run.file_name@
    &&& rec.index == run.index
    &&& rec.total == run.total
    &&& rec.progress == progress
    &&& rec.completed == completed
}

/// The action that carries out a report of `run`'s tracker.
pub open spec fn action_for(run: SegmentRun, report: Report, a: RunAction) -> bool {
    match report {
        Report::Nothing => a == RunAction::Wait,
        Report::Progress(p) => a matches RunAction::Emit(rec) && is_record(rec, run, p, false),
        Report::Completed => a matches RunAction::Finish(rec) && is_record(
            rec,
            run,
            FULL_PROGRESS,
            true,
        ),
        Report::Failed(code) => a matches RunAction::Fail(e) && e.path@ == run.path@ && e.cause
            == SegmentError::ProcessFailed(code),
    }
}

/// What a transcoder event means for progress.
pub open spec fn event_observation(e: RunEvent) -> Observation {
    match e {
        RunEvent::Stderr(line) => line_observation(
            line@,
            regex_first_group(SEGMENT_OPENED_PATTERN@, line@),
        ),
        RunEvent::Terminated(code) => Observation::Exited(code),
        RunEvent::Closed => Observation::Closed,
    }
}

impl SegmentRun {
    pub open spec fn wf(self) -> bool {
        self.tracker.wf()
    }

    /// `self` after an observation, for the same file.
    pub open spec fn advanced(self, old: SegmentRun, o: Observation) -> bool {
        &&& self.path@ == old.path@
        &&& self.file_name@ == old.file_name@
        &&& self.index == old.index
        &&& self.total == old.total
        &&& self.tracker == next(old.tracker, o).0
    }

    fn record(&self, progress: u32, completed: bool) -> (r: SegmentProgress)
        ensures
            is_record(r, *self, progress, completed),
    {
        SegmentProgress {
            file_name: self.file_name.clone(),
            progress,
            completed,
            index: self.index,
            total: self.total,
        }
    }

    /// Starts following the transcoder for the file at `path`, named
    /// `file_name`, entry `index` of a batch of `total`, cut at `cut_count`
    /// points; returns the run and the record that the file is under way at
    /// 0 percent.
    pub fn start(path: String, file_name: String, index: usize, total: usize, cut_count: usize) -> (r: (
        SegmentRun,
        SegmentProgress,
    ))
        requires
            cut_count < usize::MAX,
        ensures
            r.0.wf(),
            r.0.path@ == path@,
            r.0.file_name@ == file_name@,
            r.0.index == index,
            r.0.total == total,
            r.0.tracker == (Tracker { segments: (cut_count + 1) as usize, progress: 0, phase: Phase::Running }),
            is_record(r.1, r.0, 0, false),
    {
        let run = SegmentRun { path, file_name, index, total, tracker: Tracker::new(cut_count + 1) };
        let rec = run.record(0, false);
        (run, rec)
    }

    /// Takes in one observation and says what to do.
    pub fn on_observation(&mut self, o: Observation) -> (r: RunAction)
        requires
            old(self).wf(),
        ensures
            final(self).wf(),
            final(self).advanced(*old(self), o),
            action_for(*old(self), next(old(self).tracker, o).1, r),
    {
        let report = self.tracker.observe(o);
        match report {
            Report::Nothing => RunAction::Wait,
            Report::Progress(p) => RunAction::Emit(self.record(p, false)),
            Report::Completed => RunAction::Finish(self.record(FULL_PROGRESS, true)),
            Report::Failed(code) => RunAction::Fail(
                SegmentationError::new(self.path.as_str(), SegmentError::ProcessFailed(code)),
            ),
        }
    }

    /// Takes in one transcoder event and says what to do.
    pub fn on_event(&mut self, event: &RunEvent) -> (r: RunAction)
        requires
            old(self).wf(),
        ensures
            final(self).wf(),
            final(self).advanced(*old(self), event_observation(*event)),
            action_for(*old(self), next(old(self).tracker, event_observation(*event)).1, r),
    {
        let o = match event {
            RunEvent::Stderr(line) => read_line(line.as_slice()),
            RunEvent::Terminated(code) => Observation::Exited(*code),
            RunEvent::Closed => Observation::Closed,
        };
        self.on_observation(o)
    }
}

/// The cuts that planning gives, in microseconds: from the transcoder's
/// silence-detection output when cutting at silences, else from the
/// duration that the prober printed.
pub open spec fn planned_cuts(tool_output: Seq<u8>, segment_time: i32, cut_at_silence: bool) -> Result<
    Seq<int>,
    SegmentError,
> {
    if cut_at_silence {
        match silences_from(tool_output, 0) {
            Some(sil) => Ok(silence_cuts(sil, segment_micros(segment_time))),
            None => Err(SegmentError::BadSilenceTime),
        }
    } else {
        match parsed_seconds(tool_output) {
            Some(d) => Ok(fixed_cuts(d as int, segment_micros(segment_time))),
            None => Err(SegmentError::BadDuration),
        }
    }
}

/// The cut points of the file at `input_filename`, in microseconds, for
/// segments of `segment_time` seconds. `tool_output` is what the planning
/// program printed and `exit_code` how it exited: the transcoder's
/// silence-detection diagnostics when `cut_at_silence`, else the prober's
/// duration. A run that did not succeed fails the file.
pub fn split_points(
    input_filename: &str,
    tool_output: &[u8],
    exit_code: Option<i32>,
    segment_time: i32,
    cut_at_silence: bool,
) -> (r: Result<Vec<u64>, SegmentationError>)
    requires
        segment_time > 0,
    ensures
        exit_code != Some(0i32) ==> (r matches Err(e) && e.path@ == input_filename@ && e.cause
            == SegmentError::PlanningFailed(exit_code)),
        exit_code == Some(0i32) ==> match planned_cuts(tool_output@, segment_time, cut_at_silence) {
            Ok(c) => r matches Ok(v) && ints(v@) == c,
            Err(cause) => r matches Err(e) && e.path@ == input_filename@ && e.cause == cause,
        },
{
    if exit_code != Some(0i32) {
        return Err(SegmentationError::new(input_filename, SegmentError::PlanningFailed(exit_code)));
    }
    let planned = if cut_at_silence {
        match silence_points(tool_output) {
            Ok(silences) => Ok(split_at_silences(silences, segment_time)),
            Err(cause) => Err(cause),
        }
    } else {
        match audio_file_duration(tool_output) {
            Ok(duration) => Ok(fixed_split_points(duration, segment_time)),
            Err(cause) => Err(cause),
        }
    };
    match planned {
        Ok(cuts) => Ok(cuts),
        Err(cause) => Err(SegmentationError::new(input_filename, cause)),
    }
}

/// The segment length in seconds for chunks of `chunk_minutes` minutes;
/// an error for zero minutes or for seconds that do not fit in `i32`.
pub fn segment_seconds(chunk_minutes: u32) -> (r: Result<i32, SegmentError>)
    ensures
        0 < chunk_minutes * 60 <= i32::MAX ==> r == Ok::<i32, SegmentError>((chunk_minutes * 60) as i32),
        !(0 < chunk_minutes * 60 <= i32::MAX) ==> r == Err::<i32, SegmentError>(
            SegmentError::InvalidSegmentLength,
        ),
{
    if chunk_minutes == 0 || chunk_minutes > (i32::MAX as u32) / 60 {
        Err(SegmentError::InvalidSegmentLength)
    } else {
        Ok((chunk_minutes * 60) as i32)
    }
}

} // verus!
