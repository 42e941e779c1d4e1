//! Per-file progress: what the transcoder's lines and exit mean, and the
//! records that they give.
//!
//! Progress is counted in hundredths of a percent, from 0 to `FULL_PROGRESS`.

use vstd::prelude::*;

use crate::diagnostics::{find, first_match, input_marker};
use crate::timing::{all_digits, decimal_value, read_digits};

verus! {

/// Progress of a finished file: 100 percent.
pub const FULL_PROGRESS: u32 = 10_000;

/// Progress once the transcoder has recognised its input: 1 percent, so that
/// a file in flight differs from one that is queued.
pub const STARTED_PROGRESS: u32 = 100;

/// A transcoder line that opens an output segment; the group is its ordinal.
pub const SEGMENT_OPENED_PATTERN: &'static str = r"Opening '.*?(\d+)\.mp3' for writing";

/// What the first capture group of `pattern` matched in `haystack`, at the
/// leftmost-first match.
pub uninterp spec fn regex_first_group(pattern: Seq<char>, haystack: Seq<u8>) -> Option<Seq<u8>>;

/// Relies on `regex::bytes::Regex::new`, `captures` and `Captures::get(1)`:
/// the bytes of the first capture group of the leftmost-first match, and
/// `None` where the pattern does not compile, does not match, or the group
/// takes no part in the match.
#[verifier::external_body]
fn first_group(pattern: &str, haystack: &[u8]) -> (r: Option<Vec<u8>>)
    ensures
        match r {
            Some(g) => regex_first_group(pattern@, haystack@) == Some(g@),
            None => regex_first_group(pattern@, haystack@) is None,
        },
{
    let re = match regex::bytes::Regex::new(pattern) {
        Ok(re) => re,
        Err(_) => return None,
    };
    match re.captures(haystack) {
        Some(caps) => match caps.get(1) {
            Some(m) => Some(m.as_bytes().to_vec()),
            None => None,
        },
        None => None,
    }
}

/// What one transcoder event means for a file's progress.
#[derive(Debug, Clone, Copy, PartialEq, Eq, Structural)]
pub enum Observation {
    /// The input has been opened and recognised.
    Started,
    /// The output segment with this ordinal has been opened for writing.
    SegmentOpened(usize),
    /// A line of no meaning for progress.
    Other,
    /// The transcoder exited with this status, or with none.
    Exited(Option<i32>),
    /// The transcoder's output ended before it reported its exit.
    Closed,
}

pub open spec fn opt_view(g: Option<Vec<u8>>) -> Option<Seq<u8>> {
    match g {
        Some(v) => Some(v@),
        None => None,
    }
}

/// The ordinal that a captured group of digits denotes, when it fits.
pub open spec fn ordinal_of(group: Option<Seq<u8>>) -> Option<usize> {
    match group {
        Some(d) => if d.len() > 0 && all_digits(d) && decimal_value(d) <= usize::MAX {
            Some(decimal_value(d) as usize)
        } else {
            None
        },
        None => None,
    }
}

/// What a transcoder line means, given what the segment pattern captured in it.
pub open spec fn line_observation(line: Seq<u8>, group: Option<Seq<u8>>) -> Observation {
    if first_match(line, input_marker()) is Some {
        Observation::Started
    } else {
        match ordinal_of(group) {
            Some(n) => Observation::SegmentOpened(n),
            None => Observation::Other,
        }
    }
}

fn input_marker_bytes() -> (r: Vec<u8>)
    ensures
        r@ == input_marker(),
{
    let r = vec!['I' as u8, 'n' as u8, 'p' as u8, 'u' as u8, 't' as u8, ' ' as u8, '#' as u8, '0' as u8];
    assert(r@ =~= input_marker());
    r
}

/// The ordinal written by the digits `d`.
pub fn parse_ordinal(d: &[u8]) -> (r: Option<usize>)
    ensures
        r == ordinal_of(Some(d@)),
{
    let (end, value) = read_digits(d, 0, d.len());
    assert(d@.subrange(0, end as int) =~= d@.take(end as int));
    if end == 0 || end < d.len() {
        proof {
            if end < d@.len() {
                assert(!crate::timing::is_digit(d@[end as int]));
            }
        }
        return None;
    }
    assert(d@.take(end as int) =~= d@);
    match value {
        Some(v) => if v <= usize::MAX as u64 {
            Some(v as usize)
        } else {
            None
        },
        None => None,
    }
}

/// What a transcoder line means, given what the segment pattern captured in
/// it: the first capture group, or `None` where the pattern did not match.
pub fn classify_line(line: &[u8], group: &Option<Vec<u8>>) -> (r: Observation)
    ensures
        r == line_observation(line@, opt_view(*group)),
{
    let marker = input_marker_bytes();
    if find(line, marker.as_slice()).is_some() {
        return Observation::Started;
    }
    match group {
        Some(g) => match parse_ordinal(g.as_slice()) {
            Some(n) => Observation::SegmentOpened(n),
            None => Observation::Other,
        },
        None => Observation::Other,
    }
}

/// What a transcoder line means.
pub fn read_line(line: &[u8]) -> (r: Observation)
    ensures
        r == line_observation(line@, regex_first_group(SEGMENT_OPENED_PATTERN@, line@)),
{
    let group = first_group(SEGMENT_OPENED_PATTERN, line);
    classify_line(line, &group)
}

/// Where a file's segmentation stands.
#[derive(Debug, Clone, Copy, PartialEq, Eq, Structural)]
pub enum Phase {
    Running,
    Completed,
    Failed,
}

/// The progress of one file while the transcoder runs.
#[derive(Debug, Clone, Copy, PartialEq, Eq, Structural)]
pub struct Tracker {
    /// How many output segments the file is cut into: one more than its cuts.
    pub segments: usize,
    /// The highest progress reported so far.
    pub progress: u32,
    pub phase: Phase,
}

/// What an observation asks to report.
#[derive(Debug, Clone, Copy, PartialEq, Eq, Structural)]
pub enum Report {
    Nothing,
    /// Progress while running, in hundredths of a percent.
    Progress(u32),
    /// The file is done: the one terminal record at full progress.
    Completed,
    /// The transcoder failed with this exit status, or with none.
    Failed(Option<i32>),
}

impl Tracker {
    pub open spec fn wf(self) -> bool {
        self.segments >= 1 && self.progress <= FULL_PROGRESS
    }
}

/// The progress that opening output segment `ordinal` of `segments` stands
/// for: `ordinal / segments` of the whole, at most all of it.
pub open spec fn ordinal_progress(ordinal: nat, segments: nat) -> nat {
    let done = if ordinal < segments {
        ordinal
    } else {
        segments
    };
    done * FULL_PROGRESS as nat / segments
}

pub open spec fn max_progress(a: nat, b: nat) -> nat {
    if a < b {
        b
    } else {
        a
    }
}

/// The tracker after an observation, and what it reports. Once the file is
/// done or failed, nothing more is reported; while running, progress never
/// goes down.
pub open spec fn next(t: Tracker, o: Observation) -> (Tracker, Report) {
    if t.phase != Phase::Running {
        (t, Report::Nothing)
    } else {
        match o {
            Observation::Started => {
                let p = max_progress(t.progress as nat, STARTED_PROGRESS as nat) as u32;
                (Tracker { progress: p, ..t }, Report::Progress(p))
            },
            Observation::SegmentOpened(n) => {
                let p = max_progress(
                    t.progress as nat,
                    ordinal_progress(n as nat, t.segments as nat),
                ) as u32;
                (Tracker { progress: p, ..t }, Report::Progress(p))
            },
            Observation::Other => (t, Report::Nothing),
            Observation::Exited(code) => if code == Some(0i32) {
                (Tracker { progress: FULL_PROGRESS, phase: Phase::Completed, ..t }, Report::Completed)
            } else {
                (Tracker { phase: Phase::Failed, ..t }, Report::Failed(code))
            },
            Observation::Closed => (Tracker { phase: Phase::Failed, ..t }, Report::Failed(None)),
        }
    }
}

/// The reports for a run of observations.
pub open spec fn trace(t: Tracker, obs: Seq<Observation>) -> Seq<Report>
    decreases obs.len(),
{
    if obs.len() == 0 {
        seq![]
    } else {
        seq![next(t, obs[0]).1] + trace(next(t, obs[0]).0, obs.drop_first())
    }
}

/// The tracker after a run of observations.
pub open spec fn after(t: Tracker, obs: Seq<Observation>) -> Tracker
    decreases obs.len(),
{
    if obs.len() == 0 {
        t
    } else {
        after(next(t, obs[0]).0, obs.drop_first())
    }
}

/// How many terminal records a run of reports holds.
pub open spec fn completions(rs: Seq<Report>) -> nat
    decreases rs.len(),
{
    if rs.len() == 0 {
        0
    } else {
        (if rs[0] == Report::Completed {
            1nat
        } else {
            0nat
        }) + completions(rs.drop_first())
    }
}

/// The progress that opening output segment `ordinal` stands for.
pub fn segment_progress(ordinal: usize, segments: usize) -> (r: u32)
    requires
        segments >= 1,
    ensures
        r == ordinal_progress(ordinal as nat, segments as nat),
        r <= FULL_PROGRESS,
{
    let done = if ordinal < segments {
        ordinal
    } else {
        segments
    };
    let scaled = done as u128 * FULL_PROGRESS as u128;
    let p = scaled / segments as u128;
    assert(p <= FULL_PROGRESS) by (nonlinear_arith)
        requires
            done <= segments,
            segments >= 1,
            scaled == done * FULL_PROGRESS,
            p == scaled as int / segments as int,
    ;
    p as u32
}

impl Tracker {
    /// A tracker for a file cut into `segments` output segments, before the
    /// transcoder has said anything.
    pub fn new(segments: usize) -> (r: Tracker)
        requires
            segments >= 1,
        ensures
            r == (Tracker { segments, progress: 0, phase: Phase::Running }),
            r.wf(),
    {
        Tracker { segments, progress: 0, phase: Phase::Running }
    }

    /// Takes in one observation and says what to report.
    pub fn observe(&mut self, o: Observation) -> (r: Report)
        requires
            old(self).wf(),
        ensures
            (*final(self), r) == next(*old(self), o),
            final(self).wf(),
    {
        if self.phase != Phase::Running {
            return Report::Nothing;
        }
        match o {
            Observation::Started => {
                if self.progress < STARTED_PROGRESS {
                    self.progress = STARTED_PROGRESS;
                }
                Report::Progress(self.progress)
            },
            Observation::SegmentOpened(n) => {
                let p = segment_progress(n, self.segments);
                if self.progress < p {
                    self.progress = p;
                }
                Report::Progress(self.progress)
            },
            Observation::Other => Report::Nothing,
            Observation::Exited(code) => {
                if code == Some(0i32) {
                    self.progress = FULL_PROGRESS;
                    self.phase = Phase::Completed;
                    Report::Completed
                } else {
                    self.phase = Phase::Failed;
                    Report::Failed(code)
                }
            },
            Observation::Closed => {
                self.phase = Phase::Failed;
                Report::Failed(None)
            },
        }
    }
}

/// The progress that a segment ordinal stands for grows with the ordinal and
/// never passes full progress.
pub proof fn lemma_ordinal_progress_monotone(a: nat, b: nat, segments: nat)
    requires
        a <= b,
        segments >= 1,
    ensures
        ordinal_progress(a, segments) <= ordinal_progress(b, segments),
        ordinal_progress(b, segments) <= FULL_PROGRESS,
{
    let da = if a < segments {
        a
    } else {
        segments
    };
    let db = if b < segments {
        b
    } else {
        segments
    };
    assert(da * FULL_PROGRESS as nat / segments <= db * FULL_PROGRESS as nat / segments)
        by (nonlinear_arith)
        requires
            da <= db,
            segments >= 1,
    ;
    assert(db * FULL_PROGRESS as nat / segments <= FULL_PROGRESS) by (nonlinear_arith)
        requires
            db <= segments,
            segments >= 1,
    ;
}

proof fn lemma_next_step(t: Tracker, o: Observation)
    requires
        t.wf(),
    ensures
        next(t, o).0.wf(),
        next(t, o).0.segments == t.segments,
        t.progress <= next(t, o).0.progress,
        next(t, o).1 matches Report::Progress(p) ==> p == next(t, o).0.progress,
{
    if let Observation::SegmentOpened(n) = o {
        lemma_ordinal_progress_monotone(n as nat, n as nat, t.segments as nat);
    }
}

/// For any run of observations, the progress reported never goes down: each
/// report is at least the tracker's progress before the run, at most full
/// progress, and no less than any report before it.
pub proof fn lemma_progress_never_decreases(t: Tracker, obs: Seq<Observation>)
    requires
        t.wf(),
    ensures
        forall|i: int|
            0 <= i < trace(t, obs).len() ==> (#[trigger] trace(t, obs)[i] matches Report::Progress(
                p,
            ) ==> t.progress <= p <= FULL_PROGRESS),
        forall|i: int, j: int|
            0 <= i < j < trace(t, obs).len() ==> (#[trigger] trace(t, obs)[i] matches Report::Progress(
                p,
            ) ==> (#[trigger] trace(t, obs)[j] matches Report::Progress(q) ==> p <= q)),
    decreases obs.len(),
{
    if obs.len() > 0 {
        let (t1, r0) = next(t, obs[0]);
        lemma_next_step(t, obs[0]);
        lemma_progress_never_decreases(t1, obs.drop_first());
        let rest = trace(t1, obs.drop_first());
        assert(trace(t, obs) == seq![r0] + rest);
        assert(t.progress <= t1.progress);
        assert forall|i: int, j: int|
            0 <= i < j < trace(t, obs).len() implies (#[trigger] trace(t, obs)[i] matches Report::Progress(
            p,
        ) ==> (#[trigger] trace(t, obs)[j] matches Report::Progress(q) ==> p <= q)) by {
            if i == 0 {
                assert(trace(t, obs)[j] == rest[j - 1]);
            } else {
                assert(trace(t, obs)[i] == rest[i - 1]);
                assert(trace(t, obs)[j] == rest[j - 1]);
            }
        }
        assert forall|i: int|
            0 <= i < trace(t, obs).len() implies (#[trigger] trace(t, obs)[i] matches Report::Progress(
            p,
        ) ==> t.progress <= p <= FULL_PROGRESS) by {
            if i > 0 {
                assert(trace(t, obs)[i] == rest[i - 1]);
            }
        }
    }
}

/// For a file whose transcoder is running, a run of observations holds
/// exactly one terminal record when the file ends done, and none when it
/// ends failed or still running; after the terminal record nothing more is
/// reported.
pub proof fn lemma_completed_exactly_once(t: Tracker, obs: Seq<Observation>)
    requires
        t.phase == Phase::Running,
    ensures
        completions(trace(t, obs)) == (if after(t, obs).phase == Phase::Completed {
            1nat
        } else {
            0nat
        }),
    decreases obs.len(),
{
    if obs.len() > 0 {
        let (t1, r0) = next(t, obs[0]);
        let rest = obs.drop_first();
        assert(trace(t, obs).drop_first() == trace(t1, rest));
        if t1.phase == Phase::Running {
            lemma_completed_exactly_once(t1, rest);
        } else {
            lemma_nothing_after_end(t1, rest);
        }
    }
}

/// Once a file is done or failed, it reports nothing and stays as it is.
pub proof fn lemma_nothing_after_end(t: Tracker, obs: Seq<Observation>)
    requires
        t.phase != Phase::Running,
    ensures
        after(t, obs) == t,
        completions(trace(t, obs)) == 0,
        forall|i: int| 0 <= i < trace(t, obs).len() ==> #[trigger] trace(t, obs)[i] == Report::Nothing,
    decreases obs.len(),
{
    if obs.len() > 0 {
        lemma_nothing_after_end(t, obs.drop_first());
        let rest = trace(t, obs.drop_first());
        assert(trace(t, obs) == seq![Report::Nothing] + rest);
        assert(trace(t, obs).drop_first() == rest);
        assert forall|i: int| 0 <= i < trace(t, obs).len() implies #[trigger] trace(t, obs)[i]
            == Report::Nothing by {
            if i > 0 {
                assert(trace(t, obs)[i] == rest[i - 1]);
            }
        }
    }
}

} // verus!
