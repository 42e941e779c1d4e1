use audio_segmenter::driver::{segment_seconds, split_points, RunAction, RunEvent, SegmentProgress, SegmentRun};
use audio_segmenter::error::{SegmentError, SegmentationError};
use audio_segmenter::progress::{
    classify_line, read_line, segment_progress, Observation, Phase, Report, Tracker, FULL_PROGRESS,
};

fn line(s: &str) -> RunEvent {
    RunEvent::Stderr(s.as_bytes().to_vec())
}

fn failure(cause: SegmentError) -> SegmentationError {
    SegmentationError { path: "/music/book.mp3".to_string(), cause }
}

fn record(progress: u32, completed: bool) -> SegmentProgress {
    SegmentProgress { file_name: "book.mp3".to_string(), progress, completed, index: 1, total: 4 }
}

#[test]
fn segment_opened_line_is_read_through_the_pattern() {
    let l = b"[segment @ 0x14ae05cb0] Opening 'the-lacuna-smol/long-way_part_0002.mp3' for writing";
    assert_eq!(read_line(l), Observation::SegmentOpened(2));
    let l = b"[segment @ 0x14ae05cb0] opening 'x_part_0004.mp3' for writing";
    assert_eq!(read_line(l), Observation::Other);
    assert_eq!(read_line(b"Input #0, mp3, from 'book.mp3':"), Observation::Started);
    assert_eq!(read_line(b"Opening 'out_part_0001.wav' for writing"), Observation::Other);
}

#[test]
fn classification_takes_the_captured_group() {
    assert_eq!(classify_line(b"anything", &Some(b"0017".to_vec())), Observation::SegmentOpened(17));
    assert_eq!(classify_line(b"anything", &Some(b"1x".to_vec())), Observation::Other);
    assert_eq!(classify_line(b"anything", &None), Observation::Other);
    assert_eq!(classify_line(b"Input #0", &Some(b"3".to_vec())), Observation::Started);
    assert_eq!(
        classify_line(b"x", &Some(b"99999999999999999999999".to_vec())),
        Observation::Other
    );
}

#[test]
fn progress_of_a_segment_ordinal() {
    assert_eq!(segment_progress(1, 3), 3333);
    assert_eq!(segment_progress(2, 3), 6666);
    assert_eq!(segment_progress(3, 3), FULL_PROGRESS);
    assert_eq!(segment_progress(7, 3), FULL_PROGRESS);
    assert_eq!(segment_progress(0, 1), 0);
    assert_eq!(segment_progress(usize::MAX, usize::MAX), FULL_PROGRESS);
}

#[test]
fn three_way_split_reports_thirds_then_completion() {
    let (mut run, first) = SegmentRun::start("/music/book.mp3".to_string(), "book.mp3".to_string(), 1, 4, 2);
    assert_eq!(first, record(0, false));
    let events = [
        line("Input #0, mp3, from 'book.mp3':"),
        line("  Duration: 00:05:00.00"),
        line("[segment @ 0x1] Opening 'out/book_part_0000.mp3' for writing"),
        line("[segment @ 0x1] Opening 'out/book_part_0001.mp3' for writing"),
        line("[segment @ 0x1] Opening 'out/book_part_0002.mp3' for writing"),
        RunEvent::Terminated(Some(0)),
    ];
    let actions: Vec<RunAction> = events.iter().map(|e| run.on_event(e)).collect();
    assert_eq!(
        actions,
        vec![
            RunAction::Emit(record(100, false)),
            RunAction::Wait,
            RunAction::Emit(record(100, false)),
            RunAction::Emit(record(3333, false)),
            RunAction::Emit(record(6666, false)),
            RunAction::Finish(record(10_000, true)),
        ]
    );
    assert_eq!(run.tracker.phase, Phase::Completed);
}

#[test]
fn completion_is_reported_once() {
    let (mut run, _) = SegmentRun::start("/music/book.mp3".to_string(), "book.mp3".to_string(), 1, 4, 0);
    assert_eq!(run.on_event(&RunEvent::Terminated(Some(0))), RunAction::Finish(record(10_000, true)));
    assert_eq!(run.on_event(&RunEvent::Terminated(Some(0))), RunAction::Wait);
    assert_eq!(run.on_event(&RunEvent::Closed), RunAction::Wait);
    assert_eq!(run.on_event(&line("Input #0")), RunAction::Wait);
}

#[test]
fn failed_exit_gives_no_completion() {
    let (mut run, _) = SegmentRun::start("/music/book.mp3".to_string(), "book.mp3".to_string(), 1, 4, 3);
    assert_eq!(run.on_event(&RunEvent::Terminated(Some(1))), RunAction::Fail(failure(SegmentError::ProcessFailed(Some(1)))));
    assert_eq!(run.on_event(&RunEvent::Terminated(Some(0))), RunAction::Wait);
    assert_eq!(run.tracker.phase, Phase::Failed);

    let (mut run, _) = SegmentRun::start("/music/book.mp3".to_string(), "book.mp3".to_string(), 1, 4, 3);
    assert_eq!(run.on_event(&RunEvent::Terminated(None)), RunAction::Fail(failure(SegmentError::ProcessFailed(None))));

    let (mut run, _) = SegmentRun::start("/music/book.mp3".to_string(), "book.mp3".to_string(), 1, 4, 3);
    assert_eq!(run.on_event(&RunEvent::Closed), RunAction::Fail(failure(SegmentError::ProcessFailed(None))));
}

#[test]
fn progress_never_goes_down() {
    let mut t = Tracker::new(4);
    let obs = [
        Observation::SegmentOpened(2),
        Observation::Started,
        Observation::SegmentOpened(1),
        Observation::Other,
        Observation::SegmentOpened(3),
        Observation::SegmentOpened(9),
    ];
    let mut seen = Vec::new();
    for o in obs {
        if let Report::Progress(p) = t.observe(o) {
            seen.push(p);
        }
    }
    assert_eq!(seen, vec![5000, 5000, 5000, 7500, 10_000]);
}

#[test]
fn increasing_ordinals_give_increasing_progress() {
    let mut t = Tracker::new(5);
    let mut seen = Vec::new();
    for n in 1..=5 {
        if let Report::Progress(p) = t.observe(Observation::SegmentOpened(n)) {
            seen.push(p);
        }
    }
    assert_eq!(seen, vec![2000, 4000, 6000, 8000, 10_000]);
    assert_eq!(t.observe(Observation::Exited(Some(0))), Report::Completed);
}

#[test]
fn planning_picks_the_mode() {
    let p = "/music/book.mp3";
    let err = |cause| Err(SegmentationError { path: p.to_string(), cause });
    assert_eq!(split_points(p, b"250\n", Some(0), 100, false), Ok(vec![100_000_000, 200_000_000]));
    assert_eq!(split_points(p, b"oops", Some(0), 100, false), err(SegmentError::BadDuration));
    let detect = b"silence_start: 120\nsilence_start: 350\n";
    assert_eq!(
        split_points(p, detect, Some(0), 100, true),
        Ok(vec![100_000_000, 120_000_000, 220_000_000, 320_000_000])
    );
    assert_eq!(split_points(p, b"silence_start: x\n", Some(0), 100, true), err(SegmentError::BadSilenceTime));
}

#[test]
fn failed_planning_run_fails_the_file() {
    let p = "/music/book.mp3";
    assert_eq!(
        split_points(p, b"250\n", Some(1), 100, false),
        Err(SegmentationError { path: p.to_string(), cause: SegmentError::PlanningFailed(Some(1)) })
    );
    assert_eq!(
        split_points(p, b"", None, 100, true),
        Err(SegmentationError { path: p.to_string(), cause: SegmentError::PlanningFailed(None) })
    );
}

#[test]
fn segment_length_from_minutes() {
    assert_eq!(segment_seconds(5), Ok(300));
    assert_eq!(segment_seconds(0), Err(SegmentError::InvalidSegmentLength));
    assert_eq!(segment_seconds(35_791_394), Ok(2_147_483_640));
    assert_eq!(segment_seconds(35_791_395), Err(SegmentError::InvalidSegmentLength));
}
