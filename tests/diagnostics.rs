use audio_segmenter::diagnostics::{audio_file_duration, find, silence_points};
use audio_segmenter::error::SegmentError;
use audio_segmenter::timing::{format_seconds, parse_seconds};

#[test]
fn seconds_are_read_as_microseconds() {
    assert_eq!(parse_seconds(b"12.5"), Some(12_500_000));
    assert_eq!(parse_seconds(b" 7\n"), Some(7_000_000));
    assert_eq!(parse_seconds(b".5"), Some(500_000));
    assert_eq!(parse_seconds(b"5."), Some(5_000_000));
    assert_eq!(parse_seconds(b"0.000125"), Some(125));
    assert_eq!(parse_seconds(b"1.1234567"), Some(1_123_456));
}

#[test]
fn text_that_is_no_time_is_rejected() {
    assert_eq!(parse_seconds(b"."), None);
    assert_eq!(parse_seconds(b""), None);
    assert_eq!(parse_seconds(b"N/A"), None);
    assert_eq!(parse_seconds(b"1.2.3"), None);
    assert_eq!(parse_seconds(b"-"), None);
    assert_eq!(parse_seconds(b"+-1"), None);
    assert_eq!(parse_seconds(b"-99999999999999999999"), None);
    assert_eq!(parse_seconds(b"99999999999999999999"), None);
}

#[test]
fn largest_time_fits() {
    assert_eq!(parse_seconds(b"18446744073709.551615"), Some(u64::MAX));
    assert_eq!(parse_seconds(b"18446744073709.551616"), None);
}

#[test]
fn seconds_are_written_without_needless_digits() {
    assert_eq!(format_seconds(90_000_000), "90");
    assert_eq!(format_seconds(90_500_000), "90.5");
    assert_eq!(format_seconds(125), "0.000125");
    assert_eq!(format_seconds(0), "0");
    assert_eq!(format_seconds(1_000_000), "1");
}

#[test]
fn first_place_of_a_needle() {
    assert_eq!(find(b"abcabc", b"ca"), Some(2));
    assert_eq!(find(b"abc", b"abcd"), None);
    assert_eq!(find(b"abc", b"x"), None);
}

#[test]
fn silences_are_read_from_detection_output() {
    let out = b"Input #0, mp3, from 'a.mp3':\n\
[silencedetect @ 0x600] silence_start: 80.25\n\
[silencedetect @ 0x600] silence_end: 82 | silence_duration: 1.75\r\n\
[silencedetect @ 0x600] silence_start: 90\r\n\
size=N/A time=00:05:00.00\n";
    assert_eq!(silence_points(out), Ok(vec![80_250_000, 90_000_000]));
}

#[test]
fn no_silence_gives_an_empty_list() {
    assert_eq!(silence_points(b""), Ok(vec![]));
    assert_eq!(silence_points(b"nothing here\n"), Ok(vec![]));
}

#[test]
fn malformed_silence_is_an_error() {
    let out = b"[silencedetect @ 0x600] silence_start: soon\n";
    assert_eq!(silence_points(out), Err(SegmentError::BadSilenceTime));
}

#[test]
fn duration_is_read_from_prober_output() {
    assert_eq!(audio_file_duration(b"123.456000\n"), Ok(123_456_000));
    assert_eq!(audio_file_duration(b"N/A\n"), Err(SegmentError::BadDuration));
}

#[test]
fn signed_times() {
    assert_eq!(parse_seconds(b"+1.5"), Some(1_500_000));
    assert_eq!(parse_seconds(b"-3"), Some(0));
    assert_eq!(parse_seconds(b" -0.0234 "), Some(0));
}

#[test]
fn negative_silence_start_is_the_start() {
    let out = b"[silencedetect @ 0x1] silence_start: -0.0234\n[silencedetect @ 0x1] silence_start: 120\n";
    assert_eq!(silence_points(out), Ok(vec![0, 120_000_000]));
}

#[test]
fn times_with_an_exponent() {
    assert_eq!(parse_seconds(b"1.25e1"), Some(12_500_000));
    assert_eq!(parse_seconds(b"5e-05"), Some(50));
    assert_eq!(parse_seconds(b"1E3"), Some(1_000_000_000));
    assert_eq!(parse_seconds(b"1.5e+2"), Some(150_000_000));
    assert_eq!(parse_seconds(b"1.23456789e3"), Some(1_234_567_890));
    assert_eq!(parse_seconds(b"1e-7"), Some(0));
    assert_eq!(parse_seconds(b"-5e-05"), Some(0));
    assert_eq!(parse_seconds(b"0e99999"), Some(0));
    assert_eq!(parse_seconds(b".5e1"), Some(5_000_000));
}

#[test]
fn malformed_exponents_are_rejected() {
    assert_eq!(parse_seconds(b"1e"), None);
    assert_eq!(parse_seconds(b"e5"), None);
    assert_eq!(parse_seconds(b"1e+"), None);
    assert_eq!(parse_seconds(b"1e5e1"), None);
    assert_eq!(parse_seconds(b"1e20"), None);
    assert_eq!(parse_seconds(b"1e99999999999999999999"), None);
}

#[test]
fn silence_start_with_an_exponent() {
    let out = b"[silencedetect @ 0x1] silence_start: 5e-05\n";
    assert_eq!(silence_points(out), Ok(vec![50]));
}
