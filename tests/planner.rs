use audio_segmenter::planner::{fixed_split_points, split_at_silences};

fn micros(secs: &[f64]) -> Vec<u64> {
    secs.iter().map(|s| (s * 1_000_000.0).round() as u64).collect()
}

#[test]
fn test_split_at_silences_splits_early_if_necessary() {
    //                          |            |            |
    let silences = micros(&[80.0, 90.0, 110.0, 180.0, 200.0, 250.0, 310.0]);
    let segment_time = 100;
    let split_points = split_at_silences(silences, segment_time);
    assert_eq!(split_points, micros(&[90.0, 180.0, 250.0]));
}

#[test]
fn test_split_at_silences_splits_at_segment_time_if_no_silence_for_long_enough() {
    let silences = micros(&[120.0, 350.0]);
    let segment_time = 100;
    let split_points = split_at_silences(silences, segment_time);
    assert_eq!(split_points, micros(&[100.0, 120.0, 220.0, 320.0]));
}

#[test]
fn fixed_interval_cuts_every_segment_below_duration() {
    assert_eq!(fixed_split_points(250_000_000, 100), micros(&[100.0, 200.0]));
}

#[test]
fn fixed_interval_short_file_has_no_cut() {
    assert_eq!(fixed_split_points(50_000_000, 100), Vec::<u64>::new());
    assert_eq!(fixed_split_points(0, 100), Vec::<u64>::new());
}

#[test]
fn fixed_interval_duration_on_a_multiple_is_not_cut_there() {
    assert_eq!(fixed_split_points(200_000_000, 100), micros(&[100.0]));
    assert_eq!(fixed_split_points(200_000_001, 100), micros(&[100.0, 200.0]));
}

#[test]
fn fixed_interval_cuts_are_the_multiples_below_duration() {
    let d: u64 = 1_234_567_890;
    let cuts = fixed_split_points(d, 7);
    let seg = 7_000_000u64;
    let expected: Vec<u64> = (1..).map(|k| k * seg).take_while(|&c| c < d).collect();
    assert_eq!(cuts, expected);
}

#[test]
fn fixed_interval_near_the_largest_duration() {
    let cuts = fixed_split_points(u64::MAX, i32::MAX);
    let seg = i32::MAX as u64 * 1_000_000;
    assert_eq!(cuts.len() as u64, (u64::MAX - 1) / seg);
    assert_eq!(*cuts.last().unwrap(), cuts.len() as u64 * seg);
}

#[test]
fn silence_cuts_leave_no_segment_longer_than_the_length() {
    let silences = micros(&[10.0, 35.5, 36.0, 140.0, 141.0, 400.0, 405.25, 999.0]);
    let cuts = split_at_silences(silences.clone(), 60);
    let mut last = 0u64;
    for &c in &cuts {
        assert!(c > last);
        assert!(c - last <= 60_000_000);
        last = c;
    }
    assert!(last < *silences.last().unwrap());
}

#[test]
fn silence_cuts_step_bound() {
    let silences = micros(&[5.0, 500.0, 501.0, 1200.0]);
    let cuts = split_at_silences(silences.clone(), 100);
    assert!(silences.len() + cuts.len() <= 2 * silences.len() + 1200 / 100);
    assert_eq!(cuts, micros(&[5.0, 105.0, 205.0, 305.0, 405.0, 501.0, 601.0, 701.0, 801.0, 901.0, 1001.0, 1101.0]));
}

#[test]
fn silence_cuts_empty_and_close_silences() {
    assert_eq!(split_at_silences(Vec::new(), 100), Vec::<u64>::new());
    assert_eq!(split_at_silences(micros(&[30.0, 60.0, 90.0]), 100), Vec::<u64>::new());
}

#[test]
fn silence_cuts_keep_microseconds() {
    let cuts = split_at_silences(vec![40_000_001, 150_000_000], 100);
    assert_eq!(cuts, vec![40_000_001, 140_000_001]);
}

#[test]
fn silence_at_the_start_is_no_cut() {
    assert_eq!(split_at_silences(micros(&[0.0, 150.0]), 100), micros(&[100.0]));
    assert_eq!(split_at_silences(micros(&[0.0, 0.0, 250.0]), 100), micros(&[100.0, 200.0]));
}

#[test]
fn forced_cuts_between_distant_silences_are_a_segment_apart() {
    let cuts = split_at_silences(micros(&[30.0, 400.0]), 100);
    assert_eq!(cuts, micros(&[30.0, 130.0, 230.0, 330.0]));
}
