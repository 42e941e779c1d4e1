use audio_segmenter::error::{SegmentError, SegmentationError};
use audio_segmenter::invocation::{
    display_name, duration_probe_args, file_name_of, file_stem_of, output_pattern, segment_args,
    segment_times_arg, silence_detect_args,
};

#[test]
fn names_of_an_input_path() {
    assert_eq!(file_name_of("/music/book one.mp3"), Some("book one.mp3".to_string()));
    assert_eq!(file_name_of("book.mp3"), Some("book.mp3".to_string()));
    assert_eq!(file_name_of("/music/dir/"), Some("dir".to_string()));
    assert_eq!(file_name_of("/music/.."), None);
    assert_eq!(file_name_of(""), None);
    assert_eq!(file_name_of("/"), None);
    assert_eq!(file_name_of("/music/dir/."), Some("dir".to_string()));
    assert_eq!(file_name_of("/music/dir/./"), Some("dir".to_string()));
    assert_eq!(file_name_of("."), None);
    assert_eq!(file_name_of("./"), None);
    assert_eq!(file_name_of("/."), None);
    assert_eq!(file_stem_of("book.tar.gz"), "book.tar");
    assert_eq!(file_stem_of(".hidden"), ".hidden");
    assert_eq!(file_stem_of("plain"), "plain");
    assert_eq!(file_stem_of("café.mp3"), "café");
}

#[test]
fn output_pattern_from_input_stem() {
    assert_eq!(output_pattern("/music/book.mp3", "/out"), Ok("/out/book_part_%04d.mp3".to_string()));
    assert_eq!(display_name("/music/book.mp3"), Ok("book.mp3".to_string()));
    assert_eq!(
        output_pattern("/", "/out"),
        Err(SegmentationError { path: "/".to_string(), cause: SegmentError::InvalidInputName })
    );
    assert_eq!(
        display_name(".."),
        Err(SegmentationError { path: "..".to_string(), cause: SegmentError::InvalidInputName })
    );
}

#[test]
fn cut_times_are_joined_with_commas() {
    assert_eq!(segment_times_arg(&vec![90_000_000, 180_500_000, 250_000_001]), "90,180.5,250.000001");
    assert_eq!(segment_times_arg(&vec![]), "");
}

#[test]
fn command_lines() {
    assert_eq!(
        silence_detect_args("a.mp3", 1_000_000),
        vec!["-i", "a.mp3", "-af", "silencedetect=n=-30dB:d=1", "-f", "null", "-"]
    );
    assert_eq!(
        duration_probe_args("a.mp3"),
        vec!["-v", "error", "-show_entries", "format=duration", "-of", "default=noprint_wrappers=1:nokey=1", "a.mp3"]
    );
    assert_eq!(
        segment_args("a.mp3", &vec![100_000_000, 200_000_000], "/o/a_part_%04d.mp3"),
        vec!["-i", "a.mp3", "-f", "segment", "-segment_times", "100,200", "-c", "copy", "/o/a_part_%04d.mp3"]
    );
}
