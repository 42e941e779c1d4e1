use std::cmp::Ordering;

use audio_segmenter::listing::{
    compare_text, is_listed_name, listing_order, name_order, replaces_destination, AudioFile,
    CopyProgress,
};

fn file(rel: &str, name: &str) -> AudioFile {
    AudioFile { name: name.to_string(), path: format!("/base/{}/{}", rel, name), relative_path: rel.to_string() }
}

#[test]
fn deep_listing_orders_by_directory_then_name() {
    let mut files = vec![file("b", "a.mp3"), file("", "z.mp3"), file("a", "y.mp3"), file("a", "x.mp3")];
    files.sort_by(listing_order);
    let order: Vec<(String, String)> = files.into_iter().map(|f| (f.relative_path, f.name)).collect();
    assert_eq!(
        order,
        vec![
            ("".to_string(), "z.mp3".to_string()),
            ("a".to_string(), "x.mp3".to_string()),
            ("a".to_string(), "y.mp3".to_string()),
            ("b".to_string(), "a.mp3".to_string()),
        ]
    );
}

#[test]
fn shallow_listing_orders_by_name() {
    assert_eq!(name_order(&file("", "B.mp3"), &file("", "a.mp3")), Ordering::Less);
    assert_eq!(name_order(&file("", "ab"), &file("", "a")), Ordering::Greater);
}

#[test]
fn text_order_matches_str_order() {
    for (a, b) in [("", ""), ("a", ""), ("é", "z"), ("abc", "abd"), ("x", "x")] {
        assert_eq!(compare_text(a, b), a.cmp(b));
    }
}

#[test]
fn folder_metadata_is_not_listed() {
    assert!(!is_listed_name(".DS_Store"));
    assert!(is_listed_name("song.mp3"));
    assert!(is_listed_name(".DS_Store2"));
}

#[test]
fn only_replace_mode_empties_the_destination() {
    assert!(replaces_destination("replace"));
    assert!(!replaces_destination("merge"));
    assert!(!replaces_destination("Replace"));
}

#[test]
fn copy_records() {
    let f = file("a", "x.mp3");
    let r = CopyProgress::for_file(&f, true, 2, 5);
    assert_eq!(r, CopyProgress { file_name: "x.mp3".to_string(), completed: true, index: 2, total: 5 });
}
