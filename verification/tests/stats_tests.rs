use eurydice::history::build_track_row;
use eurydice::stats::{split_duration, track_display_key, unplayed_of, unplayed_report};

fn lines(xs: &[&str]) -> Vec<String> {
    xs.iter().map(|s| s.to_string()).collect()
}

fn entries(xs: &[(&str, &str)]) -> Vec<(String, String)> {
    xs.iter().map(|(k, v)| (k.to_string(), v.to_string())).collect()
}

#[test]
fn playtime_splits_into_hours_minutes_seconds() {
    assert_eq!(split_duration(3723), (1, 2, 3));
    assert_eq!(split_duration(0), (0, 0, 0));
    assert_eq!(split_duration(59), (0, 0, 59));
    assert_eq!(split_duration(3600), (1, 0, 0));
    assert_eq!(split_duration(86399), (23, 59, 59));
}

#[test]
fn display_key_joins_title_and_artist() {
    assert_eq!(track_display_key("Song", "Band"), "Song - Band");
}

#[test]
fn unplayed_is_collection_minus_history() {
    let all = lines(&["a", "b", "c", "b"]);
    let played = lines(&["b"]);
    assert_eq!(unplayed_of(&all, &played), lines(&["a", "c"]));
}

#[test]
fn unplayed_report_joins_with_newlines() {
    let all = lines(&["a", "b", "c"]);
    let played = lines(&["b"]);
    assert_eq!(unplayed_report(&all, &played), "a\nc");
}

#[test]
fn unplayed_of_everything_played_is_empty() {
    let all = lines(&["a", "b"]);
    let played = lines(&["b", "a", "z"]);
    assert!(unplayed_of(&all, &played).is_empty());
    assert_eq!(unplayed_report(&all, &played), "");
}

#[test]
fn track_row_is_built_from_a_complete_block() {
    let es = entries(&[
        ("file", "band/album/song.flac"),
        ("Title", "Song"),
        ("Artist", "Band"),
        ("Album", "Album"),
        ("duration", "215.34"),
    ]);
    let row = build_track_row(&es, "/home/u/Music/").expect("a complete block");
    assert_eq!(row.title, "Song");
    assert_eq!(row.artist, "Band");
    assert_eq!(row.album, "Album");
    assert_eq!(row.duration, "215.34");
    assert_eq!(row.path, "/home/u/Music/band/album/song.flac");
}

#[test]
fn track_row_album_falls_back_to_its_sentinel() {
    let es = entries(&[
        ("file", "x.flac"),
        ("Title", "T"),
        ("Artist", "A"),
        ("duration", "1"),
    ]);
    let row = build_track_row(&es, "/m/").expect("a complete block");
    assert_eq!(row.album, "Unknown Album");
}

#[test]
fn track_row_needs_every_required_tag() {
    let missing_title = entries(&[("file", "x.flac"), ("Artist", "A"), ("duration", "1")]);
    assert!(build_track_row(&missing_title, "/m/").is_none());
    let empty: Vec<(String, String)> = Vec::new();
    assert!(build_track_row(&empty, "/m/").is_none());
}
