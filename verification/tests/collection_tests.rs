use eurydice::collection::{
    cover_candidates, distinct_names, has_extension, merge_assoc, occurrence_counts, parse_block,
    parse_playlists, parent_dir_of, split_blocks, top_by_count,
};

fn lines(xs: &[&str]) -> Vec<String> {
    xs.iter().map(|s| s.to_string()).collect()
}

#[test]
fn blocks_split_at_each_file_line() {
    let body = lines(&[
        "file: a/1.flac",
        "Title: One",
        "file: b/2.mp3",
        "Title: Two",
        "Artist: B",
    ]);
    let blocks = split_blocks(&body);
    assert_eq!(blocks.len(), 2);
    assert_eq!(blocks[0], lines(&["file: a/1.flac", "Title: One"]));
    assert_eq!(blocks[1], lines(&["file: b/2.mp3", "Title: Two", "Artist: B"]));
}

#[test]
fn lines_before_the_first_file_are_dropped() {
    let body = lines(&["noise", "file: a.flac", "Title: T"]);
    let blocks = split_blocks(&body);
    assert_eq!(blocks.len(), 1);
    assert_eq!(blocks[0], lines(&["file: a.flac", "Title: T"]));
}

#[test]
fn block_summary_builds_both_keys() {
    let block = lines(&[
        "file: a/1.flac",
        "Title: Song",
        "Album: Record",
        "AlbumArtist: Band",
        "Artist: Someone Else",
    ]);
    let s = parse_block(&block);
    assert_eq!(s.artist, "Band");
    assert_eq!(s.track_key, "TRACK: Band - Song");
    assert_eq!(s.album_key, "ALBUM: Band - Record");
    assert_eq!(s.file, "a/1.flac");
    assert_eq!(s.anomalies, 0);
}

#[test]
fn block_summary_falls_back_to_unknown() {
    let block = lines(&["file: x.flac"]);
    let s = parse_block(&block);
    assert_eq!(s.artist, "Unknown");
    assert_eq!(s.title, "Unknown");
    assert_eq!(s.album, "Unknown");
    assert_eq!(s.track_key, "TRACK: Unknown - Unknown");
}

#[test]
fn merge_appends_the_higher_quality_pass() {
    let mut tracks = vec![
        ("TRACK: A - One".to_string(), "a/1.mp3".to_string()),
        ("TRACK: A - Two".to_string(), "a/2.mp3".to_string()),
    ];
    let flac = vec![("TRACK: A - One".to_string(), "a/1.flac".to_string())];
    merge_assoc(&mut tracks, flac);
    assert_eq!(tracks.len(), 3);
    // reading back with last-entry-wins gives the flac path for the
    // overridden key and the old path for the other
    let last = |key: &str| {
        tracks
            .iter()
            .rev()
            .find(|(k, _)| k == key)
            .map(|(_, v)| v.clone())
    };
    assert_eq!(last("TRACK: A - One"), Some("a/1.flac".to_string()));
    assert_eq!(last("TRACK: A - Two"), Some("a/2.mp3".to_string()));
}

#[test]
fn occurrence_counts_count_each_name() {
    let names = lines(&["A", "B", "A", "C", "A", "B"]);
    let counts = occurrence_counts(&names);
    assert_eq!(
        counts,
        vec![
            ("A".to_string(), 3u64),
            ("B".to_string(), 2u64),
            ("C".to_string(), 1u64)
        ]
    );
}

#[test]
fn distinct_names_keep_first_occurrence_order() {
    let names = lines(&["B", "A", "B", "C", "A"]);
    assert_eq!(distinct_names(&names), lines(&["B", "A", "C"]));
}

#[test]
fn top_by_count_ranks_most_frequent_first() {
    let counts = vec![
        ("a".to_string(), 2u64),
        ("b".to_string(), 5u64),
        ("c".to_string(), 3u64),
    ];
    let top = top_by_count(counts, 2);
    assert_eq!(top, vec![("b".to_string(), 5u64), ("c".to_string(), 3u64)]);
}

#[test]
fn top_by_count_with_large_k_returns_everything() {
    let counts = vec![("a".to_string(), 1u64), ("b".to_string(), 2u64)];
    let top = top_by_count(counts, 10);
    assert_eq!(top, vec![("b".to_string(), 2u64), ("a".to_string(), 1u64)]);
}

#[test]
fn playlist_listing_parses_names_only() {
    let body = lines(&[
        "playlist: road-trip",
        "Last-Modified: 2024-03-01T10:00:00Z",
        "",
        "playlist: rainy-day",
    ]);
    let entries = parse_playlists(&body);
    assert_eq!(entries.len(), 2);
    assert_eq!(entries[0].key, "PLAYLIST: ROAD TRIP");
    assert_eq!(entries[0].name, "playlist: road-trip");
    assert_eq!(entries[0].load_command, "mpc load road-trip");
    assert_eq!(entries[1].load_command, "mpc load rainy-day");
}

#[test]
fn parent_dir_strips_the_file_name() {
    assert_eq!(parent_dir_of("a/b/c.flac"), "a/b");
    assert_eq!(parent_dir_of("c.flac"), "");
}

#[test]
fn cover_candidates_try_each_cover_name() {
    let c = cover_candidates("/home/u/Music", "art/alb/t.flac");
    assert_eq!(
        c,
        vec![
            "/home/u/Music/art/alb/cover.jpg".to_string(),
            "/home/u/Music/art/alb/cover.jpeg".to_string(),
            "/home/u/Music/art/alb/cover.png".to_string(),
        ]
    );
}

#[test]
fn extension_check_ignores_ascii_case() {
    let exts = lines(&["png", "jpg", "jpeg"]);
    assert!(has_extension("dir/cover.JPG", &exts));
    assert!(has_extension("c.png", &exts));
    assert!(!has_extension("dir/.hidden", &exts));
    assert!(!has_extension("noext", &exts));
    assert!(!has_extension("notes.txt", &exts));
}
