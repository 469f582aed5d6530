use eurydice::selector::{select_by_albums, select_by_duration, AlbumTrack, SelectedTrack};

fn track(artist: &str, secs: u64) -> SelectedTrack {
    SelectedTrack {
        artist: artist.to_string(),
        path: format!("{artist}/{secs}.flac"),
        length_seconds: secs,
    }
}

fn lengths(ts: &[SelectedTrack]) -> Vec<u64> {
    ts.iter().map(|t| t.length_seconds).collect()
}

#[test]
fn greedy_fill_stops_at_first_overflowing_track() {
    let pool = vec![track("A", 10), track("A", 20), track("B", 5)];
    let r = select_by_duration(&pool, Some(25), false);
    // the second track would bring the total to 30 > 25; the walk stops
    // there for good, so the 5-second track is never considered
    assert_eq!(lengths(&r), vec![10]);
}

#[test]
fn boundary_is_inclusive() {
    let pool = vec![track("A", 10), track("A", 10), track("B", 5)];
    let r = select_by_duration(&pool, Some(25), false);
    // 10 + 10 + 5 == 25 does not exceed the budget, so all three fit
    assert_eq!(lengths(&r), vec![10, 10, 5]);
}

#[test]
fn boundary_is_not_strict() {
    let pool = vec![track("A", 10), track("A", 10), track("B", 5)];
    let r = select_by_duration(&pool, Some(24), false);
    // at 24 the third track would reach 25 > 24 and is excluded
    assert_eq!(lengths(&r), vec![10, 10]);
}

#[test]
fn sum_never_exceeds_target() {
    let pool = vec![track("A", 7), track("B", 11), track("C", 13), track("D", 2)];
    for t in [0u64, 1, 6, 7, 17, 18, 30, 31, 33, 100] {
        let r = select_by_duration(&pool, Some(t), false);
        let sum: u64 = r.iter().map(|x| x.length_seconds).sum();
        assert!(sum <= t);
    }
}

#[test]
fn same_artist_keeps_only_the_first_artist() {
    let pool = vec![track("A", 10), track("B", 5), track("A", 20), track("C", 1)];
    let r = select_by_duration(&pool, Some(100), true);
    assert_eq!(lengths(&r), vec![10, 20]);
    for t in &r {
        assert_eq!(t.artist, "A");
    }
}

#[test]
fn same_artist_on_empty_pool_is_empty_not_an_error() {
    let pool: Vec<SelectedTrack> = Vec::new();
    let r = select_by_duration(&pool, Some(100), true);
    assert!(r.is_empty());
}

#[test]
fn default_target_is_one_hour() {
    let pool = vec![track("A", 3599), track("A", 1), track("A", 1)];
    let r = select_by_duration(&pool, None, false);
    // 3599 + 1 == 3600 fits the default exactly; one second more does not
    assert_eq!(lengths(&r), vec![3599, 1]);
}

#[test]
fn album_mode_expands_chosen_albums_only() {
    let catalog = vec![
        AlbumTrack {
            artist: "A".to_string(),
            path: "a/1.flac".to_string(),
            album: "First".to_string(),
            length_seconds: 100,
        },
        AlbumTrack {
            artist: "B".to_string(),
            path: "b/1.flac".to_string(),
            album: "Second".to_string(),
            length_seconds: 200,
        },
        AlbumTrack {
            artist: "A".to_string(),
            path: "a/2.flac".to_string(),
            album: "First".to_string(),
            length_seconds: 300,
        },
    ];
    let chosen = vec!["First".to_string()];
    let r = select_by_albums(&catalog, &chosen);
    let paths: Vec<&str> = r.iter().map(|t| t.path.as_str()).collect();
    assert_eq!(paths, vec!["a/1.flac", "a/2.flac"]);
}

#[test]
fn album_mode_with_no_chosen_albums_is_empty() {
    let catalog = vec![AlbumTrack {
        artist: "A".to_string(),
        path: "a/1.flac".to_string(),
        album: "First".to_string(),
        length_seconds: 100,
    }];
    let r = select_by_albums(&catalog, &Vec::new());
    assert!(r.is_empty());
}
