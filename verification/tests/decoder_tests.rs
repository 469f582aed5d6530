use eurydice::decoder::{decode_block, get_last, resolve_artist};

fn lines(xs: &[&str]) -> Vec<String> {
    xs.iter().map(|s| s.to_string()).collect()
}

fn entries(xs: &[(&str, &str)]) -> Vec<(String, String)> {
    xs.iter().map(|(k, v)| (k.to_string(), v.to_string())).collect()
}

#[test]
fn bad_line_does_not_abort_the_block() {
    let block = lines(&["Title: Foo", "BadLine", "Artist: Bar"]);
    let d = decode_block(&block);
    assert_eq!(d.entries.len(), 3);
    assert_eq!(d.anomalies, 1);
    assert_eq!(get_last(&d.entries, "Title"), Some("Foo".to_string()));
    assert_eq!(get_last(&d.entries, "Artist"), Some("Bar".to_string()));
    // the malformed line is kept as the empty placeholder entry
    assert_eq!(d.entries[1], ("".to_string(), "".to_string()));
}

#[test]
fn keys_and_values_are_trimmed() {
    let block = lines(&["  Album :  Hello World  "]);
    let d = decode_block(&block);
    assert_eq!(d.anomalies, 0);
    assert_eq!(get_last(&d.entries, "Album"), Some("Hello World".to_string()));
}

#[test]
fn value_keeps_its_later_colons() {
    let block = lines(&["Title: a: b: c"]);
    let d = decode_block(&block);
    assert_eq!(get_last(&d.entries, "Title"), Some("a: b: c".to_string()));
}

#[test]
fn repeated_key_keeps_the_last_value() {
    let block = lines(&["file: low_quality.mp3", "file: high_quality.flac"]);
    let d = decode_block(&block);
    assert_eq!(
        get_last(&d.entries, "file"),
        Some("high_quality.flac".to_string())
    );
}

#[test]
fn lookup_of_an_absent_key_is_none() {
    let d = decode_block(&lines(&["Title: Foo"]));
    assert_eq!(get_last(&d.entries, "Album"), None);
}

#[test]
fn artist_prefers_album_artist() {
    let es = entries(&[("Artist", "X"), ("AlbumArtist", "Y")]);
    assert_eq!(resolve_artist(&es), "Y");
}

#[test]
fn artist_falls_back_to_artist_tag() {
    let es = entries(&[("Title", "T"), ("Artist", "X")]);
    assert_eq!(resolve_artist(&es), "X");
}

#[test]
fn artist_falls_back_to_unknown() {
    let es = entries(&[("Title", "T")]);
    assert_eq!(resolve_artist(&es), "Unknown");
}

#[test]
fn empty_key_and_empty_value_lines_decode() {
    let d = decode_block(&lines(&[": just a value", "key:"]));
    assert_eq!(d.anomalies, 0);
    assert_eq!(get_last(&d.entries, ""), Some("just a value".to_string()));
    assert_eq!(get_last(&d.entries, "key"), Some("".to_string()));
}

#[test]
fn empty_block_decodes_to_nothing() {
    let d = decode_block(&Vec::new());
    assert!(d.entries.is_empty());
    assert_eq!(d.anomalies, 0);
    assert_eq!(get_last(&d.entries, "Title"), None);
}
