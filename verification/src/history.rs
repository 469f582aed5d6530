//! Preparing a decoded current-song block for the history store: the
//! upsert row is built only from a block that carries every required tag,
//! so a malformed or empty block (an empty queue answers with no body)
//! skips the write instead of crashing the daemon.

use vstd::prelude::*;
use vstd::string::*;

use crate::decoder::entry_views;
use crate::decoder::get_last;
use crate::decoder::last_value;

verus! {

/// One row of the history store's track table, as the upsert wants it:
/// the identity triple, the reported duration, and the absolute path
/// under the music directory.
pub struct TrackRow {
    pub title: String,
    pub artist: String,
    pub album: String,
    pub duration: String,
    pub path: String,
}

/// The tags a block must carry before a history write can happen.
pub open spec fn row_buildable(es: Seq<(Seq<char>, Seq<char>)>) -> bool {
    &&& last_value(es, "Title"@) is Some
    &&& last_value(es, "Artist"@) is Some
    &&& last_value(es, "file"@) is Some
    &&& last_value(es, "duration"@) is Some
}

/// The album written for a block without an album tag.
pub open spec fn album_fallback(es: Seq<(Seq<char>, Seq<char>)>) -> Seq<char> {
    match last_value(es, "Album"@) {
        Some(al) => al,
        None => "Unknown Album"@,
    }
}

/// Builds the history row for a decoded current-song block: the row
/// exists exactly when title, artist, file and duration are all present;
/// a missing album falls back to its sentinel; and the stored path is the
/// music directory prefix followed by the reported file path.
pub fn build_track_row(entries: &Vec<(String, String)>, music_dir: &str) -> (r: Option<TrackRow>)
    ensures
        r is Some <==> row_buildable(entry_views(entries@)),
        (r matches Some(row) ==> {
            let es = entry_views(entries@);
            &&& last_value(es, "Title"@) == Some(row.title@)
            &&& last_value(es, "Artist"@) == Some(row.artist@)
            &&& last_value(es, "duration"@) == Some(row.duration@)
            &&& row.album@ == album_fallback(es)
            &&& (last_value(es, "file"@) matches Some(f) && row.path@ == music_dir@ + f)
        }),
{
    let title = match get_last(entries, "Title") {
        Some(t) => t,
        None => {
            return None;
        },
    };
    let artist = match get_last(entries, "Artist") {
        Some(a) => a,
        None => {
            return None;
        },
    };
    let file = match get_last(entries, "file") {
        Some(f) => f,
        None => {
            return None;
        },
    };
    let duration = match get_last(entries, "duration") {
        Some(d) => d,
        None => {
            return None;
        },
    };
    let album = match get_last(entries, "Album") {
        Some(al) => al,
        None => String::from_str("Unknown Album"),
    };
    let mut path = music_dir.to_owned();
    path.append(file.as_str());
    Some(TrackRow { title, artist, album, duration, path })
}

} // verus!
