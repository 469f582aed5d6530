//! Response decoding: each `key: value` body line is split at its first
//! colon and trimmed; a line with no colon is a recorded anomaly, replaced
//! by an empty placeholder so that one malformed line never aborts the
//! rest of the block. Lookup is last-value-wins: a repeated key keeps its
//! final occurrence, which later merge passes depend on.

use vstd::prelude::*;
use vstd::string::*;

use crate::text::find_char;
use crate::text::first_index_of;
use crate::text::line_views;
use crate::text::str_eq;
use crate::text::trim_str;
use crate::text::trimmed;

verus! {

/// The views of decoded `(key, value)` entries, in order.
pub open spec fn entry_views(es: Seq<(String, String)>) -> Seq<(Seq<char>, Seq<char>)> {
    es.map_values(|e: (String, String)| (e.0@, e.1@))
}

/// A line with no colon cannot be split into a key and a value.
pub open spec fn line_is_anomalous(l: Seq<char>) -> bool {
    first_index_of(l, 0, ':') == l.len()
}

/// What one body line decodes to: the text before the first colon and the
/// text after it, both trimmed; an anomalous line becomes the empty
/// placeholder entry.
pub open spec fn decode_line_spec(l: Seq<char>) -> (Seq<char>, Seq<char>) {
    if line_is_anomalous(l) {
        (Seq::empty(), Seq::empty())
    } else {
        let c = first_index_of(l, 0, ':');
        (trimmed(l.take(c)), trimmed(l.skip(c + 1)))
    }
}

/// The decoded entries of a block's lines, one per line, in order.
pub open spec fn decoded_entries(lines: Seq<Seq<char>>) -> Seq<(Seq<char>, Seq<char>)> {
    lines.map_values(|l: Seq<char>| decode_line_spec(l))
}

/// How many lines of a block are anomalous.
pub open spec fn anomaly_count(lines: Seq<Seq<char>>) -> int
    decreases lines.len(),
{
    if lines.len() == 0 {
        0
    } else {
        (if line_is_anomalous(lines[0]) {
            1int
        } else {
            0int
        }) + anomaly_count(lines.drop_first())
    }
}

/// A decoded block: one entry per body line, in line order, and the
/// number of lines that could not be split.
pub struct DecodedBlock {
    pub entries: Vec<(String, String)>,
    pub anomalies: usize,
}

fn decode_line(line: &str) -> (r: ((String, String), bool))
    ensures
        (r.0.0@, r.0.1@) == decode_line_spec(line@),
        r.1 == line_is_anomalous(line@),
{
    let n = line.unicode_len();
    let c = find_char(line, 0, ':');
    if c == n {
        return ((String::new(), String::new()), true);
    }
    let key = trim_str(line.substring_char(0, c));
    let value = trim_str(line.substring_char(c + 1, n));
    proof {
        assert(line@.subrange(0, c as int) =~= line@.take(c as int));
        assert(line@.subrange(c + 1, n as int) =~= line@.skip(c + 1));
    }
    ((key, value), false)
}

proof fn lemma_anomaly_snoc(lines: Seq<Seq<char>>, l: Seq<char>)
    ensures
        anomaly_count(lines.push(l)) == anomaly_count(lines) + (if line_is_anomalous(l) {
            1int
        } else {
            0int
        }),
    decreases lines.len(),
{
    if lines.len() == 0 {
        assert(lines.push(l)[0] == l);
        assert(lines.push(l).drop_first() =~= lines);
    } else {
        assert(lines.push(l)[0] == lines[0]);
        assert(lines.push(l).drop_first() =~= lines.drop_first().push(l));
        lemma_anomaly_snoc(lines.drop_first(), l);
    }
}

/// Decodes a whole response body. Decoding is total: every line yields
/// exactly one entry, anomalous lines yield the placeholder and are
/// counted, and no line can make the block fail.
pub fn decode_block(lines: &Vec<String>) -> (r: DecodedBlock)
    ensures
        r.entries@.len() == lines@.len(),
        entry_views(r.entries@) == decoded_entries(line_views(lines@)),
        forall|i: int|
            0 <= i < lines@.len() ==> entry_views(r.entries@)[i] == decode_line_spec(
                line_views(lines@)[i],
            ),
        r.anomalies == anomaly_count(line_views(lines@)),
{
    let ghost lv = line_views(lines@);
    let mut entries: Vec<(String, String)> = Vec::new();
    let mut anomalies: usize = 0;
    let mut i: usize = 0;
    while i < lines.len()
        invariant
            i <= lines.len(),
            lv == line_views(lines@),
            entries@.len() == i,
            forall|j: int| 0 <= j < i ==> entry_views(entries@)[j] == decode_line_spec(lv[j]),
            anomalies == anomaly_count(lv.take(i as int)),
            anomalies <= i,
        decreases lines.len() - i,
    {
        let ghost prev = entries@;
        let (entry, anomalous) = decode_line(lines[i].as_str());
        entries.push(entry);
        if anomalous {
            anomalies += 1;
        }
        proof {
            lemma_anomaly_snoc(lv.take(i as int), lv[i as int]);
            assert(lv.take(i + 1) =~= lv.take(i as int).push(lv[i as int]));
            assert forall|j: int| 0 <= j < i + 1 implies entry_views(entries@)[j]
                == decode_line_spec(lv[j]) by {
                if j < i {
                    assert(entries@[j] == prev[j]);
                    assert(entry_views(prev)[j] == decode_line_spec(lv[j]));
                } else {
                    assert(entries@[j] == entry);
                }
            }
        }
        i += 1;
    }
    proof {
        assert(lv.take(lv.len() as int) =~= lv);
        assert(entry_views(entries@) =~= decoded_entries(lv));
    }
    DecodedBlock { entries, anomalies }
}

/// Last-value-wins lookup: the value of the final entry carrying `key`,
/// if any entry does.
pub open spec fn last_value(es: Seq<(Seq<char>, Seq<char>)>, key: Seq<char>) -> Option<Seq<char>>
    decreases es.len(),
{
    if es.len() == 0 {
        None
    } else if es.last().0 == key {
        Some(es.last().1)
    } else {
        last_value(es.drop_last(), key)
    }
}

/// Looks `key` up in decoded entries; when the key repeats, the last
/// occurrence wins.
pub fn get_last(entries: &Vec<(String, String)>, key: &str) -> (r: Option<String>)
    ensures
        (match r {
            Some(v) => last_value(entry_views(entries@), key@) == Some(v@),
            None => last_value(entry_views(entries@), key@) is None,
        }),
{
    let ghost ev = entry_views(entries@);
    let mut i: usize = entries.len();
    proof {
        assert(ev.take(entries@.len() as int) =~= ev);
    }
    while i > 0
        invariant
            i <= entries.len(),
            ev == entry_views(entries@),
            last_value(ev, key@) == last_value(ev.take(i as int), key@),
        decreases i,
    {
        i -= 1;
        if str_eq(entries[i].0.as_str(), key) {
            proof {
                assert(ev.take(i + 1).last() == ev[i as int]);
            }
            return Some(entries[i].1.clone());
        }
        proof {
            assert(ev.take(i + 1).last() == ev[i as int]);
            assert(ev.take(i + 1).drop_last() =~= ev.take(i as int));
        }
    }
    proof {
        assert(ev.take(0) =~= Seq::<(Seq<char>, Seq<char>)>::empty());
    }
    None
}

/// The artist a decoded record resolves to: the album-artist tag when
/// present, else the artist tag, else the sentinel for an untagged file.
/// Either tag may be absent depending on the source file's metadata, so
/// the chain is part of the record's meaning, not a convenience.
pub open spec fn artist_fallback(es: Seq<(Seq<char>, Seq<char>)>) -> Seq<char> {
    match last_value(es, "AlbumArtist"@) {
        Some(a) => a,
        None => match last_value(es, "Artist"@) {
            Some(a) => a,
            None => "Unknown"@,
        },
    }
}

/// Resolves the artist of a decoded record through the fallback chain.
pub fn resolve_artist(entries: &Vec<(String, String)>) -> (r: String)
    ensures
        r@ == artist_fallback(entry_views(entries@)),
{
    match get_last(entries, "AlbumArtist") {
        Some(a) => a,
        None => match get_last(entries, "Artist") {
            Some(a) => a,
            None => String::from_str("Unknown"),
        },
    }
}

} // verus!
