//! Collection indexing built on decoded responses: re-segmenting a find
//! result into one block per file, summarizing each block into its keys
//! and resolved tags, and the last-value-wins merge that lets a
//! higher-quality format pass override a lower-quality one.

use vstd::prelude::*;
use vstd::string::*;

use crate::decoder::anomaly_count;
use crate::decoder::artist_fallback;
use crate::decoder::decode_block;
use crate::decoder::decoded_entries;
use crate::decoder::get_last;
use crate::decoder::last_value;
use crate::decoder::resolve_artist;
use crate::text::line_views;

verus! {

/// A line that begins a new per-file block in a find result.
pub open spec fn starts_file(l: Seq<char>) -> bool {
    l.len() >= 5 && l.take(5) == "file:"@
}

fn starts_file_line(line: &str) -> (r: bool)
    ensures
        r == starts_file(line@),
{
    proof {
        reveal_strlit("file:");
    }
    let n = line.unicode_len();
    if n < 5 {
        return false;
    }
    let r = line.get_char(0) == 'f' && line.get_char(1) == 'i' && line.get_char(2) == 'l'
        && line.get_char(3) == 'e' && line.get_char(4) == ':';
    proof {
        let t = line@.take(5);
        assert(t[0] == line@[0] && t[1] == line@[1] && t[2] == line@[2] && t[3] == line@[3] && t[4]
            == line@[4]);
        if r {
            assert(t =~= "file:"@);
        } else {
            assert(t != "file:"@);
        }
    }
    r
}

/// Length of the leading run of lines that precede the first block.
pub open spec fn leading_junk(lines: Seq<Seq<char>>) -> int
    decreases lines.len(),
{
    if lines.len() == 0 {
        0
    } else if starts_file(lines[0]) {
        0
    } else {
        1 + leading_junk(lines.drop_first())
    }
}

proof fn lemma_leading_junk_props(lines: Seq<Seq<char>>)
    ensures
        0 <= leading_junk(lines) <= lines.len(),
        forall|j: int| 0 <= j < leading_junk(lines) ==> !starts_file(lines[j]),
        leading_junk(lines) < lines.len() ==> starts_file(lines[leading_junk(lines)]),
    decreases lines.len(),
{
    if lines.len() == 0 {
    } else if starts_file(lines[0]) {
    } else {
        lemma_leading_junk_props(lines.drop_first());
        assert forall|j: int| 0 <= j < leading_junk(lines) implies !starts_file(lines[j]) by {
            if j > 0 {
                assert(lines.drop_first()[j - 1] == lines[j]);
            }
        }
        if leading_junk(lines) < lines.len() {
            assert(lines.drop_first()[leading_junk(lines) - 1] == lines[leading_junk(lines)]);
        }
    }
}

/// Concatenation of a run of blocks back into their lines.
pub open spec fn flat_blocks(bs: Seq<Seq<Seq<char>>>) -> Seq<Seq<char>>
    decreases bs.len(),
{
    if bs.len() == 0 {
        Seq::empty()
    } else {
        bs[0] + flat_blocks(bs.drop_first())
    }
}

proof fn lemma_flat_snoc(bs: Seq<Seq<Seq<char>>>, b: Seq<Seq<char>>)
    ensures
        flat_blocks(bs.push(b)) == flat_blocks(bs) + b,
    decreases bs.len(),
{
    if bs.len() == 0 {
        assert(bs.push(b)[0] == b);
        assert(bs.push(b).drop_first() =~= bs);
        assert(flat_blocks(bs.push(b)) =~= flat_blocks(bs) + b);
    } else {
        assert(bs.push(b)[0] == bs[0]);
        assert(bs.push(b).drop_first() =~= bs.drop_first().push(b));
        lemma_flat_snoc(bs.drop_first(), b);
        assert(bs[0] + (flat_blocks(bs.drop_first()) + b) =~= (bs[0] + flat_blocks(
            bs.drop_first(),
        )) + b);
        assert(flat_blocks(bs.push(b)) =~= flat_blocks(bs) + b);
    }
}

/// The views of a vector of blocks.
pub open spec fn block_views(bs: Seq<Vec<String>>) -> Seq<Seq<Seq<char>>> {
    bs.map_values(|b: Vec<String>| line_views(b@))
}

/// A well-formed block: non-empty, opened by a file line, with no
/// further file line inside.
pub open spec fn block_shaped(b: Seq<Seq<char>>) -> bool {
    &&& b.len() > 0
    &&& starts_file(b[0])
    &&& forall|j: int| 1 <= j < b.len() ==> !starts_file(b[j])
}

/// Re-segments a find result into one block per file: a block starts at
/// each file line and runs to the next one; lines before the first file
/// line belong to no file and are dropped. The blocks carry every
/// remaining line, in order.
pub fn split_blocks(lines: &Vec<String>) -> (r: Vec<Vec<String>>)
    ensures
        flat_blocks(block_views(r@)) == line_views(lines@).skip(leading_junk(line_views(lines@))),
        forall|b: int| 0 <= b < r@.len() ==> block_shaped(block_views(r@)[b]),
{
    let ghost lv = line_views(lines@);
    proof {
        lemma_leading_junk_props(lv);
    }
    let ghost junk = leading_junk(lv);
    let mut out: Vec<Vec<String>> = Vec::new();
    let mut cur: Vec<String> = Vec::new();
    let mut started = false;
    let mut i: usize = 0;
    while i < lines.len()
        invariant
            i <= lines.len(),
            lv == line_views(lines@),
            junk == leading_junk(lv),
            0 <= junk <= lv.len(),
            forall|j: int| 0 <= j < junk ==> !starts_file(lv[j]),
            junk < lv.len() ==> starts_file(lv[junk]),
            !started ==> (i <= junk && out@.len() == 0 && cur@.len() == 0),
            started ==> (junk < i && flat_blocks(block_views(out@)) + line_views(cur@)
                == lv.subrange(junk, i as int)),
            started ==> block_shaped(line_views(cur@)),
            forall|b: int| 0 <= b < out@.len() ==> block_shaped(block_views(out@)[b]),
        decreases lines.len() - i,
    {
        let is_file = starts_file_line(lines[i].as_str());
        let ghost prev_out = block_views(out@);
        let ghost prev_cur = line_views(cur@);
        if is_file {
            if started {
                let finished = cur;
                cur = Vec::new();
                out.push(finished);
                proof {
                    lemma_flat_snoc(prev_out, prev_cur);
                    assert(block_views(out@) =~= prev_out.push(prev_cur));
                    assert forall|b: int| 0 <= b < out@.len() implies block_shaped(
                        block_views(out@)[b],
                    ) by {
                        if b < prev_out.len() {
                            assert(block_views(out@)[b] == prev_out[b]);
                        }
                    }
                }
            } else {
                proof {
                    if i < junk {
                        assert(!starts_file(lv[i as int]));
                        assert(false);
                    }
                    assert(i == junk);
                }
            }
            cur.push(lines[i].clone());
            started = true;
            proof {
                assert(line_views(cur@) =~= seq![lv[i as int]]);
                assert(flat_blocks(block_views(out@)) + line_views(cur@) =~= lv.subrange(
                    junk,
                    i + 1,
                ));
            }
        } else {
            if started {
                cur.push(lines[i].clone());
                proof {
                    assert(line_views(cur@) =~= prev_cur.push(lv[i as int]));
                    assert(flat_blocks(block_views(out@)) + line_views(cur@) =~= lv.subrange(
                        junk,
                        i + 1,
                    ));
                    assert forall|j: int| 1 <= j < line_views(cur@).len() implies !starts_file(
                        line_views(cur@)[j],
                    ) by {
                        if j < prev_cur.len() {
                            assert(line_views(cur@)[j] == prev_cur[j]);
                        }
                    }
                }
            } else {
                proof {
                    if i == junk {
                        assert(starts_file(lv[junk]));
                        assert(false);
                    }
                    assert(i + 1 <= junk);
                }
            }
        }
        i += 1;
    }
    if started {
        let ghost prev_out = block_views(out@);
        let ghost prev_cur = line_views(cur@);
        out.push(cur);
        proof {
            lemma_flat_snoc(prev_out, prev_cur);
            assert(block_views(out@) =~= prev_out.push(prev_cur));
            assert forall|b: int| 0 <= b < out@.len() implies block_shaped(
                block_views(out@)[b],
            ) by {
                if b < prev_out.len() {
                    assert(block_views(out@)[b] == prev_out[b]);
                }
            }
            assert(lv.subrange(junk, lv.len() as int) =~= lv.skip(junk));
        }
    } else {
        proof {
            assert(i == lines@.len());
            assert(junk == lv.len());
            assert(lv.skip(junk) =~= Seq::<Seq<char>>::empty());
            assert(flat_blocks(block_views(out@)) =~= Seq::<Seq<char>>::empty());
        }
    }
    out
}

/// The title a block resolves to when its tag is absent.
pub open spec fn tag_or_unknown(es: Seq<(Seq<char>, Seq<char>)>, key: Seq<char>) -> Seq<char> {
    match last_value(es, key) {
        Some(v) => v,
        None => "Unknown"@,
    }
}

/// One per-file block summarized for the index: the resolved tags, the
/// display keys the maps are keyed by, and how many of its lines could
/// not be decoded.
pub struct BlockSummary {
    pub track_key: String,
    pub album_key: String,
    pub artist: String,
    pub title: String,
    pub album: String,
    pub file: String,
    pub anomalies: usize,
}

fn tag_or_unknown_exec(entries: &Vec<(String, String)>, key: &str) -> (r: String)
    ensures
        r@ == tag_or_unknown(crate::decoder::entry_views(entries@), key@),
{
    match get_last(entries, key) {
        Some(v) => v,
        None => String::from_str("Unknown"),
    }
}

/// Summarizes one per-file block: the artist resolves through the
/// album-artist fallback chain, absent tags fall back to the sentinel,
/// and the track and album keys are built from artist and title or album.
pub fn parse_block(lines: &Vec<String>) -> (r: BlockSummary)
    ensures
        ({
            let es = decoded_entries(line_views(lines@));
            &&& r.artist@ == artist_fallback(es)
            &&& r.title@ == tag_or_unknown(es, "Title"@)
            &&& r.album@ == tag_or_unknown(es, "Album"@)
            &&& r.file@ == tag_or_unknown(es, "file"@)
            &&& r.track_key@ == "TRACK: "@ + artist_fallback(es) + " - "@ + tag_or_unknown(
                es,
                "Title"@,
            )
            &&& r.album_key@ == "ALBUM: "@ + artist_fallback(es) + " - "@ + tag_or_unknown(
                es,
                "Album"@,
            )
            &&& r.anomalies == anomaly_count(line_views(lines@))
        }),
{
    let decoded = decode_block(lines);
    let artist = resolve_artist(&decoded.entries);
    let title = tag_or_unknown_exec(&decoded.entries, "Title");
    let album = tag_or_unknown_exec(&decoded.entries, "Album");
    let file = tag_or_unknown_exec(&decoded.entries, "file");
    let mut track_key = String::from_str("TRACK: ");
    track_key.append(artist.as_str());
    track_key.append(" - ");
    track_key.append(title.as_str());
    let mut album_key = String::from_str("ALBUM: ");
    album_key.append(artist.as_str());
    album_key.append(" - ");
    album_key.append(album.as_str());
    BlockSummary {
        track_key,
        album_key,
        artist,
        title,
        album,
        file,
        anomalies: decoded.anomalies,
    }
}

/// Last-entry-wins lookup in an association list of index items.
pub open spec fn last_entry<T>(es: Seq<(Seq<char>, T)>, key: Seq<char>) -> Option<T>
    decreases es.len(),
{
    if es.len() == 0 {
        None
    } else if es.last().0 == key {
        Some(es.last().1)
    } else {
        last_entry(es.drop_last(), key)
    }
}

/// The views of an association list's entries.
pub open spec fn assoc_views<T>(es: Seq<(String, T)>) -> Seq<(Seq<char>, T)> {
    es.map_values(|e: (String, T)| (e.0@, e.1))
}

/// Merges a later, higher-quality pass over an earlier one by appending
/// it: with last-entry-wins lookup, every key of the later pass
/// overrides, and every other key keeps its earlier item.
pub fn merge_assoc<T>(lower: &mut Vec<(String, T)>, higher: Vec<(String, T)>)
    ensures
        final(lower)@ == old(lower)@ + higher@,
{
    let mut higher = higher;
    lower.append(&mut higher);
}

/// The merge rule: appending the higher-quality pass makes its entries
/// win every key it holds, while keys it does not hold keep the
/// lower-quality item.
pub proof fn lemma_merge_prefers_higher<T>(
    lower: Seq<(Seq<char>, T)>,
    higher: Seq<(Seq<char>, T)>,
    key: Seq<char>,
)
    ensures
        last_entry(higher, key) is Some ==> last_entry(lower + higher, key) == last_entry(
            higher,
            key,
        ),
        last_entry(higher, key) is None ==> last_entry(lower + higher, key) == last_entry(
            lower,
            key,
        ),
    decreases higher.len(),
{
    if higher.len() == 0 {
        assert(lower + higher =~= lower);
    } else {
        let whole = lower + higher;
        assert(whole.last() == higher.last());
        if higher.last().0 == key {
        } else {
            lemma_merge_prefers_higher(lower, higher.drop_last(), key);
            assert(whole.drop_last() =~= lower + higher.drop_last());
        }
    }
}

/// How often `x` occurs in `s`.
pub open spec fn count_matches(s: Seq<Seq<char>>, x: Seq<char>) -> int
    decreases s.len(),
{
    if s.len() == 0 {
        0
    } else {
        (if s[0] == x {
            1int
        } else {
            0int
        }) + count_matches(s.drop_first(), x)
    }
}

fn occurrence_count(names: &Vec<String>, x: &str) -> (r: u64)
    ensures
        r == count_matches(line_views(names@), x@),
{
    let ghost nv = line_views(names@);
    let mut r: u64 = 0;
    let mut i: usize = 0;
    proof {
        assert(nv.skip(0) =~= nv);
    }
    while i < names.len()
        invariant
            i <= names.len(),
            nv == line_views(names@),
            r <= i,
            count_matches(nv, x@) == r + count_matches(nv.skip(i as int), x@),
        decreases names.len() - i,
    {
        let ghost rest = nv.skip(i as int);
        proof {
            assert(rest.len() == nv.len() - i);
            assert(rest[0] == nv[i as int]);
            assert(rest.drop_first() =~= nv.skip(i + 1));
        }
        if crate::text::str_eq(names[i].as_str(), x) {
            r += 1;
        }
        i += 1;
    }
    proof {
        assert(nv.skip(nv.len() as int) =~= Seq::<Seq<char>>::empty());
    }
    r
}

/// Each name of the input exactly once, at its first occurrence, in
/// input order.
pub fn distinct_names(names: &Vec<String>) -> (r: Vec<String>)
    ensures
        line_views(r@) == crate::stats::unplayed_lines(line_views(names@), Seq::empty()),
{
    let none: Vec<String> = Vec::new();
    let r = crate::stats::unplayed_of(names, &none);
    proof {
        assert(line_views(none@) =~= Seq::<Seq<char>>::empty());
    }
    r
}

/// How often each distinct name occurs: one pair per distinct name, in
/// first-occurrence order, carrying its total occurrence count.
pub fn occurrence_counts(names: &Vec<String>) -> (r: Vec<(String, u64)>)
    ensures
        ({
            let nv = line_views(names@);
            let d = crate::stats::unplayed_lines(nv, Seq::empty());
            &&& r@.len() == d.len()
            &&& forall|p: int|
                0 <= p < r@.len() ==> r@[p].0@ == d[p] && r@[p].1 == count_matches(nv, d[p])
        }),
{
    let ghost nv = line_views(names@);
    let ghost d = crate::stats::unplayed_lines(nv, Seq::empty());
    let keys = distinct_names(names);
    let mut r: Vec<(String, u64)> = Vec::new();
    let mut i: usize = 0;
    while i < keys.len()
        invariant
            i <= keys.len(),
            nv == line_views(names@),
            d == crate::stats::unplayed_lines(nv, Seq::empty()),
            line_views(keys@) == d,
            r@.len() == i,
            forall|p: int| 0 <= p < i ==> r@[p].0@ == d[p] && r@[p].1 == count_matches(nv, d[p]),
        decreases keys.len() - i,
    {
        let c = occurrence_count(names, keys[i].as_str());
        proof {
            assert(line_views(keys@)[i as int] == keys@[i as int]@);
        }
        r.push((keys[i].clone(), c));
        i += 1;
    }
    r
}

/// The canonical stable ascending order by count: each pair goes after
/// every already-placed pair whose count is not greater, so pairs with
/// equal counts keep their relative order.
pub open spec fn insert_by_count(x: (String, u64), s: Seq<(String, u64)>) -> Seq<(String, u64)>
    decreases s.len(),
{
    if s.len() == 0 {
        seq![x]
    } else if x.1 < s[0].1 {
        seq![x] + s
    } else {
        seq![s[0]] + insert_by_count(x, s.drop_first())
    }
}

/// The stable sort of the pairs by ascending count. A stable ascending
/// sort is unique as a function of its input, so this names the one
/// sequence any stable sort returns.
pub open spec fn sorted_by_count_spec(s: Seq<(String, u64)>) -> Seq<(String, u64)>
    decreases s.len(),
{
    if s.len() == 0 {
        Seq::empty()
    } else {
        insert_by_count(s.last(), sorted_by_count_spec(s.drop_last()))
    }
}

/// Relies on `itertools::Itertools::sorted_by_key` with the pair's count
/// as the key: a stable sort in ascending key order, which is exactly
/// the canonical stable ascending order.
#[verifier::external_body]
fn sorted_by_count(items: Vec<(String, u64)>) -> (r: Vec<(String, u64)>)
    ensures
        r@ == sorted_by_count_spec(items@),
{
    itertools::Itertools::sorted_by_key(items.into_iter(), |p: &(String, u64)| p.1).collect()
}

/// The `k` most frequent pairs, most frequent first: the tail of the
/// stable ascending order, read backwards.
pub fn top_by_count(items: Vec<(String, u64)>, k: usize) -> (r: Vec<(String, u64)>)
    ensures
        ({
            let s = sorted_by_count_spec(items@);
            &&& r@.len() == (if k <= s.len() {
                k as int
            } else {
                s.len() as int
            })
            &&& forall|i: int| 0 <= i < r@.len() ==> r@[i] == s[s.len() - 1 - i]
        }),
{
    let ghost sv = sorted_by_count_spec(items@);
    let sorted = sorted_by_count(items);
    let n = sorted.len();
    let mut r: Vec<(String, u64)> = Vec::new();
    let mut i: usize = 0;
    while i < k && i < n
        invariant
            n == sorted@.len(),
            sorted@ == sv,
            i <= n,
            i <= k,
            r@.len() == i,
            forall|j: int| 0 <= j < i ==> r@[j] == sv[sv.len() - 1 - j],
        decreases n - i,
    {
        let pair = (sorted[n - 1 - i].0.clone(), sorted[n - 1 - i].1);
        proof {
            assert(pair == sv[sv.len() - 1 - i]);
        }
        r.push(pair);
        i += 1;
    }
    r
}

/// A line of the playlist listing that names a playlist: modification
/// timestamps and blank lines are not names.
pub open spec fn keeps_playlist_line(l: Seq<char>) -> bool {
    l.len() > 0 && !crate::text::contains_seq(l, "Last-Modified"@)
}

/// `l` without the leading `p`, when it starts with it.
pub open spec fn strip_prefix_spec(l: Seq<char>, p: Seq<char>) -> Seq<char> {
    if l.len() >= p.len() && l.take(p.len() as int) == p {
        l.skip(p.len() as int)
    } else {
        l
    }
}

/// Every dash replaced by a space, as the display keys want it.
pub open spec fn dash_to_space(l: Seq<char>) -> Seq<char> {
    l.map_values(
        |c: char|
            if c == '-' {
                ' '
            } else {
                c
            },
    )
}

pub uninterp spec fn upper_of(s: Seq<char>) -> Seq<char>;

/// Relies on `str::to_uppercase`: the uppercase form depends on the
/// characters alone, and an empty string stays empty.
#[verifier::external_body]
fn to_upper(s: &str) -> (r: String)
    ensures
        r@ == upper_of(s@),
        s@.len() == 0 ==> r@.len() == 0,
{
    s.to_uppercase()
}

/// Relies on `String::push`: appends the one character.
#[verifier::external_body]
fn push_char(s: &mut String, c: char)
    ensures
        final(s)@ == old(s)@.push(c),
{
    s.push(c);
}

fn dash_to_space_of(line: &str) -> (r: String)
    ensures
        r@ == dash_to_space(line@),
{
    let n = line.unicode_len();
    let mut out = String::new();
    let mut i: usize = 0;
    while i < n
        invariant
            i <= n,
            n == line@.len(),
            out@ == dash_to_space(line@.take(i as int)),
        decreases n - i,
    {
        let ghost prev = out@;
        let c = line.get_char(i);
        if c == '-' {
            push_char(&mut out, ' ');
        } else {
            push_char(&mut out, c);
        }
        proof {
            assert(out@ =~= dash_to_space(line@.take(i + 1)));
        }
        i += 1;
    }
    proof {
        assert(line@.take(n as int) =~= line@);
    }
    out
}

fn has_prefix(s: &str, p: &str) -> (r: bool)
    ensures
        r == (s@.len() >= p@.len() && s@.take(p@.len() as int) == p@),
{
    let n = s.unicode_len();
    let m = p.unicode_len();
    if n < m {
        return false;
    }
    let mut i: usize = 0;
    while i < m
        invariant
            i <= m <= n,
            n == s@.len(),
            m == p@.len(),
            forall|j: int| 0 <= j < i ==> s@[j] == p@[j],
        decreases m - i,
    {
        if s.get_char(i) != p.get_char(i) {
            proof {
                if s@.take(m as int) == p@ {
                    assert(s@.take(m as int)[i as int] == p@[i as int]);
                }
            }
            return false;
        }
        i += 1;
    }
    proof {
        assert(s@.take(m as int) =~= p@);
    }
    true
}

fn strip_prefix_of(line: &str, p: &str) -> (r: String)
    ensures
        r@ == strip_prefix_spec(line@, p@),
{
    if has_prefix(line, p) {
        let n = line.unicode_len();
        let m = p.unicode_len();
        let r = line.substring_char(m, n).to_owned();
        proof {
            assert(line@.subrange(m as int, n as int) =~= line@.skip(m as int));
        }
        r
    } else {
        line.to_owned()
    }
}

/// One named playlist of the listing: the display key it is offered
/// under, its name line as reported, and the command that loads it.
pub struct PlaylistEntry {
    pub key: String,
    pub name: String,
    pub load_command: String,
}

/// The mathematical image of a [`PlaylistEntry`].
pub ghost struct PlaylistEntryView {
    pub key: Seq<char>,
    pub name: Seq<char>,
    pub load_command: Seq<char>,
}

impl View for PlaylistEntry {
    type V = PlaylistEntryView;

    open spec fn view(&self) -> PlaylistEntryView {
        PlaylistEntryView { key: self.key@, name: self.name@, load_command: self.load_command@ }
    }
}

/// What one kept name line turns into: the uppercased, dash-softened
/// display key, the raw name, and the load command for the bare name.
pub open spec fn playlist_entry_of(l: Seq<char>) -> PlaylistEntryView {
    PlaylistEntryView {
        key: upper_of(dash_to_space(l)),
        name: l,
        load_command: "mpc load "@ + strip_prefix_spec(l, "playlist: "@),
    }
}

/// The entries of a playlist listing, in listing order.
pub open spec fn playlist_entries_spec(lines: Seq<Seq<char>>) -> Seq<PlaylistEntryView>
    decreases lines.len(),
{
    if lines.len() == 0 {
        Seq::empty()
    } else {
        let rest = playlist_entries_spec(lines.drop_first());
        if keeps_playlist_line(lines[0]) {
            seq![playlist_entry_of(lines[0])] + rest
        } else {
            rest
        }
    }
}

proof fn lemma_playlist_snoc(lines: Seq<Seq<char>>, l: Seq<char>)
    ensures
        playlist_entries_spec(lines.push(l)) == playlist_entries_spec(lines) + (if keeps_playlist_line(
            l,
        ) {
            seq![playlist_entry_of(l)]
        } else {
            Seq::<PlaylistEntryView>::empty()
        }),
    decreases lines.len(),
{
    let tail = (if keeps_playlist_line(l) {
        seq![playlist_entry_of(l)]
    } else {
        Seq::<PlaylistEntryView>::empty()
    });
    if lines.len() == 0 {
        assert(lines.push(l)[0] == l);
        assert(lines.push(l).drop_first() =~= lines);
        assert(playlist_entries_spec(lines.push(l)) =~= playlist_entries_spec(lines) + tail);
    } else {
        assert(lines.push(l)[0] == lines[0]);
        assert(lines.push(l).drop_first() =~= lines.drop_first().push(l));
        lemma_playlist_snoc(lines.drop_first(), l);
        assert(playlist_entries_spec(lines.push(l)) =~= playlist_entries_spec(lines) + tail);
    }
}

/// Parses the playlist listing into offered entries: timestamp and blank
/// lines are dropped, every name line becomes one entry.
pub fn parse_playlists(body: &Vec<String>) -> (r: Vec<PlaylistEntry>)
    ensures
        r@.map_values(|e: PlaylistEntry| e@) == playlist_entries_spec(line_views(body@)),
{
    let ghost lv = line_views(body@);
    let mut out: Vec<PlaylistEntry> = Vec::new();
    let mut i: usize = 0;
    proof {
        assert(lv.take(0) =~= Seq::<Seq<char>>::empty());
        assert(out@.map_values(|e: PlaylistEntry| e@) =~= Seq::<PlaylistEntryView>::empty());
    }
    while i < body.len()
        invariant
            i <= body.len(),
            lv == line_views(body@),
            out@.map_values(|e: PlaylistEntry| e@) == playlist_entries_spec(lv.take(i as int)),
        decreases body.len() - i,
    {
        let ghost prev = out@.map_values(|e: PlaylistEntry| e@);
        proof {
            lemma_playlist_snoc(lv.take(i as int), lv[i as int]);
            assert(lv.take(i + 1) =~= lv.take(i as int).push(lv[i as int]));
        }
        let line = body[i].as_str();
        let keep = line.unicode_len() > 0 && !crate::text::contains_str(line, "Last-Modified");
        if keep {
            let key = to_upper(dash_to_space_of(line).as_str());
            let name = line.to_owned();
            let stripped = strip_prefix_of(line, "playlist: ");
            let mut load_command = String::from_str("mpc load ");
            load_command.append(stripped.as_str());
            let entry = PlaylistEntry { key, name, load_command };
            out.push(entry);
            proof {
                assert(out@.map_values(|e: PlaylistEntry| e@) =~= prev.push(
                    playlist_entry_of(lv[i as int]),
                ));
            }
        } else {
            proof {
                assert(prev + Seq::<PlaylistEntryView>::empty() =~= prev);
            }
        }
        i += 1;
    }
    proof {
        assert(lv.take(body@.len() as int) =~= lv);
    }
    out
}

/// Index of the last occurrence of `c` in `s`; negative when there is
/// none.
pub open spec fn last_index_of(s: Seq<char>, c: char) -> int
    decreases s.len(),
{
    if s.len() == 0 {
        -1
    } else if s.last() == c {
        s.len() - 1
    } else {
        last_index_of(s.drop_last(), c)
    }
}

proof fn lemma_last_index_props(s: Seq<char>, c: char)
    ensures
        -1 <= last_index_of(s, c) < s.len(),
        last_index_of(s, c) >= 0 ==> s[last_index_of(s, c)] == c,
        forall|j: int| last_index_of(s, c) < j < s.len() ==> s[j] != c,
    decreases s.len(),
{
    if s.len() == 0 {
    } else if s.last() == c {
    } else {
        lemma_last_index_props(s.drop_last(), c);
        assert forall|j: int| last_index_of(s, c) < j < s.len() implies s[j] != c by {
            if j < s.len() - 1 {
                assert(s.drop_last()[j] == s[j]);
            }
        }
        if last_index_of(s, c) >= 0 {
            assert(s.drop_last()[last_index_of(s.drop_last(), c)] == s[last_index_of(s, c)]);
        }
    }
}

fn rfind_char(s: &str, c: char) -> (r: Option<usize>)
    ensures
        (match r {
            Some(i) => last_index_of(s@, c) == i,
            None => last_index_of(s@, c) < 0,
        }),
{
    proof {
        lemma_last_index_props(s@, c);
    }
    let n = s.unicode_len();
    let mut i: usize = n;
    while i > 0
        invariant
            i <= n,
            n == s@.len(),
            forall|j: int| i <= j < n ==> s@[j] != c,
        decreases i,
    {
        i -= 1;
        if s.get_char(i) == c {
            proof {
                lemma_last_index_props(s@, c);
                let l = last_index_of(s@, c);
                if l < i {
                    assert(s@[i as int] != c);
                } else if l > i {
                    assert(s@[l] != c);
                }
            }
            return Some(i);
        }
    }
    proof {
        if last_index_of(s@, c) >= 0 {
            assert(s@[last_index_of(s@, c)] == c);
        }
    }
    None
}

/// The directory part of a server-relative path: everything before the
/// last slash, or empty for a bare file name.
pub open spec fn parent_dir(s: Seq<char>) -> Seq<char> {
    if last_index_of(s, '/') < 0 {
        Seq::empty()
    } else {
        s.take(last_index_of(s, '/'))
    }
}

/// Computes the directory part of a server-relative path.
pub fn parent_dir_of(path: &str) -> (r: String)
    ensures
        r@ == parent_dir(path@),
{
    proof {
        lemma_last_index_props(path@, '/');
    }
    match rfind_char(path, '/') {
        Some(i) => {
            let r = path.substring_char(0, i).to_owned();
            proof {
                assert(path@.subrange(0, i as int) =~= path@.take(i as int));
            }
            r
        },
        None => String::new(),
    }
}

/// Where a file's album can keep its cover art: the album directory
/// under the music directory, tried with each known cover file name, in
/// preference order.
pub open spec fn cover_base(music_dir: Seq<char>, file: Seq<char>) -> Seq<char> {
    if parent_dir(file).len() == 0 {
        music_dir + "/"@
    } else {
        music_dir + "/"@ + parent_dir(file) + "/"@
    }
}

/// Builds the cover-art candidate paths for a file's album directory.
pub fn cover_candidates(music_dir: &str, file_path: &str) -> (r: Vec<String>)
    ensures
        r@.len() == 3,
        r@[0]@ == cover_base(music_dir@, file_path@) + "cover.jpg"@,
        r@[1]@ == cover_base(music_dir@, file_path@) + "cover.jpeg"@,
        r@[2]@ == cover_base(music_dir@, file_path@) + "cover.png"@,
{
    let parent = parent_dir_of(file_path);
    let mut base = music_dir.to_owned();
    base.append("/");
    if parent.unicode_len() > 0 {
        base.append(parent.as_str());
        base.append("/");
    }
    let mut a = base.clone();
    a.append("cover.jpg");
    let mut b = base.clone();
    b.append("cover.jpeg");
    let mut c = base.clone();
    c.append("cover.png");
    let mut r: Vec<String> = Vec::new();
    r.push(a);
    r.push(b);
    r.push(c);
    r
}

/// ASCII-case-insensitive character equality.
pub open spec fn chars_eq_ci(a: char, b: char) -> bool {
    ||| a == b
    ||| ('A' <= a && a <= 'Z' && b as int == a as int + 32)
    ||| ('a' <= a && a <= 'z' && b as int == a as int - 32)
}

/// ASCII-case-insensitive string equality.
pub open spec fn seq_eq_ci(a: Seq<char>, b: Seq<char>) -> bool {
    a.len() == b.len() && forall|i: int| 0 <= i < a.len() ==> chars_eq_ci(a[i], b[i])
}

/// The extension of a path: the text after the last dot of its final
/// component, provided that dot is not the component's first character.
pub open spec fn has_ext(s: Seq<char>) -> bool {
    last_index_of(s, '.') > last_index_of(s, '/') + 1
}

/// The extension text itself.
pub open spec fn ext_of(s: Seq<char>) -> Seq<char> {
    s.skip(last_index_of(s, '.') + 1)
}

/// Whether the path's extension matches one of the given ones, ignoring
/// ASCII case.
pub open spec fn has_extension_spec(s: Seq<char>, exts: Seq<Seq<char>>) -> bool {
    has_ext(s) && exists|k: int| 0 <= k < exts.len() && seq_eq_ci(ext_of(s), exts[k])
}

fn str_eq_ci(a: &str, b: &str) -> (r: bool)
    ensures
        r == seq_eq_ci(a@, b@),
{
    let na = a.unicode_len();
    let nb = b.unicode_len();
    if na != nb {
        return false;
    }
    let mut i: usize = 0;
    while i < na
        invariant
            i <= na,
            na == a@.len(),
            na == b@.len(),
            forall|j: int| 0 <= j < i ==> chars_eq_ci(a@[j], b@[j]),
        decreases na - i,
    {
        let x = a.get_char(i);
        let y = b.get_char(i);
        let same = x == y || ('A' <= x && x <= 'Z' && y as u32 == x as u32 + 32) || ('a' <= x && x
            <= 'z' && y as u32 == x as u32 - 32);
        if !same {
            proof {
                assert(!chars_eq_ci(a@[i as int], b@[i as int]));
            }
            return false;
        }
        i += 1;
    }
    true
}

/// Decides whether a path carries one of the given extensions, ignoring
/// ASCII case, the way the indexer picks image files out of a walk.
pub fn has_extension(path: &str, exts: &Vec<String>) -> (r: bool)
    ensures
        r == has_extension_spec(path@, line_views(exts@)),
{
    proof {
        lemma_last_index_props(path@, '.');
        lemma_last_index_props(path@, '/');
    }
    let n = path.unicode_len();
    let dot = match rfind_char(path, '.') {
        Some(d) => d,
        None => {
            return false;
        },
    };
    let slash_end: usize = match rfind_char(path, '/') {
        Some(s) => s + 1,
        None => 0,
    };
    if dot <= slash_end {
        return false;
    }
    let ext = path.substring_char(dot + 1, n).to_owned();
    proof {
        assert(path@.subrange(dot + 1, n as int) =~= path@.skip(dot + 1));
    }
    let mut k: usize = 0;
    while k < exts.len()
        invariant
            k <= exts.len(),
            ext@ == ext_of(path@),
            has_ext(path@),
            forall|j: int| 0 <= j < k ==> !seq_eq_ci(ext_of(path@), line_views(exts@)[j]),
        decreases exts.len() - k,
    {
        if str_eq_ci(ext.as_str(), exts[k].as_str()) {
            proof {
                assert(seq_eq_ci(ext_of(path@), line_views(exts@)[k as int]));
            }
            return true;
        }
        proof {
            assert(line_views(exts@)[k as int] == exts@[k as int]@);
        }
        k += 1;
    }
    false
}

} // verus!
