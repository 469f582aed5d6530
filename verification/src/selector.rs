//! History-weighted playlist selection: a greedy duration fill over a
//! pre-shuffled candidate pool, with an optional same-artist constraint, and
//! the expansion of chosen album identifiers into their member tracks.

use vstd::prelude::*;

verus! {

/// One playable track as the selector emits it and the queue submission
/// consumes it: the artist tag, the server-relative file path, and the
/// track length in whole seconds.
pub struct SelectedTrack {
    pub artist: String,
    pub path: String,
    pub length_seconds: u64,
}

/// The mathematical image of a [`SelectedTrack`]: both strings as character
/// sequences, the length unchanged.
pub ghost struct TrackView {
    pub artist: Seq<char>,
    pub path: Seq<char>,
    pub length_seconds: u64,
}

impl View for SelectedTrack {
    type V = TrackView;

    open spec fn view(&self) -> TrackView {
        TrackView {
            artist: self.artist@,
            path: self.path@,
            length_seconds: self.length_seconds,
        }
    }
}

/// The views of a sequence of tracks, in order.
pub open spec fn track_views(s: Seq<SelectedTrack>) -> Seq<TrackView> {
    s.map_values(|t: SelectedTrack| t@)
}

/// Summed length, in seconds, of a sequence of tracks.
pub open spec fn sum_lengths(s: Seq<TrackView>) -> int
    decreases s.len(),
{
    if s.len() == 0 {
        0
    } else {
        s[0].length_seconds + sum_lengths(s.drop_first())
    }
}

/// The sub-sequence of `s` whose tracks carry exactly `artist`, in order.
pub open spec fn restrict_to_artist(s: Seq<TrackView>, artist: Seq<char>) -> Seq<TrackView>
    decreases s.len(),
{
    if s.len() == 0 {
        Seq::empty()
    } else {
        let rest = restrict_to_artist(s.drop_first(), artist);
        if s[0].artist == artist {
            seq![s[0]] + rest
        } else {
            rest
        }
    }
}

/// Greedy duration fill: walk `s` in order with `used` seconds already
/// spent, and take each track only while the running total after taking it
/// stays at or below `target`; stop for good at the first track that would
/// exceed it.
pub open spec fn greedy_fill(s: Seq<TrackView>, target: int, used: int) -> Seq<TrackView>
    decreases s.len(),
{
    if s.len() == 0 {
        Seq::empty()
    } else if used + s[0].length_seconds <= target {
        seq![s[0]] + greedy_fill(s.drop_first(), target, used + s[0].length_seconds)
    } else {
        Seq::empty()
    }
}

/// What `select_by_duration` returns: with the same-artist constraint the
/// pool is first restricted to the artist of its first element (an empty
/// pool stays empty, which is a valid result, not an error), then the
/// greedy fill runs against the duration budget.
pub open spec fn selection_spec(
    pool: Seq<TrackView>,
    target: int,
    same_artist: bool,
) -> Seq<TrackView> {
    if same_artist {
        if pool.len() == 0 {
            Seq::empty()
        } else {
            greedy_fill(restrict_to_artist(pool, pool[0].artist), target, 0)
        }
    } else {
        greedy_fill(pool, target, 0)
    }
}

/// Duration budget, in seconds, applied when the caller gives none.
pub const DEFAULT_TARGET_SECONDS: u64 = 3600;

/// The budget actually applied: the caller's, or the one-hour default.
pub open spec fn applied_target(target_seconds: Option<u64>) -> int {
    match target_seconds {
        Some(t) => t as int,
        None => DEFAULT_TARGET_SECONDS as int,
    }
}

proof fn lemma_greedy_budget(s: Seq<TrackView>, target: int, used: int)
    requires
        used <= target,
    ensures
        used + sum_lengths(greedy_fill(s, target, used)) <= target,
    decreases s.len(),
{
    if s.len() == 0 {
    } else if used + s[0].length_seconds <= target {
        lemma_greedy_budget(s.drop_first(), target, used + s[0].length_seconds);
        let g = seq![s[0]] + greedy_fill(s.drop_first(), target, used + s[0].length_seconds);
        assert(g[0] == s[0]);
        assert(g.drop_first() =~= greedy_fill(s.drop_first(), target, used + s[0].length_seconds));
    } else {
    }
}

/// The duration budget is respected: whatever the pool and whichever way
/// the same-artist constraint is set, the summed length of the selection
/// never exceeds the non-negative target.
pub proof fn lemma_selection_within_budget(pool: Seq<TrackView>, target: int, same_artist: bool)
    requires
        0 <= target,
    ensures
        sum_lengths(selection_spec(pool, target, same_artist)) <= target,
{
    if same_artist {
        if pool.len() == 0 {
        } else {
            lemma_greedy_budget(restrict_to_artist(pool, pool[0].artist), target, 0);
        }
    } else {
        lemma_greedy_budget(pool, target, 0);
    }
}

proof fn lemma_greedy_prefix(s: Seq<TrackView>, target: int, used: int)
    ensures
        greedy_fill(s, target, used).len() <= s.len(),
        greedy_fill(s, target, used) == s.take(greedy_fill(s, target, used).len() as int),
    decreases s.len(),
{
    let g = greedy_fill(s, target, used);
    if s.len() == 0 {
        assert(g =~= s.take(g.len() as int));
    } else if used + s[0].length_seconds <= target {
        lemma_greedy_prefix(s.drop_first(), target, used + s[0].length_seconds);
        let rest = greedy_fill(s.drop_first(), target, used + s[0].length_seconds);
        assert forall|i: int| 0 <= i < g.len() implies g[i] == s.take(g.len() as int)[i] by {
            if i == 0 {
                assert(g[0] == s[0]);
            } else {
                assert(g[i] == rest[i - 1]);
                assert(rest[i - 1] == s.drop_first().take(rest.len() as int)[i - 1]);
                assert(s.drop_first()[i - 1] == s[i]);
            }
        }
        assert(g =~= s.take(g.len() as int));
    } else {
        assert(g =~= s.take(0));
    }
}

proof fn lemma_restrict_all(s: Seq<TrackView>, artist: Seq<char>)
    ensures
        forall|i: int|
            0 <= i < restrict_to_artist(s, artist).len() ==> restrict_to_artist(s, artist)[i].artist
                == artist,
    decreases s.len(),
{
    if s.len() == 0 {
    } else {
        lemma_restrict_all(s.drop_first(), artist);
        let rest = restrict_to_artist(s.drop_first(), artist);
        if s[0].artist == artist {
            assert forall|i: int|
                0 <= i < restrict_to_artist(s, artist).len() implies restrict_to_artist(
                s,
                artist,
            )[i].artist == artist by {
                if i == 0 {
                    assert(restrict_to_artist(s, artist)[0] == s[0]);
                } else {
                    assert(restrict_to_artist(s, artist)[i] == rest[i - 1]);
                }
            }
        }
    }
}

/// The same-artist constraint holds of the whole result: with it set and
/// a non-empty pool, every selected track carries the artist of the
/// pool's first element.
pub proof fn lemma_same_artist_only(pool: Seq<TrackView>, target: int)
    requires
        pool.len() > 0,
    ensures
        forall|i: int|
            0 <= i < selection_spec(pool, target, true).len() ==> selection_spec(
                pool,
                target,
                true,
            )[i].artist == pool[0].artist,
{
    let restricted = restrict_to_artist(pool, pool[0].artist);
    lemma_restrict_all(pool, pool[0].artist);
    lemma_greedy_prefix(restricted, target, 0);
    let g = greedy_fill(restricted, target, 0);
    assert forall|i: int| 0 <= i < g.len() implies g[i].artist == pool[0].artist by {
        assert(g[i] == restricted.take(g.len() as int)[i]);
        assert(restricted.take(g.len() as int)[i] == restricted[i]);
    }
}

fn clone_track(t: &SelectedTrack) -> (r: SelectedTrack)
    ensures
        r@ == t@,
{
    SelectedTrack {
        artist: t.artist.clone(),
        path: t.path.clone(),
        length_seconds: t.length_seconds,
    }
}

proof fn lemma_restrict_snoc(s: Seq<TrackView>, x: TrackView, artist: Seq<char>)
    ensures
        restrict_to_artist(s.push(x), artist) == restrict_to_artist(s, artist) + (if x.artist
            == artist {
            seq![x]
        } else {
            Seq::<TrackView>::empty()
        }),
    decreases s.len(),
{
    let tail = (if x.artist == artist {
        seq![x]
    } else {
        Seq::<TrackView>::empty()
    });
    if s.len() == 0 {
        assert(s.push(x).drop_first() =~= Seq::<TrackView>::empty());
        assert(restrict_to_artist(s.push(x).drop_first(), artist) =~= Seq::<TrackView>::empty());
        assert(s.push(x)[0] == x);
        assert(restrict_to_artist(s.push(x), artist) =~= restrict_to_artist(s, artist) + tail);
    } else {
        assert(s.push(x).drop_first() =~= s.drop_first().push(x));
        lemma_restrict_snoc(s.drop_first(), x, artist);
        assert(s.push(x)[0] == s[0]);
        assert(restrict_to_artist(s.push(x), artist) =~= restrict_to_artist(s, artist) + tail);
    }
}

/// Builds the playlist for track mode: restrict to the first element's
/// artist when asked, then fill greedily up to the duration budget.
pub fn select_by_duration(
    pool: &Vec<SelectedTrack>,
    target_seconds: Option<u64>,
    same_artist: bool,
) -> (r: Vec<SelectedTrack>)
    ensures
        track_views(r@) == selection_spec(
            track_views(pool@),
            applied_target(target_seconds),
            same_artist,
        ),
{
    let target: u64 = match target_seconds {
        Some(t) => t,
        None => DEFAULT_TARGET_SECONDS,
    };
    let ghost pv = track_views(pool@);
    let mut filtered: Vec<SelectedTrack> = Vec::new();
    if same_artist {
        if pool.len() == 0 {
            return filtered;
        }
        let mut i: usize = 0;
        while i < pool.len()
            invariant
                i <= pool.len(),
                pool.len() > 0,
                pv == track_views(pool@),
                track_views(filtered@) == restrict_to_artist(pv.take(i as int), pv[0].artist),
            decreases pool.len() - i,
        {
            let ghost prev = track_views(filtered@);
            proof {
                lemma_restrict_snoc(pv.take(i as int), pv[i as int], pv[0].artist);
                assert(pv.take(i + 1) =~= pv.take(i as int).push(pv[i as int]));
            }
            if pool[i].artist == pool[0].artist {
                let t = clone_track(&pool[i]);
                filtered.push(t);
                proof {
                    assert(track_views(filtered@) =~= prev + seq![pv[i as int]]);
                }
            } else {
                proof {
                    assert(prev + Seq::<TrackView>::empty() =~= prev);
                }
            }
            i += 1;
        }
        proof {
            assert(pv.take(pool@.len() as int) =~= pv);
        }
    } else {
        let mut i: usize = 0;
        while i < pool.len()
            invariant
                i <= pool.len(),
                pv == track_views(pool@),
                track_views(filtered@) == pv.take(i as int),
            decreases pool.len() - i,
        {
            let ghost prev = track_views(filtered@);
            let t = clone_track(&pool[i]);
            filtered.push(t);
            proof {
                assert(track_views(filtered@) =~= prev.push(pv[i as int]));
                assert(pv.take(i + 1) =~= pv.take(i as int).push(pv[i as int]));
            }
            i += 1;
        }
        proof {
            assert(pv.take(pool@.len() as int) =~= pv);
        }
    }
    greedy_take(filtered, target)
}

/// One track of the indexed catalog in album mode: a selected track
/// together with the album it belongs to.
pub struct AlbumTrack {
    pub artist: String,
    pub path: String,
    pub album: String,
    pub length_seconds: u64,
}

/// The mathematical image of an [`AlbumTrack`].
pub ghost struct AlbumTrackView {
    pub artist: Seq<char>,
    pub path: Seq<char>,
    pub album: Seq<char>,
    pub length_seconds: u64,
}

impl View for AlbumTrack {
    type V = AlbumTrackView;

    open spec fn view(&self) -> AlbumTrackView {
        AlbumTrackView {
            artist: self.artist@,
            path: self.path@,
            album: self.album@,
            length_seconds: self.length_seconds,
        }
    }
}

/// The views of a sequence of album tracks, in order.
pub open spec fn album_track_views(s: Seq<AlbumTrack>) -> Seq<AlbumTrackView> {
    s.map_values(|t: AlbumTrack| t@)
}

/// An album track stripped down to what the queue needs.
pub open spec fn to_selected(t: AlbumTrackView) -> TrackView {
    TrackView { artist: t.artist, path: t.path, length_seconds: t.length_seconds }
}

/// Album-mode expansion: the member tracks of every chosen album, in
/// catalog order, with no duration bound.
pub open spec fn expand_albums(
    catalog: Seq<AlbumTrackView>,
    albums: Seq<Seq<char>>,
) -> Seq<TrackView>
    decreases catalog.len(),
{
    if catalog.len() == 0 {
        Seq::empty()
    } else {
        let rest = expand_albums(catalog.drop_first(), albums);
        if crate::stats::seq_has(albums, catalog[0].album) {
            seq![to_selected(catalog[0])] + rest
        } else {
            rest
        }
    }
}

proof fn lemma_expand_snoc(catalog: Seq<AlbumTrackView>, x: AlbumTrackView, albums: Seq<Seq<char>>)
    ensures
        expand_albums(catalog.push(x), albums) == expand_albums(catalog, albums) + (if crate::stats::seq_has(
            albums,
            x.album,
        ) {
            seq![to_selected(x)]
        } else {
            Seq::<TrackView>::empty()
        }),
    decreases catalog.len(),
{
    let tail = (if crate::stats::seq_has(albums, x.album) {
        seq![to_selected(x)]
    } else {
        Seq::<TrackView>::empty()
    });
    if catalog.len() == 0 {
        assert(catalog.push(x)[0] == x);
        assert(catalog.push(x).drop_first() =~= catalog);
        assert(expand_albums(catalog.push(x), albums) =~= expand_albums(catalog, albums) + tail);
    } else {
        assert(catalog.push(x)[0] == catalog[0]);
        assert(catalog.push(x).drop_first() =~= catalog.drop_first().push(x));
        lemma_expand_snoc(catalog.drop_first(), x, albums);
        assert(expand_albums(catalog.push(x), albums) =~= expand_albums(catalog, albums) + tail);
    }
}

/// Expands the chosen album identifiers into their full member track
/// lists: exactly the catalog tracks whose album was chosen, in catalog
/// order. No duration bound applies in album mode.
pub fn select_by_albums(catalog: &Vec<AlbumTrack>, albums: &Vec<String>) -> (r: Vec<SelectedTrack>)
    ensures
        track_views(r@) == expand_albums(
            album_track_views(catalog@),
            crate::text::line_views(albums@),
        ),
{
    let ghost cv = album_track_views(catalog@);
    let ghost av = crate::text::line_views(albums@);
    let mut out: Vec<SelectedTrack> = Vec::new();
    let mut i: usize = 0;
    proof {
        assert(cv.take(0) =~= Seq::<AlbumTrackView>::empty());
        assert(track_views(out@) =~= Seq::<TrackView>::empty());
    }
    while i < catalog.len()
        invariant
            i <= catalog.len(),
            cv == album_track_views(catalog@),
            av == crate::text::line_views(albums@),
            track_views(out@) == expand_albums(cv.take(i as int), av),
        decreases catalog.len() - i,
    {
        let ghost prev = track_views(out@);
        let chosen = crate::stats::vec_has_prefix(albums, albums.len(), catalog[i].album.as_str());
        proof {
            assert(av.take(albums@.len() as int) =~= av);
            lemma_expand_snoc(cv.take(i as int), cv[i as int], av);
            assert(cv.take(i + 1) =~= cv.take(i as int).push(cv[i as int]));
        }
        if chosen {
            let t = SelectedTrack {
                artist: catalog[i].artist.clone(),
                path: catalog[i].path.clone(),
                length_seconds: catalog[i].length_seconds,
            };
            out.push(t);
            proof {
                assert(track_views(out@) =~= prev + seq![to_selected(cv[i as int])]);
            }
        } else {
            proof {
                assert(prev + Seq::<TrackView>::empty() =~= prev);
            }
        }
        i += 1;
    }
    proof {
        assert(cv.take(catalog@.len() as int) =~= cv);
    }
    out
}

fn greedy_take(pool: Vec<SelectedTrack>, target: u64) -> (r: Vec<SelectedTrack>)
    ensures
        track_views(r@) == greedy_fill(track_views(pool@), target as int, 0),
{
    let ghost s = track_views(pool@);
    let mut out: Vec<SelectedTrack> = Vec::new();
    let mut used: u64 = 0;
    let mut i: usize = 0;
    let mut active = true;
    proof {
        assert(s.skip(0) =~= s);
        assert(track_views(out@) =~= Seq::<TrackView>::empty());
        assert(Seq::<TrackView>::empty() + greedy_fill(s, target as int, 0) =~= greedy_fill(
            s,
            target as int,
            0,
        ));
    }
    while active && i < pool.len()
        invariant
            i <= pool.len(),
            used <= target,
            s == track_views(pool@),
            active ==> greedy_fill(s, target as int, 0) == track_views(out@) + greedy_fill(
                s.skip(i as int),
                target as int,
                used as int,
            ),
            !active ==> track_views(out@) == greedy_fill(s, target as int, 0),
        decreases pool.len() - i + (if active {
            1int
        } else {
            0int
        }),
    {
        let ghost prev = track_views(out@);
        proof {
            assert(s.skip(i as int).len() == pool@.len() - i);
            assert(s.skip(i as int)[0] == s[i as int]);
        }
        if pool[i].length_seconds <= target - used {
            let t = clone_track(&pool[i]);
            out.push(t);
            used = used + pool[i].length_seconds;
            proof {
                assert(s.skip(i as int).drop_first() =~= s.skip(i + 1));
                assert(track_views(out@) =~= prev + seq![s[i as int]]);
                assert(prev + (seq![s[i as int]] + greedy_fill(
                    s.skip(i + 1),
                    target as int,
                    used as int,
                )) =~= (prev + seq![s[i as int]]) + greedy_fill(
                    s.skip(i + 1),
                    target as int,
                    used as int,
                ));
            }
            i += 1;
        } else {
            active = false;
            proof {
                assert(greedy_fill(s.skip(i as int), target as int, used as int)
                    =~= Seq::<TrackView>::empty());
                assert(prev + Seq::<TrackView>::empty() =~= prev);
            }
        }
    }
    proof {
        if active {
            assert(s.skip(s.len() as int) =~= Seq::<TrackView>::empty());
            assert(track_views(out@) + Seq::<TrackView>::empty() =~= track_views(out@));
        }
    }
    out
}

} // verus!
