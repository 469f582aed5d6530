//! Listening statistics helpers: the time split shown for total playtime,
//! the display key a track is reported under, and the set difference
//! behind the never-played report.

use vstd::prelude::*;
use vstd::string::*;

use crate::protocol::join_seqs;
use crate::protocol::join_with;
use crate::text::line_views;
use crate::text::str_eq;

verus! {

/// Splits a playtime in seconds into whole hours, leftover minutes and
/// leftover seconds, the way the statistics table shows it.
pub fn split_duration(total_seconds: u64) -> (r: (u64, u64, u64))
    ensures
        r.0 == (total_seconds / 60) / 60,
        r.1 == (total_seconds / 60) % 60,
        r.2 == total_seconds % 60,
        r.1 < 60,
        r.2 < 60,
{
    let sec = total_seconds % 60;
    let min = (total_seconds / 60) % 60;
    let hr = (total_seconds / 60) / 60;
    (hr, min, sec)
}

/// The display key a track is reported under: its title and artist with
/// the separator between them.
pub fn track_display_key(title: &str, artist: &str) -> (r: String)
    ensures
        r@ == title@ + " - "@ + artist@,
{
    let mut out = title.to_owned();
    out.append(" - ");
    out.append(artist);
    out
}

/// `x` is one of the strings of `s`.
pub open spec fn seq_has(s: Seq<Seq<char>>, x: Seq<char>) -> bool {
    exists|i: int| 0 <= i < s.len() && s[i] == x
}

/// Whether one of the first `upto` strings of `v` equals `x`.
pub fn vec_has_prefix(v: &Vec<String>, upto: usize, x: &str) -> (r: bool)
    requires
        upto <= v.len(),
    ensures
        r == seq_has(line_views(v@).take(upto as int), x@),
{
    let mut i: usize = 0;
    while i < upto
        invariant
            i <= upto <= v.len(),
            forall|j: int| 0 <= j < i ==> line_views(v@)[j] != x@,
        decreases upto - i,
    {
        if str_eq(v[i].as_str(), x) {
            proof {
                assert(line_views(v@).take(upto as int)[i as int] == x@);
            }
            return true;
        }
        proof {
            assert(line_views(v@)[i as int] == v@[i as int]@);
        }
        i += 1;
    }
    proof {
        assert forall|j: int| 0 <= j < upto implies line_views(v@).take(upto as int)[j] != x@ by {
            assert(line_views(v@).take(upto as int)[j] == line_views(v@)[j]);
        }
    }
    false
}

/// The never-played report's lines: every track key the collection holds
/// and the play history does not, kept at its first occurrence, in
/// collection order.
pub open spec fn unplayed_lines(all: Seq<Seq<char>>, played: Seq<Seq<char>>) -> Seq<Seq<char>>
    decreases all.len(),
{
    if all.len() == 0 {
        Seq::empty()
    } else {
        let rest = unplayed_lines(all.drop_last(), played);
        if !seq_has(played, all.last()) && !seq_has(all.drop_last(), all.last()) {
            rest.push(all.last())
        } else {
            rest
        }
    }
}

/// Computes the never-played track keys: those of the collection that the
/// history misses, deduplicated to their first occurrence.
pub fn unplayed_of(all: &Vec<String>, played: &Vec<String>) -> (r: Vec<String>)
    ensures
        line_views(r@) == unplayed_lines(line_views(all@), line_views(played@)),
{
    let ghost av = line_views(all@);
    let ghost pv = line_views(played@);
    let mut r: Vec<String> = Vec::new();
    let mut i: usize = 0;
    proof {
        assert(av.take(0) =~= Seq::<Seq<char>>::empty());
        assert(line_views(r@) =~= Seq::<Seq<char>>::empty());
    }
    while i < all.len()
        invariant
            i <= all.len(),
            av == line_views(all@),
            pv == line_views(played@),
            line_views(r@) == unplayed_lines(av.take(i as int), pv),
        decreases all.len() - i,
    {
        let ghost prev = line_views(r@);
        let in_played = vec_has_prefix(played, played.len(), all[i].as_str());
        let seen = vec_has_prefix(all, i, all[i].as_str());
        proof {
            assert(pv.take(played@.len() as int) =~= pv);
            assert(av.take(i + 1).drop_last() =~= av.take(i as int));
            assert(av.take(i + 1).last() == av[i as int]);
        }
        if !in_played && !seen {
            r.push(all[i].clone());
            proof {
                assert(line_views(r@) =~= prev.push(av[i as int]));
            }
        }
        i += 1;
    }
    proof {
        assert(av.take(all@.len() as int) =~= av);
    }
    r
}

/// Joins the never-played keys into the printed report, one key per line.
pub fn unplayed_report(all: &Vec<String>, played: &Vec<String>) -> (r: String)
    ensures
        r@ == join_seqs(unplayed_lines(line_views(all@), line_views(played@)), "\n"@),
{
    let u = unplayed_of(all, played);
    join_with(&u, "\n")
}

/// A key never comes out of the difference twice, and one comes out
/// exactly when the collection holds it and the history does not.
pub proof fn lemma_unplayed_lines_exact(all: Seq<Seq<char>>, played: Seq<Seq<char>>)
    ensures
        forall|x: Seq<char>|
            #[trigger] seq_has(unplayed_lines(all, played), x) <==> (seq_has(all, x) && !seq_has(
                played,
                x,
            )),
        forall|i: int, j: int|
            0 <= i < j < unplayed_lines(all, played).len() ==> unplayed_lines(all, played)[i]
                != unplayed_lines(all, played)[j],
    decreases all.len(),
{
    if all.len() == 0 {
    } else {
        lemma_unplayed_lines_exact(all.drop_last(), played);
        let rest = unplayed_lines(all.drop_last(), played);
        let whole = unplayed_lines(all, played);
        assert forall|x: Seq<char>| #[trigger]
            seq_has(whole, x) implies (seq_has(all, x) && !seq_has(played, x)) by {
            let k = choose|k: int| 0 <= k < whole.len() && whole[k] == x;
            if k < rest.len() {
                assert(seq_has(rest, x));
                let u = choose|u: int| 0 <= u < all.drop_last().len() && all.drop_last()[u] == x;
                assert(all[u] == x);
            } else {
                assert(x == all.last());
                assert(all[all.len() - 1] == x);
            }
        }
        assert forall|x: Seq<char>|
            (seq_has(all, x) && !seq_has(played, x)) implies #[trigger] seq_has(whole, x) by {
            let u = choose|u: int| 0 <= u < all.len() && all[u] == x;
            if u < all.len() - 1 {
                assert(all.drop_last()[u] == x);
                assert(seq_has(rest, x));
                let k = choose|k: int| 0 <= k < rest.len() && rest[k] == x;
                assert(whole[k] == x);
            } else {
                assert(x == all.last());
                if seq_has(all.drop_last(), x) {
                    assert(seq_has(rest, x));
                    let k = choose|k: int| 0 <= k < rest.len() && rest[k] == x;
                    assert(whole[k] == x);
                } else {
                    assert(whole[whole.len() - 1] == x);
                }
            }
        }
        assert forall|i: int, j: int| 0 <= i < j < whole.len() implies whole[i] != whole[j] by {
            if j < rest.len() {
            } else if whole.len() > rest.len() {
                assert(whole[j] == all.last());
                assert(whole[i] == rest[i]);
                assert(seq_has(rest, rest[i]));
                assert(!seq_has(all.drop_last(), all.last()));
            }
        }
    }
}

} // verus!
