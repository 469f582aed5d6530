//! Small verified text utilities shared by the framing and decoding
//! layers: character search, whitespace trimming, string equality, and
//! substring containment.

use vstd::prelude::*;
use vstd::string::*;

verus! {

/// The views of a vector of strings, in order.
pub open spec fn line_views(lines: Seq<String>) -> Seq<Seq<char>> {
    lines.map_values(|l: String| l@)
}

/// Index of the first occurrence of `c` in `s` at or after `from`;
/// `s.len()` when there is none.
pub open spec fn first_index_of(s: Seq<char>, from: int, c: char) -> int
    decreases s.len() - from,
{
    if from < 0 || from >= s.len() {
        s.len() as int
    } else if s[from] == c {
        from
    } else {
        first_index_of(s, from + 1, c)
    }
}

/// Finds the first occurrence of `c` in `s` at or after `from`.
pub fn find_char(s: &str, from: usize, c: char) -> (r: usize)
    requires
        from <= s@.len(),
    ensures
        r == first_index_of(s@, from as int, c),
        from <= r <= s@.len(),
{
    let n = s.unicode_len();
    let mut i: usize = from;
    while i < n
        invariant
            from <= i <= n,
            n == s@.len(),
            first_index_of(s@, from as int, c) == first_index_of(s@, i as int, c),
        decreases n - i,
    {
        if s.get_char(i) == c {
            return i;
        }
        proof {
            assert(first_index_of(s@, i as int, c) == first_index_of(s@, i + 1, c));
        }
        i += 1;
    }
    i
}

/// The whitespace stripped from both ends of keys and values: the ASCII
/// blank characters that occur around `key: value` text on the wire.
pub open spec fn is_space(c: char) -> bool {
    c == ' ' || c == '\t' || c == '\r' || c == '\n'
}

/// `s` without its leading whitespace.
pub open spec fn trim_front(s: Seq<char>) -> Seq<char>
    decreases s.len(),
{
    if s.len() > 0 && is_space(s[0]) {
        trim_front(s.drop_first())
    } else {
        s
    }
}

/// `s` without its trailing whitespace.
pub open spec fn trim_back(s: Seq<char>) -> Seq<char>
    decreases s.len(),
{
    if s.len() > 0 && is_space(s.last()) {
        trim_back(s.drop_last())
    } else {
        s
    }
}

/// `s` without surrounding whitespace.
pub open spec fn trimmed(s: Seq<char>) -> Seq<char> {
    trim_back(trim_front(s))
}

proof fn lemma_trim_front_skip(s: Seq<char>, k: int)
    requires
        0 <= k <= s.len(),
        forall|i: int| 0 <= i < k ==> is_space(s[i]),
        k < s.len() ==> !is_space(s[k]),
    ensures
        trim_front(s) == s.skip(k),
    decreases k,
{
    if k == 0 {
        assert(s.skip(0) =~= s);
    } else {
        assert(is_space(s[0]));
        assert forall|i: int| 0 <= i < k - 1 implies is_space(s.drop_first()[i]) by {
            assert(s.drop_first()[i] == s[i + 1]);
        }
        if k - 1 < s.drop_first().len() {
            assert(s.drop_first()[k - 1] == s[k]);
        }
        lemma_trim_front_skip(s.drop_first(), k - 1);
        assert(s.drop_first().skip(k - 1) =~= s.skip(k));
    }
}

proof fn lemma_trim_back_take(s: Seq<char>, k: int)
    requires
        0 <= k <= s.len(),
        forall|i: int| k <= i < s.len() ==> is_space(s[i]),
        k > 0 ==> !is_space(s[k - 1]),
    ensures
        trim_back(s) == s.take(k),
    decreases s.len() - k,
{
    if k == s.len() {
        if s.len() > 0 && is_space(s.last()) {
            assert(false);
        }
        assert(s.take(k) =~= s);
    } else {
        assert(is_space(s.last()));
        assert forall|i: int| k <= i < s.drop_last().len() implies is_space(s.drop_last()[i]) by {
            assert(s.drop_last()[i] == s[i]);
        }
        lemma_trim_back_take(s.drop_last(), k);
        assert(s.drop_last().take(k) =~= s.take(k));
    }
}

/// Strips surrounding whitespace from `s`.
pub fn trim_str(s: &str) -> (r: String)
    ensures
        r@ == trimmed(s@),
{
    let n = s.unicode_len();
    let mut lo: usize = 0;
    while lo < n
        invariant_except_break
            lo <= n,
            n == s@.len(),
            forall|i: int| 0 <= i < lo ==> is_space(s@[i]),
        ensures
            lo <= n,
            n == s@.len(),
            forall|i: int| 0 <= i < lo ==> is_space(s@[i]),
            lo < n ==> !is_space(s@[lo as int]),
        decreases n - lo,
    {
        let c = s.get_char(lo);
        if !(c == ' ' || c == '\t' || c == '\r' || c == '\n') {
            break ;
        }
        lo += 1;
    }
    proof {
        lemma_trim_front_skip(s@, lo as int);
    }
    if lo == n {
        proof {
            assert(s@.skip(n as int) =~= Seq::<char>::empty());
            assert(trim_back(Seq::<char>::empty()) =~= Seq::<char>::empty());
        }
        return String::new();
    }
    let mut hi: usize = n;
    while hi > lo + 1
        invariant_except_break
            lo < hi <= n,
            n == s@.len(),
            forall|i: int| hi <= i < n ==> is_space(s@[i]),
        ensures
            lo < hi <= n,
            n == s@.len(),
            forall|i: int| hi <= i < n ==> is_space(s@[i]),
            hi == lo + 1 || !is_space(s@[hi - 1]),
        decreases hi,
    {
        let c = s.get_char(hi - 1);
        if !(c == ' ' || c == '\t' || c == '\r' || c == '\n') {
            break ;
        }
        hi -= 1;
    }
    let ghost fr = s@.skip(lo as int);
    proof {
        assert(fr.len() == n - lo);
        assert forall|i: int| hi - lo <= i < fr.len() implies is_space(fr[i]) by {
            assert(fr[i] == s@[i + lo]);
        }
        assert(fr[hi - lo - 1] == s@[hi - 1]);
        assert(!is_space(s@[hi - 1]));
    }
    proof {
        lemma_trim_back_take(fr, hi - lo);
        assert(fr.take(hi - lo) =~= s@.subrange(lo as int, hi as int));
    }
    let r = s.substring_char(lo, hi).to_owned();
    r
}

/// Character-for-character string equality.
pub fn str_eq(a: &str, b: &str) -> (r: bool)
    ensures
        r == (a@ == b@),
{
    let na = a.unicode_len();
    let nb = b.unicode_len();
    if na != nb {
        return false;
    }
    let mut i: usize = 0;
    while i < na
        invariant
            i <= na,
            na == a@.len(),
            na == b@.len(),
            forall|j: int| 0 <= j < i ==> a@[j] == b@[j],
        decreases na - i,
    {
        if s_get(a, i) != s_get(b, i) {
            return false;
        }
        i += 1;
    }
    proof {
        assert(a@ =~= b@);
    }
    true
}

fn s_get(s: &str, i: usize) -> (c: char)
    requires
        i < s@.len(),
    ensures
        c == s@[i as int],
{
    s.get_char(i)
}

/// `pat` occurs in `s` starting at `at`.
pub open spec fn matches_at(s: Seq<char>, pat: Seq<char>, at: int) -> bool {
    0 <= at && at + pat.len() <= s.len() && s.subrange(at, at + pat.len()) == pat
}

/// `pat` occurs somewhere in `s`.
pub open spec fn contains_seq(s: Seq<char>, pat: Seq<char>) -> bool {
    exists|at: int| matches_at(s, pat, at)
}

/// Whether `pat` occurs anywhere in `s`.
pub fn contains_str(s: &str, pat: &str) -> (r: bool)
    ensures
        r == contains_seq(s@, pat@),
{
    let n = s.unicode_len();
    let m = pat.unicode_len();
    if m > n {
        proof {
            assert forall|at: int| !matches_at(s@, pat@, at) by {}
        }
        return false;
    }
    if m == 0 {
        proof {
            assert(s@.subrange(0, 0) =~= pat@);
            assert(matches_at(s@, pat@, 0));
        }
        return true;
    }
    let mut at: usize = 0;
    while at <= n - m
        invariant
            1 <= m <= n,
            n == s@.len(),
            m == pat@.len(),
            at <= n - m + 1,
            forall|j: int| 0 <= j < at ==> !matches_at(s@, pat@, j),
        decreases n - at,
    {
        let mut k: usize = 0;
        let mut hit = true;
        while k < m
            invariant
                k <= m,
                at + m <= n,
                n == s@.len(),
                m == pat@.len(),
                hit ==> forall|j: int| 0 <= j < k ==> s@[at + j] == pat@[j],
                !hit ==> !matches_at(s@, pat@, at as int),
            decreases m - k,
        {
            if s_get(s, at + k) != s_get(pat, k) {
                proof {
                    if matches_at(s@, pat@, at as int) {
                        assert(s@.subrange(at as int, at + pat@.len())[k as int] == pat@[k as int]);
                    }
                }
                hit = false;
                k = m;
            } else {
                k += 1;
            }
        }
        if hit {
            proof {
                assert(s@.subrange(at as int, at + pat@.len()) =~= pat@);
                assert(matches_at(s@, pat@, at as int));
            }
            return true;
        }
        at += 1;
    }
    proof {
        assert forall|j: int| 0 <= j implies !matches_at(s@, pat@, j) by {
            if j < at {
            } else {
                assert(j + pat@.len() > s@.len());
            }
        }
    }
    false
}

} // verus!
