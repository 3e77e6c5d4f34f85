//! Case-insensitive matching of a needle against a haystack.
//!
//! Two matchers live here:
//! - `substring_match_ci`: contiguous substring (the task-text search and
//!   user filter predicate, saved-filter counts, row highlighting).
//! - `subseq_match_ci`: subsequence, characters in order with gaps allowed
//!   (the command palette's fuzzy menu finder).
//!
//! Each character is compared by its full Unicode lowercase mapping, one
//! haystack character against one needle character, and every returned
//! position is the byte offset of a character of the haystack as given.
//! The matching itself works on already lowercased characters ("keys") and
//! stands in `first_run_match` and `leftmost_match`.
use vstd::prelude::*;
use vstd::utf8::*;

use crate::text::{
    byte_offset, lemma_byte_offset_is_char_boundary, lemma_byte_offset_monotone,
    lemma_byte_offset_step, utf8_width,
};

verus! {

/// The lowercase mapping of a character, as `char::to_lowercase` yields it
/// (one or more characters, from the Unicode character database).
pub uninterp spec fn char_lowercase(c: char) -> Seq<char>;

/// ASCII lowercase of a character: `A`..=`Z` map to `a`..=`z`, all else is kept.
pub open spec fn ascii_lower(c: char) -> char {
    if 'A' <= c && c <= 'Z' {
        ((c as u32) + 32) as char
    } else {
        c
    }
}

/// Wraps `char::to_lowercase`, collected into a `String`.
///
/// Claims: the result is the lowercase mapping of `c` (named, as it comes
/// from the Unicode tables); it holds at least one character, as the
/// documentation says the iterator yields "one or more chars"; for an ASCII
/// character it is the single ASCII-lowercased character.
#[verifier::external_body]
fn lowercase_of(c: char) -> (r: String)
    ensures
        r@ == char_lowercase(c),
        r@.len() >= 1,
        (c as u32) < 128 ==> r@ == seq![ascii_lower(c)],
{
    c.to_lowercase().collect::<String>()
}

/// The full Unicode lowercase mapping of `c`, as a string: at least one
/// character, and for an ASCII character its ASCII lowercase alone.
pub fn lowercase_char(c: char) -> (r: String)
    ensures
        r@ == char_lowercase(c),
        r@.len() >= 1,
        (c as u32) < 128 ==> r@ == seq![ascii_lower(c)],
{
    lowercase_of(c)
}

// ---------------------------------------------------------------------------
// Matching on keys (lowercased characters)
// ---------------------------------------------------------------------------

/// The needle keys occur in the haystack keys as a run starting at `s`.
pub open spec fn keys_match_at(hk: Seq<Seq<char>>, nk: Seq<Seq<char>>, s: int) -> bool {
    &&& 0 <= s
    &&& s + nk.len() <= hk.len()
    &&& forall|j: int| 0 <= j < nk.len() ==> #[trigger] hk[s + j] == nk[j]
}

/// `s` is the first position at which the needle keys occur as a run.
pub open spec fn is_first_run(hk: Seq<Seq<char>>, nk: Seq<Seq<char>>, s: int) -> bool {
    &&& keys_match_at(hk, nk, s)
    &&& forall|t: int| 0 <= t < s ==> !#[trigger] keys_match_at(hk, nk, t)
}

/// What `first_run_match` returns: `None` for an empty needle or when the
/// needle keys occur nowhere as a run, else the offsets of the haystack
/// entries of the first run.
pub open spec fn first_run_offsets(offs: Seq<usize>, hk: Seq<Seq<char>>, nk: Seq<Seq<char>>) -> Option<
    Seq<usize>,
> {
    if nk.len() == 0 {
        None
    } else if exists|s: int| is_first_run(hk, nk, s) {
        let s = choose|s: int| is_first_run(hk, nk, s);
        Some(offs.subrange(s, s + nk.len()))
    } else {
        None
    }
}

/// `idx` places each needle key, in order, on an equal haystack key.
pub open spec fn key_embeds(hk: Seq<Seq<char>>, nk: Seq<Seq<char>>, idx: Seq<int>) -> bool {
    &&& idx.len() == nk.len()
    &&& forall|j: int| 0 <= j < idx.len() ==> 0 <= #[trigger] idx[j] < hk.len()
    &&& forall|j: int| 0 <= j < idx.len() ==> hk[#[trigger] idx[j]] == nk[j]
    &&& forall|j: int, k: int| 0 <= j < k < idx.len() ==> #[trigger] idx[j] < #[trigger] idx[k]
}

/// First haystack position at which needle key `j` may be placed, given the
/// placements `idx` of the keys before it.
pub open spec fn search_from(idx: Seq<int>, j: int) -> int {
    if j == 0 {
        0
    } else {
        idx[j - 1] + 1
    }
}

/// The leftmost (greedy) embedding: each needle key is placed on the first
/// equal haystack key after the previous placement.
pub open spec fn is_leftmost(hk: Seq<Seq<char>>, nk: Seq<Seq<char>>, idx: Seq<int>) -> bool {
    &&& key_embeds(hk, nk, idx)
    &&& forall|j: int, p: int|
        #![trigger hk[p], nk[j]]
        0 <= j < idx.len() && search_from(idx, j) <= p < idx[j] ==> hk[p] != nk[j]
}

/// The offsets at positions `idx`.
pub open spec fn offsets_at(offs: Seq<usize>, idx: Seq<int>) -> Seq<usize> {
    Seq::new(idx.len(), |k: int| offs[idx[k]])
}

/// What `leftmost_match` returns: `None` for an empty needle or when the
/// needle keys do not embed, else the offsets of the leftmost embedding.
pub open spec fn leftmost_offsets(offs: Seq<usize>, hk: Seq<Seq<char>>, nk: Seq<Seq<char>>) -> Option<
    Seq<usize>,
> {
    if nk.len() == 0 {
        None
    } else if exists|idx: Seq<int>| is_leftmost(hk, nk, idx) {
        let idx = choose|idx: Seq<int>| is_leftmost(hk, nk, idx);
        Some(offsets_at(offs, idx))
    } else {
        None
    }
}

/// The offsets of haystack entries.
pub open spec fn entry_offsets(hay: Seq<(usize, String)>) -> Seq<usize> {
    hay.map_values(|e: (usize, String)| e.0)
}

/// The keys of haystack entries.
pub open spec fn entry_keys(hay: Seq<(usize, String)>) -> Seq<Seq<char>> {
    hay.map_values(|e: (usize, String)| e.1@)
}

/// The keys of needle entries.
pub open spec fn keys_of(needle: Seq<String>) -> Seq<Seq<char>> {
    needle.map_values(|s: String| s@)
}

/// The first position is unique.
pub proof fn lemma_first_run_unique(hk: Seq<Seq<char>>, nk: Seq<Seq<char>>, s: int)
    requires
        is_first_run(hk, nk, s),
    ensures
        forall|t: int| #[trigger] is_first_run(hk, nk, t) ==> t == s,
{
    assert forall|t: int| #[trigger] is_first_run(hk, nk, t) implies t == s by {
        if t < s {
            assert(!keys_match_at(hk, nk, t));
        } else if s < t {
            assert(!keys_match_at(hk, nk, s));
        }
    }
}

/// The leftmost embedding, when there is one, is unique.
pub proof fn lemma_leftmost_unique(hk: Seq<Seq<char>>, nk: Seq<Seq<char>>, a: Seq<int>)
    requires
        is_leftmost(hk, nk, a),
    ensures
        forall|b: Seq<int>| #[trigger] is_leftmost(hk, nk, b) ==> b == a,
{
    assert forall|b: Seq<int>| #[trigger] is_leftmost(hk, nk, b) implies b == a by {
        lemma_leftmost_agree(hk, nk, a, b, nk.len() as int);
        assert(b =~= a);
    }
}

/// Two leftmost embeddings agree on their first `m` placements.
proof fn lemma_leftmost_agree(hk: Seq<Seq<char>>, nk: Seq<Seq<char>>, a: Seq<int>, b: Seq<int>, m: int)
    requires
        is_leftmost(hk, nk, a),
        is_leftmost(hk, nk, b),
        0 <= m <= nk.len(),
    ensures
        forall|j: int| 0 <= j < m ==> a[j] == b[j],
    decreases m,
{
    if m > 0 {
        lemma_leftmost_agree(hk, nk, a, b, m - 1);
        let j = m - 1;
        assert(search_from(a, j) == search_from(b, j));
        if a[j] < b[j] {
            assert(hk[a[j]] == nk[j]);
        } else if b[j] < a[j] {
            assert(hk[b[j]] == nk[j]);
        }
    }
}

/// Offsets of the first run of the needle keys among the haystack entries
/// (each an offset and a key); `None` when the needle is empty or does not
/// occur as a contiguous run.
pub fn first_run_match(hay: &[(usize, String)], needle: &[String]) -> (r: Option<Vec<usize>>)
    ensures
        match r {
            Some(v) => first_run_offsets(entry_offsets(hay@), entry_keys(hay@), keys_of(needle@))
                == Some(v@),
            None => first_run_offsets(entry_offsets(hay@), entry_keys(hay@), keys_of(needle@)) is None,
        },
{
    let ghost offs = entry_offsets(hay@);
    let ghost hk = entry_keys(hay@);
    let ghost nk = keys_of(needle@);
    let n = needle.len();
    if n == 0 {
        return None;
    }
    if n > hay.len() {
        assert forall|s: int| !is_first_run(hk, nk, s) by {}
        return None;
    }
    let last = hay.len() - n;
    let mut start: usize = 0;
    while start <= last
        invariant
            offs == entry_offsets(hay@),
            hk == entry_keys(hay@),
            nk == keys_of(needle@),
            n == nk.len() > 0,
            last + n == hk.len(),
            last + n <= usize::MAX,
            start <= last + 1,
            forall|t: int| 0 <= t < start ==> !#[trigger] keys_match_at(hk, nk, t),
        decreases last + 1 - start,
    {
        let mut ok = true;
        let mut i: usize = 0;
        while ok && i < n
            invariant
                hk == entry_keys(hay@),
                nk == keys_of(needle@),
                n == nk.len() > 0,
                last + n == hk.len(),
                last + n <= usize::MAX,
                start <= last,
                i <= n,
                ok ==> forall|j: int| 0 <= j < i ==> #[trigger] hk[start + j] == nk[j],
                !ok ==> !keys_match_at(hk, nk, start as int),
            decreases n - i, (if ok { 1int } else { 0int }),
        {
            if !(hay[start + i].1 == needle[i]) {
                ok = false;
                proof {
                    let j = i as int;
                    assert(hk[start + j] != nk[j]);
                }
            } else {
                i = i + 1;
            }
        }
        if ok {
            let mut out: Vec<usize> = Vec::new();
            let mut k: usize = 0;
            while k < n
                invariant
                    offs == entry_offsets(hay@),
                    n == nk.len(),
                    last + n == hay@.len(),
                    last + n <= usize::MAX,
                    start <= last,
                    k <= n,
                    out@ =~= offs.subrange(start as int, start + k),
                decreases n - k,
            {
                out.push(hay[start + k].0);
                k = k + 1;
            }
            proof {
                assert(is_first_run(hk, nk, start as int));
                lemma_first_run_unique(hk, nk, start as int);
            }
            return Some(out);
        }
        start = start + 1;
    }
    proof {
        assert forall|s: int| !is_first_run(hk, nk, s) by {
            if is_first_run(hk, nk, s) {
                assert(keys_match_at(hk, nk, s));
            }
        }
    }
    None
}

/// Offsets of the leftmost embedding of the needle keys among the haystack
/// entries (each an offset and a key): each needle key takes the first equal
/// haystack key after the previous one. `None` when the needle is empty or
/// not every needle key can be placed.
pub fn leftmost_match(hay: &[(usize, String)], needle: &[String]) -> (r: Option<Vec<usize>>)
    ensures
        match r {
            Some(v) => leftmost_offsets(entry_offsets(hay@), entry_keys(hay@), keys_of(needle@)) == Some(
                v@,
            ),
            None => leftmost_offsets(entry_offsets(hay@), entry_keys(hay@), keys_of(needle@)) is None,
        },
        r is Some <==> needle@.len() > 0 && exists|e: Seq<int>|
            key_embeds(entry_keys(hay@), keys_of(needle@), e),
{
    let ghost offs = entry_offsets(hay@);
    let ghost hk = entry_keys(hay@);
    let ghost nk = keys_of(needle@);
    let n = needle.len();
    if n == 0 {
        return None;
    }
    let hn = hay.len();
    let mut positions: Vec<usize> = Vec::with_capacity(n);
    let mut idx: usize = 0;
    let mut i: usize = 0;
    let ghost mut chosen: Seq<int> = Seq::empty();
    while i < hn && idx < n
        invariant
            offs == entry_offsets(hay@),
            hk == entry_keys(hay@),
            nk == keys_of(needle@),
            n == nk.len() > 0,
            hn == hk.len(),
            i <= hn,
            idx <= n,
            chosen.len() == idx,
            positions@ == offsets_at(offs, chosen),
            forall|j: int| 0 <= j < idx ==> 0 <= #[trigger] chosen[j] < i,
            forall|j: int| 0 <= j < idx ==> hk[#[trigger] chosen[j]] == nk[j],
            forall|j: int, k: int| 0 <= j < k < idx ==> #[trigger] chosen[j] < #[trigger] chosen[k],
            forall|j: int, p: int|
                #![trigger hk[p], nk[j]]
                0 <= j < idx && search_from(chosen, j) <= p < chosen[j] ==> hk[p] != nk[j],
            idx < n ==> forall|p: int|
                search_from(chosen, idx as int) <= p < i ==> #[trigger] hk[p] != nk[idx as int],
            idx < n ==> search_from(chosen, idx as int) <= i,
            forall|e: Seq<int>| #[trigger] key_embeds(hk, nk, e) && idx < n ==> e[idx as int] >= i,
        decreases hn - i,
    {
        if hay[i].1 == needle[idx] {
            positions.push(hay[i].0);
            proof {
                let old_chosen = chosen;
                chosen = chosen.push(i as int);
                assert(search_from(chosen, idx as int) == search_from(old_chosen, idx as int));
                assert forall|j: int| 0 <= j < idx + 1 implies search_from(chosen, j) == search_from(
                    old_chosen,
                    j,
                ) || j == idx by {}
                assert forall|e: Seq<int>| #[trigger] key_embeds(hk, nk, e) && idx + 1 < n implies e[idx
                    + 1] >= i + 1 by {
                    assert(e[idx as int] < e[idx + 1]);
                }
                assert(positions@ =~= offsets_at(offs, chosen));
            }
            idx = idx + 1;
        } else {
            proof {
                assert(hk[i as int] != nk[idx as int]);
                assert forall|e: Seq<int>| #[trigger] key_embeds(hk, nk, e) && idx < n implies e[idx as int]
                    >= i + 1 by {
                    assert(hk[e[idx as int]] == nk[idx as int]);
                }
            }
        }
        i = i + 1;
    }
    if idx == n {
        proof {
            assert(is_leftmost(hk, nk, chosen));
            lemma_leftmost_unique(hk, nk, chosen);
        }
        Some(positions)
    } else {
        proof {
            assert forall|e: Seq<int>| !key_embeds(hk, nk, e) by {
                if key_embeds(hk, nk, e) {
                    assert(e[idx as int] < hk.len());
                }
            }
            assert forall|e: Seq<int>| !is_leftmost(hk, nk, e) by {
                if is_leftmost(hk, nk, e) {
                    assert(key_embeds(hk, nk, e));
                }
            }
        }
        None
    }
}

// ---------------------------------------------------------------------------
// Matching on text
// ---------------------------------------------------------------------------

/// The lowercase mapping of each character of `s`.
pub open spec fn lowered_keys(s: Seq<char>) -> Seq<Seq<char>> {
    s.map_values(|c: char| char_lowercase(c))
}

/// The byte offset of each character of `s`.
pub open spec fn char_offsets(s: Seq<char>) -> Seq<usize> {
    Seq::new(s.len(), |i: int| byte_offset(s, i) as usize)
}

/// What `substring_match_ci` returns: `None` for an empty needle or when the
/// needle does not occur case-insensitively as a contiguous run, else the
/// byte offsets of the characters of its first occurrence.
pub open spec fn substring_result(hay: Seq<char>, needle: Seq<char>) -> Option<Seq<usize>> {
    first_run_offsets(char_offsets(hay), lowered_keys(hay), lowered_keys(needle))
}

/// What `subseq_match_ci` returns: `None` for an empty needle or when the
/// needle is not a case-insensitive subsequence, else the byte offsets of
/// the characters of its leftmost embedding.
pub open spec fn subseq_result(hay: Seq<char>, needle: Seq<char>) -> Option<Seq<usize>> {
    leftmost_offsets(char_offsets(hay), lowered_keys(hay), lowered_keys(needle))
}

/// `needle` is a case-insensitive subsequence of `hay`.
pub open spec fn is_subsequence_ci(hay: Seq<char>, needle: Seq<char>) -> bool {
    exists|idx: Seq<int>| key_embeds(lowered_keys(hay), lowered_keys(needle), idx)
}

/// Every character of `s`, lowercased, with its byte offset in `s`.
fn lowered_with_offsets(s: &str) -> (r: Vec<(usize, String)>)
    requires
        encode_utf8(s@).len() <= usize::MAX,
    ensures
        entry_offsets(r@) == char_offsets(s@),
        entry_keys(r@) == lowered_keys(s@),
{
    let mut r: Vec<(usize, String)> = Vec::new();
    let mut b: usize = 0;
    for c in it: s.chars()
        invariant
            it.seq() == s@,
            r@.len() == it.index(),
            b == byte_offset(s@, it.index() as int),
            encode_utf8(s@).len() <= usize::MAX,
            forall|i: int|
                0 <= i < r@.len() ==> (#[trigger] r@[i]).0 == byte_offset(s@, i) && r@[i].1@
                    == char_lowercase(s@[i]),
    {
        let ghost i = it.index() as int;
        let w = utf8_width(c);
        proof {
            lemma_byte_offset_step(s@, i);
            lemma_byte_offset_monotone(s@, i + 1, s@.len() as int);
            assert(s@.take(s@.len() as int) =~= s@);
        }
        r.push((b, lowercase_of(c)));
        b = b + w;
    }
    assert(entry_offsets(r@) =~= char_offsets(s@));
    assert(entry_keys(r@) =~= lowered_keys(s@));
    r
}

/// Every character of `s`, lowercased.
fn lowered(s: &str) -> (r: Vec<String>)
    ensures
        keys_of(r@) == lowered_keys(s@),
{
    let mut r: Vec<String> = Vec::new();
    for c in it: s.chars()
        invariant
            it.seq() == s@,
            r@.len() == it.index(),
            forall|i: int| 0 <= i < r@.len() ==> (#[trigger] r@[i])@ == char_lowercase(s@[i]),
    {
        r.push(lowercase_of(c));
    }
    assert(keys_of(r@) =~= lowered_keys(s@));
    r
}

/// Returns byte offsets in `haystack` of the first case-insensitive
/// contiguous match of `needle`; `None` when `needle` is empty or does not
/// occur as a contiguous run. Multi-word needles match the literal phrase,
/// whitespace included.
pub fn substring_match_ci(haystack: &str, needle: &str) -> (r: Option<Vec<usize>>)
    requires
        encode_utf8(haystack@).len() <= usize::MAX,
    ensures
        match r {
            Some(v) => substring_result(haystack@, needle@) == Some(v@),
            None => substring_result(haystack@, needle@) is None,
        },
{
    if needle.is_empty() {
        return None;
    }
    let needle_chars = lowered(needle);
    let haystack_chars = lowered_with_offsets(haystack);
    first_run_match(haystack_chars.as_slice(), needle_chars.as_slice())
}

/// Returns byte offsets in `haystack` where each character of `needle` is
/// matched in order, case-insensitively, with gaps allowed (each needle
/// character taking the first matching haystack character after the previous
/// one). `None` when `needle` is empty or not every needle character can be
/// matched.
pub fn subseq_match_ci(haystack: &str, needle: &str) -> (r: Option<Vec<usize>>)
    requires
        encode_utf8(haystack@).len() <= usize::MAX,
    ensures
        match r {
            Some(v) => subseq_result(haystack@, needle@) == Some(v@),
            None => subseq_result(haystack@, needle@) is None,
        },
        r is Some <==> needle@.len() > 0 && is_subsequence_ci(haystack@, needle@),
{
    if needle.is_empty() {
        return None;
    }
    let needle_lower = lowered(needle);
    let haystack_chars = lowered_with_offsets(haystack);
    leftmost_match(haystack_chars.as_slice(), needle_lower.as_slice())
}

// ---------------------------------------------------------------------------
// Laws
// ---------------------------------------------------------------------------

/// First position in `lo..=hi` holding key `c`, given that position `hi` does.
proof fn lemma_first_from(hk: Seq<Seq<char>>, c: Seq<char>, lo: int, hi: int) -> (p: int)
    requires
        0 <= lo <= hi < hk.len(),
        hk[hi] == c,
    ensures
        lo <= p <= hi,
        hk[p] == c,
        forall|q: int| lo <= q < p ==> #[trigger] hk[q] != c,
    decreases hi - lo,
{
    if hk[lo] == c {
        lo
    } else {
        lemma_first_from(hk, c, lo + 1, hi)
    }
}

/// From any embedding, a leftmost embedding of each needle prefix that places
/// its last key no later than the given embedding does.
proof fn lemma_leftmost_prefix(hk: Seq<Seq<char>>, nk: Seq<Seq<char>>, e: Seq<int>, m: int) -> (l: Seq<
    int,
>)
    requires
        key_embeds(hk, nk, e),
        0 <= m <= nk.len(),
    ensures
        is_leftmost(hk, nk.take(m), l),
        m > 0 ==> l[m - 1] <= e[m - 1],
    decreases m,
{
    if m == 0 {
        let l = Seq::<int>::empty();
        assert(is_leftmost(hk, nk.take(0), l));
        l
    } else {
        let prev = lemma_leftmost_prefix(hk, nk, e, m - 1);
        let lo = search_from(prev, m - 1);
        if m >= 2 {
            assert(e[m - 2] < e[m - 1]);
        }
        assert(hk[e[m - 1]] == nk[m - 1]);
        let p = lemma_first_from(hk, nk[m - 1], lo, e[m - 1]);
        let l = prev.push(p);
        let nt = nk.take(m);
        let pt = nk.take(m - 1);
        assert forall|j: int| 0 <= j < m - 1 implies #[trigger] nt[j] == pt[j] by {}
        assert forall|j: int| 0 <= j < m - 1 implies search_from(l, j) == search_from(prev, j) by {}
        assert(search_from(l, m - 1) == lo);
        assert forall|j: int| 0 <= j < l.len() implies hk[#[trigger] l[j]] == nt[j] by {
            if j < m - 1 {
                assert(hk[prev[j]] == pt[j]);
            }
        }
        assert forall|j: int, q: int|
            #![trigger hk[q], nt[j]]
            0 <= j < l.len() && search_from(l, j) <= q < l[j] implies hk[q] != nt[j] by {
            if j < m - 1 {
                assert(hk[q] != pt[j]);
            }
        }
        assert forall|j: int, k: int| 0 <= j < k < l.len() implies #[trigger] l[j] < #[trigger] l[k] by {
            if k < m - 1 {
                assert(prev[j] < prev[k]);
            } else if j < m - 2 {
                assert(prev[j] < prev[m - 2]);
            }
        }
        assert(key_embeds(hk, nt, l));
        l
    }
}

/// Whenever the needle keys embed at all, a leftmost embedding exists.
pub proof fn lemma_leftmost_exists(hk: Seq<Seq<char>>, nk: Seq<Seq<char>>, e: Seq<int>)
    requires
        key_embeds(hk, nk, e),
    ensures
        exists|l: Seq<int>| is_leftmost(hk, nk, l),
{
    let l = lemma_leftmost_prefix(hk, nk, e, nk.len() as int);
    assert(nk.take(nk.len() as int) =~= nk);
}

/// The subsequence matcher succeeds exactly when the needle is non-empty and
/// is a case-insensitive subsequence of the haystack.
pub proof fn law_subseq_matches_iff_subsequence(hay: Seq<char>, needle: Seq<char>)
    ensures
        subseq_result(hay, needle) is Some <==> needle.len() > 0 && is_subsequence_ci(hay, needle),
{
    let hk = lowered_keys(hay);
    let nk = lowered_keys(needle);
    if needle.len() > 0 && is_subsequence_ci(hay, needle) {
        let e = choose|e: Seq<int>| key_embeds(hk, nk, e);
        lemma_leftmost_exists(hk, nk, e);
    }
    if subseq_result(hay, needle) is Some {
        let l = choose|l: Seq<int>| is_leftmost(hk, nk, l);
        assert(key_embeds(hk, nk, l));
    }
}

/// A contiguous match is in particular a match with gaps: whenever the
/// substring matcher finds the needle, the subsequence matcher does too.
pub proof fn law_substring_match_implies_subseq_match(hay: Seq<char>, needle: Seq<char>)
    ensures
        substring_result(hay, needle) is Some ==> subseq_result(hay, needle) is Some,
{
    let hk = lowered_keys(hay);
    let nk = lowered_keys(needle);
    if substring_result(hay, needle) is Some {
        let s = choose|s: int| is_first_run(hk, nk, s);
        let e = Seq::new(nk.len(), |k: int| s + k);
        assert forall|j: int| 0 <= j < e.len() implies hk[#[trigger] e[j]] == nk[j] by {
            assert(hk[s + j] == nk[j]);
        }
        assert(key_embeds(hk, nk, e));
        law_subseq_matches_iff_subsequence(hay, needle);
    }
}

/// Only the lowercase mapping of the needle matters: needles whose characters
/// agree case-insensitively get the same result from both matchers.
pub proof fn law_needle_case_is_ignored(hay: Seq<char>, n1: Seq<char>, n2: Seq<char>)
    requires
        n1.len() == n2.len(),
        forall|j: int| 0 <= j < n1.len() ==> char_lowercase(#[trigger] n1[j]) == char_lowercase(n2[j]),
    ensures
        substring_result(hay, n1) == substring_result(hay, n2),
        subseq_result(hay, n1) == subseq_result(hay, n2),
{
    assert(lowered_keys(n1) =~= lowered_keys(n2));
}

/// Only the lowercase mapping of the haystack matters, given the same byte
/// layout: haystacks whose characters agree case-insensitively and sit at the
/// same byte offsets (such as any two ASCII spellings) give the same results.
pub proof fn law_haystack_case_is_ignored(h1: Seq<char>, h2: Seq<char>, needle: Seq<char>)
    requires
        lowered_keys(h1) == lowered_keys(h2),
        char_offsets(h1) == char_offsets(h2),
    ensures
        substring_result(h1, needle) == substring_result(h2, needle),
        subseq_result(h1, needle) == subseq_result(h2, needle),
{
}

/// A needle with more characters than the haystack matches nowhere.
pub proof fn law_longer_needle_never_matches(hay: Seq<char>, needle: Seq<char>)
    requires
        needle.len() > hay.len(),
    ensures
        substring_result(hay, needle) is None,
        subseq_result(hay, needle) is None,
{
    let hk = lowered_keys(hay);
    let nk = lowered_keys(needle);
    if exists|idx: Seq<int>| is_leftmost(hk, nk, idx) {
        let idx = choose|idx: Seq<int>| is_leftmost(hk, nk, idx);
        lemma_embedding_fits(hk, nk, idx, nk.len() as int);
    }
}

/// The first `m` placements of an embedding lie at or beyond `m - 1`.
proof fn lemma_embedding_fits(hk: Seq<Seq<char>>, nk: Seq<Seq<char>>, idx: Seq<int>, m: int)
    requires
        key_embeds(hk, nk, idx),
        1 <= m <= nk.len(),
    ensures
        idx[m - 1] >= m - 1,
    decreases m,
{
    if m > 1 {
        lemma_embedding_fits(hk, nk, idx, m - 1);
        assert(idx[m - 2] < idx[m - 1]);
    }
}

/// Every byte offset that either matcher returns is a character boundary of
/// the haystack's UTF-8 encoding (so the haystack can be sliced there), and
/// the offsets strictly increase.
pub proof fn law_offsets_are_increasing_char_boundaries(hay: Seq<char>, needle: Seq<char>)
    requires
        encode_utf8(hay).len() <= usize::MAX,
    ensures
        substring_result(hay, needle) matches Some(v) ==> {
            &&& forall|k: int|
                0 <= k < v.len() ==> is_char_boundary(encode_utf8(hay), #[trigger] v[k] as int)
            &&& forall|j: int, k: int| 0 <= j < k < v.len() ==> #[trigger] v[j] < #[trigger] v[k]
        },
        subseq_result(hay, needle) matches Some(v) ==> {
            &&& forall|k: int|
                0 <= k < v.len() ==> is_char_boundary(encode_utf8(hay), #[trigger] v[k] as int)
            &&& forall|j: int, k: int| 0 <= j < k < v.len() ==> #[trigger] v[j] < #[trigger] v[k]
        },
{
    let hk = lowered_keys(hay);
    let nk = lowered_keys(needle);
    let offs = char_offsets(hay);
    assert(hay.take(hay.len() as int) =~= hay);
    assert forall|i: int| 0 <= i < hay.len() implies #[trigger] offs[i] == byte_offset(hay, i)
        && is_char_boundary(encode_utf8(hay), offs[i] as int) by {
        lemma_byte_offset_monotone(hay, i, hay.len() as int);
        lemma_byte_offset_is_char_boundary(hay, i);
    }
    assert forall|i: int, k: int| 0 <= i < k < hay.len() implies #[trigger] offs[i] < #[trigger] offs[k] by {
        lemma_byte_offset_monotone(hay, i, k);
        lemma_byte_offset_monotone(hay, k, hay.len() as int);
    }
    if substring_result(hay, needle) is Some {
        let s = choose|s: int| is_first_run(hk, nk, s);
        let v = offs.subrange(s, s + nk.len());
        assert forall|k: int| 0 <= k < v.len() implies is_char_boundary(
            encode_utf8(hay),
            #[trigger] v[k] as int,
        ) by {
            assert(v[k] == offs[s + k]);
        }
        assert forall|j: int, k: int| 0 <= j < k < v.len() implies #[trigger] v[j] < #[trigger] v[k] by {
            assert(v[j] == offs[s + j] && v[k] == offs[s + k]);
        }
    }
    if subseq_result(hay, needle) is Some {
        let idx = choose|idx: Seq<int>| is_leftmost(hk, nk, idx);
        let v = offsets_at(offs, idx);
        assert forall|k: int| 0 <= k < v.len() implies is_char_boundary(
            encode_utf8(hay),
            #[trigger] v[k] as int,
        ) by {
            assert(0 <= idx[k] < hay.len());
        }
        assert forall|j: int, k: int| 0 <= j < k < v.len() implies #[trigger] v[j] < #[trigger] v[k] by {
            assert(idx[j] < idx[k]);
            assert(0 <= idx[j] && idx[k] < hay.len());
        }
    }
}

/// The leftmost embedding places each needle key no later than any other
/// embedding does.
proof fn lemma_leftmost_is_earliest(hk: Seq<Seq<char>>, nk: Seq<Seq<char>>, l: Seq<int>, e: Seq<int>, j: int)
    requires
        is_leftmost(hk, nk, l),
        key_embeds(hk, nk, e),
        0 <= j < nk.len(),
    ensures
        l[j] <= e[j],
    decreases j,
{
    if j > 0 {
        lemma_leftmost_is_earliest(hk, nk, l, e, j - 1);
        assert(e[j - 1] < e[j]);
    }
    if e[j] < l[j] {
        assert(hk[e[j]] == nk[j]);
    }
}

/// The byte offsets of a haystack's characters do not decrease.
proof fn lemma_char_offsets_monotone(hay: Seq<char>, i: int, j: int)
    requires
        encode_utf8(hay).len() <= usize::MAX,
        0 <= i <= j < hay.len(),
    ensures
        char_offsets(hay)[i] <= char_offsets(hay)[j],
{
    assert(hay.take(hay.len() as int) =~= hay);
    lemma_byte_offset_monotone(hay, i, j);
    lemma_byte_offset_monotone(hay, j, hay.len() as int);
}

/// On keys: the leftmost embedding's offsets are each no later than those of
/// the first run.
proof fn lemma_leftmost_offsets_not_later(
    offs: Seq<usize>,
    hk: Seq<Seq<char>>,
    nk: Seq<Seq<char>>,
    s: int,
    l: Seq<int>,
)
    requires
        offs.len() == hk.len(),
        forall|i: int, j: int| 0 <= i <= j < offs.len() ==> #[trigger] offs[i] <= #[trigger] offs[j],
        is_first_run(hk, nk, s),
        is_leftmost(hk, nk, l),
    ensures
        forall|i: int|
            0 <= i < nk.len() ==> #[trigger] offsets_at(offs, l)[i] <= offs.subrange(s, s + nk.len())[i],
{
    let e = Seq::new(nk.len(), |k: int| s + k);
    assert forall|j: int| 0 <= j < e.len() implies hk[#[trigger] e[j]] == nk[j] by {
        assert(hk[s + j] == nk[j]);
    }
    assert(key_embeds(hk, nk, e));
    assert forall|i: int| 0 <= i < nk.len() implies #[trigger] offsets_at(offs, l)[i] <= offs.subrange(
        s,
        s + nk.len(),
    )[i] by {
        lemma_leftmost_is_earliest(hk, nk, l, e, i);
        assert(offs[l[i]] <= offs[s + i]);
    }
}

/// Whenever the substring matcher finds the needle, the subsequence matcher
/// finds it too, at offsets that are each no later than the substring
/// matcher's.
pub proof fn law_subseq_offsets_are_never_later(hay: Seq<char>, needle: Seq<char>)
    requires
        encode_utf8(hay).len() <= usize::MAX,
    ensures
        substring_result(hay, needle) matches Some(w) ==> {
            &&& subseq_result(hay, needle) matches Some(v)
            &&& v.len() == w.len()
            &&& forall|i: int| 0 <= i < v.len() ==> #[trigger] v[i] <= w[i]
        },
{
    let hk = lowered_keys(hay);
    let nk = lowered_keys(needle);
    let offs = char_offsets(hay);
    if substring_result(hay, needle) is Some {
        law_substring_match_implies_subseq_match(hay, needle);
        let s = choose|s: int| is_first_run(hk, nk, s);
        let l = choose|l: Seq<int>| is_leftmost(hk, nk, l);
        assert forall|i: int, j: int| 0 <= i <= j < offs.len() implies #[trigger] offs[i] <= #[trigger] offs[j] by {
            lemma_char_offsets_monotone(hay, i, j);
        }
        lemma_leftmost_offsets_not_later(offs, hk, nk, s, l);
    }
}

/// The needle's characters occur from haystack position `s` on, each equal
/// to the haystack's character there under the Unicode lowercase mapping.
pub open spec fn ci_run_at(hay: Seq<char>, needle: Seq<char>, s: int) -> bool {
    &&& 0 <= s
    &&& s + needle.len() <= hay.len()
    &&& forall|j: int| 0 <= j < needle.len() ==> char_lowercase(#[trigger] hay[s + j]) == char_lowercase(needle[j])
}

/// What the substring matcher answers, in terms of the characters: a result
/// is the byte offsets of the first run of haystack characters that equal
/// the needle's case-insensitively, character by character (so, among ASCII
/// characters, only a character and its other case match); no result means
/// an empty needle or no such run anywhere.
pub proof fn law_substring_match_is_first_case_insensitive_run(hay: Seq<char>, needle: Seq<char>)
    requires
        encode_utf8(hay).len() <= usize::MAX,
    ensures
        substring_result(hay, needle) matches Some(v) ==> {
            &&& needle.len() > 0
            &&& v.len() == needle.len()
            &&& exists|s: int|
                {
                    &&& #[trigger] ci_run_at(hay, needle, s)
                    &&& forall|t: int| 0 <= t < s ==> !ci_run_at(hay, needle, t)
                    &&& forall|j: int| 0 <= j < v.len() ==> #[trigger] v[j] as int == byte_offset(hay, s + j)
                }
        },
        substring_result(hay, needle) is None ==> needle.len() == 0 || forall|s: int| !#[trigger] ci_run_at(hay, needle, s),
{
    let hk = lowered_keys(hay);
    let nk = lowered_keys(needle);
    assert forall|s: int| ci_run_at(hay, needle, s) <==> keys_match_at(hk, nk, s) by {
        if ci_run_at(hay, needle, s) {
            assert forall|j: int| 0 <= j < nk.len() implies #[trigger] hk[s + j] == nk[j] by {
                assert(char_lowercase(hay[s + j]) == char_lowercase(needle[j]));
            }
        }
        if keys_match_at(hk, nk, s) {
            assert forall|j: int| 0 <= j < needle.len() implies char_lowercase(#[trigger] hay[s + j])
                == char_lowercase(needle[j]) by {
                assert(hk[s + j] == nk[j]);
            }
        }
    }
    if substring_result(hay, needle) is Some {
        let s = choose|s: int| is_first_run(hk, nk, s);
        let v = char_offsets(hay).subrange(s, s + nk.len());
        assert forall|j: int| 0 <= j < v.len() implies #[trigger] v[j] as int == byte_offset(hay, s + j) by {
            assert(hay.take(hay.len() as int) =~= hay);
            lemma_byte_offset_monotone(hay, s + j, hay.len() as int);
        }
        assert(ci_run_at(hay, needle, s));
    } else if needle.len() > 0 {
        assert forall|s: int| !#[trigger] ci_run_at(hay, needle, s) by {
            if ci_run_at(hay, needle, s) {
                lemma_first_run_exists(hk, nk, s);
            }
        }
    }
}

/// A run of the needle keys somewhere means a first one exists.
proof fn lemma_first_run_exists(hk: Seq<Seq<char>>, nk: Seq<Seq<char>>, s: int)
    requires
        keys_match_at(hk, nk, s),
    ensures
        exists|f: int| is_first_run(hk, nk, f),
    decreases s,
{
    if forall|t: int| 0 <= t < s ==> !#[trigger] keys_match_at(hk, nk, t) {
        assert(is_first_run(hk, nk, s));
    } else {
        let t = choose|t: int| 0 <= t < s && #[trigger] keys_match_at(hk, nk, t);
        lemma_first_run_exists(hk, nk, t);
    }
}

/// What the subsequence matcher answers, in terms of the characters: a
/// result is the byte offsets of increasing haystack positions whose
/// characters equal the needle's case-insensitively, one by one, each the
/// first such position after the previous one.
pub proof fn law_subseq_match_is_leftmost_case_insensitive_embedding(hay: Seq<char>, needle: Seq<char>)
    requires
        encode_utf8(hay).len() <= usize::MAX,
    ensures
        subseq_result(hay, needle) matches Some(v) ==> {
            &&& needle.len() > 0
            &&& v.len() == needle.len()
            &&& exists|idx: Seq<int>|
                {
                    &&& #[trigger] idx.len() == needle.len()
                    &&& forall|j: int| 0 <= j < idx.len() ==> 0 <= #[trigger] idx[j] < hay.len()
                    &&& forall|j: int| 0 <= j < idx.len() ==> char_lowercase(hay[#[trigger] idx[j]]) == char_lowercase(needle[j])
                    &&& forall|j: int, k: int| 0 <= j < k < idx.len() ==> #[trigger] idx[j] < #[trigger] idx[k]
                    &&& forall|j: int, p: int|
                        0 <= j < idx.len() && (if j == 0 { 0 } else { idx[j - 1] + 1 }) <= p < idx[j]
                            ==> char_lowercase(#[trigger] hay[p]) != char_lowercase(#[trigger] needle[j])
                    &&& forall|j: int| 0 <= j < v.len() ==> #[trigger] v[j] as int == byte_offset(hay, idx[j])
                }
        },
{
    let hk = lowered_keys(hay);
    let nk = lowered_keys(needle);
    if subseq_result(hay, needle) is Some {
        let idx = choose|idx: Seq<int>| is_leftmost(hk, nk, idx);
        let v = offsets_at(char_offsets(hay), idx);
        assert forall|j: int| 0 <= j < idx.len() implies char_lowercase(hay[#[trigger] idx[j]]) == char_lowercase(
            needle[j],
        ) by {
            assert(hk[idx[j]] == nk[j]);
        }
        assert forall|j: int, p: int|
            0 <= j < idx.len() && (if j == 0 { 0 } else { idx[j - 1] + 1 }) <= p < idx[j]
                implies char_lowercase(#[trigger] hay[p]) != char_lowercase(#[trigger] needle[j]) by {
            assert(search_from(idx, j) <= p);
            assert(hk[p] != nk[j]);
        }
        assert forall|j: int| 0 <= j < v.len() implies #[trigger] v[j] as int == byte_offset(hay, idx[j]) by {
            assert(hay.take(hay.len() as int) =~= hay);
            lemma_byte_offset_monotone(hay, idx[j], hay.len() as int);
        }
    }
}

} // verus!
