//! Tallies of names: each distinct name once, with how often it occurs,
//! ordered the way the filter sidebar lists projects and contexts (count
//! descending, then name ascending).
use vstd::prelude::*;

use crate::text::{
    lemma_lex_asymmetric, lemma_lex_irreflexive, lemma_lex_total, lemma_lex_transitive, lex_lt, str_lt,
};
use crate::todo::strings_view;

verus! {

/// All names of all lists, in order, repeats kept.
pub open spec fn concat_all(ls: Seq<Seq<Seq<char>>>) -> Seq<Seq<char>>
    decreases ls.len(),
{
    if ls.len() == 0 {
        Seq::empty()
    } else {
        concat_all(ls.drop_last()) + ls.last()
    }
}

/// The views of a sequence of string lists.
pub open spec fn lists_view(lists: Seq<&Vec<String>>) -> Seq<Seq<Seq<char>>> {
    lists.map_values(|v: &Vec<String>| strings_view(*v))
}

/// The names of a prefix of the lists never outnumber those of all lists.
proof fn lemma_concat_all_prefix(ls: Seq<Seq<Seq<char>>>, m: int)
    requires
        0 <= m <= ls.len(),
    ensures
        concat_all(ls.take(m)).len() <= concat_all(ls).len(),
    decreases ls.len() - m,
{
    if m < ls.len() {
        lemma_concat_all_prefix(ls, m + 1);
        assert(ls.take(m + 1).drop_last() =~= ls.take(m));
    } else {
        assert(ls.take(m) =~= ls);
    }
}

/// How often `x` occurs in `vals`.
pub open spec fn occurrences(vals: Seq<Seq<char>>, x: Seq<char>) -> nat
    decreases vals.len(),
{
    if vals.len() == 0 {
        0
    } else {
        occurrences(vals.drop_last(), x) + if vals.last() == x {
            1nat
        } else {
            0nat
        }
    }
}

/// The sidebar order of (name, count) entries: count descending, then name
/// ascending.
pub open spec fn entry_before(a: (Seq<char>, nat), b: (Seq<char>, nat)) -> bool {
    a.1 > b.1 || (a.1 == b.1 && lex_lt(a.0, b.0))
}

/// The view of a tally.
pub open spec fn tally_view(v: Seq<(String, usize)>) -> Seq<(Seq<char>, nat)> {
    v.map_values(|e: (String, usize)| (e.0@, e.1 as nat))
}

/// `out` lists every name of `vals` once with its number of occurrences, in
/// sidebar order.
pub open spec fn is_ordered_tally(out: Seq<(Seq<char>, nat)>, vals: Seq<Seq<char>>) -> bool {
    &&& forall|k: int|
        0 <= k < out.len() ==> (#[trigger] out[k]).1 == occurrences(vals, out[k].0) && vals.contains(
            out[k].0,
        )
    &&& forall|x: Seq<char>| vals.contains(x) ==> exists|k: int| 0 <= k < out.len() && (#[trigger] out[k]).0 == x
    &&& forall|j: int, k: int| 0 <= j < k < out.len() ==> entry_before(#[trigger] out[j], #[trigger] out[k])
}

/// One more name adds one occurrence of itself and none of any other.
proof fn lemma_occurrences_push(vals: Seq<Seq<char>>, v: Seq<char>, x: Seq<char>)
    ensures
        occurrences(vals.push(v), x) == occurrences(vals, x) + if v == x {
            1nat
        } else {
            0nat
        },
{
    assert(vals.push(v).drop_last() =~= vals);
}

/// A name occurs at most as often as there are names, and occurs at all
/// exactly when it is among them.
proof fn lemma_occurrences_bound(vals: Seq<Seq<char>>, x: Seq<char>)
    ensures
        occurrences(vals, x) <= vals.len(),
        vals.contains(x) <==> occurrences(vals, x) > 0,
    decreases vals.len(),
{
    if vals.len() > 0 {
        lemma_occurrences_bound(vals.drop_last(), x);
        if vals.drop_last().contains(x) {
            let i = choose|i: int| 0 <= i < vals.drop_last().len() && vals.drop_last()[i] == x;
            assert(vals[i] == x);
        }
        if vals.contains(x) && vals.last() != x {
            let i = choose|i: int| 0 <= i < vals.len() && vals[i] == x;
            assert(vals.drop_last()[i] == x);
        }
    }
}

/// Two entries with different names are ordered one way or the other.
proof fn lemma_entry_total(a: (Seq<char>, nat), b: (Seq<char>, nat))
    requires
        a.0 != b.0,
    ensures
        entry_before(a, b) || entry_before(b, a),
{
    lemma_lex_total(a.0, b.0);
}

/// The sidebar order is transitive.
proof fn lemma_entry_transitive(a: (Seq<char>, nat), b: (Seq<char>, nat), c: (Seq<char>, nat))
    requires
        entry_before(a, b),
        entry_before(b, c),
    ensures
        entry_before(a, c),
{
    if a.1 == b.1 && b.1 == c.1 {
        lemma_lex_transitive(a.0, b.0, c.0);
    }
}

/// The sidebar order is asymmetric.
proof fn lemma_entry_asymmetric(a: (Seq<char>, nat), b: (Seq<char>, nat))
    ensures
        !(entry_before(a, b) && entry_before(b, a)),
{
    lemma_lex_asymmetric(a.0, b.0);
}

/// The names of all lists, each once with how often it occurs, in no
/// particular order.
fn tally(lists: &[&Vec<String>]) -> (r: Vec<(String, usize)>)
    requires
        concat_all(lists_view(lists@)).len() <= usize::MAX,
    ensures
        forall|k: int|
            0 <= k < r@.len() ==> (#[trigger] tally_view(r@)[k]).1 == occurrences(
                concat_all(lists_view(lists@)),
                tally_view(r@)[k].0,
            ) && concat_all(lists_view(lists@)).contains(tally_view(r@)[k].0),
        forall|x: Seq<char>|
            concat_all(lists_view(lists@)).contains(x) ==> exists|k: int|
                0 <= k < r@.len() && (#[trigger] tally_view(r@)[k]).0 == x,
        forall|j: int, k: int|
            0 <= j < k < r@.len() ==> (#[trigger] tally_view(r@)[j]).0 != (
            #[trigger] tally_view(r@)[k]).0,
{
    let ghost all = concat_all(lists_view(lists@));
    let mut counts: Vec<(String, usize)> = Vec::new();
    let ghost mut seen: Seq<Seq<char>> = Seq::empty();
    let mut i: usize = 0;
    assert(lists_view(lists@).take(0) =~= Seq::<Seq<Seq<char>>>::empty());
    while i < lists.len()
        invariant
            all == concat_all(lists_view(lists@)),
            all.len() <= usize::MAX,
            i <= lists@.len(),
            seen == concat_all(lists_view(lists@).take(i as int)),
            forall|k: int|
                0 <= k < counts@.len() ==> (#[trigger] tally_view(counts@)[k]).1 == occurrences(
                    seen,
                    tally_view(counts@)[k].0,
                ) && seen.contains(tally_view(counts@)[k].0),
            forall|x: Seq<char>|
                seen.contains(x) ==> exists|k: int|
                    0 <= k < counts@.len() && (#[trigger] tally_view(counts@)[k]).0 == x,
            forall|j: int, k: int|
                0 <= j < k < counts@.len() ==> (#[trigger] tally_view(counts@)[j]).0 != (
                #[trigger] tally_view(counts@)[k]).0,
        decreases lists.len() - i,
    {
        let names: &Vec<String> = lists[i];
        proof {
            let lv = lists_view(lists@);
            assert(lv.take(i + 1).drop_last() =~= lv.take(i as int));
            assert(lv.take(i + 1).last() == lv[i as int]);
            lemma_concat_all_prefix(lv, i + 1);
        }
        {
            let ghost base = seen;
            let mut j: usize = 0;
            while j < names.len()
                invariant
                    all == concat_all(lists_view(lists@)),
                    all.len() <= usize::MAX,
                    i < lists@.len(),
                    base + strings_view(*names) == concat_all(lists_view(lists@).take(i + 1)),
                    concat_all(lists_view(lists@).take(i + 1)).len() <= all.len(),
                    j <= names@.len(),
                    seen == base + strings_view(*names).take(j as int),
                    forall|k: int|
                        0 <= k < counts@.len() ==> (#[trigger] tally_view(counts@)[k]).1 == occurrences(
                            seen,
                            tally_view(counts@)[k].0,
                        ) && seen.contains(tally_view(counts@)[k].0),
                    forall|x: Seq<char>|
                        seen.contains(x) ==> exists|k: int|
                            0 <= k < counts@.len() && (#[trigger] tally_view(counts@)[k]).0 == x,
                    forall|j1: int, k: int|
                        0 <= j1 < k < counts@.len() ==> (#[trigger] tally_view(counts@)[j1]).0 != (
                        #[trigger] tally_view(counts@)[k]).0,
                decreases names.len() - j,
            {
                let v = &names[j];
                let ghost old_seen = seen;
                let ghost old_counts = tally_view(counts@);
                proof {
                    assert(strings_view(*names).take(j + 1) =~= strings_view(*names).take(j as int).push(v@));
                    seen = seen.push(v@);
                    assert(seen.len() <= all.len()) by {
                        assert(seen.len() <= (base + strings_view(*names)).len());
                    }
                }
                let mut k: usize = 0;
                let mut found = false;
                while k < counts.len() && !found
                    invariant
                        k <= counts@.len(),
                        !found ==> forall|q: int| 0 <= q < k ==> (#[trigger] counts@[q]).0@ != v@,
                        found ==> k > 0 && counts@[k - 1].0@ == v@,
                    decreases counts.len() - k, (if found { 0int } else { 1int }),
                {
                    if counts[k].0 == *v {
                        found = true;
                    }
                    k = k + 1;
                }
                if found {
                    let q = k - 1;
                    let c = counts[q].1;
                    proof {
                        lemma_occurrences_push(old_seen, v@, v@);
                        lemma_occurrences_bound(seen, v@);
                        assert(old_counts[q as int].0 == v@);
                    }
                    let name = counts[q].0.clone();
                    assert(name@ == v@);
                    counts.set(q, (name, c + 1));
                    proof {
                        assert(tally_view(counts@)[q as int].0 == v@);
                        assert forall|m: int| 0 <= m < counts@.len() implies (#[trigger] tally_view(counts@)[m]).0
                            == old_counts[m].0 by {}
                        assert forall|m: int| 0 <= m < counts@.len() implies (#[trigger] tally_view(counts@)[m]).1
                            == occurrences(seen, tally_view(counts@)[m].0) && seen.contains(
                            tally_view(counts@)[m].0,
                        ) by {
                            lemma_occurrences_push(old_seen, v@, tally_view(counts@)[m].0);
                            assert(seen[seen.len() - 1] == v@);
                            if m != q {
                                assert(tally_view(counts@)[m] == old_counts[m]);
                                let w = choose|w: int| 0 <= w < old_seen.len() && old_seen[w] == old_counts[m].0;
                                assert(seen[w] == old_seen[w]);
                            }
                        }
                        assert forall|x: Seq<char>| seen.contains(x) implies exists|m: int|
                            0 <= m < counts@.len() && (#[trigger] tally_view(counts@)[m]).0 == x by {
                            let w = choose|w: int| 0 <= w < seen.len() && seen[w] == x;
                            if w < old_seen.len() {
                                assert(old_seen[w] == x);
                                assert(old_seen.contains(x));
                                let m = choose|m: int| 0 <= m < old_counts.len() && (#[trigger] old_counts[m]).0 == x;
                                assert(tally_view(counts@)[m].0 == x);
                            } else {
                                assert(tally_view(counts@)[q as int].0 == x);
                            }
                        }
                        assert forall|j1: int, m: int| 0 <= j1 < m < counts@.len() implies (
                        #[trigger] tally_view(counts@)[j1]).0 != (#[trigger] tally_view(counts@)[m]).0 by {
                            assert(old_counts[j1].0 != old_counts[m].0);
                        }
                    }
                } else {
                    let name = v.clone();
                    counts.push((name, 1));
                    proof {
                        lemma_occurrences_push(old_seen, v@, v@);
                        lemma_occurrences_bound(old_seen, v@);
                        assert(!old_seen.contains(v@)) by {
                            if old_seen.contains(v@) {
                                let m = choose|m: int| 0 <= m < old_counts.len() && (#[trigger] old_counts[m]).0 == v@;
                                assert(counts@[m].0@ == v@);
                            }
                        }
                        assert forall|m: int| 0 <= m < counts@.len() implies (#[trigger] tally_view(counts@)[m]).1
                            == occurrences(seen, tally_view(counts@)[m].0) && seen.contains(
                            tally_view(counts@)[m].0,
                        ) by {
                            lemma_occurrences_push(old_seen, v@, tally_view(counts@)[m].0);
                            assert(seen[seen.len() - 1] == v@);
                            if m < old_counts.len() {
                                assert(tally_view(counts@)[m] == old_counts[m]);
                                assert(old_counts[m].0 != v@);
                                let w = choose|w: int| 0 <= w < old_seen.len() && old_seen[w] == old_counts[m].0;
                                assert(seen[w] == old_seen[w]);
                            }
                        }
                        assert forall|x: Seq<char>| seen.contains(x) implies exists|m: int|
                            0 <= m < counts@.len() && (#[trigger] tally_view(counts@)[m]).0 == x by {
                            let w = choose|w: int| 0 <= w < seen.len() && seen[w] == x;
                            if w < old_seen.len() {
                                assert(old_seen[w] == x);
                                assert(old_seen.contains(x));
                                let m = choose|m: int| 0 <= m < old_counts.len() && (#[trigger] old_counts[m]).0 == x;
                                assert(tally_view(counts@)[m].0 == x);
                            } else {
                                assert(tally_view(counts@)[old_counts.len() as int].0 == x);
                            }
                        }
                        assert forall|j1: int, m: int| 0 <= j1 < m < counts@.len() implies (
                        #[trigger] tally_view(counts@)[j1]).0 != (#[trigger] tally_view(counts@)[m]).0 by {
                            if m < old_counts.len() {
                                assert(old_counts[j1].0 != old_counts[m].0);
                            } else {
                                assert(old_seen.contains(old_counts[j1].0));
                            }
                        }
                    }
                }
                j = j + 1;
            }
            assert(strings_view(*names).take(names@.len() as int) =~= strings_view(*names));
        }
        i = i + 1;
    }
    assert(lists_view(lists@).take(lists@.len() as int) =~= lists_view(lists@));
    counts
}

/// The entries of `ov` are exactly the first `k` entries of `cv`.
#[verifier::opaque]
spec fn drawn_from(ov: Seq<(Seq<char>, nat)>, cv: Seq<(Seq<char>, nat)>, k: int) -> bool {
    &&& forall|q: int| 0 <= q < ov.len() ==> exists|m: int| 0 <= m < k && #[trigger] ov[q] == cv[m]
    &&& forall|m: int| 0 <= m < k ==> exists|q: int| 0 <= q < ov.len() && ov[q] == #[trigger] cv[m]
}

/// Each entry goes before every later one.
#[verifier::opaque]
spec fn strictly_ordered(ov: Seq<(Seq<char>, nat)>) -> bool {
    forall|j: int, q: int| 0 <= j < q < ov.len() ==> entry_before(#[trigger] ov[j], #[trigger] ov[q])
}

/// No name occurs twice.
#[verifier::opaque]
spec fn names_distinct(cv: Seq<(Seq<char>, nat)>) -> bool {
    forall|j: int, m: int| 0 <= j < m < cv.len() ==> (#[trigger] cv[j]).0 != (#[trigger] cv[m]).0
}

/// `cv` counts the names of `all`, each name of `all` once.
#[verifier::opaque]
spec fn counts_all(cv: Seq<(Seq<char>, nat)>, all: Seq<Seq<char>>) -> bool {
    &&& forall|k: int|
        0 <= k < cv.len() ==> (#[trigger] cv[k]).1 == occurrences(all, cv[k].0) && all.contains(cv[k].0)
    &&& forall|x: Seq<char>| all.contains(x) ==> exists|k: int| 0 <= k < cv.len() && (#[trigger] cv[k]).0 == x
}

/// The entry about to be placed has a name that no placed entry has.
proof fn lemma_new_name(ov: Seq<(Seq<char>, nat)>, cv: Seq<(Seq<char>, nat)>, k: int)
    requires
        0 <= k < cv.len(),
        drawn_from(ov, cv, k),
        names_distinct(cv),
    ensures
        forall|q: int| 0 <= q < ov.len() ==> (#[trigger] ov[q]).0 != cv[k].0,
{
    reveal(drawn_from);
    reveal(names_distinct);
    assert forall|q: int| 0 <= q < ov.len() implies (#[trigger] ov[q]).0 != cv[k].0 by {
        let m = choose|m: int| 0 <= m < k && #[trigger] ov[q] == cv[m];
        assert(cv[m].0 != cv[k].0);
    }
}

/// Inserting an entry at the first position whose entry it goes before keeps
/// a strictly ordered tally strictly ordered.
proof fn lemma_insert_keeps_order(ov: Seq<(Seq<char>, nat)>, ev: (Seq<char>, nat), pos: int)
    requires
        0 <= pos <= ov.len(),
        strictly_ordered(ov),
        forall|q: int| 0 <= q < ov.len() ==> (#[trigger] ov[q]).0 != ev.0,
        forall|q: int| 0 <= q < pos ==> !entry_before(ev, #[trigger] ov[q]),
        pos < ov.len() ==> entry_before(ev, ov[pos]),
    ensures
        strictly_ordered(ov.insert(pos, ev)),
{
    reveal(strictly_ordered);
    let nv = ov.insert(pos, ev);
    assert forall|j: int, q: int| 0 <= j < q < nv.len() implies entry_before(
        #[trigger] nv[j],
        #[trigger] nv[q],
    ) by {
        if q == pos {
            assert(!entry_before(ev, ov[j]));
            lemma_entry_total(ev, ov[j]);
        } else if j == pos {
            if q - 1 > pos {
                assert(entry_before(ov[pos], ov[q - 1]));
                lemma_entry_transitive(ev, ov[pos], ov[q - 1]);
            }
        } else if j < pos && q > pos {
            assert(entry_before(ov[j], ov[q - 1]));
        } else if j > pos {
            assert(entry_before(ov[j - 1], ov[q - 1]));
        }
    }
}

/// Inserting entry `k` of `cv` keeps the output made of exactly the first
/// entries of `cv`.
proof fn lemma_insert_membership(ov: Seq<(Seq<char>, nat)>, cv: Seq<(Seq<char>, nat)>, k: int, pos: int)
    requires
        0 <= k < cv.len(),
        0 <= pos <= ov.len(),
        drawn_from(ov, cv, k),
    ensures
        drawn_from(ov.insert(pos, cv[k]), cv, k + 1),
{
    reveal(drawn_from);
    let nv = ov.insert(pos, cv[k]);
    assert forall|q: int| 0 <= q < nv.len() implies exists|m: int| 0 <= m < k + 1 && #[trigger] nv[q] == cv[m] by {
        if q < pos {
            let m = choose|m: int| 0 <= m < k && #[trigger] ov[q] == cv[m];
            assert(nv[q] == cv[m]);
        } else if q == pos {
            assert(nv[q] == cv[k]);
        } else {
            let m = choose|m: int| 0 <= m < k && #[trigger] ov[q - 1] == cv[m];
            assert(nv[q] == cv[m]);
        }
    }
    assert forall|m: int| 0 <= m < k + 1 implies exists|q: int| 0 <= q < nv.len() && nv[q] == #[trigger] cv[m] by {
        if m == k {
            assert(nv[pos] == cv[m]);
        } else {
            let q = choose|q: int| 0 <= q < ov.len() && ov[q] == #[trigger] cv[m];
            if q < pos {
                assert(nv[q] == cv[m]);
            } else {
                assert(nv[q + 1] == cv[m]);
            }
        }
    }
}

/// An ordered arrangement of the whole tally is an ordered tally.
proof fn lemma_arranged_tally(ov: Seq<(Seq<char>, nat)>, cv: Seq<(Seq<char>, nat)>, all: Seq<Seq<char>>)
    requires
        counts_all(cv, all),
        drawn_from(ov, cv, cv.len() as int),
        strictly_ordered(ov),
    ensures
        is_ordered_tally(ov, all),
{
    reveal(counts_all);
    reveal(drawn_from);
    reveal(strictly_ordered);
    assert forall|q: int| 0 <= q < ov.len() implies (#[trigger] ov[q]).1 == occurrences(all, ov[q].0)
        && all.contains(ov[q].0) by {
        let m = choose|m: int| 0 <= m < cv.len() && #[trigger] ov[q] == cv[m];
    }
    assert forall|x: Seq<char>| all.contains(x) implies exists|q: int|
        0 <= q < ov.len() && (#[trigger] ov[q]).0 == x by {
        let m = choose|m: int| 0 <= m < cv.len() && (#[trigger] cv[m]).0 == x;
        let q = choose|q: int| 0 <= q < ov.len() && ov[q] == #[trigger] cv[m];
    }
}

/// Whether entry `a` goes before entry `b` in sidebar order.
fn entry_goes_before(a: &(String, usize), b: &(String, usize)) -> (r: bool)
    ensures
        r == entry_before((a.0@, a.1 as nat), (b.0@, b.1 as nat)),
{
    a.1 > b.1 || (a.1 == b.1 && str_lt(a.0.as_str(), b.0.as_str()))
}

/// Each name of the lists, once, with how many times it occurs in all of
/// them, count descending, then name ascending.
pub fn ordered_tally(lists: &[&Vec<String>]) -> (r: Vec<(String, usize)>)
    requires
        concat_all(lists_view(lists@)).len() <= usize::MAX,
    ensures
        is_ordered_tally(tally_view(r@), concat_all(lists_view(lists@))),
        tally_view(r@) == ordered_tally_of(concat_all(lists_view(lists@))),
{
    let ghost all = concat_all(lists_view(lists@));
    let counts = tally(lists);
    let ghost cv = tally_view(counts@);
    proof {
        reveal(counts_all);
        reveal(names_distinct);
        reveal(drawn_from);
        reveal(strictly_ordered);
    }
    let mut out: Vec<(String, usize)> = Vec::new();
    let mut k: usize = 0;
    while k < counts.len()
        invariant
            cv == tally_view(counts@),
            k <= counts@.len(),
            names_distinct(cv),
            drawn_from(tally_view(out@), cv, k as int),
            strictly_ordered(tally_view(out@)),
        decreases counts.len() - k,
    {
        let e = (counts[k].0.clone(), counts[k].1);
        let ghost ev = (e.0@, e.1 as nat);
        assert(ev == cv[k as int]);
        let ghost ov = tally_view(out@);
        proof {
            lemma_new_name(ov, cv, k as int);
        }
        let mut pos: usize = 0;
        while pos < out.len() && !entry_goes_before(&e, &out[pos])
            invariant
                ov == tally_view(out@),
                ev == (e.0@, e.1 as nat),
                pos <= out@.len(),
                forall|q: int| 0 <= q < pos ==> !entry_before(ev, #[trigger] ov[q]),
            decreases out.len() - pos,
        {
            pos = pos + 1;
        }
        out.insert(pos, e);
        proof {
            assert(tally_view(out@) =~= ov.insert(pos as int, ev));
            lemma_insert_keeps_order(ov, ev, pos as int);
            lemma_insert_membership(ov, cv, k as int, pos as int);
        }
        k = k + 1;
    }
    proof {
        lemma_arranged_tally(tally_view(out@), cv, all);
        law_ordered_tally_is_unique(tally_view(out@), ordered_tally_of(all), all);
    }
    out
}

/// The ordered tally of `vals` (there is exactly one: see
/// `lemma_ordered_tally_exists` and `law_ordered_tally_is_unique`).
pub open spec fn ordered_tally_of(vals: Seq<Seq<char>>) -> Seq<(Seq<char>, nat)> {
    choose|out: Seq<(Seq<char>, nat)>| is_ordered_tally(out, vals)
}

/// Two sequences sorted strictly by an asymmetric relation, with the same
/// elements, are equal.
pub proof fn lemma_sorted_same_elements_equal<A>(a: Seq<A>, b: Seq<A>, r: spec_fn(A, A) -> bool)
    requires
        forall|x: A, y: A| !(#[trigger] r(x, y) && #[trigger] r(y, x)),
        forall|j: int, q: int| 0 <= j < q < a.len() ==> r(#[trigger] a[j], #[trigger] a[q]),
        forall|j: int, q: int| 0 <= j < q < b.len() ==> r(#[trigger] b[j], #[trigger] b[q]),
        forall|x: A| a.contains(x) <==> b.contains(x),
    ensures
        a == b,
    decreases a.len(),
{
    if a.len() == 0 {
        if b.len() > 0 {
            assert(b.contains(b[0]));
        }
        assert(a =~= b);
    } else {
        assert(a.contains(a[0]));
        let q = choose|q: int| 0 <= q < b.len() && b[q] == a[0];
        assert(b.contains(b[0]));
        let p = choose|p: int| 0 <= p < a.len() && a[p] == b[0];
        if a[0] != b[0] {
            assert(p > 0 && q > 0);
            assert(r(a[0], a[p]));
            assert(r(b[0], b[q]));
        }
        let a1 = a.drop_first();
        let b1 = b.drop_first();
        assert forall|x: A| a1.contains(x) implies b1.contains(x) by {
            let i = choose|i: int| 0 <= i < a1.len() && a1[i] == x;
            assert(a[i + 1] == x);
            assert(a.contains(x));
            let k = choose|k: int| 0 <= k < b.len() && b[k] == x;
            if k == 0 {
                assert(r(a[0], a[i + 1]));
            } else {
                assert(b1[k - 1] == x);
            }
        }
        assert forall|x: A| b1.contains(x) implies a1.contains(x) by {
            let i = choose|i: int| 0 <= i < b1.len() && b1[i] == x;
            assert(b[i + 1] == x);
            assert(b.contains(x));
            let k = choose|k: int| 0 <= k < a.len() && a[k] == x;
            if k == 0 {
                assert(r(b[0], b[i + 1]));
            } else {
                assert(a1[k - 1] == x);
            }
        }
        assert forall|j: int, q: int| 0 <= j < q < a1.len() implies r(#[trigger] a1[j], #[trigger] a1[q]) by {
            assert(r(a[j + 1], a[q + 1]));
        }
        assert forall|j: int, q: int| 0 <= j < q < b1.len() implies r(#[trigger] b1[j], #[trigger] b1[q]) by {
            assert(r(b[j + 1], b[q + 1]));
        }
        lemma_sorted_same_elements_equal(a1, b1, r);
        assert(a =~= seq![a[0]] + a1);
        assert(b =~= seq![b[0]] + b1);
    }
}

/// There is only one ordered tally of a list of names: the sidebar order
/// determines the result completely.
pub proof fn law_ordered_tally_is_unique(a: Seq<(Seq<char>, nat)>, b: Seq<(Seq<char>, nat)>, vals: Seq<Seq<char>>)
    requires
        is_ordered_tally(a, vals),
        is_ordered_tally(b, vals),
    ensures
        a == b,
{
    assert forall|x: (Seq<char>, nat)| a.contains(x) implies b.contains(x) by {
        let i = choose|i: int| 0 <= i < a.len() && a[i] == x;
        assert(vals.contains(a[i].0));
        let k = choose|k: int| 0 <= k < b.len() && (#[trigger] b[k]).0 == x.0;
        assert(b[k] == x);
    }
    assert forall|x: (Seq<char>, nat)| b.contains(x) implies a.contains(x) by {
        let i = choose|i: int| 0 <= i < b.len() && b[i] == x;
        assert(vals.contains(b[i].0));
        let k = choose|k: int| 0 <= k < a.len() && (#[trigger] a[k]).0 == x.0;
        assert(a[k] == x);
    }
    let r = |x: (Seq<char>, nat), y: (Seq<char>, nat)| entry_before(x, y);
    assert forall|x: (Seq<char>, nat), y: (Seq<char>, nat)| !(#[trigger] r(x, y) && #[trigger] r(y, x)) by {
        lemma_entry_asymmetric(x, y);
    }
    lemma_sorted_same_elements_equal(a, b, r);
}

/// The names of the ordered tally, without their counts.
pub open spec fn tally_names(out: Seq<(Seq<char>, nat)>) -> Seq<Seq<char>> {
    out.map_values(|e: (Seq<char>, nat)| e.0)
}

/// The names of `vals`, each once, in order of first occurrence.
spec fn distinct_names(vals: Seq<Seq<char>>) -> Seq<Seq<char>>
    decreases vals.len(),
{
    if vals.len() == 0 {
        Seq::empty()
    } else {
        let d = distinct_names(vals.drop_last());
        if d.contains(vals.last()) {
            d
        } else {
            d.push(vals.last())
        }
    }
}

/// `distinct_names` holds exactly the names of `vals`, none twice.
proof fn lemma_distinct_names(vals: Seq<Seq<char>>)
    ensures
        forall|x: Seq<char>| distinct_names(vals).contains(x) <==> vals.contains(x),
        forall|j: int, m: int|
            0 <= j < m < distinct_names(vals).len() ==> #[trigger] distinct_names(vals)[j]
                != #[trigger] distinct_names(vals)[m],
    decreases vals.len(),
{
    if vals.len() > 0 {
        let rest = vals.drop_last();
        lemma_distinct_names(rest);
        let d = distinct_names(rest);
        assert forall|x: Seq<char>| vals.contains(x) <==> (rest.contains(x) || vals.last() == x) by {
            if vals.contains(x) {
                let i = choose|i: int| 0 <= i < vals.len() && vals[i] == x;
                if i < rest.len() {
                    assert(rest[i] == x);
                }
            }
            if rest.contains(x) {
                let i = choose|i: int| 0 <= i < rest.len() && rest[i] == x;
                assert(vals[i] == x);
            }
            if vals.last() == x {
                assert(vals[vals.len() - 1] == x);
            }
        }
        if !d.contains(vals.last()) {
            let e = d.push(vals.last());
            assert forall|x: Seq<char>| e.contains(x) <==> (d.contains(x) || vals.last() == x) by {
                if e.contains(x) {
                    let i = choose|i: int| 0 <= i < e.len() && e[i] == x;
                    if i < d.len() {
                        assert(d[i] == x);
                    }
                }
                if d.contains(x) {
                    let i = choose|i: int| 0 <= i < d.len() && d[i] == x;
                    assert(e[i] == x);
                }
                if vals.last() == x {
                    assert(e[d.len() as int] == x);
                }
            }
            assert forall|j: int, m: int| 0 <= j < m < e.len() implies #[trigger] e[j] != #[trigger] e[m] by {
                if m == d.len() {
                    assert(d.contains(d[j]));
                } else {
                    assert(d[j] != d[m]);
                }
            }
        }
    }
}

/// The first position at or after `i` whose entry `ev` goes before, or the
/// end of `ov`.
spec fn insert_position(ov: Seq<(Seq<char>, nat)>, ev: (Seq<char>, nat), i: int) -> int
    decreases ov.len() - i,
{
    if i >= ov.len() {
        ov.len() as int
    } else if entry_before(ev, ov[i]) {
        i
    } else {
        insert_position(ov, ev, i + 1)
    }
}

proof fn lemma_insert_position(ov: Seq<(Seq<char>, nat)>, ev: (Seq<char>, nat), i: int)
    requires
        0 <= i <= ov.len(),
    ensures
        i <= insert_position(ov, ev, i) <= ov.len(),
        forall|q: int| i <= q < insert_position(ov, ev, i) ==> !entry_before(ev, #[trigger] ov[q]),
        insert_position(ov, ev, i) < ov.len() ==> entry_before(ev, ov[insert_position(ov, ev, i)]),
    decreases ov.len() - i,
{
    if i < ov.len() && !entry_before(ev, ov[i]) {
        lemma_insert_position(ov, ev, i + 1);
    }
}

/// The first `k` entries of a tally with distinct names, arranged in
/// sidebar order.
proof fn lemma_arrange(cv: Seq<(Seq<char>, nat)>, k: int) -> (ov: Seq<(Seq<char>, nat)>)
    requires
        0 <= k <= cv.len(),
        names_distinct(cv),
    ensures
        drawn_from(ov, cv, k),
        strictly_ordered(ov),
    decreases k,
{
    if k == 0 {
        reveal(drawn_from);
        reveal(strictly_ordered);
        Seq::empty()
    } else {
        let ov = lemma_arrange(cv, k - 1);
        lemma_new_name(ov, cv, k - 1);
        let pos = insert_position(ov, cv[k - 1], 0);
        lemma_insert_position(ov, cv[k - 1], 0);
        lemma_insert_keeps_order(ov, cv[k - 1], pos);
        lemma_insert_membership(ov, cv, k - 1, pos);
        ov.insert(pos, cv[k - 1])
    }
}

/// Every list of names has an ordered tally, so `ordered_tally_of` is one.
pub proof fn lemma_ordered_tally_exists(vals: Seq<Seq<char>>)
    ensures
        is_ordered_tally(ordered_tally_of(vals), vals),
{
    lemma_distinct_names(vals);
    let d = distinct_names(vals);
    let cv = d.map_values(|x: Seq<char>| (x, occurrences(vals, x)));
    assert(counts_all(cv, vals)) by {
        reveal(counts_all);
        assert forall|k: int| 0 <= k < cv.len() implies (#[trigger] cv[k]).1 == occurrences(vals, cv[k].0)
            && vals.contains(cv[k].0) by {
            assert(d.contains(d[k]));
        }
        assert forall|x: Seq<char>| vals.contains(x) implies exists|k: int|
            0 <= k < cv.len() && (#[trigger] cv[k]).0 == x by {
            let k = choose|k: int| 0 <= k < d.len() && d[k] == x;
            assert(cv[k].0 == x);
        }
    }
    assert(names_distinct(cv)) by {
        reveal(names_distinct);
        assert forall|j: int, m: int| 0 <= j < m < cv.len() implies (#[trigger] cv[j]).0 != (
        #[trigger] cv[m]).0 by {
            assert(d[j] != d[m]);
        }
    }
    let ov = lemma_arrange(cv, cv.len() as int);
    lemma_arranged_tally(ov, cv, vals);
}

/// How often a name occurs is its count in the multiset of the names.
proof fn lemma_occurrences_count(vals: Seq<Seq<char>>, x: Seq<char>)
    ensures
        occurrences(vals, x) == vals.to_multiset().count(x),
    decreases vals.len(),
{
    broadcast use vstd::seq_lib::group_to_multiset_ensures;
    broadcast use vstd::multiset::group_multiset_axioms;

    if vals.len() == 0 {
        assert(vals.to_multiset() =~= vstd::multiset::Multiset::<Seq<char>>::empty());
    } else {
        lemma_occurrences_count(vals.drop_last(), x);
        assert(vals =~= vals.drop_last().push(vals.last()));
    }
}

/// The ordered tally depends only on which names occur how often, not on
/// the order in which they come.
pub proof fn law_tally_depends_only_on_the_multiset(v1: Seq<Seq<char>>, v2: Seq<Seq<char>>)
    requires
        v1.to_multiset() == v2.to_multiset(),
    ensures
        ordered_tally_of(v1) == ordered_tally_of(v2),
{
    lemma_ordered_tally_exists(v1);
    lemma_ordered_tally_exists(v2);
    let o = ordered_tally_of(v1);
    assert forall|x: Seq<char>| occurrences(v1, x) == occurrences(v2, x) && (v1.contains(x) <==> v2.contains(x)) by {
        lemma_occurrences_count(v1, x);
        lemma_occurrences_count(v2, x);
        lemma_occurrences_bound(v1, x);
        lemma_occurrences_bound(v2, x);
    }
    assert(is_ordered_tally(o, v2));
    law_ordered_tally_is_unique(o, ordered_tally_of(v2), v2);
}

/// In an ordered tally, counts never rise down the list, entries with
/// equal counts come in name order, no name comes twice, and each count is
/// how often the name occurs.
pub proof fn law_ordered_tally_is_sidebar_order(out: Seq<(Seq<char>, nat)>, vals: Seq<Seq<char>>)
    requires
        is_ordered_tally(out, vals),
    ensures
        forall|j: int, k: int| 0 <= j < k < out.len() ==> #[trigger] out[j].1 >= #[trigger] out[k].1,
        forall|j: int, k: int|
            0 <= j < k < out.len() && out[j].1 == out[k].1 ==> lex_lt(#[trigger] out[j].0, #[trigger] out[k].0),
        forall|j: int, k: int| 0 <= j < k < out.len() ==> #[trigger] out[j].0 != #[trigger] out[k].0,
        forall|k: int| 0 <= k < out.len() ==> (#[trigger] out[k]).1 == occurrences(vals, out[k].0) && out[k].1 > 0,
{
    assert forall|j: int, k: int| 0 <= j < k < out.len() implies #[trigger] out[j].0 != #[trigger] out[k].0 by {
        assert(entry_before(out[j], out[k]));
        lemma_lex_irreflexive(out[j].0);
    }
    assert forall|k: int| 0 <= k < out.len() implies (#[trigger] out[k]).1 == occurrences(vals, out[k].0)
        && out[k].1 > 0 by {
        lemma_occurrences_bound(vals, out[k].0);
    }
}

} // verus!
