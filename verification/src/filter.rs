//! Filtering, sorting and grouping decisions over tasks.
//!
//! These take plain data (tasks, a `Filter` or `Sort`, flags) and return
//! decisions or orderings; they hold no view state, so every view and every
//! one-shot command can share them.
use vstd::prelude::*;
use vstd::utf8::encode_utf8;

use crate::search::{substring_match_ci, substring_result};
use crate::tally::{
    concat_all, is_ordered_tally, law_tally_depends_only_on_the_multiset, lemma_sorted_same_elements_equal, lists_view,
    ordered_tally, ordered_tally_of, tally_names, tally_view,
};
use crate::text::{
    lemma_encode_utf8_concat, lemma_lex_asymmetric, lemma_lex_irreflexive, lemma_lex_total,
    lemma_lex_transitive, lex_lt, str_eq, str_lt,
};
use crate::threshold::{resolve_threshold_value, resolved_threshold};
use crate::todo::{body_after_priority, body_after_priority_spec, opt_view, strings_view, Task};

verus! {

/// The project and context a view is narrowed to, if any.
pub struct Filter {
    pub project: Option<String>,
    pub context: Option<String>,
}

/// How list views order their tasks.
#[derive(Debug, Clone, Copy, PartialEq, Eq, Structural)]
pub enum Sort {
    /// Priority ascending (no priority last), ties by due date ascending.
    Priority,
    /// Due date ascending (no due date last).
    Due,
    /// File order.
    File,
}

/// Which canonical bucket a List-view row belongs to when the active sort is
/// `Sort::Due`. `NoDue` covers tasks with no `due:` tag.
#[derive(Debug, Clone, Copy, PartialEq, Eq, Structural)]
pub enum ListDueBucket {
    Overdue,
    Today,
    Upcoming,
    NoDue,
}

/// The heading shown for each bucket.
pub open spec fn bucket_label(b: ListDueBucket) -> Seq<char> {
    match b {
        ListDueBucket::Overdue => "OVERDUE"@,
        ListDueBucket::Today => "TODAY"@,
        ListDueBucket::Upcoming => "UPCOMING"@,
        ListDueBucket::NoDue => "NO DUE DATE"@,
    }
}

impl ListDueBucket {
    /// The heading shown for this bucket.
    pub fn label(self) -> (r: &'static str)
        ensures
            r@ == bucket_label(self),
    {
        match self {
            ListDueBucket::Overdue => "OVERDUE",
            ListDueBucket::Today => "TODAY",
            ListDueBucket::Upcoming => "UPCOMING",
            ListDueBucket::NoDue => "NO DUE DATE",
        }
    }
}

/// The bucket of a task with due date `due`, on day `today` (dates compare
/// as strings).
pub open spec fn bucket_of(due: Option<Seq<char>>, today: Seq<char>) -> ListDueBucket {
    match due {
        None => ListDueBucket::NoDue,
        Some(d) => if lex_lt(d, today) {
            ListDueBucket::Overdue
        } else if d == today {
            ListDueBucket::Today
        } else {
            ListDueBucket::Upcoming
        },
    }
}

/// The view of a task's due date.
pub open spec fn due_of(t: Task) -> Option<Seq<char>> {
    match t.due {
        Some(d) => Some(d@),
        None => None,
    }
}

/// Which due bucket `task` falls in on day `today`.
pub fn due_bucket(task: &Task, today: &str) -> (b: ListDueBucket)
    ensures
        b == bucket_of(due_of(*task), today@),
{
    match &task.due {
        None => ListDueBucket::NoDue,
        Some(d) => {
            if str_lt(d.as_str(), today) {
                ListDueBucket::Overdue
            } else if str_eq(d.as_str(), today) {
                ListDueBucket::Today
            } else {
                ListDueBucket::Upcoming
            }
        },
    }
}

/// Due date `a` sorts strictly before due date `b`: dates compare as
/// strings, and a missing date sorts after every date.
pub open spec fn due_lt(a: Option<Seq<char>>, b: Option<Seq<char>>) -> bool {
    match (a, b) {
        (Some(x), Some(y)) => lex_lt(x, y),
        (Some(_), None) => true,
        (None, _) => false,
    }
}

/// Priority `a` sorts strictly before priority `b`: letters in order, and a
/// missing priority sorts after every letter.
pub open spec fn priority_lt(a: Option<char>, b: Option<char>) -> bool {
    match (a, b) {
        (Some(x), Some(y)) => x < y,
        (Some(_), None) => true,
        (None, _) => false,
    }
}

/// Task `a` goes strictly before task `b` in the order `sort`.
pub open spec fn goes_before(a: Task, b: Task, sort: Sort) -> bool {
    match sort {
        Sort::Priority => priority_lt(a.priority, b.priority) || (a.priority == b.priority
            && due_lt(due_of(a), due_of(b))),
        Sort::Due => due_lt(due_of(a), due_of(b)),
        Sort::File => false,
    }
}

/// `p` maps each of `n` output positions to a distinct input position.
pub open spec fn is_permutation(p: Seq<int>, n: nat) -> bool {
    &&& p.len() == n
    &&& forall|k: int| 0 <= k < n ==> 0 <= #[trigger] p[k] < n
    &&& forall|j: int, k: int| 0 <= j < k < n ==> #[trigger] p[j] != #[trigger] p[k]
}

/// `after` is `before` rearranged by `p`, in `sort` order, with tied tasks
/// kept in their relative order from `before`.
pub open spec fn stable_sort_witness(
    before: Seq<usize>,
    after: Seq<usize>,
    tasks: Seq<Task>,
    sort: Sort,
    p: Seq<int>,
) -> bool {
    &&& after.len() == before.len()
    &&& is_permutation(p, before.len())
    &&& forall|k: int| 0 <= k < after.len() ==> #[trigger] after[k] == before[p[k]]
    &&& forall|j: int, k: int|
        0 <= j < k < after.len() ==> !goes_before(
            tasks[#[trigger] after[k] as int],
            tasks[#[trigger] after[j] as int],
            sort,
        )
    &&& forall|j: int, k: int|
        0 <= j < k < after.len() && !goes_before(tasks[after[j] as int], tasks[after[k] as int], sort)
            ==> #[trigger] p[j] < #[trigger] p[k]
}

/// `after` is the stable sort of `before` by `sort`.
pub open spec fn is_stable_sort(before: Seq<usize>, after: Seq<usize>, tasks: Seq<Task>, sort: Sort) -> bool {
    exists|p: Seq<int>| stable_sort_witness(before, after, tasks, sort, p)
}

/// The due order is a strict total order on optional dates.
proof fn lemma_due_lt_order(a: Option<Seq<char>>, b: Option<Seq<char>>, c: Option<Seq<char>>)
    ensures
        !due_lt(a, a),
        due_lt(a, b) && due_lt(b, c) ==> due_lt(a, c),
        a != b ==> due_lt(a, b) || due_lt(b, a),
        !(due_lt(a, b) && due_lt(b, a)),
{
    if let Some(x) = a {
        lemma_lex_irreflexive(x);
        if let Some(y) = b {
            lemma_lex_total(x, y);
            lemma_lex_asymmetric(x, y);
            if let Some(z) = c {
                if lex_lt(x, y) && lex_lt(y, z) {
                    lemma_lex_transitive(x, y, z);
                }
            }
        }
    }
}

/// No task goes before itself.
pub proof fn lemma_goes_before_irreflexive(a: Task, sort: Sort)
    ensures
        !goes_before(a, a, sort),
{
    lemma_due_lt_order(due_of(a), due_of(a), due_of(a));
}

/// Going before is transitive.
pub proof fn lemma_goes_before_transitive(a: Task, b: Task, c: Task, sort: Sort)
    requires
        goes_before(a, b, sort),
        goes_before(b, c, sort),
    ensures
        goes_before(a, c, sort),
{
    lemma_due_lt_order(due_of(a), due_of(b), due_of(c));
}

/// Not going after is transitive: if `b` does not go before `a` and `c` does
/// not go before `b`, then `c` does not go before `a`.
pub proof fn lemma_not_before_transitive(a: Task, b: Task, c: Task, sort: Sort)
    requires
        !goes_before(b, a, sort),
        !goes_before(c, b, sort),
    ensures
        !goes_before(c, a, sort),
{
    lemma_due_lt_order(due_of(a), due_of(b), due_of(c));
    lemma_due_lt_order(due_of(c), due_of(a), due_of(b));
    lemma_due_lt_order(due_of(b), due_of(c), due_of(a));
}

/// Whether due date `a` sorts strictly before due date `b`.
fn due_before(a: &Option<String>, b: &Option<String>) -> (r: bool)
    ensures
        r == due_lt(
            match a {
                Some(d) => Some(d@),
                None => None,
            },
            match b {
                Some(d) => Some(d@),
                None => None,
            },
        ),
{
    match (a, b) {
        (Some(x), Some(y)) => str_lt(x.as_str(), y.as_str()),
        (Some(_), None) => true,
        (None, _) => false,
    }
}

/// Whether task `a` goes strictly before task `b` in the order `sort`.
fn task_goes_before(a: &Task, b: &Task, sort: Sort) -> (r: bool)
    ensures
        r == goes_before(*a, *b, sort),
{
    match sort {
        Sort::Priority => {
            let first = match (a.priority, b.priority) {
                (Some(x), Some(y)) => x < y,
                (Some(_), None) => true,
                (None, _) => false,
            };
            first || (a.priority == b.priority && due_before(&a.due, &b.due))
        },
        Sort::Due => due_before(&a.due, &b.due),
        Sort::File => false,
    }
}

/// Orders the task indices `idxs` by `sort`: a stable sort by priority then
/// due date, by due date, or no change for file order.
pub fn sort_by_prefs(idxs: &mut [usize], tasks: &[Task], sort: Sort)
    requires
        sort != Sort::File && old(idxs)@.len() >= 2 ==> forall|k: int|
            0 <= k < old(idxs)@.len() ==> #[trigger] old(idxs)@[k] < tasks@.len(),
    ensures
        final(idxs)@.len() == old(idxs)@.len(),
        is_stable_sort(old(idxs)@, final(idxs)@, tasks@, sort),
{
    let ghost orig = idxs@;
    let n = idxs.len();
    let ghost mut p: Seq<int> = Seq::new(n as nat, |k: int| k);
    if sort == Sort::File {
        proof {
            assert(stable_sort_witness(orig, idxs@, tasks@, sort, p));
        }
        return;
    }
    let mut i: usize = 0;
    while i < n
        invariant
            n == idxs@.len(),
            n == orig.len(),
            i <= n,
            sort != Sort::File,
            n >= 2 ==> forall|k: int| 0 <= k < n ==> #[trigger] orig[k] < tasks@.len(),
            p.len() == n,
            forall|k: int| 0 <= k < n ==> #[trigger] idxs@[k] == orig[p[k]],
            forall|k: int| i <= k < n ==> #[trigger] p[k] == k,
            forall|k: int| 0 <= k < i ==> 0 <= #[trigger] p[k] < i,
            forall|j: int, k: int| 0 <= j < k < i ==> #[trigger] p[j] != #[trigger] p[k],
            forall|j: int, k: int|
                0 <= j < k < i ==> !goes_before(
                    tasks@[#[trigger] idxs@[k] as int],
                    tasks@[#[trigger] idxs@[j] as int],
                    sort,
                ),
            forall|j: int, k: int|
                0 <= j < k < i && !goes_before(tasks@[idxs@[j] as int], tasks@[idxs@[k] as int], sort)
                    ==> #[trigger] p[j] < #[trigger] p[k],
        decreases n - i,
    {
        let mut j: usize = i;
        while j > 0 && task_goes_before(&tasks[idxs[j]], &tasks[idxs[j - 1]], sort)
            invariant
                n == idxs@.len(),
                n == orig.len(),
                i < n,
                j <= i,
                sort != Sort::File,
                n >= 2 ==> forall|k: int| 0 <= k < n ==> #[trigger] orig[k] < tasks@.len(),
                p.len() == n,
                forall|k: int| 0 <= k < n ==> #[trigger] idxs@[k] == orig[p[k]],
                forall|k: int| i < k < n ==> #[trigger] p[k] == k,
                p[j as int] == i,
                forall|k: int| 0 <= k <= i && k != j ==> 0 <= #[trigger] p[k] < i,
                forall|j1: int, k: int| 0 <= j1 < k <= i ==> #[trigger] p[j1] != #[trigger] p[k],
                forall|j1: int, k: int|
                    0 <= j1 < k <= i && j1 != j && k != j ==> !goes_before(
                        tasks@[#[trigger] idxs@[k] as int],
                        tasks@[#[trigger] idxs@[j1] as int],
                        sort,
                    ),
                forall|k: int|
                    j < k <= i ==> goes_before(
                        tasks@[idxs@[j as int] as int],
                        tasks@[#[trigger] idxs@[k] as int],
                        sort,
                    ),
                forall|j1: int, k: int|
                    0 <= j1 < k <= i && j1 != j && k != j && !goes_before(
                        tasks@[idxs@[j1] as int],
                        tasks@[idxs@[k] as int],
                        sort,
                    ) ==> #[trigger] p[j1] < #[trigger] p[k],
            decreases j,
        {
            let x = idxs[j];
            let y = idxs[j - 1];
            idxs[j] = y;
            idxs[j - 1] = x;
            proof {
                let pj = p[j as int];
                let pj1 = p[j - 1];
                p = p.update(j as int, pj1).update(j - 1, pj);
            }
            j = j - 1;
        }
        proof {
            let ghost jj = j as int;
            assert forall|j1: int, k: int|
                0 <= j1 < k <= i implies !goes_before(
                    tasks@[#[trigger] idxs@[k] as int],
                    tasks@[#[trigger] idxs@[j1] as int],
                    sort,
                ) by {
                if k == jj {
                    if j1 < jj - 1 {
                        lemma_not_before_transitive(
                            tasks@[idxs@[j1] as int],
                            tasks@[idxs@[jj - 1] as int],
                            tasks@[idxs@[jj] as int],
                            sort,
                        );
                    }
                } else if j1 == jj {
                    lemma_goes_before_asymmetric(
                        tasks@[idxs@[jj] as int],
                        tasks@[idxs@[k] as int],
                        sort,
                    );
                }
            }
            assert forall|j1: int, k: int|
                0 <= j1 < k <= i && !goes_before(tasks@[idxs@[j1] as int], tasks@[idxs@[k] as int], sort)
                    implies #[trigger] p[j1] < #[trigger] p[k] by {
                if j1 == jj {
                }
            }
        }
        i = i + 1;
    }
    proof {
        assert(stable_sort_witness(orig, idxs@, tasks@, sort, p));
    }
}

/// Going before is asymmetric.
pub proof fn lemma_goes_before_asymmetric(a: Task, b: Task, sort: Sort)
    ensures
        !(goes_before(a, b, sort) && goes_before(b, a, sort)),
{
    if goes_before(a, b, sort) && goes_before(b, a, sort) {
        lemma_goes_before_transitive(a, b, a, sort);
        lemma_goes_before_irreflexive(a, sort);
    }
}

/// File order keeps the indices exactly as they were.
pub proof fn law_file_order_is_unchanged(before: Seq<usize>, after: Seq<usize>, tasks: Seq<Task>)
    requires
        is_stable_sort(before, after, tasks, Sort::File),
    ensures
        after == before,
{
    let p = choose|p: Seq<int>| stable_sort_witness(before, after, tasks, Sort::File, p);
    let n = before.len() as int;
    assert forall|k: int| 0 <= k < n implies #[trigger] p[k] >= k by {
        lemma_increasing_lower_bound(p, n, k);
    }
    assert forall|k: int| 0 <= k < n implies #[trigger] p[k] <= k by {
        lemma_increasing_upper_bound(p, n, k);
    }
    assert(after =~= before);
}

proof fn lemma_increasing_lower_bound(p: Seq<int>, n: int, k: int)
    requires
        p.len() == n,
        forall|j: int, l: int| 0 <= j < l < n ==> #[trigger] p[j] < #[trigger] p[l],
        forall|j: int| 0 <= j < n ==> 0 <= #[trigger] p[j] < n,
        0 <= k < n,
    ensures
        p[k] >= k,
    decreases k,
{
    if k > 0 {
        lemma_increasing_lower_bound(p, n, k - 1);
        assert(p[k - 1] < p[k]);
    }
}

proof fn lemma_increasing_upper_bound(p: Seq<int>, n: int, k: int)
    requires
        p.len() == n,
        forall|j: int, l: int| 0 <= j < l < n ==> #[trigger] p[j] < #[trigger] p[l],
        forall|j: int| 0 <= j < n ==> 0 <= #[trigger] p[j] < n,
        0 <= k < n,
    ensures
        p[k] <= k,
    decreases n - k,
{
    if k < n - 1 {
        lemma_increasing_upper_bound(p, n, k + 1);
        assert(p[k] < p[k + 1]);
        assert(p[k + 1] <= k + 1);
    } else {
    }
}

/// Tasks without a due date sort after those with one: in due order, and in
/// priority order between tasks of the same priority.
pub proof fn law_no_due_date_sorts_last(a: Task, b: Task)
    requires
        a.due is Some,
        b.due is None,
    ensures
        goes_before(a, b, Sort::Due),
        !goes_before(b, a, Sort::Due),
        a.priority == b.priority ==> goes_before(a, b, Sort::Priority),
{
}

/// Tasks without a priority sort after those with one.
pub proof fn law_no_priority_sorts_last(a: Task, b: Task)
    requires
        a.priority is Some,
        b.priority is None,
    ensures
        goes_before(a, b, Sort::Priority),
        !goes_before(b, a, Sort::Priority),
{
}

/// A permutation of `n` positions takes every position.
proof fn lemma_permutation_covers(p: Seq<int>, n: nat)
    requires
        is_permutation(p, n),
    ensures
        forall|i: int| 0 <= i < n ==> p.contains(i),
{
    assert(p.no_duplicates()) by {
        assert forall|j: int, k: int| 0 <= j < p.len() && 0 <= k < p.len() && j != k implies p[j] != p[k] by {
            if j < k {
                assert(p[j] != p[k]);
            } else {
                assert(p[k] != p[j]);
            }
        }
    }
    p.unique_seq_to_set();
    vstd::set_lib::lemma_int_range(0, n as int);
    let range = vstd::set_lib::set_int_range(0, n as int);
    assert(p.to_set().subset_of(range));
    vstd::set_lib::lemma_subset_equality(p.to_set(), range);
    assert forall|i: int| 0 <= i < n implies p.contains(i) by {
        assert(range.contains(i));
        assert(p.to_set().contains(i));
    }
}

/// The order in which a stable sort places the input positions.
pub open spec fn position_before(before: Seq<usize>, tasks: Seq<Task>, sort: Sort, i: int, j: int) -> bool {
    let a = tasks[before[i] as int];
    let b = tasks[before[j] as int];
    goes_before(a, b, sort) || (!goes_before(b, a, sort) && i < j)
}

proof fn lemma_witness_sorted_positions(
    before: Seq<usize>,
    after: Seq<usize>,
    tasks: Seq<Task>,
    sort: Sort,
    p: Seq<int>,
)
    requires
        stable_sort_witness(before, after, tasks, sort, p),
    ensures
        forall|j: int, k: int|
            0 <= j < k < p.len() ==> position_before(before, tasks, sort, #[trigger] p[j], #[trigger] p[k]),
{
    assert forall|j: int, k: int| 0 <= j < k < p.len() implies position_before(
        before,
        tasks,
        sort,
        #[trigger] p[j],
        #[trigger] p[k],
    ) by {
        assert(after[j] == before[p[j]]);
        assert(after[k] == before[p[k]]);
        assert(!goes_before(tasks[after[k] as int], tasks[after[j] as int], sort));
        if !goes_before(tasks[after[j] as int], tasks[after[k] as int], sort) {
            assert(p[j] < p[k]);
        }
    }
}

/// A stable sort has exactly one result: sorting is deterministic.
pub proof fn law_stable_sort_is_unique(
    before: Seq<usize>,
    a1: Seq<usize>,
    a2: Seq<usize>,
    tasks: Seq<Task>,
    sort: Sort,
)
    requires
        is_stable_sort(before, a1, tasks, sort),
        is_stable_sort(before, a2, tasks, sort),
    ensures
        a1 == a2,
{
    let p1 = choose|p: Seq<int>| stable_sort_witness(before, a1, tasks, sort, p);
    let p2 = choose|p: Seq<int>| stable_sort_witness(before, a2, tasks, sort, p);
    let r = |i: int, j: int| position_before(before, tasks, sort, i, j);
    assert forall|x: int, y: int| !(#[trigger] r(x, y) && #[trigger] r(y, x)) by {
        lemma_goes_before_asymmetric(tasks[before[x] as int], tasks[before[y] as int], sort);
    }
    lemma_witness_sorted_positions(before, a1, tasks, sort, p1);
    lemma_witness_sorted_positions(before, a2, tasks, sort, p2);
    lemma_permutation_covers(p1, before.len());
    lemma_permutation_covers(p2, before.len());
    assert forall|x: int| p1.contains(x) <==> p2.contains(x) by {
        if p1.contains(x) {
            let k = choose|k: int| 0 <= k < p1.len() && p1[k] == x;
            assert(0 <= p1[k] < before.len());
        }
        if p2.contains(x) {
            let k = choose|k: int| 0 <= k < p2.len() && p2[k] == x;
            assert(0 <= p2[k] < before.len());
        }
    }
    lemma_sorted_same_elements_equal(p1, p2, r);
    assert forall|k: int| 0 <= k < a1.len() implies a1[k] == a2[k] by {
        assert(a1[k] == before[p1[k]]);
        assert(a2[k] == before[p2[k]]);
    }
    assert(a1 =~= a2);
}

/// Sorting an already sorted list changes nothing: sorting twice gives what
/// sorting once gives.
pub proof fn law_sorting_twice_changes_nothing(
    before: Seq<usize>,
    once: Seq<usize>,
    twice: Seq<usize>,
    tasks: Seq<Task>,
    sort: Sort,
)
    requires
        is_stable_sort(before, once, tasks, sort),
        is_stable_sort(once, twice, tasks, sort),
    ensures
        twice == once,
{
    let p = choose|p: Seq<int>| stable_sort_witness(before, once, tasks, sort, p);
    let id = Seq::new(once.len(), |k: int| k);
    assert(stable_sort_witness(once, once, tasks, sort, id));
    law_stable_sort_is_unique(once, once, twice, tasks, sort);
}

/// The needle, as the view of an optional string slice.
pub open spec fn needle_view(needle: Option<&str>) -> Option<Seq<char>> {
    match needle {
        Some(n) => Some(n@),
        None => None,
    }
}

/// The task is in the filter's project and context (where set) and its text
/// after the priority marker contains the needle as a case-insensitive
/// contiguous substring (where given).
pub open spec fn user_filter_holds(t: Task, filter: Filter, needle: Option<Seq<char>>) -> bool {
    &&& filter.project matches Some(p) ==> strings_view(t.projects).contains(p@)
    &&& filter.context matches Some(c) ==> strings_view(t.contexts).contains(c@)
    &&& needle matches Some(n) ==> substring_result(body_after_priority_spec(t.raw@), n) is Some
}

/// `v` holds a string equal to `x`.
fn contains_string(v: &Vec<String>, x: &String) -> (r: bool)
    ensures
        r == strings_view(*v).contains(x@),
{
    let mut i: usize = 0;
    while i < v.len()
        invariant
            i <= v@.len(),
            forall|k: int| 0 <= k < i ==> (#[trigger] v@[k])@ != x@,
        decreases v.len() - i,
    {
        if v[i] == *x {
            assert(strings_view(*v)[i as int] == x@);
            return true;
        }
        i = i + 1;
    }
    assert forall|k: int| 0 <= k < strings_view(*v).len() implies #[trigger] strings_view(*v)[k] != x@ by {
        assert(v@[k]@ != x@);
    }
    false
}

/// Project / context / search predicate, shared by every view that honors
/// user filters. `needle` matches as a case-insensitive contiguous substring
/// of the task text after its priority marker.
pub fn passes_user_filter(t: &Task, filter: &Filter, needle: Option<&str>) -> (r: bool)
    requires
        encode_utf8(t.raw@).len() <= usize::MAX,
    ensures
        r == user_filter_holds(*t, *filter, needle_view(needle)),
{
    if let Some(p) = &filter.project {
        if !contains_string(&t.projects, p) {
            return false;
        }
    }
    if let Some(c) = &filter.context {
        if !contains_string(&t.contexts, c) {
            return false;
        }
    }
    if let Some(needle) = needle {
        let body = body_after_priority(t.raw.as_str());
        proof {
            let raw = t.raw@;
            if body_after_priority_spec(raw) != raw {
                assert(raw =~= raw.take(4) + raw.skip(4));
                lemma_encode_utf8_concat(raw.take(4), raw.skip(4));
            }
        }
        if substring_match_ci(body, needle).is_none() {
            return false;
        }
    }
    true
}

/// A resolved threshold date lies strictly after `today` (dates compare as
/// strings). No resolved date means the task stays visible.
pub open spec fn resolved_in_future(resolved: Option<Seq<char>>, today: Seq<char>) -> bool {
    match resolved {
        Some(d) => lex_lt(today, d),
        None => false,
    }
}

/// Whether a threshold that resolved to `resolved` still lies ahead of
/// `today`: true exactly when there is a resolved date and it is strictly
/// after `today`.
pub fn is_future_resolved(resolved: Option<&str>, today: &str) -> (r: bool)
    ensures
        r == resolved_in_future(
            match resolved {
                Some(d) => Some(d@),
                None => None,
            },
            today@,
        ),
{
    match resolved {
        Some(d) => str_lt(today, d),
        None => false,
    }
}

/// The date a task's `t:` value resolves to: an absolute date, or an offset
/// from its due date (else its creation date); `None` for a task without a
/// `t:` value or one that does not resolve.
pub open spec fn threshold_date(t: Task) -> Option<Seq<char>> {
    match t.threshold {
        Some(th) => resolved_threshold(th@, opt_view(t.due), opt_view(t.created_date)),
        None => None,
    }
}

/// The date a task's `t:` value resolves to, written `YYYY-MM-DD`.
pub fn resolve_threshold(t: &Task) -> (r: Option<String>)
    ensures
        opt_view(r) == threshold_date(*t),
{
    match &t.threshold {
        Some(th) => {
            let due = match &t.due {
                Some(d) => Some(d.as_str()),
                None => None,
            };
            let created = match &t.created_date {
                Some(c) => Some(c.as_str()),
                None => None,
            };
            resolve_threshold_value(th.as_str(), due, created)
        },
        None => None,
    }
}

/// The task's `t:` value resolves to a date strictly after `today`.
pub open spec fn threshold_in_future(t: Task, today: Seq<char>) -> bool {
    resolved_in_future(threshold_date(t), today)
}

/// True when the task carries a `t:` value that resolves to a date strictly
/// after `today`. Malformed values, missing anchors for relative offsets,
/// and results outside the years 0000 to 9999 all leave the task visible:
/// better to surface a task the user might miss than to hide it because of
/// a bad threshold.
pub fn is_future_threshold(t: &Task, today: &str) -> (r: bool)
    ensures
        r == threshold_in_future(*t, today@),
{
    match resolve_threshold(t) {
        Some(d) => is_future_resolved(Some(d.as_str()), today),
        None => is_future_resolved(None, today),
    }
}

/// What `list_predicate` decides: a done task shows only with `show_done`,
/// a task whose threshold is still ahead only with `show_future`, and the
/// user filter must hold.
pub open spec fn list_shows(
    t: Task,
    show_done: bool,
    show_future: bool,
    today: Seq<char>,
    filter: Filter,
    needle: Option<Seq<char>>,
) -> bool {
    &&& !t.done || show_done
    &&& show_future || !threshold_in_future(t, today)
    &&& user_filter_holds(t, filter, needle)
}

/// Whether a task shows in the list view.
pub fn list_predicate(
    t: &Task,
    show_done: bool,
    show_future: bool,
    today: &str,
    filter: &Filter,
    needle: Option<&str>,
) -> (r: bool)
    requires
        encode_utf8(t.raw@).len() <= usize::MAX,
    ensures
        r == list_shows(*t, show_done, show_future, today@, *filter, needle_view(needle)),
{
    if t.done && !show_done {
        return false;
    }
    if !show_future && is_future_threshold(t, today) {
        return false;
    }
    passes_user_filter(t, filter, needle)
}

/// The picked lists of the tasks that are not done, in order.
pub open spec fn open_picks(tasks: Seq<Task>, picks: Seq<Seq<Seq<char>>>) -> Seq<Seq<Seq<char>>>
    decreases tasks.len(),
{
    if tasks.len() == 0 {
        Seq::empty()
    } else {
        let r = open_picks(tasks.drop_last(), picks.drop_last());
        if tasks.last().done {
            r
        } else {
            r.push(picks.last())
        }
    }
}

/// The views of the lists that `pick` returned, one per task.
pub open spec fn picks_view(got: Seq<&Vec<String>>) -> Seq<Seq<Seq<char>>> {
    got.map_values(|v: &Vec<String>| strings_view(*v))
}

/// All picked names of the tasks that are not done, in order, repeats kept.
pub open spec fn open_names(tasks: Seq<Task>, picks: Seq<Seq<Seq<char>>>) -> Seq<Seq<char>> {
    concat_all(open_picks(tasks, picks))
}

/// Calls `pick` on each task that is not done, collecting the lists.
fn pick_open<'a, F>(tasks: &'a [Task], pick: F) -> (r: (Vec<&'a Vec<String>>, Ghost<Seq<&'a Vec<String>>>))
    where
        F: Fn(&Task) -> &Vec<String>,
    requires
        forall|t: &Task| call_requires(pick, (t,)),
    ensures
        r.1@.len() == tasks@.len(),
        forall|i: int|
            0 <= i < tasks@.len() && !tasks@[i].done ==> call_ensures(pick, (&tasks@[i],), #[trigger] r.1@[i]),
        lists_view(r.0@) == open_picks(tasks@, picks_view(r.1@)),
{
    let mut lists: Vec<&'a Vec<String>> = Vec::new();
    let ghost mut got: Seq<&'a Vec<String>> = Seq::empty();
    let mut i: usize = 0;
    assert(tasks@.take(0) =~= Seq::<Task>::empty());
    assert(picks_view(got) =~= Seq::<Seq<Seq<char>>>::empty());
    while i < tasks.len()
        invariant
            forall|t: &Task| call_requires(pick, (t,)),
            i <= tasks@.len(),
            got.len() == i,
            forall|k: int| 0 <= k < i && !tasks@[k].done ==> call_ensures(pick, (&tasks@[k],), #[trigger] got[k]),
            lists_view(lists@) == open_picks(tasks@.take(i as int), picks_view(got)),
        decreases tasks.len() - i,
    {
        let ghost old_got = got;
        proof {
            assert(tasks@.take(i + 1).drop_last() =~= tasks@.take(i as int));
            assert(tasks@.take(i + 1).last() == tasks@[i as int]);
        }
        if !tasks[i].done {
            let v = pick(&tasks[i]);
            lists.push(v);
            proof {
                got = got.push(v);
                assert(picks_view(got).drop_last() =~= picks_view(old_got));
                assert(lists_view(lists@) =~= open_picks(tasks@.take(i as int), picks_view(old_got)).push(
                    strings_view(*v),
                ));
            }
        } else {
            let v = &tasks[i].projects;
            proof {
                got = got.push(v);
                assert(picks_view(got).drop_last() =~= picks_view(old_got));
            }
        }
        i = i + 1;
    }
    proof {
        assert(tasks@.take(tasks@.len() as int) =~= tasks@);
    }
    (lists, Ghost(got))
}

/// Order projects/contexts the same way the filter sidebar does: each name
/// that `pick` gives for the tasks that are not done, once, with how many
/// times it occurs, count descending, then name ascending.
pub fn ordered_unique<F>(tasks: &[Task], pick: F) -> (r: Vec<(String, usize)>)
    where
        F: Fn(&Task) -> &Vec<String>,
    requires
        forall|t: &Task| call_requires(pick, (t,)),
        forall|got: Seq<&Vec<String>>|
            got.len() == tasks@.len() && (forall|i: int|
                0 <= i < tasks@.len() && !tasks@[i].done ==> call_ensures(pick, (&tasks@[i],), #[trigger] got[i]))
                ==> #[trigger] open_names(tasks@, picks_view(got)).len() <= usize::MAX,
    ensures
        exists|got: Seq<&Vec<String>>|
            {
                &&& got.len() == tasks@.len()
                &&& forall|i: int|
                    0 <= i < tasks@.len() && !tasks@[i].done ==> call_ensures(pick, (&tasks@[i],), #[trigger] got[i])
                &&& tally_view(r@) == ordered_tally_of(#[trigger] open_names(tasks@, picks_view(got)))
                &&& is_ordered_tally(tally_view(r@), open_names(tasks@, picks_view(got)))
            },
{
    let (lists, Ghost(got)) = pick_open(tasks, pick);
    assert(open_names(tasks@, picks_view(got)).len() <= usize::MAX);
    let r = ordered_tally(lists.as_slice());
    assert(tally_view(r@) == ordered_tally_of(open_names(tasks@, picks_view(got))));
    r
}

/// Each name that `pick` gives for the tasks that are not done, once, in
/// sidebar order (count descending, then name ascending).
pub fn unique_values<F>(tasks: &[Task], pick: F) -> (r: Vec<String>)
    where
        F: Fn(&Task) -> &Vec<String>,
    requires
        forall|t: &Task| call_requires(pick, (t,)),
        forall|got: Seq<&Vec<String>>|
            got.len() == tasks@.len() && (forall|i: int|
                0 <= i < tasks@.len() && !tasks@[i].done ==> call_ensures(pick, (&tasks@[i],), #[trigger] got[i]))
                ==> #[trigger] open_names(tasks@, picks_view(got)).len() <= usize::MAX,
    ensures
        exists|got: Seq<&Vec<String>>|
            {
                &&& got.len() == tasks@.len()
                &&& forall|i: int|
                    0 <= i < tasks@.len() && !tasks@[i].done ==> call_ensures(pick, (&tasks@[i],), #[trigger] got[i])
                &&& strings_view(r) == tally_names(ordered_tally_of(#[trigger] open_names(tasks@, picks_view(got))))
            },
{
    let entries = ordered_unique(tasks, pick);
    let mut r: Vec<String> = Vec::new();
    let mut k: usize = 0;
    while k < entries.len()
        invariant
            k <= entries@.len(),
            strings_view(r) =~= tally_names(tally_view(entries@)).take(k as int),
        decreases entries.len() - k,
    {
        let name = entries[k].0.clone();
        proof {
            assert(tally_names(tally_view(entries@)).take(k + 1) =~= tally_names(tally_view(entries@)).take(
                k as int,
            ).push(name@));
        }
        r.push(name);
        proof {
            assert(strings_view(r) =~= tally_names(tally_view(entries@)).take(k + 1));
        }
        k = k + 1;
    }
    assert(tally_names(tally_view(entries@)).take(entries@.len() as int) =~= tally_names(
        tally_view(entries@),
    ));
    r
}

/// Taking list `i` out of the lists takes exactly its names out of all names.
proof fn lemma_concat_all_remove(ls: Seq<Seq<Seq<char>>>, i: int)
    requires
        0 <= i < ls.len(),
    ensures
        concat_all(ls).to_multiset() == concat_all(ls.remove(i)).to_multiset().add(ls[i].to_multiset()),
    decreases ls.len(),
{
    broadcast use vstd::seq_lib::lemma_multiset_commutative;
    broadcast use vstd::multiset::group_multiset_axioms;

    let rest = ls.drop_last();
    if i == ls.len() - 1 {
        assert(ls.remove(i) =~= rest);
    } else {
        lemma_concat_all_remove(rest, i);
        assert(ls.remove(i).drop_last() =~= rest.remove(i));
        assert(ls.remove(i).last() == ls.last());
        assert(concat_all(ls.remove(i)) == concat_all(rest.remove(i)) + ls.last());
        assert(concat_all(ls).to_multiset() =~= concat_all(ls.remove(i)).to_multiset().add(ls[i].to_multiset()));
    }
}

/// Lists that are a rearrangement of one another hold the same names, as
/// often.
proof fn lemma_concat_all_rearranged(l1: Seq<Seq<Seq<char>>>, l2: Seq<Seq<Seq<char>>>)
    requires
        l1.to_multiset() == l2.to_multiset(),
    ensures
        concat_all(l1).to_multiset() == concat_all(l2).to_multiset(),
    decreases l1.len(),
{
    broadcast use vstd::seq_lib::group_to_multiset_ensures;
    broadcast use vstd::seq_lib::lemma_multiset_commutative;
    broadcast use vstd::multiset::group_multiset_axioms;

    if l1.len() == 0 {
        assert(l1.to_multiset().len() == 0);
        assert(l2.to_multiset().len() == l2.len());
        assert(concat_all(l2) =~= Seq::<Seq<char>>::empty());
        assert(concat_all(l1) =~= Seq::<Seq<char>>::empty());
    } else {
        let x = l1.last();
        let rest = l1.drop_last();
        assert(l1 =~= rest.push(x));
        assert(l1.to_multiset().count(x) > 0);
        assert(l2.contains(x));
        let i = choose|i: int| 0 <= i < l2.len() && l2[i] == x;
        assert(rest.to_multiset() =~= l2.remove(i).to_multiset());
        lemma_concat_all_rearranged(rest, l2.remove(i));
        lemma_concat_all_remove(l2, i);
        assert(concat_all(l1) == concat_all(rest) + x);
    }
}

/// A done task adds no open pair and no picked list, wherever it stands
/// among the tasks.
pub proof fn law_done_tasks_pick_nothing(
    tasks: Seq<Task>,
    picks: Seq<Seq<Seq<char>>>,
    i: int,
    t: Task,
    l: Seq<Seq<char>>,
)
    requires
        picks.len() == tasks.len(),
        0 <= i <= tasks.len(),
        t.done,
    ensures
        open_pairs(tasks.insert(i, t), picks.insert(i, l)) == open_pairs(tasks, picks),
        open_picks(tasks.insert(i, t), picks.insert(i, l)) == open_picks(tasks, picks),
    decreases tasks.len(),
{
    if i == tasks.len() {
        assert(tasks.insert(i, t).drop_last() =~= tasks);
        assert(picks.insert(i, l).drop_last() =~= picks);
    } else {
        law_done_tasks_pick_nothing(tasks.drop_last(), picks.drop_last(), i, t, l);
        assert(tasks.insert(i, t).drop_last() =~= tasks.drop_last().insert(i, t));
        assert(picks.insert(i, l).drop_last() =~= picks.drop_last().insert(i, l));
        assert(tasks.insert(i, t).last() == tasks.last());
        assert(picks.insert(i, l).last() == picks.last());
    }
}

/// The tasks that are not done, each with the list picked from it, in order.
pub open spec fn open_pairs(tasks: Seq<Task>, picks: Seq<Seq<Seq<char>>>) -> Seq<(Task, Seq<Seq<char>>)>
    decreases tasks.len(),
{
    if tasks.len() == 0 {
        Seq::empty()
    } else {
        let r = open_pairs(tasks.drop_last(), picks.drop_last());
        if tasks.last().done {
            r
        } else {
            r.push((tasks.last(), picks.last()))
        }
    }
}

/// The open picks are the lists of the open pairs.
proof fn lemma_open_picks_of_pairs(tasks: Seq<Task>, picks: Seq<Seq<Seq<char>>>)
    ensures
        open_picks(tasks, picks) == open_pairs(tasks, picks).map_values(|e: (Task, Seq<Seq<char>>)| e.1),
    decreases tasks.len(),
{
    if tasks.len() > 0 {
        lemma_open_picks_of_pairs(tasks.drop_last(), picks.drop_last());
        let r = open_pairs(tasks.drop_last(), picks.drop_last());
        if !tasks.last().done {
            assert(r.push((tasks.last(), picks.last())).map_values(|e: (Task, Seq<Seq<char>>)| e.1)
                =~= r.map_values(|e: (Task, Seq<Seq<char>>)| e.1).push(picks.last()));
        }
    }
}

/// Mapping two rearrangements of one another gives rearrangements of one
/// another.
proof fn lemma_map_rearranged<A, B>(s1: Seq<A>, s2: Seq<A>, f: spec_fn(A) -> B)
    requires
        s1.to_multiset() == s2.to_multiset(),
    ensures
        s1.map_values(f).to_multiset() == s2.map_values(f).to_multiset(),
    decreases s1.len(),
{
    broadcast use vstd::seq_lib::group_to_multiset_ensures;
    broadcast use vstd::multiset::group_multiset_axioms;

    if s1.len() == 0 {
        assert(s1.to_multiset().len() == 0);
        assert(s2.to_multiset().len() == s2.len());
        assert(s1.map_values(f) =~= Seq::<B>::empty());
        assert(s2.map_values(f) =~= Seq::<B>::empty());
    } else {
        let x = s1.last();
        let rest = s1.drop_last();
        assert(s1 =~= rest.push(x));
        assert(s1.to_multiset().count(x) > 0);
        assert(s2.contains(x));
        let i = choose|i: int| 0 <= i < s2.len() && s2[i] == x;
        assert(rest.to_multiset() =~= s2.remove(i).to_multiset());
        lemma_map_rearranged(rest, s2.remove(i), f);
        assert(s1.map_values(f) =~= rest.map_values(f).push(f(x)));
        assert(s2.remove(i).map_values(f) =~= s2.map_values(f).remove(i));
        assert(s2.map_values(f)[i] == f(x));
        assert(s2.map_values(f).to_multiset().count(f(x)) > 0);
        assert(s1.map_values(f).to_multiset() =~= s2.map_values(f).to_multiset());
    }
}

/// What `ordered_unique` gives depends only on the tasks that are not done,
/// each with the list picked from it, taken in any order: reordering the
/// tasks, or adding or removing done tasks, changes nothing.
pub proof fn law_ordered_unique_ignores_order_and_done_tasks(
    t1: Seq<Task>,
    p1: Seq<Seq<Seq<char>>>,
    t2: Seq<Task>,
    p2: Seq<Seq<Seq<char>>>,
)
    requires
        open_pairs(t1, p1).to_multiset() == open_pairs(t2, p2).to_multiset(),
    ensures
        ordered_tally_of(open_names(t1, p1)) == ordered_tally_of(open_names(t2, p2)),
{
    lemma_open_picks_of_pairs(t1, p1);
    lemma_open_picks_of_pairs(t2, p2);
    lemma_map_rearranged(open_pairs(t1, p1), open_pairs(t2, p2), |e: (Task, Seq<Seq<char>>)| e.1);
    lemma_concat_all_rearranged(open_picks(t1, p1), open_picks(t2, p2));
    law_tally_depends_only_on_the_multiset(open_names(t1, p1), open_names(t2, p2));
}

/// For a `pick` whose result is determined by the task, `unique_values`
/// lists exactly the names of the entries of `ordered_unique`, in the same
/// order (so no name twice): `entries` and `names` are what the contracts of
/// the two functions say of their results.
pub proof fn law_unique_values_are_ordered_unique_names<F: Fn(&Task) -> &Vec<String>>(
    tasks: Seq<Task>,
    pick: F,
    entries: Seq<(Seq<char>, nat)>,
    names: Seq<Seq<char>>,
)
    requires
        forall|t: &Task, r1: &Vec<String>, r2: &Vec<String>|
            call_ensures(pick, (t,), r1) && call_ensures(pick, (t,), r2) ==> strings_view(*r1)
                == strings_view(*r2),
        exists|got: Seq<&Vec<String>>|
            {
                &&& got.len() == tasks.len()
                &&& forall|i: int|
                    0 <= i < tasks.len() && !tasks[i].done ==> call_ensures(pick, (&tasks[i],), #[trigger] got[i])
                &&& entries == ordered_tally_of(#[trigger] open_names(tasks, picks_view(got)))
            },
        exists|got: Seq<&Vec<String>>|
            {
                &&& got.len() == tasks.len()
                &&& forall|i: int|
                    0 <= i < tasks.len() && !tasks[i].done ==> call_ensures(pick, (&tasks[i],), #[trigger] got[i])
                &&& names == tally_names(ordered_tally_of(#[trigger] open_names(tasks, picks_view(got))))
            },
    ensures
        names == tally_names(entries),
{
    let g1 = choose|got: Seq<&Vec<String>>|
        {
            &&& got.len() == tasks.len()
            &&& forall|i: int|
                0 <= i < tasks.len() && !tasks[i].done ==> call_ensures(pick, (&tasks[i],), #[trigger] got[i])
            &&& entries == ordered_tally_of(#[trigger] open_names(tasks, picks_view(got)))
        };
    let g2 = choose|got: Seq<&Vec<String>>|
        {
            &&& got.len() == tasks.len()
            &&& forall|i: int|
                0 <= i < tasks.len() && !tasks[i].done ==> call_ensures(pick, (&tasks[i],), #[trigger] got[i])
            &&& names == tally_names(ordered_tally_of(#[trigger] open_names(tasks, picks_view(got))))
        };
    lemma_open_picks_agree(tasks, picks_view(g1), picks_view(g2));
}

/// Picked lists that agree on every task that is not done give the same
/// open picks.
proof fn lemma_open_picks_agree(tasks: Seq<Task>, p1: Seq<Seq<Seq<char>>>, p2: Seq<Seq<Seq<char>>>)
    requires
        p1.len() == tasks.len(),
        p2.len() == tasks.len(),
        forall|i: int| 0 <= i < tasks.len() && !tasks[i].done ==> #[trigger] p1[i] == p2[i],
    ensures
        open_picks(tasks, p1) == open_picks(tasks, p2),
    decreases tasks.len(),
{
    if tasks.len() > 0 {
        let n = tasks.len() - 1;
        assert forall|i: int| 0 <= i < n && !tasks.drop_last()[i].done implies #[trigger] p1.drop_last()[i]
            == p2.drop_last()[i] by {
            assert(p1[i] == p2[i]);
        }
        lemma_open_picks_agree(tasks.drop_last(), p1.drop_last(), p2.drop_last());
        if !tasks.last().done {
            assert(p1[n] == p2[n]);
        }
    }
}

/// The tasks that are not done, in order.
pub open spec fn open_tasks(tasks: Seq<Task>) -> Seq<Task>
    decreases tasks.len(),
{
    if tasks.len() == 0 {
        Seq::empty()
    } else if tasks.last().done {
        open_tasks(tasks.drop_last())
    } else {
        open_tasks(tasks.drop_last()).push(tasks.last())
    }
}

/// For a `pick` whose result is determined by the task, the list it gives
/// for `t`.
pub open spec fn picked<F: Fn(&Task) -> &Vec<String>>(pick: F, t: Task) -> Seq<Seq<char>> {
    strings_view(*choose|r: &Vec<String>| call_ensures(pick, (&t,), r))
}

/// With a determined `pick`, the open picks are the picked lists of the
/// open tasks.
proof fn lemma_open_picks_of_determined<F: Fn(&Task) -> &Vec<String>>(
    tasks: Seq<Task>,
    pick: F,
    got: Seq<&Vec<String>>,
)
    requires
        forall|t: &Task, r1: &Vec<String>, r2: &Vec<String>|
            call_ensures(pick, (t,), r1) && call_ensures(pick, (t,), r2) ==> strings_view(*r1)
                == strings_view(*r2),
        got.len() == tasks.len(),
        forall|i: int| 0 <= i < tasks.len() && !tasks[i].done ==> call_ensures(pick, (&tasks[i],), #[trigger] got[i]),
    ensures
        open_picks(tasks, picks_view(got)) == open_tasks(tasks).map_values(|t: Task| picked(pick, t)),
    decreases tasks.len(),
{
    if tasks.len() > 0 {
        let n = tasks.len() - 1;
        let rest = tasks.drop_last();
        let g = got.drop_last();
        assert forall|i: int| 0 <= i < rest.len() && !rest[i].done implies call_ensures(
            pick,
            (&rest[i],),
            #[trigger] g[i],
        ) by {
            assert(rest[i] == tasks[i] && g[i] == got[i]);
        }
        lemma_open_picks_of_determined(rest, pick, g);
        assert(picks_view(got).drop_last() =~= picks_view(g));
        let f = |t: Task| picked(pick, t);
        if !tasks.last().done {
            assert(call_ensures(pick, (&tasks[n],), got[n]));
            let c = choose|r: &Vec<String>| call_ensures(pick, (&tasks[n],), r);
            assert(strings_view(*c) == strings_view(*got[n]));
            assert(open_tasks(tasks).map_values(f) =~= open_tasks(rest).map_values(f).push(picked(pick, tasks[n])));
            assert(picks_view(got).last() == picked(pick, tasks.last()));
        }
    }
}

/// For a `pick` whose result is determined by the task, two calls of
/// `ordered_unique` on task lists whose tasks that are not done are the same
/// up to order give the same result: reordering the tasks, or adding or
/// removing done tasks, changes nothing. `e1` and `e2` are what the contract
/// of `ordered_unique` says of the two results.
pub proof fn law_ordered_unique_of_rearranged_tasks<F: Fn(&Task) -> &Vec<String>>(
    t1: Seq<Task>,
    t2: Seq<Task>,
    pick: F,
    e1: Seq<(Seq<char>, nat)>,
    e2: Seq<(Seq<char>, nat)>,
)
    requires
        forall|t: &Task, r1: &Vec<String>, r2: &Vec<String>|
            call_ensures(pick, (t,), r1) && call_ensures(pick, (t,), r2) ==> strings_view(*r1)
                == strings_view(*r2),
        open_tasks(t1).to_multiset() == open_tasks(t2).to_multiset(),
        exists|got: Seq<&Vec<String>>|
            {
                &&& got.len() == t1.len()
                &&& forall|i: int|
                    0 <= i < t1.len() && !t1[i].done ==> call_ensures(pick, (&t1[i],), #[trigger] got[i])
                &&& e1 == ordered_tally_of(#[trigger] open_names(t1, picks_view(got)))
            },
        exists|got: Seq<&Vec<String>>|
            {
                &&& got.len() == t2.len()
                &&& forall|i: int|
                    0 <= i < t2.len() && !t2[i].done ==> call_ensures(pick, (&t2[i],), #[trigger] got[i])
                &&& e2 == ordered_tally_of(#[trigger] open_names(t2, picks_view(got)))
            },
    ensures
        e1 == e2,
{
    let g1 = choose|got: Seq<&Vec<String>>|
        {
            &&& got.len() == t1.len()
            &&& forall|i: int|
                0 <= i < t1.len() && !t1[i].done ==> call_ensures(pick, (&t1[i],), #[trigger] got[i])
            &&& e1 == ordered_tally_of(#[trigger] open_names(t1, picks_view(got)))
        };
    let g2 = choose|got: Seq<&Vec<String>>|
        {
            &&& got.len() == t2.len()
            &&& forall|i: int|
                0 <= i < t2.len() && !t2[i].done ==> call_ensures(pick, (&t2[i],), #[trigger] got[i])
            &&& e2 == ordered_tally_of(#[trigger] open_names(t2, picks_view(got)))
        };
    lemma_open_picks_of_determined(t1, pick, g1);
    lemma_open_picks_of_determined(t2, pick, g2);
    lemma_map_rearranged(open_tasks(t1), open_tasks(t2), |t: Task| picked(pick, t));
    lemma_concat_all_rearranged(open_picks(t1, picks_view(g1)), open_picks(t2, picks_view(g2)));
    law_tally_depends_only_on_the_multiset(open_names(t1, picks_view(g1)), open_names(t2, picks_view(g2)));
}

/// The due bucket is decided by comparing the whole due date with today in
/// string order: before today is overdue, equal is today, after is
/// upcoming; no due date is its own bucket.
pub proof fn law_due_bucket_follows_string_order(due: Option<Seq<char>>, today: Seq<char>)
    ensures
        due is None <==> bucket_of(due, today) == ListDueBucket::NoDue,
        due matches Some(d) ==> {
            &&& (bucket_of(due, today) == ListDueBucket::Overdue <==> lex_lt(d, today))
            &&& (bucket_of(due, today) == ListDueBucket::Today <==> d == today)
            &&& (bucket_of(due, today) == ListDueBucket::Upcoming <==> lex_lt(today, d))
        },
{
    if let Some(d) = due {
        lemma_lex_total(d, today);
        lemma_lex_asymmetric(d, today);
        lemma_lex_irreflexive(d);
    }
}

/// Each part of the user filter must hold on its own: a project that is set
/// must be among the task's projects, a context that is set must be among
/// its contexts, and a needle that is given must be found in the task text
/// after the priority marker; and when all parts hold, the task passes.
pub proof fn law_user_filter_needs_every_part(t: Task, filter: Filter, needle: Option<Seq<char>>)
    ensures
        filter.project matches Some(p) && !strings_view(t.projects).contains(p@) ==> !user_filter_holds(
            t,
            filter,
            needle,
        ),
        filter.context matches Some(c) && !strings_view(t.contexts).contains(c@) ==> !user_filter_holds(
            t,
            filter,
            needle,
        ),
        needle matches Some(n) && substring_result(body_after_priority_spec(t.raw@), n) is None
            ==> !user_filter_holds(t, filter, needle),
        (filter.project matches Some(p) ==> strings_view(t.projects).contains(p@)) && (
        filter.context matches Some(c) ==> strings_view(t.contexts).contains(c@)) && (needle matches Some(
            n,
        ) ==> substring_result(body_after_priority_spec(t.raw@), n) is Some) ==> user_filter_holds(
            t,
            filter,
            needle,
        ),
{
}

/// A done task is hidden unless done tasks are shown, whatever the other
/// flags; a task whose threshold lies ahead is hidden unless future tasks
/// are shown; and with both shown, exactly the user filter decides.
pub proof fn law_list_hides_done_and_future_tasks(
    t: Task,
    show_done: bool,
    show_future: bool,
    today: Seq<char>,
    filter: Filter,
    needle: Option<Seq<char>>,
)
    ensures
        t.done && !show_done ==> !list_shows(t, show_done, show_future, today, filter, needle),
        threshold_in_future(t, today) && !show_future ==> !list_shows(
            t,
            show_done,
            show_future,
            today,
            filter,
            needle,
        ),
        !user_filter_holds(t, filter, needle) ==> !list_shows(t, show_done, show_future, today, filter, needle),
        show_done && show_future ==> (list_shows(t, show_done, show_future, today, filter, needle)
            <==> user_filter_holds(t, filter, needle)),
        !t.done && !threshold_in_future(t, today) ==> (list_shows(t, show_done, show_future, today, filter, needle)
            <==> user_filter_holds(t, filter, needle)),
{
}

/// Due order compares the due dates as strings; priority order compares
/// the priority letters first and, for equal priorities, the due dates.
pub proof fn law_sort_orders_compare_the_fields(a: Task, b: Task)
    ensures
        a.due is Some && b.due is Some ==> (goes_before(a, b, Sort::Due) <==> lex_lt(a.due->0@, b.due->0@)),
        a.priority is Some && b.priority is Some && a.priority->0 < b.priority->0 ==> goes_before(
            a,
            b,
            Sort::Priority,
        ),
        a.priority is Some && b.priority is Some && b.priority->0 < a.priority->0 ==> !goes_before(
            a,
            b,
            Sort::Priority,
        ),
        a.priority == b.priority ==> (goes_before(a, b, Sort::Priority) <==> goes_before(a, b, Sort::Due)),
        !goes_before(a, b, Sort::File),
{
}

/// A resolved threshold hides the task exactly when it is strictly after
/// today in string order; no resolved date never hides it.
pub proof fn law_future_means_strictly_after_today(resolved: Option<Seq<char>>, today: Seq<char>)
    ensures
        resolved is None ==> !resolved_in_future(resolved, today),
        resolved matches Some(d) ==> (resolved_in_future(resolved, today) <==> lex_lt(today, d)),
        resolved == Some(today) ==> !resolved_in_future(resolved, today),
{
    lemma_lex_irreflexive(today);
}

} // verus!
