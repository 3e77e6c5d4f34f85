use tuxedo::filter::{
    due_bucket, is_future_resolved, is_future_threshold, list_predicate, ordered_unique,
    passes_user_filter, resolve_threshold, sort_by_prefs, unique_values, Filter, ListDueBucket, Sort,
};
use tuxedo::todo::{parse_file, parse_line};

fn no_filter() -> Filter {
    Filter { project: None, context: None }
}

#[test]
fn labels_name_each_bucket() {
    assert_eq!(ListDueBucket::Overdue.label(), "OVERDUE");
    assert_eq!(ListDueBucket::Today.label(), "TODAY");
    assert_eq!(ListDueBucket::Upcoming.label(), "UPCOMING");
    assert_eq!(ListDueBucket::NoDue.label(), "NO DUE DATE");
}

#[test]
fn due_bucket_compares_with_today() {
    let today = "2026-05-10";
    assert_eq!(due_bucket(&parse_line("a due:2026-05-09"), today), ListDueBucket::Overdue);
    assert_eq!(due_bucket(&parse_line("a due:2026-05-10"), today), ListDueBucket::Today);
    assert_eq!(due_bucket(&parse_line("a due:2026-05-11"), today), ListDueBucket::Upcoming);
    assert_eq!(due_bucket(&parse_line("a"), today), ListDueBucket::NoDue);
}

#[test]
fn sort_by_priority_then_due() {
    let tasks = parse_file(
        "b due:2026-01-02\n(B) c\n(A) d due:2026-03-01\n(A) e due:2026-02-01\nf due:2026-01-01\n(A) g\n",
    );
    let mut idxs: Vec<usize> = (0..tasks.len()).collect();
    sort_by_prefs(&mut idxs, &tasks, Sort::Priority);
    assert_eq!(idxs, vec![3, 2, 5, 1, 4, 0]);
}

#[test]
fn sort_by_due_is_stable() {
    let tasks = parse_file("a\nb due:2026-02-01\nc\nd due:2026-01-01\ne due:2026-02-01\n");
    let mut idxs: Vec<usize> = vec![4, 0, 1, 2, 3];
    sort_by_prefs(&mut idxs, &tasks, Sort::Due);
    assert_eq!(idxs, vec![3, 4, 1, 0, 2]);
}

#[test]
fn sort_by_file_keeps_order() {
    let tasks = parse_file("(C) a\n(A) b\n(B) c\n");
    let mut idxs: Vec<usize> = vec![2, 0, 1];
    sort_by_prefs(&mut idxs, &tasks, Sort::File);
    assert_eq!(idxs, vec![2, 0, 1]);
}

#[test]
fn user_filter_needs_project_context_and_needle() {
    let t = parse_line("(A) Call dentist +health @phone");
    assert!(passes_user_filter(&t, &no_filter(), None));
    let f = Filter { project: Some("health".to_string()), context: Some("phone".to_string()) };
    assert!(passes_user_filter(&t, &f, Some("dent")));
    // The needle must occur as a contiguous run, not scattered.
    assert!(!passes_user_filter(&t, &f, Some("cade")));
    let f = Filter { project: Some("work".to_string()), context: None };
    assert!(!passes_user_filter(&t, &f, None));
    let f = Filter { project: None, context: Some("home".to_string()) };
    assert!(!passes_user_filter(&t, &f, None));
    assert!(!passes_user_filter(&t, &no_filter(), Some("zzz")));
    // The priority marker is not part of the searched text.
    assert!(!passes_user_filter(&t, &no_filter(), Some("(a)")));
    assert!(passes_user_filter(&t, &no_filter(), Some("CALL")));
}

#[test]
fn threshold_in_the_future_only_for_real_later_dates() {
    let today = "2026-05-10";
    assert!(is_future_threshold(&parse_line("a t:2026-05-11"), today));
    assert!(!is_future_threshold(&parse_line("a t:2026-05-10"), today));
    assert!(!is_future_threshold(&parse_line("a t:2026-05-09"), today));
    assert!(!is_future_threshold(&parse_line("a"), today));
    assert!(!is_future_threshold(&parse_line("a t:soon"), today));
    assert!(!is_future_threshold(&parse_line("a t:2026-13-01"), today));
    assert!(!is_future_threshold(&parse_line("a t:2027-02-29"), today));
    assert!(is_future_threshold(&parse_line("a t:2028-02-29"), today));
    assert!(!is_future_threshold(&parse_line("a t:2100-02-29"), today));
    assert!(is_future_threshold(&parse_line("a t:2400-02-29"), today));
    assert!(!is_future_threshold(&parse_line("a t:2026-06-31"), today));
}

#[test]
fn list_predicate_hides_done_and_future_tasks() {
    let today = "2026-05-10";
    let done = parse_line("x 2026-05-01 done thing");
    let later = parse_line("later thing t:2026-06-01");
    let plain = parse_line("plain thing +p");
    assert!(!list_predicate(&done, false, false, today, &no_filter(), None));
    assert!(list_predicate(&done, true, false, today, &no_filter(), None));
    assert!(!list_predicate(&later, false, false, today, &no_filter(), None));
    assert!(list_predicate(&later, false, true, today, &no_filter(), None));
    assert!(list_predicate(&plain, false, false, today, &no_filter(), Some("plain")));
    assert!(!list_predicate(&plain, false, false, today, &no_filter(), Some("nope")));
}

#[test]
fn ordered_unique_counts_open_tasks_only() {
    let tasks = parse_file("a +w @x\nb +h +w\nx 2026-01-01 c +z\nd +h @y +w\n");
    let projects = ordered_unique(&tasks, |t| &t.projects);
    assert_eq!(projects, vec![("w".to_string(), 3), ("h".to_string(), 2)]);
    let contexts = ordered_unique(&tasks, |t| &t.contexts);
    assert_eq!(contexts, vec![("x".to_string(), 1), ("y".to_string(), 1)]);
    assert_eq!(unique_values(&tasks, |t| &t.contexts), vec!["x".to_string(), "y".to_string()]);
}

#[test]
fn ordered_unique_of_no_tasks_is_empty() {
    let none: Vec<tuxedo::todo::Task> = Vec::new();
    assert!(ordered_unique(&none, |t| &t.projects).is_empty());
}

#[test]
fn sorting_fewer_than_two_indices_touches_no_task() {
    let none: Vec<tuxedo::todo::Task> = Vec::new();
    let mut one: Vec<usize> = vec![7];
    sort_by_prefs(&mut one, &none, Sort::Due);
    assert_eq!(one, vec![7]);
    let mut far: Vec<usize> = vec![9, 3];
    sort_by_prefs(&mut far, &none, Sort::File);
    assert_eq!(far, vec![9, 3]);
}

#[test]
fn ordered_unique_breaks_count_ties_by_name() {
    let tasks = parse_file("a +b +a\nb +c\nc +a +c\n");
    assert_eq!(
        ordered_unique(&tasks, |t| &t.projects),
        vec![("a".to_string(), 2), ("c".to_string(), 2), ("b".to_string(), 1)]
    );
}

#[test]
fn sorting_twice_gives_what_sorting_once_gives() {
    let tasks = parse_file("(B) a due:2026-02-01\nb\n(A) c\n(B) d due:2026-01-01\ne due:2026-01-01\n");
    for sort in [Sort::Priority, Sort::Due, Sort::File] {
        let mut once: Vec<usize> = vec![4, 3, 2, 1, 0];
        sort_by_prefs(&mut once, &tasks, sort);
        let mut twice = once.clone();
        sort_by_prefs(&mut twice, &tasks, sort);
        assert_eq!(once, twice);
    }
}

#[test]
fn no_priority_sorts_after_priority_z() {
    // The task without a priority has the earlier due date, yet comes last.
    let tasks = parse_file("a due:2026-01-01\n(Z) b due:2026-02-01\n(Z) c\n");
    let mut idxs: Vec<usize> = vec![0, 1, 2];
    sort_by_prefs(&mut idxs, &tasks, Sort::Priority);
    assert_eq!(idxs, vec![1, 2, 0]);
}

#[test]
fn no_due_date_sorts_after_any_due_value() {
    let tasks = parse_file("a\nb due:zebra\nc due:\u{e9}t\u{e9}\nd due:2026-01-01\n");
    let mut idxs: Vec<usize> = vec![0, 1, 2, 3];
    sort_by_prefs(&mut idxs, &tasks, Sort::Due);
    assert_eq!(idxs, vec![3, 1, 2, 0]);
    let mut idxs: Vec<usize> = vec![0, 1, 2, 3];
    sort_by_prefs(&mut idxs, &tasks, Sort::Priority);
    assert_eq!(idxs, vec![3, 1, 2, 0]);
}

#[test]
fn resolved_threshold_is_future_only_when_after_today() {
    let today = "2026-05-10";
    assert!(is_future_resolved(Some("2026-05-11"), today));
    assert!(!is_future_resolved(Some("2026-05-10"), today));
    assert!(!is_future_resolved(Some("2026-05-09"), today));
    assert!(!is_future_resolved(None, today));
}

#[test]
fn thresholds_resolve_absolute_dates_and_offsets() {
    let r = |line: &str| resolve_threshold(&parse_line(line));
    assert_eq!(r("a t:2026-06-01"), Some("2026-06-01".to_string()));
    assert_eq!(r("a t:2026-02-30"), None);
    assert_eq!(r("a t:soon"), None);
    assert_eq!(r("a"), None);
    // Offsets move the due date, or else the creation date.
    assert_eq!(r("a due:2026-06-10 t:-3d"), Some("2026-06-07".to_string()));
    assert_eq!(r("2026-05-01 a t:2w"), Some("2026-05-15".to_string()));
    assert_eq!(r("2026-05-01 a due:2026-06-10 t:+1d"), Some("2026-06-11".to_string()));
    assert_eq!(r("a due:2025-12-25 t:10d"), Some("2026-01-04".to_string()));
    assert_eq!(r("a due:2024-03-01 t:-1d"), Some("2024-02-29".to_string()));
    assert_eq!(r("a due:2026-01-31 t:1m"), Some("2026-02-28".to_string()));
    assert_eq!(r("a due:2026-03-31 t:-1m"), Some("2026-02-28".to_string()));
    assert_eq!(r("a due:2024-02-29 t:1y"), Some("2025-02-28".to_string()));
    assert_eq!(r("a due:2026-06-10 t:0d"), Some("2026-06-10".to_string()));
    // A malformed due date falls back to the creation date.
    assert_eq!(r("2026-05-01 a due:soon t:1d"), Some("2026-05-02".to_string()));
    // No anchor, malformed offsets, and results out of range do not resolve.
    assert_eq!(r("a t:-3d"), None);
    assert_eq!(r("a due:2026-06-10 t:3"), None);
    assert_eq!(r("a due:2026-06-10 t:-d"), None);
    assert_eq!(r("a due:2026-06-10 t:3x"), None);
    assert_eq!(r("a due:0000-01-05 t:-10d"), None);
    assert_eq!(r("a due:9999-12-31 t:1d"), None);
    assert_eq!(r("a due:2026-06-10 t:99999999999999999999999d"), None);
    assert_eq!(r("a due:2026-06-10 t:-8000y"), None);
}

#[test]
fn relative_threshold_after_today_hides_the_task() {
    let today = "2026-05-10";
    let t = parse_line("a due:2026-06-10 t:-3d");
    assert!(is_future_threshold(&t, today));
    assert!(!list_predicate(&t, false, false, today, &no_filter(), None));
    assert!(list_predicate(&t, false, true, today, &no_filter(), None));
    let t = parse_line("a due:2026-05-12 t:-3d");
    assert!(!is_future_threshold(&t, today));
}

#[test]
fn ordered_unique_ignores_done_tasks_and_order() {
    let a = parse_file("a +w\nb +h +w\nd +h\n");
    let b = parse_file("x 2026-01-01 z +h +q\nd +h\nb +w +h\nx 2026-01-02 y +w\na +w\n");
    assert_eq!(ordered_unique(&a, |t| &t.projects), ordered_unique(&b, |t| &t.projects));
    let names: Vec<String> = ordered_unique(&b, |t| &t.projects).into_iter().map(|(n, _)| n).collect();
    assert_eq!(unique_values(&b, |t| &t.projects), names);
}
