use tuxedo::todo::{body_after_priority, parse_file, parse_line};

#[test]
fn parse_line_reads_every_field() {
    let t = parse_line("(B) 2026-04-30 Call mom +family @phone due:2026-05-02 t:2026-05-01");
    assert_eq!(t.raw, "(B) 2026-04-30 Call mom +family @phone due:2026-05-02 t:2026-05-01");
    assert!(!t.done);
    assert_eq!(t.priority, Some('B'));
    assert_eq!(t.created_date.as_deref(), Some("2026-04-30"));
    assert_eq!(t.due.as_deref(), Some("2026-05-02"));
    assert_eq!(t.threshold.as_deref(), Some("2026-05-01"));
    assert_eq!(t.projects, vec!["family".to_string()]);
    assert_eq!(t.contexts, vec!["phone".to_string()]);
}

#[test]
fn parse_line_done_task_skips_completion_date() {
    let t = parse_line("x 2026-05-02 2026-05-01 Pay rent +home");
    assert!(t.done);
    assert_eq!(t.priority, None);
    assert_eq!(t.created_date.as_deref(), Some("2026-05-01"));
    assert_eq!(t.projects, vec!["home".to_string()]);
}

#[test]
fn parse_line_done_task_with_only_completion_date() {
    let t = parse_line("x 2026-05-02 Pay rent");
    assert!(t.done);
    assert_eq!(t.created_date, None);
}

#[test]
fn parse_line_markers_need_a_following_space() {
    let t = parse_line("(A)");
    assert_eq!(t.priority, None);
    let t = parse_line("x");
    assert!(!t.done);
    let t = parse_line("xylophone practice");
    assert!(!t.done);
    let t = parse_line("(a) lowercase is no priority");
    assert_eq!(t.priority, None);
}

#[test]
fn parse_line_tags_need_a_name_and_first_value_wins() {
    let t = parse_line("a + @ due: due:1 due:2 +x +x");
    assert_eq!(t.projects, vec!["x".to_string(), "x".to_string()]);
    assert!(t.contexts.is_empty());
    assert_eq!(t.due.as_deref(), Some("1"));
    assert_eq!(t.threshold, None);
}

#[test]
fn parse_file_skips_blank_lines_and_carriage_returns() {
    let tasks = parse_file("first +a\r\n\n   \r\nsecond\n");
    assert_eq!(tasks.len(), 2);
    assert_eq!(tasks[0].raw, "first +a");
    assert_eq!(tasks[0].projects, vec!["a".to_string()]);
    assert_eq!(tasks[1].raw, "second");
}

#[test]
fn parse_file_of_empty_text_has_no_tasks() {
    assert!(parse_file("").is_empty());
}

#[test]
fn body_after_priority_strips_only_the_marker() {
    assert_eq!(body_after_priority("(A) Call mom"), "Call mom");
    assert_eq!(body_after_priority("Call (A) mom"), "Call (A) mom");
    assert_eq!(body_after_priority("(A)Call"), "(A)Call");
    assert_eq!(body_after_priority("(é) x"), "(é) x");
}

#[test]
fn priority_is_read_exactly_when_the_marker_is_stripped() {
    for line in ["(A) Call mom", "(Z) z", "(A)Call", "(a) x", "x (A) y", "(A)", "Call (A) mom"] {
        let t = parse_line(line);
        let stripped = body_after_priority(line) != line;
        assert_eq!(t.priority.is_some(), stripped, "line {:?}", line);
        if stripped {
            assert_eq!(t.priority, line.chars().nth(1));
        }
    }
}
