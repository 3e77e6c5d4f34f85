use tuxedo::paths::{choose_done_source, choose_todo_source, creates_missing_file, DoneSource, TodoSource};

#[test]
fn todo_source_follows_resolution_order() {
    assert_eq!(choose_todo_source(true, true, true, true), TodoSource::Argument);
    assert_eq!(choose_todo_source(false, true, true, true), TodoSource::TodoFileVar);
    assert_eq!(choose_todo_source(false, false, true, true), TodoSource::TodoDirVar);
    assert_eq!(choose_todo_source(false, false, false, true), TodoSource::WorkingDir);
    assert_eq!(choose_todo_source(false, false, false, false), TodoSource::Sample);
    assert!(creates_missing_file(TodoSource::Argument));
    assert!(creates_missing_file(TodoSource::TodoDirVar));
    assert!(!creates_missing_file(TodoSource::WorkingDir));
    assert!(!creates_missing_file(TodoSource::Sample));
}

#[test]
fn done_file_variable_wins_over_the_sibling() {
    assert_eq!(choose_done_source(true, true), DoneSource::DoneFileVar);
    assert_eq!(choose_done_source(true, false), DoneSource::DoneFileVar);
    assert_eq!(choose_done_source(false, true), DoneSource::BesideTodo);
    assert_eq!(choose_done_source(false, false), DoneSource::WorkingDir);
}
