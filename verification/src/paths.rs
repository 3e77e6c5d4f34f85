//! Where the todo.txt file is taken from.
//!
//! The order (todo.sh-compatible): an explicit path argument, then the
//! `TODO_FILE` variable, then `TODO_DIR/todo.txt`, then `./todo.txt` if it
//! exists, else the bundled sample. The done.txt path is the `DONE_FILE`
//! variable, else `done.txt` beside the todo file. Reading the environment
//! and the file system is the caller's part; this module decides.
use vstd::prelude::*;

verus! {

/// The source of the todo.txt path.
#[derive(Debug, Clone, Copy, PartialEq, Eq, Structural)]
pub enum TodoSource {
    /// The explicit path argument.
    Argument,
    /// The `TODO_FILE` variable, used verbatim.
    TodoFileVar,
    /// `todo.txt` inside the `TODO_DIR` directory.
    TodoDirVar,
    /// `todo.txt` in the working directory.
    WorkingDir,
    /// The bundled sample, written to the temp directory.
    Sample,
}

/// The first source in the resolution order that is available.
pub open spec fn todo_source_of(
    has_argument: bool,
    has_todo_file: bool,
    has_todo_dir: bool,
    cwd_has_todo: bool,
) -> TodoSource {
    if has_argument {
        TodoSource::Argument
    } else if has_todo_file {
        TodoSource::TodoFileVar
    } else if has_todo_dir {
        TodoSource::TodoDirVar
    } else if cwd_has_todo {
        TodoSource::WorkingDir
    } else {
        TodoSource::Sample
    }
}

/// Picks where the todo.txt path comes from, given which sources are
/// available.
pub fn choose_todo_source(
    has_argument: bool,
    has_todo_file: bool,
    has_todo_dir: bool,
    cwd_has_todo: bool,
) -> (s: TodoSource)
    ensures
        s == todo_source_of(has_argument, has_todo_file, has_todo_dir, cwd_has_todo),
{
    if has_argument {
        TodoSource::Argument
    } else if has_todo_file {
        TodoSource::TodoFileVar
    } else if has_todo_dir {
        TodoSource::TodoDirVar
    } else if cwd_has_todo {
        TodoSource::WorkingDir
    } else {
        TodoSource::Sample
    }
}

/// The sources whose file (and missing parent directories) is created when
/// absent: all but the working directory and the sample.
pub open spec fn creates_missing(s: TodoSource) -> bool {
    s is Argument || s is TodoFileVar || s is TodoDirVar
}

/// Whether the file of this source is created when absent.
pub fn creates_missing_file(s: TodoSource) -> (r: bool)
    ensures
        r == creates_missing(s),
{
    match s {
        TodoSource::Argument | TodoSource::TodoFileVar | TodoSource::TodoDirVar => true,
        TodoSource::WorkingDir | TodoSource::Sample => false,
    }
}

/// The source of the done.txt path.
#[derive(Debug, Clone, Copy, PartialEq, Eq, Structural)]
pub enum DoneSource {
    /// The `DONE_FILE` variable, used verbatim.
    DoneFileVar,
    /// `done.txt` in the directory of the todo file.
    BesideTodo,
    /// `done.txt` in the working directory (the todo path has no parent).
    WorkingDir,
}

/// `DONE_FILE` wins; otherwise `done.txt` beside the todo file, or in the
/// working directory when the todo path has no parent.
pub open spec fn done_source_of(has_done_file: bool, todo_has_parent: bool) -> DoneSource {
    if has_done_file {
        DoneSource::DoneFileVar
    } else if todo_has_parent {
        DoneSource::BesideTodo
    } else {
        DoneSource::WorkingDir
    }
}

/// Picks where the done.txt path comes from.
pub fn choose_done_source(has_done_file: bool, todo_has_parent: bool) -> (s: DoneSource)
    ensures
        s == done_source_of(has_done_file, todo_has_parent),
{
    if has_done_file {
        DoneSource::DoneFileVar
    } else if todo_has_parent {
        DoneSource::BesideTodo
    } else {
        DoneSource::WorkingDir
    }
}

} // verus!
