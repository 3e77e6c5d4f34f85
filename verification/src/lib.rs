//! Task filtering, sorting and searching for a todo.txt task manager.
//!
//! - `todo`: tasks and the reading of todo.txt lines and files.
//! - `search`: case-insensitive substring and subsequence matching.
//! - `dates`: calendar dates written `YYYY-MM-DD`.
//! - `filter`: list predicates, due buckets, sort orders, sidebar lists.
//! - `tally`: counting names and ordering them for the sidebar.
//! - `paths`: where the todo.txt and done.txt files are taken from.
//! - `threshold`: resolving `t:` values, absolute or relative, to dates.
//! - `text`: character, UTF-8 and string-order helpers.
pub mod dates;
pub mod filter;
pub mod paths;
pub mod search;
pub mod tally;
pub mod text;
pub mod threshold;
pub mod todo;
