# tuxedo

The task logic of a todo.txt task manager, written in Verus with its
behaviour stated as contracts and proved.

- `src/todo.rs`: tasks and the reading of todo.txt lines and files.
- `src/search.rs`: case-insensitive substring and subsequence matching that
  returns byte offsets of the matched characters.
- `src/filter.rs`: the list predicate, due buckets, sort orders and the
  sidebar lists of projects and contexts.
- `src/tally.rs`: counting names and ordering them for the sidebar.
- `src/dates.rs`, `src/text.rs`: calendar dates and their arithmetic,
  character and string-order helpers.
- `src/threshold.rs`: resolving `t:` values to dates.
- `src/paths.rs`: which source the todo.txt and done.txt paths are taken
  from.
- `app/`: the file-system and environment side of path resolution.
- `tests/`: tests run against the compiled library.

## Thresholds

A task whose `t:` value resolves to a date after today is hidden from the
list unless future tasks are shown (`filter::is_future_threshold`). A `t:`
value resolves (`threshold::resolve_threshold_value`) when it is either

- an absolute date `YYYY-MM-DD`, or
- an offset: an optional sign, digits and a unit `d` (days), `w` (weeks),
  `m` (months) or `y` (years), such as `-3d`, counted from the task's due
  date, or from its creation date when it has no valid due date. Months and
  years keep the day of the month, clamped to the month's last day.

A malformed value, an offset without an anchor date, and a result outside
the years 0000 to 9999 leave the task visible.

## Sort orders

Priority order sorts tasks by priority letter, with tasks that have no
priority after every letter, and ties broken by due date. Due order sorts by
due date (compared as strings), with tasks that have no due date after every
due value. Both sorts are stable.
