//! Tasks in todo.txt format and the parsing of a todo.txt file into them.
//!
//! A line is split on single spaces into pieces. A line whose first piece
//! is `x` (followed by more text) is done; an open line may start with a
//! priority `(A)`..`(Z)`; then come an optional completion date (done lines
//! only) and an optional creation date, both `YYYY-MM-DD`. Anywhere in the
//! line, `+name` is a project, `@name` a context, `due:value` the due date
//! and `t:value` the threshold date (the first such piece wins).
use vstd::prelude::*;

use crate::text::chars_of;

verus! {

/// One task: a line of a todo.txt file and what was read from it.
#[derive(Debug)]
pub struct Task {
    pub raw: String,
    pub done: bool,
    pub priority: Option<char>,
    pub created_date: Option<String>,
    pub due: Option<String>,
    pub threshold: Option<String>,
    pub projects: Vec<String>,
    pub contexts: Vec<String>,
}

/// The pieces of `s` between occurrences of `sep`, as `str::split` gives them
/// (empty pieces included; always at least one piece).
pub open spec fn split_on(s: Seq<char>, sep: char) -> Seq<Seq<char>>
    decreases s.len(),
{
    if s.len() == 0 {
        seq![Seq::<char>::empty()]
    } else {
        let p = split_on(s.drop_last(), sep);
        if s.last() == sep {
            p.push(Seq::<char>::empty())
        } else {
            p.update(p.len() - 1, p.last().push(s.last()))
        }
    }
}

/// There is always at least one piece.
pub proof fn lemma_split_on_nonempty(s: Seq<char>, sep: char)
    ensures
        split_on(s, sep).len() >= 1,
    decreases s.len(),
{
    if s.len() > 0 {
        lemma_split_on_nonempty(s.drop_last(), sep);
    }
}

/// The view of an optional string.
pub open spec fn opt_view(o: Option<String>) -> Option<Seq<char>> {
    match o {
        Some(s) => Some(s@),
        None => None,
    }
}

/// The views of a vector of strings.
pub open spec fn strings_view(v: Vec<String>) -> Seq<Seq<char>> {
    v@.map_values(|s: String| s@)
}

/// A priority piece: `(` an uppercase ASCII letter `)`.
pub open spec fn is_priority_piece(p: Seq<char>) -> bool {
    p.len() == 3 && p[0] == '(' && 'A' <= p[1] && p[1] <= 'Z' && p[2] == ')'
}

pub open spec fn is_digit(c: char) -> bool {
    '0' <= c && c <= '9'
}

/// A piece shaped like a date: `YYYY-MM-DD` with decimal digits.
pub open spec fn is_date_shape(p: Seq<char>) -> bool {
    &&& p.len() == 10
    &&& p[4] == '-'
    &&& p[7] == '-'
    &&& forall|i: int| 0 <= i < 10 && i != 4 && i != 7 ==> is_digit(#[trigger] p[i])
}

/// The line is marked done: it starts with `x ` .
pub open spec fn words_done(w: Seq<Seq<char>>) -> bool {
    w.len() >= 2 && w[0] == seq!['x']
}

/// The priority letter of an open line that starts with `(X) `.
pub open spec fn words_priority(w: Seq<Seq<char>>) -> Option<char> {
    if !words_done(w) && w.len() >= 2 && is_priority_piece(w[0]) {
        Some(w[0][1])
    } else {
        None
    }
}

/// Index of the piece that may hold the creation date.
pub open spec fn created_index(w: Seq<Seq<char>>) -> int {
    let k = if words_done(w) {
        1int
    } else if words_priority(w) is Some {
        1int
    } else {
        0int
    };
    if words_done(w) && k < w.len() && is_date_shape(w[k]) {
        k + 1
    } else {
        k
    }
}

/// The creation date of the line, if the piece after the markers is a date.
pub open spec fn words_created(w: Seq<Seq<char>>) -> Option<Seq<char>> {
    let k = created_index(w);
    if k < w.len() && is_date_shape(w[k]) {
        Some(w[k])
    } else {
        None
    }
}

/// A tag piece: the marker `c` followed by at least one character.
pub open spec fn is_tag(p: Seq<char>, c: char) -> bool {
    p.len() >= 2 && p[0] == c
}

/// The names of all tag pieces with marker `c`, in order, marker removed.
pub open spec fn words_tags(w: Seq<Seq<char>>, c: char) -> Seq<Seq<char>>
    decreases w.len(),
{
    if w.len() == 0 {
        Seq::empty()
    } else {
        let r = words_tags(w.drop_last(), c);
        if is_tag(w.last(), c) {
            r.push(w.last().drop_first())
        } else {
            r
        }
    }
}

/// A `key:value` piece for `key` (which includes the colon) with a non-empty value.
pub open spec fn is_key_piece(p: Seq<char>, key: Seq<char>) -> bool {
    p.len() > key.len() && p.take(key.len() as int) == key
}

/// The value of the first `key:value` piece.
pub open spec fn words_value(w: Seq<Seq<char>>, key: Seq<char>) -> Option<Seq<char>>
    decreases w.len(),
{
    if w.len() == 0 {
        None
    } else {
        match words_value(w.drop_last(), key) {
            Some(v) => Some(v),
            None => if is_key_piece(w.last(), key) {
                Some(w.last().skip(key.len() as int))
            } else {
                None
            },
        }
    }
}

/// The key of due dates.
pub open spec fn due_tag() -> Seq<char> {
    seq!['d', 'u', 'e', ':']
}

/// The key of threshold dates.
pub open spec fn threshold_tag() -> Seq<char> {
    seq!['t', ':']
}

/// `t` is what the line `line` says.
pub open spec fn parsed_from(t: Task, line: Seq<char>) -> bool {
    let w = split_on(line, ' ');
    &&& t.raw@ == line
    &&& t.done == words_done(w)
    &&& t.priority == words_priority(w)
    &&& opt_view(t.created_date) == words_created(w)
    &&& opt_view(t.due) == words_value(w, due_tag())
    &&& opt_view(t.threshold) == words_value(w, threshold_tag())
    &&& strings_view(t.projects) == words_tags(w, '+')
    &&& strings_view(t.contexts) == words_tags(w, '@')
}

/// Character ranges of the pieces of `cs` between occurrences of `sep`.
fn split_ranges(cs: &Vec<char>, sep: char) -> (r: Vec<(usize, usize)>)
    ensures
        r@.len() == split_on(cs@, sep).len(),
        forall|k: int|
            0 <= k < r@.len() ==> (#[trigger] r@[k]).0 <= r@[k].1 <= cs@.len() && cs@.subrange(
                r@[k].0 as int,
                r@[k].1 as int,
            ) == split_on(cs@, sep)[k],
{
    let mut r: Vec<(usize, usize)> = Vec::new();
    let mut start: usize = 0;
    let mut i: usize = 0;
    assert(cs@.take(0) =~= Seq::<char>::empty());
    while i < cs.len()
        invariant
            i <= cs@.len(),
            start <= i,
            r@.len() + 1 == split_on(cs@.take(i as int), sep).len(),
            forall|k: int|
                0 <= k < r@.len() ==> (#[trigger] r@[k]).0 <= r@[k].1 <= i && cs@.subrange(
                    r@[k].0 as int,
                    r@[k].1 as int,
                ) == split_on(cs@.take(i as int), sep)[k],
            cs@.subrange(start as int, i as int) == split_on(cs@.take(i as int), sep).last(),
        decreases cs.len() - i,
    {
        let ghost prev = split_on(cs@.take(i as int), sep);
        proof {
            assert(cs@.take(i + 1).drop_last() =~= cs@.take(i as int));
            assert(cs@.take(i + 1).last() == cs@[i as int]);
        }
        if cs[i] == sep {
            r.push((start, i));
            start = i + 1;
            assert(cs@.subrange(start as int, i + 1) =~= Seq::<char>::empty());
        } else {
            assert(cs@.subrange(start as int, i + 1) =~= cs@.subrange(start as int, i as int).push(
                cs@[i as int],
            ));
        }
        i = i + 1;
    }
    assert(cs@.take(cs@.len() as int) =~= cs@);
    r.push((start, i));
    r
}

/// The character ranges of `cs` and the pieces they stand for.
pub open spec fn ranges_are_pieces(cs: Seq<char>, r: Seq<(usize, usize)>, w: Seq<Seq<char>>) -> bool {
    &&& r.len() == w.len()
    &&& forall|k: int|
        0 <= k < r.len() ==> (#[trigger] r[k]).0 <= r[k].1 <= cs.len() && cs.subrange(
            r[k].0 as int,
            r[k].1 as int,
        ) == w[k]
}

fn piece_is_x(cs: &Vec<char>, a: usize, b: usize) -> (r: bool)
    requires
        a <= b <= cs@.len(),
    ensures
        r == (cs@.subrange(a as int, b as int) == seq!['x']),
{
    let r = b - a == 1 && cs[a] == 'x';
    let ghost p = cs@.subrange(a as int, b as int);
    assert(r ==> p =~= seq!['x']);
    proof {
        if p == seq!['x'] {
            assert(p.len() == 1);
            assert(p[0] == cs@[a as int]);
        }
    }
    r
}

fn piece_is_priority(cs: &Vec<char>, a: usize, b: usize) -> (r: bool)
    requires
        a <= b <= cs@.len(),
    ensures
        r == is_priority_piece(cs@.subrange(a as int, b as int)),
{
    b - a == 3 && cs[a] == '(' && 'A' <= cs[a + 1] && cs[a + 1] <= 'Z' && cs[a + 2] == ')'
}

fn piece_is_date(cs: &Vec<char>, a: usize, b: usize) -> (r: bool)
    requires
        a <= b <= cs@.len(),
    ensures
        r == is_date_shape(cs@.subrange(a as int, b as int)),
{
    let ghost p = cs@.subrange(a as int, b as int);
    if b - a != 10 || cs[a + 4] != '-' || cs[a + 7] != '-' {
        return false;
    }
    let mut i: usize = 0;
    while i < 10
        invariant
            b - a == 10,
            a + 10 <= cs@.len(),
            p == cs@.subrange(a as int, b as int),
            i <= 10,
            forall|j: int| 0 <= j < i && j != 4 && j != 7 ==> is_digit(#[trigger] p[j]),
        decreases 10 - i,
    {
        if i != 4 && i != 7 && !('0' <= cs[a + i] && cs[a + i] <= '9') {
            assert(!is_digit(p[i as int]));
            return false;
        }
        i = i + 1;
    }
    true
}

fn piece_is_tag(cs: &Vec<char>, a: usize, b: usize, c: char) -> (r: bool)
    requires
        a <= b <= cs@.len(),
    ensures
        r == is_tag(cs@.subrange(a as int, b as int), c),
{
    b - a >= 2 && cs[a] == c
}

fn piece_has_key(cs: &Vec<char>, a: usize, b: usize, key: &Vec<char>) -> (r: bool)
    requires
        a <= b <= cs@.len(),
    ensures
        r == is_key_piece(cs@.subrange(a as int, b as int), key@),
{
    let ghost p = cs@.subrange(a as int, b as int);
    if b - a <= key.len() {
        return false;
    }
    let mut i: usize = 0;
    while i < key.len()
        invariant
            b - a > key@.len(),
            b <= cs@.len(),
            p == cs@.subrange(a as int, b as int),
            i <= key@.len(),
            forall|j: int| 0 <= j < i ==> p[j] == key@[j],
        decreases key.len() - i,
    {
        if cs[a + i] != key[i] {
            assert(p.take(key@.len() as int)[i as int] != key@[i as int]);
            return false;
        }
        i = i + 1;
    }
    assert(p.take(key@.len() as int) =~= key@);
    true
}

/// All tag names with marker `c`.
fn collect_tags(line: &str, cs: &Vec<char>, ranges: &Vec<(usize, usize)>, c: char) -> (r: Vec<String>)
    requires
        cs@ == line@,
        ranges_are_pieces(cs@, ranges@, split_on(cs@, ' ')),
    ensures
        strings_view(r) == words_tags(split_on(cs@, ' '), c),
{
    let ghost w = split_on(cs@, ' ');
    let mut r: Vec<String> = Vec::new();
    let mut k: usize = 0;
    assert(w.take(0) =~= Seq::<Seq<char>>::empty());
    while k < ranges.len()
        invariant
            cs@ == line@,
            w == split_on(cs@, ' '),
            ranges_are_pieces(cs@, ranges@, w),
            k <= ranges@.len(),
            strings_view(r) == words_tags(w.take(k as int), c),
        decreases ranges.len() - k,
    {
        let (a, b) = ranges[k];
        proof {
            assert(w.take(k + 1).drop_last() =~= w.take(k as int));
            assert(w.take(k + 1).last() == w[k as int]);
        }
        if piece_is_tag(cs, a, b, c) {
            let name = line.substring_char(a + 1, b).to_owned();
            proof {
                assert(name@ =~= w[k as int].drop_first());
            }
            r.push(name);
            assert(strings_view(r) =~= words_tags(w.take(k as int), c).push(w[k as int].drop_first()));
        }
        k = k + 1;
    }
    assert(w.take(ranges@.len() as int) =~= w);
    r
}

/// The value of the first `key:value` piece.
fn find_value(line: &str, cs: &Vec<char>, ranges: &Vec<(usize, usize)>, key: &Vec<char>) -> (r:
    Option<String>)
    requires
        cs@ == line@,
        ranges_are_pieces(cs@, ranges@, split_on(cs@, ' ')),
    ensures
        opt_view(r) == words_value(split_on(cs@, ' '), key@),
{
    let ghost w = split_on(cs@, ' ');
    let mut k: usize = 0;
    assert(w.take(0) =~= Seq::<Seq<char>>::empty());
    while k < ranges.len()
        invariant
            cs@ == line@,
            w == split_on(cs@, ' '),
            ranges_are_pieces(cs@, ranges@, w),
            k <= ranges@.len(),
            words_value(w.take(k as int), key@) is None,
        decreases ranges.len() - k,
    {
        let (a, b) = ranges[k];
        proof {
            assert(w.take(k + 1).drop_last() =~= w.take(k as int));
            assert(w.take(k + 1).last() == w[k as int]);
        }
        if piece_has_key(cs, a, b, key) {
            let v = line.substring_char(a + key.len(), b).to_owned();
            proof {
                assert(v@ =~= w[k as int].skip(key@.len() as int));
                lemma_words_value_prefix(w, key@, k + 1);
            }
            return Some(v);
        }
        k = k + 1;
    }
    assert(w.take(ranges@.len() as int) =~= w);
    None
}

/// Once a prefix of the pieces has a value, so do all the pieces.
proof fn lemma_words_value_prefix(w: Seq<Seq<char>>, key: Seq<char>, m: int)
    requires
        0 <= m <= w.len(),
        words_value(w.take(m), key) is Some,
    ensures
        words_value(w, key) == words_value(w.take(m), key),
    decreases w.len() - m,
{
    if m < w.len() {
        assert(w.take(m + 1).drop_last() =~= w.take(m));
        lemma_words_value_prefix(w, key, m + 1);
    } else {
        assert(w.take(m) =~= w);
    }
}

/// Reads one todo.txt line.
pub fn parse_line(line: &str) -> (t: Task)
    ensures
        parsed_from(t, line@),
{
    let cs = chars_of(line);
    let ranges = split_ranges(&cs, ' ');
    let ghost w = split_on(cs@, ' ');
    proof {
        lemma_split_on_nonempty(cs@, ' ');
    }
    let n = ranges.len();
    let done = n >= 2 && piece_is_x(&cs, ranges[0].0, ranges[0].1);
    let priority = if !done && n >= 2 && piece_is_priority(&cs, ranges[0].0, ranges[0].1) {
        Some(cs[ranges[0].0 + 1])
    } else {
        None
    };
    let mut k: usize = if done || priority.is_some() {
        1
    } else {
        0
    };
    if done && k < n && piece_is_date(&cs, ranges[k].0, ranges[k].1) {
        k = k + 1;
    }
    assert(k == created_index(w));
    let created_date = if k < n && piece_is_date(&cs, ranges[k].0, ranges[k].1) {
        Some(line.substring_char(ranges[k].0, ranges[k].1).to_owned())
    } else {
        None
    };
    let due_chars = chars_of("due:");
    let t_chars = chars_of("t:");
    proof {
        reveal_strlit("due:");
        reveal_strlit("t:");
        assert(due_chars@ =~= due_tag());
        assert(t_chars@ =~= threshold_tag());
    }
    let due = find_value(line, &cs, &ranges, &due_chars);
    let threshold = find_value(line, &cs, &ranges, &t_chars);
    let projects = collect_tags(line, &cs, &ranges, '+');
    let contexts = collect_tags(line, &cs, &ranges, '@');
    Task {
        raw: line.to_owned(),
        done,
        priority,
        created_date,
        due,
        threshold,
        projects,
        contexts,
    }
}

/// A line holding only spaces, tabs and carriage returns.
pub open spec fn is_blank(l: Seq<char>) -> bool {
    forall|i: int| 0 <= i < l.len() ==> #[trigger] l[i] == ' ' || l[i] == '\t' || l[i] == '\r'
}

/// A line without its trailing carriage return, if it has one.
pub open spec fn strip_cr(l: Seq<char>) -> Seq<char> {
    if l.len() > 0 && l.last() == '\r' {
        l.drop_last()
    } else {
        l
    }
}

/// The non-blank lines, each without a trailing carriage return.
pub open spec fn kept_lines(ls: Seq<Seq<char>>) -> Seq<Seq<char>>
    decreases ls.len(),
{
    if ls.len() == 0 {
        Seq::empty()
    } else {
        let r = kept_lines(ls.drop_last());
        if is_blank(ls.last()) {
            r
        } else {
            r.push(strip_cr(ls.last()))
        }
    }
}

/// The lines of a todo.txt file that hold tasks.
pub open spec fn task_lines(raw: Seq<char>) -> Seq<Seq<char>> {
    kept_lines(split_on(raw, '\n'))
}

fn range_is_blank(cs: &Vec<char>, a: usize, b: usize) -> (r: bool)
    requires
        a <= b <= cs@.len(),
    ensures
        r == is_blank(cs@.subrange(a as int, b as int)),
{
    let ghost p = cs@.subrange(a as int, b as int);
    let mut i = a;
    while i < b
        invariant
            a <= i <= b,
            b <= cs@.len(),
            p == cs@.subrange(a as int, b as int),
            forall|j: int| 0 <= j < i - a ==> #[trigger] p[j] == ' ' || p[j] == '\t' || p[j] == '\r',
        decreases b - i,
    {
        let c = cs[i];
        if c != ' ' && c != '\t' && c != '\r' {
            assert(p[i - a] == c);
            return false;
        }
        i = i + 1;
    }
    true
}

/// Reads a todo.txt file: one task per non-blank line, in file order.
pub fn parse_file(raw: &str) -> (tasks: Vec<Task>)
    ensures
        tasks@.len() == task_lines(raw@).len(),
        forall|i: int| 0 <= i < tasks@.len() ==> parsed_from(#[trigger] tasks@[i], task_lines(raw@)[i]),
{
    let cs = chars_of(raw);
    let ranges = split_ranges(&cs, '\n');
    let ghost ls = split_on(cs@, '\n');
    let mut tasks: Vec<Task> = Vec::new();
    let mut k: usize = 0;
    assert(ls.take(0) =~= Seq::<Seq<char>>::empty());
    while k < ranges.len()
        invariant
            cs@ == raw@,
            ls == split_on(cs@, '\n'),
            ranges_are_pieces(cs@, ranges@, ls),
            k <= ranges@.len(),
            tasks@.len() == kept_lines(ls.take(k as int)).len(),
            forall|i: int|
                0 <= i < tasks@.len() ==> parsed_from(
                    #[trigger] tasks@[i],
                    kept_lines(ls.take(k as int))[i],
                ),
        decreases ranges.len() - k,
    {
        let (a, b) = ranges[k];
        proof {
            assert(ls.take(k + 1).drop_last() =~= ls.take(k as int));
            assert(ls.take(k + 1).last() == ls[k as int]);
        }
        if !range_is_blank(&cs, a, b) {
            let end = if b > a && cs[b - 1] == '\r' {
                b - 1
            } else {
                b
            };
            let line = raw.substring_char(a, end);
            assert(line@ =~= strip_cr(ls[k as int]));
            let t = parse_line(line);
            tasks.push(t);
        }
        k = k + 1;
    }
    assert(ls.take(ranges@.len() as int) =~= ls);
    tasks
}

/// A line that starts with a priority marker `(X) `.
pub open spec fn has_priority_prefix(s: Seq<char>) -> bool {
    s.len() >= 4 && s[0] == '(' && 'A' <= s[1] && s[1] <= 'Z' && s[2] == ')' && s[3] == ' '
}

/// The text of a line after its priority marker (the whole line if it has none).
pub open spec fn body_after_priority_spec(s: Seq<char>) -> Seq<char> {
    if has_priority_prefix(s) {
        s.skip(4)
    } else {
        s
    }
}

/// The text of `raw` after a leading `(X) ` priority marker.
pub fn body_after_priority(raw: &str) -> (r: &str)
    ensures
        r@ == body_after_priority_spec(raw@),
{
    let n = raw.unicode_len();
    if n >= 4 && raw.get_char(0) == '(' && 'A' <= raw.get_char(1) && raw.get_char(1) <= 'Z'
        && raw.get_char(2) == ')' && raw.get_char(3) == ' ' {
        let r = raw.substring_char(4, n);
        assert(r@ =~= raw@.skip(4));
        r
    } else {
        raw
    }
}

/// Position of the first `sep` in `s`, or its length when there is none.
pub open spec fn first_sep(s: Seq<char>, sep: char) -> int
    decreases s.len(),
{
    if s.len() == 0 {
        0
    } else if s[0] == sep {
        0
    } else {
        1 + first_sep(s.drop_first(), sep)
    }
}

proof fn lemma_first_sep_facts(s: Seq<char>, sep: char)
    ensures
        0 <= first_sep(s, sep) <= s.len(),
        forall|i: int| 0 <= i < first_sep(s, sep) ==> s[i] != sep,
        first_sep(s, sep) < s.len() ==> s[first_sep(s, sep)] == sep,
    decreases s.len(),
{
    if s.len() > 0 && s[0] != sep {
        lemma_first_sep_facts(s.drop_first(), sep);
        assert forall|i: int| 0 <= i < first_sep(s, sep) implies s[i] != sep by {
            if i > 0 {
                assert(s[i] == s.drop_first()[i - 1]);
            }
        }
    }
}

/// The first piece runs up to the first separator, and there is a second
/// piece exactly when there is a separator.
pub proof fn lemma_split_on_first(s: Seq<char>, sep: char)
    ensures
        split_on(s, sep).len() >= 1,
        split_on(s, sep)[0] == s.take(first_sep(s, sep)),
        split_on(s, sep).len() >= 2 <==> first_sep(s, sep) < s.len(),
    decreases s.len(),
{
    lemma_first_sep_facts(s, sep);
    if s.len() > 0 {
        let t = s.drop_last();
        lemma_split_on_first(t, sep);
        lemma_first_sep_facts(t, sep);
        lemma_split_on_nonempty(t, sep);
        if first_sep(t, sep) < t.len() {
            assert(first_sep(s, sep) == first_sep(t, sep)) by {
                lemma_first_sep_prefix(s, t, sep);
            }
            assert(s.take(first_sep(s, sep)) =~= t.take(first_sep(t, sep)));
        } else {
            assert(first_sep(t, sep) == t.len());
            lemma_first_sep_prefix(s, t, sep);
            if s.last() == sep {
                assert(first_sep(s, sep) == t.len());
                assert(s.take(t.len() as int) =~= t);
                assert(t.take(t.len() as int) =~= t);
            } else {
                assert(first_sep(s, sep) == s.len());
                assert(s.take(s.len() as int) =~= t.take(t.len() as int).push(s.last()));
            }
        }
    } else {
        assert(s.take(0) =~= Seq::<char>::empty());
    }
}

/// Dropping the last character keeps the first separator when it lies
/// before the end, and otherwise the separator, if any, is the last one.
proof fn lemma_first_sep_prefix(s: Seq<char>, t: Seq<char>, sep: char)
    requires
        s.len() > 0,
        t == s.drop_last(),
    ensures
        first_sep(t, sep) < t.len() ==> first_sep(s, sep) == first_sep(t, sep),
        first_sep(t, sep) == t.len() ==> first_sep(s, sep) == if s.last() == sep {
            t.len() as int
        } else {
            s.len() as int
        },
    decreases s.len(),
{
    if t.len() == 0 {
        assert(s.drop_first() =~= Seq::<char>::empty());
        assert(s.last() == s[0]);
        assert(first_sep(s.drop_first(), sep) == 0);
        if s[0] != sep {
            assert(first_sep(s, sep) == 1);
        } else {
            assert(first_sep(s, sep) == 0);
        }
    } else if s[0] != sep {
        assert(s.drop_first().drop_last() =~= t.drop_first());
        assert(t[0] == s[0]);
        assert(s.drop_first().last() == s.last());
        lemma_first_sep_prefix(s.drop_first(), t.drop_first(), sep);
        assert(first_sep(s, sep) == 1 + first_sep(s.drop_first(), sep));
        assert(first_sep(t, sep) == 1 + first_sep(t.drop_first(), sep));
    } else {
        assert(t[0] == s[0]);
    }
}

/// `parse_line` reads a priority exactly when `body_after_priority` strips a
/// priority marker, and it is the letter of that marker.
pub proof fn law_priority_is_the_stripped_marker(line: Seq<char>)
    ensures
        words_priority(split_on(line, ' ')) is Some <==> has_priority_prefix(line),
        has_priority_prefix(line) ==> words_priority(split_on(line, ' ')) == Some(line[1]),
{
    lemma_split_on_first(line, ' ');
    lemma_first_sep_facts(line, ' ');
    let w = split_on(line, ' ');
    let f = first_sep(line, ' ');
    if has_priority_prefix(line) {
        assert(f == 3) by {
            if f < 3 {
                assert(line[f] == ' ');
            } else if f > 3 {
                assert(line[3] != ' ');
            }
        }
        assert(w[0] =~= seq![line[0], line[1], line[2]]);
        assert(w[0] != seq!['x']) by {
            assert(w[0].len() == 3);
        }
    }
    if words_priority(w) is Some {
        assert(w[0].len() == 3);
        assert(f == 3);
        assert(line[0] == w[0][0] && line[1] == w[0][1] && line[2] == w[0][2]);
    }
}

} // verus!
