//! Tasks: `- [ ]` / `- [x]` lines inside notes, with inline `!priority @due #project`.
//! Pure parsing + line edits; notes stay the source of truth.
use vstd::prelude::*;
use crate::format_time::{
    abs_date, civil, civil_fits, civil_from_days, days_civil, days_civil_fits, days_from_civil,
    in_i64, date_chars, date_str, lemma_civil_ranges, lemma_later_month, parse_due, DAY_MS,
    parse_due_spec, due_fits, parse_time, parse_time_spec, day_str,
};
use crate::note::Note;
pub use crate::board::{
    board_columns, group_sort, partition_due, BoardColumn, BoardFilter, DueBuckets, GroupBy, SortBy,
    TaskGroup,
};
use crate::num::{
    dec, dec_pad, fmt_i64, fmt_i64_pad, div_euclid, rem_euclid, parse_i64, parse_i64_spec,
};
use crate::text::{
    byte_len, lines, lines_exec, str_byte_len, char_index, char_index_exec, find, find_exec,
    is_char_boundary, rfind, rfind_exec, words, words_exec, append_chars, ascii_lower,
    ascii_lowercase, chars_eq, chars_of, concat_chars, ends_with, ends_with_exec, join, join_exec,
    lead_ws, lead_ws_exec, lemma_split_on_len, slice_chars, split_exec, split_on, starts_with,
    starts_with_exec, string_of, strip_prefix_exec, trim, trim_end, trim_end_exec, trim_exec,
    trim_start, trim_start_exec, views,
};

verus! {

#[derive(Debug, Clone, Copy, PartialEq, Eq, PartialOrd, Ord, Structural)]
pub enum Priority {
    High,
    Medium,
    Low,
    NoPriority,
}

/// A task's kanban-style status. `- [ ]` = Todo, `- [/]` = Doing (the
/// Obsidian/Logseq "in progress" convention), `- [x]`/`- [X]` = Done.
/// `Task::done` stays derived from this (`status == Done`).
#[derive(Debug, Clone, Copy, PartialEq, Eq, Structural)]
pub enum Status {
    Todo,
    Doing,
    Done,
}

#[derive(Debug, Clone, Copy, PartialEq, Eq, Structural)]
pub enum RecurUnit {
    Day,
    Week,
    Month,
    Year,
}

#[derive(Debug, Clone, Copy, PartialEq, Eq, Structural)]
pub struct Recur {
    pub n: i64,
    pub unit: RecurUnit,
}

#[derive(Debug, Clone, PartialEq, Eq)]
pub struct Task {
    pub note_id: i64,
    pub note_name: String,
    pub line_index: usize,
    pub done: bool,
    pub status: Status,
    pub title: String,
    pub priority: Priority,
    pub due_ms: Option<i64>,
    pub due_time_min: Option<i64>,
    pub recur: Option<Recur>,
    pub bookmarked: bool,
    pub project: Option<String>,
    pub source_app_id: Option<i64>,
    pub source_entry_id: Option<i64>,
}

// ---------------------------------------------------------------------------
// Task markers
// ---------------------------------------------------------------------------

/// `(status, rest)` of a task line whose leading whitespace is already gone.
pub open spec fn marker_spec(t: Seq<char>) -> Option<(Status, Seq<char>)> {
    if starts_with(t, "- [ ] "@) {
        Some((Status::Todo, t.skip("- [ ] "@.len() as int)))
    } else if starts_with(t, "- [/] "@) {
        Some((Status::Doing, t.skip("- [/] "@.len() as int)))
    } else if starts_with(t, "- [x] "@) {
        Some((Status::Done, t.skip("- [x] "@.len() as int)))
    } else if starts_with(t, "- [X] "@) {
        Some((Status::Done, t.skip("- [X] "@.len() as int)))
    } else if t == "- [ ]"@ {
        Some((Status::Todo, Seq::<char>::empty()))
    } else if t == "- [/]"@ {
        Some((Status::Doing, Seq::<char>::empty()))
    } else if ascii_lower(t) == "- [x]"@ {
        Some((Status::Done, Seq::<char>::empty()))
    } else {
        None
    }
}

/// Whether a line (with its indentation) is a task line.
pub open spec fn is_task_line(line: Seq<char>) -> bool {
    marker_spec(trim_start(line)) is Some
}

/// If `trimmed` (leading whitespace already removed) is a task line, return
/// (status, rest-after-marker). Recognizes the Obsidian/Logseq "in progress"
/// `- [/]` convention alongside the standard `- [ ]`/`- [x]`.
fn task_marker(trimmed: &Vec<char>) -> (r: Option<(Status, Vec<char>)>)
    ensures
        r matches Some((st, rest)) ==> marker_spec(trimmed@) == Some((st, rest@)),
        r is None ==> marker_spec(trimmed@) is None,
{
    if let Some(rest) = strip_prefix_exec(trimmed, &chars_of("- [ ] ")) {
        return Some((Status::Todo, rest));
    }
    if let Some(rest) = strip_prefix_exec(trimmed, &chars_of("- [/] ")) {
        return Some((Status::Doing, rest));
    }
    if let Some(rest) = strip_prefix_exec(trimmed, &chars_of("- [x] ")) {
        return Some((Status::Done, rest));
    }
    if let Some(rest) = strip_prefix_exec(trimmed, &chars_of("- [X] ")) {
        return Some((Status::Done, rest));
    }
    if chars_eq(trimmed, &chars_of("- [ ]")) {
        return Some((Status::Todo, Vec::new()));
    }
    if chars_eq(trimmed, &chars_of("- [/]")) {
        return Some((Status::Doing, Vec::new()));
    }
    if chars_eq(&ascii_lowercase(trimmed), &chars_of("- [x]")) {
        return Some((Status::Done, Vec::new()));
    }
    None
}

pub open spec fn priority_spec(tok: Seq<char>) -> Option<Priority> {
    let t = ascii_lower(tok);
    if t == "!high"@ || t == "!hi"@ || t == "!h"@ || t == "!1"@ {
        Some(Priority::High)
    } else if t == "!med"@ || t == "!medium"@ || t == "!m"@ || t == "!2"@ {
        Some(Priority::Medium)
    } else if t == "!low"@ || t == "!lo"@ || t == "!l"@ || t == "!3"@ {
        Some(Priority::Low)
    } else {
        None
    }
}

fn is_lit(t: &Vec<char>, s: &str) -> (r: bool)
    ensures
        r == (t@ == s@),
{
    chars_eq(t, &chars_of(s))
}

fn parse_priority(tok: &Vec<char>) -> (r: Option<Priority>)
    ensures
        r == priority_spec(tok@),
{
    let t = ascii_lowercase(tok);
    if is_lit(&t, "!high") || is_lit(&t, "!hi") || is_lit(&t, "!h") || is_lit(&t, "!1") {
        Some(Priority::High)
    } else if is_lit(&t, "!med") || is_lit(&t, "!medium") || is_lit(&t, "!m") || is_lit(&t, "!2") {
        Some(Priority::Medium)
    } else if is_lit(&t, "!low") || is_lit(&t, "!lo") || is_lit(&t, "!l") || is_lit(&t, "!3") {
        Some(Priority::Low)
    } else {
        None
    }
}

// ---------------------------------------------------------------------------
// Line edits
// ---------------------------------------------------------------------------

/// `body` with line `i` (of its `'\n'`-separated lines) replaced by `line`.
pub open spec fn replace_line(body: Seq<char>, i: int, line: Seq<char>) -> Seq<char> {
    join(split_on(body, '\n').update(i, line), seq!['\n'])
}

/// Indentation of a line (its leading whitespace).
pub open spec fn indent_of(line: Seq<char>) -> Seq<char> {
    line.take(lead_ws(line) as int)
}

pub open spec fn toggled_line(line: Seq<char>) -> Option<Seq<char>> {
    let rest = trim_start(line);
    if starts_with(rest, "- [ ]"@) || starts_with(rest, "- [/]"@) {
        Some(indent_of(line) + "- [x]"@ + rest.skip(5))
    } else if starts_with(rest, "- [x]"@) || starts_with(rest, "- [X]"@) {
        Some(indent_of(line) + "- [ ]"@ + rest.skip(5))
    } else {
        None
    }
}

pub open spec fn toggle_line_spec(body: Seq<char>, i: int) -> Seq<char> {
    let ls = split_on(body, '\n');
    if 0 <= i < ls.len() && toggled_line(ls[i]) is Some {
        replace_line(body, i, toggled_line(ls[i])->0)
    } else {
        body
    }
}

/// Splits a line into its indentation and the rest.
fn split_indent(line: &Vec<char>) -> (r: (Vec<char>, Vec<char>))
    ensures
        r.0@ == indent_of(line@),
        r.1@ == trim_start(line@),
{
    let n = lead_ws_exec(line);
    (slice_chars(line, 0, n), slice_chars(line, n, line.len()))
}

/// `prefix + marker + rest[5..]` for a rest that starts with a 5-char marker.
fn remark(ind: &Vec<char>, marker: &str, rest: &Vec<char>) -> (r: Vec<char>)
    requires
        rest@.len() >= 5,
    ensures
        r@ == ind@ + marker@ + rest@.skip(5),
{
    let mut r = concat_chars(ind, &chars_of(marker));
    let tail = slice_chars(rest, 5, rest.len());
    assert(tail@ =~= rest@.skip(5));
    append_chars(&mut r, &tail);
    r
}

fn toggled_line_exec(line: &Vec<char>) -> (r: Option<Vec<char>>)
    ensures
        r matches Some(v) ==> toggled_line(line@) == Some(v@),
        r is None ==> toggled_line(line@) is None,
{
    proof {
        reveal_strlit("- [ ]");
        reveal_strlit("- [/]");
        reveal_strlit("- [x]");
        reveal_strlit("- [X]");
    }
    let (ind, rest) = split_indent(line);
    if starts_with_exec(&rest, &chars_of("- [ ]")) || starts_with_exec(&rest, &chars_of("- [/]")) {
        Some(remark(&ind, "- [x]", &rest))
    } else if starts_with_exec(&rest, &chars_of("- [x]")) || starts_with_exec(
        &rest,
        &chars_of("- [X]"),
    ) {
        Some(remark(&ind, "- [ ]", &rest))
    } else {
        None
    }
}

/// Replaces element `i` of the split pieces and joins them back with `'\n'`.
fn rejoin(ls: Vec<Vec<char>>, i: usize, line: Vec<char>) -> (r: Vec<char>)
    requires
        i < ls@.len(),
    ensures
        r@ == join(views(ls@).update(i as int, line@), seq!['\n']),
{
    let mut ls = ls;
    let ghost v0 = views(ls@);
    ls.set(i, line);
    assert(views(ls@) =~= v0.update(i as int, line@));
    let mut nl: Vec<char> = Vec::new();
    nl.push('\n');
    assert(nl@ =~= seq!['\n']);
    join_exec(&ls, &nl)
}

/// Flip the checkbox on line `line_index`. No-op if it's not a task line.
/// `[ ]`/`[/]` → `[x]` (checking a to-do or in-progress task completes it);
/// `[x]`/`[X]` → `[ ]`.
pub fn toggle_line(body: &str, line_index: usize) -> (r: String)
    ensures
        r@ == toggle_line_spec(body@, line_index as int),
{
    let b = chars_of(body);
    let ls = split_exec(&b, '\n');
    if line_index >= ls.len() {
        return string_of(&b);
    }
    match toggled_line_exec(&ls[line_index]) {
        Some(f) => string_of(&rejoin(ls, line_index, f)),
        None => string_of(&b),
    }
}

pub open spec fn status_glyph(s: Status) -> char {
    match s {
        Status::Todo => ' ',
        Status::Doing => '/',
        Status::Done => 'x',
    }
}

pub open spec fn restatused_line(line: Seq<char>, status: Status) -> Option<Seq<char>> {
    let rest = trim_start(line);
    if starts_with(rest, "- [ ]"@) || starts_with(rest, "- [/]"@) || starts_with(rest, "- [x]"@)
        || starts_with(rest, "- [X]"@) {
        Some(indent_of(line) + seq!['-', ' ', '[', status_glyph(status), ']'] + rest.skip(5))
    } else {
        None
    }
}

pub open spec fn set_line_status_spec(body: Seq<char>, i: int, status: Status) -> Seq<char> {
    let ls = split_on(body, '\n');
    if 0 <= i < ls.len() && restatused_line(ls[i], status) is Some {
        replace_line(body, i, restatused_line(ls[i], status)->0)
    } else {
        body
    }
}

/// Rewrite the checkbox marker on `line_index` to `status`. No-op if that line
/// isn't a task line. Preserves indentation and everything else on the line
/// (priority/due/#project/title) — only the ` `/`/`/`x` inside `[ ]` changes.
pub fn set_line_status(body: &str, line_index: usize, status: Status) -> (r: String)
    ensures
        r@ == set_line_status_spec(body@, line_index as int, status),
{
    proof {
        reveal_strlit("- [ ]");
        reveal_strlit("- [/]");
        reveal_strlit("- [x]");
        reveal_strlit("- [X]");
    }
    let b = chars_of(body);
    let ls = split_exec(&b, '\n');
    if line_index >= ls.len() {
        return string_of(&b);
    }
    let (ind, rest) = split_indent(&ls[line_index]);
    if starts_with_exec(&rest, &chars_of("- [ ]")) || starts_with_exec(&rest, &chars_of("- [/]"))
        || starts_with_exec(&rest, &chars_of("- [x]")) || starts_with_exec(
        &rest,
        &chars_of("- [X]"),
    ) {
        let glyph = match status {
            Status::Todo => ' ',
            Status::Doing => '/',
            Status::Done => 'x',
        };
        let mut m: Vec<char> = Vec::new();
        m.push('-');
        m.push(' ');
        m.push('[');
        m.push(glyph);
        m.push(']');
        let mut nl = concat_chars(&ind, &m);
        let tail = slice_chars(&rest, 5, rest.len());
        append_chars(&mut nl, &tail);
        assert(nl@ =~= indent_of(views(ls@)[line_index as int]) + seq![
            '-',
            ' ',
            '[',
            status_glyph(status),
            ']',
        ] + rest@.skip(5));
        string_of(&rejoin(ls, line_index, nl))
    } else {
        string_of(&b)
    }
}

pub open spec fn append_task_spec(body: Seq<char>, text: Seq<char>) -> Seq<char> {
    let t = trim(text);
    if t.len() == 0 {
        body
    } else {
        let sep = if body.len() == 0 || body.last() == '\n' {
            Seq::<char>::empty()
        } else {
            seq!['\n']
        };
        body + sep + "- [ ] "@ + t
    }
}

/// Append a new `- [ ] <text>` task line to `body`. No-op if `text` is blank.
pub fn append_task_line(body: &str, text: &str) -> (r: String)
    ensures
        r@ == append_task_spec(body@, text@),
{
    let t = trim_exec(&chars_of(text));
    let mut out = chars_of(body);
    if t.len() == 0 {
        return string_of(&out);
    }
    let n = out.len();
    if !(n == 0 || out[n - 1] == '\n') {
        out.push('\n');
    }
    append_chars(&mut out, &chars_of("- [ ] "));
    append_chars(&mut out, &t);
    string_of(&out)
}

/// Bounds of the line holding character index `k`: `(start, end)` with the
/// line being `body[start..end]`.
pub open spec fn line_bounds(body: Seq<char>, k: int) -> (int, int) {
    let start = match rfind(body.take(k), seq!['\n']) {
        Some(j) => j + 1,
        None => 0,
    };
    let end = match find(body.skip(k), seq!['\n']) {
        Some(j) => k + j,
        None => body.len() as int,
    };
    (start, end)
}

pub open spec fn clamp_cursor(body: Seq<char>, cursor: int) -> int {
    if cursor < byte_len(body) {
        cursor
    } else {
        byte_len(body) as int
    }
}

pub open spec fn promote_spec(body: Seq<char>, cursor: int) -> Seq<char> {
    let k = char_index(body, clamp_cursor(body, cursor));
    let (start, end) = line_bounds(body, k);
    let line = body.subrange(start, end);
    if is_task_line(line) {
        body
    } else {
        body.take(start) + indent_of(line) + "- [ ] "@ + trim_start(line) + body.skip(end)
    }
}

fn line_span(b: &Vec<char>, k: usize) -> (r: (usize, usize))
    requires
        k <= b@.len(),
    ensures
        r.0 as int == line_bounds(b@, k as int).0,
        r.1 as int == line_bounds(b@, k as int).1,
        r.0 <= k <= r.1 <= b@.len(),
{
    let nl = one_char('\n');
    let before = slice_chars(b, 0, k);
    assert(before@ =~= b@.take(k as int));
    let after = slice_chars(b, k, b.len());
    assert(after@ =~= b@.skip(k as int));
    let start = match rfind_exec(&before, &nl) {
        Some(j) => j + 1,
        None => 0,
    };
    let end = match find_exec(&after, &nl) {
        Some(j) => k + j,
        None => b.len(),
    };
    (start, end)
}

/// Prepend `- [ ] ` to the line containing byte offset `cursor_byte` (preserving
/// indentation). No-op if that line is already a task.
pub fn promote_line(body: &str, cursor_byte: usize) -> (r: String)
    requires
        byte_len(body@) <= usize::MAX,
        is_char_boundary(body@, clamp_cursor(body@, cursor_byte as int)),
    ensures
        r@ == promote_spec(body@, cursor_byte as int),
{
    let b = chars_of(body);
    let total = str_byte_len(body);
    let cb = if cursor_byte < total {
        cursor_byte
    } else {
        total
    };
    assert(cb == clamp_cursor(body@, cursor_byte as int));
    let k = match char_index_exec(&b, cb) {
        Some(k) => k,
        None => {
            return string_of(&b);
        },
    };
    let (start, end) = line_span(&b, k);
    let line = slice_chars(&b, start, end);
    let (ind, rest) = split_indent(&line);
    if task_marker(&rest).is_some() {
        return string_of(&b);
    }
    let mut out = slice_chars(&b, 0, start);
    assert(out@ =~= b@.take(start as int));
    append_chars(&mut out, &ind);
    append_chars(&mut out, &chars_of("- [ ] "));
    append_chars(&mut out, &rest);
    let tail = slice_chars(&b, end, b.len());
    assert(tail@ =~= b@.skip(end as int));
    append_chars(&mut out, &tail);
    string_of(&out)
}

/// The pieces of `line.split(' ')` other than a lone `*`.
pub open spec fn drop_stars(p: Seq<Seq<char>>) -> Seq<Seq<char>>
    decreases p.len(),
{
    if p.len() == 0 {
        p
    } else {
        let d = drop_stars(p.drop_last());
        if p.last() == seq!['*'] {
            d
        } else {
            d.push(p.last())
        }
    }
}

pub open spec fn has_star(line: Seq<char>) -> bool {
    exists|j: int| 0 <= j < words(line).len() && words(line)[j] == seq!['*']
}

pub open spec fn bookmark_toggled(line: Seq<char>) -> Seq<char> {
    if has_star(line) {
        trim_end(join(drop_stars(split_on(line, ' ')), seq![' ']))
    } else {
        trim_end(line) + seq![' ', '*']
    }
}

pub open spec fn toggle_bookmark_spec(body: Seq<char>, i: int) -> Seq<char> {
    let ls = split_on(body, '\n');
    if 0 <= i < ls.len() && is_task_line(ls[i]) {
        replace_line(body, i, bookmark_toggled(ls[i]))
    } else {
        body
    }
}

fn is_star(t: &Vec<char>) -> (r: bool)
    ensures
        r == (t@ == seq!['*']),
{
    if t.len() == 1 && t[0] == '*' {
        assert(t@ =~= seq!['*']);
        true
    } else {
        false
    }
}

fn has_star_exec(line: &Vec<char>) -> (r: bool)
    ensures
        r == has_star(line@),
{
    let w = words_exec(line);
    let mut i: usize = 0;
    while i < w.len()
        invariant
            i <= w@.len(),
            views(w@) == words(line@),
            forall|j: int| 0 <= j < i ==> words(line@)[j] != seq!['*'],
        decreases w.len() - i,
    {
        assert(views(w@)[i as int] == w@[i as int]@);
        if is_star(&w[i]) {
            return true;
        }
        i += 1;
    }
    false
}

fn drop_stars_exec(p: &Vec<Vec<char>>) -> (r: Vec<Vec<char>>)
    ensures
        views(r@) == drop_stars(views(p@)),
{
    let mut r: Vec<Vec<char>> = Vec::new();
    let mut i: usize = 0;
    while i < p.len()
        invariant
            i <= p@.len(),
            views(r@) == drop_stars(views(p@).take(i as int)),
        decreases p.len() - i,
    {
        let ghost t = views(p@).take(i + 1);
        assert(t.drop_last() =~= views(p@).take(i as int));
        assert(t.last() == p@[i as int]@);
        if !is_star(&p[i]) {
            let ghost r0 = views(r@);
            let c = slice_chars(&p[i], 0, p[i].len());
            assert(c@ =~= p@[i as int]@);
            r.push(c);
            assert(views(r@) =~= r0.push(c@));
        }
        i += 1;
    }
    assert(views(p@).take(p@.len() as int) =~= views(p@));
    r
}

/// Add or remove a standalone `*` bookmark marker on the task line at `line_index`.
/// No-op if the line isn't a task line.
pub fn toggle_bookmark_line(body: &str, line_index: usize) -> (r: String)
    ensures
        r@ == toggle_bookmark_spec(body@, line_index as int),
{
    let b = chars_of(body);
    let ls = split_exec(&b, '\n');
    if line_index >= ls.len() {
        return string_of(&b);
    }
    let line = slice_chars(&ls[line_index], 0, ls[line_index].len());
    assert(line@ =~= views(ls@)[line_index as int]);
    let (_ind, rest) = split_indent(&line);
    if task_marker(&rest).is_none() {
        return string_of(&b);
    }
    let new_line = if has_star_exec(&line) {
        let kept = drop_stars_exec(&split_exec(&line, ' '));
        let mut sp: Vec<char> = Vec::new();
        sp.push(' ');
        assert(sp@ =~= seq![' ']);
        trim_end_exec(&join_exec(&kept, &sp))
    } else {
        let mut v = trim_end_exec(&line);
        v.push(' ');
        v.push('*');
        assert(v@ =~= trim_end(line@) + seq![' ', '*']);
        v
    };
    string_of(&rejoin(ls, line_index, new_line))
}

// ---------------------------------------------------------------------------
// Recurrence
// ---------------------------------------------------------------------------

/// A `+<n><unit>` recurrence rule (unit d|w|mo|y, `n` positive).
pub open spec fn parse_recur_spec(tok: Seq<char>) -> Option<Recur> {
    if !starts_with(tok, seq!['+']) {
        None
    } else {
        let s = tok.drop_first();
        let split: Option<(Seq<char>, RecurUnit)> = if ends_with(s, "mo"@) {
            Some((s.take(s.len() - 2), RecurUnit::Month))
        } else if ends_with(s, seq!['d']) {
            Some((s.take(s.len() - 1), RecurUnit::Day))
        } else if ends_with(s, seq!['w']) {
            Some((s.take(s.len() - 1), RecurUnit::Week))
        } else if ends_with(s, seq!['y']) {
            Some((s.take(s.len() - 1), RecurUnit::Year))
        } else {
            None
        };
        match split {
            Some((num, unit)) => match parse_i64_spec(num) {
                Some(n) => if n > 0 {
                    Some(Recur { n: n as i64, unit })
                } else {
                    None
                },
                None => None,
            },
            None => None,
        }
    }
}

fn one_char(c: char) -> (v: Vec<char>)
    ensures
        v@ == seq![c],
{
    let mut v: Vec<char> = Vec::new();
    v.push(c);
    assert(v@ =~= seq![c]);
    v
}

/// Parse a `+<n><unit>` recurrence token (unit d|w|mo|y). `None` if not a valid rule
/// (a bare `+1`, `+0d`, or non-numeric stays in the task title).
pub fn parse_recur(tok: &str) -> (r: Option<Recur>)
    ensures
        r == parse_recur_spec(tok@),
{
    proof {
        reveal_strlit("mo");
    }
    let t = chars_of(tok);
    let s = match strip_prefix_exec(&t, &one_char('+')) {
        Some(s) => s,
        None => return None,
    };
    assert(s@ =~= tok@.drop_first());
    let (num, unit) = if ends_with_exec(&s, &chars_of("mo")) {
        (slice_chars(&s, 0, s.len() - 2), RecurUnit::Month)
    } else if ends_with_exec(&s, &one_char('d')) {
        (slice_chars(&s, 0, s.len() - 1), RecurUnit::Day)
    } else if ends_with_exec(&s, &one_char('w')) {
        (slice_chars(&s, 0, s.len() - 1), RecurUnit::Week)
    } else if ends_with_exec(&s, &one_char('y')) {
        (slice_chars(&s, 0, s.len() - 1), RecurUnit::Year)
    } else {
        return None;
    };
    let n = match parse_i64(&num) {
        Some(n) => n,
        None => return None,
    };
    if n <= 0 {
        return None;
    }
    Some(Recur { n, unit })
}

pub open spec fn is_leap_spec(y: int) -> bool {
    (y % 4 == 0 && y % 100 != 0) || y % 400 == 0
}

fn is_leap(y: i64) -> (r: bool)
    ensures
        r == is_leap_spec(y as int),
{
    (rem_euclid(y, 4) == 0 && rem_euclid(y, 100) != 0) || rem_euclid(y, 400) == 0
}

pub open spec fn dim_spec(y: int, m: int) -> int {
    if m == 1 || m == 3 || m == 5 || m == 7 || m == 8 || m == 10 || m == 12 {
        31
    } else if m == 4 || m == 6 || m == 9 || m == 11 {
        30
    } else if m == 2 {
        if is_leap_spec(y) {
            29
        } else {
            28
        }
    } else {
        30
    }
}

fn days_in_month(y: i64, m: i64) -> (r: i64)
    ensures
        r == dim_spec(y as int, m as int),
{
    match m {
        1 | 3 | 5 | 7 | 8 | 10 | 12 => 31,
        4 | 6 | 9 | 11 => 30,
        2 => {
            if is_leap(y) {
                29
            } else {
                28
            }
        },
        _ => 30,
    }
}

pub open spec fn min_int(a: int, b: int) -> int {
    if a <= b {
        a
    } else {
        b
    }
}

/// One recurrence step forward from day number `day`.
pub open spec fn add_recur_spec(day: int, r: Recur) -> int {
    let (y, m, d) = civil(day);
    match r.unit {
        RecurUnit::Day => day + r.n,
        RecurUnit::Week => day + r.n * 7,
        RecurUnit::Month => {
            let total = (m - 1) + r.n;
            let ny = y + total / 12;
            let nm = total % 12 + 1;
            days_civil(ny, nm, min_int(d, dim_spec(ny, nm)))
        },
        RecurUnit::Year => {
            let ny = y + r.n;
            days_civil(ny, m, min_int(d, dim_spec(ny, m)))
        },
    }
}

/// Every intermediate value of `add_recur(day, r)` fits in an `i64`.
pub open spec fn add_recur_fits(day: int, r: Recur) -> bool {
    let (y, m, d) = civil(day);
    match r.unit {
        RecurUnit::Day => in_i64(day + r.n),
        RecurUnit::Week => in_i64(r.n * 7) && in_i64(day + r.n * 7),
        RecurUnit::Month => {
            let total = (m - 1) + r.n;
            let ny = y + total / 12;
            let nm = total % 12 + 1;
            &&& civil_fits(day)
            &&& in_i64(total)
            &&& in_i64(ny)
            &&& days_civil_fits(ny, nm, min_int(d, dim_spec(ny, nm)))
        },
        RecurUnit::Year => {
            let ny = y + r.n;
            &&& civil_fits(day)
            &&& in_i64(ny)
            &&& days_civil_fits(ny, m, min_int(d, dim_spec(ny, m)))
        },
    }
}

/// One recurrence step forward from a day-epoch (days since 1970-01-01). Month/year
/// clamp the day to the target month length (Jan 31 +1mo → Feb 28/29).
pub fn add_recur(day_epoch: i64, r: Recur) -> (res: i64)
    requires
        add_recur_fits(day_epoch as int, r),
    ensures
        res as int == add_recur_spec(day_epoch as int, r),
{
    match r.unit {
        RecurUnit::Day => day_epoch + r.n,
        RecurUnit::Week => day_epoch + r.n * 7,
        RecurUnit::Month => {
            let (y, m, d) = civil_from_days(day_epoch);
            let total = (m as i64 - 1) + r.n;
            let ny = y + div_euclid(total, 12);
            let nm = rem_euclid(total, 12) + 1;
            let dim = days_in_month(ny, nm);
            let nd = if (d as i64) <= dim {
                d as i64
            } else {
                dim
            };
            days_from_civil(ny, nm, nd)
        },
        RecurUnit::Year => {
            let (y, m, d) = civil_from_days(day_epoch);
            let ny = y + r.n;
            let dim = days_in_month(ny, m as i64);
            let nd = if (d as i64) <= dim {
                d as i64
            } else {
                dim
            };
            days_from_civil(ny, m as i64, nd)
        },
    }
}

// ---------------------------------------------------------------------------
// Parsing task lines
// ---------------------------------------------------------------------------

/// What the tokens after a task marker say so far.
pub struct TaskFields {
    pub priority: Priority,
    pub due_ms: Option<int>,
    pub due_time_min: Option<int>,
    pub project: Option<Seq<char>>,
    pub recur: Option<Recur>,
    pub bookmarked: bool,
    pub title: Seq<Seq<char>>,
}

pub open spec fn no_fields() -> TaskFields {
    TaskFields {
        priority: Priority::NoPriority,
        due_ms: None,
        due_time_min: None,
        project: None,
        recur: None,
        bookmarked: false,
        title: Seq::<Seq<char>>::empty(),
    }
}

/// `#name` that names a project: a non-empty name not starting with another `#`.
pub open spec fn project_of(tok: Seq<char>) -> Option<Seq<char>> {
    if starts_with(tok, seq!['#']) && tok.len() > 1 && tok[1] != '#' {
        Some(tok.drop_first())
    } else {
        None
    }
}

/// Reads tokens `toks[i..]` into `st`: the first priority, the first `@due`
/// (plus a clock time right after it), the first `#project`, the first
/// recurrence rule and the first lone `*` are taken; every other token is
/// part of the title.
pub open spec fn scan_tokens(toks: Seq<Seq<char>>, i: int, now: int, st: TaskFields) -> TaskFields
    decreases toks.len() - i,
{
    if i < 0 || i >= toks.len() {
        st
    } else {
        let tok = toks[i];
        if st.priority == Priority::NoPriority && priority_spec(tok) is Some {
            scan_tokens(
                toks,
                i + 1,
                now,
                TaskFields { priority: priority_spec(tok)->0, ..st },
            )
        } else if st.due_ms is None && starts_with(tok, seq!['@']) && parse_due_spec(
            tok.drop_first(),
            now,
        ) is Some {
            let d = parse_due_spec(tok.drop_first(), now);
            if i + 1 < toks.len() && parse_time_spec(toks[i + 1]) is Some {
                scan_tokens(
                    toks,
                    i + 2,
                    now,
                    TaskFields { due_ms: d, due_time_min: parse_time_spec(toks[i + 1]), ..st },
                )
            } else {
                scan_tokens(toks, i + 1, now, TaskFields { due_ms: d, ..st })
            }
        } else if st.project is None && project_of(tok) is Some {
            scan_tokens(toks, i + 1, now, TaskFields { project: project_of(tok), ..st })
        } else if st.recur is None && parse_recur_spec(tok) is Some {
            scan_tokens(toks, i + 1, now, TaskFields { recur: parse_recur_spec(tok), ..st })
        } else if !st.bookmarked && tok == seq!['*'] {
            scan_tokens(toks, i + 1, now, TaskFields { bookmarked: true, ..st })
        } else {
            scan_tokens(toks, i + 1, now, TaskFields { title: st.title.push(tok), ..st })
        }
    }
}

/// Every `@token` among `toks` resolves within `i64` arithmetic.
pub open spec fn dues_fit(toks: Seq<Seq<char>>, now: int) -> bool {
    forall|j: int|
        0 <= j < toks.len() && starts_with(#[trigger] toks[j], seq!['@']) ==> due_fits(
            toks[j].drop_first(),
            now,
        )
}

/// The rest of a task line after its marker.
pub open spec fn task_rest(line: Seq<char>) -> Seq<char> {
    (marker_spec(trim_start(line))->0).1
}

pub open spec fn task_status(line: Seq<char>) -> Status {
    (marker_spec(trim_start(line))->0).0
}

pub open spec fn line_fields(line: Seq<char>, now: int) -> TaskFields {
    scan_tokens(words(task_rest(line)), 0, now, no_fields())
}

/// Every task line of `body` has `@due` tokens that resolve within `i64`.
pub open spec fn body_dues_fit(body: Seq<char>, now: int) -> bool {
    forall|i: int|
        0 <= i < lines(body).len() && is_task_line(#[trigger] lines(body)[i]) ==> dues_fit(
            words(task_rest(lines(body)[i])),
            now,
        )
}

/// Indices of the task lines among `ls`.
pub open spec fn task_line_indices(ls: Seq<Seq<char>>) -> Seq<int>
    decreases ls.len(),
{
    if ls.len() == 0 {
        Seq::<int>::empty()
    } else {
        let p = task_line_indices(ls.drop_last());
        if is_task_line(ls.last()) {
            p.push(ls.len() - 1)
        } else {
            p
        }
    }
}

pub open spec fn opt_int(o: Option<i64>) -> Option<int> {
    match o {
        Some(v) => Some(v as int),
        None => None,
    }
}

pub open spec fn opt_str(o: Option<String>) -> Option<Seq<char>> {
    match o {
        Some(v) => Some(v@),
        None => None,
    }
}

/// `t` is the task that line `i` of `note` (among `ls`, its lines) describes.
pub open spec fn task_from_line(t: Task, note: Note, ls: Seq<Seq<char>>, i: int, now: int) -> bool {
    let line = ls[i];
    let f = line_fields(line, now);
    &&& t.note_id == note.id
    &&& t.note_name@ == note.name@
    &&& t.line_index == i
    &&& t.status == task_status(line)
    &&& t.done == (task_status(line) == Status::Done)
    &&& t.title@ == join(f.title, seq![' '])
    &&& t.priority == f.priority
    &&& opt_int(t.due_ms) == f.due_ms
    &&& opt_int(t.due_time_min) == f.due_time_min
    &&& t.recur == f.recur
    &&& t.bookmarked == f.bookmarked
    &&& opt_str(t.project) == f.project
    &&& t.source_app_id == note.source_app_id
    &&& t.source_entry_id == note.source_entry_id
}

/// Exec counterpart of `TaskFields` while scanning.
struct Scan {
    priority: Priority,
    due_ms: Option<i64>,
    due_time_min: Option<i64>,
    project: Option<Vec<char>>,
    recur: Option<Recur>,
    bookmarked: bool,
    title: Vec<Vec<char>>,
}

impl Scan {
    spec fn fields(&self) -> TaskFields {
        TaskFields {
            priority: self.priority,
            due_ms: opt_int(self.due_ms),
            due_time_min: opt_int(self.due_time_min),
            project: match self.project {
                Some(p) => Some(p@),
                None => None,
            },
            recur: self.recur,
            bookmarked: self.bookmarked,
            title: views(self.title@),
        }
    }
}

fn scan_exec(toks: &Vec<Vec<char>>, now_ms: i64) -> (r: Scan)
    requires
        dues_fit(views(toks@), now_ms as int),
    ensures
        r.fields() == scan_tokens(views(toks@), 0, now_ms as int, no_fields()),
{
    let mut st = Scan {
        priority: Priority::NoPriority,
        due_ms: None,
        due_time_min: None,
        project: None,
        recur: None,
        bookmarked: false,
        title: Vec::new(),
    };
    assert(st.fields() =~= no_fields()) by {
        assert(views(st.title@) =~= Seq::<Seq<char>>::empty());
    }
    let ghost tv = views(toks@);
    let mut i: usize = 0;
    while i < toks.len()
        invariant
            i <= toks@.len(),
            tv == views(toks@),
            dues_fit(tv, now_ms as int),
            scan_tokens(tv, i as int, now_ms as int, st.fields()) == scan_tokens(
                tv,
                0,
                now_ms as int,
                no_fields(),
            ),
        decreases toks.len() - i,
    {
        let tok = &toks[i];
        assert(tv[i as int] == tok@);
        if st.priority == Priority::NoPriority {
            if let Some(p) = parse_priority(tok) {
                st.priority = p;
                i += 1;
                continue;
            }
        }
        if st.due_ms.is_none() {
            if let Some(rest) = strip_prefix_exec(tok, &one_char('@')) {
                assert(rest@ =~= tok@.drop_first());
                let s = string_of(&rest);
                if let Some(d) = parse_due(&s, now_ms) {
                    st.due_ms = Some(d);
                    if i + 1 < toks.len() {
                        assert(tv[i + 1] == toks@[i + 1]@);
                        let nx = string_of(&toks[i + 1]);
                        if let Some(tm) = parse_time(&nx) {
                            st.due_time_min = Some(tm);
                            i += 2;
                            continue;
                        }
                    }
                    i += 1;
                    continue;
                }
            }
        }
        if st.project.is_none() {
            if tok.len() > 1 && tok[0] == '#' && tok[1] != '#' {
                let name = slice_chars(tok, 1, tok.len());
                assert(name@ =~= tok@.drop_first());
                assert(starts_with(tok@, seq!['#'])) by {
                    assert(tok@.subrange(0, 1) =~= seq!['#']);
                }
                st.project = Some(name);
                i += 1;
                continue;
            } else {
                assert(project_of(tok@) is None) by {
                    if starts_with(tok@, seq!['#']) && tok@.len() > 1 {
                        assert(tok@.subrange(0, 1)[0] == tok@[0]);
                    }
                }
            }
        }
        if st.recur.is_none() {
            let s = string_of(tok);
            if let Some(r) = parse_recur(&s) {
                st.recur = Some(r);
                i += 1;
                continue;
            }
        }
        if !st.bookmarked && is_star(tok) {
            st.bookmarked = true;
            i += 1;
            continue;
        }
        let ghost t0 = views(st.title@);
        let c = slice_chars(tok, 0, tok.len());
        assert(c@ =~= tok@);
        st.title.push(c);
        assert(views(st.title@) =~= t0.push(tok@));
        i += 1;
    }
    st
}

fn opt_string(o: Option<Vec<char>>) -> (r: Option<String>)
    ensures
        opt_str(r) == match o {
            Some(p) => Some(p@),
            None => None::<Seq<char>>,
        },
{
    match o {
        Some(p) => Some(string_of(&p)),
        None => None,
    }
}

/// Parse every task line in a note, carrying the note's provenance onto each task.
pub fn parse_tasks_in(note: &Note, now_ms: i64) -> (out: Vec<Task>)
    requires
        body_dues_fit(note.body@, now_ms as int),
    ensures
        out@.len() == task_line_indices(lines(note.body@)).len(),
        forall|k: int|
            0 <= k < out@.len() ==> task_from_line(
                #[trigger] out@[k],
                *note,
                lines(note.body@),
                task_line_indices(lines(note.body@))[k],
                now_ms as int,
            ),
{
    let ls = lines_exec(&chars_of(note.body.as_str()));
    let ghost lv = lines(note.body@);
    let mut out: Vec<Task> = Vec::new();
    let mut i: usize = 0;
    while i < ls.len()
        invariant
            i <= ls@.len(),
            views(ls@) == lv,
            lv == lines(note.body@),
            body_dues_fit(note.body@, now_ms as int),
            out@.len() == task_line_indices(lv.take(i as int)).len(),
            forall|k: int|
                0 <= k < out@.len() ==> task_from_line(
                    #[trigger] out@[k],
                    *note,
                    lv,
                    task_line_indices(lv.take(i as int))[k],
                    now_ms as int,
                ),
        decreases ls.len() - i,
    {
        let ghost t = lv.take(i + 1);
        assert(t.drop_last() =~= lv.take(i as int));
        assert(t.last() == lv[i as int]);
        assert(lv[i as int] == ls@[i as int]@);
        let trimmed = trim_start_exec(&ls[i]);
        match task_marker(&trimmed) {
            None => {},
            Some((status, rest)) => {
                assert(is_task_line(lv[i as int]));
                let toks = words_exec(&rest);
                let st = scan_exec(&toks, now_ms);
                let mut sp: Vec<char> = Vec::new();
                sp.push(' ');
                assert(sp@ =~= seq![' ']);
                let title = string_of(&join_exec(&st.title, &sp));
                let project = opt_string(st.project);
                let task = Task {
                    note_id: note.id,
                    note_name: note.name.clone(),
                    line_index: i,
                    done: status == Status::Done,
                    status,
                    title,
                    priority: st.priority,
                    due_ms: st.due_ms,
                    due_time_min: st.due_time_min,
                    recur: st.recur,
                    bookmarked: st.bookmarked,
                    project,
                    source_app_id: note.source_app_id,
                    source_entry_id: note.source_entry_id,
                };
                let ghost o0 = out@;
                out.push(task);
                assert(task_from_line(out@[o0.len() as int], *note, lv, i as int, now_ms as int));
            },
        }
        i += 1;
    }
    assert(lv.take(ls@.len() as int) =~= lv);
    out
}

/// A positive rule always moves a day number forward.
pub proof fn lemma_add_recur_increases(day: int, r: Recur)
    requires
        r.n > 0,
    ensures
        add_recur_spec(day, r) > day,
{
    let (y, m, d) = civil(day);
    lemma_civil_ranges(day);
    match r.unit {
        RecurUnit::Month => {
            let total = (m - 1) + r.n;
            let ny = y + total / 12;
            let nm = total % 12 + 1;
            vstd::arithmetic::div_mod::lemma_fundamental_div_mod(total, 12);
            vstd::arithmetic::div_mod::lemma_mod_bound(total, 12);
            assert(12 * ny + nm == 12 * y + m + r.n);
            lemma_later_month(day, ny, nm, min_int(d, dim_spec(ny, nm)));
        },
        RecurUnit::Year => {
            let ny = y + r.n;
            lemma_later_month(day, ny, m, min_int(d, dim_spec(ny, m)));
        },
        _ => {},
    }
}

/// First occurrence strictly after day `today`, stepping by `r` from day `x`.
pub open spec fn next_occ(x: int, r: Recur, today: int) -> int
    decreases today - x when r.n > 0
{
    let n = add_recur_spec(x, r);
    if n <= today {
        proof {
            lemma_add_recur_increases(x, r);
        }
        next_occ(n, r, today)
    } else {
        n
    }
}

/// Every step of `next_occ(x, r, today)` stays within `i64` arithmetic.
pub open spec fn occ_fits(x: int, r: Recur, today: int) -> bool
    decreases today - x when r.n > 0
{
    let n = add_recur_spec(x, r);
    add_recur_fits(x, r) && (n <= today ==> {
        proof {
            lemma_add_recur_increases(x, r);
        }
        occ_fits(n, r, today)
    })
}

/// Next occurrence strictly after `today_days`, stepping by the rule from `due_days`.
pub fn next_occurrence(due_days: i64, r: Recur, today_days: i64) -> (res: i64)
    requires
        r.n > 0,
        occ_fits(due_days as int, r, today_days as int),
    ensures
        res == next_occ(due_days as int, r, today_days as int),
        res > today_days,
{
    let mut next = add_recur(due_days, r);
    proof {
        lemma_add_recur_increases(due_days as int, r);
    }
    while next <= today_days
        invariant
            r.n > 0,
            next <= today_days ==> occ_fits(next as int, r, today_days as int),
            next_occ(due_days as int, r, today_days as int) == (if next <= today_days {
                next_occ(next as int, r, today_days as int)
            } else {
                next as int
            }),
        decreases if next <= today_days {
            today_days - next + 1
        } else {
            0
        },
    {
        proof {
            lemma_add_recur_increases(next as int, r);
        }
        next = add_recur(next, r);
    }
    next
}

// ---------------------------------------------------------------------------
// Rescheduling recurring tasks
// ---------------------------------------------------------------------------

/// The first `@due` (its day-epoch ms and token text) and the first
/// recurrence rule among `toks[i..]`.
pub open spec fn resched_scan(
    toks: Seq<Seq<char>>,
    i: int,
    now: int,
    due: Option<(int, Seq<char>)>,
    recur: Option<Recur>,
) -> (Option<(int, Seq<char>)>, Option<Recur>)
    decreases toks.len() - i,
{
    if i < 0 || i >= toks.len() {
        (due, recur)
    } else {
        let t = toks[i];
        if due is None && starts_with(t, seq!['@']) && parse_due_spec(t.drop_first(), now) is Some {
            let d = Some((parse_due_spec(t.drop_first(), now)->0, t.drop_first()));
            if i + 1 < toks.len() && parse_time_spec(toks[i + 1]) is Some {
                resched_scan(toks, i + 2, now, d, recur)
            } else {
                resched_scan(toks, i + 1, now, d, recur)
            }
        } else if recur is None && parse_recur_spec(t) is Some {
            resched_scan(toks, i + 1, now, due, parse_recur_spec(t))
        } else {
            resched_scan(toks, i + 1, now, due, recur)
        }
    }
}

/// `str::replacen(pat, rep, 1)`.
pub open spec fn replace_first(s: Seq<char>, pat: Seq<char>, rep: Seq<char>) -> Seq<char> {
    match find(s, pat) {
        Some(k) => s.take(k) + rep + s.skip(k + pat.len()),
        None => s,
    }
}

/// The open task line with `@due` and a recurrence, as `(due ms, due token,
/// rule)`.
pub open spec fn resched_parts(line: Seq<char>, now: int) -> Option<(int, Seq<char>, Recur)> {
    match marker_spec(trim_start(line)) {
        Some((st, rest)) => if st == Status::Done {
            None
        } else {
            match resched_scan(words(rest), 0, now, None, None) {
                (Some((d, tok)), Some(r)) => Some((d, tok, r)),
                _ => None,
            }
        },
        None => None,
    }
}

pub open spec fn reschedule_spec(line: Seq<char>, now: int) -> Option<Seq<char>> {
    match resched_parts(line, now) {
        Some((d, tok, r)) => {
            let nd = next_occ(d / DAY_MS as int, r, now / DAY_MS as int);
            Some(replace_first(line, seq!['@'] + tok, seq!['@'] + day_str(nd)))
        },
        None => None,
    }
}

/// `reschedule_line(line, now)` stays within `i64` arithmetic.
pub open spec fn reschedule_fits(line: Seq<char>, now: int) -> bool {
    &&& (marker_spec(trim_start(line)) matches Some((st, rest)) ==> dues_fit(words(rest), now))
    &&& (resched_parts(line, now) matches Some((d, tok, r)) ==> {
        let today = now / DAY_MS as int;
        &&& occ_fits(d / DAY_MS as int, r, today)
        &&& in_i64(next_occ(d / DAY_MS as int, r, today) * DAY_MS as int)
    })
}

fn resched_scan_exec(toks: &Vec<Vec<char>>, now_ms: i64) -> (r: (Option<(i64, Vec<char>)>, Option<Recur>))
    requires
        dues_fit(views(toks@), now_ms as int),
    ensures
        resched_scan(views(toks@), 0, now_ms as int, None, None) == (
            match r.0 {
                Some((d, t)) => Some((d as int, t@)),
                None => None::<(int, Seq<char>)>,
            },
            r.1,
        ),
        r.1 matches Some(x) ==> x.n > 0,
{
    let ghost tv = views(toks@);
    let mut due: Option<(i64, Vec<char>)> = None;
    let mut recur: Option<Recur> = None;
    let mut i: usize = 0;
    while i < toks.len()
        invariant
            i <= toks@.len(),
            tv == views(toks@),
            dues_fit(tv, now_ms as int),
            recur matches Some(x) ==> x.n > 0,
            resched_scan(tv, i as int, now_ms as int, match due {
                Some((d, t)) => Some((d as int, t@)),
                None => None::<(int, Seq<char>)>,
            }, recur) == resched_scan(tv, 0, now_ms as int, None, None),
        decreases toks.len() - i,
    {
        let t = &toks[i];
        assert(tv[i as int] == t@);
        if due.is_none() {
            if let Some(rest) = strip_prefix_exec(t, &one_char('@')) {
                assert(rest@ =~= t@.drop_first());
                let s = string_of(&rest);
                if let Some(d) = parse_due(&s, now_ms) {
                    due = Some((d, rest));
                    if i + 1 < toks.len() {
                        assert(tv[i + 1] == toks@[i + 1]@);
                        if parse_time(&string_of(&toks[i + 1])).is_some() {
                            i += 2;
                            continue;
                        }
                    }
                    i += 1;
                    continue;
                }
            }
        }
        if recur.is_none() {
            if let Some(r) = parse_recur(&string_of(t)) {
                recur = Some(r);
            }
        }
        i += 1;
    }
    (due, recur)
}

/// If `line` is an OPEN recurring task with a due date, return it rescheduled to the
/// next future occurrence (still `- [ ]`, `@due` rewritten as absolute YYYY-MM-DD).
/// `None` otherwise (not a task, already done, no due, or no recurrence rule).
pub fn reschedule_line(line: &str, now_ms: i64) -> (r: Option<String>)
    requires
        reschedule_fits(line@, now_ms as int),
    ensures
        r matches Some(v) ==> reschedule_spec(line@, now_ms as int) == Some(v@),
        r is None ==> reschedule_spec(line@, now_ms as int) is None,
{
    let lc = chars_of(line);
    let trimmed = trim_start_exec(&lc);
    let (status, rest) = match task_marker(&trimmed) {
        Some(x) => x,
        None => return None,
    };
    if status == Status::Done {
        return None;
    }
    let toks = words_exec(&rest);
    let (due, recur) = resched_scan_exec(&toks, now_ms);
    let (due_ms, due_token) = match due {
        Some(x) => x,
        None => return None,
    };
    let recur = match recur {
        Some(r) => r,
        None => return None,
    };
    proof {
        // parse_recur only yields positive rules
        assert(recur.n > 0);
    }
    let today = div_euclid(now_ms, 86_400_000);
    let next_days = next_occurrence(div_euclid(due_ms, 86_400_000), recur, today);
    let mut pat = one_char('@');
    append_chars(&mut pat, &due_token);
    let mut new = one_char('@');
    append_chars(&mut new, &chars_of(abs_date(next_days * 86_400_000).as_str()));
    proof {
        assert((next_days * 86_400_000) / 86_400_000 == next_days as int) by (nonlinear_arith);
    }
    match find_exec(&lc, &pat) {
        Some(k) => {
            let nlc = lc.len();
            assert(k + pat@.len() <= nlc);
            let mut out = slice_chars(&lc, 0, k);
            assert(out@ =~= lc@.take(k as int));
            append_chars(&mut out, &new);
            let tail = slice_chars(&lc, k + pat.len(), lc.len());
            assert(tail@ =~= lc@.skip(k + pat@.len()));
            append_chars(&mut out, &tail);
            Some(string_of(&out))
        },
        None => Some(string_of(&lc)),
    }
}

// ---------------------------------------------------------------------------
// Clock entries
// ---------------------------------------------------------------------------

/// `YYYY-MM-DD HH:MM` of epoch-ms `ms` shifted by `offset_secs`.
pub open spec fn local_stamp_spec(ms: int, offset_secs: int) -> Seq<char> {
    let local_ms = ms + offset_secs * 1000;
    let secs_of_day = (local_ms / 1000) % 86400;
    let c = civil(local_ms / DAY_MS as int);
    let h = secs_of_day / 3600;
    let mi = (secs_of_day % 3600) / 60;
    date_str(c.0, c.1, c.2) + seq![' '] + dec_pad(h, 2) + seq![':'] + dec_pad(mi, 2)
}

/// Format epoch-ms (shifted by `offset_secs`) as local `YYYY-MM-DD HH:MM`.
fn local_stamp(ms: i64, offset_secs: i64) -> (r: Vec<char>)
    requires
        in_i64(offset_secs * 1000),
        in_i64(ms + offset_secs * 1000),
    ensures
        r@ == local_stamp_spec(ms as int, offset_secs as int),
{
    let local_ms = ms + offset_secs * 1000;
    let secs_of_day = rem_euclid(div_euclid(local_ms, 1000), 86_400);
    let (y, m, d) = civil_from_days(div_euclid(local_ms, 86_400_000));
    let h = secs_of_day / 3600;
    let mi = (secs_of_day % 3600) / 60;
    let mut r = date_chars(y, m, d);
    r.push(' ');
    append_chars(&mut r, &fmt_i64_pad(h, 2));
    r.push(':');
    append_chars(&mut r, &fmt_i64_pad(mi, 2));
    r
}

/// `H:MM` of a duration in ms (hours unbounded); negatives count as zero.
pub open spec fn duration_hm_spec(ms: int) -> Seq<char> {
    let mins = (if ms > 0 {
        ms
    } else {
        0
    }) / 60_000;
    dec(mins / 60) + seq![':'] + dec_pad(mins % 60, 2)
}

fn duration_hm_chars(ms: i64) -> (r: Vec<char>)
    ensures
        r@ == duration_hm_spec(ms as int),
{
    let mins = (if ms > 0 {
        ms
    } else {
        0
    }) / 60_000;
    let mut r = fmt_i64(mins / 60);
    r.push(':');
    append_chars(&mut r, &fmt_i64_pad(mins % 60, 2));
    r
}

/// Format a duration in ms as org's `H:MM` (hours unbounded, minutes zero-padded).
/// Negative durations clamp to `0:00`.
pub fn duration_hm(ms: i64) -> (r: String)
    ensures
        r@ == duration_hm_spec(ms as int),
{
    string_of(duration_hm_chars(ms).as_slice())
}

/// Line index of the first task among `idxs[k..]` (indices into `ls`) whose
/// title is `title`.
pub open spec fn first_titled(
    ls: Seq<Seq<char>>,
    idxs: Seq<int>,
    title: Seq<char>,
    now: int,
    k: int,
) -> Option<int>
    decreases idxs.len() - k,
{
    if k < 0 || k >= idxs.len() {
        None
    } else if join(line_fields(ls[idxs[k]], now).title, seq![' ']) == title {
        Some(idxs[k])
    } else {
        first_titled(ls, idxs, title, now, k + 1)
    }
}

/// The CLOCK line for a timer from `start_ms` to `end_ms` at indent `di`.
pub open spec fn clock_line_spec(di: Seq<char>, start_ms: int, end_ms: int, off: int) -> Seq<char> {
    di + "CLOCK: ["@ + local_stamp_spec(start_ms, off) + "]--["@ + local_stamp_spec(end_ms, off)
        + "] => "@ + duration_hm_spec(end_ms - start_ms)
}

pub open spec fn log_clock_spec(
    body: Seq<char>,
    title: Seq<char>,
    start_ms: int,
    end_ms: int,
    off: int,
) -> Seq<char> {
    let ls = lines(body);
    match first_titled(ls, task_line_indices(ls), title, end_ms, 0) {
        None => body,
        Some(i) => {
            let p = split_on(body, '\n');
            let di = indent_of(p[i]) + seq![' ', ' '];
            let cl = clock_line_spec(di, start_ms, end_ms, off);
            if i + 1 < p.len() && trim(p[i + 1]) == ":LOGBOOK:"@ {
                join(p.insert(i + 2, cl), seq!['\n'])
            } else {
                join(
                    p.insert(i + 1, di + ":LOGBOOK:"@).insert(i + 2, cl).insert(i + 3, di + ":END:"@),
                    seq!['\n'],
                )
            }
        },
    }
}

proof fn lemma_lines_len(s: Seq<char>)
    ensures
        lines(s).len() <= split_on(s, '\n').len(),
{
    lemma_split_on_len(s, '\n');
}

fn clock_line(di: &Vec<char>, start_ms: i64, end_ms: i64, offset_secs: i64) -> (r: Vec<char>)
    requires
        in_i64(offset_secs * 1000),
        in_i64(start_ms + offset_secs * 1000),
        in_i64(end_ms + offset_secs * 1000),
        in_i64(end_ms - start_ms),
    ensures
        r@ == clock_line_spec(di@, start_ms as int, end_ms as int, offset_secs as int),
{
    let mut clock = slice_chars(di, 0, di.len());
    assert(clock@ =~= di@);
    append_chars(&mut clock, &chars_of("CLOCK: ["));
    append_chars(&mut clock, &local_stamp(start_ms, offset_secs));
    append_chars(&mut clock, &chars_of("]--["));
    append_chars(&mut clock, &local_stamp(end_ms, offset_secs));
    append_chars(&mut clock, &chars_of("] => "));
    append_chars(&mut clock, &duration_hm_chars(end_ms - start_ms));
    clock
}

/// Line index of the first of `tasks` (parsed from lines `ls`) titled `want`.
fn find_titled(
    tasks: &Vec<Task>,
    Ghost(note): Ghost<Note>,
    Ghost(ls): Ghost<Seq<Seq<char>>>,
    want: &Vec<char>,
    now: i64,
) -> (r: Option<usize>)
    requires
        tasks@.len() == task_line_indices(ls).len(),
        forall|j: int|
            0 <= j < tasks@.len() ==> task_from_line(
                #[trigger] tasks@[j],
                note,
                ls,
                task_line_indices(ls)[j],
                now as int,
            ),
    ensures
        r matches Some(i) ==> first_titled(ls, task_line_indices(ls), want@, now as int, 0) == Some(
            i as int,
        ),
        r is None ==> first_titled(ls, task_line_indices(ls), want@, now as int, 0) is None,
{
    let ghost idxs = task_line_indices(ls);
    let mut k: usize = 0;
    while k < tasks.len()
        invariant
            k <= tasks@.len(),
            tasks@.len() == idxs.len(),
            idxs == task_line_indices(ls),
            forall|j: int|
                0 <= j < tasks@.len() ==> task_from_line(
                    #[trigger] tasks@[j],
                    note,
                    ls,
                    idxs[j],
                    now as int,
                ),
            first_titled(ls, idxs, want@, now as int, 0) == first_titled(
                ls,
                idxs,
                want@,
                now as int,
                k as int,
            ),
        decreases tasks.len() - k,
    {
        assert(task_from_line(tasks@[k as int], note, ls, idxs[k as int], now as int));
        assert(first_titled(ls, idxs, want@, now as int, k as int) == if join(
            line_fields(ls[idxs[k as int]], now as int).title,
            seq![' '],
        ) == want@ {
            Some(idxs[k as int])
        } else {
            first_titled(ls, idxs, want@, now as int, k + 1)
        });
        if chars_eq(&chars_of(tasks[k].title.as_str()), want) {
            return Some(tasks[k].line_index);
        }
        k += 1;
    }
    None
}

/// Inserts the CLOCK line (and a fresh drawer around it when there is none)
/// under line `idx`.
fn insert_clock(out: &mut Vec<Vec<char>>, idx: usize, di: &Vec<char>, clock: Vec<char>)
    requires
        idx < old(out)@.len(),
    ensures
        ({
            let p = views(old(out)@);
            views(final(out)@) == if idx + 1 < p.len() && trim(p[idx + 1]) == ":LOGBOOK:"@ {
                p.insert(idx + 2, clock@)
            } else {
                p.insert(idx + 1, di@ + ":LOGBOOK:"@).insert(idx + 2, clock@).insert(
                    idx + 3,
                    di@ + ":END:"@,
                )
            }
        }),
{
    let ghost pv = views(out@);
    let n = out.len();
    let has_drawer = idx + 1 < n && chars_eq(
        &trim_exec(&out[idx + 1]),
        &chars_of(":LOGBOOK:"),
    );
    if has_drawer {
        assert(pv[idx + 1] == out@[idx + 1]@);
        let ghost c = clock@;
        out.insert(idx + 2, clock);
        assert(views(out@) =~= pv.insert(idx + 2, c));
    } else {
        proof {
            if idx + 1 < pv.len() {
                assert(pv[idx + 1] == out@[idx + 1]@);
            }
        }
        let mut open = slice_chars(di, 0, di.len());
        append_chars(&mut open, &chars_of(":LOGBOOK:"));
        let mut close = slice_chars(di, 0, di.len());
        append_chars(&mut close, &chars_of(":END:"));
        assert(open@ =~= di@ + ":LOGBOOK:"@);
        assert(close@ =~= di@ + ":END:"@);
        let ghost c1 = clock@;
        let ghost p1 = pv.insert(idx + 1, di@ + ":LOGBOOK:"@);
        out.insert(idx + 1, open);
        assert(views(out@) =~= p1);
        let ghost p2 = p1.insert(idx + 2, c1);
        let n1 = out.len();
        assert(idx + 2 <= n1);
        out.insert(idx + 2, clock);
        assert(views(out@) =~= p2);
        let n2 = out.len();
        assert(idx + 3 <= n2);
        out.insert(idx + 3, close);
        assert(views(out@) =~= p2.insert(idx + 3, di@ + ":END:"@));
    }
}

/// Insert an org-mode CLOCK entry for a completed timer under the task line whose
/// title matches `title`, into its `:LOGBOOK:` drawer (created if absent), indented
/// two spaces past the task line's own indent. Newest CLOCK line goes first (right
/// after `:LOGBOOK:`). Returns the new body; returns `body` unchanged if no matching
/// task line is found.
pub fn log_clock(body: &str, title: &str, start_ms: i64, end_ms: i64, offset_secs: i64) -> (r: String)
    requires
        body_dues_fit(body@, end_ms as int),
        in_i64(offset_secs * 1000),
        in_i64(start_ms + offset_secs * 1000),
        in_i64(end_ms + offset_secs * 1000),
        in_i64(end_ms - start_ms),
    ensures
        r@ == log_clock_spec(body@, title@, start_ms as int, end_ms as int, offset_secs as int),
{
    let dummy = Note {
        id: 0,
        name: String::new(),
        is_daily: false,
        body: String::from_str(body),
        created_at_ms: 0,
        updated_at_ms: 0,
        source_app_id: None,
        source_entry_id: None,
    };
    let tasks = parse_tasks_in(&dummy, end_ms);
    let ghost ls = lines(body@);
    let found = find_titled(&tasks, Ghost(dummy), Ghost(ls), &chars_of(title), end_ms);
    let task_idx = match found {
        Some(i) => i,
        None => return String::from_str(body),
    };
    proof {
        lemma_task_indices_bound(ls, task_line_indices(ls), title@, end_ms as int, 0);
        lemma_lines_len(body@);
    }
    let b = chars_of(body);
    let mut out = split_exec(&b, '\n');
    let ghost p = split_on(body@, '\n');
    assert(views(out@)[task_idx as int] == out@[task_idx as int]@);
    let n = lead_ws_exec(&out[task_idx]);
    let mut di = slice_chars(&out[task_idx], 0, n);
    di.push(' ');
    di.push(' ');
    assert(di@ =~= indent_of(p[task_idx as int]) + seq![' ', ' ']);
    let clock = clock_line(&di, start_ms, end_ms, offset_secs);
    insert_clock(&mut out, task_idx, &di, clock);
    let nl = one_char('\n');
    string_of(&join_exec(&out, &nl))
}

proof fn lemma_task_indices_bound(
    ls: Seq<Seq<char>>,
    idxs: Seq<int>,
    title: Seq<char>,
    now: int,
    k: int,
)
    requires
        idxs == task_line_indices(ls),
        0 <= k,
    ensures
        first_titled(ls, idxs, title, now, k) matches Some(i) ==> 0 <= i < ls.len(),
    decreases idxs.len() - k,
{
    lemma_task_line_indices_range(ls);
    if k < idxs.len() {
        lemma_task_indices_bound(ls, idxs, title, now, k + 1);
    }
}

proof fn lemma_task_line_indices_range(ls: Seq<Seq<char>>)
    ensures
        forall|j: int|
            0 <= j < task_line_indices(ls).len() ==> 0 <= #[trigger] task_line_indices(ls)[j]
                < ls.len(),
    decreases ls.len(),
{
    if ls.len() > 0 {
        lemma_task_line_indices_range(ls.drop_last());
        let p = task_line_indices(ls.drop_last());
        assert forall|j: int|
            0 <= j < task_line_indices(ls).len() implies 0 <= #[trigger] task_line_indices(ls)[j]
            < ls.len() by {
            if j < p.len() {
                assert(task_line_indices(ls)[j] == p[j]);
            }
        }
    }
}

/// No line break anywhere in `s`.
pub open spec fn no_line_break(s: Seq<char>) -> bool {
    forall|j: int| 0 <= j < s.len() ==> s[j] != '\n'
}

proof fn lemma_no_break_add(a: Seq<char>, b: Seq<char>)
    requires
        no_line_break(a),
        no_line_break(b),
    ensures
        no_line_break(a + b),
{
    assert forall|j: int| 0 <= j < (a + b).len() implies (a + b)[j] != '\n' by {
        if j < a.len() {
            assert((a + b)[j] == a[j]);
        } else {
            assert((a + b)[j] == b[j - a.len()]);
        }
    }
}

proof fn lemma_dec_no_break(n: int, w: nat)
    ensures
        no_line_break(dec(n)),
        no_line_break(dec_pad(n, w)),
{
    crate::num::lemma_dec_chars(n);
    let m: nat = if n < 0 {
        (-n) as nat
    } else {
        n as nat
    };
    crate::num::lemma_dec_nat_digits(m);
    let d = crate::num::dec_nat(m);
    assert(no_line_break(d));
    let w2: nat = if n < 0 {
        if w >= 1 {
            (w - 1) as nat
        } else {
            0
        }
    } else {
        w
    };
    if d.len() < w2 {
        let zs = Seq::new((w2 - d.len()) as nat, |i: int| '0');
        assert(no_line_break(zs));
        lemma_no_break_add(zs, d);
    }
    let z = crate::num::zpad(d, w2);
    assert(no_line_break(z));
    if n < 0 {
        lemma_no_break_add(seq!['-'], z);
        assert(dec_pad(n, w) == seq!['-'] + z);
    } else {
        assert(dec_pad(n, w) == z);
    }
}

proof fn lemma_clock_line_no_break(di: Seq<char>, start_ms: int, end_ms: int, off: int)
    requires
        no_line_break(di),
    ensures
        no_line_break(clock_line_spec(di, start_ms, end_ms, off)),
{
    reveal_strlit("CLOCK: [");
    reveal_strlit("]--[");
    reveal_strlit("] => ");
    assert(no_line_break("CLOCK: ["@));
    assert(no_line_break("]--["@));
    assert(no_line_break("] => "@));
    assert forall|ms: int| no_line_break(#[trigger] local_stamp_spec(ms, off)) by {
        let local_ms = ms + off * 1000;
        let secs_of_day = (local_ms / 1000) % 86400;
        let c = civil(local_ms / DAY_MS as int);
        let h = secs_of_day / 3600;
        let mi = (secs_of_day % 3600) / 60;
        lemma_dec_no_break(c.0, 4);
        lemma_dec_no_break(c.1, 2);
        lemma_dec_no_break(c.2, 2);
        lemma_dec_no_break(h, 2);
        lemma_dec_no_break(mi, 2);
        let dash = seq!['-'];
        assert(no_line_break(dash));
        assert(no_line_break(seq![' ']));
        assert(no_line_break(seq![':']));
        lemma_no_break_add(dec_pad(c.0, 4), dash);
        lemma_no_break_add(dec_pad(c.0, 4) + dash, dec_pad(c.1, 2));
        lemma_no_break_add(dec_pad(c.0, 4) + dash + dec_pad(c.1, 2), dash);
        lemma_no_break_add(dec_pad(c.0, 4) + dash + dec_pad(c.1, 2) + dash, dec_pad(c.2, 2));
        let ds = date_str(c.0, c.1, c.2);
        lemma_no_break_add(ds, seq![' ']);
        lemma_no_break_add(ds + seq![' '], dec_pad(h, 2));
        lemma_no_break_add(ds + seq![' '] + dec_pad(h, 2), seq![':']);
        lemma_no_break_add(ds + seq![' '] + dec_pad(h, 2) + seq![':'], dec_pad(mi, 2));
    }
    let ms = end_ms - start_ms;
    let mins = (if ms > 0 {
        ms
    } else {
        0
    }) / 60_000;
    lemma_dec_no_break(mins / 60, 2);
    lemma_dec_no_break(mins % 60, 2);
    assert(no_line_break(seq![':']));
    lemma_no_break_add(dec(mins / 60), seq![':']);
    lemma_no_break_add(dec(mins / 60) + seq![':'], dec_pad(mins % 60, 2));
    let a = local_stamp_spec(start_ms, off);
    let b = local_stamp_spec(end_ms, off);
    let d = duration_hm_spec(ms);
    lemma_no_break_add(di, "CLOCK: ["@);
    lemma_no_break_add(di + "CLOCK: ["@, a);
    lemma_no_break_add(di + "CLOCK: ["@ + a, "]--["@);
    lemma_no_break_add(di + "CLOCK: ["@ + a + "]--["@, b);
    lemma_no_break_add(di + "CLOCK: ["@ + a + "]--["@ + b, "] => "@);
    lemma_no_break_add(di + "CLOCK: ["@ + a + "]--["@ + b + "] => "@, d);
}

/// Logging a clock changes the lines of `body` only by inserting lines right
/// after the first task line titled `title`: when no such task exists the body
/// is returned as it was; when the next line is a `:LOGBOOK:` drawer one CLOCK
/// line goes in after it, otherwise a new drawer of three lines goes in after
/// the task line. Every inserted line starts with the task line's indentation
/// and two more spaces, and all other lines keep their places and contents.
#[verifier::spinoff_prover]
#[verifier::rlimit(60)]
pub proof fn law_log_clock_lines(
    body: Seq<char>,
    title: Seq<char>,
    start_ms: int,
    end_ms: int,
    off: int,
)
    ensures
        ({
            let ls = lines(body);
            let p = split_on(body, '\n');
            let r = log_clock_spec(body, title, start_ms, end_ms, off);
            match first_titled(ls, task_line_indices(ls), title, end_ms, 0) {
                None => r == body,
                Some(k) => {
                    let di = indent_of(p[k]) + seq![' ', ' '];
                    let cl = clock_line_spec(di, start_ms, end_ms, off);
                    &&& 0 <= k < p.len()
                    &&& if k + 1 < p.len() && trim(p[k + 1]) == ":LOGBOOK:"@ {
                        split_on(r, '\n') == p.take(k + 2) + seq![cl] + p.skip(k + 2)
                    } else {
                        split_on(r, '\n') == p.take(k + 1) + seq![
                            di + ":LOGBOOK:"@,
                            cl,
                            di + ":END:"@,
                        ] + p.skip(k + 1)
                    }
                },
            }
        }),
{
    let ls = lines(body);
    let p = split_on(body, '\n');
    lemma_task_indices_bound(ls, task_line_indices(ls), title, end_ms, 0);
    lemma_lines_len(body);
    if let Some(k) = first_titled(ls, task_line_indices(ls), title, end_ms, 0) {
        crate::text::lemma_split_pieces(body, '\n');
        let line = p[k];
        assert(no_line_break(line));
        let ind = indent_of(line);
        crate::text::lemma_lead_ws_bound(line);
        assert(no_line_break(ind));
        assert(no_line_break(seq![' ', ' ']));
        lemma_no_break_add(ind, seq![' ', ' ']);
        let di = ind + seq![' ', ' '];
        let cl = clock_line_spec(di, start_ms, end_ms, off);
        lemma_clock_line_no_break(di, start_ms, end_ms, off);
        reveal_strlit(":LOGBOOK:");
        reveal_strlit(":END:");
        assert(no_line_break(":LOGBOOK:"@));
        assert(no_line_break(":END:"@));
        lemma_no_break_add(di, ":LOGBOOK:"@);
        lemma_no_break_add(di, ":END:"@);
        let q = if k + 1 < p.len() && trim(p[k + 1]) == ":LOGBOOK:"@ {
            p.take(k + 2) + seq![cl] + p.skip(k + 2)
        } else {
            p.take(k + 1) + seq![di + ":LOGBOOK:"@, cl, di + ":END:"@] + p.skip(k + 1)
        };
        if k + 1 < p.len() && trim(p[k + 1]) == ":LOGBOOK:"@ {
            assert(p.insert(k + 2, cl) =~= q);
        } else {
            assert(p.insert(k + 1, di + ":LOGBOOK:"@).insert(k + 2, cl).insert(k + 3, di + ":END:"@)
                =~= q);
        }
        assert forall|a: int, j: int| 0 <= a < q.len() && 0 <= j < q[a].len() implies q[a][j]
            != '\n' by {
            assert(no_line_break(q[a]));
        }
        crate::text::lemma_join_split(q, '\n');
    }
}

/// The task lines of a note are found in order and none is missed: the indices
/// rise strictly, each names a line that carries a task marker after its
/// indentation, and every such line is among them.
pub proof fn law_task_line_indices(ls: Seq<Seq<char>>)
    ensures
        forall|a: int, b: int|
            0 <= a < b < task_line_indices(ls).len() ==> #[trigger] task_line_indices(ls)[a]
                < #[trigger] task_line_indices(ls)[b],
        forall|j: int|
            0 <= j < task_line_indices(ls).len() ==> 0 <= #[trigger] task_line_indices(ls)[j] < ls.len()
                && is_task_line(ls[task_line_indices(ls)[j]]),
        forall|i: int|
            0 <= i < ls.len() && is_task_line(#[trigger] ls[i]) ==> task_line_indices(ls).contains(i),
    decreases ls.len(),
{
    if ls.len() > 0 {
        let l0 = ls.drop_last();
        law_task_line_indices(l0);
        lemma_task_line_indices_range(l0);
        let p = task_line_indices(l0);
        let q = task_line_indices(ls);
        assert forall|j: int| 0 <= j < p.len() implies q[j] == p[j] && is_task_line(ls[q[j]]) by {
            assert(ls[p[j]] == l0[p[j]]);
        }
        assert forall|a: int, b: int| 0 <= a < b < q.len() implies #[trigger] q[a] < #[trigger] q[b] by {
            if b < p.len() {
                assert(q[a] == p[a] && q[b] == p[b]);
            } else {
                assert(q[a] == p[a]);
            }
        }
        assert forall|i: int| 0 <= i < ls.len() && is_task_line(#[trigger] ls[i]) implies q.contains(
            i,
        ) by {
            if i < l0.len() {
                assert(l0[i] == ls[i]);
                assert(p.contains(i));
                let j = choose|j: int| 0 <= j < p.len() && p[j] == i;
                assert(q[j] == i);
            } else {
                assert(q[q.len() - 1] == i);
            }
        }
    }
}

proof fn lemma_next_occ_after(x: int, r: Recur, today: int)
    requires
        r.n > 0,
    ensures
        next_occ(x, r, today) > today,
        next_occ(x, r, today) > x,
    decreases today - x,
{
    lemma_add_recur_increases(x, r);
    let n = add_recur_spec(x, r);
    if n <= today {
        lemma_next_occ_after(n, r, today);
    }
}

proof fn lemma_resched_scan_rule(
    toks: Seq<Seq<char>>,
    i: int,
    now: int,
    due: Option<(int, Seq<char>)>,
    recur: Option<Recur>,
)
    requires
        recur matches Some(x) ==> x.n > 0,
    ensures
        resched_scan(toks, i, now, due, recur).1 matches Some(x) ==> x.n > 0,
    decreases toks.len() - i,
{
    if 0 <= i < toks.len() {
        let t = toks[i];
        if due is None && starts_with(t, seq!['@']) && parse_due_spec(t.drop_first(), now) is Some {
            let d = Some((parse_due_spec(t.drop_first(), now)->0, t.drop_first()));
            if i + 1 < toks.len() && parse_time_spec(toks[i + 1]) is Some {
                lemma_resched_scan_rule(toks, i + 2, now, d, recur);
            } else {
                lemma_resched_scan_rule(toks, i + 1, now, d, recur);
            }
        } else if recur is None && parse_recur_spec(t) is Some {
            lemma_resched_scan_rule(toks, i + 1, now, due, parse_recur_spec(t));
        } else {
            lemma_resched_scan_rule(toks, i + 1, now, due, recur);
        }
    }
}

/// Rescheduling moves a repeating task forward: the line comes back with its
/// first `@` token replaced by the date of the rule's next occurrence, which
/// lies after today and after the old due day; a line that is not an open task
/// with both a due date and a rule is not rescheduled.
pub proof fn law_reschedule_moves_forward(line: Seq<char>, now: int)
    ensures
        match resched_parts(line, now) {
            Some((d, tok, r)) => {
                let nd = next_occ(d / DAY_MS as int, r, now / DAY_MS as int);
                &&& nd > now / DAY_MS as int
                &&& nd > d / DAY_MS as int
                &&& reschedule_spec(line, now) == Some(
                    replace_first(line, seq!['@'] + tok, seq!['@'] + day_str(nd)),
                )
            },
            None => reschedule_spec(line, now) is None,
        },
{
    if let Some((st, rest)) = marker_spec(trim_start(line)) {
        lemma_resched_scan_rule(words(rest), 0, now, None, None);
    }
    if let Some((d, tok, r)) = resched_parts(line, now) {
        lemma_next_occ_after(d / DAY_MS as int, r, now / DAY_MS as int);
    }
}

/// The priority words, in any case: `!high`, `!hi`, `!h` and `!1` are high;
/// `!med`, `!medium`, `!m` and `!2` are medium; `!low`, `!lo`, `!l` and `!3`
/// are low; every other word is no priority word.
#[verifier::spinoff_prover]
pub proof fn law_priority_words(tok: Seq<char>)
    ensures
        ({
            let t = ascii_lower(tok);
            &&& (t == "!high"@ || t == "!hi"@ || t == "!h"@ || t == "!1"@) ==> priority_spec(tok)
                == Some(Priority::High)
            &&& (t == "!med"@ || t == "!medium"@ || t == "!m"@ || t == "!2"@) ==> priority_spec(tok)
                == Some(Priority::Medium)
            &&& (t == "!low"@ || t == "!lo"@ || t == "!l"@ || t == "!3"@) ==> priority_spec(tok)
                == Some(Priority::Low)
            &&& priority_spec(tok) != Some(Priority::NoPriority)
        }),
        priority_spec("!med"@) == Some(Priority::Medium),
        priority_spec("!MED"@) == priority_spec("!med"@),
{
    reveal_strlit("!high");
    reveal_strlit("!hi");
    reveal_strlit("!h");
    reveal_strlit("!1");
    reveal_strlit("!med");
    reveal_strlit("!MED");
    reveal_strlit("!medium");
    reveal_strlit("!m");
    reveal_strlit("!2");
    reveal_strlit("!low");
    reveal_strlit("!lo");
    reveal_strlit("!l");
    reveal_strlit("!3");
    assert(ascii_lower("!med"@) =~= "!med"@);
    assert(ascii_lower("!MED"@) =~= "!med"@);
    let t = ascii_lower(tok);
    let high = t == "!high"@ || t == "!hi"@ || t == "!h"@ || t == "!1"@;
    let med = t == "!med"@ || t == "!medium"@ || t == "!m"@ || t == "!2"@;
    let low = t == "!low"@ || t == "!lo"@ || t == "!l"@ || t == "!3"@;
    // The words of the three levels differ in their second character.
    if high {
        assert(t[1] == 'h' || t[1] == '1');
    }
    if med {
        assert(t[1] == 'm' || t[1] == '2');
        assert(!high);
    }
    if low {
        assert(t[1] == 'l' || t[1] == '3');
        assert(!high && !med);
    }
}

/// The level of the first priority word among `toks[i..]`, if any.
pub open spec fn first_priority(toks: Seq<Seq<char>>, i: int) -> Priority
    decreases toks.len() - i,
{
    if i < 0 || i >= toks.len() {
        Priority::NoPriority
    } else if priority_spec(toks[i]) is Some {
        priority_spec(toks[i])->0
    } else {
        first_priority(toks, i + 1)
    }
}

/// A priority word is never read as a clock time.
#[verifier::spinoff_prover]
proof fn lemma_priority_not_time(w: Seq<char>)
    requires
        priority_spec(w) is Some,
    ensures
        parse_time_spec(w) is None,
{
    reveal_strlit("!high");
    reveal_strlit("!hi");
    reveal_strlit("!h");
    reveal_strlit("!1");
    reveal_strlit("!med");
    reveal_strlit("!medium");
    reveal_strlit("!m");
    reveal_strlit("!2");
    reveal_strlit("!low");
    reveal_strlit("!lo");
    reveal_strlit("!l");
    reveal_strlit("!3");
    reveal_strlit("am");
    reveal_strlit("pm");
    let t = ascii_lower(w);
    assert(t.len() == w.len());
    assert(t.len() >= 2);
    // The first character is `!` and the last a letter or digit: no white space
    // at either end, so trimming leaves the word as it is.
    assert(t[0] == '!');
    assert(w[0] == '!') by {
        assert(t[0] == crate::text::ascii_lower_char(w[0]));
    }
    let last = w[w.len() - 1];
    assert(t[t.len() - 1] == crate::text::ascii_lower_char(last));
    assert(!crate::text::char_is_whitespace(t[t.len() - 1]));
    assert(!crate::text::char_is_whitespace(last));
    crate::text::lemma_lead_ws(w, 0);
    assert(crate::text::trim_start(w) =~= w);
    assert(crate::text::trail_ws(w) == 0) by {
        reveal_with_fuel(crate::text::trail_ws, 2);
    }
    assert(trim(w) =~= w);
    crate::format_time::law_parse_time_shape(w);
    assert(crate::format_time::time_text(w) == t);
    assert(!t.contains(':')) by {
        if t.contains(':') {
            let k = choose|k: int| 0 <= k < t.len() && t[k] == ':';
        }
    }
    assert(!ends_with(t, "am"@)) by {
        if ends_with(t, "am"@) {
            let u = t.subrange(t.len() - 2, t.len() as int);
            assert(u == "am"@);
            assert("am"@[0] == 'a');
            assert(u[0] == t[t.len() - 2]);
            assert(t[t.len() - 2] == 'a');
            assert(false);
        }
    }
    assert(!ends_with(t, "pm"@)) by {
        if ends_with(t, "pm"@) {
            let u = t.subrange(t.len() - 2, t.len() as int);
            assert(u == "pm"@);
            assert("pm"@[0] == 'p');
            assert(u[0] == t[t.len() - 2]);
            assert(t[t.len() - 2] == 'p');
            assert(false);
        }
    }
}

#[verifier::spinoff_prover]
#[verifier::rlimit(40)]
proof fn lemma_scan_priority(toks: Seq<Seq<char>>, i: int, now: int, st: TaskFields)
    requires
        0 <= i,
    ensures
        st.priority != Priority::NoPriority ==> scan_tokens(toks, i, now, st).priority == st.priority,
        st.priority == Priority::NoPriority ==> scan_tokens(toks, i, now, st).priority
            == first_priority(toks, i),
    decreases toks.len() - i,
{
    if i < toks.len() {
        let tok = toks[i];
        let none_yet = st.priority == Priority::NoPriority;
        if none_yet && priority_spec(tok) is Some {
            let st2 = TaskFields { priority: priority_spec(tok)->0, ..st };
            assert(scan_tokens(toks, i, now, st) == scan_tokens(toks, i + 1, now, st2));
            law_priority_words(tok);
            lemma_scan_priority(toks, i + 1, now, st2);
            assert(first_priority(toks, i) == priority_spec(tok)->0);
        } else {
            if none_yet {
                assert(first_priority(toks, i) == first_priority(toks, i + 1));
            }
            if st.due_ms is None && starts_with(tok, seq!['@']) && parse_due_spec(
                tok.drop_first(),
                now,
            ) is Some {
                let d = parse_due_spec(tok.drop_first(), now);
                if i + 1 < toks.len() && parse_time_spec(toks[i + 1]) is Some {
                    if priority_spec(toks[i + 1]) is Some {
                        lemma_priority_not_time(toks[i + 1]);
                    }
                    if none_yet {
                        assert(first_priority(toks, i + 1) == first_priority(toks, i + 2));
                    }
                    let st2 = TaskFields { due_ms: d, due_time_min: parse_time_spec(toks[i + 1]), ..st };
                    assert(scan_tokens(toks, i, now, st) == scan_tokens(toks, i + 2, now, st2));
                    lemma_scan_priority(toks, i + 2, now, st2);
                } else {
                    let st2 = TaskFields { due_ms: d, ..st };
                    assert(scan_tokens(toks, i, now, st) == scan_tokens(toks, i + 1, now, st2));
                    lemma_scan_priority(toks, i + 1, now, st2);
                }
            } else if st.project is None && project_of(tok) is Some {
                let st2 = TaskFields { project: project_of(tok), ..st };
                assert(scan_tokens(toks, i, now, st) == scan_tokens(toks, i + 1, now, st2));
                lemma_scan_priority(toks, i + 1, now, st2);
            } else if st.recur is None && parse_recur_spec(tok) is Some {
                let st2 = TaskFields { recur: parse_recur_spec(tok), ..st };
                assert(scan_tokens(toks, i, now, st) == scan_tokens(toks, i + 1, now, st2));
                lemma_scan_priority(toks, i + 1, now, st2);
            } else if !st.bookmarked && tok == seq!['*'] {
                let st2 = TaskFields { bookmarked: true, ..st };
                assert(scan_tokens(toks, i, now, st) == scan_tokens(toks, i + 1, now, st2));
                lemma_scan_priority(toks, i + 1, now, st2);
            } else {
                let st2 = TaskFields { title: st.title.push(tok), ..st };
                assert(scan_tokens(toks, i, now, st) == scan_tokens(toks, i + 1, now, st2));
                lemma_scan_priority(toks, i + 1, now, st2);
            }
        }
    }
}

/// A task's priority is that of the first priority word after its marker,
/// wherever it stands among the other words; without one it has none.
pub proof fn law_task_priority(line: Seq<char>, now: int)
    ensures
        line_fields(line, now).priority == first_priority(words(task_rest(line)), 0),
        (forall|j: int|
            0 <= j < words(task_rest(line)).len() ==> priority_spec(#[trigger] words(task_rest(line))[j])
                is None) ==> line_fields(line, now).priority == Priority::NoPriority,
{
    let toks = words(task_rest(line));
    lemma_scan_priority(toks, 0, now, no_fields());
    lemma_first_priority_none(toks, 0);
}

proof fn lemma_first_priority_none(toks: Seq<Seq<char>>, i: int)
    requires
        0 <= i,
    ensures
        (forall|j: int| 0 <= j < toks.len() ==> priority_spec(#[trigger] toks[j]) is None)
            ==> first_priority(toks, i) == Priority::NoPriority,
    decreases toks.len() - i,
{
    if i < toks.len() {
        lemma_first_priority_none(toks, i + 1);
    }
}

} // verus!
