//! Ordering, filtering and grouping tasks: project groups, the task board's
//! columns and the overdue/today agenda.
use vstd::prelude::*;
use crate::tasks::{Priority, Status, Task};
use vstd::multiset::Multiset;
use crate::text::{
    chars_of, contains, contains_exec, lemma_lex_antisym, lemma_lex_trans, lex_order,
    lex_order_exec, str_lowercase, string_of, to_lowercase,
};

verus! {

broadcast use vstd::seq_lib::group_seq_properties;

/// Tasks of one project, ordered.
pub struct TaskGroup {
    pub project: String,
    pub tasks: Vec<Task>,
}

/// How to cluster tasks into board columns.
#[derive(Debug, Clone, Copy, PartialEq, Eq, Structural)]
pub enum GroupBy {
    Status,
    Priority,
    Project,
}

/// How to order tasks within a board column.
#[derive(Debug, Clone, Copy, PartialEq, Eq, Structural)]
pub enum SortBy {
    Due,
    Priority,
    Title,
    Status,
}

/// Filters applied before grouping. `project` matches a task's exact `#project`
/// (or "No project" for tasks with none); `query` is a case-insensitive
/// substring match on `title` ("" = no query); `hide_done` drops completed tasks.
#[derive(Debug, Clone, Default)]
pub struct BoardFilter {
    pub project: Option<String>,
    pub query: String,
    pub hide_done: bool,
}

/// One column of the task board: a header title plus its ordered tasks.
pub struct BoardColumn {
    pub title: String,
    pub tasks: Vec<Task>,
}

/// Open tasks that have a due date, split relative to `today_ms` (a day-epoch,
/// midnight-UTC ms). `overdue` is strictly before today; `today` is exactly today.
pub struct DueBuckets {
    pub overdue: Vec<Task>,
    pub today: Vec<Task>,
}

/// The orders tasks are sorted by: within a project group, by each board
/// `SortBy`, and within an agenda bucket.
#[derive(Clone, Copy, PartialEq, Eq, Structural)]
pub enum TaskOrder {
    Grouped,
    ByDue,
    ByPriority,
    ByTitle,
    ByStatus,
    Bucketed,
}

// ---------------------------------------------------------------------------
// Comparisons
// ---------------------------------------------------------------------------

/// Position of a priority in `High < Medium < Low < NoPriority`.
pub open spec fn prio_rank(p: Priority) -> int {
    match p {
        Priority::High => 0,
        Priority::Medium => 1,
        Priority::Low => 2,
        Priority::NoPriority => 3,
    }
}

/// Todo < Doing < Done.
pub open spec fn status_rank(s: Status) -> int {
    match s {
        Status::Todo => 0,
        Status::Doing => 1,
        Status::Done => 2,
    }
}

pub open spec fn int_order(a: int, b: int) -> int {
    if a < b {
        -1
    } else if a > b {
        1
    } else {
        0
    }
}

/// `Ordering::then`: the first comparison unless it is a tie.
pub open spec fn then(c1: int, c2: int) -> int {
    if c1 != 0 {
        c1
    } else {
        c2
    }
}

/// Due dates ascending, scheduled before unscheduled.
pub open spec fn due_order(a: Option<i64>, b: Option<i64>) -> int {
    match (a, b) {
        (Some(x), Some(y)) => int_order(x as int, y as int),
        (Some(_), None) => -1,
        (None, Some(_)) => 1,
        (None, None) => 0,
    }
}

/// `Option<i64>`'s own order: `None` first.
pub open spec fn opt_order(a: Option<i64>, b: Option<i64>) -> int {
    match (a, b) {
        (Some(x), Some(y)) => int_order(x as int, y as int),
        (Some(_), None) => 1,
        (None, Some(_)) => -1,
        (None, None) => 0,
    }
}

pub open spec fn bool_rank(b: bool) -> int {
    if b {
        1
    } else {
        0
    }
}

/// A task's title, lowercased.
pub open spec fn title_ci(t: Task) -> Seq<char> {
    str_lowercase(t.title@)
}

/// -1, 0 or 1 as `a` sorts before, with, or after `b` in order `o`.
pub open spec fn task_order(a: Task, b: Task, o: TaskOrder) -> int {
    let due = due_order(a.due_ms, b.due_ms);
    let prio = int_order(prio_rank(a.priority), prio_rank(b.priority));
    let tci = lex_order(title_ci(a), title_ci(b));
    match o {
        TaskOrder::Grouped => then(
            int_order(bool_rank(a.done), bool_rank(b.done)),
            then(due, then(prio, lex_order(a.title@, b.title@))),
        ),
        TaskOrder::ByDue => then(due, then(prio, tci)),
        TaskOrder::ByPriority => then(prio, then(due, tci)),
        TaskOrder::ByTitle => then(tci, due),
        TaskOrder::ByStatus => then(
            int_order(status_rank(a.status), status_rank(b.status)),
            then(due, tci),
        ),
        TaskOrder::Bucketed => then(opt_order(a.due_ms, b.due_ms), prio),
    }
}

fn int_order_exec(a: i64, b: i64) -> (r: i8)
    ensures
        r as int == int_order(a as int, b as int),
{
    if a < b {
        -1
    } else if a > b {
        1
    } else {
        0
    }
}

fn prio_rank_exec(p: Priority) -> (r: i64)
    ensures
        r == prio_rank(p),
{
    match p {
        Priority::High => 0,
        Priority::Medium => 1,
        Priority::Low => 2,
        Priority::NoPriority => 3,
    }
}

fn status_rank_exec(s: Status) -> (r: i64)
    ensures
        r == status_rank(s),
{
    match s {
        Status::Todo => 0,
        Status::Doing => 1,
        Status::Done => 2,
    }
}

fn due_order_exec(a: Option<i64>, b: Option<i64>) -> (r: i8)
    ensures
        r as int == due_order(a, b),
{
    match (a, b) {
        (Some(x), Some(y)) => int_order_exec(x, y),
        (Some(_), None) => -1,
        (None, Some(_)) => 1,
        (None, None) => 0,
    }
}

fn opt_order_exec(a: Option<i64>, b: Option<i64>) -> (r: i8)
    ensures
        r as int == opt_order(a, b),
{
    match (a, b) {
        (Some(x), Some(y)) => int_order_exec(x, y),
        (Some(_), None) => 1,
        (None, Some(_)) => -1,
        (None, None) => 0,
    }
}

fn title_ci_order(a: &Task, b: &Task) -> (r: i8)
    ensures
        r as int == lex_order(title_ci(*a), title_ci(*b)),
{
    let la = chars_of(to_lowercase(a.title.as_str()).as_str());
    let lb = chars_of(to_lowercase(b.title.as_str()).as_str());
    lex_order_exec(&la, &lb)
}

fn task_order_exec(a: &Task, b: &Task, o: TaskOrder) -> (r: i8)
    ensures
        r as int == task_order(*a, *b, o),
{
    let due = due_order_exec(a.due_ms, b.due_ms);
    let prio = int_order_exec(prio_rank_exec(a.priority), prio_rank_exec(b.priority));
    match o {
        TaskOrder::Grouped => {
            let d = int_order_exec(if a.done { 1 } else { 0 }, if b.done { 1 } else { 0 });
            if d != 0 {
                d
            } else if due != 0 {
                due
            } else if prio != 0 {
                prio
            } else {
                lex_order_exec(&chars_of(a.title.as_str()), &chars_of(b.title.as_str()))
            }
        },
        TaskOrder::ByDue => {
            if due != 0 {
                due
            } else if prio != 0 {
                prio
            } else {
                title_ci_order(a, b)
            }
        },
        TaskOrder::ByPriority => {
            if prio != 0 {
                prio
            } else if due != 0 {
                due
            } else {
                title_ci_order(a, b)
            }
        },
        TaskOrder::ByTitle => {
            let t = title_ci_order(a, b);
            if t != 0 {
                t
            } else {
                due
            }
        },
        TaskOrder::ByStatus => {
            let s = int_order_exec(status_rank_exec(a.status), status_rank_exec(b.status));
            if s != 0 {
                s
            } else if due != 0 {
                due
            } else {
                title_ci_order(a, b)
            }
        },
        TaskOrder::Bucketed => {
            let d = opt_order_exec(a.due_ms, b.due_ms);
            if d != 0 {
                d
            } else {
                prio
            }
        },
    }
}

// ---------------------------------------------------------------------------
// Stable sorting
// ---------------------------------------------------------------------------

/// Where `x` goes among `s[j..]`: before the first element that it sorts
/// strictly before, else at the end.
pub open spec fn ins_pos(s: Seq<Task>, x: Task, o: TaskOrder, j: int) -> int
    decreases s.len() - j,
{
    if j < 0 || j >= s.len() {
        s.len() as int
    } else if task_order(x, s[j], o) < 0 {
        j
    } else {
        ins_pos(s, x, o, j + 1)
    }
}

/// Stable sort of `s` by order `o`: each element, in input order, is
/// inserted after every element it does not sort strictly before.
pub open spec fn sort_spec(s: Seq<Task>, o: TaskOrder) -> Seq<Task>
    decreases s.len(),
{
    if s.len() == 0 {
        s
    } else {
        let r = sort_spec(s.drop_last(), o);
        r.insert(ins_pos(r, s.last(), o, 0), s.last())
    }
}

proof fn lemma_ins_pos_bound(s: Seq<Task>, x: Task, o: TaskOrder, j: int)
    requires
        0 <= j,
    ensures
        0 <= ins_pos(s, x, o, j) <= s.len(),
    decreases s.len() - j,
{
    if j < s.len() && task_order(x, s[j], o) >= 0 {
        lemma_ins_pos_bound(s, x, o, j + 1);
    }
}

pub proof fn lemma_sort_len(s: Seq<Task>, o: TaskOrder)
    ensures
        sort_spec(s, o).len() == s.len(),
    decreases s.len(),
{
    if s.len() > 0 {
        lemma_sort_len(s.drop_last(), o);
        lemma_ins_pos_bound(sort_spec(s.drop_last(), o), s.last(), o, 0);
    }
}

fn ins_pos_exec(r: &Vec<Task>, x: &Task, o: TaskOrder) -> (p: usize)
    ensures
        p == ins_pos(r@, *x, o, 0),
        p <= r@.len(),
{
    let mut j: usize = 0;
    while j < r.len() && task_order_exec(x, &r[j], o) >= 0
        invariant
            j <= r@.len(),
            ins_pos(r@, *x, o, 0) == ins_pos(r@, *x, o, j as int),
        decreases r.len() - j,
    {
        j += 1;
    }
    j
}

/// Stable sort by `o`.
fn sort_tasks(v: Vec<Task>, o: TaskOrder) -> (r: Vec<Task>)
    ensures
        r@ == sort_spec(v@, o),
{
    let ghost input = v@;
    let n = v.len();
    let mut rest = v;
    let mut r: Vec<Task> = Vec::new();
    let mut k: usize = 0;
    while rest.len() > 0
        invariant
            k <= input.len(),
            input.len() == n,
            rest@ == input.skip(k as int),
            r@ == sort_spec(input.take(k as int), o),
        decreases rest.len(),
    {
        let x = rest.remove(0);
        assert(input.take(k + 1).drop_last() =~= input.take(k as int));
        assert(x == input[k as int]);
        proof {
            lemma_sort_len(input.take(k as int), o);
        }
        let p = ins_pos_exec(&r, &x, o);
        r.insert(p, x);
        assert(rest@ =~= input.skip(k + 1));
        k += 1;
    }
    assert(input.take(k as int) =~= input);
    r
}

// ---------------------------------------------------------------------------
// Copies
// ---------------------------------------------------------------------------

fn copy_opt_string(o: &Option<String>) -> (r: Option<String>)
    ensures
        r == *o,
{
    match o {
        Some(s) => Some(s.clone()),
        None => None,
    }
}

/// A field-by-field copy of a task.
pub fn copy_task(t: &Task) -> (r: Task)
    ensures
        r == *t,
{
    Task {
        note_id: t.note_id,
        note_name: t.note_name.clone(),
        line_index: t.line_index,
        done: t.done,
        status: t.status,
        title: t.title.clone(),
        priority: t.priority,
        due_ms: t.due_ms,
        due_time_min: t.due_time_min,
        recur: t.recur,
        bookmarked: t.bookmarked,
        project: copy_opt_string(&t.project),
        source_app_id: t.source_app_id,
        source_entry_id: t.source_entry_id,
    }
}

// ---------------------------------------------------------------------------
// Filtering and selecting
// ---------------------------------------------------------------------------

/// The project a task is filed under: its `#project`, or "No project".
pub open spec fn proj_key(t: Task) -> Seq<char> {
    match t.project {
        Some(p) => p@,
        None => "No project"@,
    }
}

/// Whether a task passes the board filter.
pub open spec fn keeps(t: Task, f: BoardFilter) -> bool {
    &&& (!f.hide_done || t.status != Status::Done)
    &&& match f.project {
        None => true,
        Some(p) => proj_key(t) == p@,
    }
    &&& (str_lowercase(f.query@).len() == 0 || contains(title_ci(t), str_lowercase(f.query@)))
}

pub open spec fn board_filtered(s: Seq<Task>, f: BoardFilter) -> Seq<Task> {
    s.filter(|t: Task| keeps(t, f))
}

pub open spec fn with_status(s: Seq<Task>, k: int) -> Seq<Task> {
    s.filter(|t: Task| status_rank(t.status) == k)
}

pub open spec fn with_prio(s: Seq<Task>, k: int) -> Seq<Task> {
    s.filter(|t: Task| prio_rank(t.priority) == k)
}

pub open spec fn with_key(s: Seq<Task>, k: Seq<char>) -> Seq<Task> {
    s.filter(|t: Task| proj_key(t) == k)
}

pub open spec fn has_key(s: Seq<Task>, k: Seq<char>) -> bool {
    exists|i: int| 0 <= i < s.len() && proj_key(#[trigger] s[i]) == k
}

proof fn lemma_filter_step(s: Seq<Task>, k: int, p: spec_fn(Task) -> bool)
    requires
        0 <= k < s.len(),
    ensures
        s.take(k + 1).filter(p) == if p(s[k]) {
            s.take(k).filter(p).push(s[k])
        } else {
            s.take(k).filter(p)
        },
{
    reveal(Seq::filter);
    assert(s.take(k + 1).drop_last() =~= s.take(k));
}

fn proj_key_exec(t: &Task) -> (r: Vec<char>)
    ensures
        r@ == proj_key(*t),
{
    match &t.project {
        Some(p) => chars_of(p.as_str()),
        None => chars_of("No project"),
    }
}

fn keeps_exec(t: &Task, f: &BoardFilter, q: &Vec<char>) -> (r: bool)
    requires
        q@ == str_lowercase(f.query@),
    ensures
        r == keeps(*t, *f),
{
    if f.hide_done && t.status == Status::Done {
        return false;
    }
    let proj_ok = match &f.project {
        None => true,
        Some(p) => crate::text::chars_eq(&proj_key_exec(t), &chars_of(p.as_str())),
    };
    if !proj_ok {
        return false;
    }
    if q.len() == 0 {
        return true;
    }
    let lt = chars_of(to_lowercase(t.title.as_str()).as_str());
    contains_exec(&lt, q)
}

fn filter_board(tasks: Vec<Task>, f: &BoardFilter) -> (r: Vec<Task>)
    ensures
        r@ == board_filtered(tasks@, *f),
{
    let q = chars_of(to_lowercase(f.query.as_str()).as_str());
    let ghost input = tasks@;
    let ghost pred = |t: Task| keeps(t, *f);
    let n = tasks.len();
    let mut rest = tasks;
    let mut r: Vec<Task> = Vec::new();
    let mut k: usize = 0;
    assert(input.take(0).filter(pred) =~= Seq::<Task>::empty()) by {
        reveal(Seq::filter);
    }
    while rest.len() > 0
        invariant
            k <= input.len(),
            input.len() == n,
            q@ == str_lowercase(f.query@),
            pred == (|t: Task| keeps(t, *f)),
            rest@ == input.skip(k as int),
            r@ == input.take(k as int).filter(pred),
        decreases rest.len(),
    {
        let x = rest.remove(0);
        assert(x == input[k as int]);
        proof {
            lemma_filter_step(input, k as int, pred);
        }
        if keeps_exec(&x, f, &q) {
            r.push(x);
        }
        assert(rest@ =~= input.skip(k + 1));
        k += 1;
    }
    assert(input.take(k as int) =~= input);
    r
}

/// Copies of the tasks whose status rank (`by_status`) or priority rank is `k`.
fn select_rank(ts: &Vec<Task>, k: i64, by_status: bool) -> (r: Vec<Task>)
    ensures
        by_status ==> r@ == with_status(ts@, k as int),
        !by_status ==> r@ == with_prio(ts@, k as int),
{
    let ghost pred = if by_status {
        |t: Task| status_rank(t.status) == k
    } else {
        |t: Task| prio_rank(t.priority) == k
    };
    let mut r: Vec<Task> = Vec::new();
    let mut i: usize = 0;
    assert(ts@.take(0).filter(pred) =~= Seq::<Task>::empty()) by {
        reveal(Seq::filter);
    }
    while i < ts.len()
        invariant
            i <= ts@.len(),
            pred == (if by_status {
                |t: Task| status_rank(t.status) == k
            } else {
                |t: Task| prio_rank(t.priority) == k
            }),
            r@ == ts@.take(i as int).filter(pred),
        decreases ts.len() - i,
    {
        proof {
            lemma_filter_step(ts@, i as int, pred);
        }
        let rank = if by_status {
            status_rank_exec(ts[i].status)
        } else {
            prio_rank_exec(ts[i].priority)
        };
        if rank == k {
            r.push(copy_task(&ts[i]));
        }
        i += 1;
    }
    assert(ts@.take(ts@.len() as int) =~= ts@);
    r
}

/// Copies of the tasks filed under project key `key`.
fn select_key(ts: &Vec<Task>, key: &Vec<char>) -> (r: Vec<Task>)
    ensures
        r@ == with_key(ts@, key@),
{
    let ghost pred = |t: Task| proj_key(t) == key@;
    let mut r: Vec<Task> = Vec::new();
    let mut i: usize = 0;
    assert(ts@.take(0).filter(pred) =~= Seq::<Task>::empty()) by {
        reveal(Seq::filter);
    }
    while i < ts.len()
        invariant
            i <= ts@.len(),
            pred == (|t: Task| proj_key(t) == key@),
            r@ == ts@.take(i as int).filter(pred),
        decreases ts.len() - i,
    {
        proof {
            lemma_filter_step(ts@, i as int, pred);
        }
        if crate::text::chars_eq(&proj_key_exec(&ts[i]), key) {
            r.push(copy_task(&ts[i]));
        }
        i += 1;
    }
    assert(ts@.take(ts@.len() as int) =~= ts@);
    r
}

// ---------------------------------------------------------------------------
// Grouping by project
// ---------------------------------------------------------------------------

pub open spec fn strictly_sorted(ks: Seq<Seq<char>>) -> bool {
    forall|a: int, b: int| 0 <= a < b < ks.len() ==> lex_order(#[trigger] ks[a], #[trigger] ks[b]) < 0
}

/// `ks` lists, in ascending order and once each, the project keys other than
/// "No project" of the tasks in `s`.
pub open spec fn named_keys(s: Seq<Task>, ks: Seq<Seq<char>>) -> bool {
    &&& strictly_sorted(ks)
    &&& forall|c: int| 0 <= c < ks.len() ==> #[trigger] ks[c] != "No project"@ && has_key(s, ks[c])
    &&& forall|i: int|
        0 <= i < s.len() && proj_key(#[trigger] s[i]) != "No project"@ ==> ks.contains(proj_key(s[i]))
}

/// `groups` (title, tasks) are the project groups of `s`: one per named
/// project in ascending order, then "No project" when some task has none,
/// each holding that project's tasks sorted by `o`.
pub open spec fn grouped_by_project(
    s: Seq<Task>,
    groups: Seq<(Seq<char>, Seq<Task>)>,
    o: TaskOrder,
) -> bool {
    let np = "No project"@;
    let n = groups.len() - (if has_key(s, np) {
        1int
    } else {
        0int
    });
    &&& n >= 0
    &&& named_keys(s, groups.take(n).map_values(|g: (Seq<char>, Seq<Task>)| g.0))
    &&& forall|c: int| 0 <= c < n ==> (#[trigger] groups[c]).1 == sort_spec(with_key(s, groups[c].0), o)
    &&& has_key(s, np) ==> groups[n].0 == np && groups[n].1 == sort_spec(with_key(s, np), o)
}

fn is_no_project(k: &Vec<char>) -> (r: bool)
    ensures
        r == (k@ == "No project"@),
{
    crate::text::chars_eq(k, &chars_of("No project"))
}

/// Position of `key` among sorted `ks`: the first entry not below it.
fn key_pos(ks: &Vec<Vec<char>>, key: &Vec<char>) -> (p: usize)
    ensures
        p <= ks@.len(),
        forall|j: int| 0 <= j < p ==> lex_order(key@, #[trigger] ks@[j]@) > 0,
        p < ks@.len() ==> lex_order(key@, ks@[p as int]@) <= 0,
{
    let mut j: usize = 0;
    while j < ks.len() && lex_order_exec(key, &ks[j]) > 0
        invariant
            j <= ks@.len(),
            forall|i: int| 0 <= i < j ==> lex_order(key@, #[trigger] ks@[i]@) > 0,
        decreases ks.len() - j,
    {
        j += 1;
    }
    j
}

proof fn lemma_insert_sorted(kv: Seq<Seq<char>>, p: int, key: Seq<char>)
    requires
        strictly_sorted(kv),
        0 <= p <= kv.len(),
        forall|j: int| 0 <= j < p ==> lex_order(key, #[trigger] kv[j]) > 0,
        p < kv.len() ==> lex_order(key, kv[p]) < 0,
    ensures
        strictly_sorted(kv.insert(p, key)),
{
    let nv = kv.insert(p, key);
    assert forall|a: int, b: int| 0 <= a < b < nv.len() implies lex_order(
        #[trigger] nv[a],
        #[trigger] nv[b],
    ) < 0 by {
        if b == p {
            lemma_lex_antisym(key, kv[a]);
        } else if a == p {
            if b > p + 1 {
                assert(lex_order(kv[p], kv[b - 1]) < 0);
                lemma_lex_trans(key, kv[p], kv[b - 1]);
            }
        } else if a < p && b > p {
            assert(lex_order(kv[a], kv[b - 1]) < 0);
        } else if a > p {
            assert(lex_order(kv[a - 1], kv[b - 1]) < 0);
        }
    }
}

/// Adds `key` to the strictly sorted keys `ks`, unless it is already there.
fn insert_key(ks: &mut Vec<Vec<char>>, key: Vec<char>)
    requires
        strictly_sorted(crate::text::views(old(ks)@)),
    ensures
        strictly_sorted(crate::text::views(final(ks)@)),
        crate::text::views(final(ks)@).contains(key@),
        forall|x: Seq<char>|
            crate::text::views(old(ks)@).contains(x) ==> crate::text::views(final(ks)@).contains(x),
        forall|x: Seq<char>|
            crate::text::views(final(ks)@).contains(x) ==> x == key@ || crate::text::views(
                old(ks)@,
            ).contains(x),
{
    let ghost kv = crate::text::views(ks@);
    let p = key_pos(ks, &key);
    if p < ks.len() && crate::text::chars_eq(&ks[p], &key) {
        assert(kv[p as int] == key@);
        return;
    }
    proof {
        if p < ks@.len() {
            lemma_lex_antisym(key@, ks@[p as int]@);
        }
        lemma_insert_sorted(kv, p as int, key@);
    }
    let ghost k = key@;
    ks.insert(p, key);
    let ghost nv = crate::text::views(ks@);
    assert(nv =~= kv.insert(p as int, k));
    assert(nv[p as int] == k);
    assert forall|x: Seq<char>| kv.contains(x) implies nv.contains(x) by {
        let c = choose|c: int| 0 <= c < kv.len() && kv[c] == x;
        if c < p {
            assert(nv[c] == kv[c]);
        } else {
            assert(nv[c + 1] == kv[c]);
        }
    }
    assert forall|x: Seq<char>| nv.contains(x) implies x == k || kv.contains(x) by {
        let c = choose|c: int| 0 <= c < nv.len() && nv[c] == x;
        if c < p {
            assert(nv[c] == kv[c]);
        } else if c > p {
            assert(nv[c] == kv[c - 1]);
        }
    }
}

fn project_keys(ts: &Vec<Task>) -> (r: (Vec<Vec<char>>, bool))
    ensures
        named_keys(ts@, crate::text::views(r.0@)),
        r.1 == has_key(ts@, "No project"@),
{
    let mut ks: Vec<Vec<char>> = Vec::new();
    let mut np = false;
    let mut i: usize = 0;
    while i < ts.len()
        invariant
            i <= ts@.len(),
            strictly_sorted(crate::text::views(ks@)),
            forall|x: Seq<char>|
                crate::text::views(ks@).contains(x) ==> x != "No project"@ && has_key(
                    ts@.take(i as int),
                    x,
                ),
            forall|j: int|
                0 <= j < i && proj_key(#[trigger] ts@[j]) != "No project"@ ==> crate::text::views(
                    ks@,
                ).contains(proj_key(ts@[j])),
            np == has_key(ts@.take(i as int), "No project"@),
        decreases ts.len() - i,
    {
        let ghost t1 = ts@.take(i + 1);
        assert forall|x: Seq<char>| has_key(ts@.take(i as int), x) implies has_key(t1, x) by {
            let j = choose|j: int| 0 <= j < i && proj_key(ts@.take(i as int)[j]) == x;
            assert(t1[j] == ts@.take(i as int)[j]);
        }
        assert(has_key(t1, proj_key(ts@[i as int]))) by {
            assert(t1[i as int] == ts@[i as int]);
        }
        assert forall|x: Seq<char>| has_key(t1, x) && x != proj_key(ts@[i as int]) implies has_key(
            ts@.take(i as int),
            x,
        ) by {
            let j = choose|j: int| 0 <= j < i + 1 && proj_key(t1[j]) == x;
            assert(ts@.take(i as int)[j] == t1[j]);
        }
        let key = proj_key_exec(&ts[i]);
        if is_no_project(&key) {
            np = true;
        } else {
            insert_key(&mut ks, key);
        }
        i += 1;
    }
    assert(ts@.take(ts@.len() as int) =~= ts@);
    let ghost kv = crate::text::views(ks@);
    assert forall|c: int| 0 <= c < kv.len() implies #[trigger] kv[c] != "No project"@ && has_key(
        ts@,
        kv[c],
    ) by {
        assert(kv.contains(kv[c]));
    }
    (ks, np)
}

/// The project groups of `ts`, as (title, tasks) columns.
fn group_by_project(ts: &Vec<Task>, o: TaskOrder) -> (r: Vec<BoardColumn>)
    ensures
        grouped_by_project(ts@, col_views(r@), o),
{
    let (ks, np) = project_keys(ts);
    let mut cols: Vec<BoardColumn> = Vec::new();
    let mut c: usize = 0;
    while c < ks.len()
        invariant
            c <= ks@.len(),
            named_keys(ts@, crate::text::views(ks@)),
            cols@.len() == c,
            forall|j: int|
                0 <= j < c ==> (#[trigger] cols@[j]).title@ == ks@[j]@ && cols@[j].tasks@
                    == sort_spec(with_key(ts@, ks@[j]@), o),
        decreases ks.len() - c,
    {
        let sel = select_key(ts, &ks[c]);
        let tasks = sort_tasks(sel, o);
        cols.push(BoardColumn { title: string_of(&ks[c]), tasks });
        c += 1;
    }
    let ghost n = cols@.len();
    if np {
        let key = chars_of("No project");
        let sel = select_key(ts, &key);
        let tasks = sort_tasks(sel, o);
        cols.push(BoardColumn { title: string_of(&key), tasks });
    }
    let ghost g = col_views(cols@);
    assert(g.take(n as int).map_values(|x: (Seq<char>, Seq<Task>)| x.0) =~= crate::text::views(ks@));
    cols
}

/// (title, tasks) of each column.
pub open spec fn col_views(cols: Seq<BoardColumn>) -> Seq<(Seq<char>, Seq<Task>)> {
    cols.map_values(|c: BoardColumn| (c.title@, c.tasks@))
}

/// (project, tasks) of each group.
pub open spec fn group_views(gs: Seq<TaskGroup>) -> Seq<(Seq<char>, Seq<Task>)> {
    gs.map_values(|g: TaskGroup| (g.project@, g.tasks@))
}

/// Group by project (alphabetical; "No project" last), sort within: open before
/// done, then due ascending (unscheduled last), then priority (High first), title.
pub fn group_sort(tasks: Vec<Task>) -> (r: Vec<TaskGroup>)
    ensures
        grouped_by_project(tasks@, group_views(r@), TaskOrder::Grouped),
{
    let mut cols = group_by_project(&tasks, TaskOrder::Grouped);
    let ghost cv = col_views(cols@);
    let n = cols.len();
    let mut out: Vec<TaskGroup> = Vec::new();
    let mut k: usize = 0;
    while cols.len() > 0
        invariant
            k <= n,
            cv.len() == n,
            col_views(cols@) == cv.skip(k as int),
            group_views(out@) == cv.take(k as int),
        decreases cols.len(),
    {
        let ghost c0 = cols@;
        assert(col_views(c0).len() == c0.len());
        assert(cv.skip(k as int).len() == n - k);
        assert(k < n);
        let col = cols.remove(0);
        assert(col_views(c0)[0] == (col.title@, col.tasks@));
        assert(col_views(c0) == cv.skip(k as int));
        assert(cv.skip(k as int)[0] == cv[k as int]);
        let ghost o0 = out@;
        let g = TaskGroup { project: col.title, tasks: col.tasks };
        assert((g.project@, g.tasks@) == cv[k as int]);
        out.push(g);
        assert(group_views(out@) =~= group_views(o0).push((g.project@, g.tasks@)));
        assert(group_views(out@) =~= cv.take(k + 1));
        assert(col_views(cols@) =~= cv.skip(k + 1));
        k += 1;
    }
    assert(cv.take(n as int) =~= cv);
    out
}

// ---------------------------------------------------------------------------
// Board columns
// ---------------------------------------------------------------------------

pub open spec fn by_order(s: SortBy) -> TaskOrder {
    match s {
        SortBy::Due => TaskOrder::ByDue,
        SortBy::Priority => TaskOrder::ByPriority,
        SortBy::Title => TaskOrder::ByTitle,
        SortBy::Status => TaskOrder::ByStatus,
    }
}

fn by_order_exec(s: SortBy) -> (o: TaskOrder)
    ensures
        o == by_order(s),
{
    match s {
        SortBy::Due => TaskOrder::ByDue,
        SortBy::Priority => TaskOrder::ByPriority,
        SortBy::Title => TaskOrder::ByTitle,
        SortBy::Status => TaskOrder::ByStatus,
    }
}

/// Column titles of the fixed groupings.
pub open spec fn status_title(c: int) -> Seq<char> {
    if c == 0 {
        "To do"@
    } else if c == 1 {
        "Doing"@
    } else {
        "Done"@
    }
}

pub open spec fn priority_title(c: int) -> Seq<char> {
    if c == 0 {
        "High"@
    } else if c == 1 {
        "Medium"@
    } else if c == 2 {
        "Low"@
    } else {
        "No priority"@
    }
}

/// The board for `tasks` after filtering: the columns `group_by` asks for,
/// each sorted by `sort_by`.
pub open spec fn board_spec(
    tasks: Seq<Task>,
    group_by: GroupBy,
    sort_by: SortBy,
    filter: BoardFilter,
    cols: Seq<BoardColumn>,
) -> bool {
    let f = board_filtered(tasks, filter);
    let o = by_order(sort_by);
    match group_by {
        GroupBy::Status => {
            &&& cols.len() == 3
            &&& forall|c: int|
                0 <= c < 3 ==> (#[trigger] cols[c]).title@ == status_title(c) && cols[c].tasks@
                    == sort_spec(with_status(f, c), o)
        },
        GroupBy::Priority => {
            &&& cols.len() == 4
            &&& forall|c: int|
                0 <= c < 4 ==> (#[trigger] cols[c]).title@ == priority_title(c) && cols[c].tasks@
                    == sort_spec(with_prio(f, c), o)
        },
        GroupBy::Project => grouped_by_project(f, col_views(cols), o),
    }
}

fn status_title_exec(c: i64) -> (r: String)
    ensures
        r@ == status_title(c as int),
{
    if c == 0 {
        String::from_str("To do")
    } else if c == 1 {
        String::from_str("Doing")
    } else {
        String::from_str("Done")
    }
}

fn priority_title_exec(c: i64) -> (r: String)
    ensures
        r@ == priority_title(c as int),
{
    if c == 0 {
        String::from_str("High")
    } else if c == 1 {
        String::from_str("Medium")
    } else if c == 2 {
        String::from_str("Low")
    } else {
        String::from_str("No priority")
    }
}

/// Filter → group → sort tasks into ordered board columns. `Status` and
/// `Priority` groupings always yield their full fixed set of columns (empty
/// ones included, since Kanban needs somewhere to drop a card); `Project`
/// yields one column per distinct project actually present, alphabetical,
/// with "No project" last (mirrors `group_sort`'s project ordering).
pub fn board_columns(
    tasks: Vec<Task>,
    group_by: GroupBy,
    sort_by: SortBy,
    filter: &BoardFilter,
) -> (r: Vec<BoardColumn>)
    ensures
        board_spec(tasks@, group_by, sort_by, *filter, r@),
{
    let filtered = filter_board(tasks, filter);
    let o = by_order_exec(sort_by);
    match group_by {
        GroupBy::Project => group_by_project(&filtered, o),
        _ => {
            let by_status = group_by == GroupBy::Status;
            let n: i64 = if by_status {
                3
            } else {
                4
            };
            let mut cols: Vec<BoardColumn> = Vec::new();
            let mut c: i64 = 0;
            while c < n
                invariant
                    0 <= c <= n,
                    by_status == (group_by == GroupBy::Status),
                    n == (if by_status {
                        3i64
                    } else {
                        4i64
                    }),
                    cols@.len() == c,
                    forall|j: int|
                        0 <= j < c ==> if by_status {
                            (#[trigger] cols@[j]).title@ == status_title(j) && cols@[j].tasks@
                                == sort_spec(with_status(filtered@, j), o)
                        } else {
                            cols@[j].title@ == priority_title(j) && cols@[j].tasks@ == sort_spec(
                                with_prio(filtered@, j),
                                o,
                            )
                        },
                decreases n - c,
            {
                let sel = select_rank(&filtered, c, by_status);
                let ts = sort_tasks(sel, o);
                let title = if by_status {
                    status_title_exec(c)
                } else {
                    priority_title_exec(c)
                };
                cols.push(BoardColumn { title, tasks: ts });
                c += 1;
            }
            cols
        },
    }
}

// ---------------------------------------------------------------------------
// Agenda buckets
// ---------------------------------------------------------------------------

pub open spec fn overdue_at(t: Task, today_ms: int) -> bool {
    !t.done && (t.due_ms matches Some(d) && d < today_ms)
}

pub open spec fn due_today(t: Task, today_ms: int) -> bool {
    !t.done && (t.due_ms matches Some(d) && d == today_ms)
}

/// Open tasks that have a due date, split relative to `today_ms` (a day-epoch,
/// midnight-UTC ms). Each bucket is sorted by (due date, priority).
pub fn partition_due(tasks: Vec<Task>, today_ms: i64) -> (r: DueBuckets)
    ensures
        r.overdue@ == sort_spec(tasks@.filter(|t: Task| overdue_at(t, today_ms as int)), TaskOrder::Bucketed),
        r.today@ == sort_spec(tasks@.filter(|t: Task| due_today(t, today_ms as int)), TaskOrder::Bucketed),
{
    let ghost input = tasks@;
    let ghost po = |t: Task| overdue_at(t, today_ms as int);
    let ghost pt = |t: Task| due_today(t, today_ms as int);
    let n = tasks.len();
    let mut rest = tasks;
    let mut overdue: Vec<Task> = Vec::new();
    let mut today: Vec<Task> = Vec::new();
    let mut k: usize = 0;
    assert(input.take(0).filter(po) =~= Seq::<Task>::empty() && input.take(0).filter(pt)
        =~= Seq::<Task>::empty()) by {
        reveal(Seq::filter);
    }
    while rest.len() > 0
        invariant
            k <= input.len(),
            input.len() == n,
            po == (|t: Task| overdue_at(t, today_ms as int)),
            pt == (|t: Task| due_today(t, today_ms as int)),
            rest@ == input.skip(k as int),
            overdue@ == input.take(k as int).filter(po),
            today@ == input.take(k as int).filter(pt),
        decreases rest.len(),
    {
        let t = rest.remove(0);
        assert(t == input[k as int]);
        proof {
            lemma_filter_step(input, k as int, po);
            lemma_filter_step(input, k as int, pt);
        }
        if !t.done {
            match t.due_ms {
                Some(d) => {
                    if d < today_ms {
                        overdue.push(t);
                    } else if d == today_ms {
                        today.push(t);
                    }
                },
                None => {},
            }
        }
        assert(rest@ =~= input.skip(k + 1));
        k += 1;
    }
    assert(input.take(k as int) =~= input);
    DueBuckets {
        overdue: sort_tasks(overdue, TaskOrder::Bucketed),
        today: sort_tasks(today, TaskOrder::Bucketed),
    }
}

/// The tasks of `groups`, group after group.
pub open spec fn grouped_tasks(groups: Seq<(Seq<char>, Seq<Task>)>) -> Seq<Task>
    decreases groups.len(),
{
    if groups.len() == 0 {
        Seq::empty()
    } else {
        grouped_tasks(groups.drop_last()) + groups.last().1
    }
}

/// The tasks of `s` under each key of `ks`, taken together.
spec fn keyed_sum(s: Seq<Task>, ks: Seq<Seq<char>>) -> Multiset<Task>
    decreases ks.len(),
{
    if ks.len() == 0 {
        Multiset::empty()
    } else {
        keyed_sum(s, ks.drop_last()).add(with_key(s, ks.last()).to_multiset())
    }
}

proof fn lemma_keyed_sum_empty(s: Seq<Task>, ks: Seq<Seq<char>>)
    requires
        s.len() == 0,
    ensures
        keyed_sum(s, ks) == Multiset::<Task>::empty(),
    decreases ks.len(),
{
    if ks.len() > 0 {
        lemma_keyed_sum_empty(s, ks.drop_last());
        reveal(Seq::filter);
        assert(with_key(s, ks.last()) =~= Seq::<Task>::empty());
        assert(with_key(s, ks.last()).to_multiset() =~= Multiset::<Task>::empty());
        assert(keyed_sum(s, ks) =~= Multiset::<Task>::empty());
    }
}

proof fn lemma_keyed_sum_push(s: Seq<Task>, x: Task, ks: Seq<Seq<char>>)
    requires
        ks.no_duplicates(),
    ensures
        keyed_sum(s.push(x), ks) == if ks.contains(proj_key(x)) {
            keyed_sum(s, ks).insert(x)
        } else {
            keyed_sum(s, ks)
        },
    decreases ks.len(),
{
    if ks.len() > 0 {
        let kl = ks.drop_last();
        let k = ks.last();
        assert(kl.no_duplicates()) by {
            assert forall|a: int, b: int| 0 <= a < kl.len() && 0 <= b < kl.len() && a != b implies kl[a]
                != kl[b] by {
                assert(kl[a] == ks[a] && kl[b] == ks[b]);
            }
        }
        lemma_keyed_sum_push(s, x, kl);
        let t = s.push(x);
        let pk = |u: Task| proj_key(u) == k;
        lemma_filter_step(t, s.len() as int, pk);
        assert(t.take(s.len() + 1int) =~= t);
        assert(t.take(s.len() as int) =~= s);
        assert(with_key(t, k) == t.filter(pk));
        assert(with_key(s, k) == s.filter(pk));
        let key = proj_key(x);
        if key == k {
            vstd::seq_lib::to_multiset_build(with_key(s, k), x);
            assert(!kl.contains(key)) by {
                if kl.contains(key) {
                    let a = choose|a: int| 0 <= a < kl.len() && kl[a] == key;
                    assert(ks[a] == ks[ks.len() - 1]);
                }
            }
            assert(ks.contains(key)) by {
                assert(ks[ks.len() - 1] == key);
            }
            assert(keyed_sum(t, ks) =~= keyed_sum(s, ks).insert(x));
        } else {
            assert(ks.contains(key) == kl.contains(key)) by {
                if ks.contains(key) {
                    let a = choose|a: int| 0 <= a < ks.len() && ks[a] == key;
                    assert(a < kl.len());
                    assert(kl[a] == key);
                }
                if kl.contains(key) {
                    let a = choose|a: int| 0 <= a < kl.len() && kl[a] == key;
                    assert(ks[a] == key);
                }
            }
            if ks.contains(key) {
                assert(keyed_sum(t, ks) =~= keyed_sum(s, ks).insert(x));
            } else {
                assert(keyed_sum(t, ks) =~= keyed_sum(s, ks));
            }
        }
    }
}

proof fn lemma_keyed_sum_all(s: Seq<Task>, ks: Seq<Seq<char>>)
    requires
        ks.no_duplicates(),
        forall|i: int| 0 <= i < s.len() ==> ks.contains(proj_key(#[trigger] s[i])),
    ensures
        keyed_sum(s, ks) == s.to_multiset(),
    decreases s.len(),
{
    if s.len() == 0 {
        lemma_keyed_sum_empty(s, ks);
        assert(s.to_multiset() =~= Multiset::<Task>::empty()) by {
            vstd::seq_lib::to_multiset_len(s);
        }
    } else {
        let s0 = s.drop_last();
        let x = s.last();
        assert(s0.push(x) =~= s);
        assert forall|i: int| 0 <= i < s0.len() implies ks.contains(proj_key(#[trigger] s0[i])) by {
            assert(s0[i] == s[i]);
        }
        lemma_keyed_sum_all(s0, ks);
        lemma_keyed_sum_push(s0, x, ks);
        assert(ks.contains(proj_key(s[s.len() - 1])));
        vstd::seq_lib::to_multiset_build(s0, x);
    }
}

proof fn lemma_grouped_tasks_sum(
    s: Seq<Task>,
    groups: Seq<(Seq<char>, Seq<Task>)>,
    o: TaskOrder,
)
    requires
        forall|c: int| 0 <= c < groups.len() ==> (#[trigger] groups[c]).1 == sort_spec(
            with_key(s, groups[c].0),
            o,
        ),
    ensures
        grouped_tasks(groups).to_multiset() == keyed_sum(
            s,
            groups.map_values(|g: (Seq<char>, Seq<Task>)| g.0),
        ),
    decreases groups.len(),
{
    let ks = groups.map_values(|g: (Seq<char>, Seq<Task>)| g.0);
    if groups.len() == 0 {
        assert(grouped_tasks(groups).to_multiset() =~= Multiset::<Task>::empty()) by {
            vstd::seq_lib::to_multiset_len(grouped_tasks(groups));
        }
    } else {
        let gl = groups.drop_last();
        assert forall|c: int| 0 <= c < gl.len() implies (#[trigger] gl[c]).1 == sort_spec(
            with_key(s, gl[c].0),
            o,
        ) by {
            assert(gl[c] == groups[c]);
        }
        lemma_grouped_tasks_sum(s, gl, o);
        assert(gl.map_values(|g: (Seq<char>, Seq<Task>)| g.0) =~= ks.drop_last());
        let last = groups[groups.len() - 1];
        crate::order_laws::law_sort_sorted(with_key(s, last.0), o);
        vstd::seq_lib::lemma_multiset_commutative(grouped_tasks(gl), last.1);
    }
}

/// Grouping by project hands every task back exactly once: the groups'
/// titles are distinct, no group is empty, each group holds only tasks of its
/// project, and the groups' tasks together are a reordering of the input.
#[verifier::spinoff_prover]
pub proof fn law_groups_partition(
    s: Seq<Task>,
    groups: Seq<(Seq<char>, Seq<Task>)>,
    o: TaskOrder,
)
    requires
        grouped_by_project(s, groups, o),
    ensures
        grouped_tasks(groups).to_multiset() == s.to_multiset(),
        forall|a: int, b: int| 0 <= a < b < groups.len() ==> (#[trigger] groups[a]).0 != (
        #[trigger] groups[b]).0,
        forall|c: int| 0 <= c < groups.len() ==> (#[trigger] groups[c]).1.len() > 0,
        forall|c: int, j: int|
            0 <= c < groups.len() && 0 <= j < groups[c].1.len() ==> proj_key(
                #[trigger] groups[c].1[j],
            ) == groups[c].0,
{
    reveal_strlit("No project");
    let np = "No project"@;
    let n = groups.len() - (if has_key(s, np) {
        1int
    } else {
        0int
    });
    let ks = groups.map_values(|g: (Seq<char>, Seq<Task>)| g.0);
    let named = groups.take(n).map_values(|g: (Seq<char>, Seq<Task>)| g.0);
    assert forall|c: int| 0 <= c < groups.len() implies (#[trigger] groups[c]).1 == sort_spec(
        with_key(s, groups[c].0),
        o,
    ) && has_key(s, groups[c].0) by {
        if c < n {
            assert(named[c] == groups[c].0);
        }
    }
    assert forall|a: int, b: int| 0 <= a < b < groups.len() implies (#[trigger] groups[a]).0 != (
    #[trigger] groups[b]).0 by {
        assert(named[a] == groups[a].0);
        if b < n {
            assert(named[b] == groups[b].0);
            lemma_lex_antisym(named[a], named[b]);
        }
    }
    assert(ks.no_duplicates()) by {
        assert forall|a: int, b: int| 0 <= a < ks.len() && 0 <= b < ks.len() && a != b implies ks[a]
            != ks[b] by {
            if a < b {
                assert(groups[a].0 != groups[b].0);
            } else {
                assert(groups[b].0 != groups[a].0);
            }
        }
    }
    assert forall|i: int| 0 <= i < s.len() implies ks.contains(proj_key(#[trigger] s[i])) by {
        let key = proj_key(s[i]);
        if key == np {
            assert(has_key(s, np));
            assert(ks[n] == key);
        } else {
            assert(named.contains(key));
            let c = choose|c: int| 0 <= c < named.len() && named[c] == key;
            assert(ks[c] == key);
        }
    }
    lemma_keyed_sum_all(s, ks);
    lemma_grouped_tasks_sum(s, groups, o);
    assert forall|c: int| 0 <= c < groups.len() implies (#[trigger] groups[c]).1.len() > 0 by {
        let key = groups[c].0;
        let w = with_key(s, key);
        let i = choose|i: int| 0 <= i < s.len() && proj_key(#[trigger] s[i]) == key;
        s.lemma_filter_contains(|t: Task| proj_key(t) == key, i);
        crate::order_laws::law_sort_sorted(w, o);
        vstd::seq_lib::to_multiset_len(w);
        vstd::seq_lib::to_multiset_len(sort_spec(w, o));
    }
    assert forall|c: int, j: int| 0 <= c < groups.len() && 0 <= j < groups[c].1.len() implies proj_key(
        #[trigger] groups[c].1[j],
    ) == groups[c].0 by {
        let key = groups[c].0;
        let w = with_key(s, key);
        let g = groups[c].1;
        crate::order_laws::law_sort_sorted(w, o);
        vstd::seq_lib::to_multiset_contains(g, g[j]);
        vstd::seq_lib::to_multiset_contains(w, g[j]);
        assert(g.contains(g[j]));
        let m = choose|m: int| 0 <= m < w.len() && w[m] == g[j];
        s.lemma_filter_pred(|t: Task| proj_key(t) == key, m);
    }
}

/// The tasks of `s` that `r` ranks `c`.
spec fn rank_part(s: Seq<Task>, r: spec_fn(Task) -> int, c: int) -> Seq<Task> {
    s.filter(|t: Task| r(t) == c)
}

/// The tasks of `s` ranked `0` to `n - 1` by `r`, rank after rank.
spec fn rank_sum(s: Seq<Task>, r: spec_fn(Task) -> int, n: nat) -> Multiset<Task>
    decreases n,
{
    if n == 0 {
        Multiset::empty()
    } else {
        rank_sum(s, r, (n - 1) as nat).add(rank_part(s, r, n - 1).to_multiset())
    }
}

proof fn lemma_rank_part_push(s: Seq<Task>, x: Task, r: spec_fn(Task) -> int, c: int)
    ensures
        rank_part(s.push(x), r, c) == if r(x) == c {
            rank_part(s, r, c).push(x)
        } else {
            rank_part(s, r, c)
        },
{
    reveal(Seq::filter);
    assert(s.push(x).drop_last() =~= s);
}

proof fn lemma_rank_sum_push(s: Seq<Task>, x: Task, r: spec_fn(Task) -> int, n: nat)
    ensures
        rank_sum(s.push(x), r, n) == if 0 <= r(x) < n {
            rank_sum(s, r, n).insert(x)
        } else {
            rank_sum(s, r, n)
        },
    decreases n,
{
    if n > 0 {
        let m = (n - 1) as nat;
        lemma_rank_sum_push(s, x, r, m);
        let t = s.push(x);
        lemma_rank_part_push(s, x, r, n - 1);
        if r(x) == n - 1 {
            vstd::seq_lib::to_multiset_build(rank_part(s, r, n - 1), x);
            assert(rank_sum(t, r, n) =~= rank_sum(s, r, n).insert(x));
        } else if 0 <= r(x) < m {
            assert(rank_sum(t, r, n) =~= rank_sum(s, r, n).insert(x));
        } else {
            assert(rank_sum(t, r, n) =~= rank_sum(s, r, n));
        }
    }
}

proof fn lemma_rank_sum_all(s: Seq<Task>, r: spec_fn(Task) -> int, n: nat)
    requires
        forall|i: int| 0 <= i < s.len() ==> 0 <= #[trigger] r(s[i]) < n,
    ensures
        rank_sum(s, r, n) == s.to_multiset(),
    decreases s.len(),
{
    if s.len() == 0 {
        assert(rank_sum(s, r, n) == Multiset::<Task>::empty()) by {
            lemma_rank_sum_empty(s, r, n);
        }
        assert(s.to_multiset() =~= Multiset::<Task>::empty()) by {
            vstd::seq_lib::to_multiset_len(s);
        }
    } else {
        let s0 = s.drop_last();
        let x = s.last();
        assert(s0.push(x) =~= s);
        assert forall|i: int| 0 <= i < s0.len() implies 0 <= #[trigger] r(s0[i]) < n by {
            assert(s0[i] == s[i]);
        }
        lemma_rank_sum_all(s0, r, n);
        lemma_rank_sum_push(s0, x, r, n);
        assert(0 <= r(s[s.len() - 1]) < n);
        vstd::seq_lib::to_multiset_build(s0, x);
    }
}

proof fn lemma_rank_sum_empty(s: Seq<Task>, r: spec_fn(Task) -> int, n: nat)
    requires
        s.len() == 0,
    ensures
        rank_sum(s, r, n) == Multiset::<Task>::empty(),
    decreases n,
{
    if n > 0 {
        lemma_rank_sum_empty(s, r, (n - 1) as nat);
        reveal(Seq::filter);
        let w = rank_part(s, r, n - 1);
        assert(w =~= Seq::<Task>::empty());
        assert(w.to_multiset() =~= Multiset::<Task>::empty());
        assert(rank_sum(s, r, n) =~= Multiset::<Task>::empty());
    }
}

proof fn lemma_columns_rank_sum(
    f: Seq<Task>,
    r: spec_fn(Task) -> int,
    cols: Seq<(Seq<char>, Seq<Task>)>,
)
    requires
        forall|c: int|
            0 <= c < cols.len() ==> (#[trigger] cols[c]).1.to_multiset() == rank_part(
                f,
                r,
                c,
            ).to_multiset(),
    ensures
        grouped_tasks(cols).to_multiset() == rank_sum(f, r, cols.len()),
    decreases cols.len(),
{
    if cols.len() == 0 {
        assert(grouped_tasks(cols).to_multiset() =~= Multiset::<Task>::empty()) by {
            vstd::seq_lib::to_multiset_len(grouped_tasks(cols));
        }
    } else {
        let cl = cols.drop_last();
        assert forall|c: int| 0 <= c < cl.len() implies (#[trigger] cl[c]).1.to_multiset()
            == rank_part(f, r, c).to_multiset() by {
            assert(cl[c] == cols[c]);
        }
        lemma_columns_rank_sum(f, r, cl);
        let last = cols[cols.len() - 1];
        vstd::seq_lib::lemma_multiset_commutative(grouped_tasks(cl), last.1);
        assert(grouped_tasks(cols).to_multiset() =~= rank_sum(f, r, cols.len()));
    }
}

/// The board shows exactly the tasks its filter keeps, each once: whatever the
/// grouping, the columns' tasks together are a reordering of the filtered
/// tasks.
pub proof fn law_board_permutes(
    tasks: Seq<Task>,
    group_by: GroupBy,
    sort_by: SortBy,
    filter: BoardFilter,
    cols: Seq<BoardColumn>,
)
    requires
        board_spec(tasks, group_by, sort_by, filter, cols),
    ensures
        grouped_tasks(col_views(cols)).to_multiset() == board_filtered(tasks, filter).to_multiset(),
{
    let f = board_filtered(tasks, filter);
    let o = by_order(sort_by);
    let cv = col_views(cols);
    match group_by {
        GroupBy::Project => {
            law_groups_partition(f, cv, o);
        },
        GroupBy::Status => {
            let r = |t: Task| status_rank(t.status);
            assert forall|c: int| 0 <= c < cv.len() implies (#[trigger] cv[c]).1.to_multiset()
                == rank_part(f, r, c).to_multiset() by {
                assert(cv[c].1 == cols[c].tasks@);
                crate::order_laws::law_sort_sorted(with_status(f, c), o);
                assert(with_status(f, c) == rank_part(f, r, c)) by {
                    assert((|t: Task| status_rank(t.status) == c) =~= (|t: Task| r(t) == c));
                }
            }
            lemma_columns_rank_sum(f, r, cv);
            lemma_rank_sum_all(f, r, 3);
        },
        GroupBy::Priority => {
            let r = |t: Task| prio_rank(t.priority);
            assert forall|c: int| 0 <= c < cv.len() implies (#[trigger] cv[c]).1.to_multiset()
                == rank_part(f, r, c).to_multiset() by {
                assert(cv[c].1 == cols[c].tasks@);
                crate::order_laws::law_sort_sorted(with_prio(f, c), o);
                assert(with_prio(f, c) == rank_part(f, r, c)) by {
                    assert((|t: Task| prio_rank(t.priority) == c) =~= (|t: Task| r(t) == c));
                }
            }
            lemma_columns_rank_sum(f, r, cv);
            lemma_rank_sum_all(f, r, 4);
        },
    }
}

} // verus!
