//! Search across notes, tasks and bookmarks at once. The bookmark rows come
//! from the store's own bookmark search; notes and tasks are matched here.
use vstd::prelude::*;
use crate::note::Note;
use crate::notes_view::{note_list_title, note_list_title_spec};
use crate::task_actions::{all_tasks, tasks_of};
use crate::tasks::{body_dues_fit, Task};
use crate::text::{
    chars_of, contains, contains_exec, str_lowercase, string_of, to_lowercase, trim, trim_exec,
};

verus! {

#[derive(Debug, Clone, PartialEq, Eq)]
pub struct UnifiedResults {
    /// (note_id, title)
    pub notes: Vec<(i64, String)>,
    /// (note_id, task title) — jump to the owning note
    pub tasks: Vec<(i64, String)>,
    /// (url, title)
    pub bookmarks: Vec<(String, String)>,
}

pub open spec fn id_views(v: Seq<(i64, String)>) -> Seq<(i64, Seq<char>)> {
    v.map_values(|p: (i64, String)| (p.0, p.1@))
}

pub open spec fn pair_views(v: Seq<(String, String)>) -> Seq<(Seq<char>, Seq<char>)> {
    v.map_values(|p: (String, String)| (p.0@, p.1@))
}

/// A note matches when its lowercased name or body contains `q`.
pub open spec fn note_hit(n: Note, q: Seq<char>) -> bool {
    contains(str_lowercase(n.name@), q) || contains(str_lowercase(n.body@), q)
}

/// The first `limit` matching notes among `notes[..i]`, as (id, list title).
pub open spec fn note_hits(notes: Seq<Note>, q: Seq<char>, limit: int, i: nat) -> Seq<(i64, Seq<char>)>
    decreases i,
{
    if i == 0 {
        seq![]
    } else {
        let r = note_hits(notes, q, limit, (i - 1) as nat);
        let n = notes[i - 1];
        if r.len() < limit && note_hit(n, q) {
            r.push((n.id, note_list_title_spec(n.name@, n.body@)))
        } else {
            r
        }
    }
}

/// The first `limit` tasks among `ts[..i]` whose lowercased title contains `q`.
pub open spec fn task_hits(ts: Seq<Task>, q: Seq<char>, limit: int, i: nat) -> Seq<(i64, Seq<char>)>
    decreases i,
{
    if i == 0 {
        seq![]
    } else {
        let r = task_hits(ts, q, limit, (i - 1) as nat);
        let t = ts[i - 1];
        if r.len() < limit && contains(str_lowercase(t.title@), q) {
            r.push((t.note_id, t.title@))
        } else {
            r
        }
    }
}

/// A bookmark row `(url, title, domain)` as shown: its title, or its domain
/// when the title is empty.
pub open spec fn bookmark_row(b: (String, String, String)) -> (Seq<char>, Seq<char>) {
    (b.0@, if b.1@.len() == 0 {
        b.2@
    } else {
        b.1@
    })
}

fn matching_notes(notes: &[Note], q: &Vec<char>, limit: usize) -> (r: Vec<(i64, String)>)
    ensures
        id_views(r@) == note_hits(notes@, q@, limit as int, notes@.len()),
{
    let mut out: Vec<(i64, String)> = Vec::new();
    let mut i: usize = 0;
    assert(id_views(out@) =~= Seq::<(i64, Seq<char>)>::empty());
    while i < notes.len()
        invariant
            i <= notes@.len(),
            id_views(out@) == note_hits(notes@, q@, limit as int, i as nat),
        decreases notes.len() - i,
    {
        let n = &notes[i];
        assert(*n == notes@[i as int]);
        if out.len() < limit {
            let nl = chars_of(to_lowercase(n.name.as_str()).as_str());
            let bl = chars_of(to_lowercase(n.body.as_str()).as_str());
            if contains_exec(&nl, q) || contains_exec(&bl, q) {
                let ghost o = id_views(out@);
                let t = note_list_title(n.name.as_str(), n.body.as_str());
                out.push((n.id, t));
                assert(id_views(out@) =~= o.push((n.id, t@)));
            }
        }
        i += 1;
    }
    out
}

fn matching_tasks(ts: &Vec<Task>, q: &Vec<char>, limit: usize) -> (r: Vec<(i64, String)>)
    ensures
        id_views(r@) == task_hits(ts@, q@, limit as int, ts@.len()),
{
    let mut out: Vec<(i64, String)> = Vec::new();
    let mut i: usize = 0;
    assert(id_views(out@) =~= Seq::<(i64, Seq<char>)>::empty());
    while i < ts.len()
        invariant
            i <= ts@.len(),
            id_views(out@) == task_hits(ts@, q@, limit as int, i as nat),
        decreases ts.len() - i,
    {
        let t = &ts[i];
        assert(*t == ts@[i as int]);
        if out.len() < limit {
            let tl = chars_of(to_lowercase(t.title.as_str()).as_str());
            if contains_exec(&tl, q) {
                let ghost o = id_views(out@);
                let title = t.title.clone();
                out.push((t.note_id, title));
                assert(id_views(out@) =~= o.push((t.note_id, t.title@)));
            }
        }
        i += 1;
    }
    out
}

/// Case-insensitive search over notes (name+body), tasks (title), and the
/// bookmark rows `(url, title, domain)` the store found. Empty/whitespace
/// query → empty results. Notes and tasks capped at `limit`.
pub fn unified_search(
    notes: &[Note],
    bookmarks: &[(String, String, String)],
    query: &str,
    now_ms: i64,
    limit: usize,
) -> (r: UnifiedResults)
    requires
        forall|i: int| 0 <= i < notes@.len() ==> body_dues_fit(#[trigger] notes@[i].body@, now_ms as int),
    ensures
        ({
            let q = str_lowercase(trim(query@));
            &&& q.len() == 0 ==> r.notes@.len() == 0 && r.tasks@.len() == 0 && r.bookmarks@.len() == 0
            &&& q.len() > 0 ==> id_views(r.notes@) == note_hits(notes@, q, limit as int, notes@.len())
            &&& q.len() > 0 ==> exists|parts: Seq<Seq<Task>>|
                #![trigger parts.len()]
                parts.len() == notes@.len() && (forall|i: int|
                    0 <= i < parts.len() ==> tasks_of(#[trigger] parts[i], notes@[i], now_ms as int))
                    && id_views(r.tasks@) == task_hits(parts.flatten(), q, limit as int, parts.flatten().len())
            &&& q.len() > 0 ==> pair_views(r.bookmarks@) == bookmarks@.map_values(
                |b: (String, String, String)| bookmark_row(b),
            )
        }),
{
    let t = trim_exec(&chars_of(query));
    let ts = string_of(t.as_slice());
    let q = chars_of(to_lowercase(ts.as_str()).as_str());
    if q.len() == 0 {
        return UnifiedResults { notes: Vec::new(), tasks: Vec::new(), bookmarks: Vec::new() };
    }
    let note_rows = matching_notes(notes, &q, limit);
    let every = all_tasks(notes, now_ms);
    let task_rows = matching_tasks(&every, &q, limit);
    let mut bm: Vec<(String, String)> = Vec::new();
    let mut i: usize = 0;
    while i < bookmarks.len()
        invariant
            i <= bookmarks@.len(),
            pair_views(bm@) == bookmarks@.take(i as int).map_values(
                |b: (String, String, String)| bookmark_row(b),
            ),
        decreases bookmarks.len() - i,
    {
        let b = &bookmarks[i];
        let shown = if chars_of(b.1.as_str()).len() == 0 {
            b.2.clone()
        } else {
            b.1.clone()
        };
        let ghost o = pair_views(bm@);
        let url = b.0.clone();
        bm.push((url, shown));
        assert(pair_views(bm@) =~= o.push(bookmark_row(bookmarks@[i as int])));
        assert(bookmarks@.take(i + 1).map_values(|b: (String, String, String)| bookmark_row(b))
            =~= bookmarks@.take(i as int).map_values(|b: (String, String, String)| bookmark_row(b)).push(
            bookmark_row(bookmarks@[i as int]),
        ));
        i += 1;
    }
    assert(bookmarks@.take(bookmarks@.len() as int) =~= bookmarks@);
    UnifiedResults { notes: note_rows, tasks: task_rows, bookmarks: bm }
}


/// A listed note matches the query.
pub open spec fn from_matching_note(notes: Seq<Note>, q: Seq<char>, h: (i64, Seq<char>)) -> bool {
    exists|j: int|
        0 <= j < notes.len() && note_hit(#[trigger] notes[j], q) && h == (
            notes[j].id,
            note_list_title_spec(notes[j].name@, notes[j].body@),
        )
}

/// A listed task's title contains the query.
pub open spec fn from_matching_task(ts: Seq<Task>, q: Seq<char>, h: (i64, Seq<char>)) -> bool {
    exists|j: int|
        0 <= j < ts.len() && contains(str_lowercase((#[trigger] ts[j]).title@), q) && h == (
            ts[j].note_id,
            ts[j].title@,
        )
}

proof fn lemma_note_hits(notes: Seq<Note>, q: Seq<char>, limit: int, i: nat)
    requires
        0 <= limit,
        i <= notes.len(),
    ensures
        note_hits(notes, q, limit, i).len() <= limit,
        forall|k: int| 0 <= k < note_hits(notes, q, limit, i).len() ==> from_matching_note(
            notes,
            q,
            #[trigger] note_hits(notes, q, limit, i)[k],
        ),
    decreases i,
{
    if i > 0 {
        lemma_note_hits(notes, q, limit, (i - 1) as nat);
        let r = note_hits(notes, q, limit, (i - 1) as nat);
        let h = note_hits(notes, q, limit, i);
        assert forall|k: int| 0 <= k < h.len() implies from_matching_note(notes, q, #[trigger] h[k]) by {
            if k < r.len() {
                assert(h[k] == r[k]);
            } else {
                assert(note_hit(notes[i - 1], q));
            }
        }
    }
}

proof fn lemma_task_hits(ts: Seq<Task>, q: Seq<char>, limit: int, i: nat)
    requires
        0 <= limit,
        i <= ts.len(),
    ensures
        task_hits(ts, q, limit, i).len() <= limit,
        forall|k: int| 0 <= k < task_hits(ts, q, limit, i).len() ==> from_matching_task(
            ts,
            q,
            #[trigger] task_hits(ts, q, limit, i)[k],
        ),
    decreases i,
{
    if i > 0 {
        lemma_task_hits(ts, q, limit, (i - 1) as nat);
        let r = task_hits(ts, q, limit, (i - 1) as nat);
        let h = task_hits(ts, q, limit, i);
        assert forall|k: int| 0 <= k < h.len() implies from_matching_task(ts, q, #[trigger] h[k]) by {
            if k < r.len() {
                assert(h[k] == r[k]);
            } else {
                assert(contains(str_lowercase(ts[i - 1].title@), q));
            }
        }
    }
}

/// Each list of the search is capped at `limit`, and everything listed
/// matches: a listed note's name or body, a listed task's title, contains the
/// (lowercased) query.
pub proof fn law_search_hits(notes: Seq<Note>, ts: Seq<Task>, q: Seq<char>, limit: int)
    requires
        0 <= limit,
    ensures
        note_hits(notes, q, limit, notes.len()).len() <= limit,
        task_hits(ts, q, limit, ts.len()).len() <= limit,
        forall|k: int| 0 <= k < note_hits(notes, q, limit, notes.len()).len() ==> from_matching_note(
            notes,
            q,
            #[trigger] note_hits(notes, q, limit, notes.len())[k],
        ),
        forall|k: int| 0 <= k < task_hits(ts, q, limit, ts.len()).len() ==> from_matching_task(
            ts,
            q,
            #[trigger] task_hits(ts, q, limit, ts.len())[k],
        ),
{
    lemma_note_hits(notes, q, limit, notes.len());
    lemma_task_hits(ts, q, limit, ts.len());
}

} // verus!
