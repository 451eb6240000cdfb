//! Task edits and queries over whole notes: the body after checking a task
//! off (recurring tasks roll forward instead) and every task of a set of
//! notes. Reading notes from the store and writing bodies back is the
//! caller's part.
use vstd::prelude::*;
use crate::note::Note;
use crate::tasks::{
    body_dues_fit, parse_tasks_in, replace_line, reschedule_fits, reschedule_line, reschedule_spec,
    task_from_line, task_line_indices, toggle_line, toggle_line_spec, Task,
};
use crate::text::{chars_of, join_exec, lines, split_exec, split_on, string_of, views};

verus! {

/// The body after toggling line `i`: a recurring open task with a due date
/// moves to its next occurrence (staying open); any other task line toggles.
pub open spec fn toggle_task_spec(body: Seq<char>, i: int, now_ms: int) -> Seq<char> {
    let ls = split_on(body, '\n');
    if 0 <= i < ls.len() && reschedule_spec(ls[i], now_ms) is Some {
        replace_line(body, i, reschedule_spec(ls[i], now_ms)->0)
    } else {
        toggle_line_spec(body, i)
    }
}

/// The new body when the task on line `line_index` is checked off.
pub fn toggle_task_body(body: &str, line_index: usize, now_ms: i64) -> (r: String)
    requires
        forall|i: int|
            0 <= i < split_on(body@, '\n').len() ==> reschedule_fits(
                #[trigger] split_on(body@, '\n')[i],
                now_ms as int,
            ),
    ensures
        r@ == toggle_task_spec(body@, line_index as int, now_ms as int),
{
    let b = chars_of(body);
    let mut ls = split_exec(&b, '\n');
    if line_index < ls.len() {
        let line = string_of(ls[line_index].as_slice());
        assert(line@ == split_on(body@, '\n')[line_index as int]);
        match reschedule_line(line.as_str(), now_ms) {
            Some(r) => {
                let ghost before = views(ls@);
                ls.set(line_index, chars_of(r.as_str()));
                assert(views(ls@) =~= before.update(line_index as int, r@));
                let sep = vec!['\n'];
                assert(sep@ =~= seq!['\n']);
                return string_of(join_exec(&ls, &sep).as_slice());
            },
            None => {},
        }
    }
    toggle_line(body, line_index)
}

/// `ts` are the tasks of `note`, line by line, as `parse_tasks_in` reads them.
pub open spec fn tasks_of(ts: Seq<Task>, note: Note, now: int) -> bool {
    let ls = lines(note.body@);
    let idx = task_line_indices(ls);
    &&& ts.len() == idx.len()
    &&& forall|k: int| 0 <= k < ts.len() ==> task_from_line(#[trigger] ts[k], note, ls, idx[k], now)
}

/// Every task across `notes`, note by note.
pub fn all_tasks(notes: &[Note], now_ms: i64) -> (r: Vec<Task>)
    requires
        forall|i: int| 0 <= i < notes@.len() ==> body_dues_fit(#[trigger] notes@[i].body@, now_ms as int),
    ensures
        exists|parts: Seq<Seq<Task>>|
            #![trigger parts.len()]
            parts.len() == notes@.len() && (forall|i: int|
                0 <= i < parts.len() ==> tasks_of(#[trigger] parts[i], notes@[i], now_ms as int))
                && r@ == parts.flatten(),
{
    let mut out: Vec<Task> = Vec::new();
    let ghost mut parts: Seq<Seq<Task>> = seq![];
    let mut i: usize = 0;
    while i < notes.len()
        invariant
            i <= notes@.len(),
            forall|j: int| 0 <= j < notes@.len() ==> body_dues_fit(#[trigger] notes@[j].body@, now_ms as int),
            parts.len() == i,
            forall|j: int| 0 <= j < i ==> tasks_of(#[trigger] parts[j], notes@[j], now_ms as int),
            out@ == parts.flatten(),
        decreases notes.len() - i,
    {
        assert(body_dues_fit(notes@[i as int].body@, now_ms as int));
        let ts = parse_tasks_in(&notes[i], now_ms);
        let ghost o = out@;
        let mut ts2 = ts;
        out.append(&mut ts2);
        proof {
            let t = ts@;
            assert(tasks_of(t, notes@[i as int], now_ms as int));
            parts.lemma_flatten_push(t);
            parts = parts.push(t);
            assert forall|j: int| 0 <= j < i + 1 implies tasks_of(#[trigger] parts[j], notes@[j], now_ms as int) by {
                if j < i {
                    assert(parts[j] == parts.drop_last()[j]);
                }
            }
        }
        i += 1;
    }
    out
}

} // verus!
