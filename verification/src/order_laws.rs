//! The task orders are total preorders, so the stable sort puts every task
//! list in order: each task sorts no later than the tasks after it.
use vstd::prelude::*;
use crate::board::{
    bool_rank, due_order, ins_pos, int_order, opt_order, prio_rank, sort_spec, status_rank, task_order,
    then, title_ci, TaskOrder,
};
use crate::tasks::Task;
use crate::text::{lemma_lex_antisym, lemma_lex_trans, lex_order};

verus! {

/// `f` compares like a total preorder: swapping the arguments flips the
/// sign, and "no later than" is transitive (strictly so when either step is strict).
pub open spec fn preorder(f: spec_fn(Task, Task) -> int) -> bool {
    &&& forall|a: Task, b: Task| #[trigger] f(a, b) == -f(b, a)
    &&& forall|a: Task, b: Task| -1 <= #[trigger] f(a, b) <= 1
    &&& forall|a: Task, b: Task, c: Task|
        #![trigger f(a, b), f(b, c)]
        f(a, b) <= 0 && f(b, c) <= 0 ==> f(a, c) <= 0 && ((f(a, b) < 0 || f(b, c) < 0) ==> f(a, c) < 0)
}

proof fn lemma_then(f: spec_fn(Task, Task) -> int, g: spec_fn(Task, Task) -> int)
    requires
        preorder(f),
        preorder(g),
    ensures
        preorder(|a: Task, b: Task| then(f(a, b), g(a, b))),
{
    let h = |a: Task, b: Task| then(f(a, b), g(a, b));
    assert forall|a: Task, b: Task| #[trigger] h(a, b) == -h(b, a) by {
        assert(f(a, b) == -f(b, a));
        assert(g(a, b) == -g(b, a));
    }
    assert forall|a: Task, b: Task| -1 <= #[trigger] h(a, b) <= 1 by {
        assert(-1 <= f(a, b) <= 1);
        assert(-1 <= g(a, b) <= 1);
    }
    assert forall|a: Task, b: Task, c: Task|
        #![trigger h(a, b), h(b, c)]
        h(a, b) <= 0 && h(b, c) <= 0 implies h(a, c) <= 0 && ((h(a, b) < 0 || h(b, c) < 0) ==> h(a, c) < 0) by {
        assert(f(a, b) == -f(b, a));
        assert(f(b, c) == -f(c, b));
        assert(f(a, c) == -f(c, a));
        if f(a, b) <= 0 && f(b, c) <= 0 {
            assert(f(a, c) <= 0 && ((f(a, b) < 0 || f(b, c) < 0) ==> f(a, c) < 0));
            if f(a, b) == 0 && f(b, c) == 0 {
                assert(f(c, b) <= 0 && f(b, a) <= 0);
                assert(f(c, a) <= 0 && ((f(c, b) < 0 || f(b, a) < 0) ==> f(c, a) < 0));
                assert(f(a, c) == 0);
                assert(g(a, b) <= 0 && g(b, c) <= 0);
                assert(g(a, c) <= 0 && ((g(a, b) < 0 || g(b, c) < 0) ==> g(a, c) < 0));
            }
        }
    }
}

proof fn lemma_int_key(k: spec_fn(Task) -> int)
    ensures
        preorder(|a: Task, b: Task| int_order(k(a), k(b))),
{
}

proof fn lemma_due()
    ensures
        preorder(|a: Task, b: Task| due_order(a.due_ms, b.due_ms)),
{
}

proof fn lemma_opt()
    ensures
        preorder(|a: Task, b: Task| opt_order(a.due_ms, b.due_ms)),
{
}

proof fn lemma_lex_key(k: spec_fn(Task) -> Seq<char>)
    ensures
        preorder(|a: Task, b: Task| lex_order(k(a), k(b))),
{
    let f = |a: Task, b: Task| lex_order(k(a), k(b));
    assert forall|a: Task, b: Task| #[trigger] f(a, b) == -f(b, a) && -1 <= f(a, b) <= 1 by {
        lemma_lex_antisym(k(a), k(b));
    }
    assert forall|a: Task, b: Task, c: Task|
        #![trigger f(a, b), f(b, c)]
        f(a, b) <= 0 && f(b, c) <= 0 implies f(a, c) <= 0 && ((f(a, b) < 0 || f(b, c) < 0) ==> f(a, c) < 0) by {
        lemma_lex_antisym(k(a), k(b));
        lemma_lex_antisym(k(b), k(c));
        lemma_lex_antisym(k(a), k(c));
        if f(a, b) < 0 && f(b, c) < 0 {
            lemma_lex_trans(k(a), k(b), k(c));
        }
    }
}

/// Each task order is a total preorder.
pub proof fn lemma_task_order_preorder(o: TaskOrder)
    ensures
        preorder(|a: Task, b: Task| task_order(a, b, o)),
{
    let due = |a: Task, b: Task| due_order(a.due_ms, b.due_ms);
    let prio = |a: Task, b: Task| int_order(prio_rank(a.priority), prio_rank(b.priority));
    let tci = |a: Task, b: Task| lex_order(title_ci(a), title_ci(b));
    let title = |a: Task, b: Task| lex_order(a.title@, b.title@);
    let done = |a: Task, b: Task| int_order(bool_rank(a.done), bool_rank(b.done));
    let status = |a: Task, b: Task| int_order(status_rank(a.status), status_rank(b.status));
    let opt = |a: Task, b: Task| opt_order(a.due_ms, b.due_ms);
    lemma_due();
    lemma_opt();
    let kp = |t: Task| prio_rank(t.priority);
    let kd = |t: Task| bool_rank(t.done);
    let ks = |t: Task| status_rank(t.status);
    let kc = |t: Task| title_ci(t);
    let kt = |t: Task| t.title@;
    lemma_int_key(kp);
    lemma_int_key(kd);
    lemma_int_key(ks);
    lemma_lex_key(kc);
    lemma_lex_key(kt);
    assert(prio =~= |a: Task, b: Task| int_order(kp(a), kp(b)));
    assert(done =~= |a: Task, b: Task| int_order(kd(a), kd(b)));
    assert(status =~= |a: Task, b: Task| int_order(ks(a), ks(b)));
    assert(tci =~= |a: Task, b: Task| lex_order(kc(a), kc(b)));
    assert(title =~= |a: Task, b: Task| lex_order(kt(a), kt(b)));
    assert(preorder(due) && preorder(prio) && preorder(tci) && preorder(title));
    assert(preorder(done) && preorder(status) && preorder(opt));
    let f = |a: Task, b: Task| task_order(a, b, o);
    match o {
        TaskOrder::Grouped => {
            let t1 = |a: Task, b: Task| then(prio(a, b), title(a, b));
            lemma_then(prio, title);
            let t2 = |a: Task, b: Task| then(due(a, b), t1(a, b));
            lemma_then(due, t1);
            let t3 = |a: Task, b: Task| then(done(a, b), t2(a, b));
            lemma_then(done, t2);
            assert(f =~= t3);
        },
        TaskOrder::ByDue => {
            let t1 = |a: Task, b: Task| then(prio(a, b), tci(a, b));
            lemma_then(prio, tci);
            let t2 = |a: Task, b: Task| then(due(a, b), t1(a, b));
            lemma_then(due, t1);
            assert(f =~= t2);
        },
        TaskOrder::ByPriority => {
            let t1 = |a: Task, b: Task| then(due(a, b), tci(a, b));
            lemma_then(due, tci);
            let t2 = |a: Task, b: Task| then(prio(a, b), t1(a, b));
            lemma_then(prio, t1);
            assert(f =~= t2);
        },
        TaskOrder::ByTitle => {
            let t1 = |a: Task, b: Task| then(tci(a, b), due(a, b));
            lemma_then(tci, due);
            assert(f =~= t1);
        },
        TaskOrder::ByStatus => {
            let t1 = |a: Task, b: Task| then(due(a, b), tci(a, b));
            lemma_then(due, tci);
            let t2 = |a: Task, b: Task| then(status(a, b), t1(a, b));
            lemma_then(status, t1);
            assert(f =~= t2);
        },
        TaskOrder::Bucketed => {
            let t1 = |a: Task, b: Task| then(opt(a, b), prio(a, b));
            lemma_then(opt, prio);
            assert(f =~= t1);
        },
    }
}

proof fn lemma_ins_pos(r: Seq<Task>, x: Task, o: TaskOrder, j: int)
    requires
        0 <= j,
    ensures
        j <= ins_pos(r, x, o, j) <= r.len() || (j > r.len() && ins_pos(r, x, o, j) == r.len()),
        0 <= ins_pos(r, x, o, j) <= r.len(),
        forall|m: int| j <= m < ins_pos(r, x, o, j) ==> task_order(x, #[trigger] r[m], o) >= 0,
        ins_pos(r, x, o, j) < r.len() ==> task_order(x, r[ins_pos(r, x, o, j)], o) < 0,
    decreases r.len() - j,
{
    if j < r.len() && task_order(x, r[j], o) >= 0 {
        lemma_ins_pos(r, x, o, j + 1);
    }
}

/// Sorted by order `o`: every task sorts no later than the ones after it.
pub open spec fn sorted_by(s: Seq<Task>, o: TaskOrder) -> bool {
    forall|a: int, b: int| 0 <= a < b < s.len() ==> task_order(s[a], s[b], o) <= 0
}

/// The stable sort puts tasks in order and keeps every task exactly once:
/// its output is sorted by the order and is a reordering of its input.
pub proof fn law_sort_sorted(s: Seq<Task>, o: TaskOrder)
    ensures
        sorted_by(sort_spec(s, o), o),
        sort_spec(s, o).to_multiset() == s.to_multiset(),
    decreases s.len(),
{
    lemma_task_order_preorder(o);
    let f = |a: Task, b: Task| task_order(a, b, o);
    if s.len() > 0 {
        law_sort_sorted(s.drop_last(), o);
        let r = sort_spec(s.drop_last(), o);
        let x = s.last();
        lemma_ins_pos(r, x, o, 0);
        let p = ins_pos(r, x, o, 0);
        let r2 = r.insert(p, x);
        assert forall|a: int, b: int| 0 <= a < b < r2.len() implies task_order(r2[a], r2[b], o) <= 0 by {
            assert(f(r2[a], r2[b]) == task_order(r2[a], r2[b], o));
            if a < p && b == p {
                assert(r2[a] == r[a]);
                assert(task_order(x, r[a], o) >= 0);
                assert(f(x, r[a]) == -f(r[a], x));
            } else if a == p && b > p {
                assert(r2[b] == r[b - 1]);
                assert(task_order(x, r[p], o) < 0);
                if b - 1 > p {
                    assert(task_order(r[p], r[b - 1], o) <= 0);
                    assert(f(x, r[p]) <= 0 && f(r[p], r[b - 1]) <= 0);
                }
            } else if a < p && b > p {
                assert(r2[a] == r[a] && r2[b] == r[b - 1]);
            } else if b < p {
                assert(r2[a] == r[a] && r2[b] == r[b]);
            } else {
                assert(r2[a] == r[a - 1] && r2[b] == r[b - 1]);
            }
        }
        vstd::seq_lib::to_multiset_insert(r, p, x);
        assert(s =~= s.drop_last().push(x));
        vstd::seq_lib::to_multiset_build(s.drop_last(), x);
    }
}

} // verus!
