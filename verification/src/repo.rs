//! The task repository: every operation reads the whole task list from the
//! document, transforms it in memory, and writes the whole list back under
//! one fixed key. Callers address tasks with 1-based indices; index 0 is a
//! sentinel that also names the first task.

use vstd::prelude::*;

use crate::store::{as_tasks_view, Store, Value, ValueView};
use crate::tasks::{Task, TaskView};

verus! {

/// The document key under which the task list is stored.
pub open spec fn tasks_key() -> Seq<char> {
    "tasks"@
}

/// The task list a document holds: the list under the tasks key, or the
/// empty list where that key is absent or holds a value of another type.
pub open spec fn tasks_of(store: Store) -> Seq<TaskView> {
    match as_tasks_view(store.gets(tasks_key())) {
        Some(ts) => ts,
        None => Seq::empty(),
    }
}

/// The 0-based position a caller's 1-based index names. Index 0, the
/// "no index given" sentinel, names the first task, as index 1 does.
pub open spec fn spec_pos(index: usize) -> int {
    if index == 0 {
        0
    } else {
        index - 1
    }
}

/// The list with the task at `pos` marked, or the list unchanged where
/// `pos` is out of bounds.
pub open spec fn spec_mark(ts: Seq<TaskView>, pos: int, value: bool) -> Seq<TaskView> {
    if 0 <= pos < ts.len() {
        ts.update(pos, TaskView { title: ts[pos].title, completed: value })
    } else {
        ts
    }
}

/// Every task of the list marked with `value`.
pub open spec fn spec_mark_all(ts: Seq<TaskView>, value: bool) -> Seq<TaskView> {
    Seq::new(ts.len(), |i: int| TaskView { title: ts[i].title, completed: value })
}

/// The list with the task at `pos` removed, or the list unchanged where
/// `pos` is out of bounds.
pub open spec fn spec_remove_at(ts: Seq<TaskView>, pos: int) -> Seq<TaskView> {
    if 0 <= pos < ts.len() {
        ts.remove(pos)
    } else {
        ts
    }
}

/// The tasks not yet completed, in their original order.
pub open spec fn pending_of(ts: Seq<TaskView>) -> Seq<TaskView> {
    ts.filter(|t: TaskView| !t.completed)
}

/// The completed tasks, in their original order.
pub open spec fn completed_of(ts: Seq<TaskView>) -> Seq<TaskView> {
    ts.filter(|t: TaskView| t.completed)
}

/// The stored task list; an absent key or one of another type reads as the
/// empty list.
pub fn get_tasks(store: &Store) -> (r: Vec<Task>)
    ensures
        r.deep_view() == tasks_of(*store),
{
    match store.get_task_list("tasks") {
        Some(ts) => ts,
        None => {
            let v: Vec<Task> = Vec::new();
            proof {
                assert(v.deep_view() =~= Seq::<TaskView>::empty());
            }
            v
        },
    }
}

/// Appends a fresh, uncompleted task with the given title; every other key
/// keeps its value.
pub fn add_task(store: &mut Store, title: &String)
    requires
        old(store).wf(),
    ensures
        final(store).wf(),
        final(store).gets(tasks_key()) == Some(
            ValueView::Tasks(
                tasks_of(*old(store)).push(TaskView { title: title@, completed: false }),
            ),
        ),
        forall|k2: Seq<char>|
            k2 != tasks_key() ==> final(store).gets(k2) == old(store).gets(k2),
{
    let mut ts = get_tasks(store);
    let ghost old_ts = ts.deep_view();
    ts.push(Task::new(title));
    proof {
        assert(ts.deep_view() =~= old_ts.push(TaskView { title: title@, completed: false }));
    }
    store.set("tasks", Value::Tasks(ts));
}

/// Marks the addressed task with `value` and reports whether such a task
/// exists; out of bounds, the list is written back unchanged. Every other
/// key keeps its value.
pub fn set_completed(store: &mut Store, index: usize, value: bool) -> (r: bool)
    requires
        old(store).wf(),
    ensures
        final(store).wf(),
        r == (spec_pos(index) < tasks_of(*old(store)).len()),
        final(store).gets(tasks_key()) == Some(
            ValueView::Tasks(spec_mark(tasks_of(*old(store)), spec_pos(index), value)),
        ),
        forall|k2: Seq<char>|
            k2 != tasks_key() ==> final(store).gets(k2) == old(store).gets(k2),
{
    let pos: usize = if index == 0 {
        0
    } else {
        index - 1
    };
    let mut ts = get_tasks(store);
    let ghost old_ts = ts.deep_view();
    let found = pos < ts.len();
    if found {
        let title = ts[pos].title.clone();
        ts[pos] = Task { title, completed: value };
        proof {
            assert(ts.deep_view() =~= spec_mark(old_ts, pos as int, value));
        }
    }
    store.set("tasks", Value::Tasks(ts));
    found
}

/// Marks every task with `value`; every other key keeps its value.
pub fn set_completed_all(store: &mut Store, value: bool)
    requires
        old(store).wf(),
    ensures
        final(store).wf(),
        final(store).gets(tasks_key()) == Some(
            ValueView::Tasks(spec_mark_all(tasks_of(*old(store)), value)),
        ),
        forall|k2: Seq<char>|
            k2 != tasks_key() ==> final(store).gets(k2) == old(store).gets(k2),
{
    let ts = get_tasks(store);
    let ghost old_ts = ts.deep_view();
    let n = ts.len();
    let mut out: Vec<Task> = Vec::new();
    let mut i: usize = 0;
    while i < n
        invariant
            n == ts.len(),
            i <= n,
            old_ts == ts.deep_view(),
            out.deep_view().len() == i,
            forall|j: int|
                0 <= j < i ==> out.deep_view()[j] == (TaskView {
                    title: old_ts[j].title,
                    completed: value,
                }),
        decreases n - i,
    {
        let title = ts[i].title.clone();
        proof {
            assert(old_ts[i as int] == ts@[i as int].deep_view());
            assert(title@ == old_ts[i as int].title);
        }
        let t = Task { title, completed: value };
        let ghost tv = t@;
        let ghost prev = out@;
        let ghost prevdeep = out.deep_view();
        out.push(t);
        proof {
            assert(tv == TaskView { title: old_ts[i as int].title, completed: value });
            assert forall|j: int| 0 <= j < i + 1 implies out.deep_view()[j] == (TaskView {
                title: old_ts[j].title,
                completed: value,
            }) by {
                assert(out.deep_view()[j] == out@[j].deep_view());
                if j < i {
                    assert(out@[j] == prev[j]);
                    assert(prevdeep[j] == prev[j].deep_view());
                } else {
                    assert(out@[j].deep_view() == tv);
                }
            }
        }
        i += 1;
    }
    proof {
        assert(out.deep_view() =~= spec_mark_all(old_ts, value));
    }
    store.set("tasks", Value::Tasks(out));
}

/// Removes the addressed task and reports whether such a task exists; out
/// of bounds, the list is written back unchanged. Every other key keeps its
/// value.
pub fn remove_task(store: &mut Store, index: usize) -> (r: bool)
    requires
        old(store).wf(),
    ensures
        final(store).wf(),
        r == (spec_pos(index) < tasks_of(*old(store)).len()),
        final(store).gets(tasks_key()) == Some(
            ValueView::Tasks(spec_remove_at(tasks_of(*old(store)), spec_pos(index))),
        ),
        forall|k2: Seq<char>|
            k2 != tasks_key() ==> final(store).gets(k2) == old(store).gets(k2),
{
    let pos: usize = if index == 0 {
        0
    } else {
        index - 1
    };
    let mut ts = get_tasks(store);
    let ghost old_ts = ts.deep_view();
    let found = pos < ts.len();
    if found {
        ts.remove(pos);
        proof {
            old_ts.remove_ensures(pos as int);
            assert(ts.deep_view() =~= old_ts.remove(pos as int));
        }
    }
    store.set("tasks", Value::Tasks(ts));
    found
}

/// Deletes the whole task list key and reports whether it existed; every
/// other key keeps its value.
pub fn remove_all_tasks(store: &mut Store) -> (r: bool)
    requires
        old(store).wf(),
    ensures
        final(store).wf(),
        final(store).gets(tasks_key()) is None,
        forall|k2: Seq<char>|
            k2 != tasks_key() ==> final(store).gets(k2) == old(store).gets(k2),
        r == (old(store).gets(tasks_key()) is Some),
{
    store.remove("tasks")
}

/// Keeps exactly the tasks not yet completed, in their original order, and
/// reports how many tasks were dropped: the count before minus the count
/// after. Every other key keeps its value.
pub fn clean_tasks(store: &mut Store) -> (r: usize)
    requires
        old(store).wf(),
    ensures
        final(store).wf(),
        final(store).gets(tasks_key()) == Some(
            ValueView::Tasks(pending_of(tasks_of(*old(store)))),
        ),
        r == tasks_of(*old(store)).len() - pending_of(tasks_of(*old(store))).len(),
        forall|k2: Seq<char>|
            k2 != tasks_key() ==> final(store).gets(k2) == old(store).gets(k2),
{
    let ts = get_tasks(store);
    let ghost old_ts = ts.deep_view();
    let n = ts.len();
    let mut out: Vec<Task> = Vec::new();
    let mut i: usize = 0;
    while i < n
        invariant
            n == ts.len(),
            i <= n,
            old_ts == ts.deep_view(),
            out.deep_view() =~= pending_of(old_ts.take(i as int)),
            out.len() <= i,
        decreases n - i,
    {
        proof {
            reveal(Seq::filter);
            assert(old_ts.take(i + 1 as int).drop_last() =~= old_ts.take(i as int));
            assert(old_ts.take(i + 1 as int).last() == old_ts[i as int]);
        }
        if !ts[i].completed {
            let t = ts[i].clone();
            out.push(t);
            proof {
                assert(out.deep_view() =~= pending_of(old_ts.take(i + 1 as int)));
            }
        } else {
            proof {
                assert(out.deep_view() =~= pending_of(old_ts.take(i + 1 as int)));
            }
        }
        i += 1;
    }
    proof {
        assert(old_ts.take(n as int) =~= old_ts);
    }
    let removed = n - out.len();
    store.set("tasks", Value::Tasks(out));
    removed
}

/// How many tasks are not yet completed.
pub fn pending_count(tasks: &Vec<Task>) -> (r: usize)
    ensures
        r == pending_of(tasks.deep_view()).len(),
{
    let ghost all = tasks.deep_view();
    let n = tasks.len();
    let mut count: usize = 0;
    let mut i: usize = 0;
    while i < n
        invariant
            n == tasks.len(),
            all == tasks.deep_view(),
            i <= n,
            count == pending_of(all.take(i as int)).len(),
            count <= i,
        decreases n - i,
    {
        proof {
            reveal(Seq::filter);
            assert(all.take(i + 1 as int).drop_last() =~= all.take(i as int));
            assert(all.take(i + 1 as int).last() == all[i as int]);
        }
        if !tasks[i].completed {
            count += 1;
        }
        i += 1;
    }
    proof {
        assert(all.take(n as int) =~= all);
    }
    count
}

/// How many tasks are completed.
pub fn completed_count(tasks: &Vec<Task>) -> (r: usize)
    ensures
        r == completed_of(tasks.deep_view()).len(),
{
    let ghost all = tasks.deep_view();
    let n = tasks.len();
    let mut count: usize = 0;
    let mut i: usize = 0;
    while i < n
        invariant
            n == tasks.len(),
            all == tasks.deep_view(),
            i <= n,
            count == completed_of(all.take(i as int)).len(),
            count <= i,
        decreases n - i,
    {
        proof {
            reveal(Seq::filter);
            assert(all.take(i + 1 as int).drop_last() =~= all.take(i as int));
            assert(all.take(i + 1 as int).last() == all[i as int]);
        }
        if tasks[i].completed {
            count += 1;
        }
        i += 1;
    }
    proof {
        assert(all.take(n as int) =~= all);
    }
    count
}

/// Every task is pending or completed: the two counts partition the list.
pub proof fn lemma_counts_partition(ts: Seq<TaskView>)
    ensures
        pending_of(ts).len() + completed_of(ts).len() == ts.len(),
    decreases ts.len(),
{
    reveal(Seq::filter);
    if ts.len() > 0 {
        lemma_counts_partition(ts.drop_last());
    }
}

/// Marking a task is idempotent: marking the same position with the same
/// value a second time leaves the list as the first marking left it.
pub proof fn lemma_mark_idempotent(ts: Seq<TaskView>, pos: int, value: bool)
    ensures
        spec_mark(spec_mark(ts, pos, value), pos, value) == spec_mark(ts, pos, value),
{
    if 0 <= pos < ts.len() {
        assert(spec_mark(spec_mark(ts, pos, value), pos, value) =~= spec_mark(ts, pos, value));
    }
}

/// `set_completed` is idempotent on the whole document: where `s1` relates to
/// `s0` as `set_completed`'s contract relates its final store to its initial
/// one, and `s2` relates to `s1` the same way with the same index and value,
/// the second call changed nothing — every key of `s2` reads as in `s1`.
pub proof fn lemma_set_completed_idempotent(
    s0: Store,
    s1: Store,
    s2: Store,
    index: usize,
    value: bool,
)
    requires
        s1.gets(tasks_key()) == Some(
            ValueView::Tasks(spec_mark(tasks_of(s0), spec_pos(index), value)),
        ),
        forall|k: Seq<char>| k != tasks_key() ==> s1.gets(k) == s0.gets(k),
        s2.gets(tasks_key()) == Some(
            ValueView::Tasks(spec_mark(tasks_of(s1), spec_pos(index), value)),
        ),
        forall|k: Seq<char>| k != tasks_key() ==> s2.gets(k) == s1.gets(k),
    ensures
        forall|k: Seq<char>| s2.gets(k) == s1.gets(k),
{
    assert(tasks_of(s1) == spec_mark(tasks_of(s0), spec_pos(index), value));
    lemma_mark_idempotent(tasks_of(s0), spec_pos(index), value);
    assert(s2.gets(tasks_key()) == s1.gets(tasks_key()));
}

} // verus!
