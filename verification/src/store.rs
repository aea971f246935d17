//! Operations on the task collection: add, mark done, delete, list.

use vstd::prelude::*;
use crate::task::{Task, TaskV, tasks_view};

verus! {

/// What adding a description does to a collection: a new task is appended
/// with the next positional id, not yet done.
pub open spec fn spec_add(s: Seq<TaskV>, d: Seq<char>) -> Seq<TaskV> {
    s.push(TaskV { id: s.len() + 1, description: d, done: false })
}

/// Appends a new task with `id = len + 1`, `done = false`.
pub fn add_task(tasks: &mut Vec<Task>, description: String)
    requires
        old(tasks)@.len() < usize::MAX,
    ensures
        tasks_view(final(tasks)@) == spec_add(tasks_view(old(tasks)@), description@),
{
    let id = tasks.len() + 1;
    let ghost pre = tasks@;
    tasks.push(Task { id, description, done: false });
    proof {
        assert(tasks_view(tasks@) =~= spec_add(tasks_view(pre), tasks@.last().description@));
    }
}

/// Index of the first task whose id equals `id`, if any.
pub open spec fn first_idx(s: Seq<TaskV>, id: nat) -> Option<int>
    decreases s.len(),
{
    if s.len() == 0 {
        None
    } else if s[0].id == id {
        Some(0)
    } else {
        match first_idx(s.drop_first(), id) {
            Some(j) => Some(j + 1),
            None => None,
        }
    }
}

/// `first_idx` finds the first occurrence: `None` means no task carries the
/// id, `Some(i)` means position `i` does and no earlier one does.
pub proof fn lemma_first_idx(s: Seq<TaskV>, id: nat)
    ensures
        first_idx(s, id) is None ==> forall|j: int| 0 <= j < s.len() ==> s[j].id != id,
        first_idx(s, id) matches Some(i) ==> 0 <= i < s.len() && s[i].id == id && (forall|j: int|
            0 <= j < i ==> s[j].id != id),
    decreases s.len(),
{
    if s.len() > 0 && s[0].id != id {
        lemma_first_idx(s.drop_first(), id);
        assert(forall|j: int| 1 <= j < s.len() ==> s[j] == s.drop_first()[j - 1]);
    }
}

/// The task `t` with its completion flag raised.
pub open spec fn marked(t: TaskV) -> TaskV {
    TaskV { done: true, ..t }
}

/// What marking an id done does to a collection: the first task with that id
/// gets `done = true`; with no such task the collection is unchanged.
pub open spec fn spec_mark_done(s: Seq<TaskV>, id: nat) -> Seq<TaskV> {
    match first_idx(s, id) {
        Some(i) => s.update(i, marked(s[i])),
        None => s,
    }
}

/// Sets `done = true` on the first task whose id equals `id`; does nothing
/// when no task carries that id.
pub fn mark_done(tasks: &mut Vec<Task>, id: usize)
    ensures
        tasks_view(final(tasks)@) == spec_mark_done(tasks_view(old(tasks)@), id as nat),
{
    let ghost pre = tasks_view(tasks@);
    proof {
        lemma_first_idx(pre, id as nat);
    }
    let n = tasks.len();
    let mut i: usize = 0;
    while i < n
        invariant
            n == tasks@.len(),
            i <= n,
            pre == tasks_view(old(tasks)@),
            tasks_view(tasks@) == pre,
            forall|j: int| 0 <= j < i ==> pre[j].id != id as nat,
        decreases n - i,
    {
        if tasks[i].id == id {
            let t = Task { id, description: tasks[i].description.clone(), done: true };
            tasks[i] = t;
            proof {
                lemma_first_idx(pre, id as nat);
                assert(pre[i as int].id == id as nat);
                match first_idx(pre, id as nat) {
                    None => {
                        assert(false);
                    },
                    Some(k) => {
                        if k < i as int {
                            assert(pre[k].id != id as nat);
                        } else if k > i as int {
                            assert(pre[i as int].id != id as nat);
                        }
                        assert(k == i as int);
                    },
                }
                assert(tasks_view(tasks@) =~= spec_mark_done(pre, id as nat));
            }
            return;
        }
        i += 1;
    }
    proof {
        lemma_first_idx(pre, id as nat);
        match first_idx(pre, id as nat) {
            Some(k) => assert(pre[k].id != id as nat),
            None => (),
        }
    }
}

/// What deleting an id does to a collection: every task with that id is
/// removed, the others keep their order.
pub open spec fn spec_delete(s: Seq<TaskV>, id: nat) -> Seq<TaskV>
    decreases s.len(),
{
    if s.len() == 0 {
        Seq::empty()
    } else {
        let rest = spec_delete(s.drop_last(), id);
        if s.last().id == id {
            rest
        } else {
            rest.push(s.last())
        }
    }
}

/// Removes every task whose id equals `id`; the order of the remaining tasks
/// is preserved. Does nothing beyond that even when no task matches.
pub fn delete_task(tasks: &mut Vec<Task>, id: usize)
    ensures
        tasks_view(final(tasks)@) == spec_delete(tasks_view(old(tasks)@), id as nat),
{
    let ghost pre = tasks_view(tasks@);
    let n = tasks.len();
    let mut kept: Vec<Task> = Vec::new();
    let mut i: usize = 0;
    while i < n
        invariant
            n == tasks@.len(),
            i <= n,
            pre == tasks_view(old(tasks)@),
            tasks_view(tasks@) == pre,
            tasks_view(kept@) == spec_delete(pre.take(i as int), id as nat),
        decreases n - i,
    {
        proof {
            assert(pre.take(i + 1).drop_last() =~= pre.take(i as int));
            assert(pre.take(i + 1).last() == pre[i as int]);
        }
        if tasks[i].id != id {
            let t = tasks[i].duplicate();
            kept.push(t);
            proof {
                assert(tasks_view(kept@) =~= spec_delete(pre.take(i + 1), id as nat));
            }
        }
        i += 1;
    }
    proof {
        assert(pre.take(n as int) =~= pre);
    }
    *tasks = kept;
}

/// The collection obtained by adding the descriptions `ds`, in order,
/// starting from the empty collection.
pub open spec fn add_all(ds: Seq<Seq<char>>) -> Seq<TaskV>
    decreases ds.len(),
{
    if ds.len() == 0 {
        Seq::empty()
    } else {
        spec_add(add_all(ds.drop_last()), ds.last())
    }
}

/// Law: adding descriptions D1..Dn to an empty collection yields n tasks,
/// none done, with ids 1..n in order and the descriptions in order.
pub proof fn lemma_add_sequence(ds: Seq<Seq<char>>)
    ensures
        add_all(ds).len() == ds.len(),
        forall|i: int| 0 <= i < ds.len() ==> add_all(ds)[i] == (TaskV {
            id: (i + 1) as nat,
            description: ds[i],
            done: false,
        }),
    decreases ds.len(),
{
    if ds.len() > 0 {
        lemma_add_sequence(ds.drop_last());
        assert(forall|i: int| 0 <= i < ds.len() - 1 ==> ds.drop_last()[i] == ds[i]);
    }
}

/// Law: when exactly one task carries `id`, marking it done changes that
/// task's flag to true and leaves every other task unchanged.
pub proof fn lemma_complete_present(s: Seq<TaskV>, id: nat)
    requires
        exists|i: int| 0 <= i < s.len() && s[i].id == id,
        forall|i: int, j: int|
            (0 <= i < s.len() && 0 <= j < s.len() && s[i].id == id && s[j].id == id) ==> i == j,
    ensures
        spec_mark_done(s, id).len() == s.len(),
        exists|i: int|
            0 <= i < s.len() && s[i].id == id && spec_mark_done(s, id)[i] == marked(s[i])
                && (forall|j: int| 0 <= j < s.len() && j != i ==> spec_mark_done(s, id)[j] == s[j]),
        forall|j: int|
            0 <= j < s.len() && spec_mark_done(s, id)[j].id == id ==> spec_mark_done(s, id)[j].done,
{
    lemma_first_idx(s, id);
    let w = choose|i: int| 0 <= i < s.len() && s[i].id == id;
    match first_idx(s, id) {
        None => {
            assert(s[w].id != id);
        },
        Some(k) => {
            assert(spec_mark_done(s, id)[k] == marked(s[k]));
            assert(forall|j: int|
                0 <= j < s.len() && spec_mark_done(s, id)[j].id == id ==> j == k);
        },
    }
}

/// Law: marking an absent id done leaves the collection unchanged.
pub proof fn lemma_complete_absent(s: Seq<TaskV>, id: nat)
    requires
        forall|i: int| 0 <= i < s.len() ==> s[i].id != id,
    ensures
        spec_mark_done(s, id) == s,
{
    lemma_first_idx(s, id);
    match first_idx(s, id) {
        Some(k) => {
            assert(s[k].id != id);
        },
        None => (),
    }
}

/// Law: after deleting `id` no task carries it, and deleting an absent id
/// leaves the collection unchanged in content and order.
pub proof fn lemma_delete(s: Seq<TaskV>, id: nat)
    ensures
        forall|j: int|
            0 <= j < spec_delete(s, id).len() ==> spec_delete(s, id)[j].id != id,
        (forall|i: int| 0 <= i < s.len() ==> s[i].id != id) ==> spec_delete(s, id) == s,
    decreases s.len(),
{
    if s.len() > 0 {
        lemma_delete(s.drop_last(), id);
        assert(forall|i: int| 0 <= i < s.len() - 1 ==> s.drop_last()[i] == s[i]);
        let rest = spec_delete(s.drop_last(), id);
        if s.last().id != id {
            assert(spec_delete(s, id) == rest.push(s.last()));
            assert(forall|j: int| 0 <= j < rest.len() ==> rest.push(s.last())[j] == rest[j]);
            assert(rest.push(s.last())[rest.len() as int] == s.last());
        }
        if forall|i: int| 0 <= i < s.len() ==> s[i].id != id {
            assert(spec_delete(s, id) =~= s);
        }
    }
}

/// The collection in its stored order, for display; pure.
pub fn list(tasks: &Vec<Task>) -> (r: &Vec<Task>)
    ensures
        r@ == tasks@,
{
    tasks
}

} // verus!

