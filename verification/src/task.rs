//! The task record and its well-formedness.

use vstd::prelude::*;
use crate::dates::{date_wf, Date};
use crate::text::all_whitespace;

verus! {

/// One task of the store. The identifier lies in 1..=255 and is unique
/// within a store; the text trims to something non-empty.
#[derive(Debug, Clone, PartialEq)]
pub struct Task {
    pub id: u8,
    pub text: String,
    pub date: Option<Date>,
    pub done: bool,
}

/// The per-task invariant: identifier in range, text not blank, and any
/// date a real calendar day.
pub open spec fn task_wf(t: Task) -> bool {
    &&& 1 <= t.id
    &&& !all_whitespace(t.text@)
    &&& (t.date is Some ==> date_wf(t.date->0))
}

/// The store invariant over a task sequence: every task well formed and
/// the identifiers pairwise distinct.
pub open spec fn tasks_wf(tasks: Seq<Task>) -> bool {
    &&& forall|i: int| 0 <= i < tasks.len() ==> task_wf(#[trigger] tasks[i])
    &&& forall|i: int, j: int|
        0 <= i < j < tasks.len() ==> #[trigger] tasks[i].id != #[trigger] tasks[j].id
}

/// Some task of `tasks` carries identifier `id`.
pub open spec fn id_used(tasks: Seq<Task>, id: u8) -> bool {
    exists|i: int| 0 <= i < tasks.len() && #[trigger] tasks[i].id == id
}

/// The index of the first task carrying `id`, or `-1`.
pub open spec fn task_index(tasks: Seq<Task>, id: u8) -> int
    decreases tasks.len(),
{
    if tasks.len() == 0 {
        -1
    } else if tasks[0].id == id {
        0
    } else {
        let r = task_index(tasks.drop_first(), id);
        if r < 0 {
            -1
        } else {
            1 + r
        }
    }
}

pub proof fn lemma_task_index(tasks: Seq<Task>, id: u8)
    ensures
        id_used(tasks, id) <==> task_index(tasks, id) >= 0,
        task_index(tasks, id) >= 0 ==> {
            &&& task_index(tasks, id) < tasks.len()
            &&& tasks[task_index(tasks, id)].id == id
            &&& forall|j: int| 0 <= j < task_index(tasks, id) ==> (#[trigger] tasks[j]).id != id
        },
    decreases tasks.len(),
{
    if tasks.len() > 0 && tasks[0].id != id {
        lemma_task_index(tasks.drop_first(), id);
        let rest = tasks.drop_first();
        assert(forall|i: int| 0 <= i < rest.len() ==> #[trigger] rest[i] == tasks[i + 1]);
        if task_index(rest, id) >= 0 {
            let r = task_index(rest, id);
            assert(rest[r] == tasks[r + 1]);
            assert(tasks[r + 1].id == id);
            assert(id_used(tasks, id));
            assert(task_index(tasks, id) == r + 1);
            assert forall|j: int| 0 <= j < r + 1 implies (#[trigger] tasks[j]).id != id by {
                if j > 0 {
                    assert(rest[j - 1] == tasks[j]);
                    assert(rest[j - 1].id != id);
                }
            }
        } else {
            if id_used(tasks, id) {
                let w = choose|i: int| 0 <= i < tasks.len() && #[trigger] tasks[i].id == id;
                assert(w > 0);
                assert(rest[w - 1].id == id);
            }
        }
    }
}

} // verus!
