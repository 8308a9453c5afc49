//! The task store: identifier allocation and the mutation operations.
//!
//! Every operation here is pure in-memory work; persistence is a separate
//! concern (see the durability module), and the surrounding binary saves
//! after an operation exactly when the operation reports a change.

use vstd::prelude::*;
use vstd::multiset::Multiset;
use crate::dates::{parse_date_spec, normalize_spec, date_from_input, Date};
use crate::task::{id_used, lemma_task_index, task_index, task_wf, tasks_wf, Task};
use crate::text::{
    all_whitespace, chars_str, is_blank, join_spec, lemma_join_push, str_chars,
};

verus! {

/// Why a store operation refused to act.
#[derive(Debug, Clone, Copy, PartialEq, Eq, Structural)]
pub enum StoreError {
    /// The task text trims to nothing.
    EmptyText,
    /// Every identifier in 1..=255 is taken.
    CapacityExhausted,
}

impl StoreError {
    /// The one-line message shown to the user.
    pub fn message(&self) -> (r: String)
        ensures
            *self is EmptyText ==> r@ == "Task text cannot be empty"@,
            *self is CapacityExhausted ==> r@ == "Maximum number of tasks (255) reached"@,
    {
        match self {
            StoreError::EmptyText => String::from_str("Task text cannot be empty"),
            StoreError::CapacityExhausted => String::from_str(
                "Maximum number of tasks (255) reached",
            ),
        }
    }
}

/// The in-memory store: an ordered sequence of tasks plus the path its
/// durable copy lives at. The order is insertion order and is observable.
pub struct TaskManager {
    pub tasks: Vec<Task>,
    pub db_path: String,
}

/// The text that a list of words denotes: the words joined by single
/// spaces.
pub open spec fn joined_text(words: Seq<String>) -> Seq<char> {
    join_spec(words.map_values(|w: String| w@), ' ')
}

/// Joins words with single spaces, as the add and edit operations read
/// their token lists.
pub fn join_words(words: &Vec<String>) -> (r: Vec<char>)
    ensures
        r@ == joined_text(words@),
{
    let ghost parts = words@.map_values(|w: String| w@);
    let mut out: Vec<char> = Vec::new();
    let mut i: usize = 0;
    while i < words.len()
        invariant
            i <= words@.len(),
            parts == words@.map_values(|w: String| w@),
            out@ == join_spec(parts.take(i as int), ' '),
        decreases words@.len() - i,
    {
        if i > 0 {
            out.push(' ');
        }
        let w = str_chars(words[i].as_str());
        crate::text::append_chars(&mut out, w.as_slice());
        proof {
            assert(parts.take(i + 1) =~= parts.take(i as int).push(parts[i as int]));
            lemma_join_push(parts.take(i as int), parts[i as int], ' ');
            assert(parts[i as int] == words@[i as int]@);
        }
        i += 1;
    }
    proof {
        assert(parts.take(parts.len() as int) =~= parts);
    }
    out
}

impl TaskManager {
    /// The store invariant: well-formed tasks with pairwise distinct
    /// identifiers.
    pub open spec fn wf(&self) -> bool {
        tasks_wf(self.tasks@)
    }

    /// An empty store with no path; the caller picks the path later.
    /// Always succeeds; the `Result` mirrors the constructor family.
    pub fn new_empty() -> (r: Result<TaskManager, StoreError>)
        ensures
            r is Ok,
            r matches Ok(tm) ==> tm.tasks@.len() == 0 && tm.wf(),
    {
        Ok(TaskManager { tasks: Vec::new(), db_path: String::new() })
    }

    /// An empty store that will persist at `path`.
    pub fn new_empty_with_path(path: String) -> (tm: TaskManager)
        ensures
            tm.tasks@.len() == 0,
            tm.db_path == path,
            tm.wf(),
    {
        TaskManager { tasks: Vec::new(), db_path: path }
    }

    /// A store over an already-loaded task list.
    pub fn from_tasks(tasks: Vec<Task>, path: String) -> (tm: TaskManager)
        ensures
            tm.tasks == tasks,
            tm.db_path == path,
    {
        TaskManager { tasks, db_path: path }
    }

    /// A view of the tasks, in insertion order.
    pub fn tasks(&self) -> (r: &Vec<Task>)
        ensures
            r == &self.tasks,
    {
        &self.tasks
    }

    /// The tasks, for callers that mutate them directly.
    pub fn tasks_mut(&mut self) -> (r: &mut Vec<Task>)
        ensures
            *r == old(self).tasks,
            final(self).tasks == *final(r),
            final(self).db_path == old(self).db_path,
    {
        &mut self.tasks
    }

    /// Where the durable copy lives.
    pub fn db_path(&self) -> (r: &String)
        ensures
            r == &self.db_path,
    {
        &self.db_path
    }

    /// The index of the task carrying `id`, scanning in insertion order.
    pub fn find_task_by_id(&self, id: u8) -> (r: Option<usize>)
        ensures
            r is Some <==> id_used(self.tasks@, id),
            r matches Some(idx) ==> idx as int == task_index(self.tasks@, id),
            r matches Some(idx) ==> idx < self.tasks@.len() && self.tasks@[idx as int].id == id
                && forall|j: int| 0 <= j < idx ==> (#[trigger] self.tasks@[j]).id != id,
    {
        proof {
            lemma_task_index(self.tasks@, id);
        }
        let mut i: usize = 0;
        while i < self.tasks.len()
            invariant
                i <= self.tasks@.len(),
                forall|j: int| 0 <= j < i ==> (#[trigger] self.tasks@[j]).id != id,
            decreases self.tasks@.len() - i,
        {
            if self.tasks[i].id == id {
                proof {
                    lemma_task_index_from_scan(self.tasks@, id, i as int);
                }
                return Some(i);
            }
            i += 1;
        }
        None
    }

    /// The indices of the tasks carrying the given identifiers, each the
    /// first index of its identifier, in caller order, and the
    /// identifiers that no task carries.
    pub fn find_tasks_by_ids(&self, ids: &[u8]) -> (r: (Vec<usize>, Vec<u8>))
        ensures
            r.1@ == ids@.filter(|k: u8| !id_used(self.tasks@, k)),
            r.0@ == found_walk(ids@, self.tasks@),
            forall|p: int|
                0 <= p < r.0@.len() ==> #[trigger] r.0@[p] < self.tasks@.len(),
    {
        broadcast use vstd::seq_lib::group_filter_ensures;

        let mut found: Vec<usize> = Vec::new();
        let mut not_found: Vec<u8> = Vec::new();
        let mut i: usize = 0;
        while i < ids.len()
            invariant
                i <= ids@.len(),
                not_found@ == ids@.take(i as int).filter(|k: u8| !id_used(self.tasks@, k)),
                found@ == found_walk(ids@.take(i as int), self.tasks@),
                forall|p: int| 0 <= p < found@.len() ==> #[trigger] found@[p] < self.tasks@.len(),
            decreases ids@.len() - i,
        {
            let id = ids[i];
            proof {
                assert(ids@.take(i + 1) =~= ids@.take(i as int).push(ids@[i as int]));
                assert(ids@.take(i + 1).drop_last() =~= ids@.take(i as int));
                assert(ids@.take(i + 1).last() == ids@[i as int]);
                Seq::lemma_filter_push(
                    ids@.take(i as int),
                    ids@[i as int],
                    |k: u8| !id_used(self.tasks@, k),
                );
            }
            match self.find_task_by_id(id) {
                Some(idx) => {
                    found.push(idx);
                    proof {
                        assert(found@ =~= found_walk(ids@.take(i + 1), self.tasks@));
                    }
                },
                None => {
                    not_found.push(id);
                },
            }
            i += 1;
        }
        proof {
            assert(ids@.take(ids@.len() as int) =~= ids@);
        }
        (found, not_found)
    }

    /// Whether any task carries `id`.
    fn contains_id(&self, id: u8) -> (r: bool)
        ensures
            r == id_used(self.tasks@, id),
    {
        self.find_task_by_id(id).is_some()
    }

    /// The smallest identifier in 1..=255 that no task carries; fails
    /// exactly when all 255 identifiers are taken. An identifier freed by
    /// deletion is handed out again.
    pub fn generate_next_id(&self) -> (r: Result<u8, StoreError>)
        ensures
            r matches Ok(id) ==> {
                &&& 1 <= id
                &&& !id_used(self.tasks@, id)
                &&& forall|k: u8| 1 <= k < id ==> id_used(self.tasks@, k)
            },
            r is Err <==> (forall|k: u8| 1 <= k ==> id_used(self.tasks@, k)),
            r matches Err(e) ==> e is CapacityExhausted,
    {
        let mut id: u16 = 1;
        while id <= 255
            invariant
                1 <= id <= 256,
                forall|k: u8| 1 <= k < id ==> id_used(self.tasks@, k),
            decreases 256 - id,
        {
            if !self.contains_id(id as u8) {
                return Ok(id as u8);
            }
            id += 1;
        }
        assert(forall|k: u8| 1 <= k ==> id_used(self.tasks@, k));
        Err(StoreError::CapacityExhausted)
    }

    /// Appends a new task: text is the words joined by spaces, the date
    /// is the normalized date when it names a real day and no date
    /// otherwise, the identifier is the smallest free one, and the task
    /// starts not done. Fails with `EmptyText` when the text trims to
    /// nothing, and with `CapacityExhausted` when no identifier is free;
    /// on any failure the store is unchanged.
    pub fn add_task(&mut self, text: Vec<String>, date: Option<String>) -> (r: Result<
        (),
        StoreError,
    >)
        requires
            old(self).wf(),
        ensures
            final(self).db_path == old(self).db_path,
            final(self).wf(),
            r is Ok <==> !all_whitespace(joined_text(text@)) && !(forall|k: u8|
                1 <= k ==> id_used(old(self).tasks@, k)),
            r matches Err(e) ==> {
                &&& final(self).tasks == old(self).tasks
                &&& (e is EmptyText <==> all_whitespace(joined_text(text@)))
            },
            r is Ok ==> {
                &&& final(self).tasks@.len() == old(self).tasks@.len() + 1
                &&& final(self).tasks@.drop_last() == old(self).tasks@
                &&& {
                    let t = final(self).tasks@.last();
                    &&& t.text@ == joined_text(text@)
                    &&& t.done == false
                    &&& t.date == (match date {
                        Some(d) => parse_date_spec(normalize_spec(d@)),
                        None => None::<Date>,
                    })
                    &&& !id_used(old(self).tasks@, t.id)
                    &&& 1 <= t.id
                    &&& forall|k: u8| 1 <= k < t.id ==> id_used(old(self).tasks@, k)
                }
            },
    {
        let joined = join_words(&text);
        if is_blank(joined.as_slice()) {
            return Err(StoreError::EmptyText);
        }
        let parsed_date: Option<Date> = match &date {
            Some(d) => date_from_input(d.as_str()),
            None => None,
        };
        let id = match self.generate_next_id() {
            Ok(id) => id,
            Err(e) => {
                return Err(e);
            },
        };
        let task = Task { id, text: chars_str(joined.as_slice()), date: parsed_date, done: false };
        let ghost before = self.tasks@;
        self.tasks.push(task);
        proof {
            assert(final(self).tasks@.drop_last() =~= before);
            assert(tasks_wf(self.tasks@)) by {
                assert(forall|i: int|
                    0 <= i < before.len() ==> #[trigger] self.tasks@[i] == before[i]);
                assert(task_wf(self.tasks@[before.len() as int]));
                assert(forall|i: int|
                    0 <= i < before.len() ==> (#[trigger] self.tasks@[i]).id != id);
            }
        }
        Ok(())
    }
}

/// How often `k` occurs in `ids`; mark toggles a task once per
/// occurrence of its identifier.
pub open spec fn occ_count(ids: Seq<u8>, k: u8) -> int {
    ids.to_multiset().count(k) as int
}

/// Whether an edit with these inputs would change task `t`.
pub open spec fn edit_changes(t: Task, words: Option<Vec<String>>, date: Option<String>) -> bool {
    ||| (words matches Some(w) && joined_text(w@) != t.text@)
    ||| (date matches Some(d) && parse_date_spec(normalize_spec(d@)) != t.date)
}

/// What mark reports, occurrence by occurrence: each identifier that a
/// task of `tasks` carries contributes one pair, its new done state
/// being the task's old state toggled once per occurrence so far.
pub open spec fn marked_walk(ids: Seq<u8>, tasks: Seq<Task>) -> Seq<(u8, bool)>
    decreases ids.len(),
{
    if ids.len() == 0 {
        Seq::empty()
    } else {
        let prev = marked_walk(ids.drop_last(), tasks);
        let k = ids.last();
        if id_used(tasks, k) {
            prev.push((k, tasks[task_index(tasks, k)].done != (occ_count(ids, k) % 2 == 1)))
        } else {
            prev
        }
    }
}

/// The first index of each requested identifier that a task carries,
/// in caller order.
pub open spec fn found_walk(ids: Seq<u8>, tasks: Seq<Task>) -> Seq<usize>
    decreases ids.len(),
{
    if ids.len() == 0 {
        Seq::empty()
    } else {
        found_walk(ids.drop_last(), tasks) + (if id_used(tasks, ids.last()) {
            seq![task_index(tasks, ids.last()) as usize]
        } else {
            Seq::<usize>::empty()
        })
    }
}

/// How edit classifies the identifiers, occurrence by occurrence: an
/// absent identifier contributes nothing here (it lands in not-found); a
/// first occurrence counts as edited exactly when the inputs change the
/// task; a repeated occurrence finds the task already rewritten, so it
/// always counts as unchanged.
pub open spec fn edit_walk(
    ids: Seq<u8>,
    tasks: Seq<Task>,
    words: Option<Vec<String>>,
    date: Option<String>,
) -> (Seq<u8>, Seq<u8>)
    decreases ids.len(),
{
    if ids.len() == 0 {
        (Seq::empty(), Seq::empty())
    } else {
        let prev = edit_walk(ids.drop_last(), tasks, words, date);
        let k = ids.last();
        if !id_used(tasks, k) {
            prev
        } else if !ids.drop_last().contains(k) && edit_changes(
            tasks[task_index(tasks, k)],
            words,
            date,
        ) {
            (prev.0.push(k), prev.1)
        } else {
            (prev.0, prev.1.push(k))
        }
    }
}

impl TaskManager {
    /// Removes the tasks carrying the given identifiers, keeping the
    /// order of the survivors. Identifiers are handled from the largest
    /// down; an identifier with no task, and every repetition of one
    /// already removed, lands in the not-found list.
    pub fn delete_tasks(&mut self, ids: Vec<u8>) -> (r: Result<Vec<u8>, StoreError>)
        requires
            old(self).wf(),
        ensures
            final(self).db_path == old(self).db_path,
            final(self).wf(),
            r is Ok,
            final(self).tasks@ == old(self).tasks@.filter(
                |t: Task| !ids@.contains(t.id),
            ),
            final(self).tasks@.len() == old(self).tasks@.len() - old(self).tasks@.filter(
                |t: Task| ids@.contains(t.id),
            ).len(),
            r matches Ok(nf) ==> {
                &&& forall|k: u8| nf@.contains(k) ==> ids@.contains(k)
                &&& forall|k: u8|
                    ids@.contains(k) && !id_used(old(self).tasks@, k) ==> nf@.contains(k)
                &&& nf@.len() + (old(self).tasks@.len() - final(self).tasks@.len()) == ids@.len()
                &&& forall|k: u8|
                    #[trigger] occ_count(nf@, k) == occ_count(ids@, k) - (
                    if id_used(old(self).tasks@, k) && ids@.contains(k) {
                        1int
                    } else {
                        0int
                    })
                &&& forall|p: int, q: int| 0 <= p < q < nf@.len() ==> nf@[p] >= nf@[q]
            },
    {
        broadcast use vstd::seq_lib::group_filter_ensures;

        let ghost orig = self.tasks@;
        let sorted = sort_desc_u8(ids);
        let ghost sids = sorted@;
        let mut not_found: Vec<u8> = Vec::new();
        let mut i: usize = 0;
        proof {
            assert(sids.take(0) =~= Seq::<u8>::empty());
            lemma_filter_true(orig, |t: Task| !sids.take(0).contains(t.id));
            sids.take(0).to_multiset_ensures();
            assert(forall|k: u8| occ_count(not_found@, k) == 0) by {
                not_found@.to_multiset_ensures();
                assert(forall|k: u8| !not_found@.contains(k));
            }
            assert(forall|k: u8| occ_count(sids.take(0), k) == 0) by {
                assert(forall|k: u8| !sids.take(0).contains(k));
            }
        }
        while i < sorted.len()
            invariant
                i <= sids.len(),
                sids == sorted@,
                forall|k: u8| sids.contains(k) <==> #[trigger] ids@.contains(k),
                forall|p: int, q: int| 0 <= p < q < sids.len() ==> sids[p] >= sids[q],
                tasks_wf(orig),
                self.tasks@ == orig.filter(
                    |t: Task| !sids.take(i as int).contains(t.id),
                ),
                tasks_wf(self.tasks@),
                self.db_path == old(self).db_path,
                forall|k: u8| id_used(self.tasks@, k) ==> id_used(orig, k),
                forall|k: u8| not_found@.contains(k) ==> ids@.contains(k),
                forall|j: int|
                    0 <= j < i && !id_used(orig, sids[j]) ==> not_found@.contains(
                        #[trigger] sids[j],
                    ),
                not_found@.len() + (orig.len() - self.tasks@.len()) == i,
                forall|k: u8|
                    #[trigger] occ_count(not_found@, k) == occ_count(sids.take(i as int), k) - (
                    if id_used(orig, k) && sids.take(i as int).contains(k) {
                        1int
                    } else {
                        0int
                    }),
                forall|p: int, q: int|
                    0 <= p < not_found@.len() && i <= q < sids.len() ==> not_found@[p] >= sids[q],
                forall|p: int, q: int|
                    0 <= p < q < not_found@.len() ==> not_found@[p] >= not_found@[q],
            decreases sids.len() - i,
        {
            let id = sorted[i];
            let ghost pre = self.tasks@;
            let ghost banned = sids.take(i as int);
            proof {
                assert(sids.take(i + 1) =~= banned.push(id));
                assert(forall|x: u8|
                    #[trigger] sids.take(i + 1).contains(x) <==> (banned.contains(x) || x
                        == id)) by {
                    assert(forall|x: u8|
                        banned.contains(x) ==> #[trigger] sids.take(i + 1).contains(x));
                    assert(sids.take(i + 1)[i as int] == id);
                    assert(forall|p: int|
                        0 <= p < i + 1 && p < i ==> sids.take(i + 1)[p] == #[trigger] banned[p]);
                    assert forall|x: u8| #[trigger] sids.take(i + 1).contains(x) implies (
                    banned.contains(x) || x == id) by {
                        let p = choose|p: int|
                            0 <= p < i + 1 && #[trigger] sids.take(i + 1)[p] == x;
                        if p < i {
                            assert(banned[p] == x);
                        }
                    }
                }
                broadcast use vstd::multiset::group_multiset_axioms;

                banned.to_multiset_ensures();
                sids.take(i + 1).to_multiset_ensures();
                assert(banned.push(id).to_multiset() =~= banned.to_multiset().insert(id));
                assert(forall|x: u8|
                    occ_count(sids.take(i + 1), x) == occ_count(banned, x) + (if x == id {
                        1int
                    } else {
                        0int
                    }));
            }
            match self.find_task_by_id(id) {
                Some(idx) => {
                    proof {
                        // the task found still satisfies the filter, so
                        // its identifier was not banned before this step
                        orig.lemma_filter_pred(|t: Task| !banned.contains(t.id), idx as int);
                        assert(!banned.contains(id));
                        assert(id_used(orig, id));
                    }
                    self.tasks.remove(idx);
                    proof {
                        lemma_remove_keeps_wf(pre, idx as int);
                        assert(self.tasks@ == pre.remove(idx as int));
                        lemma_remove_unique_id(pre, idx as int, id);
                        lemma_filter_filter(
                            orig,
                            |t: Task| !banned.contains(t.id),
                            |t: Task| t.id != id,
                            |t: Task| !sids.take(i + 1).contains(t.id),
                        );
                        assert(forall|k: u8|
                            id_used(pre.remove(idx as int), k) ==> id_used(pre, k)) by {
                            assert(forall|j: int|
                                0 <= j < pre.remove(idx as int).len()
                                    ==> #[trigger] pre.remove(idx as int)[j] == (if j < idx as int {
                                    pre[j]
                                } else {
                                    pre[j + 1]
                                }));
                        }
                        assert(self.tasks@.len() == pre.len() - 1);
                    }
                },
                None => {
                    let ghost prev_nf = not_found@;
                    not_found.push(id);
                    proof {
                        assert forall|j: int| 0 <= j < orig.len() implies ((|t: Task|
                        !banned.contains(t.id))(#[trigger] orig[j]) == (|t: Task|
                        !sids.take(i + 1).contains(t.id))(orig[j])) by {
                            if orig[j].id == id && !banned.contains(id) {
                                orig.lemma_filter_contains(|t: Task| !banned.contains(t.id), j);
                                assert(pre.contains(orig[j]));
                                let w = choose|w: int|
                                    0 <= w < pre.len() && #[trigger] pre[w] == orig[j];
                                assert(pre[w].id == id);
                                assert(id_used(pre, id));
                            }
                        }
                        lemma_filter_ext(
                            orig,
                            |t: Task| !banned.contains(t.id),
                            |t: Task| !sids.take(i + 1).contains(t.id),
                        );
                        lemma_push_contains(prev_nf, id);
                        assert(ids@.contains(id)) by {
                            assert(sids[i as int] == id);
                            assert(sids.contains(id));
                        }
                        // a present identifier that found no task was
                        // consumed by an earlier occurrence
                        if id_used(orig, id) {
                            assert(banned.contains(id));
                        }
                        broadcast use vstd::multiset::group_multiset_axioms;

                        prev_nf.to_multiset_ensures();
                        not_found@.to_multiset_ensures();
                        assert(not_found@ == prev_nf.push(id));
                        assert(prev_nf.push(id).to_multiset() =~= prev_nf.to_multiset().insert(
                            id,
                        ));
                        assert(forall|x: u8|
                            occ_count(not_found@, x) == occ_count(prev_nf, x) + (if x == id {
                                1int
                            } else {
                                0int
                            }));
                        assert(forall|p: int|
                            0 <= p < not_found@.len() ==> not_found@[p] == (if p < prev_nf.len() {
                                prev_nf[p]
                            } else {
                                id
                            }));
                    }
                },
            }
            i += 1;
        }
        proof {
            assert(sids.take(sids.len() as int) =~= sids);
            lemma_filter_ext(
                orig,
                |t: Task| !sids.contains(t.id),
                |t: Task| !ids@.contains(t.id),
            );
            lemma_filter_complement(orig, |t: Task| ids@.contains(t.id));
            lemma_filter_ext(
                orig,
                |t: Task| !(|t: Task| ids@.contains(t.id))(t),
                |t: Task| !ids@.contains(t.id),
            );
            assert forall|k: u8|
                ids@.contains(k) && !id_used(orig, k) implies not_found@.contains(k) by {
                assert(sids.contains(k));
                let j = choose|j: int| 0 <= j < sids.len() && sids[j] == k;
            }
            assert(forall|k: u8| occ_count(sids, k) == occ_count(ids@, k));
        }
        Ok(not_found)
    }

    /// Removes every task marked done, returning how many went. The
    /// survivors keep their order.
    pub fn delete_all_done(&mut self) -> (r: Result<usize, StoreError>)
        requires
            old(self).wf(),
        ensures
            final(self).db_path == old(self).db_path,
            final(self).wf(),
            r is Ok,
            final(self).tasks@ == old(self).tasks@.filter(|t: Task| !t.done),
            r matches Ok(n) ==> n as int == old(self).tasks@.len() - final(self).tasks@.len(),
    {
        broadcast use vstd::seq_lib::group_filter_ensures;

        let ghost orig = self.tasks@;
        let mut kept: Vec<Task> = Vec::new();
        let mut i: usize = 0;
        proof {
            assert(orig.take(0) =~= Seq::<Task>::empty());
            lemma_filter_true(orig.take(0), |t: Task| !t.done);
        }
        while i < self.tasks.len()
            invariant
                i <= self.tasks@.len(),
                self.tasks@ == orig,
                tasks_wf(orig),
                kept@ == orig.take(i as int).filter(|t: Task| !t.done),
                tasks_wf(kept@),
                forall|k: u8| id_used(kept@, k) ==> id_used(orig.take(i as int), k),
            decreases self.tasks@.len() - i,
        {
            let t = &self.tasks[i];
            proof {
                assert(orig.take(i + 1) =~= orig.take(i as int).push(orig[i as int]));
                Seq::lemma_filter_push(orig.take(i as int), orig[i as int], |t: Task| !t.done);
            }
            if !t.done {
                let copy = Task {
                    id: t.id,
                    text: t.text.clone(),
                    date: t.date,
                    done: t.done,
                };
                let ghost prev = kept@;
                kept.push(copy);
                proof {
                    assert(copy == orig[i as int]);
                    assert(kept@ == prev.push(orig[i as int]));
                    assert(!id_used(prev, orig[i as int].id)) by {
                        if id_used(prev, orig[i as int].id) {
                            let w = choose|w: int|
                                0 <= w < orig.take(i as int).len()
                                    && #[trigger] orig.take(i as int)[w].id == orig[i as int].id;
                            assert(orig[w].id == orig[i as int].id);
                        }
                    }
                    assert(tasks_wf(kept@)) by {
                        assert(forall|p: int|
                            0 <= p < prev.len() ==> #[trigger] kept@[p] == prev[p]);
                        assert(task_wf(kept@[prev.len() as int]));
                        assert(forall|p: int|
                            0 <= p < prev.len() ==> (#[trigger] kept@[p]).id != orig[
                                i as int
                            ].id);
                    }
                    assert(forall|k: u8|
                        id_used(kept@, k) ==> id_used(orig.take(i + 1), k)) by {
                        assert forall|k: u8| id_used(kept@, k) implies id_used(
                            orig.take(i + 1),
                            k,
                        ) by {
                            let w = choose|w: int|
                                0 <= w < kept@.len() && #[trigger] kept@[w].id == k;
                            if w < prev.len() {
                                assert(id_used(prev, k));
                                let v = choose|v: int|
                                    0 <= v < orig.take(i as int).len() && #[trigger] orig.take(
                                        i as int,
                                    )[v].id == k;
                                assert(orig.take(i + 1)[v].id == k);
                            } else {
                                assert(orig.take(i + 1)[i as int].id == k);
                            }
                        }
                    }
                }
            } else {
                proof {
                    assert(forall|k: u8|
                        id_used(kept@, k) ==> id_used(orig.take(i + 1), k)) by {
                        assert(forall|v: int|
                            0 <= v < orig.take(i as int).len() ==> #[trigger] orig.take(
                                i + 1,
                            )[v] == orig.take(i as int)[v]);
                        assert forall|k: u8| id_used(kept@, k) implies id_used(
                            orig.take(i + 1),
                            k,
                        ) by {
                            let v = choose|v: int|
                                0 <= v < orig.take(i as int).len() && #[trigger] orig.take(
                                    i as int,
                                )[v].id == k;
                            assert(orig.take(i + 1)[v].id == k);
                        }
                    }
                }
            }
            i += 1;
        }
        proof {
            assert(orig.take(orig.len() as int) =~= orig);
        }
        let removed = self.tasks.len() - kept.len();
        self.tasks = kept;
        Ok(removed)
    }

    /// Toggles the done flag of the task carrying each identifier, once
    /// per occurrence, in caller order. Returns the (identifier, new
    /// state) pairs for the occurrences that found a task, and the
    /// identifiers that found none.
    pub fn mark_tasks(&mut self, ids: Vec<u8>) -> (r: Result<
        (Vec<(u8, bool)>, Vec<u8>),
        StoreError,
    >)
        requires
            old(self).wf(),
        ensures
            final(self).db_path == old(self).db_path,
            final(self).wf(),
            r is Ok,
            final(self).tasks@.len() == old(self).tasks@.len(),
            forall|j: int|
                0 <= j < old(self).tasks@.len() ==> {
                    let t0 = #[trigger] old(self).tasks@[j];
                    let t1 = final(self).tasks@[j];
                    &&& t1.id == t0.id
                    &&& t1.text == t0.text
                    &&& t1.date == t0.date
                    &&& t1.done == (t0.done != (occ_count(ids@, t0.id) % 2 == 1))
                },
            r matches Ok(mn) ==> {
                &&& mn.1@ == ids@.filter(|k: u8| !id_used(old(self).tasks@, k))
                &&& mn.0@ == marked_walk(ids@, old(self).tasks@)
            },
    {
        broadcast use vstd::seq_lib::group_filter_ensures;
        broadcast use vstd::seq_lib::group_to_multiset_ensures;

        let ghost orig = self.tasks@;
        let mut marked: Vec<(u8, bool)> = Vec::new();
        let mut not_found: Vec<u8> = Vec::new();
        let mut i: usize = 0;
        while i < ids.len()
            invariant
                i <= ids@.len(),
                tasks_wf(orig),
                self.db_path == old(self).db_path,
                self.tasks@.len() == orig.len(),
                tasks_wf(self.tasks@),
                forall|j: int|
                    0 <= j < orig.len() ==> {
                        let t0 = #[trigger] orig[j];
                        let t1 = self.tasks@[j];
                        &&& t1.id == t0.id
                        &&& t1.text == t0.text
                        &&& t1.date == t0.date
                        &&& t1.done == (t0.done != (occ_count(ids@.take(i as int), t0.id) % 2
                            == 1))
                    },
                not_found@ == ids@.take(i as int).filter(|k: u8| !id_used(orig, k)),
                marked@ == marked_walk(ids@.take(i as int), orig),
            decreases ids@.len() - i,
        {
            let id = ids[i];
            let ghost pre = self.tasks@;
            proof {
                assert(ids@.take(i + 1) =~= ids@.take(i as int).push(ids@[i as int]));
                assert(ids@.take(i + 1).drop_last() =~= ids@.take(i as int));
                assert(ids@.take(i + 1).last() == ids@[i as int]);
                Seq::lemma_filter_push(
                    ids@.take(i as int),
                    ids@[i as int],
                    |k: u8| !id_used(orig, k),
                );
                assert(forall|k: u8|
                    occ_count(ids@.take(i + 1), k) == occ_count(ids@.take(i as int), k) + (
                    if k == id {
                        1int
                    } else {
                        0int
                    })) by {
                    broadcast use vstd::multiset::group_multiset_axioms;

                    ids@.take(i as int).to_multiset_ensures();
                    ids@.take(i + 1).to_multiset_ensures();
                    assert(ids@.take(i + 1) == ids@.take(i as int).push(id));
                    assert(ids@.take(i as int).push(id).to_multiset() =~= ids@.take(
                        i as int,
                    ).to_multiset().insert(id));
                }
                assert(ids@.contains(id)) by {
                    assert(ids@[i as int] == id);
                }
                assert(id_used(pre, id) <==> id_used(orig, id)) by {
                    assert forall|k: u8| id_used(pre, k) implies id_used(orig, k) by {
                        let w = choose|w: int| 0 <= w < pre.len() && #[trigger] pre[w].id == k;
                        assert(orig[w].id == k);
                    }
                    assert forall|k: u8| id_used(orig, k) implies id_used(pre, k) by {
                        let w = choose|w: int| 0 <= w < orig.len() && #[trigger] orig[w].id == k;
                        assert(pre[w].id == k);
                    }
                }
            }
            match self.find_task_by_id(id) {
                Some(idx) => {
                    let new_done = !self.tasks[idx].done;
                    let t = &self.tasks[idx];
                    let updated = Task {
                        id: t.id,
                        text: t.text.clone(),
                        date: t.date,
                        done: new_done,
                    };
                    self.tasks.set(idx, updated);
                    marked.push((id, new_done));
                    proof {
                        assert(self.tasks@ == pre.update(idx as int, updated));
                        assert(tasks_wf(self.tasks@)) by {
                            assert(forall|j: int|
                                0 <= j < pre.len() && j != idx as int
                                    ==> #[trigger] self.tasks@[j] == pre[j]);
                            assert(self.tasks@[idx as int].id == pre[idx as int].id);
                        }
                        // the first index is the same in the old store
                        assert(orig[idx as int].id == id);
                        assert(forall|j: int|
                            0 <= j < idx as int ==> (#[trigger] orig[j]).id != id) by {
                            assert(forall|j: int|
                                0 <= j < idx as int ==> (#[trigger] pre[j]).id != id);
                            assert(forall|j: int|
                                0 <= j < orig.len() ==> (#[trigger] orig[j]).id == pre[j].id);
                        }
                        lemma_task_index_from_scan(orig, id, idx as int);
                        let d0 = orig[idx as int].done;
                        let occ_before = occ_count(ids@.take(i as int), id);
                        assert(pre[idx as int].done == (d0 != (occ_before % 2 == 1)));
                        assert(occ_before >= 0) by {
                            ids@.take(i as int).to_multiset_ensures();
                        }
                        assert(((occ_before + 1) % 2 == 1) == !(occ_before % 2 == 1));
                        assert(new_done == (d0 != (occ_count(ids@.take(i + 1), id) % 2 == 1)));
                        assert(marked@ == marked_walk(ids@.take(i + 1), orig));
                    }
                },
                None => {
                    not_found.push(id);
                    proof {
                        assert(marked@ == marked_walk(ids@.take(i + 1), orig));
                    }
                },
            }
            i += 1;
        }
        proof {
            assert(ids@.take(ids@.len() as int) =~= ids@);
        }
        Ok((marked, not_found))
    }

    /// Rewrites the text and date of the task carrying each identifier.
    /// A given text replaces the task text with the words joined by
    /// spaces; a given date string replaces the date with its normalized
    /// reading, which is no date at all when it names no real day. Each
    /// found identifier is classified as edited when anything actually
    /// differed, and unchanged otherwise. Rejects a text that trims to
    /// nothing and changes nothing in that case.
    pub fn edit_tasks(
        &mut self,
        ids: Vec<u8>,
        text: Option<Vec<String>>,
        date: Option<String>,
    ) -> (r: Result<(Vec<u8>, Vec<u8>, Vec<u8>), StoreError>)
        requires
            old(self).wf(),
        ensures
            final(self).db_path == old(self).db_path,
            final(self).wf(),
            r is Ok <==> !(text matches Some(w) && all_whitespace(joined_text(w@))),
            r is Err ==> final(self).tasks == old(self).tasks,
            r matches Err(e) ==> e is EmptyText,
            r is Ok ==> {
                &&& final(self).tasks@.len() == old(self).tasks@.len()
                &&& forall|j: int|
                    0 <= j < old(self).tasks@.len() ==> {
                        let t0 = #[trigger] old(self).tasks@[j];
                        let t1 = final(self).tasks@[j];
                        &&& t1.id == t0.id
                        &&& t1.done == t0.done
                        &&& (ids@.contains(t0.id) ==> t1.text@ == (match text {
                            Some(w) => joined_text(w@),
                            None => t0.text@,
                        }) && t1.date == (match date {
                            Some(d) => parse_date_spec(normalize_spec(d@)),
                            None => t0.date,
                        }))
                        &&& (!ids@.contains(t0.id) ==> t1.text == t0.text && t1.date == t0.date)
                    }
            },
            r matches Ok(result) ==> {
                let (ed, un, nf) = result;
                &&& nf@ == ids@.filter(|k: u8| !id_used(old(self).tasks@, k))
                &&& (ed@, un@) == edit_walk(ids@, old(self).tasks@, text, date)
            },
    {
        broadcast use vstd::seq_lib::group_filter_ensures;

        let ghost orig = self.tasks@;
        let new_text: Option<Vec<char>> = match &text {
            Some(w) => {
                let joined = join_words(w);
                if is_blank(joined.as_slice()) {
                    return Err(StoreError::EmptyText);
                }
                Some(joined)
            },
            None => None,
        };
        let new_date: Option<Option<Date>> = match &date {
            Some(d) => Some(date_from_input(d.as_str())),
            None => None,
        };
        let mut edited: Vec<u8> = Vec::new();
        let mut unchanged: Vec<u8> = Vec::new();
        let mut not_found: Vec<u8> = Vec::new();
        let mut i: usize = 0;
        while i < ids.len()
            invariant
                i <= ids@.len(),
                tasks_wf(orig),
                self.db_path == old(self).db_path,
                self.tasks@.len() == orig.len(),
                tasks_wf(self.tasks@),
                new_text matches Some(v) ==> (text matches Some(w) && v@ == joined_text(w@)
                    && !all_whitespace(v@)),
                new_text is None <==> text is None,
                new_date matches Some(pd) ==> (date matches Some(d) && pd == parse_date_spec(
                    normalize_spec(d@),
                )),
                new_date is None <==> date is None,
                forall|j: int|
                    0 <= j < orig.len() ==> {
                        let t0 = #[trigger] orig[j];
                        let t1 = self.tasks@[j];
                        &&& t1.id == t0.id
                        &&& t1.done == t0.done
                        &&& (ids@.take(i as int).contains(t0.id) ==> t1.text@ == (match text {
                            Some(w) => joined_text(w@),
                            None => t0.text@,
                        }) && t1.date == (match date {
                            Some(d) => parse_date_spec(normalize_spec(d@)),
                            None => t0.date,
                        }))
                        &&& (!ids@.take(i as int).contains(t0.id) ==> t1.text == t0.text
                            && t1.date == t0.date)
                    },
                not_found@ == ids@.take(i as int).filter(|k: u8| !id_used(orig, k)),
                (edited@, unchanged@) == edit_walk(ids@.take(i as int), orig, text, date),
            decreases ids@.len() - i,
        {
            let id = ids[i];
            let ghost pre = self.tasks@;
            proof {
                assert(ids@.take(i + 1) =~= ids@.take(i as int).push(ids@[i as int]));
                assert(ids@.take(i + 1).drop_last() =~= ids@.take(i as int));
                assert(ids@.take(i + 1).last() == ids@[i as int]);
                Seq::lemma_filter_push(
                    ids@.take(i as int),
                    ids@[i as int],
                    |k: u8| !id_used(orig, k),
                );
                assert(forall|x: u8|
                    #[trigger] ids@.take(i + 1).contains(x) <==> (ids@.take(i as int).contains(
                        x,
                    ) || x == id)) by {
                    assert(forall|x: u8|
                        ids@.take(i as int).contains(x) ==> #[trigger] ids@.take(i + 1).contains(
                            x,
                        ));
                    assert(ids@.take(i + 1)[i as int] == id);
                    assert forall|x: u8| #[trigger] ids@.take(i + 1).contains(x) implies (
                    ids@.take(i as int).contains(x) || x == id) by {
                        let p = choose|p: int|
                            0 <= p < i + 1 && #[trigger] ids@.take(i + 1)[p] == x;
                        if p < i {
                            assert(ids@.take(i as int)[p] == x);
                        }
                    }
                }
                assert(id_used(pre, id) <==> id_used(orig, id)) by {
                    assert forall|k: u8| id_used(pre, k) implies id_used(orig, k) by {
                        let w = choose|w: int| 0 <= w < pre.len() && #[trigger] pre[w].id == k;
                        assert(orig[w].id == k);
                    }
                    assert forall|k: u8| id_used(orig, k) implies id_used(pre, k) by {
                        let w = choose|w: int| 0 <= w < orig.len() && #[trigger] orig[w].id == k;
                        assert(pre[w].id == k);
                    }
                }
            }
            match self.find_task_by_id(id) {
                Some(idx) => {
                    let mut was_changed = false;
                    let t = &self.tasks[idx];
                    let cur_text = t.text.clone();
                    let cur_date = t.date;
                    let applied_text: String = match &new_text {
                        Some(v) => {
                            let s = chars_str(v.as_slice());
                            if !strings_equal(&cur_text, &s) {
                                was_changed = true;
                            }
                            s
                        },
                        None => cur_text,
                    };
                    let applied_date: Option<Date> = match &new_date {
                        Some(pd) => {
                            if !opt_date_eq(&cur_date, pd) {
                                was_changed = true;
                            }
                            *pd
                        },
                        None => cur_date,
                    };
                    let updated = Task {
                        id,
                        text: applied_text,
                        date: applied_date,
                        done: self.tasks[idx].done,
                    };
                    self.tasks.set(idx, updated);
                    proof {
                        assert(self.tasks@ == pre.update(idx as int, updated));
                        assert(tasks_wf(self.tasks@)) by {
                            assert(forall|j: int|
                                0 <= j < pre.len() && j != idx as int
                                    ==> #[trigger] self.tasks@[j] == pre[j]);
                            assert(self.tasks@[idx as int].id == pre[idx as int].id);
                        }
                        assert(ids@.contains(id)) by {
                            assert(ids@[i as int] == id);
                        }
                        // the first index is the same in the old store
                        assert(orig[idx as int].id == id);
                        assert(forall|j: int|
                            0 <= j < idx as int ==> (#[trigger] orig[j]).id != id) by {
                            assert(forall|j: int|
                                0 <= j < idx as int ==> (#[trigger] pre[j]).id != id);
                            assert(forall|j: int|
                                0 <= j < orig.len() ==> (#[trigger] orig[j]).id == pre[j].id);
                        }
                        lemma_task_index_from_scan(orig, id, idx as int);
                        if !ids@.take(i as int).contains(id) {
                            // first occurrence: the task is still as loaded,
                            // so the comparison decides against the old task
                            assert(pre[idx as int].text == orig[idx as int].text);
                            assert(pre[idx as int].date == orig[idx as int].date);
                            assert(was_changed == edit_changes(orig[idx as int], text, date));
                        } else {
                            // repeated occurrence: the task already carries
                            // the targets, so nothing differs any more
                            if new_text is Some {
                                assert(pre[idx as int].text@ == joined_text(
                                    (text->Some_0)@,
                                ));
                            }
                            if new_date is Some {
                                assert(pre[idx as int].date == parse_date_spec(
                                    normalize_spec((date->Some_0)@),
                                ));
                            }
                            assert(!was_changed);
                        }
                    }
                    if was_changed {
                        edited.push(id);
                        proof {
                            assert((edited@, unchanged@) == edit_walk(
                                ids@.take(i + 1),
                                orig,
                                text,
                                date,
                            ));
                        }
                    } else {
                        unchanged.push(id);
                        proof {
                            assert((edited@, unchanged@) == edit_walk(
                                ids@.take(i + 1),
                                orig,
                                text,
                                date,
                            ));
                        }
                    }
                },
                None => {
                    not_found.push(id);
                    proof {
                        assert((edited@, unchanged@) == edit_walk(
                            ids@.take(i + 1),
                            orig,
                            text,
                            date,
                        ));
                    }
                },
            }
            i += 1;
        }
        proof {
            assert(ids@.take(ids@.len() as int) =~= ids@);
        }
        Ok((edited, unchanged, not_found))
    }
}

/// Whether two strings hold the same characters.
fn strings_equal(a: &String, b: &String) -> (r: bool)
    ensures
        r == (a@ == b@),
{
    a.eq(b)
}

/// Whether two optional dates are the same.
fn opt_date_eq(a: &Option<Date>, b: &Option<Date>) -> (r: bool)
    ensures
        r == (a == b),
{
    match (a, b) {
        (None, None) => true,
        (Some(x), Some(y)) => *x == *y,
        _ => false,
    }
}

/// Sorts identifiers in descending order; same elements, same counts.
fn sort_desc_u8(v: Vec<u8>) -> (r: Vec<u8>)
    ensures
        r@.len() == v@.len(),
        forall|i: int, j: int| 0 <= i < j < r@.len() ==> r@[i] >= r@[j],
        forall|k: u8| r@.contains(k) <==> v@.contains(k),
        r@.to_multiset() == v@.to_multiset(),
{
    broadcast use vstd::multiset::group_multiset_axioms;

    let ghost full = v@;
    let mut rem = v;
    let mut out: Vec<u8> = Vec::new();
    proof {
        out@.to_multiset_ensures();
        assert(forall|k: u8| !out@.contains(k));
        assert(forall|k: u8| #[trigger] out@.to_multiset().count(k) == 0);
    }
    while rem.len() > 0
        invariant
            forall|k: u8|
                out@.to_multiset().count(k) + rem@.to_multiset().count(k) == #[trigger] full.to_multiset().count(
                    k,
                ),
            out@.len() + rem@.len() == full.len(),
            forall|i: int, j: int| 0 <= i < j < out@.len() ==> out@[i] >= out@[j],
            forall|i: int, j: int|
                0 <= i < out@.len() && 0 <= j < rem@.len() ==> out@[i] >= rem@[j],
        decreases rem@.len(),
    {
        let mut m: usize = 0;
        let mut i: usize = 1;
        while i < rem.len()
            invariant
                m < i <= rem@.len() || (i <= rem@.len() && m == 0),
                m < rem@.len(),
                rem@.len() > 0,
                forall|j: int| 0 <= j < i ==> rem@[j] <= rem@[m as int],
            decreases rem@.len() - i,
        {
            if rem[i] > rem[m] {
                m = i;
            }
            i += 1;
        }
        let ghost pre_rem = rem@;
        let ghost pre_out = out@;
        let x = rem.remove(m);
        out.push(x);
        proof {
            pre_rem.to_multiset_ensures();
            pre_out.to_multiset_ensures();
            assert(rem@ == pre_rem.remove(m as int));
            assert(pre_rem.remove(m as int).to_multiset() =~= pre_rem.to_multiset().remove(x));
            assert(out@ == pre_out.push(x));
            assert(pre_out.push(x).to_multiset() =~= pre_out.to_multiset().insert(x));
            assert(pre_rem.contains(x)) by {
                assert(pre_rem[m as int] == x);
            }
            assert(pre_rem.to_multiset().count(x) > 0);
            assert(forall|j: int|
                0 <= j < rem@.len() ==> #[trigger] rem@[j] == (if j < m as int {
                    pre_rem[j]
                } else {
                    pre_rem[j + 1]
                }));
            assert(forall|j: int| 0 <= j < rem@.len() ==> x >= #[trigger] rem@[j]);
            assert(forall|p: int| 0 <= p < pre_out.len() ==> #[trigger] out@[p] == pre_out[p]);
            assert(out@[pre_out.len() as int] == x);
        }
    }
    proof {
        out@.to_multiset_ensures();
        full.to_multiset_ensures();
        rem@.to_multiset_ensures();
        assert(forall|k: u8| !rem@.contains(k)) by {
            assert(rem@.len() == 0);
        }
        assert forall|k: u8| out@.contains(k) <==> full.contains(k) by {
            assert(rem@.to_multiset().count(k) == 0);
            assert(out@.to_multiset().count(k) == full.to_multiset().count(k));
        }
    }
    out
}

/// Removing one task keeps the store invariant.
proof fn lemma_remove_keeps_wf(s: Seq<Task>, idx: int)
    requires
        tasks_wf(s),
        0 <= idx < s.len(),
    ensures
        tasks_wf(s.remove(idx)),
{
    let r = s.remove(idx);
    assert(forall|j: int|
        0 <= j < r.len() ==> #[trigger] r[j] == (if j < idx {
            s[j]
        } else {
            s[j + 1]
        }));
}

/// In a store with distinct identifiers, removing the task at the index
/// carrying `id` is the same as filtering that identifier out.
proof fn lemma_remove_unique_id(s: Seq<Task>, idx: int, id: u8)
    requires
        tasks_wf(s),
        0 <= idx < s.len(),
        s[idx].id == id,
    ensures
        s.remove(idx) == s.filter(|t: Task| t.id != id),
{
    broadcast use vstd::seq_lib::group_filter_ensures;

    let pred = |t: Task| t.id != id;
    let a = s.take(idx);
    let b = s.skip(idx + 1);
    assert(s =~= a + seq![s[idx]] + b);
    Seq::filter_distributes_over_add(a + seq![s[idx]], b, pred);
    Seq::filter_distributes_over_add(a, seq![s[idx]], pred);
    lemma_filter_true(a, pred);
    lemma_filter_true(b, pred);
    assert(forall|j: int| 0 <= j < a.len() ==> #[trigger] a[j] == s[j]);
    assert(forall|j: int| 0 <= j < b.len() ==> #[trigger] b[j] == s[j + idx + 1]);
    lemma_filter_single(s[idx], pred);
    assert((a + seq![s[idx]] + b).filter(pred) =~= a + b);
    assert(s.filter(pred) == (a + seq![s[idx]] + b).filter(pred)) by {
        assert(s == a + seq![s[idx]] + b);
    }
    assert(s.remove(idx) =~= a + b);
}

/// Filtering a single element keeps it exactly when the predicate holds.
proof fn lemma_filter_single<A>(x: A, pred: spec_fn(A) -> bool)
    ensures
        seq![x].filter(pred) == if pred(x) {
            seq![x]
        } else {
            Seq::<A>::empty()
        },
{
    reveal(Seq::filter);
    assert(seq![x].drop_last() =~= Seq::<A>::empty());
    assert(seq![x].last() == x);
    assert(Seq::<A>::empty().filter(pred) == Seq::<A>::empty());
}

/// A filter keeps everything when the predicate holds of every element.
proof fn lemma_filter_true<A>(s: Seq<A>, pred: spec_fn(A) -> bool)
    requires
        forall|i: int| 0 <= i < s.len() ==> pred(#[trigger] s[i]),
    ensures
        s.filter(pred) == s,
    decreases s.len(),
{
    reveal(Seq::filter);
    if s.len() > 0 {
        assert(forall|i: int|
            0 <= i < s.len() - 1 ==> s.drop_last()[i] == #[trigger] s[i]);
        lemma_filter_true(s.drop_last(), pred);
        assert(pred(s.last()));
        assert(s.filter(pred) == s.drop_last().filter(pred).push(s.last()));
        assert(s.drop_last().push(s.last()) =~= s);
    }
}

/// Filtering by two predicates in sequence is one filter by a predicate
/// that agrees with their conjunction on the sequence.
proof fn lemma_filter_filter<A>(
    s: Seq<A>,
    p: spec_fn(A) -> bool,
    q: spec_fn(A) -> bool,
    both: spec_fn(A) -> bool,
)
    requires
        forall|i: int| 0 <= i < s.len() ==> both(#[trigger] s[i]) == (p(s[i]) && q(s[i])),
    ensures
        s.filter(both) == s.filter(p).filter(q),
    decreases s.len(),
{
    reveal(Seq::filter);
    if s.len() == 0 {
        assert(s.filter(both) == s);
        assert(s.filter(p) == s);
        assert(s.filter(p).filter(q) == s);
    } else {
        let t = s.drop_last();
        let a = s.last();
        assert(forall|i: int| 0 <= i < t.len() ==> #[trigger] t[i] == s[i]);
        lemma_filter_filter(t, p, q, both);
        assert(both(a) == (p(a) && q(a)));
        if p(a) {
            assert(s.filter(p) == t.filter(p).push(a));
            Seq::lemma_filter_push(t.filter(p), a, q);
        } else {
            assert(s.filter(p) == t.filter(p));
        }
    }
}

/// Filters by pointwise-equal predicates agree.
proof fn lemma_filter_ext<A>(s: Seq<A>, p: spec_fn(A) -> bool, q: spec_fn(A) -> bool)
    requires
        forall|i: int| 0 <= i < s.len() ==> p(#[trigger] s[i]) == q(s[i]),
    ensures
        s.filter(p) == s.filter(q),
    decreases s.len(),
{
    reveal(Seq::filter);
    if s.len() > 0 {
        assert(forall|i: int|
            0 <= i < s.len() - 1 ==> s.drop_last()[i] == #[trigger] s[i]);
        lemma_filter_ext(s.drop_last(), p, q);
        assert(p(s.last()) == q(s.last()));
    }
}

/// A sequence splits into the elements a predicate keeps and the ones it
/// drops.
pub proof fn lemma_filter_complement<A>(s: Seq<A>, p: spec_fn(A) -> bool)
    ensures
        s.filter(p).len() + s.filter(|x: A| !p(x)).len() == s.len(),
    decreases s.len(),
{
    reveal(Seq::filter);
    if s.len() > 0 {
        lemma_filter_complement(s.drop_last(), p);
    }
}

/// Membership in a sequence with one element appended.
proof fn lemma_push_contains<A>(s: Seq<A>, a: A)
    ensures
        forall|x: A| #[trigger] s.push(a).contains(x) <==> (s.contains(x) || x == a),
{
    assert forall|x: A| #[trigger] s.push(a).contains(x) implies (s.contains(x) || x == a) by {
        let p = choose|p: int| 0 <= p < s.push(a).len() && #[trigger] s.push(a)[p] == x;
        if p < s.len() {
            assert(s[p] == x);
        }
    }
    assert forall|x: A| (s.contains(x) || x == a) implies #[trigger] s.push(a).contains(x) by {
        if s.contains(x) {
            let p = choose|p: int| 0 <= p < s.len() && #[trigger] s[p] == x;
            assert(s.push(a)[p] == x);
        } else {
            assert(s.push(a)[s.len() as int] == x);
        }
    }
}

/// A scan that found `id` at `i`, with all earlier tasks missing it,
/// found the first index.
proof fn lemma_task_index_from_scan(tasks: Seq<Task>, id: u8, i: int)
    requires
        0 <= i < tasks.len(),
        tasks[i].id == id,
        forall|j: int| 0 <= j < i ==> (#[trigger] tasks[j]).id != id,
    ensures
        task_index(tasks, id) == i,
    decreases i,
{
    lemma_task_index(tasks, id);
    assert(id_used(tasks, id));
    let w = task_index(tasks, id);
    if w < i {
        assert(tasks[w].id != id);
    }
    if w > i {
        assert(tasks[i].id != id);
    }
}

} // verus!
