//! The per-task decisions of interactive editing: what one text or date
//! submission from the line editor does to the store. The surrounding
//! binary runs the editor loop and saves once at the end when anything
//! was edited.

use vstd::prelude::*;
use crate::dates::{parse_date_spec, normalize_spec, date_from_input, Date};
use crate::store::TaskManager;
use crate::task::{id_used, task_index, tasks_wf, Task};
use crate::text::{all_whitespace, chars_str, is_blank, str_chars, str_eq, trim_chars, trim_spec};

verus! {

/// How one interactive submission was classified.
#[derive(Debug, Clone, Copy, PartialEq, Eq, Structural)]
pub enum EditApply {
    /// The task changed and a save is owed at the end of the loop.
    Edited,
    /// The submission kept the task as it was.
    Unchanged,
    /// No task carries the identifier.
    NotFound,
}

impl TaskManager {
    /// Applies one text submission to the task carrying `id`: a blank
    /// submission keeps the text, a different one replaces it, the same
    /// one changes nothing.
    pub fn apply_interactive_text(&mut self, id: u8, submitted: &str) -> (r: EditApply)
        requires
            old(self).wf(),
        ensures
            final(self).wf(),
            final(self).db_path == old(self).db_path,
            final(self).tasks@.len() == old(self).tasks@.len(),
            r is NotFound <==> !id_used(old(self).tasks@, id),
            forall|j: int|
                0 <= j < old(self).tasks@.len() ==> {
                    let t0 = #[trigger] old(self).tasks@[j];
                    let t1 = final(self).tasks@[j];
                    &&& t1.id == t0.id
                    &&& t1.done == t0.done
                    &&& t1.date == t0.date
                    &&& (j != task_index(old(self).tasks@, id) ==> t1.text == t0.text)
                },
            r is Edited <==> (id_used(old(self).tasks@, id) && !all_whitespace(submitted@)
                && submitted@ != old(self).tasks@[task_index(old(self).tasks@, id)].text@),
            id_used(old(self).tasks@, id) ==> {
                let t1 = final(self).tasks@[task_index(old(self).tasks@, id)];
                t1.text@ == (if !all_whitespace(submitted@) {
                    submitted@
                } else {
                    old(self).tasks@[task_index(old(self).tasks@, id)].text@
                })
            },
    {
        let chars = str_chars(submitted);
        let idx = match self.find_task_by_id(id) {
            Some(idx) => idx,
            None => {
                return EditApply::NotFound;
            },
        };
        if is_blank(chars.as_slice()) {
            return EditApply::Unchanged;
        }
        let ghost pre = self.tasks@;
        let t = &self.tasks[idx];
        if str_eq(t.text.as_str(), submitted) {
            return EditApply::Unchanged;
        }
        let updated = Task {
            id: t.id,
            text: chars_str(chars.as_slice()),
            date: t.date,
            done: t.done,
        };
        self.tasks.set(idx, updated);
        proof {
            assert(self.tasks@ == pre.update(idx as int, updated));
            assert(tasks_wf(self.tasks@)) by {
                assert(forall|j: int|
                    0 <= j < pre.len() && j != idx as int ==> #[trigger] self.tasks@[j]
                        == pre[j]);
                assert(self.tasks@[idx as int].id == pre[idx as int].id);
            }
        }
        EditApply::Edited
    }

    /// Applies one date submission to the task carrying `id`: a blank
    /// submission keeps the date; an input that normalizes into a real
    /// day different from the current date replaces it; anything else
    /// changes nothing.
    pub fn apply_interactive_date(&mut self, id: u8, date_input: &str) -> (r: EditApply)
        requires
            old(self).wf(),
        ensures
            final(self).wf(),
            final(self).db_path == old(self).db_path,
            final(self).tasks@.len() == old(self).tasks@.len(),
            r is NotFound <==> !id_used(old(self).tasks@, id),
            forall|j: int|
                0 <= j < old(self).tasks@.len() ==> {
                    let t0 = #[trigger] old(self).tasks@[j];
                    let t1 = final(self).tasks@[j];
                    &&& t1.id == t0.id
                    &&& t1.done == t0.done
                    &&& t1.text == t0.text
                    &&& (j != task_index(old(self).tasks@, id) ==> t1.date == t0.date)
                },
            r is Edited <==> (id_used(old(self).tasks@, id) && !all_whitespace(date_input@) && (
            parse_date_spec(normalize_spec(trim_spec(date_input@))) matches Some(d) && Some(d)
                != old(self).tasks@[task_index(old(self).tasks@, id)].date)),
            id_used(old(self).tasks@, id) ==> {
                let t1 = final(self).tasks@[task_index(old(self).tasks@, id)];
                t1.date == (match parse_date_spec(normalize_spec(trim_spec(date_input@))) {
                    Some(d) => if !all_whitespace(date_input@) {
                        Some(d)
                    } else {
                        old(self).tasks@[task_index(old(self).tasks@, id)].date
                    },
                    None => old(self).tasks@[task_index(old(self).tasks@, id)].date,
                })
            },
    {
        let chars = str_chars(date_input);
        let idx = match self.find_task_by_id(id) {
            Some(idx) => idx,
            None => {
                return EditApply::NotFound;
            },
        };
        if is_blank(chars.as_slice()) {
            return EditApply::Unchanged;
        }
        let trimmed = trim_chars(chars.as_slice());
        let trimmed_str = chars_str(trimmed.as_slice());
        let parsed = date_from_input(trimmed_str.as_str());
        let d = match parsed {
            Some(d) => d,
            None => {
                return EditApply::Unchanged;
            },
        };
        let ghost pre = self.tasks@;
        let t = &self.tasks[idx];
        let same = match &t.date {
            Some(cur) => *cur == d,
            None => false,
        };
        if same {
            return EditApply::Unchanged;
        }
        let updated = Task {
            id: t.id,
            text: t.text.clone(),
            date: Some(d),
            done: t.done,
        };
        self.tasks.set(idx, updated);
        proof {
            assert(self.tasks@ == pre.update(idx as int, updated));
            assert(tasks_wf(self.tasks@)) by {
                assert(forall|j: int|
                    0 <= j < pre.len() && j != idx as int ==> #[trigger] self.tasks@[j]
                        == pre[j]);
                assert(self.tasks@[idx as int].id == pre[idx as int].id);
            }
        }
        EditApply::Edited
    }
}

} // verus!
