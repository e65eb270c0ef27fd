use vstd::prelude::*;

verus! {

/// A hierarchical to-do item. `parent_id` optionally references another
/// task's id; `open` starts `true` and only ever flips to `false`;
/// `date_created` is a timestamp in whole seconds, assigned once.
pub struct Task {
    pub id: i32,
    pub parent_id: Option<i32>,
    pub title: String,
    pub body: String,
    pub open: bool,
    pub date_created: i64,
}

/// A task together with its accumulated duration: the sum, in seconds, of
/// `date_end - date_start` over all of its notes (0 when it has none).
pub struct TaskAux {
    pub id: i32,
    pub parent_id: Option<i32>,
    pub title: String,
    pub body: String,
    pub open: bool,
    pub date_created: i64,
    pub duration_seconds: i128,
}

/// A timestamped work-log entry attached to exactly one task. `date_end`
/// is expected to be at or after `date_start`, but that is not enforced:
/// a negative duration is a tolerated outcome.
pub struct Note {
    pub id: i32,
    pub task_id: i32,
    pub body: String,
    pub date_start: i64,
    pub date_end: i64,
}

/// A note together with its own duration in seconds, `date_end - date_start`.
pub struct NoteAux {
    pub id: i32,
    pub task_id: i32,
    pub body: String,
    pub date_start: i64,
    pub date_end: i64,
    pub duration_seconds: i128,
}

/// A named, reusable block of pre-fill text.
pub struct Template {
    pub name: String,
    pub body: String,
}

/// One row of the recently-updated review: a (task, note) join restricted
/// to notes whose `date_start` falls within a trailing window.
pub struct Review {
    pub task_id: i32,
    pub task_title: String,
    pub open: bool,
    pub note_id: i32,
    pub note_body: String,
    pub last_updated: i64,
}

impl Clone for Task {
    fn clone(&self) -> (res: Self)
        ensures
            res == *self,
    {
        Task {
            id: self.id,
            parent_id: self.parent_id,
            title: self.title.clone(),
            body: self.body.clone(),
            open: self.open,
            date_created: self.date_created,
        }
    }
}

impl Clone for Note {
    fn clone(&self) -> (res: Self)
        ensures
            res == *self,
    {
        Note {
            id: self.id,
            task_id: self.task_id,
            body: self.body.clone(),
            date_start: self.date_start,
            date_end: self.date_end,
        }
    }
}

impl Clone for Template {
    fn clone(&self) -> (res: Self)
        ensures
            res == *self,
    {
        Template { name: self.name.clone(), body: self.body.clone() }
    }
}

impl Clone for Review {
    fn clone(&self) -> (res: Self)
        ensures
            res == *self,
    {
        Review {
            task_id: self.task_id,
            task_title: self.task_title.clone(),
            open: self.open,
            note_id: self.note_id,
            note_body: self.note_body.clone(),
            last_updated: self.last_updated,
        }
    }
}

/// Position of the task carrying the given id, if present (first match).
pub fn find_task_index(tasks: &Vec<Task>, id: i32) -> (r: Option<usize>)
    ensures
        match r {
            Some(k) => k < tasks@.len() && tasks@[k as int].id == id,
            None => forall|k: int| 0 <= k < tasks@.len() ==> tasks@[k].id != id,
        },
{
    let mut i: usize = 0;
    while i < tasks.len()
        invariant
            i <= tasks@.len(),
            forall|k: int| 0 <= k < i ==> tasks@[k].id != id,
        decreases tasks@.len() - i,
    {
        if tasks[i].id == id {
            return Some(i);
        }
        i = i + 1;
    }
    None
}

impl Task {
    /// A fresh, not-yet-stored task: no id assigned yet, open by default.
    pub fn new(parent_id: Option<i32>, title: &str, body: &str, date_created: i64) -> (t: Task)
        ensures
            t.id == 0,
            t.parent_id == parent_id,
            t.title@ == title@,
            t.body@ == body@,
            t.open,
            t.date_created == date_created,
    {
        Task {
            id: 0,
            parent_id,
            title: title.to_owned(),
            body: body.to_owned(),
            open: true,
            date_created,
        }
    }
}

} // verus!
