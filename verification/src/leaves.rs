use vstd::prelude::*;
use vstd::seq_lib::*;

use crate::models::Task;
use crate::ordering::{sort_tasks, tasks_newest_first};

verus! {

/// An open leaf: an open task that no *open* task of the set names as its
/// parent. A task whose children are all closed still counts; a closed
/// task never does, childless or not.
pub open spec fn is_open_leaf(s: Seq<Task>, t: Task) -> bool {
    t.open && !(exists|k: int|
        0 <= k < s.len() && (#[trigger] s[k]).parent_id == Some(t.id) && s[k].open)
}

/// The open-leaf predicate as one function value.
pub open spec fn leaf_pred(s: Seq<Task>) -> spec_fn(Task) -> bool {
    |t: Task| is_open_leaf(s, t)
}

fn has_open_child(tasks: &Vec<Task>, id: i32) -> (r: bool)
    ensures
        r == exists|k: int|
            0 <= k < tasks@.len() && (#[trigger] tasks@[k]).parent_id == Some(id)
                && tasks@[k].open,
{
    let mut i: usize = 0;
    while i < tasks.len()
        invariant
            i <= tasks@.len(),
            forall|k: int|
                0 <= k < i ==> !((#[trigger] tasks@[k]).parent_id == Some(id) && tasks@[k].open),
        decreases tasks@.len() - i,
    {
        let is_child = match tasks[i].parent_id {
            Some(p) => p == id,
            None => false,
        };
        if is_child && tasks[i].open {
            return true;
        }
        i = i + 1;
    }
    false
}

/// The open leaves of the task set, newest first: exactly those tasks
/// that are open and have no open child.
pub fn open_leaves(tasks: &Vec<Task>) -> (r: Vec<Task>)
    ensures
        r@.to_multiset() == tasks@.filter(leaf_pred(tasks@)).to_multiset(),
        tasks_newest_first(r@),
{
    let ghost s = tasks@;
    let mut picked: Vec<Task> = Vec::new();
    let mut i: usize = 0;
    while i < tasks.len()
        invariant
            i <= tasks@.len(),
            s == tasks@,
            picked@ == s.take(i as int).filter(leaf_pred(s)),
        decreases tasks@.len() - i,
    {
        let t = &tasks[i];
        let qualifies = t.open && !has_open_child(tasks, t.id);
        proof {
            assert(s.take(i + 1) =~= s.take(i as int).push(s[i as int]));
            s.take(i as int).lemma_filter_push(s[i as int], leaf_pred(s));
            assert(qualifies == leaf_pred(s)(s[i as int]));
        }
        if qualifies {
            picked.push(t.clone());
        }
        i = i + 1;
    }
    proof {
        assert(s.take(s.len() as int) =~= s);
    }
    sort_tasks(picked)
}

} // verus!
