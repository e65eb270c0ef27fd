use vstd::prelude::*;
use vstd::seq_lib::*;

use crate::models::{Note, Review, Task};
use crate::ordering::{reviews_ordered, sort_reviews};

verus! {

/// One task header of the grouped review display, with every review row
/// that belongs under it.
pub struct ReviewGroup {
    pub task_id: i32,
    pub task_title: String,
    pub open: bool,
    pub rows: Vec<Review>,
}

/// The start of the trailing window: `days` whole days before `now`.
pub open spec fn window_start(now: int, days: int) -> int {
    now - days * 86400
}

/// Notes of task `id` whose start time falls inside the window.
pub open spec fn recent_pred(id: i32, ws: int) -> spec_fn(Note) -> bool {
    |n: Note| n.task_id == id && n.date_start > ws
}

/// The review row joining a task with one of its notes.
pub open spec fn spec_review_row(t: Task, n: Note) -> Review {
    Review {
        task_id: t.id,
        task_title: t.title,
        open: t.open,
        note_id: n.id,
        note_body: n.body,
        last_updated: n.date_start,
    }
}

/// The row builder for one task, as a function value.
pub open spec fn row_fn(t: Task) -> spec_fn(Note) -> Review {
    |n: Note| spec_review_row(t, n)
}

/// All review rows of one task: its in-window notes, joined.
pub open spec fn spec_rows_for(t: Task, notes: Seq<Note>, ws: int) -> Seq<Review> {
    notes.filter(recent_pred(t.id, ws)).map_values(row_fn(t))
}

/// Every (task, in-window note) pair of the join, tasks in input order.
pub open spec fn spec_review_rows(tasks: Seq<Task>, notes: Seq<Note>, ws: int) -> Seq<Review>
    decreases tasks.len(),
{
    if tasks.len() == 0 {
        Seq::empty()
    } else {
        spec_review_rows(tasks.drop_last(), notes, ws) + spec_rows_for(tasks.last(), notes, ws)
    }
}

/// Every (task, note) pair whose note started within the trailing window
/// of `days` days before `now`, ordered by task id descending, note id
/// descending, then start time descending.
pub fn find_recently_updated(tasks: &Vec<Task>, notes: &Vec<Note>, now: i64, days: i32) -> (r: Vec<
    Review,
>)
    ensures
        r@.to_multiset() == spec_review_rows(
            tasks@,
            notes@,
            window_start(now as int, days as int),
        ).to_multiset(),
        reviews_ordered(r@),
{
    let ghost ws = window_start(now as int, days as int);
    let ws_exec: i128 = now as i128 - (days as i128) * 86400;
    let mut picked: Vec<Review> = Vec::new();
    let mut i: usize = 0;
    while i < tasks.len()
        invariant
            i <= tasks@.len(),
            ws_exec == ws,
            picked@ == spec_review_rows(tasks@.take(i as int), notes@, ws),
        decreases tasks@.len() - i,
    {
        let ghost t = tasks@[i as int];
        let ghost rows0 = picked@;
        let mut j: usize = 0;
        while j < notes.len()
            invariant
                j <= notes@.len(),
                ws_exec == ws,
                t == tasks@[i as int],
                i < tasks@.len(),
                picked@ == rows0 + notes@.take(j as int).filter(recent_pred(t.id, ws)).map_values(
                    row_fn(t),
                ),
            decreases notes@.len() - j,
        {
            let n = &notes[j];
            let in_window = n.task_id == tasks[i].id && (n.date_start as i128) > ws_exec;
            proof {
                assert(notes@.take(j + 1) =~= notes@.take(j as int).push(notes@[j as int]));
                notes@.take(j as int).lemma_filter_push(notes@[j as int], recent_pred(t.id, ws));
                assert(in_window == recent_pred(t.id, ws)(notes@[j as int]));
            }
            if in_window {
                let row = Review {
                    task_id: tasks[i].id,
                    task_title: tasks[i].title.clone(),
                    open: tasks[i].open,
                    note_id: n.id,
                    note_body: n.body.clone(),
                    last_updated: n.date_start,
                };
                proof {
                    assert(row == spec_review_row(t, notes@[j as int]));
                }
                picked.push(row);
                proof {
                    let fl = notes@.take(j as int).filter(recent_pred(t.id, ws));
                    assert(fl.push(notes@[j as int]).map_values(row_fn(t)) =~= fl.map_values(
                        row_fn(t),
                    ).push(spec_review_row(t, notes@[j as int])));
                    assert(rows0 + fl.map_values(row_fn(t)).push(
                        spec_review_row(t, notes@[j as int]),
                    ) =~= (rows0 + fl.map_values(row_fn(t))).push(
                        spec_review_row(t, notes@[j as int]),
                    ));
                }
            }
            j = j + 1;
        }
        proof {
            assert(notes@.take(notes@.len() as int) =~= notes@);
            assert(tasks@.take(i + 1).drop_last() =~= tasks@.take(i as int));
            assert(tasks@.take(i + 1).last() == tasks@[i as int]);
        }
        i = i + 1;
    }
    proof {
        assert(tasks@.take(tasks@.len() as int) =~= tasks@);
    }
    sort_reviews(picked)
}

/// The group rows, in display order, laid end to end.
pub open spec fn flattened_rows(gs: Seq<ReviewGroup>) -> Seq<Review>
    decreases gs.len(),
{
    if gs.len() == 0 {
        Seq::empty()
    } else {
        flattened_rows(gs.drop_last()) + gs.last().rows@
    }
}

/// A group is headed by its first row and holds rows of one task only.
pub open spec fn group_well_formed(g: ReviewGroup) -> bool {
    g.rows@.len() > 0 && g.task_id == g.rows@[0].task_id && g.task_title == g.rows@[0].task_title
        && g.open == g.rows@[0].open && forall|k: int|
        0 <= k < g.rows@.len() ==> (#[trigger] g.rows@[k]).task_id == g.task_id
}

/// Sorts the review rows and groups consecutive rows of one task under a
/// single header: an explicit sort-then-group pipeline, so mis-sorted
/// input cannot silently mis-group. The groups, laid end to end, hold
/// exactly the input rows in display order; each group is non-empty, holds
/// one task's rows, and no two adjacent groups share a task.
pub fn group_reviews(rows: Vec<Review>) -> (gs: Vec<ReviewGroup>)
    ensures
        flattened_rows(gs@).to_multiset() == rows@.to_multiset(),
        reviews_ordered(flattened_rows(gs@)),
        forall|g: int| 0 <= g < gs@.len() ==> group_well_formed(#[trigger] gs@[g]),
        forall|g: int|
            0 <= g < gs@.len() - 1 ==> (#[trigger] gs@[g]).task_id != gs@[g + 1].task_id,
{
    let sorted = sort_reviews(rows);
    let ghost sv = sorted@;
    let mut gs: Vec<ReviewGroup> = Vec::new();
    let mut i: usize = 0;
    while i < sorted.len()
        invariant
            i <= sv.len(),
            sv == sorted@,
            reviews_ordered(sv),
            flattened_rows(gs@) == sv.take(i as int),
            forall|g: int| 0 <= g < gs@.len() ==> group_well_formed(#[trigger] gs@[g]),
            forall|g: int|
                0 <= g < gs@.len() - 1 ==> (#[trigger] gs@[g]).task_id != gs@[g + 1].task_id,
            (i > 0) == (gs@.len() > 0),
            i > 0 ==> gs@.last().task_id == sv[i - 1].task_id,
        decreases sv.len() - i,
    {
        let row = sorted[i].clone();
        let ghost gs0 = gs@;
        let mut start_new = true;
        if gs.len() > 0 {
            let li = gs.len() - 1;
            if gs[li].task_id == row.task_id {
                start_new = false;
            }
        }
        if start_new {
            let g = ReviewGroup {
                task_id: row.task_id,
                task_title: row.task_title.clone(),
                open: row.open,
                rows: vec![row],
            };
            gs.push(g);
            proof {
                assert(gs@.drop_last() =~= gs0);
                assert(gs@.last().rows@ =~= seq![sv[i as int]]);
                assert(sv.take(i as int) + seq![sv[i as int]] =~= sv.take(i + 1));
            }
        } else {
            let li = gs.len() - 1;
            let g = &mut gs[li];
            g.rows.push(row);
            proof {
                assert(gs@.drop_last() =~= gs0.drop_last());
                assert(gs@.last().rows@ =~= gs0.last().rows@.push(sv[i as int]));
                assert(flattened_rows(gs0.drop_last()) + gs0.last().rows@.push(sv[i as int])
                    =~= (flattened_rows(gs0.drop_last()) + gs0.last().rows@).push(sv[i as int]));
                assert(sv.take(i as int).push(sv[i as int]) =~= sv.take(i + 1));
                assert(group_well_formed(gs@[gs@.len() - 1]));
            }
        }
        i = i + 1;
    }
    proof {
        assert(sv.take(sv.len() as int) =~= sv);
    }
    gs
}

} // verus!
