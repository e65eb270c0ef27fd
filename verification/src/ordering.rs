use vstd::prelude::*;
use vstd::seq_lib::*;

use crate::models::{Note, Review, Task};

verus! {

/// Tasks newest first: creation time descending, ties broken by id
/// descending (of two tasks created in the same second, the later id
/// comes first).
pub open spec fn newest_first(a: Task, b: Task) -> bool {
    a.date_created > b.date_created || (a.date_created == b.date_created && a.id >= b.id)
}

pub open spec fn tasks_newest_first(s: Seq<Task>) -> bool {
    forall|i: int, j: int| 0 <= i < j < s.len() ==> #[trigger] newest_first(s[i], s[j])
}

/// Notes by start time ascending, ties broken by id ascending.
pub open spec fn starts_earlier(a: Note, b: Note) -> bool {
    a.date_start < b.date_start || (a.date_start == b.date_start && a.id <= b.id)
}

pub open spec fn notes_by_start(s: Seq<Note>) -> bool {
    forall|i: int, j: int| 0 <= i < j < s.len() ==> #[trigger] starts_earlier(s[i], s[j])
}

/// Review rows by task id descending, then note id descending, then
/// timestamp descending.
pub open spec fn review_before(a: Review, b: Review) -> bool {
    a.task_id > b.task_id || (a.task_id == b.task_id && (a.note_id > b.note_id || (a.note_id
        == b.note_id && a.last_updated >= b.last_updated)))
}

pub open spec fn reviews_ordered(s: Seq<Review>) -> bool {
    forall|i: int, j: int| 0 <= i < j < s.len() ==> #[trigger] review_before(s[i], s[j])
}

/// Inserting into a sequence adds one copy of the element to its contents.
proof fn lemma_insert_multiset<T>(s: Seq<T>, i: int, e: T)
    requires
        0 <= i <= s.len(),
    ensures
        s.insert(i, e).to_multiset() == s.to_multiset().insert(e),
{
    broadcast use group_to_multiset_ensures;

    let a = s.take(i);
    let b = s.skip(i);
    assert(s =~= a + b);
    assert(s.insert(i, e) =~= a + (seq![e] + b));
    lemma_multiset_commutative(a, b);
    lemma_multiset_commutative(a, seq![e] + b);
    lemma_multiset_commutative(seq![e], b);
    assert(seq![e] =~= Seq::<T>::empty().push(e));
    assert(s.insert(i, e).to_multiset() =~= s.to_multiset().insert(e));
}

#[verifier::rlimit(50)]
fn insert_task_sorted(sorted: &mut Vec<Task>, t: Task)
    requires
        tasks_newest_first(old(sorted)@),
    ensures
        tasks_newest_first(final(sorted)@),
        final(sorted)@.to_multiset() == old(sorted)@.to_multiset().insert(t),
{
    let ghost s0 = sorted@;
    let mut idx: usize = 0;
    while idx < sorted.len() && task_precedes(&sorted[idx], &t)
        invariant
            idx <= sorted@.len(),
            sorted@ == s0,
            forall|w: int| 0 <= w < idx ==> #[trigger] newest_first(sorted@[w], t),
        decreases sorted@.len() - idx,
    {
        idx = idx + 1;
    }
    proof {
        s0.insert_ensures(idx as int, t);
    }
    sorted.insert(idx, t);
    proof {
        lemma_insert_multiset(s0, idx as int, t);
        let r = sorted@;
        assert forall|i: int, j: int| 0 <= i < j < r.len() implies #[trigger] newest_first(
            r[i],
            r[j],
        ) by {
            assert(forall|w: int| 0 <= w < idx ==> r[w] == s0[w]);
            assert(forall|w: int| idx < w < r.len() ==> r[w] == s0[w - 1]);
            if i < idx && j < idx {
                assert(newest_first(s0[i], s0[j]));
            } else if i < idx && j == idx {
            } else if i < idx && j > idx {
                assert(newest_first(s0[i], s0[j - 1]));
            } else if i == idx && j > idx {
                if j == idx + 1 {
                } else {
                    assert(newest_first(s0[idx as int], s0[j - 1]));
                }
            } else if i > idx {
                assert(newest_first(s0[i - 1], s0[j - 1]));
            }
        }
    }
}

fn task_precedes(a: &Task, b: &Task) -> (r: bool)
    ensures
        r == newest_first(*a, *b),
{
    a.date_created > b.date_created || (a.date_created == b.date_created && a.id >= b.id)
}

/// Sorts tasks newest first; the result holds exactly the input tasks.
pub fn sort_tasks(tasks: Vec<Task>) -> (r: Vec<Task>)
    ensures
        tasks_newest_first(r@),
        r@.to_multiset() == tasks@.to_multiset(),
{
    broadcast use group_to_multiset_ensures;

    let mut r: Vec<Task> = Vec::new();
    let mut i: usize = 0;
    while i < tasks.len()
        invariant
            i <= tasks@.len(),
            tasks_newest_first(r@),
            r@.to_multiset() == tasks@.take(i as int).to_multiset(),
        decreases tasks@.len() - i,
    {
        proof {
            broadcast use group_to_multiset_ensures;

            assert(tasks@.take(i + 1).drop_last() =~= tasks@.take(i as int));
            assert(tasks@.take(i + 1) =~= tasks@.take(i as int).push(tasks@[i as int]));
            assert(tasks@.take(i as int).push(tasks@[i as int]).to_multiset() == tasks@.take(
                i as int,
            ).to_multiset().insert(tasks@[i as int]));
        }
        insert_task_sorted(&mut r, tasks[i].clone());
        i = i + 1;
    }
    proof {
        assert(tasks@.take(tasks@.len() as int) =~= tasks@);
    }
    r
}

#[verifier::rlimit(50)]
fn insert_note_sorted(sorted: &mut Vec<Note>, t: Note)
    requires
        notes_by_start(old(sorted)@),
    ensures
        notes_by_start(final(sorted)@),
        final(sorted)@.to_multiset() == old(sorted)@.to_multiset().insert(t),
{
    let ghost s0 = sorted@;
    let mut idx: usize = 0;
    while idx < sorted.len() && note_precedes(&sorted[idx], &t)
        invariant
            idx <= sorted@.len(),
            sorted@ == s0,
            forall|w: int| 0 <= w < idx ==> #[trigger] starts_earlier(sorted@[w], t),
        decreases sorted@.len() - idx,
    {
        idx = idx + 1;
    }
    proof {
        s0.insert_ensures(idx as int, t);
    }
    sorted.insert(idx, t);
    proof {
        lemma_insert_multiset(s0, idx as int, t);
        let r = sorted@;
        assert forall|i: int, j: int| 0 <= i < j < r.len() implies #[trigger] starts_earlier(
            r[i],
            r[j],
        ) by {
            assert(forall|w: int| 0 <= w < idx ==> r[w] == s0[w]);
            assert(forall|w: int| idx < w < r.len() ==> r[w] == s0[w - 1]);
            if i < idx && j < idx {
                assert(starts_earlier(s0[i], s0[j]));
            } else if i < idx && j > idx {
                assert(starts_earlier(s0[i], s0[j - 1]));
            } else if i == idx && j > idx {
                if j > idx + 1 {
                    assert(starts_earlier(s0[idx as int], s0[j - 1]));
                }
            } else if i > idx {
                assert(starts_earlier(s0[i - 1], s0[j - 1]));
            }
        }
    }
}

fn note_precedes(a: &Note, b: &Note) -> (r: bool)
    ensures
        r == starts_earlier(*a, *b),
{
    a.date_start < b.date_start || (a.date_start == b.date_start && a.id <= b.id)
}

/// Sorts notes by start time ascending; the result holds exactly the
/// input notes.
pub fn sort_notes(notes: Vec<Note>) -> (r: Vec<Note>)
    ensures
        notes_by_start(r@),
        r@.to_multiset() == notes@.to_multiset(),
{
    broadcast use group_to_multiset_ensures;

    let mut r: Vec<Note> = Vec::new();
    let mut i: usize = 0;
    while i < notes.len()
        invariant
            i <= notes@.len(),
            notes_by_start(r@),
            r@.to_multiset() == notes@.take(i as int).to_multiset(),
        decreases notes@.len() - i,
    {
        proof {
            broadcast use group_to_multiset_ensures;

            assert(notes@.take(i + 1).drop_last() =~= notes@.take(i as int));
            assert(notes@.take(i + 1) =~= notes@.take(i as int).push(notes@[i as int]));
            assert(notes@.take(i as int).push(notes@[i as int]).to_multiset() == notes@.take(
                i as int,
            ).to_multiset().insert(notes@[i as int]));
        }
        insert_note_sorted(&mut r, notes[i].clone());
        i = i + 1;
    }
    proof {
        assert(notes@.take(notes@.len() as int) =~= notes@);
    }
    r
}

#[verifier::rlimit(50)]
fn insert_review_sorted(sorted: &mut Vec<Review>, t: Review)
    requires
        reviews_ordered(old(sorted)@),
    ensures
        reviews_ordered(final(sorted)@),
        final(sorted)@.to_multiset() == old(sorted)@.to_multiset().insert(t),
{
    let ghost s0 = sorted@;
    let mut idx: usize = 0;
    while idx < sorted.len() && review_precedes(&sorted[idx], &t)
        invariant
            idx <= sorted@.len(),
            sorted@ == s0,
            forall|w: int| 0 <= w < idx ==> #[trigger] review_before(sorted@[w], t),
        decreases sorted@.len() - idx,
    {
        idx = idx + 1;
    }
    proof {
        s0.insert_ensures(idx as int, t);
    }
    sorted.insert(idx, t);
    proof {
        lemma_insert_multiset(s0, idx as int, t);
        let r = sorted@;
        assert forall|i: int, j: int| 0 <= i < j < r.len() implies #[trigger] review_before(
            r[i],
            r[j],
        ) by {
            assert(forall|w: int| 0 <= w < idx ==> r[w] == s0[w]);
            assert(forall|w: int| idx < w < r.len() ==> r[w] == s0[w - 1]);
            if i < idx && j < idx {
                assert(review_before(s0[i], s0[j]));
            } else if i < idx && j > idx {
                assert(review_before(s0[i], s0[j - 1]));
            } else if i == idx && j > idx {
                if j > idx + 1 {
                    assert(review_before(s0[idx as int], s0[j - 1]));
                }
            } else if i > idx {
                assert(review_before(s0[i - 1], s0[j - 1]));
            }
        }
    }
}

fn review_precedes(a: &Review, b: &Review) -> (r: bool)
    ensures
        r == review_before(*a, *b),
{
    a.task_id > b.task_id || (a.task_id == b.task_id && (a.note_id > b.note_id || (a.note_id
        == b.note_id && a.last_updated >= b.last_updated)))
}

/// Sorts review rows by task id, note id and timestamp, all descending;
/// the result holds exactly the input rows.
pub fn sort_reviews(reviews: Vec<Review>) -> (r: Vec<Review>)
    ensures
        reviews_ordered(r@),
        r@.to_multiset() == reviews@.to_multiset(),
{
    broadcast use group_to_multiset_ensures;

    let mut r: Vec<Review> = Vec::new();
    let mut i: usize = 0;
    while i < reviews.len()
        invariant
            i <= reviews@.len(),
            reviews_ordered(r@),
            r@.to_multiset() == reviews@.take(i as int).to_multiset(),
        decreases reviews@.len() - i,
    {
        proof {
            broadcast use group_to_multiset_ensures;

            assert(reviews@.take(i + 1).drop_last() =~= reviews@.take(i as int));
            assert(reviews@.take(i + 1) =~= reviews@.take(i as int).push(reviews@[i as int]));
            assert(reviews@.take(i as int).push(reviews@[i as int]).to_multiset() == reviews@.take(
                i as int,
            ).to_multiset().insert(reviews@[i as int]));
        }
        insert_review_sorted(&mut r, reviews[i].clone());
        i = i + 1;
    }
    proof {
        assert(reviews@.take(reviews@.len() as int) =~= reviews@);
    }
    r
}

} // verus!
