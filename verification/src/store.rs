use vstd::prelude::*;
use vstd::seq_lib::*;
use vstd::string::StringExecFns;

use crate::duration::{spec_sum_durations, note_duration_seconds, task_duration_seconds};
use crate::hierarchy::{index_seq, is_ancestor, is_child_of, tree_input_wf};
use crate::models::{find_task_index, Note, NoteAux, Review, Task, TaskAux, Template};
use crate::ordering::{notes_by_start, sort_notes, tasks_newest_first, sort_tasks};
use crate::Error;

verus! {

/// The in-memory record store: tasks, notes and templates, plus the id
/// counters that play the role of serial columns. Tasks and notes sit in
/// creation order, so their ids increase along each vector; a task's
/// parent always exists and always carries a smaller id, because it had to
/// exist already when the child was created.
pub struct Store {
    pub tasks: Vec<Task>,
    pub notes: Vec<Note>,
    pub templates: Vec<Template>,
    pub next_task_id: i32,
    pub next_note_id: i32,
}

/// The parent reference of the task at `k`, if any, resolves to a task of
/// the store with a strictly smaller id.
pub open spec fn parent_resolves(ts: Seq<Task>, k: int) -> bool {
    match ts[k].parent_id {
        Some(p) => exists|w: int|
            0 <= w < ts.len() && (#[trigger] ts[w]).id == p && p < ts[k].id,
        None => true,
    }
}

pub open spec fn tasks_wf(s: Store) -> bool {
    &&& forall|k: int|
        0 <= k < s.tasks@.len() ==> 1 <= (#[trigger] s.tasks@[k]).id < s.next_task_id
    &&& forall|i: int, j: int|
        0 <= i < j < s.tasks@.len() ==> s.tasks@[i].id < s.tasks@[j].id
    &&& forall|k: int| 0 <= k < s.tasks@.len() ==> parent_resolves(s.tasks@, k)
    &&& forall|k: int| 0 <= k < s.tasks@.len() ==> (#[trigger] s.tasks@[k]).title@.len() > 0
}

/// The note belongs to a task that the store holds.
pub open spec fn note_resolves(ts: Seq<Task>, n: Note) -> bool {
    exists|w: int| 0 <= w < ts.len() && (#[trigger] ts[w]).id == n.task_id
}

pub open spec fn notes_wf(s: Store) -> bool {
    &&& forall|k: int|
        0 <= k < s.notes@.len() ==> 1 <= (#[trigger] s.notes@[k]).id < s.next_note_id
    &&& forall|i: int, j: int|
        0 <= i < j < s.notes@.len() ==> s.notes@[i].id < s.notes@[j].id
    &&& forall|k: int|
        0 <= k < s.notes@.len() ==> #[trigger] note_resolves(s.tasks@, s.notes@[k])
}

/// `a` comes at or before `b` in dictionary order.
pub open spec fn lex_le(a: Seq<char>, b: Seq<char>) -> bool
    decreases a.len(),
{
    if a.len() == 0 {
        true
    } else if b.len() == 0 {
        false
    } else if a[0] < b[0] {
        true
    } else if b[0] < a[0] {
        false
    } else {
        lex_le(a.skip(1), b.skip(1))
    }
}

pub open spec fn templates_wf(s: Store) -> bool {
    forall|i: int, j: int|
        0 <= i < j < s.templates@.len() ==> lex_le(
            (#[trigger] s.templates@[i]).name@,
            (#[trigger] s.templates@[j]).name@,
        ) && s.templates@[i].name@ != s.templates@[j].name@
}

/// The store's well-formedness: every constructor establishes it, every
/// operation preserves it.
pub open spec fn store_wf(s: Store) -> bool {
    &&& tasks_wf(s)
    &&& notes_wf(s)
    &&& templates_wf(s)
    &&& 1 <= s.next_task_id <= i32::MAX
    &&& 1 <= s.next_note_id <= i32::MAX
}

/// A well-formed store's task list is fit for the tree builder: ids are
/// unique and strictly grow from parent to child.
pub proof fn lemma_store_tree_input(s: Store)
    requires
        store_wf(s),
    ensures
        tree_input_wf(s.tasks@),
{
    let ts = s.tasks@;
    assert forall|c: int, p: int|
        0 <= c < ts.len() && 0 <= p < ts.len() && #[trigger] is_child_of(ts, c, p) implies ts[p].id
        < ts[c].id by {
        assert(parent_resolves(ts, c));
        let w = choose|w: int|
            0 <= w < ts.len() && (#[trigger] ts[w]).id == ts[p].id && ts[w].id < ts[c].id;
        if w < p {
            assert(ts[w].id < ts[p].id);
        } else if p < w {
            assert(ts[p].id < ts[w].id);
        }
    }
}

/// Positive, strictly increasing ids force the id at `k` to be at least
/// `k + 1`.
proof fn lemma_task_index_lt_id(ts: Seq<Task>, k: int)
    requires
        forall|i: int, j: int| 0 <= i < j < ts.len() ==> ts[i].id < ts[j].id,
        forall|i: int| 0 <= i < ts.len() ==> 1 <= (#[trigger] ts[i]).id,
        0 <= k < ts.len(),
    ensures
        ts[k].id >= k + 1,
    decreases k,
{
    if k > 0 {
        lemma_task_index_lt_id(ts, k - 1);
    }
}

proof fn lemma_note_index_lt_id(ns: Seq<Note>, k: int)
    requires
        forall|i: int, j: int| 0 <= i < j < ns.len() ==> ns[i].id < ns[j].id,
        forall|i: int| 0 <= i < ns.len() ==> 1 <= (#[trigger] ns[i]).id,
        0 <= k < ns.len(),
    ensures
        ns[k].id >= k + 1,
    decreases k,
{
    if k > 0 {
        lemma_note_index_lt_id(ns, k - 1);
    }
}

/// A well-formed store holds fewer notes (and tasks) than there are ids.
pub proof fn lemma_store_counts(s: Store)
    requires
        store_wf(s),
    ensures
        s.tasks@.len() <= 0x7fff_fffe,
        s.notes@.len() <= 0x7fff_fffe,
{
    if s.tasks@.len() > 0x7fff_fffe {
        lemma_task_index_lt_id(s.tasks@, 0x7fff_fffe);
    }
    if s.notes@.len() > 0x7fff_fffe {
        lemma_note_index_lt_id(s.notes@, 0x7fff_fffe);
    }
}

impl Store {
    /// A fresh, empty store.
    pub fn new() -> (s: Store)
        ensures
            store_wf(s),
            s.tasks@.len() == 0,
            s.notes@.len() == 0,
            s.templates@.len() == 0,
            s.next_task_id == 1,
            s.next_note_id == 1,
    {
        Store {
            tasks: Vec::new(),
            notes: Vec::new(),
            templates: Vec::new(),
            next_task_id: 1,
            next_note_id: 1,
        }
    }
}

/// The notes that belong to the task with the given id.
pub open spec fn task_notes_pred(id: i32) -> spec_fn(Note) -> bool {
    |n: Note| n.task_id == id
}

fn cloned_tasks(v: &Vec<Task>) -> (r: Vec<Task>)
    ensures
        r@ == v@,
{
    let mut r: Vec<Task> = Vec::new();
    let mut i: usize = 0;
    while i < v.len()
        invariant
            i <= v@.len(),
            r@ == v@.take(i as int),
        decreases v@.len() - i,
    {
        r.push(v[i].clone());
        proof {
            assert(v@.take(i + 1) =~= v@.take(i as int).push(v@[i as int]));
        }
        i = i + 1;
    }
    proof {
        assert(v@.take(v@.len() as int) =~= v@);
    }
    r
}

impl Task {
    /// Stores this prototype as a new task: a fresh id is assigned, the
    /// open flag starts true whatever the prototype held. The parent, if
    /// named, must already exist — which is what keeps every stored task's
    /// parent id smaller than its own and the tree free of cycles.
    /// `NotFound` when the named parent is absent; `StoreFailure` when the
    /// id space is exhausted. On any error the store is untouched.
    pub fn create(self, store: &mut Store) -> (r: Result<i32, Error>)
        requires
            store_wf(*old(store)),
            self.title@.len() > 0,
        ensures
            store_wf(*final(store)),
            match r {
                Ok(id) => {
                    &&& id == old(store).next_task_id
                    &&& final(store).tasks@ == old(store).tasks@.push(
                        (Task {
                            id,
                            parent_id: self.parent_id,
                            title: self.title,
                            body: self.body,
                            open: true,
                            date_created: self.date_created,
                        }),
                    )
                    &&& final(store).next_task_id == old(store).next_task_id + 1
                    &&& final(store).notes@ == old(store).notes@
                    &&& final(store).templates@ == old(store).templates@
                    &&& final(store).next_note_id == old(store).next_note_id
                    &&& (self.parent_id matches Some(p) ==> exists|w: int|
                        0 <= w < old(store).tasks@.len() && (#[trigger] old(
                            store,
                        ).tasks@[w]).id == p)
                },
                Err(e) => {
                    &&& *final(store) == *old(store)
                    &&& (e == Error::NotFound <==> (self.parent_id matches Some(p)
                        && !(exists|w: int|
                        0 <= w < old(store).tasks@.len() && (#[trigger] old(
                            store,
                        ).tasks@[w]).id == p)))
                    &&& (e == Error::StoreFailure <==> (match self.parent_id {
                        Some(p) => exists|w: int|
                            0 <= w < old(store).tasks@.len() && (#[trigger] old(
                                store,
                            ).tasks@[w]).id == p,
                        None => true,
                    } && old(store).next_task_id == i32::MAX))
                },
            },
            r is Ok <==> (match self.parent_id {
                Some(p) => exists|w: int|
                    0 <= w < old(store).tasks@.len() && (#[trigger] old(store).tasks@[w]).id == p,
                None => true,
            } && old(store).next_task_id < i32::MAX),
    {
        match self.parent_id {
            Some(p) => {
                if find_task_index(&store.tasks, p).is_none() {
                    return Err(Error::NotFound);
                }
            },
            None => {},
        }
        if store.next_task_id == i32::MAX {
            return Err(Error::StoreFailure);
        }
        let id = store.next_task_id;
        let t = Task {
            id,
            parent_id: self.parent_id,
            title: self.title,
            body: self.body,
            open: true,
            date_created: self.date_created,
        };
        store.tasks.push(t);
        store.next_task_id = id + 1;
        proof {
            let ts = store.tasks@;
            assert forall|k: int| 0 <= k < ts.len() implies parent_resolves(ts, k) by {
                if k < ts.len() - 1 {
                    assert(parent_resolves(old(store).tasks@, k));
                    match old(store).tasks@[k].parent_id {
                        Some(q) => {
                            let w = choose|w: int|
                                0 <= w < old(store).tasks@.len() && (#[trigger] old(
                                    store,
                                ).tasks@[w]).id == q && q < old(store).tasks@[k].id;
                            assert(ts[w].id == q && q < ts[k].id);
                        },
                        None => {},
                    }
                } else {
                    match ts[k].parent_id {
                        Some(q) => {
                            let w = choose|w: int|
                                0 <= w < old(store).tasks@.len() && (#[trigger] old(
                                    store,
                                ).tasks@[w]).id == q;
                            assert(ts[w].id == q && q < ts[k].id);
                        },
                        None => {},
                    }
                }
            }
            assert forall|k: int| 0 <= k < store.notes@.len() implies #[trigger] note_resolves(
                store.tasks@,
                store.notes@[k],
            ) by {
                assert(note_resolves(old(store).tasks@, old(store).notes@[k]));
                let w = choose|w: int|
                    0 <= w < old(store).tasks@.len() && (#[trigger] old(store).tasks@[w]).id == (
                    old(store).notes@[k]).task_id;
                assert(0 <= w < store.tasks@.len() && store.tasks@[w].id
                    == store.notes@[k].task_id);
            }
        }
        Ok(id)
    }

    /// The task carrying the given id, if it is stored.
    pub fn find(store: &Store, id: i32) -> (r: Option<Task>)
        ensures
            match r {
                Some(t) => exists|k: int|
                    0 <= k < store.tasks@.len() && (#[trigger] store.tasks@[k]).id == id && t
                        == store.tasks@[k],
                None => forall|k: int|
                    0 <= k < store.tasks@.len() ==> (#[trigger] store.tasks@[k]).id != id,
            },
    {
        match find_task_index(&store.tasks, id) {
            Some(k) => Some(store.tasks[k].clone()),
            None => None,
        }
    }

    /// Every stored task, newest first.
    pub fn all(store: &Store) -> (r: Vec<Task>)
        ensures
            r@.to_multiset() == store.tasks@.to_multiset(),
            tasks_newest_first(r@),
    {
        sort_tasks(cloned_tasks(&store.tasks))
    }

    /// The notes of the task with the given id, earliest start first. A
    /// task id nobody carries simply has no notes.
    pub fn find_notes(store: &Store, id: i32) -> (r: Vec<Note>)
        ensures
            r@.to_multiset() == store.notes@.filter(task_notes_pred(id)).to_multiset(),
            notes_by_start(r@),
    {
        let ghost ns = store.notes@;
        let mut picked: Vec<Note> = Vec::new();
        let mut i: usize = 0;
        while i < store.notes.len()
            invariant
                i <= ns.len(),
                ns == store.notes@,
                picked@ == ns.take(i as int).filter(task_notes_pred(id)),
            decreases ns.len() - i,
        {
            proof {
                assert(ns.take(i + 1) =~= ns.take(i as int).push(ns[i as int]));
                ns.take(i as int).lemma_filter_push(ns[i as int], task_notes_pred(id));
            }
            if store.notes[i].task_id == id {
                picked.push(store.notes[i].clone());
            }
            i = i + 1;
        }
        proof {
            assert(ns.take(ns.len() as int) =~= ns);
        }
        sort_notes(picked)
    }

    /// The notes belonging to `self`, earliest start first.
    pub fn notes(self, store: &Store) -> (r: Vec<Note>)
        ensures
            r@.to_multiset() == store.notes@.filter(task_notes_pred(self.id)).to_multiset(),
            notes_by_start(r@),
    {
        Self::find_notes(store, self.id)
    }

    /// The task with the given id together with its accumulated duration:
    /// the exact sum of `date_end - date_start` over its notes, negative
    /// contributions included, 0 when it has none.
    pub fn find_aux(store: &Store, id: i32) -> (r: Option<TaskAux>)
        requires
            store_wf(*store),
        ensures
            match r {
                Some(a) => {
                    &&& exists|k: int|
                        0 <= k < store.tasks@.len() && (#[trigger] store.tasks@[k]).id == id
                            && task_aux_matches(a, store.tasks@[k])
                    &&& a.duration_seconds == spec_sum_durations(
                        store.notes@.filter(task_notes_pred(id)),
                    )
                },
                None => forall|k: int|
                    0 <= k < store.tasks@.len() ==> (#[trigger] store.tasks@[k]).id != id,
            },
    {
        match find_task_index(&store.tasks, id) {
            None => None,
            Some(k) => {
                let ghost ns = store.notes@;
                let mut picked: Vec<Note> = Vec::new();
                let mut i: usize = 0;
                while i < store.notes.len()
                    invariant
                        i <= ns.len(),
                        ns == store.notes@,
                        picked@ == ns.take(i as int).filter(task_notes_pred(id)),
                    decreases ns.len() - i,
                {
                    proof {
                        assert(ns.take(i + 1) =~= ns.take(i as int).push(ns[i as int]));
                        ns.take(i as int).lemma_filter_push(ns[i as int], task_notes_pred(id));
                    }
                    if store.notes[i].task_id == id {
                        picked.push(store.notes[i].clone());
                    }
                    i = i + 1;
                }
                proof {
                    assert(ns.take(ns.len() as int) =~= ns);
                    lemma_store_counts(*store);
                    ns.lemma_filter_len(task_notes_pred(id));
                }
                let d = task_duration_seconds(&picked);
                let t = &store.tasks[k];
                Some(
                    TaskAux {
                        id: t.id,
                        parent_id: t.parent_id,
                        title: t.title.clone(),
                        body: t.body.clone(),
                        open: t.open,
                        date_created: t.date_created,
                        duration_seconds: d,
                    },
                )
            },
        }
    }

    /// The notes of the task, earliest start first, each together with its
    /// own duration `date_end - date_start`.
    pub fn find_notes_aux(store: &Store, id: i32) -> (r: Vec<NoteAux>)
        ensures
            r@.map_values(aux_note_fn()).to_multiset() == store.notes@.filter(
                task_notes_pred(id),
            ).to_multiset(),
            notes_by_start(r@.map_values(aux_note_fn())),
            forall|k: int|
                0 <= k < r@.len() ==> (#[trigger] r@[k]).duration_seconds == r@[k].date_end
                    - r@[k].date_start,
    {
        let ns = Self::find_notes(store, id);
        let mut r: Vec<NoteAux> = Vec::new();
        let mut i: usize = 0;
        while i < ns.len()
            invariant
                i <= ns@.len(),
                r@.len() == i,
                r@.map_values(aux_note_fn()) == ns@.take(i as int),
                forall|k: int|
                    0 <= k < i ==> (#[trigger] r@[k]).duration_seconds == r@[k].date_end
                        - r@[k].date_start,
            decreases ns@.len() - i,
        {
            let n = &ns[i];
            let d = note_duration_seconds(n);
            let a = NoteAux {
                id: n.id,
                task_id: n.task_id,
                body: n.body.clone(),
                date_start: n.date_start,
                date_end: n.date_end,
                duration_seconds: d,
            };
            proof {
                assert(aux_note(a) == ns@[i as int]);
            }
            r.push(a);
            proof {
                assert(r@.map_values(aux_note_fn()) =~= ns@.take(i as int).push(ns@[i as int]));
                assert(ns@.take(i + 1) =~= ns@.take(i as int).push(ns@[i as int]));
            }
            i = i + 1;
        }
        proof {
            assert(ns@.take(ns@.len() as int) =~= ns@);
        }
        r
    }

    /// Every (task, note) pair whose note started within the trailing
    /// window, ordered for grouped display.
    pub fn find_recently_updated(store: &Store, now: i64, days: i32) -> (r: Vec<Review>)
        ensures
            r@.to_multiset() == crate::review::spec_review_rows(
                store.tasks@,
                store.notes@,
                crate::review::window_start(now as int, days as int),
            ).to_multiset(),
            crate::ordering::reviews_ordered(r@),
    {
        crate::review::find_recently_updated(&store.tasks, &store.notes, now, days)
    }

    /// The open leaves of the store, newest first: the open tasks without
    /// an open child.
    pub fn open_leaves(store: &Store) -> (r: Vec<Task>)
        ensures
            r@.to_multiset() == store.tasks@.filter(
                crate::leaves::leaf_pred(store.tasks@),
            ).to_multiset(),
            tasks_newest_first(r@),
    {
        crate::leaves::open_leaves(&store.tasks)
    }

    /// Marks the task closed. The open flag's only transition is
    /// true to false — finishing a closed task leaves it closed, and
    /// nothing ever reopens one. `NotFound` when no task carries the id;
    /// the store is then untouched.
    pub fn finish(store: &mut Store, id: i32) -> (r: Result<(), Error>)
        requires
            store_wf(*old(store)),
        ensures
            store_wf(*final(store)),
            match r {
                Ok(_) => {
                    &&& exists|k: int|
                        0 <= k < old(store).tasks@.len() && (#[trigger] old(store).tasks@[k]).id
                            == id
                    &&& final(store).tasks@.len() == old(store).tasks@.len()
                    &&& forall|w: int|
                        0 <= w < old(store).tasks@.len() ==> #[trigger] final(store).tasks@[w]
                            == (if old(store).tasks@[w].id == id {
                            (Task { open: false, ..old(store).tasks@[w] })
                        } else {
                            old(store).tasks@[w]
                        })
                    &&& final(store).notes@ == old(store).notes@
                    &&& final(store).templates@ == old(store).templates@
                    &&& final(store).next_task_id == old(store).next_task_id
                    &&& final(store).next_note_id == old(store).next_note_id
                },
                Err(e) => {
                    &&& e == Error::NotFound
                    &&& *final(store) == *old(store)
                    &&& forall|k: int|
                        0 <= k < old(store).tasks@.len() ==> (#[trigger] old(
                            store,
                        ).tasks@[k]).id != id
                },
            },
    {
        match find_task_index(&store.tasks, id) {
            None => Err(Error::NotFound),
            Some(k) => {
                let t = &mut store.tasks[k];
                t.open = false;
                proof {
                    let ts0 = old(store).tasks@;
                    let ts1 = store.tasks@;
                    assert forall|w: int| 0 <= w < ts0.len() implies (#[trigger] ts1[w]).id
                        == ts0[w].id && ts1[w].parent_id == ts0[w].parent_id by {}
                    lemma_ids_preserved_resolution(ts0, ts1);
                    assert forall|w: int| 0 <= w < ts0.len() implies ts1[w] == (if ts0[w].id == id {
                        (Task { open: false, ..ts0[w] })
                    } else {
                        ts0[w]
                    }) by {
                        if w != k as int {
                            assert(ts0[w].id != ts0[k as int].id);
                        }
                    }
                    assert forall|w: int| 0 <= w < store.notes@.len() implies
                        #[trigger] note_resolves(ts1, store.notes@[w]) by {
                        assert(note_resolves(ts0, store.notes@[w]));
                    }
                }
                Ok(())
            },
        }
    }
}

/// The plain task fields of a `TaskAux`, matched against a stored task.
pub open spec fn task_aux_matches(a: TaskAux, t: Task) -> bool {
    a.id == t.id && a.parent_id == t.parent_id && a.title == t.title && a.body == t.body && a.open
        == t.open && a.date_created == t.date_created
}

/// The plain note inside a `NoteAux`.
pub open spec fn aux_note(a: NoteAux) -> Note {
    Note {
        id: a.id,
        task_id: a.task_id,
        body: a.body,
        date_start: a.date_start,
        date_end: a.date_end,
    }
}

pub open spec fn aux_note_fn() -> spec_fn(NoteAux) -> Note {
    |a: NoteAux| aux_note(a)
}

/// Some stored task carries this id.
pub open spec fn task_id_present(ts: Seq<Task>, id: i32) -> bool {
    exists|k: int| 0 <= k < ts.len() && (#[trigger] ts[k]).id == id
}

/// One staged note insert: everything but the id, which the store assigns
/// at commit time.
pub struct PendingNote {
    pub task_id: i32,
    pub body: String,
    pub date_start: i64,
    pub date_end: i64,
}

/// The scoped unit of the transactional note append. Writes are staged on
/// the transaction and touch the store only when `Store::commit` applies
/// them all at once; a transaction that is dropped instead — on any error
/// path — has rolled back by construction, because the store was never
/// written.
pub struct Transaction {
    pub pending_note: Option<PendingNote>,
    pub pending_body: Option<(i32, String)>,
}

/// Every task the staged writes reference is present in the store.
pub open spec fn tx_refs_present(s: Store, tx: Transaction) -> bool {
    &&& (tx.pending_note matches Some(pn) ==> task_id_present(s.tasks@, pn.task_id))
    &&& (tx.pending_body matches Some(pb) ==> task_id_present(s.tasks@, pb.0))
}

/// The staged writes fit into the store's id space.
pub open spec fn tx_fits(s: Store, tx: Transaction) -> bool {
    tx.pending_note is Some ==> s.next_note_id < i32::MAX
}

/// `t1` is `t0` after the body overwrite aimed at task `id`: every field
/// but the body unchanged, and the body replaced only on the target.
pub open spec fn task_body_step(t0: Task, t1: Task, id: i32, nb: Seq<char>) -> bool {
    &&& t1.id == t0.id
    &&& t1.parent_id == t0.parent_id
    &&& t1.title == t0.title
    &&& t1.open == t0.open
    &&& t1.date_created == t0.date_created
    &&& (t0.id == id ==> t1.body@ == nb)
    &&& (t0.id != id ==> t1.body == t0.body)
}

impl Transaction {
    /// An empty transactional scope.
    pub fn begin() -> (tx: Transaction)
        ensures
            tx.pending_note is None,
            tx.pending_body is None,
    {
        Transaction { pending_note: None, pending_body: None }
    }

    /// Stages the insert of a new note for the given task. `NotFound`
    /// when no task carries the id; nothing is staged then.
    pub fn stage_note(
        &mut self,
        store: &Store,
        task_id: i32,
        body: String,
        date_start: i64,
        date_end: i64,
    ) -> (r: Result<(), Error>)
        ensures
            match r {
                Ok(_) => {
                    &&& task_id_present(store.tasks@, task_id)
                    &&& final(self).pending_note == Some(
                        (PendingNote { task_id, body, date_start, date_end }),
                    )
                    &&& final(self).pending_body == old(self).pending_body
                },
                Err(e) => {
                    &&& e == Error::NotFound
                    &&& !task_id_present(store.tasks@, task_id)
                    &&& *final(self) == *old(self)
                },
            },
            r is Ok <==> task_id_present(store.tasks@, task_id),
    {
        if find_task_index(&store.tasks, task_id).is_none() {
            return Err(Error::NotFound);
        }
        self.pending_note = Some(PendingNote { task_id, body, date_start, date_end });
        Ok(())
    }

    /// Stages the overwrite of the task's body text. `NotFound` when no
    /// task carries the id; nothing is staged then.
    pub fn stage_task_body(&mut self, store: &Store, task_id: i32, new_body: String) -> (r: Result<
        (),
        Error,
    >)
        ensures
            match r {
                Ok(_) => {
                    &&& task_id_present(store.tasks@, task_id)
                    &&& final(self).pending_body == Some((task_id, new_body))
                    &&& final(self).pending_note == old(self).pending_note
                },
                Err(e) => {
                    &&& e == Error::NotFound
                    &&& !task_id_present(store.tasks@, task_id)
                    &&& *final(self) == *old(self)
                },
            },
            r is Ok <==> task_id_present(store.tasks@, task_id),
    {
        if find_task_index(&store.tasks, task_id).is_none() {
            return Err(Error::NotFound);
        }
        self.pending_body = Some((task_id, new_body));
        Ok(())
    }
}

impl Store {
    /// Applies the staged writes as one atomic unit. Either every staged
    /// write lands — the note inserted under a fresh id, the task body
    /// overwritten — or none does: on `NotFound` (a referenced task has
    /// gone) and on `StoreFailure` (the note id space is exhausted) the
    /// store is exactly what it was.
    pub fn commit(&mut self, tx: Transaction) -> (r: Result<Option<i32>, Error>)
        requires
            store_wf(*old(self)),
        ensures
            store_wf(*final(self)),
            match r {
                Ok(nid) => {
                    &&& tx_refs_present(*old(self), tx)
                    &&& tx_fits(*old(self), tx)
                    &&& (match tx.pending_note {
                        Some(pn) => {
                            &&& nid == Some(old(self).next_note_id)
                            &&& final(self).notes@ == old(self).notes@.push(
                                (Note {
                                    id: old(self).next_note_id,
                                    task_id: pn.task_id,
                                    body: pn.body,
                                    date_start: pn.date_start,
                                    date_end: pn.date_end,
                                }),
                            )
                            &&& final(self).next_note_id == old(self).next_note_id + 1
                        },
                        None => {
                            &&& nid is None
                            &&& final(self).notes@ == old(self).notes@
                            &&& final(self).next_note_id == old(self).next_note_id
                        },
                    })
                    &&& (match tx.pending_body {
                        Some(pb) => {
                            &&& final(self).tasks@.len() == old(self).tasks@.len()
                            &&& forall|w: int|
                                0 <= w < old(self).tasks@.len() ==> #[trigger] task_body_step(
                                    old(self).tasks@[w],
                                    final(self).tasks@[w],
                                    pb.0,
                                    pb.1@,
                                )
                        },
                        None => final(self).tasks@ == old(self).tasks@,
                    })
                    &&& final(self).templates@ == old(self).templates@
                    &&& final(self).next_task_id == old(self).next_task_id
                },
                Err(e) => {
                    &&& *final(self) == *old(self)
                    &&& (e == Error::NotFound <==> !tx_refs_present(*old(self), tx))
                    &&& (e == Error::StoreFailure <==> tx_refs_present(*old(self), tx)
                        && !tx_fits(*old(self), tx))
                },
            },
            r is Ok <==> tx_refs_present(*old(self), tx) && tx_fits(*old(self), tx),
    {
        match &tx.pending_note {
            Some(pn) => {
                if find_task_index(&self.tasks, pn.task_id).is_none() {
                    return Err(Error::NotFound);
                }
            },
            None => {},
        }
        let body_target: Option<usize> = match &tx.pending_body {
            Some(pb) => {
                match find_task_index(&self.tasks, pb.0) {
                    Some(k) => Some(k),
                    None => {
                        return Err(Error::NotFound);
                    },
                }
            },
            None => None,
        };
        match &tx.pending_note {
            Some(_) => {
                if self.next_note_id == i32::MAX {
                    return Err(Error::StoreFailure);
                }
            },
            None => {},
        }
        let Transaction { pending_note, pending_body } = tx;
        let ghost pre = *self;
        let mut inserted: Option<i32> = None;
        match pending_note {
            Some(pn) => {
                let id = self.next_note_id;
                inserted = Some(id);
                self.notes.push(
                    Note {
                        id,
                        task_id: pn.task_id,
                        body: pn.body,
                        date_start: pn.date_start,
                        date_end: pn.date_end,
                    },
                );
                self.next_note_id = id + 1;
                proof {
                    assert forall|k: int| 0 <= k < self.notes@.len() implies
                        #[trigger] note_resolves(self.tasks@, self.notes@[k]) by {
                        if k < self.notes@.len() - 1 {
                            assert(note_resolves(pre.tasks@, pre.notes@[k]));
                        } else {
                            let w = choose|w: int|
                                0 <= w < pre.tasks@.len() && (#[trigger] pre.tasks@[w]).id
                                    == self.notes@[k].task_id;
                            assert(0 <= w < self.tasks@.len() && self.tasks@[w].id
                                == self.notes@[k].task_id);
                        }
                    }
                    assert(store_wf(*self));
                }
            },
            None => {},
        }
        let ghost mid = *self;
        match pending_body {
            Some(pb) => {
                let k = match body_target {
                    Some(k) => k,
                    None => 0,
                };
                proof {
                    assert(mid.tasks@[k as int].id == pb.0);
                }
                let t = &mut self.tasks[k];
                t.body = pb.1;
                proof {
                    let ts0 = mid.tasks@;
                    let ts1 = self.tasks@;
                    assert forall|w: int| 0 <= w < ts0.len() implies (#[trigger] ts1[w]).id
                        == ts0[w].id && ts1[w].parent_id == ts0[w].parent_id by {}
                    lemma_ids_preserved_resolution(ts0, ts1);
                    assert forall|w: int| 0 <= w < self.notes@.len() implies
                        #[trigger] note_resolves(ts1, self.notes@[w]) by {
                        assert(note_resolves(ts0, mid.notes@[w]));
                    }
                    assert forall|w: int| 0 <= w < ts0.len() implies #[trigger] task_body_step(
                        pre.tasks@[w],
                        ts1[w],
                        pb.0,
                        pb.1@,
                    ) by {
                        if w != k as int {
                            assert(ts0[w].id != ts0[k as int].id);
                        }
                    }
                    assert(store_wf(*self));
                }
            },
            None => {},
        }
        Ok(inserted)
    }
}

impl Note {
    /// The transactional note append: inserts a new note for the task and
    /// overwrites the task's body text as one atomic unit, through a
    /// transaction committed only after both writes are staged. Either
    /// both writes land, or — `NotFound` when no task carries the id,
    /// `StoreFailure` when the note id space is exhausted — the store is
    /// exactly what it was: never a note without the body update, never
    /// the body update without its note.
    pub fn create(
        store: &mut Store,
        task_id: i32,
        body: &str,
        task_body: &str,
        date_start: i64,
        date_end: i64,
    ) -> (r: Result<i32, Error>)
        requires
            store_wf(*old(store)),
        ensures
            store_wf(*final(store)),
            match r {
                Ok(nid) => {
                    &&& task_id_present(old(store).tasks@, task_id)
                    &&& nid == old(store).next_note_id
                    &&& final(store).next_note_id == old(store).next_note_id + 1
                    &&& final(store).notes@.len() == old(store).notes@.len() + 1
                    &&& final(store).notes@.drop_last() == old(store).notes@
                    &&& final(store).notes@.last().id == nid
                    &&& final(store).notes@.last().task_id == task_id
                    &&& final(store).notes@.last().body@ == body@
                    &&& final(store).notes@.last().date_start == date_start
                    &&& final(store).notes@.last().date_end == date_end
                    &&& final(store).tasks@.len() == old(store).tasks@.len()
                    &&& forall|w: int|
                        0 <= w < old(store).tasks@.len() ==> #[trigger] task_body_step(
                            old(store).tasks@[w],
                            final(store).tasks@[w],
                            task_id,
                            task_body@,
                        )
                    &&& final(store).templates@ == old(store).templates@
                    &&& final(store).next_task_id == old(store).next_task_id
                },
                Err(e) => {
                    &&& *final(store) == *old(store)
                    &&& (e == Error::NotFound <==> !task_id_present(old(store).tasks@, task_id))
                    &&& (e == Error::StoreFailure <==> task_id_present(old(store).tasks@, task_id)
                        && old(store).next_note_id == i32::MAX)
                },
            },
            r is Ok <==> task_id_present(old(store).tasks@, task_id) && old(store).next_note_id
                < i32::MAX,
    {
        let mut tx = Transaction::begin();
        match tx.stage_note(store, task_id, String::from_str(body), date_start, date_end) {
            Ok(_) => {},
            Err(e) => {
                return Err(e);
            },
        }
        match tx.stage_task_body(store, task_id, String::from_str(task_body)) {
            Ok(_) => {},
            Err(e) => {
                return Err(e);
            },
        }
        let ghost txg = tx;
        match store.commit(tx) {
            Ok(nid) => {
                proof {
                    assert(store.notes@.drop_last() =~= old(store).notes@);
                    assert forall|w: int| 0 <= w < old(store).tasks@.len() implies
                        #[trigger] task_body_step(
                        old(store).tasks@[w],
                        store.tasks@[w],
                        task_id,
                        task_body@,
                    ) by {
                        let pb = txg.pending_body->0;
                        assert(task_body_step(old(store).tasks@[w], store.tasks@[w], pb.0, pb.1@));
                        assert(pb.0 == task_id && pb.1@ == task_body@);
                    }
                }
                match nid {
                    Some(id) => Ok(id),
                    None => {
                        proof {
                            assert(false);
                        }
                        Err(Error::TransactionFailure)
                    },
                }
            },
            Err(e) => Err(e),
        }
    }
}

/// The survivors of a cascade delete rooted at position `ti`: everything
/// outside the subtree of `ti`.
pub open spec fn kept_pred(s: Seq<Task>, ti: int) -> spec_fn(int) -> bool {
    |w: int| !is_ancestor(s, ti, w)
}

pub open spec fn task_getter(s: Seq<Task>) -> spec_fn(int) -> Task {
    |w: int| s[w]
}

/// The tasks left after deleting the subtree rooted at position `ti`, in
/// their stored order.
pub open spec fn remaining_tasks(s: Seq<Task>, ti: int) -> Seq<Task> {
    index_seq(s.len() as int).filter(kept_pred(s, ti)).map_values(task_getter(s))
}

/// The notes that survive the cascade: those whose task is no descendant
/// of the deleted position.
pub open spec fn note_kept(s: Seq<Task>, ti: int) -> spec_fn(Note) -> bool {
    |n: Note|
        exists|w: int|
            0 <= w < s.len() && (#[trigger] s[w]).id == n.task_id && !is_ancestor(s, ti, w)
}

/// Filtering an id-sorted sequence of ints keeps it sorted.
proof fn lemma_filter_int_ordered(s: Seq<int>, pred: spec_fn(int) -> bool)
    requires
        forall|i: int, j: int| 0 <= i < j < s.len() ==> s[i] < s[j],
    ensures
        forall|i: int, j: int|
            0 <= i < j < s.filter(pred).len() ==> #[trigger] s.filter(pred)[i]
                < #[trigger] s.filter(pred)[j],
    decreases s.len(),
{
    reveal(Seq::filter);
    if s.len() > 0 {
        let rest = s.drop_last();
        assert(forall|i: int| 0 <= i < rest.len() ==> rest[i] == s[i]);
        lemma_filter_int_ordered(rest, pred);
        let fr = rest.filter(pred);
        if pred(s.last()) {
            assert forall|i: int, j: int|
                0 <= i < j < s.filter(pred).len() implies #[trigger] s.filter(pred)[i]
                < #[trigger] s.filter(pred)[j] by {
                if j == s.filter(pred).len() - 1 {
                    assert(fr.contains(fr[i]));
                    rest.lemma_filter_contains_rev(pred, fr[i]);
                    let w = choose|w: int| 0 <= w < rest.len() && rest[w] == fr[i];
                    assert(rest[w] < s.last());
                } else {
                    assert(s.filter(pred)[i] == fr[i] && s.filter(pred)[j] == fr[j]);
                }
            }
        }
    }
}

/// Filtering an id-sorted sequence of notes keeps it sorted.
proof fn lemma_filter_notes_ordered(s: Seq<Note>, pred: spec_fn(Note) -> bool)
    requires
        forall|i: int, j: int| 0 <= i < j < s.len() ==> s[i].id < s[j].id,
    ensures
        forall|i: int, j: int|
            0 <= i < j < s.filter(pred).len() ==> (#[trigger] s.filter(pred)[i]).id < (
            #[trigger] s.filter(pred)[j]).id,
    decreases s.len(),
{
    reveal(Seq::filter);
    if s.len() > 0 {
        let rest = s.drop_last();
        assert(forall|i: int| 0 <= i < rest.len() ==> rest[i] == s[i]);
        lemma_filter_notes_ordered(rest, pred);
        let fr = rest.filter(pred);
        if pred(s.last()) {
            assert forall|i: int, j: int|
                0 <= i < j < s.filter(pred).len() implies (#[trigger] s.filter(pred)[i]).id < (
                #[trigger] s.filter(pred)[j]).id by {
                if j == s.filter(pred).len() - 1 {
                    assert(fr.contains(fr[i]));
                    rest.lemma_filter_contains_rev(pred, fr[i]);
                    let w = choose|w: int| 0 <= w < rest.len() && rest[w] == fr[i];
                    assert(rest[w].id < s.last().id);
                } else {
                    assert(s.filter(pred)[i] == fr[i] && s.filter(pred)[j] == fr[j]);
                }
            }
        }
    }
}

impl Task {
    /// Deletes the task carrying the id, every task below it, and every
    /// note of a deleted task — the referential cascade. Templates, the
    /// other tasks and their notes, and the id counters stay as they are.
    /// `NotFound` when no task carries the id; the store is then
    /// untouched.
    #[verifier::rlimit(100)]
    pub fn delete(store: &mut Store, id: i32) -> (r: Result<(), Error>)
        requires
            store_wf(*old(store)),
        ensures
            store_wf(*final(store)),
            match r {
                Ok(_) => exists|k: int|
                    {
                        &&& 0 <= k < old(store).tasks@.len()
                        &&& (#[trigger] old(store).tasks@[k]).id == id
                        &&& final(store).tasks@ == remaining_tasks(old(store).tasks@, k)
                        &&& final(store).notes@ == old(store).notes@.filter(
                            note_kept(old(store).tasks@, k),
                        )
                        &&& final(store).templates@ == old(store).templates@
                        &&& final(store).next_task_id == old(store).next_task_id
                        &&& final(store).next_note_id == old(store).next_note_id
                    },
                Err(e) => {
                    &&& e == Error::NotFound
                    &&& *final(store) == *old(store)
                    &&& forall|k: int|
                        0 <= k < old(store).tasks@.len() ==> (#[trigger] old(
                            store,
                        ).tasks@[k]).id != id
                },
            },
    {
        let k = match find_task_index(&store.tasks, id) {
            Some(k) => k,
            None => {
                return Err(Error::NotFound);
            },
        };
        let ghost s = store.tasks@;
        let n = store.tasks.len();
        proof {
            lemma_store_tree_input(*store);
        }
        let mut removed: Vec<bool> = Vec::new();
        let mut w: usize = 0;
        while w < n
            invariant
                w <= n,
                n == s.len(),
                s == store.tasks@,
                *store == *old(store),
                store_wf(*old(store)),
                tree_input_wf(s),
                k < n,
                s[k as int].id == id,
                removed@.len() == w,
                forall|u: int| 0 <= u < w ==> removed@[u] == is_ancestor(s, k as int, u),
            decreases n - w,
        {
            let is_removed: bool;
            if w == k {
                is_removed = true;
                proof {
                    assert(is_ancestor(s, k as int, w as int));
                }
            } else {
                match store.tasks[w].parent_id {
                    None => {
                        is_removed = false;
                        proof {
                            assert(!crate::hierarchy::has_parent_index(s, w as int));
                            assert(!is_ancestor(s, k as int, w as int));
                        }
                    },
                    Some(p) => {
                        match find_task_index(&store.tasks, p) {
                            None => {
                                is_removed = false;
                                proof {
                                    assert(!crate::hierarchy::has_parent_index(s, w as int));
                                    assert(!is_ancestor(s, k as int, w as int));
                                }
                            },
                            Some(pi) => {
                                proof {
                                    assert(is_child_of(s, w as int, pi as int));
                                    crate::hierarchy::lemma_parent_index_is(
                                        s,
                                        w as int,
                                        pi as int,
                                    );
                                    assert(s[pi as int].id < s[w as int].id);
                                    if pi >= w {
                                        if (pi as int) > (w as int) {
                                            assert(s[w as int].id < s[pi as int].id);
                                        }
                                        assert(false);
                                    }
                                }
                                is_removed = removed[pi];
                                proof {
                                    assert(is_ancestor(s, k as int, w as int) == (
                                    is_ancestor(s, k as int, pi as int)));
                                }
                            },
                        }
                    },
                }
            }
            removed.push(is_removed);
            w = w + 1;
        }
        let mut kept: Vec<Task> = Vec::new();
        let mut w: usize = 0;
        while w < n
            invariant
                w <= n,
                n == s.len(),
                s == store.tasks@,
                *store == *old(store),
                store_wf(*old(store)),
                tree_input_wf(s),
                k < n,
                s[k as int].id == id,
                removed@.len() == n,
                forall|u: int| 0 <= u < n ==> removed@[u] == is_ancestor(s, k as int, u),
                kept@ == index_seq(w as int).filter(kept_pred(s, k as int)).map_values(
                    task_getter(s),
                ),
            decreases n - w,
        {
            proof {
                assert(index_seq(w as int + 1) =~= index_seq(w as int).push(w as int));
                index_seq(w as int).lemma_filter_push(w as int, kept_pred(s, k as int));
                if !is_ancestor(s, k as int, w as int) {
                    assert(index_seq(w as int).filter(kept_pred(s, k as int)).push(
                        w as int,
                    ).map_values(task_getter(s)) =~= index_seq(w as int).filter(
                        kept_pred(s, k as int),
                    ).map_values(task_getter(s)).push(s[w as int]));
                }
            }
            if !removed[w] {
                kept.push(store.tasks[w].clone());
            }
            w = w + 1;
        }
        let mut kept_notes: Vec<Note> = Vec::new();
        let m = store.notes.len();
        let ghost ns = store.notes@;
        let mut j: usize = 0;
        while j < m
            invariant
                j <= m,
                m == ns.len(),
                ns == store.notes@,
                s == store.tasks@,
                *store == *old(store),
                store_wf(*old(store)),
                tree_input_wf(s),
                k < n,
                n == s.len(),
                s[k as int].id == id,
                removed@.len() == n,
                forall|u: int| 0 <= u < n ==> removed@[u] == is_ancestor(s, k as int, u),
                kept_notes@ == ns.take(j as int).filter(note_kept(s, k as int)),
            decreases m - j,
        {
            proof {
                assert(ns.take(j + 1) =~= ns.take(j as int).push(ns[j as int]));
                ns.take(j as int).lemma_filter_push(ns[j as int], note_kept(s, k as int));
            }
            let tid = store.notes[j].task_id;
            let keep = match find_task_index(&store.tasks, tid) {
                None => {
                    proof {
                        assert(!note_kept(s, k as int)(ns[j as int]));
                    }
                    false
                },
                Some(ti) => {
                    proof {
                        let pred = note_kept(s, k as int);
                        if !removed@[ti as int] {
                            assert(pred(ns[j as int]));
                        } else {
                            if pred(ns[j as int]) {
                                let w2 = choose|w2: int|
                                    0 <= w2 < s.len() && (#[trigger] s[w2]).id == ns[
                                        j as int].task_id && !is_ancestor(s, k as int, w2);
                                if w2 < ti as int {
                                    assert(s[w2].id < s[ti as int].id);
                                } else if w2 > ti as int {
                                    assert(s[ti as int].id < s[w2].id);
                                }
                                assert(false);
                            }
                        }
                    }
                    !removed[ti]
                },
            };
            if keep {
                kept_notes.push(store.notes[j].clone());
            }
            j = j + 1;
        }
        store.tasks = kept;
        store.notes = kept_notes;
        proof {
            assert(ns.take(ns.len() as int) =~= ns);
            assert(store.notes@ == old(store).notes@.filter(note_kept(s, k as int)));
            assert(store.tasks@ == remaining_tasks(s, k as int));
            lemma_cascade_wf(*old(store), *store, k as int);
        }
        Ok(())
    }
}

/// After a cascade delete the store is well-formed again: the survivors
/// keep their order, and every reference they hold points at a survivor.
proof fn lemma_cascade_wf(pre: Store, post: Store, k: int)
    requires
        store_wf(pre),
        tree_input_wf(pre.tasks@),
        0 <= k < pre.tasks@.len(),
        post.tasks@ == remaining_tasks(pre.tasks@, k),
        post.notes@ == pre.notes@.filter(note_kept(pre.tasks@, k)),
        post.templates@ == pre.templates@,
        post.next_task_id == pre.next_task_id,
        post.next_note_id == pre.next_note_id,
    ensures
        store_wf(post),
{
    let s = pre.tasks@;
    let n = s.len() as int;
    let idxs = index_seq(n).filter(kept_pred(s, k));
    let ts1 = post.tasks@;
    assert(ts1 == idxs.map_values(task_getter(s)));
    assert forall|x: int| 0 <= x < idxs.len() implies 0 <= #[trigger] idxs[x] < n && !is_ancestor(
        s,
        k,
        idxs[x],
    ) by {
        index_seq(n).lemma_filter_pred(kept_pred(s, k), x);
        assert(idxs.contains(idxs[x]));
        index_seq(n).lemma_filter_contains_rev(kept_pred(s, k), idxs[x]);
        let w = choose|w: int| 0 <= w < index_seq(n).len() && index_seq(n)[w] == idxs[x];
        assert(index_seq(n)[w] == w);
    }
    assert forall|x: int| 0 <= x < ts1.len() implies ts1[x] == s[idxs[x]] by {}
    lemma_filter_int_ordered(index_seq(n), kept_pred(s, k));
    // ids: bounds and strict order
    assert forall|x: int| 0 <= x < ts1.len() implies 1 <= (#[trigger] ts1[x]).id
        < post.next_task_id by {
        assert(1 <= s[idxs[x]].id < pre.next_task_id);
    }
    assert forall|x: int, y: int| 0 <= x < y < ts1.len() implies ts1[x].id < ts1[y].id by {
        assert(idxs[x] < idxs[y]);
        assert(s[idxs[x]].id < s[idxs[y]].id);
    }
    // every survivor position is listed
    assert forall|w: int| 0 <= w < n && !is_ancestor(s, k, w) implies idxs.contains(w) by {
        assert(index_seq(n)[w] == w);
        index_seq(n).lemma_filter_contains(kept_pred(s, k), w);
    }
    // parents of survivors survive
    assert forall|x: int| 0 <= x < ts1.len() implies parent_resolves(ts1, x) by {
        let w = idxs[x];
        assert(parent_resolves(s, w));
        match s[w].parent_id {
            Some(p) => {
                let pi = choose|pi: int|
                    0 <= pi < s.len() && (#[trigger] s[pi]).id == p && p < s[w].id;
                assert(is_child_of(s, w, pi));
                crate::hierarchy::lemma_parent_index_is(s, w, pi);
                if is_ancestor(s, k, pi) {
                    assert(is_ancestor(s, k, w));
                    assert(false);
                }
                assert(idxs.contains(pi));
                let pos = choose|pos: int| 0 <= pos < idxs.len() && idxs[pos] == pi;
                assert(ts1[pos].id == p && p < ts1[x].id);
            },
            None => {},
        }
    }
    // notes: order, bounds, and resolution
    let pred = note_kept(s, k);
    let ns1 = post.notes@;
    assert forall|x: int| 0 <= x < ns1.len() implies 1 <= (#[trigger] ns1[x]).id
        < post.next_note_id && pred(ns1[x]) by {
        pre.notes@.lemma_filter_pred(pred, x);
        assert(ns1.contains(ns1[x]));
        pre.notes@.lemma_filter_contains_rev(pred, ns1[x]);
        let w = choose|w: int| 0 <= w < pre.notes@.len() && pre.notes@[w] == ns1[x];
        assert(1 <= pre.notes@[w].id < pre.next_note_id);
    }
    lemma_filter_notes_ordered(pre.notes@, pred);
    assert forall|x: int| 0 <= x < ns1.len() implies #[trigger] note_resolves(ts1, ns1[x]) by {
        assert(pred(ns1[x]));
        let w = choose|w: int|
            0 <= w < s.len() && (#[trigger] s[w]).id == ns1[x].task_id && !is_ancestor(s, k, w);
        assert(idxs.contains(w));
        let pos = choose|pos: int| 0 <= pos < idxs.len() && idxs[pos] == w;
        assert(ts1[pos].id == ns1[x].task_id);
    }
}

/// Dictionary order is total: of two names, one comes at or before the
/// other.
proof fn lemma_lex_total(a: Seq<char>, b: Seq<char>)
    ensures
        lex_le(a, b) || lex_le(b, a),
    decreases a.len(),
{
    if a.len() > 0 && b.len() > 0 && !(a[0] < b[0]) && !(b[0] < a[0]) {
        lemma_lex_total(a.skip(1), b.skip(1));
    }
}

proof fn lemma_lex_trans(a: Seq<char>, b: Seq<char>, c: Seq<char>)
    requires
        lex_le(a, b),
        lex_le(b, c),
    ensures
        lex_le(a, c),
    decreases a.len(),
{
    if a.len() > 0 && b.len() > 0 && c.len() > 0 {
        if !(a[0] < b[0]) && !(b[0] < a[0]) && !(b[0] < c[0]) && !(c[0] < b[0]) {
            lemma_lex_trans(a.skip(1), b.skip(1), c.skip(1));
        }
    }
}

/// With the first `i` characters pairwise equal, order is decided by the
/// rest.
proof fn lemma_lex_skip(a: Seq<char>, b: Seq<char>, i: int)
    requires
        0 <= i <= a.len(),
        i <= b.len(),
        forall|w: int| 0 <= w < i ==> a[w] == b[w],
    ensures
        lex_le(a, b) == lex_le(a.skip(i), b.skip(i)),
    decreases i,
{
    if i > 0 {
        assert(a[0] == b[0]);
        assert(a.skip(1).skip(i - 1) =~= a.skip(i));
        assert(b.skip(1).skip(i - 1) =~= b.skip(i));
        assert forall|w: int| 0 <= w < i - 1 implies a.skip(1)[w] == b.skip(1)[w] by {
            assert(a.skip(1)[w] == a[w + 1]);
            assert(b.skip(1)[w] == b[w + 1]);
        }
        lemma_lex_skip(a.skip(1), b.skip(1), i - 1);
    } else {
        assert(a.skip(0) =~= a);
        assert(b.skip(0) =~= b);
    }
}

/// Dictionary-order comparison of two strings.
fn str_lex_le(a: &str, b: &str) -> (r: bool)
    ensures
        r == lex_le(a@, b@),
{
    let alen = a.unicode_len();
    let blen = b.unicode_len();
    let mut i: usize = 0;
    while i < alen && i < blen
        invariant
            i <= alen,
            i <= blen,
            alen == a@.len(),
            blen == b@.len(),
            forall|w: int| 0 <= w < i ==> a@[w] == b@[w],
        decreases alen - i,
    {
        let ca = a.get_char(i);
        let cb = b.get_char(i);
        if ca != cb {
            proof {
                lemma_lex_skip(a@, b@, i as int);
                assert(a@.skip(i as int)[0] == a@[i as int]);
                assert(b@.skip(i as int)[0] == b@[i as int]);
            }
            return ca < cb;
        }
        i = i + 1;
    }
    proof {
        lemma_lex_skip(a@, b@, i as int);
        if i < a@.len() {
            assert(a@.skip(i as int)[0] == a@[i as int]);
        }
    }
    alen <= blen
}

/// Character-for-character string equality.
fn str_eq(a: &str, b: &str) -> (r: bool)
    ensures
        r == (a@ == b@),
{
    let alen = a.unicode_len();
    let blen = b.unicode_len();
    if alen != blen {
        return false;
    }
    let mut i: usize = 0;
    while i < alen
        invariant
            i <= alen,
            alen == a@.len(),
            alen == b@.len(),
            forall|w: int| 0 <= w < i ==> a@[w] == b@[w],
        decreases alen - i,
    {
        if a.get_char(i) != b.get_char(i) {
            return false;
        }
        i = i + 1;
    }
    proof {
        assert(a@ =~= b@);
    }
    true
}

/// `t1` is `t0` after the body overwrite aimed at template `nm`.
pub open spec fn template_upsert_step(t0: Template, t1: Template, nm: Seq<char>, bd: Seq<char>) -> bool {
    &&& t1.name == t0.name
    &&& (t0.name@ == nm ==> t1.body@ == bd)
    &&& (t0.name@ != nm ==> t1.body == t0.body)
}

/// Some stored template carries this name.
pub open spec fn template_name_present(ts: Seq<Template>, nm: Seq<char>) -> bool {
    exists|k: int| 0 <= k < ts.len() && (#[trigger] ts[k]).name@ == nm
}

impl Template {
    /// Inserts the template, or overwrites the body of the one already
    /// carrying this name. Templates stay in dictionary order of their
    /// names, each name held once.
    pub fn upsert(store: &mut Store, name: &str, body: &str)
        requires
            store_wf(*old(store)),
        ensures
            store_wf(*final(store)),
            final(store).tasks@ == old(store).tasks@,
            final(store).notes@ == old(store).notes@,
            final(store).next_task_id == old(store).next_task_id,
            final(store).next_note_id == old(store).next_note_id,
            template_name_present(old(store).templates@, name@) ==> {
                &&& final(store).templates@.len() == old(store).templates@.len()
                &&& forall|w: int|
                    0 <= w < old(store).templates@.len() ==> #[trigger] template_upsert_step(
                        old(store).templates@[w],
                        final(store).templates@[w],
                        name@,
                        body@,
                    )
            },
            !template_name_present(old(store).templates@, name@) ==> exists|k: int|
                {
                    &&& 0 <= k <= old(store).templates@.len()
                    &&& final(store).templates@.len() == old(store).templates@.len() + 1
                    &&& (#[trigger] final(store).templates@[k]).name@ == name@
                    &&& final(store).templates@[k].body@ == body@
                    &&& (forall|w: int|
                        0 <= w < k ==> (#[trigger] final(store).templates@[w]) == old(
                            store,
                        ).templates@[w])
                    &&& (forall|w: int|
                        k < w < final(store).templates@.len()
                            ==> (#[trigger] final(store).templates@[w]) == old(
                            store,
                        ).templates@[w - 1])
                },
    {
        let ghost ts0 = store.templates@;
        let n = store.templates.len();
        let mut i: usize = 0;
        while i < n
            invariant
                i <= n,
                n == ts0.len(),
                ts0 == store.templates@,
                *store == *old(store),
                store_wf(*old(store)),
                forall|w: int| 0 <= w < i ==> (#[trigger] ts0[w]).name@ != name@,
            decreases n - i,
        {
            if str_eq(store.templates[i].name.as_str(), name) {
                let slot = &mut store.templates[i];
                slot.body = body.to_owned();
                proof {
                    assert(template_name_present(ts0, name@));
                    assert forall|w: int| 0 <= w < ts0.len() implies
                        #[trigger] template_upsert_step(
                        ts0[w],
                        store.templates@[w],
                        name@,
                        body@,
                    ) by {
                        if w != i as int && ts0[w].name@ == name@ {
                            if w < i as int {
                                assert(lex_le(
                                    (old(store).templates@[w]).name@,
                                    (old(store).templates@[i as int]).name@,
                                ) && old(store).templates@[w].name@ != old(
                                    store,
                                ).templates@[i as int].name@);
                            } else {
                                assert(lex_le(
                                    (old(store).templates@[i as int]).name@,
                                    (old(store).templates@[w]).name@,
                                ) && old(store).templates@[i as int].name@ != old(
                                    store,
                                ).templates@[w].name@);
                            }
                            assert(false);
                        }
                    }
                    assert forall|x: int, y: int| 0 <= x < y < store.templates@.len() implies
                        lex_le(
                        (#[trigger] store.templates@[x]).name@,
                        (#[trigger] store.templates@[y]).name@,
                    ) && store.templates@[x].name@ != store.templates@[y].name@ by {
                        assert(store.templates@[x].name == ts0[x].name);
                        assert(store.templates@[y].name == ts0[y].name);
                    }
                }
                return ;
            }
            i = i + 1;
        }
        let mut k: usize = 0;
        while k < n && str_lex_le(store.templates[k].name.as_str(), name)
            invariant
                k <= n,
                n == ts0.len(),
                ts0 == store.templates@,
                *store == *old(store),
                store_wf(*old(store)),
                forall|w: int| 0 <= w < n ==> (#[trigger] ts0[w]).name@ != name@,
                forall|w: int| 0 <= w < k ==> lex_le((#[trigger] ts0[w]).name@, name@),
            decreases n - k,
        {
            k = k + 1;
        }
        let entry = Template { name: name.to_owned(), body: body.to_owned() };
        let ghost ge = entry;
        store.templates.insert(k, entry);
        proof {
            let ts1 = store.templates@;
            assert(ts1 == ts0.insert(k as int, ge));
            ts0.insert_ensures(k as int, ge);
            assert forall|x: int, y: int| 0 <= x < y < ts1.len() implies lex_le(
                (#[trigger] ts1[x]).name@,
                (#[trigger] ts1[y]).name@,
            ) && ts1[x].name@ != ts1[y].name@ by {
                if (k as int) < (n as int) {
                    lemma_lex_total(ts0[k as int].name@, name@);
                }
                if x < k && y == k {
                    assert(ts1[x] == ts0[x]);
                } else if x < k && y > k {
                    assert(ts1[x] == ts0[x] && ts1[y] == ts0[y - 1]);
                } else if x == k && y > k {
                    assert(ts1[y] == ts0[y - 1]);
                    if y - 1 > k {
                        lemma_lex_trans(name@, ts0[k as int].name@, ts0[y - 1].name@);
                    }
                } else if x > k {
                    assert(ts1[x] == ts0[x - 1] && ts1[y] == ts0[y - 1]);
                } else {
                    assert(x < k && y < k);
                    assert(ts1[x] == ts0[x] && ts1[y] == ts0[y]);
                }
            }
            assert(!template_name_present(ts0, name@));
            assert(store.templates@[k as int].name@ == name@);
            assert(forall|w: int| 0 <= w < k ==> #[trigger] store.templates@[w] == ts0[w]);
            assert(forall|w: int|
                k < w < store.templates@.len() ==> #[trigger] store.templates@[w] == ts0[w - 1]);
        }
    }

    /// The body of the template with this name, if one is stored.
    pub fn existing(store: &Store, name: &str) -> (r: Option<String>)
        ensures
            match r {
                Some(b) => exists|k: int|
                    0 <= k < store.templates@.len() && (#[trigger] store.templates@[k]).name@
                        == name@ && b@ == store.templates@[k].body@,
                None => !template_name_present(store.templates@, name@),
            },
    {
        let mut i: usize = 0;
        while i < store.templates.len()
            invariant
                i <= store.templates@.len(),
                forall|w: int| 0 <= w < i ==> (#[trigger] store.templates@[w]).name@ != name@,
            decreases store.templates@.len() - i,
    {
            if str_eq(store.templates[i].name.as_str(), name) {
                return Some(store.templates[i].body.clone());
            }
            i = i + 1;
        }
        None
    }

    /// Every stored template, in dictionary order of their names.
    pub fn all(store: &Store) -> (r: Vec<Template>)
        requires
            store_wf(*store),
        ensures
            r@ == store.templates@,
            forall|i: int, j: int|
                0 <= i < j < r@.len() ==> lex_le((#[trigger] r@[i]).name@, (#[trigger] r@[j]).name@),
    {
        let mut r: Vec<Template> = Vec::new();
        let mut i: usize = 0;
        while i < store.templates.len()
            invariant
                i <= store.templates@.len(),
                r@ == store.templates@.take(i as int),
            decreases store.templates@.len() - i,
        {
            r.push(store.templates[i].clone());
            proof {
                assert(store.templates@.take(i + 1) =~= store.templates@.take(i as int).push(
                    store.templates@[i as int],
                ));
            }
            i = i + 1;
        }
        proof {
            assert(store.templates@.take(store.templates@.len() as int) =~= store.templates@);
        }
        r
    }
}

/// Position of the note carrying the given id, if present.
fn find_note_index(notes: &Vec<Note>, id: i32) -> (r: Option<usize>)
    ensures
        match r {
            Some(k) => k < notes@.len() && notes@[k as int].id == id,
            None => forall|k: int| 0 <= k < notes@.len() ==> (#[trigger] notes@[k]).id != id,
        },
{
    let mut i: usize = 0;
    while i < notes.len()
        invariant
            i <= notes@.len(),
            forall|k: int| 0 <= k < i ==> (#[trigger] notes@[k]).id != id,
        decreases notes@.len() - i,
    {
        if notes[i].id == id {
            return Some(i);
        }
        i = i + 1;
    }
    None
}

impl Note {
    /// Removes the note carrying the id. `NotFound` when there is none;
    /// the store is then untouched. Tasks and templates are never touched.
    pub fn delete(store: &mut Store, id: i32) -> (r: Result<(), Error>)
        requires
            store_wf(*old(store)),
        ensures
            store_wf(*final(store)),
            match r {
                Ok(_) => {
                    &&& exists|k: int|
                        0 <= k < old(store).notes@.len() && (#[trigger] old(store).notes@[k]).id
                            == id && final(store).notes@ == old(store).notes@.remove(k)
                    &&& final(store).tasks@ == old(store).tasks@
                    &&& final(store).templates@ == old(store).templates@
                    &&& final(store).next_task_id == old(store).next_task_id
                    &&& final(store).next_note_id == old(store).next_note_id
                },
                Err(e) => {
                    &&& e == Error::NotFound
                    &&& *final(store) == *old(store)
                    &&& forall|k: int|
                        0 <= k < old(store).notes@.len() ==> (#[trigger] old(
                            store,
                        ).notes@[k]).id != id
                },
            },
    {
        match find_note_index(&store.notes, id) {
            None => Err(Error::NotFound),
            Some(k) => {
                proof {
                    store.notes@.remove_ensures(k as int);
                }
                store.notes.remove(k);
                proof {
                    let ns0 = old(store).notes@;
                    let ns1 = store.notes@;
                    assert forall|w: int| 0 <= w < ns1.len() implies #[trigger] note_resolves(
                        store.tasks@,
                        ns1[w],
                    ) by {
                        if w < k as int {
                            assert(ns1[w] == ns0[w]);
                            assert(note_resolves(store.tasks@, ns0[w]));
                        } else {
                            assert(ns1[w] == ns0[w + 1]);
                            assert(note_resolves(store.tasks@, ns0[w + 1]));
                        }
                    }
                    assert forall|x: int, y: int| 0 <= x < y < ns1.len() implies ns1[x].id
                        < ns1[y].id by {
                        if y < k as int {
                        } else if x < k as int {
                            assert(ns1[x] == ns0[x] && ns1[y] == ns0[y + 1]);
                        } else {
                            assert(ns1[x] == ns0[x + 1] && ns1[y] == ns0[y + 1]);
                        }
                    }
                }
                Ok(())
            },
        }
    }
}

/// Whatever keeps every task's id and parent reference in place keeps all
/// references resolving.
proof fn lemma_ids_preserved_resolution(ts0: Seq<Task>, ts1: Seq<Task>)
    requires
        ts0.len() == ts1.len(),
        forall|w: int|
            0 <= w < ts0.len() ==> (#[trigger] ts1[w]).id == ts0[w].id && ts1[w].parent_id
                == ts0[w].parent_id,
    ensures
        forall|k: int|
            0 <= k < ts0.len() && parent_resolves(ts0, k) ==> #[trigger] parent_resolves(ts1, k),
        forall|n: Note| #[trigger] note_resolves(ts0, n) ==> note_resolves(ts1, n),
{
    assert forall|k: int| 0 <= k < ts0.len() && parent_resolves(ts0, k) implies
        #[trigger] parent_resolves(ts1, k) by {
        match ts0[k].parent_id {
            Some(p) => {
                let w = choose|w: int|
                    0 <= w < ts0.len() && (#[trigger] ts0[w]).id == p && p < ts0[k].id;
                assert(ts1[w].id == p && p < ts1[k].id);
            },
            None => {},
        }
    }
    assert forall|n: Note| #[trigger] note_resolves(ts0, n) implies note_resolves(ts1, n) by {
        let w = choose|w: int| 0 <= w < ts0.len() && (#[trigger] ts0[w]).id == n.task_id;
        assert(ts1[w].id == n.task_id);
    }
}

} // verus!
