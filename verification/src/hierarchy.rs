use vstd::prelude::*;
use vstd::seq_lib::*;
use vstd::set::axiom_set_insert_len;
use vstd::set_lib::*;

use crate::models::{find_task_index, Task};

verus! {

/// One emitted row of the tree traversal: the position (in the input
/// sequence) of the task to print, and the indent level to print it at.
#[derive(Clone, Copy, Debug, PartialEq, Eq, Structural)]
pub struct TreeEntry {
    pub task: usize,
    pub indent: usize,
}

/// Task `c` names task `p` as its parent.
pub open spec fn is_child_of(s: Seq<Task>, c: int, p: int) -> bool {
    s[c].parent_id == Some(s[p].id)
}

/// Task ids are pairwise distinct.
pub open spec fn unique_ids(s: Seq<Task>) -> bool {
    forall|i: int, j: int| 0 <= i < j < s.len() ==> s[i].id != s[j].id
}

/// Whenever a task's `parent_id` resolves to another task of the set, the
/// parent's id is strictly smaller. Every creation-ordered task set has
/// this shape (a parent must already exist, with an earlier id, when its
/// child is created), and it rules out reference cycles.
pub open spec fn parents_precede(s: Seq<Task>) -> bool {
    forall|c: int, p: int|
        0 <= c < s.len() && 0 <= p < s.len() && #[trigger] is_child_of(s, c, p) ==> s[p].id
            < s[c].id
}

/// The well-formedness the traversal is specified against.
pub open spec fn tree_input_wf(s: Seq<Task>) -> bool {
    unique_ids(s) && parents_precede(s)
}

/// A root: no task of the set is its parent — either `parent_id` is `None`
/// or it references an id absent from the set (an orphan, deliberately
/// surfaced at top level).
pub open spec fn is_root_index(s: Seq<Task>, j: int) -> bool {
    !(exists|p: int| 0 <= p < s.len() && is_child_of(s, j, p))
}

/// The sequence `0, 1, ..., n - 1`.
pub open spec fn index_seq(n: int) -> Seq<int> {
    Seq::new(n as nat, |i: int| i)
}

/// The predicate selecting children of `p`, as a function value, so that
/// every statement about it names one and the same function.
pub open spec fn child_pred(s: Seq<Task>, p: int) -> spec_fn(int) -> bool {
    |c: int| is_child_of(s, c, p)
}

/// The predicate selecting roots, as a function value.
pub open spec fn root_pred(s: Seq<Task>) -> spec_fn(int) -> bool {
    |j: int| is_root_index(s, j)
}

/// The children of task `p`, as positions in discovery (input) order.
pub open spec fn children_of(s: Seq<Task>, p: int) -> Seq<int> {
    index_seq(s.len() as int).filter(child_pred(s, p))
}

/// The root positions, in discovery (input) order.
pub open spec fn roots_of(s: Seq<Task>) -> Seq<int> {
    index_seq(s.len() as int).filter(root_pred(s))
}

/// Does the open-only filter let the task at `j` be printed?
pub open spec fn is_visible(s: Seq<Task>, j: int, open_only: bool) -> bool {
    !open_only || s[j].open
}

/// Every element of `idxs` is a valid position whose task id lies above `lo`.
pub open spec fn all_above(s: Seq<Task>, idxs: Seq<int>, lo: int) -> bool {
    forall|k: int| 0 <= k < idxs.len() ==> 0 <= #[trigger] idxs[k] < s.len() && lo < s[idxs[k]].id
}

/// The rows emitted for the subtree rooted at position `i`, the root of the
/// subtree tagged with `level`. A task hidden by the open-only filter is
/// skipped at emission time only: its children are still traversed, and they
/// surface at the level the hidden task would have occupied.
pub open spec fn emit_node(s: Seq<Task>, i: int, level: int, open_only: bool) -> Seq<(int, int)>
    decreases i32::MAX - s[i].id, 1int, 0int,
        when tree_input_wf(s) && 0 <= i < s.len()
    via emit_node_decreases
{
    if is_visible(s, i, open_only) {
        seq![(i, level)] + emit_list(s, children_of(s, i), level + 1, open_only, s[i].id as int)
    } else {
        emit_list(s, children_of(s, i), level, open_only, s[i].id as int)
    }
}

/// The rows emitted for a forest of sibling subtrees, in order.
/// `lo` is a strict lower bound on the ids in `idxs`, there to justify
/// termination: ids strictly grow from parent to child.
pub open spec fn emit_list(
    s: Seq<Task>,
    idxs: Seq<int>,
    level: int,
    open_only: bool,
    lo: int,
) -> Seq<(int, int)>
    decreases i32::MAX - lo, 0int, idxs.len(),
        when tree_input_wf(s) && lo <= i32::MAX && all_above(s, idxs, lo)
{
    if idxs.len() == 0 {
        Seq::empty()
    } else {
        emit_node(s, idxs[0], level, open_only) + emit_list(
            s,
            idxs.skip(1),
            level,
            open_only,
            lo,
        )
    }
}

#[via_fn]
proof fn emit_node_decreases(s: Seq<Task>, i: int, level: int, open_only: bool) {
    lemma_children_of_elems(s, i);
}

/// The full traversal: every root subtree in discovery order, roots at
/// indent level 0; siblings appear in discovery (input) order.
pub open spec fn spec_tree(s: Seq<Task>, open_only: bool) -> Seq<(int, int)> {
    emit_list(s, roots_of(s), 0, open_only, i32::MIN - 1)
}

/// The number of traversal steps left for the subtree at position `i`:
/// one for the node itself plus the steps of all its descendants.
spec fn node_weight(s: Seq<Task>, i: int) -> nat
    decreases i32::MAX - s[i].id, 1int, 0int,
        when tree_input_wf(s) && 0 <= i < s.len()
    via node_weight_decreases
{
    1 + list_weight(s, children_of(s, i), s[i].id as int)
}

/// The traversal steps left for a forest of sibling subtrees.
spec fn list_weight(s: Seq<Task>, idxs: Seq<int>, lo: int) -> nat
    decreases i32::MAX - lo, 0int, idxs.len(),
        when tree_input_wf(s) && lo <= i32::MAX && all_above(s, idxs, lo)
{
    if idxs.len() == 0 {
        0
    } else {
        node_weight(s, idxs[0]) + list_weight(s, idxs.skip(1), lo)
    }
}

#[via_fn]
proof fn node_weight_decreases(s: Seq<Task>, i: int) {
    lemma_children_of_elems(s, i);
}

/// A filtered sequence keeps no duplicates it did not already have.
proof fn lemma_filter_no_dup(s: Seq<int>, pred: spec_fn(int) -> bool)
    requires
        s.no_duplicates(),
    ensures
        s.filter(pred).no_duplicates(),
    decreases s.len(),
{
    reveal(Seq::filter);
    if s.len() > 0 {
        let rest = s.drop_last();
        assert(forall|i: int, j: int|
            0 <= i < j < rest.len() ==> rest[i] != rest[j]) by {
            assert(forall|i: int| 0 <= i < rest.len() ==> rest[i] == s[i]);
        }
        lemma_filter_no_dup(rest, pred);
        if pred(s.last()) {
            let fr = rest.filter(pred);
            assert forall|t: int| 0 <= t < fr.len() implies fr[t] != s.last() by {
                assert(fr.contains(fr[t]));
                rest.lemma_filter_contains_rev(pred, fr[t]);
                let w = choose|w: int| 0 <= w < rest.len() && rest[w] == fr[t];
                assert(s[w] == rest[w]);
            }
        }
    }
}

/// What the children of `p` look like: valid positions, ids strictly above
/// the parent's, actual children, no duplicates — and completeness: every
/// actual child position occurs in the list.
pub proof fn lemma_children_of_elems(s: Seq<Task>, p: int)
    requires
        tree_input_wf(s),
        0 <= p < s.len(),
    ensures
        all_above(s, children_of(s, p), s[p].id as int),
        forall|k: int|
            0 <= k < children_of(s, p).len() ==> is_child_of(
                s,
                #[trigger] children_of(s, p)[k],
                p,
            ),
        children_of(s, p).no_duplicates(),
        forall|c: int| 0 <= c < s.len() && is_child_of(s, c, p) ==> children_of(s, p).contains(c),
{
    let n = s.len() as int;
    let pred = child_pred(s, p);
    let base = index_seq(n);
    let ch = base.filter(pred);
    assert(base.no_duplicates());
    lemma_filter_no_dup(base, pred);
    assert forall|k: int| 0 <= k < ch.len() implies 0 <= #[trigger] ch[k] < s.len()
        && s[p].id < s[ch[k]].id && is_child_of(s, ch[k], p) by {
        base.lemma_filter_pred(pred, k);
        assert(ch.contains(ch[k]));
        base.lemma_filter_contains_rev(pred, ch[k]);
        let w = choose|w: int| 0 <= w < base.len() && base[w] == ch[k];
        assert(base[w] == w);
    }
    assert forall|c: int| 0 <= c < s.len() && is_child_of(s, c, p) implies ch.contains(c) by {
        assert(base[c] == c);
        base.lemma_filter_contains(pred, c);
    }
}

/// What the root list looks like: valid root positions, no duplicates, and
/// every root position occurs in it.
pub proof fn lemma_roots_of_elems(s: Seq<Task>)
    requires
        tree_input_wf(s),
    ensures
        all_above(s, roots_of(s), i32::MIN - 1),
        forall|k: int|
            0 <= k < roots_of(s).len() ==> is_root_index(s, #[trigger] roots_of(s)[k]),
        roots_of(s).no_duplicates(),
        forall|j: int| 0 <= j < s.len() && is_root_index(s, j) ==> roots_of(s).contains(j),
{
    let n = s.len() as int;
    let pred = root_pred(s);
    let base = index_seq(n);
    let rs = roots_of(s);
    assert(base.no_duplicates());
    lemma_filter_no_dup(base, pred);
    assert forall|k: int| 0 <= k < rs.len() implies 0 <= #[trigger] rs[k] < s.len()
        && i32::MIN - 1 < s[rs[k]].id && is_root_index(s, rs[k]) by {
        base.lemma_filter_pred(pred, k);
        assert(rs.contains(rs[k]));
        base.lemma_filter_contains_rev(pred, rs[k]);
        let w = choose|w: int| 0 <= w < base.len() && base[w] == rs[k];
        assert(base[w] == w);
    }
    assert forall|j: int| 0 <= j < s.len() && is_root_index(s, j) implies rs.contains(j) by {
        assert(base[j] == j);
        base.lemma_filter_contains(pred, j);
    }
}

/// A traversal row as a pair of plain integers: (position, indent level).
pub open spec fn entry_pair(e: TreeEntry) -> (int, int) {
    (e.task as int, e.indent as int)
}

/// A row sequence as pairs of plain integers.
pub open spec fn entry_pairs(es: Seq<TreeEntry>) -> Seq<(int, int)> {
    es.map_values(|e: TreeEntry| entry_pair(e))
}

/// The rows still owed by the work stack: the whole subtree of the top
/// entry first, then what the entries below it owe.
spec fn pending_emission(s: Seq<Task>, st: Seq<(int, int)>, open_only: bool) -> Seq<
    (int, int),
>
    decreases st.len(),
{
    if st.len() == 0 {
        Seq::empty()
    } else {
        emit_node(s, st.last().0, st.last().1, open_only) + pending_emission(
            s,
            st.drop_last(),
            open_only,
        )
    }
}

/// The traversal steps still owed by the work stack.
spec fn stack_weight(s: Seq<Task>, st: Seq<(int, int)>) -> nat
    decreases st.len(),
{
    if st.len() == 0 {
        0
    } else {
        node_weight(s, st.last().0) + stack_weight(s, st.drop_last())
    }
}

proof fn lemma_pending_push(s: Seq<Task>, st: Seq<(int, int)>, e: (int, int), open_only: bool)
    ensures
        pending_emission(s, st.push(e), open_only) == emit_node(s, e.0, e.1, open_only)
            + pending_emission(s, st, open_only),
        stack_weight(s, st.push(e)) == node_weight(s, e.0) + stack_weight(s, st),
{
    assert(st.push(e).drop_last() =~= st);
    assert(st.push(e).last() == e);
}

/// How many tasks carry an id smaller than the one at position `i`. Stack
/// entries never sit deeper than the rank of their task, which bounds every
/// indent level by the number of tasks.
spec fn rank_set(s: Seq<Task>, i: int) -> Set<int> {
    Set::new(|k: int| 0 <= k < s.len() && s[k].id < s[i].id)
}

spec fn rank_of(s: Seq<Task>, i: int) -> nat {
    rank_set(s, i).len()
}

proof fn lemma_rank_bound(s: Seq<Task>, i: int)
    requires
        0 <= i < s.len(),
    ensures
        rank_set(s, i).finite(),
        rank_of(s, i) < s.len(),
{
    let rs = rank_set(s, i);
    let range = set_int_range(0, s.len() as int);
    lemma_int_range(0, s.len() as int);
    assert(rs.insert(i).subset_of(range));
    lemma_len_subset(rs.insert(i), range);
    lemma_len_subset(rs, rs.insert(i));
    axiom_set_insert_len(rs, i);
    assert(!rs.contains(i));
}

proof fn lemma_rank_increases(s: Seq<Task>, i: int, c: int)
    requires
        0 <= i < s.len(),
        0 <= c < s.len(),
        s[i].id < s[c].id,
    ensures
        rank_of(s, i) < rank_of(s, c),
{
    let a = rank_set(s, i);
    let b = rank_set(s, c);
    lemma_rank_bound(s, i);
    lemma_rank_bound(s, c);
    assert(a.insert(i).subset_of(b));
    lemma_len_subset(a.insert(i), b);
    axiom_set_insert_len(a, i);
    assert(!a.contains(i));
}

/// Peeling the first subtree off a forest.
proof fn lemma_emit_list_cons(s: Seq<Task>, idxs: Seq<int>, level: int, open_only: bool, lo: int)
    requires
        tree_input_wf(s),
        lo < i32::MAX,
        all_above(s, idxs, lo),
        idxs.len() > 0,
    ensures
        emit_list(s, idxs, level, open_only, lo) == emit_node(s, idxs[0], level, open_only)
            + emit_list(s, idxs.skip(1), level, open_only, lo),
        list_weight(s, idxs, lo) == node_weight(s, idxs[0]) + list_weight(s, idxs.skip(1), lo),
        all_above(s, idxs.skip(1), lo),
{
    assert forall|k: int| 0 <= k < idxs.skip(1).len() implies 0 <= #[trigger] idxs.skip(1)[k]
        < s.len() && lo < s[idxs.skip(1)[k]].id by {
        assert(idxs.skip(1)[k] == idxs[k + 1]);
    }
}

proof fn lemma_filter_singleton(x: int, pred: spec_fn(int) -> bool)
    ensures
        pred(x) ==> seq![x].filter(pred) == seq![x],
        !pred(x) ==> seq![x].filter(pred) == Seq::<int>::empty(),
{
    reveal(Seq::filter);
    assert(seq![x].drop_last() =~= Seq::<int>::empty());
    assert(Seq::<int>::empty().filter(pred) == Seq::<int>::empty());
    assert(seq![x].last() == x);
    if pred(x) {
        assert(Seq::<int>::empty().filter(pred).push(x) =~= seq![x]);
    }
}

/// Positions filtered out of the tail `t..` of the position sequence are
/// valid positions, which every id bound below `i32::MIN` accepts.
proof fn lemma_root_tail_elems(s: Seq<Task>, t: int)
    requires
        0 <= t <= s.len(),
    ensures
        all_above(s, index_seq(s.len() as int).skip(t).filter(root_pred(s)), i32::MIN - 1),
{
    let sub = index_seq(s.len() as int).skip(t);
    let fr = sub.filter(root_pred(s));
    assert forall|k: int| 0 <= k < fr.len() implies 0 <= #[trigger] fr[k] < s.len() && i32::MIN - 1
        < s[fr[k]].id by {
        assert(fr.contains(fr[k]));
        sub.lemma_filter_contains_rev(root_pred(s), fr[k]);
        let w = choose|w: int| 0 <= w < sub.len() && sub[w] == fr[k];
        assert(sub[w] == t + w);
    }
}

/// Every stack entry is a valid position whose indent level is at most the
/// rank of its task.
spec fn stack_entries_ok(s: Seq<Task>, st: Seq<TreeEntry>) -> bool {
    forall|t: int|
        0 <= t < st.len() ==> (#[trigger] st[t]).task < s.len() && st[t].indent as int <= rank_of(
            s,
            st[t].task as int,
        )
}

/// Reconstructs the task tree from the flat task list and returns its
/// depth-first traversal: every root (a task with no parent, or whose
/// parent id is absent from the list) at indent level 0, children one
/// level deeper than their parent, siblings in discovery (input) order.
///
/// With `open_only`, a closed task is skipped at emission time only: its
/// children are still traversed, and they surface at the indent level the
/// closed task would have occupied, as if it were invisible.
#[verifier::loop_isolation(false)]
#[verifier::rlimit(100)]
pub fn tree(tasks: &Vec<Task>, open_only: bool) -> (out: Vec<TreeEntry>)
    requires
        tree_input_wf(tasks@),
    ensures
        entry_pairs(out@) == spec_tree(tasks@, open_only),
{
    let ghost s = tasks@;
    let n = tasks.len();
    let ghost u2i = |u: usize| u as int;

    // children[p] collects the positions of p's children, in input order.
    let mut children: Vec<Vec<usize>> = Vec::new();
    let mut j: usize = 0;
    while j < n
        invariant
            j <= n,
            children@.len() == j,
            forall|q: int| 0 <= q < j ==> (#[trigger] children@[q])@.len() == 0,
        decreases n - j,
    {
        children.push(Vec::new());
        j = j + 1;
    }

    proof {
        reveal(Seq::filter);
        assert(index_seq(0).len() == 0);
        assert forall|p: int| 0 <= p < n implies (#[trigger] children@[p])@.map_values(u2i)
            == index_seq(0).filter(child_pred(s, p)) by {
            assert((children@[p])@.map_values(u2i) =~= index_seq(0).filter(child_pred(s, p)));
        }
    }

    let mut j: usize = 0;
    while j < n
        invariant
            j <= n,
            children@.len() == n,
            forall|p: int|
                0 <= p < n ==> (#[trigger] children@[p])@.map_values(u2i) == index_seq(
                    j as int,
                ).filter(child_pred(s, p)),
        decreases n - j,
    {
        let ghost j0 = j as int;
        let ghost prev = children@;
        match tasks[j].parent_id {
            Some(pid) => {
                match find_task_index(tasks, pid) {
                    Some(k) => {
                        let slot = &mut children[k];
                        slot.push(j);
                        proof {
                            assert(is_child_of(s, j0, k as int));
                            assert forall|p: int| 0 <= p < n implies (
                            #[trigger] children@[p])@.map_values(u2i) == index_seq(
                                j0 + 1,
                            ).filter(child_pred(s, p)) by {
                                assert(index_seq(j0 + 1) =~= index_seq(j0).push(j0));
                                index_seq(j0).lemma_filter_push(j0, child_pred(s, p));
                                if p == k as int {
                                    assert(children@[p]@ =~= prev[p]@.push(j));
                                    assert(children@[p]@.map_values(u2i) =~= prev[p]@.map_values(
                                        u2i,
                                    ).push(j0));
                                } else {
                                    assert(s[p].id != s[k as int].id);
                                    assert(!is_child_of(s, j0, p));
                                    assert(children@[p] == prev[p]);
                                }
                            }
                        }
                    },
                    None => {
                        proof {
                            assert forall|p: int| 0 <= p < n implies (
                            #[trigger] children@[p])@.map_values(u2i) == index_seq(
                                j0 + 1,
                            ).filter(child_pred(s, p)) by {
                                assert(index_seq(j0 + 1) =~= index_seq(j0).push(j0));
                                index_seq(j0).lemma_filter_push(j0, child_pred(s, p));
                                assert(s[p].id != pid);
                                assert(!is_child_of(s, j0, p));
                            }
                        }
                    },
                }
            },
            None => {
                proof {
                    assert forall|p: int| 0 <= p < n implies (#[trigger] children@[p])@.map_values(
                        u2i,
                    ) == index_seq(j0 + 1).filter(child_pred(s, p)) by {
                        assert(index_seq(j0 + 1) =~= index_seq(j0).push(j0));
                        index_seq(j0).lemma_filter_push(j0, child_pred(s, p));
                        assert(!is_child_of(s, j0, p));
                    }
                }
            },
        }
        j = j + 1;
    }

    // Seed the work stack with the roots, last position first, so that the
    // first root of the input is popped, and hence emitted, first.
    let mut stack: Vec<TreeEntry> = Vec::new();
    proof {
        reveal(Seq::filter);
        assert(index_seq(n as int).skip(n as int) =~= Seq::<int>::empty());
        assert(entry_pairs(stack@) =~= Seq::<(int, int)>::empty());
    }
    let mut j: usize = n;
    while j > 0
        invariant
            j <= n,
            pending_emission(s, entry_pairs(stack@), open_only) == emit_list(
                s,
                index_seq(n as int).skip(j as int).filter(root_pred(s)),
                0,
                open_only,
                i32::MIN - 1,
            ),
            stack_weight(s, entry_pairs(stack@)) == list_weight(
                s,
                index_seq(n as int).skip(j as int).filter(root_pred(s)),
                i32::MIN - 1,
            ),
            stack_entries_ok(s, stack@),
        decreases j,
    {
        j = j - 1;
        let ghost tail = index_seq(n as int).skip(j as int + 1).filter(root_pred(s));
        proof {
            assert(index_seq(n as int).skip(j as int) =~= seq![j as int] + index_seq(
                n as int,
            ).skip(j as int + 1));
            Seq::filter_distributes_over_add(
                seq![j as int],
                index_seq(n as int).skip(j as int + 1),
                root_pred(s),
            );
            lemma_filter_singleton(j as int, root_pred(s));
            lemma_root_tail_elems(s, j as int + 1);
        }
        let is_r = match tasks[j].parent_id {
            None => true,
            Some(pid) => match find_task_index(tasks, pid) {
                Some(k2) => {
                    proof {
                        assert(is_child_of(s, j as int, k2 as int));
                    }
                    false
                },
                None => true,
            },
        };
        proof {
            assert(is_r == is_root_index(s, j as int));
        }
        if is_r {
            let ghost before = entry_pairs(stack@);
            stack.push(TreeEntry { task: j, indent: 0 });
            proof {
                assert(entry_pairs(stack@) =~= before.push((j as int, 0)));
                lemma_pending_push(s, before, (j as int, 0), open_only);
                let cons = seq![j as int] + tail;
                assert(cons[0] == j as int);
                assert(cons.skip(1) =~= tail);
                lemma_emit_list_cons(s, cons, 0, open_only, i32::MIN - 1);
            }
        } else {
            proof {
                assert(Seq::<int>::empty() + tail =~= tail);
            }
        }
    }

    let mut out: Vec<TreeEntry> = Vec::new();
    proof {
        assert(index_seq(n as int).skip(0) =~= index_seq(n as int));
        assert(entry_pairs(out@) =~= Seq::<(int, int)>::empty());
        assert(entry_pairs(out@) + pending_emission(s, entry_pairs(stack@), open_only)
            =~= pending_emission(s, entry_pairs(stack@), open_only));
    }
    while stack.len() > 0
        invariant
            entry_pairs(out@) + pending_emission(s, entry_pairs(stack@), open_only) == spec_tree(
                s,
                open_only,
            ),
            stack_entries_ok(s, stack@),
        decreases stack_weight(s, entry_pairs(stack@)),
    {
        let ghost prev_stack = stack@;
        let ghost prev_out = out@;
        let top = stack.pop().unwrap();
        let i = top.task;
        let lvl = top.indent;
        let ghost rest = entry_pairs(stack@);
        proof {
            assert(prev_stack[prev_stack.len() - 1] == top);
            assert(stack@ =~= prev_stack.drop_last());
            assert(entry_pairs(prev_stack) =~= rest.push(entry_pair(top)));
            lemma_pending_push(s, rest, entry_pair(top), open_only);
            lemma_children_of_elems(s, i as int);
            lemma_rank_bound(s, i as int);
        }
        let ghost ch = children_of(s, i as int);
        let ghost lo = s[i as int].id as int;
        let visible = !open_only || tasks[i].open;
        if visible {
            out.push(TreeEntry { task: i, indent: lvl });
            proof {
                assert(entry_pairs(out@) =~= prev_out.map_values(
                    |e: TreeEntry| entry_pair(e),
                ).push((i as int, lvl as int)));
            }
        }
        let lvl2 = if visible {
            lvl + 1
        } else {
            lvl
        };
        let m = children[i].len();
        let mut k = m;
        proof {
            assert(children@[i as int]@.map_values(u2i) == ch);
            assert(ch.skip(m as int) =~= Seq::<int>::empty());
            assert(emit_list(s, ch.skip(m as int), lvl2 as int, open_only, lo) == Seq::<
                (int, int),
            >::empty());
            assert(list_weight(s, ch.skip(m as int), lo) == 0);
            assert(Seq::<(int, int)>::empty() + pending_emission(s, rest, open_only)
                =~= pending_emission(s, rest, open_only));
        }
        while k > 0
            invariant
                k <= m,
                m == children@[i as int]@.len(),
                pending_emission(s, entry_pairs(stack@), open_only) == emit_list(
                    s,
                    ch.skip(k as int),
                    lvl2 as int,
                    open_only,
                    lo,
                ) + pending_emission(s, rest, open_only),
                stack_weight(s, entry_pairs(stack@)) == list_weight(s, ch.skip(k as int), lo)
                    + stack_weight(s, rest),
                stack_entries_ok(s, stack@),
            decreases k,
        {
            k = k - 1;
            let c = children[i][k];
            proof {
                assert(children@[i as int]@.map_values(u2i)[k as int] == c as int);
                assert(ch[k as int] == c as int);
            }
            let ghost before = entry_pairs(stack@);
            stack.push(TreeEntry { task: c, indent: lvl2 });
            proof {
                assert(entry_pairs(stack@) =~= before.push((c as int, lvl2 as int)));
                lemma_pending_push(s, before, (c as int, lvl2 as int), open_only);
                assert(ch.skip(k as int)[0] == ch[k as int]);
                assert(ch.skip(k as int).skip(1) =~= ch.skip(k as int + 1));
                assert forall|t: int| 0 <= t < ch.skip(k as int).len() implies 0 <= #[trigger] ch.skip(
                    k as int,
                )[t] < s.len() && lo < s[ch.skip(k as int)[t]].id by {
                    assert(ch.skip(k as int)[t] == ch[k + t]);
                }
                lemma_emit_list_cons(s, ch.skip(k as int), lvl2 as int, open_only, lo);
                lemma_rank_increases(s, i as int, c as int);
                let a = emit_node(s, c as int, lvl2 as int, open_only);
                let b = emit_list(s, ch.skip(k as int + 1), lvl2 as int, open_only, lo);
                let p = pending_emission(s, rest, open_only);
                assert(a + (b + p) =~= (a + b) + p);
            }
        }
        proof {
            assert(ch.skip(0) =~= ch);
            let hd = seq![(i as int, lvl as int)];
            let body = emit_list(s, ch, lvl2 as int, open_only, lo);
            let p = pending_emission(s, rest, open_only);
            if visible {
                assert(emit_node(s, i as int, lvl as int, open_only) == hd + body);
                assert(entry_pairs(prev_out) + ((hd + body) + p) =~= (entry_pairs(prev_out) + hd)
                    + (body + p));
                assert(entry_pairs(prev_out) + hd =~= entry_pairs(prev_out).push(
                    (i as int, lvl as int),
                ));
                assert(entry_pairs(out@) =~= entry_pairs(prev_out).push((i as int, lvl as int)));
            } else {
                assert(emit_node(s, i as int, lvl as int, open_only) == body);
                assert(entry_pairs(prev_out) + (body + p) =~= entry_pairs(prev_out) + (body + p));
            }
        }
    }
    proof {
        assert(entry_pairs(stack@) =~= Seq::<(int, int)>::empty());
        assert(entry_pairs(out@) + pending_emission(s, entry_pairs(stack@), open_only)
            =~= entry_pairs(out@));
    }
    out
}

/// Some task of the set is `j`'s parent.
pub open spec fn has_parent_index(s: Seq<Task>, j: int) -> bool {
    exists|p: int| 0 <= p < s.len() && is_child_of(s, j, p)
}

/// The position of `j`'s parent (meaningful only when `has_parent_index`).
pub open spec fn parent_index(s: Seq<Task>, j: int) -> int {
    choose|p: int| 0 <= p < s.len() && is_child_of(s, j, p)
}

/// `i` is `j` itself, or a transitive parent of `j`.
pub open spec fn is_ancestor(s: Seq<Task>, i: int, j: int) -> bool
    decreases s[j].id - i32::MIN,
        when tree_input_wf(s) && 0 <= i < s.len() && 0 <= j < s.len()
{
    i == j || (has_parent_index(s, j) && is_ancestor(s, i, parent_index(s, j)))
}

/// The number of strict ancestors of `j` that the filter lets through —
/// with no filtering, simply the depth of `j` in its tree.
pub open spec fn visible_depth(s: Seq<Task>, j: int, open_only: bool) -> int
    decreases s[j].id - i32::MIN,
        when tree_input_wf(s) && 0 <= j < s.len()
{
    if has_parent_index(s, j) {
        visible_depth(s, parent_index(s, j), open_only) + if is_visible(
            s,
            parent_index(s, j),
            open_only,
        ) {
            1int
        } else {
            0int
        }
    } else {
        0
    }
}

/// The number of visible strict ancestors of `j` below or at `i`: what the
/// traversal of the subtree of `i` adds to `j`'s indent level.
pub open spec fn branch_depth(s: Seq<Task>, i: int, j: int, open_only: bool) -> int
    decreases s[j].id - i32::MIN,
        when tree_input_wf(s) && 0 <= i < s.len() && 0 <= j < s.len()
{
    if i == j {
        0
    } else if has_parent_index(s, j) {
        branch_depth(s, i, parent_index(s, j), open_only) + if is_visible(
            s,
            parent_index(s, j),
            open_only,
        ) {
            1int
        } else {
            0int
        }
    } else {
        0
    }
}

/// How often position `j` occurs among the rows.
pub open spec fn row_count(es: Seq<(int, int)>, j: int) -> int
    decreases es.len(),
{
    if es.len() == 0 {
        0
    } else {
        row_count(es.drop_last(), j) + if es.last().0 == j {
            1int
        } else {
            0int
        }
    }
}

proof fn lemma_row_count_concat(a: Seq<(int, int)>, b: Seq<(int, int)>, j: int)
    ensures
        row_count(a + b, j) == row_count(a, j) + row_count(b, j),
    decreases b.len(),
{
    if b.len() == 0 {
        assert(a + b =~= a);
    } else {
        assert((a + b).drop_last() =~= a + b.drop_last());
        lemma_row_count_concat(a, b.drop_last(), j);
        assert((a + b).last() == b.last());
    }
}

proof fn lemma_same_id_same_index(s: Seq<Task>, a: int, b: int)
    requires
        unique_ids(s),
        0 <= a < s.len(),
        0 <= b < s.len(),
        s[a].id == s[b].id,
    ensures
        a == b,
{
    if a < b {
        assert(s[a].id != s[b].id);
    } else if b < a {
        assert(s[b].id != s[a].id);
    }
}

/// With unique ids the parent position is the only one: whoever `c` names
/// as parent is `parent_index(s, c)`.
pub proof fn lemma_parent_index_is(s: Seq<Task>, c: int, i: int)
    requires
        tree_input_wf(s),
        0 <= c < s.len(),
        0 <= i < s.len(),
        is_child_of(s, c, i),
    ensures
        has_parent_index(s, c),
        parent_index(s, c) == i,
{
    assert(has_parent_index(s, c));
    let p = parent_index(s, c);
    assert(0 <= p < s.len() && is_child_of(s, c, p));
    lemma_same_id_same_index(s, p, i);
}

/// Ids never shrink going down: an ancestor's id is at most the descendant's.
pub proof fn lemma_ancestor_id_le(s: Seq<Task>, i: int, j: int)
    requires
        tree_input_wf(s),
        0 <= i < s.len(),
        0 <= j < s.len(),
        is_ancestor(s, i, j),
    ensures
        s[i].id <= s[j].id,
    decreases s[j].id - i32::MIN,
{
    if i != j {
        let p = parent_index(s, j);
        assert(0 <= p < s.len() && is_child_of(s, j, p));
        lemma_ancestor_id_le(s, i, p);
    }
}

/// Ancestry extends through a parent link at the top.
pub proof fn lemma_ancestor_through_child(s: Seq<Task>, i: int, c: int, j: int)
    requires
        tree_input_wf(s),
        0 <= i < s.len(),
        0 <= c < s.len(),
        0 <= j < s.len(),
        is_child_of(s, c, i),
        is_ancestor(s, c, j),
    ensures
        is_ancestor(s, i, j),
    decreases s[j].id - i32::MIN,
{
    if c == j {
        lemma_parent_index_is(s, c, i);
        assert(is_ancestor(s, i, i));
    } else {
        let p = parent_index(s, j);
        assert(0 <= p < s.len() && is_child_of(s, j, p));
        lemma_ancestor_through_child(s, i, c, p);
    }
}

/// Every task has a root among its ancestors.
proof fn lemma_root_ancestor_exists(s: Seq<Task>, j: int)
    requires
        tree_input_wf(s),
        0 <= j < s.len(),
    ensures
        exists|r: int| 0 <= r < s.len() && #[trigger] is_root_index(s, r) && is_ancestor(s, r, j),
    decreases s[j].id - i32::MIN,
{
    if is_root_index(s, j) {
        assert(is_ancestor(s, j, j));
    } else {
        assert(has_parent_index(s, j));
        let p = parent_index(s, j);
        assert(0 <= p < s.len() && is_child_of(s, j, p));
        lemma_root_ancestor_exists(s, p);
        let r = choose|r: int|
            0 <= r < s.len() && #[trigger] is_root_index(s, r) && is_ancestor(s, r, p);
        assert(is_ancestor(s, r, j));
    }
}

/// Two ancestors of the same task lie on one chain.
proof fn lemma_ancestors_comparable(s: Seq<Task>, a: int, b: int, j: int)
    requires
        tree_input_wf(s),
        0 <= a < s.len(),
        0 <= b < s.len(),
        0 <= j < s.len(),
        is_ancestor(s, a, j),
        is_ancestor(s, b, j),
    ensures
        is_ancestor(s, a, b) || is_ancestor(s, b, a),
    decreases s[j].id - i32::MIN,
{
    if a == j || b == j {
    } else {
        let p = parent_index(s, j);
        assert(0 <= p < s.len() && is_child_of(s, j, p));
        lemma_ancestors_comparable(s, a, b, p);
    }
}

/// A task sits in the subtree of exactly one root.
proof fn lemma_root_ancestor_unique(s: Seq<Task>, r1: int, r2: int, j: int)
    requires
        tree_input_wf(s),
        0 <= r1 < s.len(),
        0 <= r2 < s.len(),
        0 <= j < s.len(),
        is_root_index(s, r1),
        is_root_index(s, r2),
        is_ancestor(s, r1, j),
        is_ancestor(s, r2, j),
    ensures
        r1 == r2,
{
    lemma_ancestors_comparable(s, r1, r2, j);
    if r1 != r2 {
        if is_ancestor(s, r1, r2) {
            assert(has_parent_index(s, r2));
        } else {
            assert(has_parent_index(s, r1));
        }
    }
}

/// A strict descendant lies in the subtree of exactly one child.
proof fn lemma_descends_through_child(s: Seq<Task>, i: int, j: int)
    requires
        tree_input_wf(s),
        0 <= i < s.len(),
        0 <= j < s.len(),
        is_ancestor(s, i, j),
        i != j,
    ensures
        exists|c: int|
            0 <= c < s.len() && #[trigger] is_child_of(s, c, i) && is_ancestor(s, c, j),
    decreases s[j].id - i32::MIN,
{
    let p = parent_index(s, j);
    assert(0 <= p < s.len() && is_child_of(s, j, p));
    if p == i {
        assert(is_ancestor(s, j, j));
        assert(0 <= j < s.len() && is_child_of(s, j, i) && is_ancestor(s, j, j));
    } else {
        lemma_descends_through_child(s, i, p);
        let c = choose|c: int|
            0 <= c < s.len() && #[trigger] is_child_of(s, c, i) && is_ancestor(s, c, p);
        assert(is_ancestor(s, c, j));
    }
}

/// Two children of `i` never share a descendant.
proof fn lemma_child_branch_unique(s: Seq<Task>, i: int, c1: int, c2: int, j: int)
    requires
        tree_input_wf(s),
        0 <= i < s.len(),
        0 <= c1 < s.len(),
        0 <= c2 < s.len(),
        0 <= j < s.len(),
        is_child_of(s, c1, i),
        is_child_of(s, c2, i),
        is_ancestor(s, c1, j),
        is_ancestor(s, c2, j),
    ensures
        c1 == c2,
{
    lemma_ancestors_comparable(s, c1, c2, j);
    if c1 != c2 {
        if is_ancestor(s, c1, c2) {
            lemma_parent_index_is(s, c2, i);
            assert(is_ancestor(s, c1, i));
            lemma_ancestor_id_le(s, c1, i);
        } else {
            lemma_parent_index_is(s, c1, i);
            assert(is_ancestor(s, c2, i));
            lemma_ancestor_id_le(s, c2, i);
        }
    }
}

/// One indent step per emitted node: crossing the parent link at the top
/// of a branch adds the parent's own visibility.
proof fn lemma_branch_depth_step(s: Seq<Task>, i: int, c: int, j: int, open_only: bool)
    requires
        tree_input_wf(s),
        0 <= i < s.len(),
        0 <= c < s.len(),
        0 <= j < s.len(),
        is_child_of(s, c, i),
        is_ancestor(s, c, j),
    ensures
        branch_depth(s, i, j, open_only) == branch_depth(s, c, j, open_only) + if is_visible(
            s,
            i,
            open_only,
        ) {
            1int
        } else {
            0int
        },
    decreases s[j].id - i32::MIN,
{
    if c == j {
        lemma_parent_index_is(s, c, i);
        assert(is_child_of(s, c, i));
        assert(s[i].id < s[c].id);
        assert(i != c);
        assert(branch_depth(s, c, j, open_only) == 0);
        assert(branch_depth(s, i, i, open_only) == 0);
        assert(branch_depth(s, i, j, open_only) == branch_depth(s, i, i, open_only)
            + if is_visible(s, i, open_only) { 1int } else { 0int });
    } else {
        let p = parent_index(s, j);
        assert(0 <= p < s.len() && is_child_of(s, j, p));
        assert(is_ancestor(s, c, p));
        lemma_branch_depth_step(s, i, c, p, open_only);
        lemma_ancestor_through_child(s, i, c, j);
        lemma_ancestor_id_le(s, i, j);
        assert(s[i].id < s[c].id);
        lemma_ancestor_id_le(s, c, j);
        assert(i != j);
        assert(branch_depth(s, i, j, open_only) == branch_depth(s, i, p, open_only)
            + if is_visible(s, p, open_only) { 1int } else { 0int });
        assert(branch_depth(s, c, j, open_only) == branch_depth(s, c, p, open_only)
            + if is_visible(s, p, open_only) { 1int } else { 0int });
    }
}

/// Measured from its root, a task's branch depth is its visible depth.
proof fn lemma_branch_depth_from_root(s: Seq<Task>, r: int, j: int, open_only: bool)
    requires
        tree_input_wf(s),
        0 <= r < s.len(),
        0 <= j < s.len(),
        is_root_index(s, r),
        is_ancestor(s, r, j),
    ensures
        branch_depth(s, r, j, open_only) == visible_depth(s, j, open_only),
    decreases s[j].id - i32::MIN,
{
    if r == j {
        assert(!has_parent_index(s, j));
    } else {
        let p = parent_index(s, j);
        assert(0 <= p < s.len() && is_child_of(s, j, p));
        lemma_branch_depth_from_root(s, r, p, open_only);
    }
}

/// How often `j` is printed within one subtree: once if it is a visible
/// descendant, never otherwise.
proof fn lemma_row_count_node(s: Seq<Task>, i: int, level: int, open_only: bool, j: int)
    requires
        tree_input_wf(s),
        0 <= i < s.len(),
        0 <= j < s.len(),
    ensures
        row_count(emit_node(s, i, level, open_only), j) == if is_ancestor(s, i, j) && is_visible(
            s,
            j,
            open_only,
        ) {
            1int
        } else {
            0int
        },
    decreases i32::MAX - s[i].id, 1int, 0int,
{
    lemma_children_of_elems(s, i);
    let ch = children_of(s, i);
    assert forall|t1: int, t2: int|
        0 <= t1 < ch.len() && 0 <= t2 < ch.len() && is_ancestor(s, ch[t1], j) && is_ancestor(
            s,
            ch[t2],
            j,
        ) implies t1 == t2 by {
        lemma_child_branch_unique(s, i, ch[t1], ch[t2], j);
        if t1 != t2 {
            assert(ch[t1] != ch[t2]);
        }
    }
    let sub_level = if is_visible(s, i, open_only) {
        level + 1
    } else {
        level
    };
    lemma_row_count_list(s, ch, sub_level, open_only, s[i].id as int, j);
    let listed = emit_list(s, ch, sub_level, open_only, s[i].id as int);
    // the children never reach back up to i
    if exists|t: int| 0 <= t < ch.len() && is_ancestor(s, #[trigger] ch[t], i) {
        let t = choose|t: int| 0 <= t < ch.len() && is_ancestor(s, #[trigger] ch[t], i);
        lemma_ancestor_id_le(s, ch[t], i);
        assert(false);
    }
    if is_visible(s, i, open_only) {
        let hd = seq![(i, level)];
        lemma_row_count_concat(hd, listed, j);
        assert(hd.drop_last() =~= Seq::<(int, int)>::empty());
        assert(row_count(Seq::<(int, int)>::empty(), j) == 0);
        assert(hd.last() == (i, level));
        assert(hd.last().0 == i);
        assert(row_count(hd, j) == if i == j {
            1int
        } else {
            0int
        });
    }
    if j != i && is_ancestor(s, i, j) {
        lemma_descends_through_child(s, i, j);
        let c = choose|c: int|
            0 <= c < s.len() && #[trigger] is_child_of(s, c, i) && is_ancestor(s, c, j);
        assert(ch.contains(c));
    }
    if j != i && !is_ancestor(s, i, j) {
        if exists|t: int| 0 <= t < ch.len() && is_ancestor(s, #[trigger] ch[t], j) {
            let t = choose|t: int| 0 <= t < ch.len() && is_ancestor(s, #[trigger] ch[t], j);
            lemma_ancestor_through_child(s, i, ch[t], j);
            assert(false);
        }
    }
}

/// How often `j` is printed by a forest whose branches never share it.
proof fn lemma_row_count_list(
    s: Seq<Task>,
    idxs: Seq<int>,
    level: int,
    open_only: bool,
    lo: int,
    j: int,
)
    requires
        tree_input_wf(s),
        0 <= j < s.len(),
        lo <= i32::MAX,
        all_above(s, idxs, lo),
        forall|t1: int, t2: int|
            0 <= t1 < idxs.len() && 0 <= t2 < idxs.len() && is_ancestor(
                s,
                #[trigger] idxs[t1],
                j,
            ) && is_ancestor(s, #[trigger] idxs[t2], j) ==> t1 == t2,
    ensures
        row_count(emit_list(s, idxs, level, open_only, lo), j) == if (exists|t: int|
            0 <= t < idxs.len() && is_ancestor(s, #[trigger] idxs[t], j)) && is_visible(
            s,
            j,
            open_only,
        ) {
            1int
        } else {
            0int
        },
    decreases i32::MAX - lo, 0int, idxs.len(),
{
    if idxs.len() == 0 {
    } else {
        let rest = idxs.skip(1);
        assert forall|k: int| 0 <= k < rest.len() implies 0 <= #[trigger] rest[k] < s.len() && lo
            < s[rest[k]].id by {
            assert(rest[k] == idxs[k + 1]);
        }
        assert forall|t1: int, t2: int|
            0 <= t1 < rest.len() && 0 <= t2 < rest.len() && is_ancestor(s, #[trigger] rest[t1], j)
                && is_ancestor(s, #[trigger] rest[t2], j) implies t1 == t2 by {
            assert(rest[t1] == idxs[t1 + 1]);
            assert(rest[t2] == idxs[t2 + 1]);
        }
        lemma_row_count_node(s, idxs[0], level, open_only, j);
        lemma_row_count_list(s, rest, level, open_only, lo, j);
        lemma_row_count_concat(
            emit_node(s, idxs[0], level, open_only),
            emit_list(s, rest, level, open_only, lo),
            j,
        );
        if is_ancestor(s, idxs[0], j) && is_visible(s, j, open_only) {
            if exists|t: int| 0 <= t < rest.len() && is_ancestor(s, #[trigger] rest[t], j) {
                let t = choose|t: int| 0 <= t < rest.len() && is_ancestor(s, #[trigger] rest[t], j);
                assert(rest[t] == idxs[t + 1]);
                assert(false);
            }
        } else {
            if exists|t: int| 0 <= t < idxs.len() && is_ancestor(s, #[trigger] idxs[t], j) {
                let t = choose|t: int|
                    0 <= t < idxs.len() && is_ancestor(s, #[trigger] idxs[t], j);
                if t > 0 {
                    assert(rest[t - 1] == idxs[t]);
                }
            }
        }
    }
}

/// Rows only ever name valid positions.
proof fn lemma_rows_valid_node(s: Seq<Task>, i: int, level: int, open_only: bool)
    requires
        tree_input_wf(s),
        0 <= i < s.len(),
    ensures
        forall|k: int|
            0 <= k < emit_node(s, i, level, open_only).len() ==> 0 <= (#[trigger] emit_node(
                s,
                i,
                level,
                open_only,
            )[k]).0 < s.len(),
    decreases i32::MAX - s[i].id, 1int, 0int,
{
    lemma_children_of_elems(s, i);
    let sub_level = if is_visible(s, i, open_only) {
        level + 1
    } else {
        level
    };
    lemma_rows_valid_list(s, children_of(s, i), sub_level, open_only, s[i].id as int);
    let listed = emit_list(s, children_of(s, i), sub_level, open_only, s[i].id as int);
    let rows = emit_node(s, i, level, open_only);
    assert forall|k: int| 0 <= k < rows.len() implies 0 <= (#[trigger] rows[k]).0 < s.len() by {
        if is_visible(s, i, open_only) {
            let hd = seq![(i, level)];
            assert(rows == hd + listed);
            if k == 0 {
                assert(rows[0] == (i, level));
            } else {
                assert(rows[k] == listed[k - 1]);
            }
        } else {
            assert(rows[k] == listed[k]);
        }
    }
}

proof fn lemma_rows_valid_list(s: Seq<Task>, idxs: Seq<int>, level: int, open_only: bool, lo: int)
    requires
        tree_input_wf(s),
        lo <= i32::MAX,
        all_above(s, idxs, lo),
    ensures
        forall|k: int|
            0 <= k < emit_list(s, idxs, level, open_only, lo).len() ==> 0 <= (
            #[trigger] emit_list(s, idxs, level, open_only, lo)[k]).0 < s.len(),
    decreases i32::MAX - lo, 0int, idxs.len(),
{
    if idxs.len() > 0 {
        let rest = idxs.skip(1);
        assert forall|k: int| 0 <= k < rest.len() implies 0 <= #[trigger] rest[k] < s.len() && lo
            < s[rest[k]].id by {
            assert(rest[k] == idxs[k + 1]);
        }
        lemma_rows_valid_node(s, idxs[0], level, open_only);
        lemma_rows_valid_list(s, rest, level, open_only, lo);
        let a = emit_node(s, idxs[0], level, open_only);
        let b = emit_list(s, rest, level, open_only, lo);
        assert forall|k: int| 0 <= k < (a + b).len() implies 0 <= (#[trigger] (a + b)[k]).0
            < s.len() by {
            if k < a.len() {
                assert((a + b)[k] == a[k]);
            } else {
                assert((a + b)[k] == b[k - a.len()]);
            }
        }
    }
}

/// A visible descendant of the branch at position `t` is printed by the
/// forest, at the level the branch gives it.
proof fn lemma_list_prints_descendant(
    s: Seq<Task>,
    idxs: Seq<int>,
    level: int,
    open_only: bool,
    lo: int,
    t: int,
    j: int,
)
    requires
        tree_input_wf(s),
        0 <= j < s.len(),
        lo <= i32::MAX,
        all_above(s, idxs, lo),
        0 <= t < idxs.len(),
        is_ancestor(s, idxs[t], j),
        is_visible(s, j, open_only),
    ensures
        emit_list(s, idxs, level, open_only, lo).contains(
            (j, level + branch_depth(s, idxs[t], j, open_only)),
        ),
    decreases i32::MAX - lo, 0int, idxs.len(),
{
    let a = emit_node(s, idxs[0], level, open_only);
    let b = emit_list(s, idxs.skip(1), level, open_only, lo);
    assert forall|k: int| 0 <= k < idxs.skip(1).len() implies 0 <= #[trigger] idxs.skip(1)[k]
        < s.len() && lo < s[idxs.skip(1)[k]].id by {
        assert(idxs.skip(1)[k] == idxs[k + 1]);
    }
    if t == 0 {
        lemma_node_prints_descendant(s, idxs[0], level, open_only, j);
        let row = (j, level + branch_depth(s, idxs[0], j, open_only));
        let w = choose|w: int| 0 <= w < a.len() && a[w] == row;
        assert((a + b)[w] == row);
    } else {
        assert(idxs.skip(1)[t - 1] == idxs[t]);
        lemma_list_prints_descendant(s, idxs.skip(1), level, open_only, lo, t - 1, j);
        let row = (j, level + branch_depth(s, idxs[t], j, open_only));
        let w = choose|w: int| 0 <= w < b.len() && b[w] == row;
        assert((a + b)[a.len() + w] == row);
    }
}

/// A visible descendant of `i` is printed by the traversal of `i`'s
/// subtree, `branch_depth` levels below the subtree's own level.
proof fn lemma_node_prints_descendant(s: Seq<Task>, i: int, level: int, open_only: bool, j: int)
    requires
        tree_input_wf(s),
        0 <= i < s.len(),
        0 <= j < s.len(),
        is_ancestor(s, i, j),
        is_visible(s, j, open_only),
    ensures
        emit_node(s, i, level, open_only).contains(
            (j, level + branch_depth(s, i, j, open_only)),
        ),
    decreases i32::MAX - s[i].id, 1int, 0int,
{
    lemma_children_of_elems(s, i);
    let ch = children_of(s, i);
    let sub_level = if is_visible(s, i, open_only) {
        level + 1
    } else {
        level
    };
    let listed = emit_list(s, ch, sub_level, open_only, s[i].id as int);
    if j == i {
        assert(is_visible(s, i, open_only));
        let hd = seq![(i, level)];
        assert((hd + listed)[0] == (i, level));
        assert(branch_depth(s, i, j, open_only) == 0);
    } else {
        lemma_descends_through_child(s, i, j);
        let c = choose|c: int|
            0 <= c < s.len() && #[trigger] is_child_of(s, c, i) && is_ancestor(s, c, j);
        assert(ch.contains(c));
        let t = choose|t: int| 0 <= t < ch.len() && ch[t] == c;
        lemma_list_prints_descendant(s, ch, sub_level, open_only, s[i].id as int, t, j);
        lemma_branch_depth_step(s, i, c, j, open_only);
        let row = (j, sub_level + branch_depth(s, c, j, open_only));
        assert(row == (j, level + branch_depth(s, i, j, open_only)));
        if is_visible(s, i, open_only) {
            let hd = seq![(i, level)];
            let w = choose|w: int| 0 <= w < listed.len() && listed[w] == row;
            assert((hd + listed)[1 + w] == row);
        }
    }
}

/// Every task the filter shows is printed exactly once, at the indent
/// level given by its visible strict ancestors; a task the filter hides is
/// never printed.
pub proof fn lemma_tree_row(s: Seq<Task>, j: int, open_only: bool)
    requires
        tree_input_wf(s),
        0 <= j < s.len(),
    ensures
        row_count(spec_tree(s, open_only), j) == if is_visible(s, j, open_only) {
            1int
        } else {
            0int
        },
        is_visible(s, j, open_only) ==> spec_tree(s, open_only).contains(
            (j, visible_depth(s, j, open_only)),
        ),
{
    lemma_roots_of_elems(s);
    let rs = roots_of(s);
    assert forall|t1: int, t2: int|
        0 <= t1 < rs.len() && 0 <= t2 < rs.len() && is_ancestor(s, #[trigger] rs[t1], j)
            && is_ancestor(s, #[trigger] rs[t2], j) implies t1 == t2 by {
        lemma_root_ancestor_unique(s, rs[t1], rs[t2], j);
        if t1 != t2 {
            assert(rs[t1] != rs[t2]);
        }
    }
    lemma_row_count_list(s, rs, 0, open_only, i32::MIN - 1, j);
    lemma_root_ancestor_exists(s, j);
    let r = choose|r: int|
        0 <= r < s.len() && #[trigger] is_root_index(s, r) && is_ancestor(s, r, j);
    assert(rs.contains(r));
    let t = choose|t: int| 0 <= t < rs.len() && rs[t] == r;
    if is_visible(s, j, open_only) {
        lemma_list_prints_descendant(s, rs, 0, open_only, i32::MIN - 1, t, j);
        lemma_branch_depth_from_root(s, r, j, open_only);
    }
}

/// Tree reconstruction total coverage: whatever the order of the input and
/// however parents and children are interleaved, every task is printed
/// exactly once by the unfiltered traversal — and every printed row names
/// a task of the input.
pub proof fn lemma_tree_total_coverage(s: Seq<Task>, j: int)
    requires
        tree_input_wf(s),
        0 <= j < s.len(),
    ensures
        row_count(spec_tree(s, false), j) == 1,
        forall|k: int|
            0 <= k < spec_tree(s, false).len() ==> 0 <= (#[trigger] spec_tree(s, false)[k]).0
                < s.len(),
{
    lemma_tree_row(s, j, false);
    lemma_roots_of_elems(s);
    lemma_rows_valid_list(s, roots_of(s), 0, false, i32::MIN - 1);
}

/// Orphan tolerance: a task whose `parent_id` names an id absent from the
/// set is a root, and the traversal prints it at indent level 0.
pub proof fn lemma_orphan_at_top_level(s: Seq<Task>, j: int)
    requires
        tree_input_wf(s),
        0 <= j < s.len(),
        s[j].parent_id is Some,
        forall|k: int| 0 <= k < s.len() ==> s[k].id != s[j].parent_id->0,
    ensures
        is_root_index(s, j),
        spec_tree(s, false).contains((j, 0)),
{
    assert(!has_parent_index(s, j));
    lemma_tree_row(s, j, false);
}

/// Open-filter non-destructiveness: an open task never disappears from the
/// open-only traversal, however many of its ancestors are closed. It is
/// printed exactly once, at the indent level it would occupy if its closed
/// ancestors were invisible: one level per *open* strict ancestor.
pub proof fn lemma_open_filter_non_destructive(s: Seq<Task>, j: int)
    requires
        tree_input_wf(s),
        0 <= j < s.len(),
        s[j].open,
    ensures
        row_count(spec_tree(s, true), j) == 1,
        spec_tree(s, true).contains((j, visible_depth(s, j, true))),
{
    lemma_tree_row(s, j, true);
}

} // verus!
