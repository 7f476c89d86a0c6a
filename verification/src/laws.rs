//! Proved laws of the task store.
//!
//! The transitions of [`crate::model`] are shown to preserve well-formedness,
//! and the undo laws are stated and proved over them: each mutation followed
//! by `undo` restores the prior tasks and log, identifiers are never reused,
//! and a whole run of mutations is reversed by as many undos.

use vstd::prelude::*;
use vstd::multiset::Multiset;
use crate::model::{
    TaskModel, UndoModel, StoreModel, has_id, idx_of, with_done, add_step, mark_done_step,
    delete_step, undo_step, ids_distinct, log_entry_ok, undelete_id, wf,
    OpModel, op_step, ops_steps, undo_steps, num_adds,
};

verus! {

/// Filtering steps over one appended element: it is kept exactly when the
/// predicate holds of it.
pub proof fn lemma_filter_push<A>(s: Seq<A>, pred: spec_fn(A) -> bool, x: A)
    ensures
        s.push(x).filter(pred) == if pred(x) {
            s.filter(pred).push(x)
        } else {
            s.filter(pred)
        },
{
    reveal(Seq::filter);
    assert(s.push(x).drop_last() =~= s);
    assert(s.push(x).last() == x);
}

/// Every element of a filtered sequence is an element of the original.
proof fn lemma_filter_membership<A>(s: Seq<A>, pred: spec_fn(A) -> bool)
    ensures
        forall|x: A| #[trigger] s.filter(pred).contains(x) ==> s.contains(x),
    decreases s.len(),
{
    reveal(Seq::filter);
    if s.len() > 0 {
        lemma_filter_membership(s.drop_last(), pred);
        assert forall|x: A| #[trigger] s.filter(pred).contains(x) implies s.contains(x) by {
            if s.drop_last().filter(pred).contains(x) {
                let i = choose|i: int|
                    0 <= i < s.drop_last().len() && s.drop_last()[i] == x;
                assert(s[i] == x);
            } else {
                assert(x == s.last());
                assert(s[s.len() - 1] == x);
            }
        }
    }
}

/// Filtering keeps nothing when the kept elements are all of them.
proof fn lemma_filter_all<A>(s: Seq<A>, pred: spec_fn(A) -> bool)
    requires
        forall|i: int| 0 <= i < s.len() ==> pred(#[trigger] s[i]),
    ensures
        s.filter(pred) == s,
    decreases s.len(),
{
    reveal(Seq::filter);
    if s.len() == 0 {
        assert(s.filter(pred) =~= s);
    } else {
        lemma_filter_all(s.drop_last(), pred);
        assert(pred(s.last()));
        assert(s.filter(pred) =~= s.drop_last().push(s.last()));
        assert(s.drop_last().push(s.last()) =~= s);
    }
}

/// A filtered sequence of distinct-id tasks again has distinct ids.
proof fn lemma_filter_ids_distinct(s: Seq<TaskModel>, pred: spec_fn(TaskModel) -> bool)
    requires
        ids_distinct(s),
    ensures
        ids_distinct(s.filter(pred)),
        forall|id: u32| #[trigger] has_id(s.filter(pred), id) ==> has_id(s, id),
    decreases s.len(),
{
    reveal(Seq::filter);
    lemma_filter_membership(s, pred);
    assert forall|id: u32| #[trigger] has_id(s.filter(pred), id) implies has_id(s, id) by {
        let i = choose|i: int| 0 <= i < s.filter(pred).len() && s.filter(pred)[i].id == id;
        let x = s.filter(pred)[i];
        assert(s.filter(pred).contains(x));
        let j = choose|j: int| 0 <= j < s.len() && s[j] == x;
        assert(s[j].id == id);
    }
    if s.len() > 0 {
        assert(ids_distinct(s.drop_last())) by {
            assert(forall|i: int| 0 <= i < s.drop_last().len() ==> s.drop_last()[i] == s[i]);
        }
        lemma_filter_ids_distinct(s.drop_last(), pred);
        if pred(s.last()) {
            lemma_filter_membership(s.drop_last(), pred);
            let f = s.drop_last().filter(pred);
            assert(s.filter(pred) == f.push(s.last()));
            assert forall|i: int, j: int|
                0 <= i < j < f.push(s.last()).len() implies #[trigger] f.push(s.last())[i].id
                != #[trigger] f.push(s.last())[j].id by {
                if j < f.len() {
                    assert(f[i].id != f[j].id);
                } else {
                    assert(f.push(s.last())[j] == s.last());
                    assert(f.contains(f[i]));
                    assert(s.drop_last().contains(f[i]));
                    let k = choose|k: int|
                        0 <= k < s.drop_last().len() && s.drop_last()[k] == f[i];
                    assert(s[k] == f[i]);
                    assert(s[k].id != s[s.len() - 1].id);
                }
            }
        }
    }
}

/// Adding a task preserves well-formedness: the fresh id is above every id in
/// use, in the store and in pending snapshots alike.
pub proof fn lemma_wf_add(s: StoreModel, title: Seq<char>)
    requires
        wf(s),
        s.next_id < u32::MAX,
    ensures
        wf(add_step(s, title)),
{
    let id = (s.next_id + 1) as u32;
    let r = add_step(s, title);
    assert forall|i: int, j: int|
        0 <= i < j < r.tasks.len() implies #[trigger] r.tasks[i].id != #[trigger] r.tasks[j].id by {
        if j == r.tasks.len() - 1 {
            assert(r.tasks[i] == s.tasks[i]);
            assert(s.tasks[i].id <= s.next_id);
        }
    }
    assert forall|i: int| 0 <= i < r.log.len() implies log_entry_ok(
        #[trigger] r.log[i],
        r.tasks,
        r.next_id,
    ) by {
        if i < s.log.len() {
            assert(log_entry_ok(s.log[i], s.tasks, s.next_id));
            if s.log[i] is UnDelete {
                let tid = undelete_id(s.log[i]);
                if has_id(r.tasks, tid) {
                    let k = choose|k: int| 0 <= k < r.tasks.len() && r.tasks[k].id == tid;
                    if k < s.tasks.len() {
                        assert(has_id(s.tasks, tid));
                    } else {
                        assert(r.tasks[k].id == id);
                        assert(tid <= s.next_id);
                    }
                    assert(false);
                }
            }
        } else {
            assert(r.log[i] == UndoModel::UnAdd { id });
        }
    }
}

/// Marking a task done preserves well-formedness: identifiers do not move.
pub proof fn lemma_wf_mark_done(s: StoreModel, id: u32)
    requires
        wf(s),
    ensures
        wf(mark_done_step(s, id)),
{
    if has_id(s.tasks, id) {
        let r = mark_done_step(s, id);
        assert(forall|j: int|
            0 <= j < r.tasks.len() ==> #[trigger] r.tasks[j].id == s.tasks[j].id);
        assert forall|x: u32| has_id(r.tasks, x) == has_id(s.tasks, x) by {
            if has_id(r.tasks, x) {
                let k = choose|k: int| 0 <= k < r.tasks.len() && r.tasks[k].id == x;
                assert(s.tasks[k].id == x);
            }
            if has_id(s.tasks, x) {
                let k = choose|k: int| 0 <= k < s.tasks.len() && s.tasks[k].id == x;
                assert(r.tasks[k].id == x);
            }
        }
        assert forall|i: int| 0 <= i < r.log.len() implies log_entry_ok(
            #[trigger] r.log[i],
            r.tasks,
            r.next_id,
        ) by {
            if i < s.log.len() {
                assert(log_entry_ok(s.log[i], s.tasks, s.next_id));
            }
        }
    }
}

/// Deleting a task preserves well-formedness: the snapshot it records carries
/// an id that is no longer in the store and clashes with no pending snapshot.
pub proof fn lemma_wf_delete(s: StoreModel, id: u32)
    requires
        wf(s),
    ensures
        wf(delete_step(s, id)),
{
    if has_id(s.tasks, id) {
        let i = idx_of(s.tasks, id);
        let r = delete_step(s, id);
        assert(forall|j: int|
            0 <= j < r.tasks.len() ==> #[trigger] r.tasks[j] == (if j < i {
                s.tasks[j]
            } else {
                s.tasks[j + 1]
            }));
        assert forall|x: u32| #[trigger] has_id(r.tasks, x) implies has_id(s.tasks, x) && (x != id)
            by {
            let k = choose|k: int| 0 <= k < r.tasks.len() && r.tasks[k].id == x;
            let k0 = if k < i { k } else { k + 1 };
            assert(s.tasks[k0].id == x);
            assert(k0 != i);
            assert(s.tasks[i].id == id);
            if x == id {
                assert(s.tasks[k0].id == s.tasks[i].id);
                assert(false);
            }
        }
        assert forall|a: int, b: int|
            0 <= a < b < r.tasks.len() implies #[trigger] r.tasks[a].id
            != #[trigger] r.tasks[b].id by {
            let a0 = if a < i { a } else { a + 1 };
            let b0 = if b < i { b } else { b + 1 };
            assert(s.tasks[a0].id != s.tasks[b0].id);
        }
        assert forall|k: int| 0 <= k < r.log.len() implies log_entry_ok(
            #[trigger] r.log[k],
            r.tasks,
            r.next_id,
        ) by {
            if k < s.log.len() {
                assert(log_entry_ok(s.log[k], s.tasks, s.next_id));
            } else {
                assert(r.log[k] == UndoModel::UnDelete { task: s.tasks[i] });
                assert(1 <= s.tasks[i].id <= s.next_id);
            }
        }
        assert forall|a: int, b: int|
            0 <= a < b < r.log.len() && r.log[a] is UnDelete && r.log[b] is UnDelete implies
            #[trigger] undelete_id(r.log[a]) != #[trigger] undelete_id(r.log[b]) by {
            if b < s.log.len() {
                assert(undelete_id(s.log[a]) != undelete_id(s.log[b]));
            } else {
                assert(undelete_id(r.log[b]) == id);
                assert(log_entry_ok(s.log[a], s.tasks, s.next_id));
                assert(!has_id(s.tasks, undelete_id(s.log[a])));
                assert(has_id(s.tasks, id));
            }
        }
    }
}

/// Undoing preserves well-formedness, whichever entry is on top.
pub proof fn lemma_wf_undo(s: StoreModel)
    requires
        wf(s),
    ensures
        wf(undo_step(s)),
{
    if s.log.len() > 0 {
        let e = s.log.last();
        let r = undo_step(s);
        assert(log_entry_ok(e, s.tasks, s.next_id));
        assert(forall|j: int|
            0 <= j < r.log.len() ==> #[trigger] r.log[j] == s.log[j]);
        match e {
            UndoModel::UnAdd { id } => {
                let pred = |t: TaskModel| t.id != id;
                lemma_filter_ids_distinct(s.tasks, pred);
                lemma_filter_membership(s.tasks, pred);
                assert(r.tasks == s.tasks.filter(pred));
                assert forall|j: int| 0 <= j < r.tasks.len() implies 1 <= #[trigger] r.tasks[j].id
                    <= r.next_id by {
                    assert(r.tasks.contains(r.tasks[j]));
                    assert(s.tasks.contains(r.tasks[j]));
                    let k = choose|k: int| 0 <= k < s.tasks.len() && s.tasks[k] == r.tasks[j];
                    assert(1 <= s.tasks[k].id <= s.next_id);
                }
                assert forall|k: int| 0 <= k < r.log.len() implies log_entry_ok(
                    #[trigger] r.log[k],
                    r.tasks,
                    r.next_id,
                ) by {
                    assert(log_entry_ok(s.log[k], s.tasks, s.next_id));
                    if r.log[k] is UnDelete {
                        assert(!has_id(s.tasks, undelete_id(s.log[k])));
                        if has_id(r.tasks, undelete_id(s.log[k])) {
                            assert(has_id(s.tasks, undelete_id(s.log[k])));
                        }
                    }
                }
            },
            UndoModel::UnMarkDone { id, prev_done } => {
                assert(forall|j: int|
                    0 <= j < r.tasks.len() ==> #[trigger] r.tasks[j].id == s.tasks[j].id);
                assert forall|x: u32| has_id(r.tasks, x) == has_id(s.tasks, x) by {
                    if has_id(r.tasks, x) {
                        let k = choose|k: int| 0 <= k < r.tasks.len() && r.tasks[k].id == x;
                        assert(s.tasks[k].id == x);
                    }
                    if has_id(s.tasks, x) {
                        let k = choose|k: int| 0 <= k < s.tasks.len() && s.tasks[k].id == x;
                        assert(r.tasks[k].id == x);
                    }
                }
                assert forall|k: int| 0 <= k < r.log.len() implies log_entry_ok(
                    #[trigger] r.log[k],
                    r.tasks,
                    r.next_id,
                ) by {
                    assert(log_entry_ok(s.log[k], s.tasks, s.next_id));
                }
            },
            UndoModel::UnDelete { task } => {
                assert(r.tasks == s.tasks.push(task));
                assert forall|a: int, b: int|
                    0 <= a < b < r.tasks.len() implies #[trigger] r.tasks[a].id
                    != #[trigger] r.tasks[b].id by {
                    if b == r.tasks.len() - 1 {
                        assert(r.tasks[b] == task);
                        if s.tasks[a].id == task.id {
                            assert(has_id(s.tasks, task.id));
                        }
                    }
                }
                assert forall|k: int| 0 <= k < r.log.len() implies log_entry_ok(
                    #[trigger] r.log[k],
                    r.tasks,
                    r.next_id,
                ) by {
                    assert(log_entry_ok(s.log[k], s.tasks, s.next_id));
                    if r.log[k] is UnDelete {
                        let tid = undelete_id(s.log[k]);
                        assert(undelete_id(e) != tid);
                        if has_id(r.tasks, tid) {
                            let m = choose|m: int|
                                0 <= m < r.tasks.len() && r.tasks[m].id == tid;
                            if m < s.tasks.len() {
                                assert(has_id(s.tasks, tid));
                            } else {
                                assert(r.tasks[m] == task);
                            }
                            assert(false);
                        }
                    }
                }
            },
        }
    }
}

/// Undo exactly reverses an add: the appended task disappears again and the
/// log returns to its prior value. Only the id counter keeps its advance, so
/// the undone identifier is never handed out again.
pub proof fn lemma_undo_reverses_add(s: StoreModel, title: Seq<char>)
    requires
        wf(s),
        s.next_id < u32::MAX,
    ensures
        undo_step(add_step(s, title)).tasks == s.tasks,
        undo_step(add_step(s, title)).log == s.log,
        undo_step(add_step(s, title)).next_id == s.next_id + 1,
{
    let id = (s.next_id + 1) as u32;
    let fresh = TaskModel { id: id, title: title, done: false };
    let a = add_step(s, title);
    let pred = |t: TaskModel| t.id != id;
    assert(a.log.drop_last() =~= s.log);
    lemma_filter_push(s.tasks, pred, fresh);
    assert(forall|i: int| 0 <= i < s.tasks.len() ==> pred(#[trigger] s.tasks[i]));
    lemma_filter_all(s.tasks, pred);
    assert(undo_step(a).tasks == s.tasks.filter(pred));
}

/// Undo exactly reverses a mark-done: the recorded previous flag goes back in
/// place, so tasks and log return to their prior values.
pub proof fn lemma_undo_reverses_mark_done(s: StoreModel, id: u32)
    requires
        wf(s),
        has_id(s.tasks, id),
    ensures
        undo_step(mark_done_step(s, id)).tasks == s.tasks,
        undo_step(mark_done_step(s, id)).log == s.log,
        undo_step(mark_done_step(s, id)).next_id == s.next_id,
{
    let i = idx_of(s.tasks, id);
    assert(0 <= i < s.tasks.len() && s.tasks[i].id == id);
    let m = mark_done_step(s, id);
    lemma_wf_mark_done(s, id);
    assert(m.log.drop_last() =~= s.log);
    assert(m.tasks[i].id == id);
    assert(has_id(m.tasks, id));
    let j = idx_of(m.tasks, id);
    assert(0 <= j < m.tasks.len() && m.tasks[j].id == id);
    assert(j == i);
    assert(with_done(with_done(s.tasks[i], true), s.tasks[i].done) =~= s.tasks[i]);
    assert(undo_step(m).tasks =~= s.tasks);
}

/// Undo reverses a delete up to position: the snapshotted task comes back with
/// its exact content, appended at the end rather than at its old place, so the
/// store is restored as a multiset of tasks; the log returns to its prior
/// value.
pub proof fn lemma_undo_reverses_delete(s: StoreModel, id: u32)
    requires
        wf(s),
        has_id(s.tasks, id),
    ensures
        ({
            let i = idx_of(s.tasks, id);
            let u = undo_step(delete_step(s, id));
            &&& u.tasks == s.tasks.remove(i).push(s.tasks[i])
            &&& u.tasks.to_multiset() == s.tasks.to_multiset()
            &&& u.log == s.log
            &&& u.next_id == s.next_id
        }),
{
    broadcast use vstd::seq_lib::group_to_multiset_ensures;

    let i = idx_of(s.tasks, id);
    assert(0 <= i < s.tasks.len() && s.tasks[i].id == id);
    let d = delete_step(s, id);
    let u = undo_step(d);
    assert(d.log.drop_last() =~= s.log);
    assert(u.tasks == s.tasks.remove(i).push(s.tasks[i]));
    assert(s.tasks.contains(s.tasks[i]));
    assert(s.tasks.to_multiset().count(s.tasks[i]) > 0);
    assert(u.tasks.to_multiset() =~= s.tasks.to_multiset());
}

/// Fresh identifiers: an add assigns `next_id + 1`, strictly above every id in
/// the store and every id snapshotted in the undo stack, so identifiers are
/// never reused, deletions notwithstanding.
pub proof fn lemma_add_id_fresh(s: StoreModel, title: Seq<char>)
    requires
        wf(s),
        s.next_id < u32::MAX,
    ensures
        ({
            let r = add_step(s, title);
            let new_id = r.tasks.last().id;
            &&& new_id == s.next_id + 1
            &&& forall|i: int| 0 <= i < s.tasks.len() ==> #[trigger] s.tasks[i].id < new_id
            &&& forall|i: int|
                0 <= i < s.log.len() && s.log[i] is UnDelete ==> undelete_id(
                    #[trigger] s.log[i],
                ) < new_id
        }),
{
    assert forall|i: int|
        0 <= i < s.log.len() && s.log[i] is UnDelete implies undelete_id(#[trigger] s.log[i])
        <= s.next_id by {
        assert(log_entry_ok(s.log[i], s.tasks, s.next_id));
    }
}

/// Marking a task done twice pushes two reversal entries; the second records a
/// previous flag of true, so the first undo keeps the task done, and only the
/// second undo restores the original flag, returning tasks and log to their
/// prior values.
pub proof fn lemma_mark_done_twice_two_undos(s: StoreModel, id: u32)
    requires
        wf(s),
        has_id(s.tasks, id),
    ensures
        ({
            let i = idx_of(s.tasks, id);
            let m2 = mark_done_step(mark_done_step(s, id), id);
            &&& m2.log == s.log.push(
                UndoModel::UnMarkDone { id: id, prev_done: s.tasks[i].done },
            ).push(UndoModel::UnMarkDone { id: id, prev_done: true })
            &&& undo_step(m2).tasks == m2.tasks
            &&& undo_step(m2).tasks[i].done
            &&& undo_step(undo_step(m2)).tasks == s.tasks
            &&& undo_step(undo_step(m2)).log == s.log
        }),
{
    let i = idx_of(s.tasks, id);
    assert(0 <= i < s.tasks.len() && s.tasks[i].id == id);
    let m1 = mark_done_step(s, id);
    lemma_wf_mark_done(s, id);
    assert(m1.tasks[i].id == id);
    assert(has_id(m1.tasks, id));
    let j = idx_of(m1.tasks, id);
    assert(0 <= j < m1.tasks.len() && m1.tasks[j].id == id);
    assert(j == i);
    let m2 = mark_done_step(m1, id);
    lemma_wf_mark_done(m1, id);
    assert(m1.tasks[i].done);
    assert(with_done(m1.tasks[i], true) =~= m1.tasks[i]);
    assert(m2.tasks =~= m1.tasks);
    assert(m2.log =~= s.log.push(
        UndoModel::UnMarkDone { id: id, prev_done: s.tasks[i].done },
    ).push(UndoModel::UnMarkDone { id: id, prev_done: true }));
    let u1 = undo_step(m2);
    assert(m2.tasks[i].id == id);
    assert(has_id(m2.tasks, id));
    let k = idx_of(m2.tasks, id);
    assert(0 <= k < m2.tasks.len() && m2.tasks[k].id == id);
    assert(k == i);
    assert(u1.tasks =~= m2.tasks.update(i, with_done(m2.tasks[i], true)));
    assert(with_done(m2.tasks[i], true) =~= m2.tasks[i]);
    assert(u1.tasks =~= m2.tasks);
    assert(u1.log =~= s.log.push(UndoModel::UnMarkDone { id: id, prev_done: s.tasks[i].done }));
    let u2 = undo_step(u1);
    assert(u1.tasks[i].id == id);
    assert(has_id(u1.tasks, id));
    let k2 = idx_of(u1.tasks, id);
    assert(0 <= k2 < u1.tasks.len() && u1.tasks[k2].id == id);
    assert(ids_distinct(u1.tasks)) by {
        assert(forall|a: int|
            0 <= a < u1.tasks.len() ==> #[trigger] u1.tasks[a].id == m1.tasks[a].id);
        assert(forall|a: int|
            0 <= a < m1.tasks.len() ==> #[trigger] m1.tasks[a].id == s.tasks[a].id);
    }
    assert(k2 == i);
    assert(with_done(u1.tasks[i], s.tasks[i].done) =~= s.tasks[i]);
    assert(u2.tasks =~= s.tasks);
    assert(u2.log =~= s.log);
}

/// Undoing `a + b` times is undoing `a` times, then `b` more times.
proof fn lemma_undo_steps_split(s: StoreModel, a: nat, b: nat)
    ensures
        undo_steps(s, a + b) == undo_steps(undo_steps(s, a), b),
    decreases a,
{
    if a > 0 {
        lemma_undo_steps_split(undo_step(s), (a - 1) as nat, b);
    }
}

/// Any row of undos preserves well-formedness.
pub proof fn lemma_wf_undo_steps(s: StoreModel, n: nat)
    requires
        wf(s),
    ensures
        wf(undo_steps(s, n)),
    decreases n,
{
    if n > 0 {
        lemma_wf_undo(s);
        lemma_wf_undo_steps(undo_step(s), (n - 1) as nat);
    }
}

/// Filtering a sequence and filtering its multiset agree.
proof fn lemma_filter_to_multiset(v: Seq<TaskModel>, pred: spec_fn(TaskModel) -> bool)
    ensures
        v.filter(pred).to_multiset() == v.to_multiset().filter(pred),
    decreases v.len(),
{
    broadcast use vstd::seq_lib::group_to_multiset_ensures;

    reveal(Seq::filter);
    if v.len() == 0 {
        assert(v.to_multiset() =~= Multiset::<TaskModel>::empty());
        assert(v.filter(pred).to_multiset() =~= v.to_multiset().filter(pred));
    } else {
        let dl = v.drop_last();
        let x = v.last();
        lemma_filter_to_multiset(dl, pred);
        assert(v =~= dl.push(x));
        assert(dl.push(x).to_multiset() == dl.to_multiset().insert(x));
        if pred(x) {
            assert(v.filter(pred) == dl.filter(pred).push(x));
            assert(v.filter(pred).to_multiset() == dl.filter(pred).to_multiset().insert(x));
        } else {
            assert(v.filter(pred) == dl.filter(pred));
        }
        assert(v.filter(pred).to_multiset() =~= v.to_multiset().filter(pred));
    }
}

/// Across any run of mutating calls the id counter advances by exactly one
/// per add and never moves otherwise; with `lemma_add_id_fresh` this makes the
/// ids yielded by successive adds strictly increasing, deletes notwithstanding.
pub proof fn lemma_run_advances_next_id(s: StoreModel, ops: Seq<OpModel>)
    requires
        s.next_id + num_adds(ops) <= u32::MAX,
    ensures
        ops_steps(s, ops).next_id == s.next_id + num_adds(ops),
    decreases ops.len(),
{
    if ops.len() > 0 {
        let s1 = op_step(s, ops[0]);
        assert(num_adds(ops) == (if ops[0] is Add {
            1nat
        } else {
            0nat
        }) + num_adds(ops.drop_first()));
        lemma_run_advances_next_id(s1, ops.drop_first());
    }
}

/// Undo never moves the id counter back, however often it runs.
pub proof fn lemma_undo_keeps_next_id(s: StoreModel, n: nat)
    ensures
        undo_steps(s, n).next_id == s.next_id,
    decreases n,
{
    if n > 0 {
        lemma_undo_keeps_next_id(undo_step(s), (n - 1) as nat);
    }
}

/// The full undo law: after any run of mutating calls from a well-formed
/// state, undoing once per reversal the run recorded returns the log exactly
/// to its prior value and the tasks to their prior content — exactly when the
/// run deleted nothing, and as a multiset (same tasks, same titles, same done
/// flags, possibly reordered) otherwise, since undo-of-delete reinserts at the
/// end. The id counter keeps every advance the run made.
pub proof fn lemma_undo_run(s: StoreModel, ops: Seq<OpModel>)
    requires
        wf(s),
        s.next_id + num_adds(ops) <= u32::MAX,
    ensures
        ({
            let r = ops_steps(s, ops);
            let u = undo_steps(r, (r.log.len() - s.log.len()) as nat);
            &&& r.log.len() >= s.log.len()
            &&& wf(r)
            &&& u.tasks.to_multiset() == s.tasks.to_multiset()
            &&& u.log == s.log
            &&& u.next_id == r.next_id
            &&& (forall|i: int| 0 <= i < ops.len() ==> !(#[trigger] ops[i] is Delete)) ==> u.tasks
                == s.tasks
        }),
    decreases ops.len(),
{
    broadcast use vstd::seq_lib::group_to_multiset_ensures;

    if ops.len() == 0 {
    } else {
        let op = ops[0];
        let rest = ops.drop_first();
        let s1 = op_step(s, op);
        assert(num_adds(ops) == (if op is Add {
            1nat
        } else {
            0nat
        }) + num_adds(rest));
        match op {
            OpModel::Add { title } => lemma_wf_add(s, title),
            OpModel::MarkDone { id } => lemma_wf_mark_done(s, id),
            OpModel::Delete { id } => lemma_wf_delete(s, id),
        }
        lemma_undo_run(s1, rest);
        let r = ops_steps(s1, rest);
        assert(ops_steps(s, ops) == r);
        let a = (r.log.len() - s1.log.len()) as nat;
        let u1 = undo_steps(r, a);
        let d = (s1.log.len() - s.log.len()) as nat;
        assert(d == 0 || d == 1);
        lemma_undo_steps_split(r, a, d);
        assert((r.log.len() - s.log.len()) as nat == a + d);
        let u = undo_steps(u1, d);
        assert(undo_steps(r, (r.log.len() - s.log.len()) as nat) == u);
        lemma_wf_undo_steps(r, a);
        assert(wf(u1));
        if d == 0 {
            assert(s1 == s);
        } else {
            let e = s1.log.last();
            assert(u1.log == s1.log);
            assert(u1.log.len() > 0);
            assert(undo_steps(undo_step(u1), 0nat) == undo_step(u1));
            assert(u == undo_step(u1));
            assert(u.log =~= s.log);
            match op {
                OpModel::Add { title } => {
                    let id = (s.next_id + 1) as u32;
                    let fresh = TaskModel { id: id, title: title, done: false };
                    let pred = |t: TaskModel| t.id != id;
                    assert(e == UndoModel::UnAdd { id: id });
                    assert(u.tasks == u1.tasks.filter(pred));
                    lemma_filter_to_multiset(u1.tasks, pred);
                    assert(u1.tasks.to_multiset() == s1.tasks.to_multiset());
                    assert(s1.tasks.to_multiset() == s.tasks.to_multiset().insert(fresh)) by {
                        assert(s1.tasks == s.tasks.push(fresh));
                    }
                    assert forall|x: TaskModel|
                        u.tasks.to_multiset().count(x) == s.tasks.to_multiset().count(
                            x,
                        ) by {
                        if pred(x) {
                            assert(x != fresh);
                        } else {
                            assert(u.tasks.to_multiset().count(x) == 0);
                            if s.tasks.to_multiset().count(x) > 0 {
                                assert(s.tasks.contains(x));
                                let k = choose|k: int|
                                    0 <= k < s.tasks.len() && s.tasks[k] == x;
                                assert(s.tasks[k].id <= s.next_id);
                                assert(false);
                            }
                        }
                    }
                    assert(u.tasks.to_multiset() =~= s.tasks.to_multiset());
                    if forall|i: int| 0 <= i < ops.len() ==> !(#[trigger] ops[i] is Delete) {
                        assert(forall|i: int|
                            0 <= i < rest.len() ==> !(#[trigger] rest[i] is Delete));
                        assert(u1.tasks == s1.tasks);
                        lemma_filter_push(s.tasks, pred, fresh);
                        assert(forall|i: int|
                            0 <= i < s.tasks.len() ==> pred(#[trigger] s.tasks[i]));
                        lemma_filter_all(s.tasks, pred);
                        assert(u.tasks == s.tasks);
                    }
                },
                OpModel::MarkDone { id } => {
                    let i = idx_of(s.tasks, id);
                    assert(has_id(s.tasks, id));
                    assert(0 <= i < s.tasks.len() && s.tasks[i].id == id);
                    let t0 = s.tasks[i];
                    let tm = with_done(t0, true);
                    assert(e == UndoModel::UnMarkDone { id: id, prev_done: t0.done });
                    assert(s1.tasks == s.tasks.update(i, tm));
                    assert(s1.tasks.to_multiset() == s.tasks.to_multiset().insert(tm).remove(
                        t0,
                    ));
                    assert(s1.tasks[i] == tm);
                    assert(s1.tasks.contains(tm));
                    assert(u1.tasks.to_multiset().count(tm) > 0);
                    assert(u1.tasks.contains(tm));
                    let jw = choose|jw: int| 0 <= jw < u1.tasks.len() && u1.tasks[jw] == tm;
                    assert(u1.tasks[jw].id == id);
                    assert(has_id(u1.tasks, id));
                    let j = idx_of(u1.tasks, id);
                    assert(0 <= j < u1.tasks.len() && u1.tasks[j].id == id);
                    assert(ids_distinct(u1.tasks));
                    assert(j == jw);
                    assert(u1.tasks[j] == tm);
                    assert(u.tasks == u1.tasks.update(j, with_done(tm, t0.done)));
                    assert(with_done(tm, t0.done) =~= t0);
                    assert(u.tasks.to_multiset() == u1.tasks.to_multiset().insert(t0).remove(
                        tm,
                    ));
                    assert(s.tasks.contains(t0));
                    assert(s.tasks.to_multiset().count(t0) > 0);
                    assert(u.tasks.to_multiset() =~= s.tasks.to_multiset());
                    if forall|i2: int| 0 <= i2 < ops.len() ==> !(#[trigger] ops[i2] is Delete) {
                        assert(forall|i2: int|
                            0 <= i2 < rest.len() ==> !(#[trigger] rest[i2] is Delete));
                        assert(u1.tasks == s1.tasks);
                        assert(s1.tasks[j].id == id);
                        assert(ids_distinct(s1.tasks));
                        assert(j == i);
                        assert(u.tasks =~= s.tasks);
                    }
                },
                OpModel::Delete { id } => {
                    let i = idx_of(s.tasks, id);
                    assert(has_id(s.tasks, id));
                    assert(0 <= i < s.tasks.len() && s.tasks[i].id == id);
                    let t0 = s.tasks[i];
                    assert(e == UndoModel::UnDelete { task: t0 });
                    assert(s1.tasks == s.tasks.remove(i));
                    assert(u.tasks == u1.tasks.push(t0));
                    assert(u.tasks.to_multiset() == u1.tasks.to_multiset().insert(t0));
                    assert(s1.tasks.to_multiset() == s.tasks.to_multiset().remove(t0));
                    assert(s.tasks.contains(t0));
                    assert(s.tasks.to_multiset().count(t0) > 0);
                    assert(u.tasks.to_multiset() =~= s.tasks.to_multiset());
                },
            }
        }
    }
}

} // verus!
