//! The executable task store with its undo stack.

use vstd::prelude::*;
use crate::model::{
    TaskModel, UndoModel, StoreModel, has_id, idx_of, with_done, add_step, mark_done_step,
    delete_step, undo_step, ids_distinct, wf,
};
use crate::laws::{
    lemma_wf_add, lemma_wf_mark_done, lemma_wf_delete, lemma_wf_undo, lemma_filter_push,
};
use crate::render::{render_line, render_task};

verus! {

/// One to-do item: a unique identifier, a title and a done flag.
pub struct Task {
    pub id: u32,
    pub title: String,
    pub done: bool,
}

impl DeepView for Task {
    type V = TaskModel;

    open spec fn deep_view(&self) -> TaskModel {
        TaskModel { id: self.id, title: self.title@, done: self.done }
    }
}

/// One recorded reversal; executing it undoes exactly one prior mutation.
pub enum UndoEntry {
    /// Reverses an add of the task with this id.
    UnAdd { id: u32 },
    /// Reverses a mark-done by restoring the previous flag.
    UnMarkDone { id: u32, prev_done: bool },
    /// Reverses a delete by holding the full removed task.
    UnDelete { task: Task },
}

impl DeepView for UndoEntry {
    type V = UndoModel;

    open spec fn deep_view(&self) -> UndoModel {
        match self {
            UndoEntry::UnAdd { id } => UndoModel::UnAdd { id: *id },
            UndoEntry::UnMarkDone { id, prev_done } => UndoModel::UnMarkDone {
                id: *id,
                prev_done: *prev_done,
            },
            UndoEntry::UnDelete { task } => UndoModel::UnDelete { task: task.deep_view() },
        }
    }
}

/// The abstract image of a sequence of tasks.
pub open spec fn tasks_view(v: Seq<Task>) -> Seq<TaskModel> {
    Seq::new(v.len(), |i: int| v[i].deep_view())
}

/// The abstract image of a sequence of reversal entries.
pub open spec fn log_view(v: Seq<UndoEntry>) -> Seq<UndoModel> {
    Seq::new(v.len(), |i: int| v[i].deep_view())
}

/// The task store: the ordered tasks, the undo stack and the id counter.
///
/// Every mutating operation pushes onto `history` the entry that reverses it;
/// `undo` pops and executes the most recent entry.
pub struct TaskManager {
    tasks: Vec<Task>,
    history: Vec<UndoEntry>,
    next_id: u32,
}

impl View for TaskManager {
    type V = StoreModel;

    closed spec fn view(&self) -> StoreModel {
        StoreModel {
            tasks: tasks_view(self.tasks@),
            log: log_view(self.history@),
            next_id: self.next_id,
        }
    }
}

impl TaskManager {
    /// The store is well formed: distinct bounded ids, valid pending snapshots.
    pub open spec fn inv(&self) -> bool {
        wf(self@)
    }

    /// An empty store: no tasks, no pending reversals, counter at zero.
    pub fn new() -> (r: TaskManager)
        ensures
            r@.tasks == Seq::<TaskModel>::empty(),
            r@.log == Seq::<UndoModel>::empty(),
            r@.next_id == 0,
            r.inv(),
    {
        let r = TaskManager { tasks: Vec::new(), history: Vec::new(), next_id: 0 };
        proof {
            assert(r@.tasks =~= Seq::<TaskModel>::empty());
            assert(r@.log =~= Seq::<UndoModel>::empty());
        }
        r
    }

    /// Appends a fresh task titled `title`, not yet done, under the next
    /// identifier, and records the reversal that removes it again. Returns the
    /// assigned identifier, one above every identifier ever assigned before.
    pub fn add_task(&mut self, title: String) -> (id: u32)
        requires
            old(self).inv(),
            old(self)@.next_id < u32::MAX,
        ensures
            final(self).inv(),
            final(self)@ == add_step(old(self)@, title@),
            id == old(self)@.next_id + 1,
    {
        let id = self.next_id + 1;
        self.next_id = id;
        self.tasks.push(Task { id: id, title: title, done: false });
        self.history.push(UndoEntry::UnAdd { id: id });
        proof {
            let s0 = old(self)@;
            assert(self@.tasks =~= s0.tasks.push(
                TaskModel { id: id, title: title@, done: false },
            ));
            assert(self@.log =~= s0.log.push(UndoModel::UnAdd { id: id }));
            assert(self@ =~= add_step(s0, title@));
            lemma_wf_add(s0, title@);
        }
        id
    }

    /// Sets the done flag of the task carrying `id` and records the reversal
    /// holding the previous flag. On an unknown id nothing changes at all: no
    /// task is touched and no reversal is recorded.
    #[verifier::loop_isolation(false)]
    pub fn mark_done(&mut self, id: u32)
        requires
            old(self).inv(),
        ensures
            final(self).inv(),
            final(self)@ == mark_done_step(old(self)@, id),
            !has_id(old(self)@.tasks, id) ==> final(self)@ == old(self)@,
    {
        let n = self.tasks.len();
        let mut i: usize = 0;
        while i < n
            invariant
                *self == *old(self),
                0 <= i <= n,
                forall|j: int| 0 <= j < i ==> #[trigger] self.tasks@[j].id != id,
            decreases n - i,
        {
            if self.tasks[i].id == id {
                let t = self.tasks.remove(i);
                let prev = t.done;
                self.tasks.insert(i, Task { id: t.id, title: t.title, done: true });
                self.history.push(UndoEntry::UnMarkDone { id: id, prev_done: prev });
                proof {
                    let s0 = old(self)@;
                    assert(s0.tasks[i as int].id == id);
                    assert(has_id(s0.tasks, id));
                    let k = idx_of(s0.tasks, id);
                    assert(ids_distinct(s0.tasks));
                    assert(s0.tasks[k].id == id);
                    assert(k == i as int);
                    assert(self@.tasks =~= s0.tasks.update(
                        i as int,
                        with_done(s0.tasks[i as int], true),
                    ));
                    assert(self@.log =~= s0.log.push(
                        UndoModel::UnMarkDone { id: id, prev_done: s0.tasks[i as int].done },
                    ));
                    assert(self@ =~= mark_done_step(s0, id));
                    lemma_wf_mark_done(s0, id);
                }
                return;
            }
            i += 1;
        }
        proof {
            assert(!has_id(old(self)@.tasks, id)) by {
                if has_id(old(self)@.tasks, id) {
                    let k = choose|k: int|
                        0 <= k < old(self)@.tasks.len() && old(self)@.tasks[k].id == id;
                    assert(self.tasks@[k].id == id);
                }
            }
        }
    }

    /// Removes the task carrying `id` from the sequence and records the
    /// reversal holding its full snapshot. On an unknown id nothing changes at
    /// all: no task is touched and no reversal is recorded.
    #[verifier::loop_isolation(false)]
    pub fn delete_task(&mut self, id: u32)
        requires
            old(self).inv(),
        ensures
            final(self).inv(),
            final(self)@ == delete_step(old(self)@, id),
            !has_id(old(self)@.tasks, id) ==> final(self)@ == old(self)@,
    {
        let n = self.tasks.len();
        let mut i: usize = 0;
        while i < n
            invariant
                *self == *old(self),
                0 <= i <= n,
                forall|j: int| 0 <= j < i ==> #[trigger] self.tasks@[j].id != id,
            decreases n - i,
        {
            if self.tasks[i].id == id {
                let t = self.tasks.remove(i);
                self.history.push(UndoEntry::UnDelete { task: t });
                proof {
                    let s0 = old(self)@;
                    assert(s0.tasks[i as int].id == id);
                    assert(has_id(s0.tasks, id));
                    let k = idx_of(s0.tasks, id);
                    assert(ids_distinct(s0.tasks));
                    assert(s0.tasks[k].id == id);
                    assert(k == i as int);
                    assert(self@.tasks =~= s0.tasks.remove(i as int));
                    assert(self@.log =~= s0.log.push(
                        UndoModel::UnDelete { task: s0.tasks[i as int] },
                    ));
                    assert(self@ =~= delete_step(s0, id));
                    lemma_wf_delete(s0, id);
                }
                return;
            }
            i += 1;
        }
        proof {
            assert(!has_id(old(self)@.tasks, id)) by {
                if has_id(old(self)@.tasks, id) {
                    let k = choose|k: int|
                        0 <= k < old(self)@.tasks.len() && old(self)@.tasks[k].id == id;
                    assert(self.tasks@[k].id == id);
                }
            }
        }
    }

    /// Pops the most recent reversal and executes it against the store. On an
    /// empty stack nothing changes and no error is raised. The id counter
    /// never moves back, so undone identifiers are not handed out again.
    #[verifier::loop_isolation(false)]
    #[verifier::rlimit(60)]
    pub fn undo(&mut self)
        requires
            old(self).inv(),
        ensures
            final(self).inv(),
            final(self)@ == undo_step(old(self)@),
            old(self)@.log.len() == 0 ==> final(self)@ == old(self)@,
    {
        proof {
            lemma_wf_undo(old(self)@);
        }
        let e = self.history.pop();
        match e {
            None => {
                proof {
                    assert(self@ =~= old(self)@);
                }
            },
            Some(entry) => {
                proof {
                    assert(self@.log =~= old(self)@.log.drop_last());
                    assert(entry.deep_view() == old(self)@.log.last());
                }
                match entry {
                    UndoEntry::UnAdd { id } => {
                        let ghost orig = old(self)@.tasks;
                        let ghost pred = |t: TaskModel| t.id != id;
                        let ghost mut g: int = 0;
                        proof {
                            reveal(Seq::filter);
                            assert(orig.subrange(0, 0).filter(pred) =~= Seq::<
                                TaskModel,
                            >::empty());
                            assert(tasks_view(self.tasks@) =~= orig.subrange(0, 0).filter(pred)
                                + orig.subrange(0, orig.len() as int));
                        }
                        let mut i: usize = 0;
                        while i < self.tasks.len()
                            invariant
                                self.next_id == old(self).next_id,
                                self.history@ == old(self).history@.subrange(
                                    0,
                                    old(self).history@.len() - 1,
                                ),
                                0 <= g <= orig.len(),
                                tasks_view(self.tasks@) == orig.subrange(0, g).filter(pred)
                                    + orig.subrange(g, orig.len() as int),
                                i as int == orig.subrange(0, g).filter(pred).len(),
                            decreases orig.len() - g,
                        {
                            proof {
                                assert(g < orig.len());
                                assert(tasks_view(self.tasks@)[i as int] == orig[g]);
                                assert(self.tasks@[i as int].deep_view() == orig[g]);
                                assert(orig.subrange(0, g + 1) =~= orig.subrange(0, g).push(
                                    orig[g],
                                ));
                                lemma_filter_push(orig.subrange(0, g), pred, orig[g]);
                            }
                            let ghost pre = self.tasks@;
                            if self.tasks[i].id == id {
                                self.tasks.remove(i);
                                proof {
                                    assert(!pred(orig[g]));
                                    assert(tasks_view(self.tasks@) =~= tasks_view(pre).remove(
                                        i as int,
                                    ));
                                    assert(tasks_view(self.tasks@) =~= orig.subrange(
                                        0,
                                        g + 1,
                                    ).filter(pred) + orig.subrange(g + 1, orig.len() as int));
                                    g = g + 1;
                                }
                            } else {
                                i += 1;
                                proof {
                                    assert(pred(orig[g]));
                                    assert(tasks_view(self.tasks@) =~= orig.subrange(
                                        0,
                                        g + 1,
                                    ).filter(pred) + orig.subrange(g + 1, orig.len() as int));
                                    g = g + 1;
                                }
                            }
                        }
                        proof {
                            assert(g == orig.len());
                            assert(orig.subrange(0, g) =~= orig);
                            assert(tasks_view(self.tasks@) =~= orig.filter(pred));
                            assert(self@ =~= undo_step(old(self)@));
                        }
                    },
                    UndoEntry::UnMarkDone { id, prev_done } => {
                        let n = self.tasks.len();
                        let mut i: usize = 0;
                        while i < n
                            invariant
                                n == self.tasks.len(),
                                self.tasks@ == old(self).tasks@,
                                self.history@ == old(self).history@.subrange(
                                    0,
                                    old(self).history@.len() - 1,
                                ),
                                self.next_id == old(self).next_id,
                                0 <= i <= n,
                                forall|j: int| 0 <= j < i ==> #[trigger] self.tasks@[j].id != id,
                            decreases n - i,
                        {
                            if self.tasks[i].id == id {
                                let t = self.tasks.remove(i);
                                self.tasks.insert(
                                    i,
                                    Task { id: t.id, title: t.title, done: prev_done },
                                );
                                proof {
                                    let s0 = old(self)@;
                                    assert(s0.tasks[i as int].id == id);
                                    assert(has_id(s0.tasks, id));
                                    let k = idx_of(s0.tasks, id);
                                    assert(ids_distinct(s0.tasks));
                                    assert(s0.tasks[k].id == id);
                                    assert(k == i as int);
                                    assert(self@.tasks =~= s0.tasks.update(
                                        i as int,
                                        with_done(s0.tasks[i as int], prev_done),
                                    ));
                                    assert(self@ =~= undo_step(s0));
                                }
                                return;
                            }
                            i += 1;
                        }
                        proof {
                            assert(!has_id(old(self)@.tasks, id)) by {
                                if has_id(old(self)@.tasks, id) {
                                    let k = choose|k: int|
                                        0 <= k < old(self)@.tasks.len() && old(
                                            self,
                                        )@.tasks[k].id == id;
                                    assert(self.tasks@[k].id == id);
                                }
                            }
                            assert(self@ =~= undo_step(old(self)@));
                        }
                    },
                    UndoEntry::UnDelete { task } => {
                        let ghost tm = task.deep_view();
                        self.tasks.push(task);
                        proof {
                            assert(self@.tasks =~= old(self)@.tasks.push(tm));
                            assert(self@ =~= undo_step(old(self)@));
                        }
                    },
                }
            },
        }
    }

    /// Renders the current tasks in store order, one line per task.
    #[verifier::loop_isolation(false)]
    pub fn list_tasks(&self) -> (lines: Vec<String>)
        ensures
            lines@.len() == self@.tasks.len(),
            forall|i: int|
                0 <= i < lines@.len() ==> #[trigger] lines@[i]@ == render_line(self@.tasks[i]),
    {
        let mut lines: Vec<String> = Vec::new();
        let mut i: usize = 0;
        while i < self.tasks.len()
            invariant
                0 <= i <= self.tasks.len(),
                lines@.len() == i,
                forall|j: int|
                    0 <= j < i ==> #[trigger] lines@[j]@ == render_line(self@.tasks[j]),
            decreases self.tasks.len() - i,
        {
            let t = &self.tasks[i];
            lines.push(render_task(t.id, &t.title, t.done));
            proof {
                assert(self@.tasks[i as int] == self.tasks@[i as int].deep_view());
            }
            i += 1;
        }
        lines
    }

    /// The number of tasks currently in the store.
    pub fn task_count(&self) -> (n: usize)
        ensures
            n == self@.tasks.len(),
    {
        self.tasks.len()
    }

    /// The number of reversal entries still pending on the undo stack.
    pub fn undo_depth(&self) -> (n: usize)
        ensures
            n == self@.log.len(),
    {
        self.history.len()
    }

    /// The identifier most recently assigned, or zero if none was yet; the
    /// next add assigns one above it.
    pub fn last_assigned_id(&self) -> (n: u32)
        ensures
            n == self@.next_id,
    {
        self.next_id
    }
}

} // verus!
