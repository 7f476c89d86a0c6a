//! Mathematical model of the task store and its undo stack.
//!
//! Every executable operation of [`crate::store::TaskManager`] is specified as
//! a transition function on [`StoreModel`]; the laws about undo are stated and
//! proved over these transitions.

use vstd::prelude::*;

verus! {

/// Abstract image of one task: its identifier, title characters and done flag.
#[verifier::ext_equal]
pub struct TaskModel {
    pub id: u32,
    pub title: Seq<char>,
    pub done: bool,
}

/// One recorded reversal: exactly what is needed to undo one mutation.
#[verifier::ext_equal]
pub enum UndoModel {
    /// Reverses an add: every task with this id is removed.
    UnAdd { id: u32 },
    /// Reverses a mark-done: the task's done flag is set back to `prev_done`.
    UnMarkDone { id: u32, prev_done: bool },
    /// Reverses a delete: the snapshotted task is appended again.
    UnDelete { task: TaskModel },
}

/// Abstract state of the whole manager: the ordered tasks, the undo stack
/// (last entry is the top) and the id counter.
#[verifier::ext_equal]
pub struct StoreModel {
    pub tasks: Seq<TaskModel>,
    pub log: Seq<UndoModel>,
    pub next_id: u32,
}

/// Some task in `tasks` carries the identifier `id`.
pub open spec fn has_id(tasks: Seq<TaskModel>, id: u32) -> bool {
    exists|i: int| 0 <= i < tasks.len() && tasks[i].id == id
}

/// The position of the task carrying `id`; meaningful when `has_id` holds and
/// identifiers are distinct, in which case it is the unique such position.
pub open spec fn idx_of(tasks: Seq<TaskModel>, id: u32) -> int {
    choose|i: int| 0 <= i < tasks.len() && tasks[i].id == id
}

/// The same task with its done flag replaced.
pub open spec fn with_done(t: TaskModel, done: bool) -> TaskModel {
    TaskModel { id: t.id, title: t.title, done: done }
}

/// Transition of `add_task`: a fresh task with id `next_id + 1` is appended,
/// the counter advances, and the reversal `UnAdd` is pushed.
pub open spec fn add_step(s: StoreModel, title: Seq<char>) -> StoreModel {
    let id = (s.next_id + 1) as u32;
    StoreModel {
        tasks: s.tasks.push(TaskModel { id: id, title: title, done: false }),
        log: s.log.push(UndoModel::UnAdd { id: id }),
        next_id: id,
    }
}

/// Transition of `mark_done`: if a task carries `id`, its done flag becomes
/// true and the reversal recording the previous flag is pushed; otherwise
/// nothing changes (no entry is pushed either).
pub open spec fn mark_done_step(s: StoreModel, id: u32) -> StoreModel {
    if has_id(s.tasks, id) {
        let i = idx_of(s.tasks, id);
        StoreModel {
            tasks: s.tasks.update(i, with_done(s.tasks[i], true)),
            log: s.log.push(UndoModel::UnMarkDone { id: id, prev_done: s.tasks[i].done }),
            next_id: s.next_id,
        }
    } else {
        s
    }
}

/// Transition of `delete_task`: if a task carries `id`, it is removed and the
/// reversal holding its full snapshot is pushed; otherwise nothing changes.
pub open spec fn delete_step(s: StoreModel, id: u32) -> StoreModel {
    if has_id(s.tasks, id) {
        let i = idx_of(s.tasks, id);
        StoreModel {
            tasks: s.tasks.remove(i),
            log: s.log.push(UndoModel::UnDelete { task: s.tasks[i] }),
            next_id: s.next_id,
        }
    } else {
        s
    }
}

/// Effect of executing one reversal entry against the task sequence.
pub open spec fn revert(tasks: Seq<TaskModel>, e: UndoModel) -> Seq<TaskModel> {
    match e {
        UndoModel::UnAdd { id } => tasks.filter(|t: TaskModel| t.id != id),
        UndoModel::UnMarkDone { id, prev_done } => {
            if has_id(tasks, id) {
                let i = idx_of(tasks, id);
                tasks.update(i, with_done(tasks[i], prev_done))
            } else {
                tasks
            }
        },
        UndoModel::UnDelete { task } => tasks.push(task),
    }
}

/// Transition of `undo`: on an empty stack nothing changes; otherwise the top
/// entry is popped and executed. The id counter never moves back.
pub open spec fn undo_step(s: StoreModel) -> StoreModel {
    if s.log.len() == 0 {
        s
    } else {
        StoreModel {
            tasks: revert(s.tasks, s.log.last()),
            log: s.log.drop_last(),
            next_id: s.next_id,
        }
    }
}

/// Task identifiers are pairwise distinct.
pub open spec fn ids_distinct(tasks: Seq<TaskModel>) -> bool {
    forall|i: int, j: int|
        0 <= i < j < tasks.len() ==> #[trigger] tasks[i].id != #[trigger] tasks[j].id
}

/// Every task identifier lies in `1 ..= next_id`.
pub open spec fn ids_bounded(tasks: Seq<TaskModel>, next_id: u32) -> bool {
    forall|i: int| 0 <= i < tasks.len() ==> 1 <= #[trigger] tasks[i].id <= next_id
}

/// The snapshot held by a pending `UnDelete` entry carries an already assigned
/// identifier that is currently absent from the store.
pub open spec fn log_entry_ok(e: UndoModel, tasks: Seq<TaskModel>, next_id: u32) -> bool {
    match e {
        UndoModel::UnDelete { task } => 1 <= task.id <= next_id && !has_id(tasks, task.id),
        _ => true,
    }
}

/// The identifier snapshotted by an `UnDelete` entry, and a marker for being one.
pub open spec fn undelete_id(e: UndoModel) -> u32 {
    match e {
        UndoModel::UnDelete { task } => task.id,
        _ => 0,
    }
}

/// Well-formedness of the whole state: distinct bounded task ids, every
/// pending `UnDelete` snapshot valid, and no two pending `UnDelete` entries
/// for the same id.
pub open spec fn wf(s: StoreModel) -> bool {
    &&& ids_distinct(s.tasks)
    &&& ids_bounded(s.tasks, s.next_id)
    &&& forall|i: int| 0 <= i < s.log.len() ==> log_entry_ok(#[trigger] s.log[i], s.tasks, s.next_id)
    &&& forall|i: int, j: int|
        0 <= i < j < s.log.len() && s.log[i] is UnDelete && s.log[j] is UnDelete
            ==> #[trigger] undelete_id(s.log[i]) != #[trigger] undelete_id(s.log[j])
}

/// One mutating call against the store, as data.
pub enum OpModel {
    Add { title: Seq<char> },
    MarkDone { id: u32 },
    Delete { id: u32 },
}

/// The transition of one mutating call.
pub open spec fn op_step(s: StoreModel, op: OpModel) -> StoreModel {
    match op {
        OpModel::Add { title } => add_step(s, title),
        OpModel::MarkDone { id } => mark_done_step(s, id),
        OpModel::Delete { id } => delete_step(s, id),
    }
}

/// The state after a whole run of mutating calls, first call first.
pub open spec fn ops_steps(s: StoreModel, ops: Seq<OpModel>) -> StoreModel
    decreases ops.len(),
{
    if ops.len() == 0 {
        s
    } else {
        ops_steps(op_step(s, ops[0]), ops.drop_first())
    }
}

/// The state after calling `undo` `n` times in a row.
pub open spec fn undo_steps(s: StoreModel, n: nat) -> StoreModel
    decreases n,
{
    if n == 0 {
        s
    } else {
        undo_steps(undo_step(s), (n - 1) as nat)
    }
}

/// How many of the calls are adds: each advances the id counter by one.
pub open spec fn num_adds(ops: Seq<OpModel>) -> nat
    decreases ops.len(),
{
    if ops.len() == 0 {
        0
    } else {
        (if ops[0] is Add {
            1nat
        } else {
            0nat
        }) + num_adds(ops.drop_first())
    }
}

} // verus!
