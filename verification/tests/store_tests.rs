use task_undo::store::TaskManager;

#[test]
fn scenario_add_mark_list_delete_add_undo() {
    let mut m = TaskManager::new();
    let a = m.add_task(String::from("A"));
    let b = m.add_task(String::from("B"));
    assert_eq!(a, 1);
    assert_eq!(b, 2);
    m.mark_done(1);
    assert_eq!(
        m.list_tasks(),
        vec![String::from("[\u{2714}] A (ID: 1)"), String::from("[ ] B (ID: 2)")]
    );
    m.delete_task(1);
    let c = m.add_task(String::from("C"));
    assert_eq!(c, 3);
    assert_eq!(
        m.list_tasks(),
        vec![String::from("[ ] B (ID: 2)"), String::from("[ ] C (ID: 3)")]
    );
    m.undo();
    assert_eq!(m.list_tasks(), vec![String::from("[ ] B (ID: 2)")]);
}

#[test]
fn undo_reverses_add() {
    let mut m = TaskManager::new();
    m.add_task(String::from("one"));
    m.add_task(String::from("two"));
    let before = m.list_tasks();
    m.add_task(String::from("three"));
    assert_eq!(m.task_count(), 3);
    m.undo();
    assert_eq!(m.list_tasks(), before);
    assert_eq!(m.undo_depth(), 2);
}

#[test]
fn undo_reverses_mark_done() {
    let mut m = TaskManager::new();
    m.add_task(String::from("one"));
    let before = m.list_tasks();
    m.mark_done(1);
    assert_eq!(m.list_tasks(), vec![String::from("[\u{2714}] one (ID: 1)")]);
    m.undo();
    assert_eq!(m.list_tasks(), before);
    assert_eq!(m.undo_depth(), 1);
}

#[test]
fn undo_reverses_delete_but_reinserts_at_end() {
    let mut m = TaskManager::new();
    m.add_task(String::from("A"));
    m.add_task(String::from("B"));
    m.mark_done(1);
    m.delete_task(1);
    assert_eq!(m.list_tasks(), vec![String::from("[ ] B (ID: 2)")]);
    m.undo();
    // The deleted task comes back with its full content (done flag included)
    // but at the end of the sequence, not at its original position.
    assert_eq!(
        m.list_tasks(),
        vec![String::from("[ ] B (ID: 2)"), String::from("[\u{2714}] A (ID: 1)")]
    );
}

#[test]
fn undo_whole_run_restores_store() {
    let mut m = TaskManager::new();
    m.add_task(String::from("keep"));
    let before = m.list_tasks();
    m.add_task(String::from("extra"));
    m.mark_done(1);
    m.mark_done(2);
    m.undo();
    m.undo();
    m.undo();
    assert_eq!(m.list_tasks(), before);
    assert_eq!(m.undo_depth(), 1);
}

#[test]
fn ids_strictly_increase_and_are_never_reused() {
    let mut m = TaskManager::new();
    assert_eq!(m.add_task(String::from("a")), 1);
    assert_eq!(m.add_task(String::from("b")), 2);
    m.delete_task(1);
    m.delete_task(2);
    // Both tasks are gone, yet their identifiers stay used up.
    assert_eq!(m.task_count(), 0);
    assert_eq!(m.add_task(String::from("c")), 3);
    m.undo();
    m.undo();
    m.undo();
    // Undo does not move the id counter back either.
    assert_eq!(m.add_task(String::from("d")), 4);
}

#[test]
fn mark_done_unknown_id_changes_nothing() {
    let mut m = TaskManager::new();
    m.add_task(String::from("one"));
    let before = m.list_tasks();
    m.mark_done(99);
    assert_eq!(m.list_tasks(), before);
    assert_eq!(m.undo_depth(), 1);
    assert_eq!(m.task_count(), 1);
}

#[test]
fn delete_unknown_id_changes_nothing() {
    let mut m = TaskManager::new();
    m.add_task(String::from("one"));
    let before = m.list_tasks();
    m.delete_task(99);
    assert_eq!(m.list_tasks(), before);
    assert_eq!(m.undo_depth(), 1);
    assert_eq!(m.task_count(), 1);
}

#[test]
fn undo_on_empty_log_changes_nothing() {
    let mut m = TaskManager::new();
    m.undo();
    assert_eq!(m.task_count(), 0);
    assert_eq!(m.undo_depth(), 0);

    m.add_task(String::from("one"));
    m.undo();
    let before = m.list_tasks();
    // The log is exhausted now; one more undo must be a silent no-op.
    m.undo();
    assert_eq!(m.list_tasks(), before);
    assert_eq!(m.undo_depth(), 0);
}

#[test]
fn mark_done_twice_needs_two_undos() {
    let mut m = TaskManager::new();
    m.add_task(String::from("one"));
    m.mark_done(1);
    m.mark_done(1);
    // Two entries were pushed, one per call.
    assert_eq!(m.undo_depth(), 3);
    m.undo();
    // The second recorded previous flag was true: the task stays done.
    assert_eq!(m.list_tasks(), vec![String::from("[\u{2714}] one (ID: 1)")]);
    m.undo();
    // Only the second undo restores the original flag.
    assert_eq!(m.list_tasks(), vec![String::from("[ ] one (ID: 1)")]);
    assert_eq!(m.undo_depth(), 1);
}

#[test]
fn empty_title_renders() {
    let mut m = TaskManager::new();
    m.add_task(String::new());
    assert_eq!(m.list_tasks(), vec![String::from("[ ]  (ID: 1)")]);
}

#[test]
fn counters_on_fresh_store() {
    let m = TaskManager::new();
    assert_eq!(m.task_count(), 0);
    assert_eq!(m.undo_depth(), 0);
    assert_eq!(m.last_assigned_id(), 0);
}
