use std::time::Duration;

use synapse::todo_auto_clear::{
    TodoAutoClear, TODO_AUTO_CLEAR_COMPLETED_HOLD_MS, TODO_AUTO_CLEAR_EXIT_MS,
};
use synapse::todo_workspace::TodoWorkspace;

fn workspace_with(texts: &[&str]) -> (TodoWorkspace, Vec<u64>) {
    let mut workspace = TodoWorkspace::default();
    let ids = texts
        .iter()
        .map(|text| workspace.add_todo(text).unwrap())
        .collect();
    (workspace, ids)
}

#[test]
fn completed_todos_hold_briefly_then_leave_quickly() {
    assert_eq!(
        Duration::from_millis(TODO_AUTO_CLEAR_COMPLETED_HOLD_MS),
        Duration::from_millis(420)
    );
    assert_eq!(Duration::from_millis(TODO_AUTO_CLEAR_EXIT_MS), Duration::from_millis(220));
}

#[test]
fn a_checked_todo_holds_then_leaves_then_is_deleted() {
    let (mut workspace, ids) = workspace_with(&["ship"]);
    let id = ids[0];
    let mut runs = TodoAutoClear::new();

    let effect = runs.toggle(&mut workspace, id, true);
    assert!(effect.persist);
    assert_eq!(effect.hold, Some(1));
    assert_eq!(workspace.todo_is_done(id), Some(true));
    assert!(runs.is_pending(id) && !runs.is_exiting(id));

    assert!(runs.hold_elapsed(id, 1));
    assert!(!runs.is_pending(id) && runs.is_exiting(id));

    assert!(runs.exit_elapsed(&mut workspace, id, 1));
    assert!(!workspace.contains_todo(id));
    assert!(!runs.is_pending(id) && !runs.is_exiting(id));
}

#[test]
fn unchecking_during_the_hold_cancels_the_run_and_its_timers() {
    let (mut workspace, ids) = workspace_with(&["ship"]);
    let id = ids[0];
    let mut runs = TodoAutoClear::new();
    assert_eq!(runs.toggle(&mut workspace, id, true).hold, Some(1));

    let effect = runs.toggle(&mut workspace, id, true);
    assert!(effect.persist);
    assert_eq!(effect.hold, None);
    assert_eq!(workspace.todo_is_done(id), Some(false));
    assert!(!runs.is_pending(id));

    assert!(!runs.hold_elapsed(id, 1));
    assert!(!runs.exit_elapsed(&mut workspace, id, 1));
    assert!(workspace.contains_todo(id));
}

#[test]
fn a_restarted_run_ignores_the_timers_of_the_earlier_one() {
    let (mut workspace, ids) = workspace_with(&["ship"]);
    let id = ids[0];
    let mut runs = TodoAutoClear::new();
    assert_eq!(runs.toggle(&mut workspace, id, true).hold, Some(1));
    assert_eq!(runs.toggle(&mut workspace, id, true).hold, None);
    assert_eq!(runs.toggle(&mut workspace, id, true).hold, Some(2));

    assert!(!runs.hold_elapsed(id, 1));
    assert!(runs.is_pending(id));
    assert!(runs.hold_elapsed(id, 2));
    assert!(!runs.exit_elapsed(&mut workspace, id, 1));
    assert!(runs.exit_elapsed(&mut workspace, id, 2));
    assert!(!workspace.contains_todo(id));
}

#[test]
fn without_auto_clear_or_for_done_todos_nothing_is_scheduled() {
    let (mut workspace, ids) = workspace_with(&["a"]);
    let id = ids[0];
    let mut runs = TodoAutoClear::new();
    let effect = runs.toggle(&mut workspace, id, false);
    assert!(effect.persist);
    assert_eq!(effect.hold, None);
    assert_eq!(workspace.todo_is_done(id), Some(true));

    // Reopening a done todo never starts a run.
    let effect = runs.toggle(&mut workspace, id, true);
    assert_eq!(effect.hold, None);
    assert_eq!(workspace.todo_is_done(id), Some(false));

    let missing = runs.toggle(&mut workspace, 99, true);
    assert!(!missing.persist);
    assert_eq!(missing.hold, None);
}

#[test]
fn clearing_done_todos_drops_their_runs_only() {
    let (mut workspace, ids) = workspace_with(&["a", "b"]);
    let mut runs = TodoAutoClear::new();
    runs.toggle(&mut workspace, ids[0], true);
    runs.toggle(&mut workspace, ids[1], true);
    assert!(runs.hold_elapsed(ids[1], 2));
    assert!(workspace.toggle_todo(ids[1]));
    assert!(workspace.toggle_todo(ids[1]));
    assert_eq!(workspace.clear_completed(), 2);
    assert!(workspace.add_todo("c").is_ok());

    runs.keep_present(&workspace);
    assert!(!runs.is_pending(ids[0]));
    assert!(!runs.is_exiting(ids[1]));
    assert!(!runs.hold_elapsed(ids[0], 1));
}

#[test]
fn deleting_a_todo_ends_its_run() {
    let (mut workspace, ids) = workspace_with(&["a"]);
    let mut runs = TodoAutoClear::new();
    runs.toggle(&mut workspace, ids[0], true);
    runs.drop_run(ids[0]);
    assert!(!runs.is_pending(ids[0]));
    assert!(!runs.hold_elapsed(ids[0], 1));
}
