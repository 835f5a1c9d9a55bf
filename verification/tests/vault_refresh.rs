use std::time::Duration;

use synapse::vault::{VaultEntry, VaultEntryKind};
use synapse::vault_refresh::{refresh_finished, VaultRefreshDebounce, VAULT_REFRESH_DEBOUNCE_MS};

#[test]
fn the_watcher_debounces_refreshes_for_180_ms() {
    assert_eq!(Duration::from_millis(VAULT_REFRESH_DEBOUNCE_MS), Duration::from_millis(180));
}

#[test]
fn only_the_last_of_a_burst_of_changes_refreshes_the_tree() {
    let mut debounce = VaultRefreshDebounce::new();
    let watcher = debounce.restart_watcher();
    assert!(debounce.accepts_events_of(watcher));
    let first = debounce.schedule();
    let second = debounce.schedule();
    let third = debounce.schedule();
    assert!(!debounce.timer_elapsed(first));
    assert!(!debounce.timer_elapsed(second));
    assert!(debounce.timer_elapsed(third));
}

#[test]
fn a_new_watcher_drops_pending_refreshes_and_old_events() {
    let mut debounce = VaultRefreshDebounce::new();
    let old_watcher = debounce.restart_watcher();
    let pending = debounce.schedule();
    let new_watcher = debounce.restart_watcher();
    assert!(!debounce.timer_elapsed(pending));
    assert!(!debounce.accepts_events_of(old_watcher));
    assert!(debounce.accepts_events_of(new_watcher));
    let fresh = debounce.schedule();
    assert!(debounce.timer_elapsed(fresh));
}

#[test]
fn a_changed_tree_forgets_folded_folders_that_are_gone() {
    let entries = vec![VaultEntry {
        relative_path: vec!["kept".to_owned()],
        name: "kept".to_owned(),
        kind: VaultEntryKind::Directory,
    }];
    let mut collapsed = vec![vec!["gone".to_owned()], vec!["kept".to_owned()]];
    refresh_finished(false, &mut collapsed, &entries);
    assert_eq!(collapsed.len(), 2);
    refresh_finished(true, &mut collapsed, &entries);
    assert_eq!(collapsed, vec![vec!["kept".to_owned()]]);
}
