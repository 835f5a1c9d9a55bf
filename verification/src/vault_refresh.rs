//! When the file tree is read again after changes on disk: the file watcher's events are
//! debounced, and the tree is refreshed once no further change has arrived for
//! `VAULT_REFRESH_DEBOUNCE_MS` (a trailing debounce).
//!
//! Each watcher and each scheduled refresh carries a generation. The shell starts a timer
//! for every refresh it schedules and reports it back with its ticket; only the timer of
//! the latest refresh of the current watcher reads the tree again.

use vstd::prelude::*;

use crate::vault::{entries_view, is_directory_of, paths_view, prune_collapsed_directories, VaultEntry};

verus! {

/// How long the file tree waits for further changes before it is read again, in
/// milliseconds.
pub const VAULT_REFRESH_DEBOUNCE_MS: u64 = 180;

/// `g + 1`, wrapping around.
pub open spec fn wrapped_next(g: u64) -> u64 {
    if g == u64::MAX {
        0
    } else {
        (g + 1) as u64
    }
}

/// What a refresh timer carries: the watcher and the refresh it was started for.
#[derive(Clone, Copy, Debug, PartialEq, Eq)]
pub struct RefreshTicket {
    pub watcher_generation: u64,
    pub refresh_generation: u64,
}

/// The generations of the current file watcher and of the latest scheduled refresh.
#[derive(Clone, Copy, Debug, PartialEq, Eq)]
pub struct VaultRefreshDebounce {
    pub watcher_generation: u64,
    pub refresh_generation: u64,
}

/// The timer of `ticket` is the one of the latest refresh of the current watcher.
pub open spec fn ticket_current(state: VaultRefreshDebounce, ticket: RefreshTicket) -> bool {
    ticket.watcher_generation == state.watcher_generation && ticket.refresh_generation
        == state.refresh_generation
}

impl VaultRefreshDebounce {
    /// No watcher started and nothing scheduled.
    pub fn new() -> (state: VaultRefreshDebounce)
        ensures
            state.watcher_generation == 0 && state.refresh_generation == 0,
    {
        VaultRefreshDebounce { watcher_generation: 0, refresh_generation: 0 }
    }

    /// A new watcher replaces the previous one (a new Vault, or the first one): returns
    /// its generation. Events and timers of earlier watchers are ignored from now on.
    pub fn restart_watcher(&mut self) -> (generation: u64)
        ensures
            final(self).watcher_generation == wrapped_next(old(self).watcher_generation),
            final(self).refresh_generation == old(self).refresh_generation,
            generation == final(self).watcher_generation,
    {
        self.watcher_generation = if self.watcher_generation == u64::MAX {
            0
        } else {
            self.watcher_generation + 1
        };
        self.watcher_generation
    }

    /// Whether an event of the watcher `generation` still counts.
    pub fn accepts_events_of(&self, generation: u64) -> (accepted: bool)
        ensures
            accepted == (generation == self.watcher_generation),
    {
        generation == self.watcher_generation
    }

    /// A change arrived: a refresh is scheduled, which supersedes any refresh scheduled
    /// before. The shell starts a timer of `VAULT_REFRESH_DEBOUNCE_MS` for the ticket.
    pub fn schedule(&mut self) -> (ticket: RefreshTicket)
        ensures
            final(self).refresh_generation == wrapped_next(old(self).refresh_generation),
            final(self).watcher_generation == old(self).watcher_generation,
            ticket_current(*final(self), ticket),
    {
        self.refresh_generation = if self.refresh_generation == u64::MAX {
            0
        } else {
            self.refresh_generation + 1
        };
        RefreshTicket {
            watcher_generation: self.watcher_generation,
            refresh_generation: self.refresh_generation,
        }
    }

    /// The timer of `ticket` has run out: `true` when the file tree is to be read again
    /// now, that is when no change and no new watcher came after it.
    pub fn timer_elapsed(&self, ticket: RefreshTicket) -> (refresh: bool)
        ensures
            refresh == ticket_current(*self, ticket),
    {
        ticket.watcher_generation == self.watcher_generation && ticket.refresh_generation
            == self.refresh_generation
    }
}

/// The file tree was read again: when it `changed`, the folded folders that are no
/// longer folders of the Vault are forgotten; otherwise nothing changes.
pub fn refresh_finished(changed: bool, collapsed_directories: &mut Vec<Vec<String>>, entries: &[VaultEntry])
    ensures
        changed ==> paths_view(final(collapsed_directories)@) == paths_view(
            old(collapsed_directories)@,
        ).filter(is_directory_of(entries_view(entries@))),
        !changed ==> *final(collapsed_directories) == *old(collapsed_directories),
{
    if changed {
        prune_collapsed_directories(collapsed_directories, entries);
    }
}

/// The debounce trails: a refresh scheduled after another makes the earlier one's timer
/// do nothing, and the later one's timer refreshes.
pub proof fn lemma_later_change_supersedes(state: VaultRefreshDebounce, first: RefreshTicket)
    requires
        ticket_current(state, first),
    ensures
        ({
            let later = VaultRefreshDebounce {
                watcher_generation: state.watcher_generation,
                refresh_generation: wrapped_next(state.refresh_generation),
            };
            let second = RefreshTicket {
                watcher_generation: state.watcher_generation,
                refresh_generation: later.refresh_generation,
            };
            !ticket_current(later, first) && ticket_current(later, second)
        }),
{
}

/// A new watcher makes the timers of every refresh scheduled before it do nothing.
pub proof fn lemma_restart_cancels_pending_refresh(state: VaultRefreshDebounce, ticket: RefreshTicket)
    requires
        ticket_current(state, ticket),
    ensures
        !ticket_current(
            VaultRefreshDebounce {
                watcher_generation: wrapped_next(state.watcher_generation),
                refresh_generation: state.refresh_generation,
            },
            ticket,
        ),
{
}

} // verus!
