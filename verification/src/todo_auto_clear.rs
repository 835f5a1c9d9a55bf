//! Clearing a todo that was just completed, when auto-clear is on: the row stays visible
//! for a short hold (pending), then slides out (exiting), then the todo is deleted.
//!
//! Each run is stamped with a generation. Two timers drive a run, one after the hold and
//! one after the exit; the shell reports them here with the stamp they were started
//! with, and a timer whose run was cancelled or replaced in the meantime changes nothing.

use std::collections::{BTreeMap, BTreeSet};

use vstd::prelude::*;
use vstd::std_specs::iter::IteratorSpec;

use crate::todo_workspace::{
    has_todo, todo_deleted, todo_index, toggled, TodoToggleOutcome, TodoWorkspace,
};

verus! {

broadcast use vstd::std_specs::btree::group_btree_axioms;

/// How long a completed todo stays in place before it leaves, in milliseconds.
pub const TODO_AUTO_CLEAR_COMPLETED_HOLD_MS: u64 = 420;

/// How long a completed todo takes to leave, in milliseconds.
pub const TODO_AUTO_CLEAR_EXIT_MS: u64 = 220;

/// The runs in progress: the last generation handed out, the generation of the run of
/// each todo, and which of those todos are holding and which are leaving.
#[verifier::ext_equal]
pub struct AutoClearView {
    pub generation: u64,
    pub runs: Map<u64, u64>,
    pub pending: Set<u64>,
    pub exiting: Set<u64>,
}

/// Every holding or leaving todo has a run, and none does both.
pub open spec fn auto_clear_wf(v: AutoClearView) -> bool {
    &&& forall|id: u64| v.pending.contains(id) ==> v.runs.contains_key(id)
    &&& forall|id: u64| v.exiting.contains(id) ==> v.runs.contains_key(id)
    &&& forall|id: u64| !(v.pending.contains(id) && v.exiting.contains(id))
}

/// The generation after `g`, wrapping around.
pub open spec fn next_generation(g: u64) -> u64 {
    if g == u64::MAX {
        0
    } else {
        (g + 1) as u64
    }
}

/// The run of `id` is the one stamped `g`.
pub open spec fn is_current_run(v: AutoClearView, id: u64, g: u64) -> bool {
    v.runs.contains_key(id) && v.runs[id] == g
}

/// A new run for `id`, stamped with the next generation, holding.
pub open spec fn run_begun(v: AutoClearView, id: u64) -> AutoClearView {
    let g = next_generation(v.generation);
    AutoClearView {
        generation: g,
        runs: v.runs.insert(id, g),
        pending: v.pending.insert(id),
        exiting: v.exiting.remove(id),
    }
}

/// `id` has no run any more.
pub open spec fn run_dropped(v: AutoClearView, id: u64) -> AutoClearView {
    AutoClearView {
        generation: v.generation,
        runs: v.runs.remove(id),
        pending: v.pending.remove(id),
        exiting: v.exiting.remove(id),
    }
}

/// After the hold timer of run `g` of `id`: the todo starts leaving, if that run is
/// still the current one.
pub open spec fn after_hold(v: AutoClearView, id: u64, g: u64) -> AutoClearView {
    if is_current_run(v, id, g) {
        AutoClearView {
            generation: v.generation,
            runs: v.runs,
            pending: v.pending.remove(id),
            exiting: v.exiting.insert(id),
        }
    } else {
        v
    }
}

/// After the exit timer of run `g` of `id`: the run ends, if it is still the current
/// one.
pub open spec fn after_exit(v: AutoClearView, id: u64, g: u64) -> AutoClearView {
    if is_current_run(v, id, g) {
        run_dropped(v, id)
    } else {
        v
    }
}

/// Only the runs of todos for which `present` holds are kept.
pub open spec fn runs_kept(v: AutoClearView, present: spec_fn(u64) -> bool) -> AutoClearView {
    AutoClearView {
        generation: v.generation,
        runs: v.runs.restrict(v.runs.dom().filter(present)),
        pending: v.pending.filter(present),
        exiting: v.exiting.filter(present),
    }
}

/// The todos of `ws`.
pub open spec fn todo_present(ws: TodoWorkspace) -> spec_fn(u64) -> bool {
    |id: u64| has_todo(ws.todo_seq(), id)
}

/// What the shell does after a todo was checked or unchecked: write the workspace when
/// `persist`, and start the hold timer of run `hold` when there is one (closing the tag
/// picker and the editor of that todo).
#[derive(Clone, Copy, Debug, PartialEq, Eq)]
pub struct AutoClearToggle {
    pub persist: bool,
    pub hold: Option<u64>,
}

/// The auto-clear runs of the todo list.
pub struct TodoAutoClear {
    generation: u64,
    runs: BTreeMap<u64, u64>,
    pending: BTreeSet<u64>,
    exiting: BTreeSet<u64>,
}

impl View for TodoAutoClear {
    type V = AutoClearView;

    closed spec fn view(&self) -> AutoClearView {
        AutoClearView {
            generation: self.generation,
            runs: self.runs@,
            pending: self.pending@,
            exiting: self.exiting@,
        }
    }
}

impl TodoAutoClear {
    /// No run in progress.
    pub fn new() -> (s: TodoAutoClear)
        ensures
            s@.generation == 0,
            s@.runs == Map::<u64, u64>::empty(),
            s@.pending == Set::<u64>::empty(),
            s@.exiting == Set::<u64>::empty(),
            auto_clear_wf(s@),
    {
        TodoAutoClear {
            generation: 0,
            runs: BTreeMap::new(),
            pending: BTreeSet::new(),
            exiting: BTreeSet::new(),
        }
    }

    /// Whether the todo `id` is holding before it leaves.
    pub fn is_pending(&self, id: u64) -> (b: bool)
        ensures
            b == self@.pending.contains(id),
    {
        self.pending.contains(&id)
    }

    /// Whether the todo `id` is leaving.
    pub fn is_exiting(&self, id: u64) -> (b: bool)
        ensures
            b == self@.exiting.contains(id),
    {
        self.exiting.contains(&id)
    }

    /// Whether the run of `id` stamped `g` is still the current one.
    fn is_current(&self, id: u64, g: u64) -> (b: bool)
        ensures
            b == is_current_run(self@, id, g),
    {
        match self.runs.get(&id) {
            Some(current) => *current == g,
            None => false,
        }
    }

    /// Ends the run of `id`, if it has one.
    pub fn drop_run(&mut self, id: u64)
        ensures
            final(self)@ == run_dropped(old(self)@, id),
            auto_clear_wf(old(self)@) ==> auto_clear_wf(final(self)@),
    {
        self.runs.remove(&id);
        self.pending.remove(&id);
        self.exiting.remove(&id);
        proof {
            assert(self@ =~= run_dropped(old(self)@, id));
        }
    }

    /// Starts a run for `id` and returns its generation.
    fn begin_run(&mut self, id: u64) -> (g: u64)
        ensures
            final(self)@ == run_begun(old(self)@, id),
            g == final(self)@.generation,
            auto_clear_wf(old(self)@) ==> auto_clear_wf(final(self)@),
    {
        self.generation = if self.generation == u64::MAX {
            0
        } else {
            self.generation + 1
        };
        let g = self.generation;
        self.runs.insert(id, g);
        self.pending.insert(id);
        self.exiting.remove(&id);
        proof {
            assert(self@ =~= run_begun(old(self)@, id));
        }
        g
    }

    /// Checks or unchecks the todo `todo_id`. A todo with a run in progress is
    /// unchecked and its run cancelled. Otherwise the todo flips; when auto-clear is on
    /// and it was open, a run starts for it. The workspace is written whenever a todo
    /// changed.
    pub fn toggle(&mut self, workspace: &mut TodoWorkspace, todo_id: u64, auto_clear_enabled: bool) -> (effect: AutoClearToggle)
        ensures
            toggled(*old(workspace), *final(workspace), todo_id),
            effect.persist == has_todo(old(workspace).todo_seq(), todo_id),
            ({
                let todos = old(workspace).todo_seq();
                let v = old(self)@;
                if v.runs.contains_key(todo_id) {
                    final(self)@ == run_dropped(v, todo_id) && effect.hold is None
                } else if auto_clear_enabled && has_todo(todos, todo_id) && !todos[todo_index(
                    todos,
                    todo_id,
                )].done {
                    final(self)@ == run_begun(v, todo_id) && effect.hold == Some(
                        final(self)@.generation,
                    )
                } else {
                    final(self)@ == v && effect.hold is None
                }
            }),
            auto_clear_wf(old(self)@) ==> auto_clear_wf(final(self)@),
            old(workspace).wf() ==> final(workspace).wf(),
            old(workspace).ids_fresh() ==> final(workspace).ids_fresh(),
    {
        if self.runs.contains_key(&todo_id) {
            self.drop_run(todo_id);
            let outcome = workspace.toggle_todo_with_auto_clear(todo_id, false);
            return AutoClearToggle { persist: !matches!(outcome, TodoToggleOutcome::Missing), hold: None };
        }
        let animate = auto_clear_enabled && workspace.todo_is_done(todo_id) == Some(false);
        let outcome = workspace.toggle_todo_with_auto_clear(todo_id, false);
        if matches!(outcome, TodoToggleOutcome::Missing) {
            return AutoClearToggle { persist: false, hold: None };
        }
        if animate {
            let g = self.begin_run(todo_id);
            AutoClearToggle { persist: true, hold: Some(g) }
        } else {
            AutoClearToggle { persist: true, hold: None }
        }
    }

    /// Keeps only the runs of todos that `workspace` still has (after the done todos
    /// were cleared).
    pub fn keep_present(&mut self, workspace: &TodoWorkspace)
        requires
            auto_clear_wf(old(self)@),
        ensures
            final(self)@ == runs_kept(old(self)@, todo_present(*workspace)),
            auto_clear_wf(final(self)@),
    {
        let ghost v0 = self@;
        let ghost present = todo_present(*workspace);
        let ghost all = vstd::std_specs::btree::spec_keys_iter(&self.runs).remaining();
        proof {
            assert(all.unref().to_set() == v0.runs.dom());
        }
        let mut ids: Vec<u64> = Vec::new();
        for id in it: self.runs.keys()
            invariant
                it.seq() == all,
                ids@.len() == it.index(),
                forall|j: int| 0 <= j < it.index() ==> ids@[j] == *it.seq()[j],
        {
            ids.push(*id);
        }
        proof {
            assert(ids@ =~= all.unref());
        }
        let mut i: usize = 0;
        while i < ids.len()
            invariant
                i <= ids.len(),
                ids@.to_set() == v0.runs.dom(),
                auto_clear_wf(v0),
                present == todo_present(*workspace),
                self@.generation == v0.generation,
                forall|k: u64| #[trigger] self@.runs.contains_key(k) <==> v0.runs.contains_key(k) && (
                    present(k) || !ids@.take(i as int).contains(k)),
                forall|k: u64| self@.runs.contains_key(k) ==> #[trigger] self@.runs[k] == v0.runs[k],
                forall|k: u64| #[trigger] self@.pending.contains(k) <==> v0.pending.contains(k) && (
                    present(k) || !ids@.take(i as int).contains(k)),
                forall|k: u64| #[trigger] self@.exiting.contains(k) <==> v0.exiting.contains(k) && (
                    present(k) || !ids@.take(i as int).contains(k)),
            decreases ids.len() - i,
        {
            let id = ids[i];
            let ghost before = self@;
            let ghost seen = ids@.take(i as int);
            let ghost upto = ids@.take(i + 1);
            assert(upto =~= seen.push(id));
            assert forall|k: u64| upto.contains(k) <==> (seen.contains(k) || k == id) by {
                if upto.contains(k) && k != id {
                    let j = choose|j: int| 0 <= j < upto.len() && upto[j] == k;
                    assert(seen[j] == k);
                }
                if seen.contains(k) {
                    let j = choose|j: int| 0 <= j < seen.len() && seen[j] == k;
                    assert(upto[j] == k);
                }
                if k == id {
                    assert(upto[i as int] == k);
                }
            }
            let keep = workspace.contains_todo(id);
            if !keep {
                self.drop_run(id);
            }
            proof {
                assert(keep == present(id));
                assert forall|k: u64| #[trigger] self@.runs.contains_key(k) <==> v0.runs.contains_key(k) && (
                    present(k) || !ids@.take(i + 1).contains(k)) by {
                    if k != id {
                        assert(self@.runs.contains_key(k) == before.runs.contains_key(k));
                    }
                }
                assert forall|k: u64| #[trigger] self@.pending.contains(k) <==> v0.pending.contains(k) && (
                    present(k) || !ids@.take(i + 1).contains(k)) by {
                    if k != id {
                        assert(self@.pending.contains(k) == before.pending.contains(k));
                    }
                }
            }
            i += 1;
        }
        proof {
            assert(ids@.take(ids.len() as int) =~= ids@);
            assert forall|k: u64| ids@.contains(k) <==> v0.runs.dom().contains(k) by {
                if ids@.contains(k) {
                    assert(ids@.to_set().contains(k));
                }
                if v0.runs.dom().contains(k) {
                    assert(ids@.to_set().contains(k));
                }
            }
            assert(self@.runs =~= v0.runs.restrict(v0.runs.dom().filter(present)));
            assert(self@.pending =~= v0.pending.filter(present));
            assert(self@.exiting =~= v0.exiting.filter(present));
            assert(self@ =~= runs_kept(v0, present));
        }
    }

    /// The hold of run `g` of `todo_id` is over: `true` when that run is still current,
    /// and the todo then starts leaving (the shell starts the exit timer).
    pub fn hold_elapsed(&mut self, todo_id: u64, g: u64) -> (leaving: bool)
        ensures
            leaving == is_current_run(old(self)@, todo_id, g),
            final(self)@ == after_hold(old(self)@, todo_id, g),
            auto_clear_wf(old(self)@) ==> auto_clear_wf(final(self)@),
    {
        if !self.is_current(todo_id, g) {
            return false;
        }
        self.pending.remove(&todo_id);
        self.exiting.insert(todo_id);
        proof {
            assert(self@ =~= after_hold(old(self)@, todo_id, g));
        }
        true
    }

    /// The exit of run `g` of `todo_id` is over: when that run is still current it ends
    /// and the todo is deleted. `true` when a todo was deleted (the shell then writes
    /// the workspace).
    pub fn exit_elapsed(&mut self, workspace: &mut TodoWorkspace, todo_id: u64, g: u64) -> (deleted: bool)
        ensures
            final(self)@ == after_exit(old(self)@, todo_id, g),
            if is_current_run(old(self)@, todo_id, g) {
                &&& deleted == has_todo(old(workspace).todo_seq(), todo_id)
                &&& todo_deleted(*old(workspace), *final(workspace), todo_id)
            } else {
                !deleted && *final(workspace) == *old(workspace)
            },
            auto_clear_wf(old(self)@) ==> auto_clear_wf(final(self)@),
            old(workspace).wf() ==> final(workspace).wf(),
            old(workspace).ids_fresh() ==> final(workspace).ids_fresh(),
    {
        if !self.is_current(todo_id, g) {
            return false;
        }
        self.drop_run(todo_id);
        workspace.delete_todo(todo_id)
    }
}

/// A run that nothing interrupts ends: after its hold the todo is leaving, and after
/// its exit the todo has no run and is neither holding nor leaving.
pub proof fn lemma_uninterrupted_run_ends(v: AutoClearView, id: u64)
    requires
        auto_clear_wf(v),
    ensures
        ({
            let begun = run_begun(v, id);
            let g = begun.generation;
            let held = after_hold(begun, id, g);
            let ended = after_exit(held, id, g);
            &&& auto_clear_wf(begun) && auto_clear_wf(held) && auto_clear_wf(ended)
            &&& begun.pending.contains(id) && !begun.exiting.contains(id)
            &&& held.exiting.contains(id) && !held.pending.contains(id)
            &&& !ended.runs.contains_key(id) && !ended.pending.contains(id) && !ended.exiting.contains(id)
        }),
{
}

/// The timers of a cancelled run change nothing when they fire.
pub proof fn lemma_cancelled_run_timers_change_nothing(v: AutoClearView, id: u64, g: u64)
    ensures
        after_hold(run_dropped(v, id), id, g) == run_dropped(v, id),
        after_exit(run_dropped(v, id), id, g) == run_dropped(v, id),
{
}

/// Starting a new run for a todo makes the timers of every other stamp inert for it.
pub proof fn lemma_restart_ignores_other_stamps(v: AutoClearView, id: u64, g: u64)
    requires
        g != next_generation(v.generation),
    ensures
        after_hold(run_begun(v, id), id, g) == run_begun(v, id),
        after_exit(run_begun(v, id), id, g) == run_begun(v, id),
{
}

} // verus!
