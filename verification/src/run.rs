//! Deciding, task by task, whether a copy is performed.
//!
//! The executor walks the planned tasks in order.  A task whose
//! destination path already exists is skipped; otherwise the copy is
//! attempted and the destination is recorded as existing from then on.
//! The model tracks the set of existing destination paths; performing
//! the copies themselves is the caller's business.

use crate::paths::PathView;
use crate::paths::copy_path;
use crate::paths::path_eq;
use crate::plan::Config;
use crate::plan::Entry;
use crate::plan::Task;
use crate::plan::TaskView;
use crate::plan::entry_views;
use crate::plan::lemma_select_planable;
use crate::plan::plan_tasks;
use crate::plan::select_files;
use crate::plan::spec_entry_matches;
use crate::plan::spec_plan_tasks;
use crate::plan::spec_planable;
use crate::plan::spec_select;
use crate::plan::task_views;
use vstd::prelude::*;

verus! {

/// The set of existing destination paths after one task: unchanged
/// when the destination was already there, grown by it otherwise.
pub open spec fn spec_step(existing: Set<PathView>, t: TaskView) -> Set<PathView> {
    if existing.contains(t.dest_path) {
        existing
    } else {
        existing.insert(t.dest_path)
    }
}

/// The set of existing destination paths after all of `tasks`, run in
/// order from the initial set `existing`.
pub open spec fn spec_run_set(tasks: Seq<TaskView>, existing: Set<PathView>) -> Set<PathView>
    decreases tasks.len(),
{
    if tasks.len() == 0 {
        existing
    } else {
        spec_step(spec_run_set(tasks.drop_last(), existing), tasks.last())
    }
}

/// The decision for each task, in order: `true` when the copy is
/// attempted, `false` when the task is skipped because its destination
/// already exists at its turn.
pub open spec fn spec_decisions(tasks: Seq<TaskView>, existing: Set<PathView>) -> Seq<bool>
    decreases tasks.len(),
{
    if tasks.len() == 0 {
        Seq::empty()
    } else {
        spec_decisions(tasks.drop_last(), existing).push(
            !spec_run_set(tasks.drop_last(), existing).contains(tasks.last().dest_path),
        )
    }
}

/// There is one decision per task.
pub proof fn lemma_decisions_len(tasks: Seq<TaskView>, existing: Set<PathView>)
    ensures
        spec_decisions(tasks, existing).len() == tasks.len(),
    decreases tasks.len(),
{
    if tasks.len() > 0 {
        lemma_decisions_len(tasks.drop_last(), existing);
    }
}

/// A run only ever adds destination paths: the initial set survives.
pub proof fn lemma_run_set_monotonic(tasks: Seq<TaskView>, existing: Set<PathView>)
    ensures
        existing.subset_of(spec_run_set(tasks, existing)),
    decreases tasks.len(),
{
    if tasks.len() > 0 {
        lemma_run_set_monotonic(tasks.drop_last(), existing);
    }
}

/// After a run, every task's destination path exists.
pub proof fn lemma_run_set_contains_dests(tasks: Seq<TaskView>, existing: Set<PathView>, i: int)
    requires
        0 <= i < tasks.len(),
    ensures
        spec_run_set(tasks, existing).contains(tasks[i].dest_path),
    decreases tasks.len(),
{
    if i == tasks.len() - 1 {
    } else {
        lemma_run_set_contains_dests(tasks.drop_last(), existing, i);
    }
}

/// A task whose destination is in the initial set is never copied.
pub proof fn lemma_skip_if_present(tasks: Seq<TaskView>, existing: Set<PathView>, j: int)
    requires
        0 <= j < tasks.len(),
        existing.contains(tasks[j].dest_path),
    ensures
        spec_decisions(tasks, existing)[j] == false,
    decreases tasks.len(),
{
    lemma_decisions_len(tasks.drop_last(), existing);
    if j == tasks.len() - 1 {
        lemma_run_set_monotonic(tasks.drop_last(), existing);
    } else {
        lemma_skip_if_present(tasks.drop_last(), existing, j);
    }
}

/// When every task's destination is already in the initial set, a run
/// changes nothing.
pub proof fn lemma_run_set_noop(tasks: Seq<TaskView>, existing: Set<PathView>)
    requires
        forall|i: int| 0 <= i < tasks.len() ==> existing.contains(#[trigger] tasks[i].dest_path),
    ensures
        spec_run_set(tasks, existing) == existing,
    decreases tasks.len(),
{
    if tasks.len() > 0 {
        assert(forall|i: int|
            0 <= i < tasks.drop_last().len() ==> existing.contains(
                #[trigger] tasks.drop_last()[i].dest_path,
            ));
        lemma_run_set_noop(tasks.drop_last(), existing);
    }
}

/// A task's decision is to copy exactly when its destination path is
/// absent once all earlier tasks have run: one copy attempt per task,
/// unless the destination already exists at its turn.
pub proof fn lemma_copy_iff_fresh(tasks: Seq<TaskView>, existing: Set<PathView>, j: int)
    requires
        0 <= j < tasks.len(),
    ensures
        spec_decisions(tasks, existing)[j] == !spec_run_set(tasks.take(j), existing).contains(
            tasks[j].dest_path,
        ),
    decreases tasks.len(),
{
    lemma_decisions_len(tasks.drop_last(), existing);
    if j == tasks.len() - 1 {
        assert(tasks.take(j) =~= tasks.drop_last());
    } else {
        lemma_copy_iff_fresh(tasks.drop_last(), existing, j);
        assert(tasks.drop_last().take(j) =~= tasks.take(j));
    }
}

/// Idempotence: running the same tasks a second time, starting from
/// the destination paths the first run left behind, copies nothing and
/// leaves the set of destination paths unchanged.
pub proof fn lemma_idempotent(tasks: Seq<TaskView>, existing: Set<PathView>)
    ensures
        spec_run_set(tasks, spec_run_set(tasks, existing)) == spec_run_set(tasks, existing),
        forall|j: int|
            0 <= j < tasks.len() ==> #[trigger] spec_decisions(
                tasks,
                spec_run_set(tasks, existing),
            )[j] == false,
{
    let after = spec_run_set(tasks, existing);
    assert forall|i: int| 0 <= i < tasks.len() implies after.contains(
        #[trigger] tasks[i].dest_path,
    ) by {
        lemma_run_set_contains_dests(tasks, existing, i);
    }
    lemma_run_set_noop(tasks, after);
    assert forall|j: int| 0 <= j < tasks.len() implies #[trigger] spec_decisions(
        tasks,
        after,
    )[j] == false by {
        lemma_skip_if_present(tasks, after, j);
    }
}

/// When two tasks share a destination path, only the earlier one can
/// be copied: the later one is skipped as already existing.
pub proof fn lemma_first_wins(tasks: Seq<TaskView>, existing: Set<PathView>, i: int, j: int)
    requires
        0 <= i < j < tasks.len(),
        tasks[i].dest_path == tasks[j].dest_path,
    ensures
        spec_decisions(tasks, existing)[j] == false,
    decreases tasks.len(),
{
    lemma_decisions_len(tasks.drop_last(), existing);
    if j == tasks.len() - 1 {
        lemma_run_set_contains_dests(tasks.drop_last(), existing, i);
    } else {
        lemma_first_wins(tasks.drop_last(), existing, i, j);
    }
}

/// The set of destination paths that already exist, as plain values.
pub struct ExistingPaths {
    paths: Vec<Vec<String>>,
}

impl View for ExistingPaths {
    type V = Set<PathView>;

    closed spec fn view(&self) -> Set<PathView> {
        self.paths.deep_view().to_set()
    }
}

impl ExistingPaths {
    /// An empty set of existing paths.
    pub fn new() -> (r: ExistingPaths)
        ensures
            r@ == Set::<PathView>::empty(),
    {
        let r = ExistingPaths { paths: Vec::new() };
        proof {
            assert(r@ =~= Set::<PathView>::empty());
        }
        r
    }

    /// Whether `p` is recorded as existing.
    pub fn contains(&self, p: &Vec<String>) -> (r: bool)
        ensures
            r == self@.contains(p.deep_view()),
    {
        let mut i: usize = 0;
        while i < self.paths.len()
            invariant
                i <= self.paths@.len(),
                forall|m: int|
                    0 <= m < i ==> self.paths.deep_view()[m] != p.deep_view(),
            decreases self.paths@.len() - i,
        {
            if path_eq(&self.paths[i], p) {
                proof {
                    assert(self.paths.deep_view()[i as int] == p.deep_view());
                    assert(self.paths.deep_view().contains(p.deep_view()));
                }
                return true;
            }
            i = i + 1;
        }
        proof {
            assert(!self.paths.deep_view().contains(p.deep_view()));
        }
        false
    }

    /// Records `p` as existing.
    pub fn insert(&mut self, p: Vec<String>)
        ensures
            final(self)@ == old(self)@.insert(p.deep_view()),
    {
        proof {
            assert(old(self).paths.deep_view() == self.paths.deep_view());
        }
        let ghost s0 = self.paths.deep_view();
        self.paths.push(p);
        proof {
            let s1 = self.paths.deep_view();
            let a = s1[s0.len() as int];
            assert(s1 =~= s0.push(a));
            assert forall|x: PathView| s1.contains(x) implies (s0.contains(x) || x == a) by {
                let i = choose|i: int| 0 <= i < s1.len() && s1[i] == x;
                if i < s0.len() {
                    assert(s0[i] == x);
                }
            }
            assert forall|x: PathView| s0.contains(x) implies s1.contains(x) by {
                let i = choose|i: int| 0 <= i < s0.len() && s0[i] == x;
                assert(s1[i] == x);
            }
            assert(s1.contains(a));
            assert(self@ =~= old(self)@.insert(a));
        }
    }
}

/// Runs the tasks in order against the recorded destination paths:
/// each task is copied when its destination is absent (and the
/// destination is recorded), skipped when it is present.  Returns one
/// decision per task, `true` for copy, `false` for skip.
pub fn decide_copies(tasks: &Vec<Task>, existing: &mut ExistingPaths) -> (r: Vec<bool>)
    ensures
        r@ == spec_decisions(task_views(tasks@), old(existing)@),
        final(existing)@ == spec_run_set(task_views(tasks@), old(existing)@),
        r@.len() == tasks@.len(),
{
    let ghost tv = task_views(tasks@);
    let ghost ex0 = existing@;
    let mut r: Vec<bool> = Vec::new();
    let mut i: usize = 0;
    while i < tasks.len()
        invariant
            i <= tasks@.len(),
            tv == task_views(tasks@),
            r@ == spec_decisions(tv.take(i as int), ex0),
            r@.len() == i,
            existing@ == spec_run_set(tv.take(i as int), ex0),
        decreases tasks@.len() - i,
    {
        proof {
            assert(tv.take(i + 1).drop_last() =~= tv.take(i as int));
            assert(tv.take(i + 1).last() == tasks@[i as int]@);
        }
        let t = &tasks[i];
        if existing.contains(&t.dest_path) {
            r.push(false);
        } else {
            let d = copy_path(&t.dest_path);
            existing.insert(d);
            r.push(true);
        }
        i = i + 1;
    }
    proof {
        assert(tv.take(tasks@.len() as int) =~= tv);
    }
    r
}

/// The whole pipeline on discovered entries: select the regular files
/// with the configured extension, plan one task per file, and decide
/// each task against the recorded destination paths.  Returns one
/// decision per selected file, in traversal order.
pub fn run_pipeline(cfg: &Config, entries: &Vec<Entry>, existing: &mut ExistingPaths) -> (r: Vec<
    bool,
>)
    requires
        forall|i: int|
            0 <= i < entries@.len() ==> (spec_entry_matches(
                #[trigger] entry_views(entries@)[i],
                cfg@.extension,
            ) ==> spec_planable(cfg@, entry_views(entries@)[i].path)),
    ensures
        r@ == spec_decisions(
            spec_plan_tasks(cfg@, spec_select(entry_views(entries@), cfg@.extension)),
            old(existing)@,
        ),
        final(existing)@ == spec_run_set(
            spec_plan_tasks(cfg@, spec_select(entry_views(entries@), cfg@.extension)),
            old(existing)@,
        ),
{
    let files = select_files(cfg, entries);
    proof {
        lemma_select_planable(cfg@, entry_views(entries@));
    }
    let tasks = plan_tasks(cfg, &files);
    decide_copies(&tasks, existing)
}

} // verus!
