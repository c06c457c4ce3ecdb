//! Dispatching the tasks of a graph once their prerequisites have succeeded.

use vstd::prelude::*;
use vstd::set_lib::{lemma_int_range, lemma_len_subset, set_int_range};
use crate::graph::{law_dependency_indexes_agree, lemma_index_of_distinct, position_of, GraphSpec, TaskGraph};
use std::collections::VecDeque;

verus! {

/// Where a task stands in a run of its job.
#[derive(PartialEq, Eq, Structural, Clone, Copy, Debug)]
pub enum TaskStatus {
    Pending,
    Ready,
    Running,
    Succeeded,
    Failed,
}

/// The mathematical state of a scheduler: each task's status and number of
/// prerequisites not yet succeeded, the queue of ready tasks, and whether a
/// task has failed.
pub struct SchedulerView {
    pub executions: Map<Seq<char>, (TaskStatus, nat)>,
    pub ready: Seq<Seq<char>>,
    pub failed: bool,
}

impl SchedulerView {
    pub open spec fn has(self, id: Seq<char>) -> bool {
        self.executions.dom().contains(id)
    }

    pub open spec fn status(self, id: Seq<char>) -> TaskStatus {
        self.executions[id].0
    }

    pub open spec fn remaining(self, id: Seq<char>) -> nat {
        self.executions[id].1
    }

    pub open spec fn succeeded(self, id: Seq<char>) -> bool {
        self.has(id) && self.status(id) == TaskStatus::Succeeded
    }

    /// The prerequisites of `id` that have not succeeded yet.
    pub open spec fn outstanding(self, g: GraphSpec, id: Seq<char>) -> Set<Seq<char>> {
        g.dependencies_of(id).filter(|u: Seq<char>| !self.succeeded(u))
    }

    /// The state is the one that runs the graph `g`: it has an entry for each
    /// task, counts the prerequisites that have not succeeded, holds exactly
    /// the ready tasks in its queue, and has failed exactly when a task has.
    pub open spec fn tracks(self, g: GraphSpec) -> bool {
        &&& g.ids().no_duplicates()
        &&& forall|i: int| 0 <= i < g.tasks.len() ==> #[trigger] g.deps(i).finite()
        &&& self.executions.dom() == g.ids().to_set()
        &&& forall|x: Seq<char>| #[trigger] self.has(x) ==> self.remaining(x) == self.outstanding(g, x).len()
        &&& forall|x: Seq<char>| #[trigger] self.has(x) ==> (self.remaining(x) > 0 <==> self.status(x) == TaskStatus::Pending)
        &&& self.ready.no_duplicates()
        &&& forall|x: Seq<char>| #[trigger] self.ready.contains(x) <==> (self.has(x) && self.status(x) == TaskStatus::Ready)
        &&& self.failed <==> exists|x: Seq<char>| #[trigger] self.has(x) && self.status(x) == TaskStatus::Failed
    }

    /// No task moves backwards: finished tasks stay finished, running tasks
    /// only finish, ready tasks only start.
    pub open spec fn advances_to(self, next: SchedulerView) -> bool {
        &&& next.executions.dom() == self.executions.dom()
        &&& forall|x: Seq<char>| #[trigger] self.has(x) ==> match self.status(x) {
            TaskStatus::Pending => true,
            TaskStatus::Ready => next.status(x) == TaskStatus::Ready || next.status(x) == TaskStatus::Running,
            TaskStatus::Running => next.status(x) != TaskStatus::Pending && next.status(x) != TaskStatus::Ready,
            TaskStatus::Succeeded => next.status(x) == TaskStatus::Succeeded,
            TaskStatus::Failed => next.status(x) == TaskStatus::Failed,
        }
        &&& self.failed ==> next.failed
    }
}

/// The state of a fresh scheduler for `g`: tasks without prerequisites are
/// ready, in task order; the others wait for all of theirs.
pub open spec fn initial_state(g: GraphSpec) -> SchedulerView {
    SchedulerView {
        executions: Map::new(
            |x: Seq<char>| g.has_task(x),
            |x: Seq<char>|
                if g.dependencies_of(x).len() == 0 {
                    (TaskStatus::Ready, 0nat)
                } else {
                    (TaskStatus::Pending, g.dependencies_of(x).len())
                },
        ),
        ready: g.ids().filter(|x: Seq<char>| g.dependencies_of(x).len() == 0),
        failed: false,
    }
}

/// Dispatch: unless a task has failed, the first ready task starts running.
pub open spec fn next_step(s: SchedulerView) -> (SchedulerView, Option<Seq<char>>) {
    if s.failed || s.ready.len() == 0 {
        (s, None)
    } else {
        let id = s.ready[0];
        (
            SchedulerView {
                executions: s.executions.insert(id, (TaskStatus::Running, s.remaining(id))),
                ready: s.ready.drop_first(),
                failed: s.failed,
            },
            Some(id),
        )
    }
}

/// The running task `id` succeeded: each dependent counts one prerequisite
/// less and becomes ready, at the back of the queue, when none is left.
pub open spec fn release(s: SchedulerView, g: GraphSpec, id: Seq<char>) -> SchedulerView {
    let dependents = g.dependents_of(id);
    SchedulerView {
        executions: Map::new(
            |x: Seq<char>| s.has(x),
            |x: Seq<char>|
                if x == id {
                    (TaskStatus::Succeeded, s.remaining(x))
                } else if dependents.contains(x) {
                    if s.remaining(x) == 1 {
                        (TaskStatus::Ready, 0nat)
                    } else {
                        (s.status(x), (s.remaining(x) - 1) as nat)
                    }
                } else {
                    s.executions[x]
                },
        ),
        ready: s.ready + dependents.filter(|x: Seq<char>| s.remaining(x) == 1),
        failed: s.failed,
    }
}

/// A report that `id` succeeded: accepted for a running task, ignored for one
/// that already succeeded, refused otherwise.
pub open spec fn success_step(s: SchedulerView, g: GraphSpec, id: Seq<char>) -> (SchedulerView, Result<(), Seq<char>>) {
    if !s.has(id) {
        (s, Err("Task does not exist in executions"@))
    } else if s.status(id) == TaskStatus::Succeeded {
        (s, Ok(()))
    } else if s.status(id) == TaskStatus::Running {
        (release(s, g, id), Ok(()))
    } else {
        (s, Err("Task status invalid"@))
    }
}

/// A report that `id` failed: accepted for a running task, which stops all
/// further dispatch; ignored for one that already failed; refused otherwise.
pub open spec fn failure_step(s: SchedulerView, id: Seq<char>) -> (SchedulerView, Result<(), Seq<char>>) {
    if !s.has(id) {
        (s, Err("Invalid task_id, not present in executions"@))
    } else if s.status(id) == TaskStatus::Failed {
        (s, Ok(()))
    } else if s.status(id) == TaskStatus::Running {
        (
            SchedulerView {
                executions: s.executions.insert(id, (TaskStatus::Failed, s.remaining(id))),
                ready: s.ready,
                failed: true,
            },
            Ok(()),
        )
    } else {
        (s, Err("Invalid task executions"@))
    }
}


/// Filtering keeps the elements that pass, and nothing else.
proof fn lemma_filter_contains<A>(s: Seq<A>, pred: spec_fn(A) -> bool, x: A)
    ensures
        s.filter(pred).contains(x) <==> s.contains(x) && pred(x),
{
    if s.filter(pred).contains(x) {
        s.lemma_filter_contains_rev(pred, x);
        let k = choose|k: int| 0 <= k < s.filter(pred).len() && s.filter(pred)[k] == x;
        s.lemma_filter_pred(pred, k);
    }
    if s.contains(x) && pred(x) {
        let k = choose|k: int| 0 <= k < s.len() && s[k] == x;
        s.lemma_filter_contains(pred, k);
    }
}

/// Filtering a sequence without repetitions gives one without repetitions.
proof fn lemma_filter_distinct<A>(s: Seq<A>, pred: spec_fn(A) -> bool)
    requires
        s.no_duplicates(),
    ensures
        s.filter(pred).no_duplicates(),
    decreases s.len(),
{
    reveal(Seq::filter);
    if s.len() > 0 {
        let rest = s.drop_last();
        assert(rest.no_duplicates());
        lemma_filter_distinct(rest, pred);
        if pred(s.last()) {
            lemma_filter_contains(rest, pred, s.last());
            if rest.contains(s.last()) {
                let k = choose|k: int| 0 <= k < rest.len() && rest[k] == s.last();
                assert(s[k] == s[s.len() - 1]);
            }
        }
    }
}

/// The prerequisites of a task of a tracked graph form a finite set.
proof fn lemma_dependencies_finite(g: GraphSpec, x: Seq<char>)
    requires
        g.has_task(x),
        forall|i: int| 0 <= i < g.tasks.len() ==> #[trigger] g.deps(i).finite(),
    ensures
        g.dependencies_of(x).finite(),
{
    let i = g.ids().index_of(x);
    assert(0 <= i < g.ids().len() && g.ids()[i] == x);
    assert(g.deps(i).finite());
}

/// A task that is not pending has no outstanding prerequisite: each of them
/// is a task that has succeeded.
proof fn lemma_started_tasks_have_prerequisites(s: SchedulerView, g: GraphSpec, x: Seq<char>)
    requires
        s.tracks(g),
        s.has(x),
        s.status(x) != TaskStatus::Pending,
    ensures
        forall|u: Seq<char>| #[trigger] g.dependencies_of(x).contains(u) ==> s.succeeded(u),
{
    assert(g.ids().to_set().contains(x));
    lemma_dependencies_finite(g, x);
    let rest = s.outstanding(g, x);
    g.dependencies_of(x).lemma_len_filter(|u: Seq<char>| !s.succeeded(u));
    assert forall|u: Seq<char>| #[trigger] g.dependencies_of(x).contains(u) implies s.succeeded(u) by {
        if !s.succeeded(u) {
            assert(rest.contains(u));
            assert(rest.remove(u).len() + 1 == rest.len());
        }
    }
}

/// A fresh scheduler tracks its graph.
proof fn lemma_initial_tracks(g: GraphSpec)
    requires
        g.ids().no_duplicates(),
        forall|i: int| 0 <= i < g.tasks.len() ==> #[trigger] g.deps(i).finite(),
    ensures
        initial_state(g).tracks(g),
{
    let s = initial_state(g);
    let pred = |x: Seq<char>| g.dependencies_of(x).len() == 0;
    assert(s.executions.dom() =~= g.ids().to_set());
    assert forall|x: Seq<char>| #[trigger] s.has(x) implies s.remaining(x) == s.outstanding(g, x).len() by {
        assert(s.outstanding(g, x) =~= g.dependencies_of(x));
    }
    lemma_filter_distinct(g.ids(), pred);
    assert forall|x: Seq<char>| #[trigger] s.ready.contains(x) <==> (s.has(x) && s.status(x) == TaskStatus::Ready) by {
        lemma_filter_contains(g.ids(), pred, x);
    }
}

/// Dispatch keeps the state tracking its graph.
proof fn lemma_next_step_tracks(s: SchedulerView, g: GraphSpec)
    requires
        s.tracks(g),
    ensures
        next_step(s).0.tracks(g),
{
    if !(s.failed || s.ready.len() == 0) {
        let id = s.ready[0];
        let t = next_step(s).0;
        assert(s.ready.contains(id));
        assert(t.executions.dom() =~= s.executions.dom());
        assert forall|u: Seq<char>| t.succeeded(u) == s.succeeded(u) by {}
        assert forall|x: Seq<char>| #[trigger] t.has(x) implies t.remaining(x) == t.outstanding(g, x).len() by {
            assert(s.has(x));
            assert(t.outstanding(g, x) =~= s.outstanding(g, x));
        }
        assert forall|x: Seq<char>| #[trigger] t.ready.contains(x) <==> (t.has(x) && t.status(x) == TaskStatus::Ready) by {
            if t.ready.contains(x) {
                let k = choose|k: int| 0 <= k < t.ready.len() && t.ready[k] == x;
                assert(s.ready[k + 1] == x);
                assert(x != id);
            }
            if x != id && s.ready.contains(x) {
                let k = choose|k: int| 0 <= k < s.ready.len() && s.ready[k] == x;
                assert(k != 0);
                assert(t.ready[k - 1] == x);
            }
        }
        assert forall|x: Seq<char>| #[trigger] t.has(x) implies (t.remaining(x) > 0 <==> t.status(x) == TaskStatus::Pending) by {
            assert(s.has(x));
        }
        if t.failed {
            let x = choose|x: Seq<char>| #[trigger] s.has(x) && s.status(x) == TaskStatus::Failed;
            assert(t.has(x) && t.status(x) == TaskStatus::Failed);
        }
        if exists|x: Seq<char>| #[trigger] t.has(x) && t.status(x) == TaskStatus::Failed {
            let x = choose|x: Seq<char>| #[trigger] t.has(x) && t.status(x) == TaskStatus::Failed;
            assert(s.has(x) && s.status(x) == TaskStatus::Failed);
        }
        assert forall|a: int, b: int| 0 <= a < b < t.ready.len() implies t.ready[a] != t.ready[b] by {
            assert(t.ready[a] == s.ready[a + 1] && t.ready[b] == s.ready[b + 1]);
        }
    }
}

/// Accepting a success report keeps the state tracking its graph.
proof fn lemma_success_step_tracks(s: SchedulerView, g: GraphSpec, id: Seq<char>)
    requires
        s.tracks(g),
    ensures
        success_step(s, g, id).0.tracks(g),
{
    if s.has(id) && s.status(id) == TaskStatus::Running {
        let t = release(s, g, id);
        let dependents = g.dependents_of(id);
        let pred = |x: Seq<char>| s.remaining(x) == 1;
        law_dependency_indexes_agree(g, id, id);
        assert(!dependents.contains(id)) by {
            if dependents.contains(id) {
                lemma_started_tasks_have_prerequisites(s, g, id);
                assert(g.dependencies_of(id).contains(id));
            }
        }
        assert(t.executions.dom() =~= s.executions.dom());
        assert forall|u: Seq<char>| t.succeeded(u) == (s.succeeded(u) || u == id) by {
            if dependents.contains(u) {
                law_dependency_indexes_agree(g, id, u);
                assert(g.ids().to_set().contains(u));
            }
        }
        assert forall|x: Seq<char>| #[trigger] t.has(x) implies t.remaining(x) == t.outstanding(g, x).len()
            && (t.remaining(x) > 0 <==> t.status(x) == TaskStatus::Pending) by {
            assert(g.ids().to_set().contains(x));
            lemma_dependencies_finite(g, x);
            law_dependency_indexes_agree(g, id, x);
            g.dependencies_of(x).lemma_len_filter(|u: Seq<char>| !s.succeeded(u));
            if x == id {
                lemma_started_tasks_have_prerequisites(s, g, id);
                assert(t.outstanding(g, x) =~= s.outstanding(g, x));
            } else if dependents.contains(x) {
                assert(t.outstanding(g, x) =~= s.outstanding(g, x).remove(id));
                assert(s.outstanding(g, x).contains(id));
            } else {
                assert(t.outstanding(g, x) =~= s.outstanding(g, x));
            }
        }
        let released = dependents.filter(pred);
        law_dependency_indexes_agree(g, id, id);
        lemma_filter_distinct(dependents, pred);
        assert forall|x: Seq<char>| #[trigger] released.contains(x) implies !s.ready.contains(x) && t.has(x)
            && t.status(x) == TaskStatus::Ready by {
            lemma_filter_contains(dependents, pred, x);
            law_dependency_indexes_agree(g, id, x);
            assert(g.ids().to_set().contains(x));
        }
        assert forall|x: Seq<char>| #[trigger] s.ready.contains(x) implies !dependents.contains(x) && x != id by {
            if dependents.contains(x) {
                law_dependency_indexes_agree(g, id, x);
                assert(s.outstanding(g, x).contains(id));
                lemma_dependencies_finite(g, x);
                g.dependencies_of(x).lemma_len_filter(|u: Seq<char>| !s.succeeded(u));
                assert(s.outstanding(g, x).remove(id).len() + 1 == s.outstanding(g, x).len());
            }
        }
        assert(t.ready.no_duplicates()) by {
            assert forall|a: int, b: int| 0 <= a < b < t.ready.len() implies t.ready[a] != t.ready[b] by {
                if b < s.ready.len() {
                } else if a < s.ready.len() {
                    assert(released.contains(t.ready[b]));
                    assert(s.ready.contains(t.ready[a]));
                } else {
                    assert(t.ready[a] == released[a - s.ready.len()]);
                    assert(t.ready[b] == released[b - s.ready.len()]);
                }
            }
        }
        assert forall|x: Seq<char>| #[trigger] t.ready.contains(x) <==> (t.has(x) && t.status(x) == TaskStatus::Ready) by {
            if t.ready.contains(x) {
                let k = choose|k: int| 0 <= k < t.ready.len() && t.ready[k] == x;
                if k < s.ready.len() {
                    assert(s.ready.contains(x));
                } else {
                    assert(released[k - s.ready.len()] == x);
                    assert(released.contains(x));
                }
            }
            if t.has(x) && t.status(x) == TaskStatus::Ready {
                if dependents.contains(x) {
                    law_dependency_indexes_agree(g, id, x);
                    assert(g.ids().to_set().contains(x));
                    assert(s.has(x));
                    assert(s.outstanding(g, x).contains(id));
                    lemma_dependencies_finite(g, x);
                    g.dependencies_of(x).lemma_len_filter(|u: Seq<char>| !s.succeeded(u));
                    assert(s.outstanding(g, x).remove(id).len() + 1 == s.outstanding(g, x).len());
                    assert(s.status(x) == TaskStatus::Pending);
                    assert(pred(x));
                    lemma_filter_contains(dependents, pred, x);
                    let k = choose|k: int| 0 <= k < released.len() && released[k] == x;
                    assert(t.ready[s.ready.len() + k] == x);
                } else {
                    assert(s.ready.contains(x));
                    let k = choose|k: int| 0 <= k < s.ready.len() && s.ready[k] == x;
                    assert(t.ready[k] == x);
                }
            }
        }
        assert(t.failed <==> exists|x: Seq<char>| #[trigger] t.has(x) && t.status(x) == TaskStatus::Failed) by {
            if t.failed {
                let x = choose|x: Seq<char>| #[trigger] s.has(x) && s.status(x) == TaskStatus::Failed;
                if dependents.contains(x) {
                    law_dependency_indexes_agree(g, id, x);
                    assert(s.outstanding(g, x).contains(id));
                    lemma_dependencies_finite(g, x);
                    g.dependencies_of(x).lemma_len_filter(|u: Seq<char>| !s.succeeded(u));
                    assert(s.outstanding(g, x).remove(id).len() + 1 == s.outstanding(g, x).len());
                }
                assert(t.has(x) && t.status(x) == TaskStatus::Failed);
            }
            if exists|x: Seq<char>| #[trigger] t.has(x) && t.status(x) == TaskStatus::Failed {
                let x = choose|x: Seq<char>| #[trigger] t.has(x) && t.status(x) == TaskStatus::Failed;
                assert(s.has(x) && s.status(x) == TaskStatus::Failed);
            }
        }
    }
}

/// Accepting a failure report keeps the state tracking its graph.
proof fn lemma_failure_step_tracks(s: SchedulerView, g: GraphSpec, id: Seq<char>)
    requires
        s.tracks(g),
    ensures
        failure_step(s, id).0.tracks(g),
{
    if s.has(id) && s.status(id) == TaskStatus::Running {
        let t = failure_step(s, id).0;
        assert(t.executions.dom() =~= s.executions.dom());
        assert forall|u: Seq<char>| t.succeeded(u) == s.succeeded(u) by {}
        assert forall|x: Seq<char>| #[trigger] t.has(x) implies t.remaining(x) == t.outstanding(g, x).len() by {
            assert(s.has(x));
            assert(t.outstanding(g, x) =~= s.outstanding(g, x));
        }
        assert(t.has(id) && t.status(id) == TaskStatus::Failed);
        assert forall|x: Seq<char>| #[trigger] t.has(x) implies (t.remaining(x) > 0 <==> t.status(x) == TaskStatus::Pending) by {
            assert(s.has(x));
        }
        assert forall|x: Seq<char>| #[trigger] t.ready.contains(x) <==> (t.has(x) && t.status(x) == TaskStatus::Ready) by {
            assert(s.ready.contains(x) <==> (s.has(x) && s.status(x) == TaskStatus::Ready));
        }
    }
}


/// The dependents of a running task are all pending.
proof fn law_dependency_indexes_agree_running_are_pending(s: SchedulerView, g: GraphSpec, id: Seq<char>, x: Seq<char>)
    requires
        s.tracks(g),
        s.has(id),
        s.status(id) == TaskStatus::Running,
        g.dependents_of(id).contains(x),
    ensures
        s.has(x),
        s.status(x) == TaskStatus::Pending,
        s.remaining(x) >= 1,
{
    law_dependency_indexes_agree(g, id, x);
    assert(g.ids().to_set().contains(x));
    assert(s.outstanding(g, x).contains(id));
    lemma_dependencies_finite(g, x);
    g.dependencies_of(x).lemma_len_filter(|u: Seq<char>| !s.succeeded(u));
    assert(s.outstanding(g, x).remove(id).len() + 1 == s.outstanding(g, x).len());
    assert(s.has(x));
    assert(s.remaining(x) == s.outstanding(g, x).len());
}

/// Law: a fresh scheduler tracks its graph.
pub proof fn law_fresh_scheduler_tracks(g: GraphSpec)
    requires
        g.ids().no_duplicates(),
        forall|i: int| 0 <= i < g.tasks.len() ==> #[trigger] g.deps(i).finite(),
    ensures
        initial_state(g).tracks(g),
{
    lemma_initial_tracks(g);
}

/// Law: dispatching, a success report and a failure report each keep a state
/// tracking its graph.
pub proof fn law_scheduling_keeps_tracking(s: SchedulerView, g: GraphSpec, id: Seq<char>)
    requires
        s.tracks(g),
    ensures
        next_step(s).0.tracks(g),
        success_step(s, g, id).0.tracks(g),
        failure_step(s, id).0.tracks(g),
{
    lemma_next_step_tracks(s, g);
    lemma_success_step_tracks(s, g, id);
    lemma_failure_step_tracks(s, g, id);
}

/// Law: no operation moves a task backwards. Pending tasks only become
/// ready, ready ones only start, running ones only finish, and a finished
/// task (succeeded or failed) keeps its status; a recorded failure stays.
pub proof fn law_statuses_only_advance(s: SchedulerView, g: GraphSpec, id: Seq<char>)
    requires
        s.tracks(g),
    ensures
        s.advances_to(next_step(s).0),
        s.advances_to(success_step(s, g, id).0),
        s.advances_to(failure_step(s, id).0),
{
    if !(s.failed || s.ready.len() == 0) {
        assert(s.ready.contains(s.ready[0]));
        assert(next_step(s).0.executions.dom() =~= s.executions.dom());
    }
    if s.has(id) && s.status(id) == TaskStatus::Running {
        let t = release(s, g, id);
        assert(t.executions.dom() =~= s.executions.dom());
        assert forall|x: Seq<char>| #[trigger] s.has(x) implies match s.status(x) {
            TaskStatus::Pending => true,
            TaskStatus::Ready => t.status(x) == TaskStatus::Ready || t.status(x) == TaskStatus::Running,
            TaskStatus::Running => t.status(x) != TaskStatus::Pending && t.status(x) != TaskStatus::Ready,
            TaskStatus::Succeeded => t.status(x) == TaskStatus::Succeeded,
            TaskStatus::Failed => t.status(x) == TaskStatus::Failed,
        } by {
            if g.dependents_of(id).contains(x) {
                law_dependency_indexes_agree_running_are_pending(s, g, id, x);
            }
        }
        assert(failure_step(s, id).0.executions.dom() =~= s.executions.dom());
    }
}

/// Law: a task leaves the pending state only once every one of its
/// prerequisites is a task that has succeeded. In particular dispatch hands
/// out only ready tasks whose prerequisites have all succeeded, and marks
/// them running.
pub proof fn law_prerequisites_succeed_first(s: SchedulerView, g: GraphSpec, x: Seq<char>)
    requires
        s.tracks(g),
    ensures
        s.has(x) && s.status(x) != TaskStatus::Pending ==> forall|u: Seq<char>|
            #[trigger] g.dependencies_of(x).contains(u) ==> s.succeeded(u),
        next_step(s).1 == Some(x) ==> {
            &&& s.has(x)
            &&& s.status(x) == TaskStatus::Ready
            &&& next_step(s).0.status(x) == TaskStatus::Running
            &&& forall|u: Seq<char>| #[trigger] g.dependencies_of(x).contains(u) ==> s.succeeded(u)
        },
{
    if s.has(x) && s.status(x) != TaskStatus::Pending {
        lemma_started_tasks_have_prerequisites(s, g, x);
    }
    if next_step(s).1 == Some(x) {
        assert(s.ready.contains(s.ready[0]));
        lemma_started_tasks_have_prerequisites(s, g, x);
    }
}

/// Law: a refused report changes nothing, and repeating an accepted report
/// changes nothing more.
pub proof fn law_reports_are_idempotent(s: SchedulerView, g: GraphSpec, id: Seq<char>)
    requires
        s.tracks(g),
    ensures
        success_step(s, g, id).1 is Err ==> success_step(s, g, id).0 == s,
        success_step(s, g, id).1 is Ok ==> success_step(success_step(s, g, id).0, g, id) == (
            success_step(s, g, id).0,
            Ok::<(), Seq<char>>(()),
        ),
        failure_step(s, id).1 is Err ==> failure_step(s, id).0 == s,
        failure_step(s, id).1 is Ok ==> failure_step(failure_step(s, id).0, id) == (
            failure_step(s, id).0,
            Ok::<(), Seq<char>>(()),
        ),
{
}

/// Law: once a task has failed, nothing more is dispatched and the failure
/// stays recorded, whatever is reported afterwards.
pub proof fn law_failure_stops_dispatch(s: SchedulerView, g: GraphSpec, id: Seq<char>)
    requires
        s.failed,
    ensures
        next_step(s) == (s, None::<Seq<char>>),
        success_step(s, g, id).0.failed,
        failure_step(s, id).0.failed,
{
}

/// Law: dispatch is live. Unless a task has failed, a non-empty ready queue
/// hands out its front task, which starts running and leaves the queue; the
/// other tasks keep their state. With a failure recorded or nothing ready,
/// nothing is handed out and nothing changes.
pub proof fn law_dispatch_takes_the_front_task(s: SchedulerView, x: Seq<char>)
    ensures
        !s.failed && s.ready.len() > 0 ==> {
            &&& next_step(s).1 == Some(s.ready[0])
            &&& next_step(s).0.has(s.ready[0])
            &&& next_step(s).0.status(s.ready[0]) == TaskStatus::Running
            &&& next_step(s).0.remaining(s.ready[0]) == s.remaining(s.ready[0])
            &&& next_step(s).0.ready == s.ready.drop_first()
            &&& !next_step(s).0.failed
            &&& (s.has(x) && x != s.ready[0] ==> next_step(s).0.has(x)
                && next_step(s).0.executions[x] == s.executions[x])
        },
        s.failed || s.ready.len() == 0 ==> next_step(s).1 is None && next_step(s).0 == s,
{
    if !s.failed && s.ready.len() > 0 {
        let t = next_step(s).0;
        assert(t.executions.dom().contains(s.ready[0]));
    }
}

/// Law: an accepted success report for a running task marks it succeeded and
/// releases its dependents. Each of them counts one unfinished prerequisite
/// less, and one with none left is ready and queued. Tasks that do not depend
/// on it keep their state, queued tasks stay queued, and whether the job has
/// failed does not change.
pub proof fn law_success_releases_dependents(s: SchedulerView, g: GraphSpec, id: Seq<char>, x: Seq<char>)
    requires
        s.tracks(g),
        s.has(id),
        s.status(id) == TaskStatus::Running,
    ensures
        success_step(s, g, id).1 == Ok::<(), Seq<char>>(()),
        success_step(s, g, id).0.has(id),
        success_step(s, g, id).0.status(id) == TaskStatus::Succeeded,
        success_step(s, g, id).0.failed == s.failed,
        s.ready.contains(x) ==> success_step(s, g, id).0.ready.contains(x),
        s.has(x) && g.dependencies_of(x).contains(id) ==> {
            &&& x != id
            &&& s.status(x) == TaskStatus::Pending
            &&& success_step(s, g, id).0.has(x)
            &&& success_step(s, g, id).0.remaining(x) + 1 == s.remaining(x)
            &&& (success_step(s, g, id).0.remaining(x) == 0 ==> success_step(s, g, id).0.status(x)
                == TaskStatus::Ready && success_step(s, g, id).0.ready.contains(x))
            &&& (success_step(s, g, id).0.remaining(x) > 0 ==> success_step(s, g, id).0.status(x)
                == TaskStatus::Pending)
        },
        s.has(x) && x != id && !g.dependencies_of(x).contains(id) ==> success_step(s, g, id).0.has(x)
            && success_step(s, g, id).0.executions[x] == s.executions[x],
{
    let t = release(s, g, id);
    let dependents = g.dependents_of(id);
    let pred = |y: Seq<char>| s.remaining(y) == 1;
    assert(t.executions.dom().contains(id));
    if s.ready.contains(x) {
        let k = choose|k: int| 0 <= k < s.ready.len() && s.ready[k] == x;
        assert(t.ready[k] == x);
    }
    if s.has(x) {
        assert(g.ids().to_set().contains(x));
        assert(t.executions.dom().contains(x));
        law_dependency_indexes_agree(g, id, x);
        if g.dependencies_of(x).contains(id) {
            if x == id {
                lemma_started_tasks_have_prerequisites(s, g, id);
            }
            assert(dependents.contains(x));
            lemma_dependencies_finite(g, x);
            let rest = s.outstanding(g, x);
            assert(rest.contains(id));
            g.dependencies_of(x).lemma_len_filter(|u: Seq<char>| !s.succeeded(u));
            vstd::set_lib::lemma_set_empty_equivalency_len(rest);
            assert(s.remaining(x) > 0);
            if s.remaining(x) == 1 {
                lemma_filter_contains(dependents, pred, x);
                let k = choose|k: int| 0 <= k < dependents.filter(pred).len() && dependents.filter(pred)[k] == x;
                assert(t.ready[s.ready.len() + k] == x);
            }
        }
    }
}

/// Law: an accepted failure report for a running task records the failure,
/// and from then on nothing is dispatched. The other tasks and the ready
/// queue are untouched.
pub proof fn law_failure_is_recorded(s: SchedulerView, id: Seq<char>, x: Seq<char>)
    requires
        s.has(id),
        s.status(id) == TaskStatus::Running,
    ensures
        failure_step(s, id).1 == Ok::<(), Seq<char>>(()),
        failure_step(s, id).0.has(id),
        failure_step(s, id).0.status(id) == TaskStatus::Failed,
        failure_step(s, id).0.failed,
        failure_step(s, id).0.ready == s.ready,
        next_step(failure_step(s, id).0).1 is None,
        s.has(x) && x != id ==> failure_step(s, id).0.has(x)
            && failure_step(s, id).0.executions[x] == s.executions[x],
{
    assert(failure_step(s, id).0.executions.dom().contains(id));
}

/// Law: a job whose graph has a topological order never gets stuck. When no
/// task has failed and none is ready or running, every task has succeeded;
/// and then nothing is left to dispatch.
pub proof fn law_acyclic_jobs_make_progress(s: SchedulerView, g: GraphSpec)
    requires
        s.tracks(g),
        g.has_topological_order(),
        !s.failed,
        forall|x: Seq<char>| #[trigger] s.has(x) ==> s.status(x) != TaskStatus::Ready && s.status(x) != TaskStatus::Running,
    ensures
        forall|x: Seq<char>| #[trigger] s.has(x) ==> s.status(x) == TaskStatus::Succeeded,
        next_step(s).1 is None,
{
    let order = choose|order: Seq<int>| g.is_topological_order(order);
    let n = g.tasks.len();
    assert forall|x: Seq<char>| #[trigger] s.has(x) implies s.status(x) == TaskStatus::Succeeded by {
        assert(g.ids().to_set().contains(x));
        let i = choose|i: int| 0 <= i < g.ids().len() && g.ids()[i] == x;
        if !order.contains(i) {
            assert(order.to_set().subset_of(set_int_range(0, n as int).remove(i))) by {
                assert forall|y: int| order.to_set().contains(y) implies set_int_range(0, n as int).remove(i).contains(y) by {
                    let p = choose|p: int| 0 <= p < order.len() && order[p] == y;
                }
            }
            lemma_int_range(0, n as int);
            lemma_len_subset(order.to_set(), set_int_range(0, n as int).remove(i));
            order.unique_seq_to_set();
        }
        let p = choose|p: int| 0 <= p < order.len() && order[p] == i;
        lemma_earlier_tasks_succeeded(s, g, order, p);
    }
    if !(s.failed || s.ready.len() == 0) {
        assert(s.ready.contains(s.ready[0]));
    }
}

/// In a stuck state, the tasks up to position `p` of a topological order have succeeded.
proof fn lemma_earlier_tasks_succeeded(s: SchedulerView, g: GraphSpec, order: Seq<int>, p: int)
    requires
        s.tracks(g),
        g.is_topological_order(order),
        !s.failed,
        forall|x: Seq<char>| #[trigger] s.has(x) ==> s.status(x) != TaskStatus::Ready && s.status(x) != TaskStatus::Running,
        0 <= p < order.len(),
    ensures
        s.succeeded(g.ids()[order[p]]),
    decreases p,
{
    let i = order[p];
    let x = g.ids()[i];
    assert(g.ids().to_set().contains(x));
    assert(s.has(x));
    if !s.succeeded(x) {
        if s.status(x) == TaskStatus::Failed {
            assert(s.has(x) && s.status(x) == TaskStatus::Failed);
        }
        assert(s.status(x) == TaskStatus::Pending);
        lemma_dependencies_finite(g, x);
        let rest = s.outstanding(g, x);
        g.dependencies_of(x).lemma_len_filter(|u: Seq<char>| !s.succeeded(u));
        if rest =~= Set::empty() {
            assert(rest.len() == 0);
        }
        let u = choose|u: Seq<char>| rest.contains(u);
        lemma_index_of_distinct(g.ids(), i);
        assert(g.deps(order[p]).contains(u));
        let q = choose|q: int| 0 <= q < p && #[trigger] g.ids()[order[q]] == u;
        lemma_earlier_tasks_succeeded(s, g, order, q);
    }
}


/// The name carried by an optional task identifier.
pub open spec fn name_of(task: Option<String>) -> Option<Seq<char>> {
    match task {
        Some(t) => Some(t@),
        None => None,
    }
}

/// The outcome of a report, with the error message as text.
pub open spec fn outcome_of(result: Result<(), String>) -> Result<(), Seq<char>> {
    match result {
        Ok(()) => Ok(()),
        Err(message) => Err(message@),
    }
}

#[derive(Clone, Copy)]
struct TaskExecution {
    status: TaskStatus,
    remaining_dependencies: usize,
}

/// Runs the tasks of one graph: tracks each task's status and unmet
/// prerequisites, and hands out ready tasks until one fails.
pub struct Scheduler {
    task_ids: Vec<String>,
    executions: Vec<TaskExecution>,
    ready: VecDeque<String>,
    failed: bool,
    graph: Ghost<GraphSpec>,
}

impl View for Scheduler {
    type V = SchedulerView;

    closed spec fn view(&self) -> SchedulerView {
        SchedulerView {
            executions: Map::new(
                |x: Seq<char>| self.task_ids.deep_view().contains(x),
                |x: Seq<char>|
                    {
                        let k = self.task_ids.deep_view().index_of(x);
                        (self.executions@[k].status, self.executions@[k].remaining_dependencies as nat)
                    },
            ),
            ready: self.ready@.map_values(|t: String| t@),
            failed: self.failed,
        }
    }
}

impl Scheduler {
    /// The graph whose tasks this scheduler runs.
    pub closed spec fn source(&self) -> GraphSpec {
        self.graph@
    }

    /// The scheduler's bookkeeping is that of a run of its graph.
    pub closed spec fn wf(&self) -> bool {
        &&& self.task_ids.deep_view() == self.graph@.ids()
        &&& self.executions@.len() == self.task_ids@.len()
        &&& self@.tracks(self.graph@)
    }

    /// A well-formed scheduler's state tracks the graph it runs, so every law
    /// stated of a `SchedulerView` that tracks its graph applies to it.
    pub proof fn lemma_tracks_source(&self)
        requires
            self.wf(),
        ensures
            self@.tracks(self.source()),
            self.source().ids().no_duplicates(),
    {
    }

    /// Starts a run of `graph`: tasks without prerequisites are ready, in task
    /// order, and the others wait.
    pub fn new(graph: &TaskGraph) -> (scheduler: Scheduler)
        ensures
            scheduler.wf(),
            scheduler.source() == graph@,
            scheduler@ == initial_state(graph@),
    {
        let ghost g = graph@;
        let tasks = graph.tasks();
        let n = tasks.len();
        let mut task_ids: Vec<String> = Vec::new();
        let mut executions: Vec<TaskExecution> = Vec::new();
        let mut ready: VecDeque<String> = VecDeque::new();
        let ghost pred = |x: Seq<char>| g.dependencies_of(x).len() == 0;
        for i in 0..n
            invariant
                n == g.tasks.len(),
                tasks@ == g.tasks,
                g == graph@,
                g.ids().no_duplicates(),
                task_ids.deep_view() == g.ids().take(i as int),
                executions@.len() == i,
                forall|k: int|
                    0 <= k < i ==> {
                        &&& (#[trigger] executions@[k]).remaining_dependencies == g.dependencies_of(g.ids()[k]).len()
                        &&& executions@[k].status == if executions@[k].remaining_dependencies == 0 {
                            TaskStatus::Ready
                        } else {
                            TaskStatus::Pending
                        }
                    },
                pred == (|x: Seq<char>| g.dependencies_of(x).len() == 0),
                ready@.map_values(|t: String| t@) == g.ids().take(i as int).filter(pred),
                forall|k: int| 0 <= k < i ==> #[trigger] g.dependencies_of(g.ids()[k]).finite(),
        {
            let id = tasks[i].id.clone();
            let count = match graph.dependencies(tasks[i].id.as_str()) {
                Some(prerequisites) => {
                    proof {
                        prerequisites.deep_view().unique_seq_to_set();
                    }
                    prerequisites.len()
                },
                None => {
                    assert(g.ids()[i as int] == tasks@[i as int].id@);
                    assert(false);
                    0
                },
            };
            let ghost ready_before = ready@.map_values(|t: String| t@);
            let status = if count == 0 {
                ready.push_back(id.clone());
                TaskStatus::Ready
            } else {
                TaskStatus::Pending
            };
            executions.push(TaskExecution { status, remaining_dependencies: count });
            let ghost ids_before = task_ids.deep_view();
            task_ids.push(id);
            proof {
                assert(g.ids()[i as int] == tasks@[i as int].id@);
                assert(g.ids().take(i + 1) =~= g.ids().take(i as int).push(g.ids()[i as int]));
                assert(task_ids.deep_view() =~= ids_before.push(g.ids()[i as int]));
                g.ids().take(i as int).lemma_filter_push(g.ids()[i as int], pred);
                assert(count == g.dependencies_of(g.ids()[i as int]).len());
                assert(pred(g.ids()[i as int]) == (count == 0));
                if count == 0 {
                    assert(ready@.map_values(|t: String| t@) =~= ready_before.push(g.ids()[i as int]));
                }
                lemma_prerequisites_finite(g, i as int);
            }
        }
        assert(g.ids().take(n as int) =~= g.ids());
        let scheduler = Scheduler { task_ids, executions, ready, failed: false, graph: Ghost(g) };
        proof {
            assert forall|k: int| 0 <= k < n implies #[trigger] g.deps(k).finite() by {
                lemma_index_of_distinct(g.ids(), k);
                assert(g.dependencies_of(g.ids()[k]).finite());
            }
            assert(scheduler@.executions =~= initial_state(g).executions) by {
                assert forall|x: Seq<char>| #[trigger] scheduler@.executions.dom().contains(x) implies
                    scheduler@.executions[x] == initial_state(g).executions[x] by {
                    let k = g.ids().index_of(x);
                    assert(0 <= k < g.ids().len() && g.ids()[k] == x);
                }
            }
            lemma_initial_tracks(g);
        }
        scheduler
    }

    /// Takes the first ready task and marks it running; `None` once a task
    /// has failed or while no task is ready.
    pub fn next_task(&mut self) -> (task: Option<String>)
        requires
            old(self).wf(),
        ensures
            final(self).wf(),
            final(self).source() == old(self).source(),
            next_step(old(self)@) == (final(self)@, name_of(task)),
    {
        let ghost s0 = self@;
        let ghost g = self.graph@;
        if self.failed {
            return None;
        }
        let task_id = match self.ready.pop_front() {
            Some(task_id) => task_id,
            None => return None,
        };
        proof {
            assert(s0.ready[0] == task_id@);
            assert(s0.ready.contains(task_id@));
        }
        let i = match position_of(&self.task_ids, &task_id) {
            Some(i) => i,
            None => {
                assert(false);
                return None;
            },
        };
        let remaining = self.executions[i].remaining_dependencies;
        self.executions.set(i, TaskExecution { status: TaskStatus::Running, remaining_dependencies: remaining });
        proof {
            lemma_index_of_distinct(g.ids(), i as int);
            let expected = next_step(s0).0;
            assert(self@.executions =~= expected.executions) by {
                assert forall|x: Seq<char>| #[trigger] self@.executions.dom().contains(x) implies
                    self@.executions[x] == expected.executions[x] by {
                    let k = g.ids().index_of(x);
                    assert(0 <= k < g.ids().len() && g.ids()[k] == x);
                }
            }
            assert(self@.ready =~= expected.ready);
            lemma_next_step_tracks(s0, g);
        }
        Some(task_id)
    }

    /// Records that the running task `task_id` succeeded and releases its
    /// dependents; a repeated report is accepted and changes nothing.
    pub fn task_succeeded(&mut self, graph: &TaskGraph, task_id: &str) -> (result: Result<(), String>)
        requires
            old(self).wf(),
            graph@ == old(self).source(),
        ensures
            final(self).wf(),
            final(self).source() == old(self).source(),
            success_step(old(self)@, graph@, task_id@) == (final(self)@, outcome_of(result)),
    {
        let ghost s0 = self@;
        let ghost g = self.graph@;
        let ghost e0 = self.executions@;
        let key = task_id.to_owned();
        let i = match position_of(&self.task_ids, &key) {
            Some(i) => i,
            None => return Err(String::from_str("Task does not exist in executions")),
        };
        proof {
            lemma_index_of_distinct(g.ids(), i as int);
            assert(s0.has(task_id@));
        }
        let current = self.executions[i];
        match current.status {
            TaskStatus::Succeeded => return Ok(()),
            TaskStatus::Running => {},
            _ => return Err(String::from_str("Task status invalid")),
        }
        self.executions.set(
            i,
            TaskExecution { status: TaskStatus::Succeeded, remaining_dependencies: current.remaining_dependencies },
        );
        let dependents = match graph.dependents(task_id) {
            Some(dependents) => dependents,
            None => {
                assert(g.has_task(task_id@)) by {
                    assert(g.ids()[i as int] == task_id@);
                }
                assert(false);
                return Ok(());
            },
        };
        let ghost released = dependents.deep_view();
        let ghost pred = |x: Seq<char>| s0.remaining(x) == 1;
        let ghost ready0 = s0.ready;
        proof {
            law_dependency_indexes_agree(g, task_id@, task_id@);
            if released.contains(task_id@) {
                law_dependency_indexes_agree_running_are_pending(s0, g, task_id@, task_id@);
            }
        }
        let m = dependents.len();
        for d in 0..m
            invariant
                m == released.len(),
                released == dependents.deep_view(),
                released == g.dependents_of(task_id@),
                released.no_duplicates(),
                !released.contains(task_id@),
                s0.tracks(g),
                s0.has(task_id@),
                s0.status(task_id@) == TaskStatus::Running,
                g == self.graph@,
                self.task_ids.deep_view() == g.ids(),
                g.ids().no_duplicates(),
                i < g.ids().len(),
                g.ids()[i as int] == task_id@,
                e0.len() == g.ids().len(),
                self.executions@.len() == g.ids().len(),
                forall|k: int| 0 <= k < e0.len() ==> s0.executions[#[trigger] g.ids()[k]] == (e0[k].status, e0[k].remaining_dependencies as nat),
                forall|k: int|
                    0 <= k < e0.len() ==> #[trigger] self.executions@[k] == if k == i {
                        TaskExecution { status: TaskStatus::Succeeded, remaining_dependencies: e0[k].remaining_dependencies }
                    } else if released.take(d as int).contains(g.ids()[k]) {
                        if e0[k].remaining_dependencies == 1 {
                            TaskExecution { status: TaskStatus::Ready, remaining_dependencies: 0 }
                        } else {
                            TaskExecution { status: e0[k].status, remaining_dependencies: (e0[k].remaining_dependencies - 1) as usize }
                        }
                    } else {
                        e0[k]
                    },
                pred == (|x: Seq<char>| s0.remaining(x) == 1),
                self.ready@.map_values(|t: String| t@) == ready0 + released.take(d as int).filter(pred),
                self.failed == s0.failed,
        {
            let name = &dependents[d];
            let ghost ready_before = self.ready@.map_values(|t: String| t@);
            proof {
                assert(released[d as int] == name@);
                assert(released.contains(name@));
                law_dependency_indexes_agree_running_are_pending(s0, g, task_id@, name@);
                assert(released.take(d + 1) =~= released.take(d as int).push(name@));
                released.take(d as int).lemma_filter_push(name@, pred);
                assert(!released.take(d as int).contains(name@)) by {
                    if released.take(d as int).contains(name@) {
                        let y = choose|y: int| 0 <= y < d && released.take(d as int)[y] == name@;
                        assert(released[y] == released[d as int]);
                    }
                }
            }
            match position_of(&self.task_ids, name) {
                Some(j) => {
                    proof {
                        lemma_index_of_distinct(g.ids(), j as int);
                        assert(s0.executions[g.ids()[j as int]] == (e0[j as int].status, e0[j as int].remaining_dependencies as nat));
                        assert(j != i);
                    }
                    let entry = self.executions[j];
                    assert(entry == e0[j as int]);
                    let count = entry.remaining_dependencies - 1;
                    if count == 0 {
                        self.executions.set(j, TaskExecution { status: TaskStatus::Ready, remaining_dependencies: 0 });
                        self.ready.push_back(name.clone());
                        proof {
                            assert(self.ready@.map_values(|t: String| t@) =~= ready_before.push(name@));
                        }
                    } else {
                        self.executions.set(j, TaskExecution { status: entry.status, remaining_dependencies: count });
                    }
                    proof {
                        assert(self.task_ids.deep_view()[j as int] == name@);
                        assert(g.ids()[j as int] == name@);
                        assert(released.take(d + 1)[d as int] == name@);
                        assert(released.take(d + 1).contains(g.ids()[j as int]));
                        assert forall|k: int| 0 <= k < e0.len() && k != j implies released.take(d + 1).contains(g.ids()[k])
                            == released.take(d as int).contains(g.ids()[k]) by {
                            assert(g.ids()[k] != g.ids()[j as int]);
                        }
                    }
                },
                None => {
                    proof {
                        law_dependency_indexes_agree(g, task_id@, name@);
                        let k = g.ids().index_of(name@);
                        assert(0 <= k < g.ids().len() && g.ids()[k] == name@);
                        assert(self.task_ids.deep_view()[k] == name@);
                    }
                    assert(false);
                },
            }
        }
        proof {
            assert(released.take(m as int) =~= released);
            let expected = release(s0, g, task_id@);
            assert(self@.executions =~= expected.executions) by {
                assert forall|x: Seq<char>| #[trigger] self@.executions.dom().contains(x) implies
                    self@.executions[x] == expected.executions[x] by {
                    let k = g.ids().index_of(x);
                    assert(0 <= k < g.ids().len() && g.ids()[k] == x);
                    if released.contains(x) {
                        law_dependency_indexes_agree_running_are_pending(s0, g, task_id@, x);
                    }
                }
            }
            assert(self@.ready =~= expected.ready);
            lemma_success_step_tracks(s0, g, task_id@);
        }
        Ok(())
    }

    /// The status of `task_id`, or `None` for a name that is not a task.
    pub fn status_of(&self, task_id: &str) -> (status: Option<TaskStatus>)
        requires
            self.wf(),
        ensures
            status == if self@.has(task_id@) {
                Some(self@.status(task_id@))
            } else {
                None::<TaskStatus>
            },
    {
        let key = task_id.to_owned();
        match position_of(&self.task_ids, &key) {
            Some(i) => {
                proof {
                    lemma_index_of_distinct(self.graph@.ids(), i as int);
                    assert(self.task_ids.deep_view()[i as int] == task_id@);
                }
                Some(self.executions[i].status)
            },
            None => None,
        }
    }

    /// How many prerequisites of `task_id` have not succeeded yet, or `None`
    /// for a name that is not a task.
    pub fn remaining_dependencies_of(&self, task_id: &str) -> (count: Option<usize>)
        requires
            self.wf(),
        ensures
            match count {
                Some(c) => self@.has(task_id@) && c == self@.remaining(task_id@),
                None => !self@.has(task_id@),
            },
    {
        let key = task_id.to_owned();
        match position_of(&self.task_ids, &key) {
            Some(i) => {
                proof {
                    lemma_index_of_distinct(self.graph@.ids(), i as int);
                    assert(self.task_ids.deep_view()[i as int] == task_id@);
                }
                Some(self.executions[i].remaining_dependencies)
            },
            None => None,
        }
    }

    /// The ready queue, front first.
    pub fn ready_tasks(&self) -> (tasks: Vec<String>)
        ensures
            tasks.deep_view() == self@.ready,
    {
        let mut tasks: Vec<String> = Vec::new();
        let n = self.ready.len();
        for k in 0..n
            invariant
                n == self.ready@.len(),
                tasks.deep_view() == self@.ready.take(k as int),
        {
            let ghost before = tasks.deep_view();
            let name = self.ready[k].clone();
            tasks.push(name);
            assert(tasks.deep_view() =~= before.push(self.ready@[k as int]@));
            assert(tasks.deep_view() =~= self@.ready.take(k + 1));
        }
        assert(self@.ready.take(n as int) =~= self@.ready);
        tasks
    }

    /// Whether a task has failed, which stops all dispatch.
    pub fn has_failed(&self) -> (failed: bool)
        ensures
            failed == self@.failed,
    {
        self.failed
    }

    /// The number of tasks the scheduler runs.
    pub fn task_count(&self) -> (count: usize)
        requires
            self.wf(),
        ensures
            count == self@.executions.dom().len(),
    {
        proof {
            self.graph@.ids().unique_seq_to_set();
        }
        self.task_ids.len()
    }

    /// Records that the running task `task_id` failed and stops all further
    /// dispatch; a repeated report is accepted and changes nothing.
    pub fn task_failed(&mut self, task_id: &str) -> (result: Result<(), String>)
        requires
            old(self).wf(),
        ensures
            final(self).wf(),
            final(self).source() == old(self).source(),
            failure_step(old(self)@, task_id@) == (final(self)@, outcome_of(result)),
    {
        let ghost s0 = self@;
        let ghost g = self.graph@;
        let key = task_id.to_owned();
        let i = match position_of(&self.task_ids, &key) {
            Some(i) => i,
            None => return Err(String::from_str("Invalid task_id, not present in executions")),
        };
        proof {
            lemma_index_of_distinct(g.ids(), i as int);
            assert(s0.has(task_id@));
        }
        let current = self.executions[i];
        match current.status {
            TaskStatus::Failed => return Ok(()),
            TaskStatus::Running => {
                self.executions.set(
                    i,
                    TaskExecution { status: TaskStatus::Failed, remaining_dependencies: current.remaining_dependencies },
                );
                self.failed = true;
            },
            _ => return Err(String::from_str("Invalid task executions")),
        }
        proof {
            let expected = failure_step(s0, task_id@).0;
            assert(self@.executions =~= expected.executions) by {
                assert forall|x: Seq<char>| #[trigger] self@.executions.dom().contains(x) implies
                    self@.executions[x] == expected.executions[x] by {
                    let k = g.ids().index_of(x);
                    assert(0 <= k < g.ids().len() && g.ids()[k] == x);
                }
            }
            lemma_failure_step_tracks(s0, g, task_id@);
        }
        Ok(())
    }
}

/// Each task's prerequisites form a finite set.
proof fn lemma_prerequisites_finite(g: GraphSpec, i: int)
    requires
        0 <= i < g.tasks.len(),
        g.ids().no_duplicates(),
        exists|v: Seq<Seq<char>>| #[trigger] v.to_set() == g.dependencies_of(g.ids()[i]),
    ensures
        g.dependencies_of(g.ids()[i]).finite(),
{
    let v = choose|v: Seq<Seq<char>>| #[trigger] v.to_set() == g.dependencies_of(g.ids()[i]);
    vstd::seq_lib::seq_to_set_is_finite(v);
}

} // verus!
