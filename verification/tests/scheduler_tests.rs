use serde_json::Value;
use shardwise::graph::{Argument, TaskDefinition, TaskGraph};
use shardwise::scheduler::{Scheduler, TaskStatus};
use std::collections::{BTreeMap, HashSet};

fn task(id: &str, dependencies: &[&str]) -> TaskDefinition {
    TaskDefinition {
        id: id.into(),
        function: "example".into(),
        args: dependencies
            .iter()
            .enumerate()
            .map(|(index, upstream)| (format!("arg_{index}"), Argument::FromTask((*upstream).into())))
            .collect(),
    }
}

fn graph(tasks: Vec<TaskDefinition>, outputs: &[&str]) -> TaskGraph {
    let graph = TaskGraph::new(tasks, outputs.iter().map(|id| (*id).into()).collect()).expect("Fixture should construct");
    graph.validate().expect("Fixture should be valid");
    graph
}

fn build_scheduler(graph: &TaskGraph) -> Scheduler {
    Scheduler::new(graph)
}

fn status_name(status: TaskStatus) -> &'static str {
    match status {
        TaskStatus::Pending => "pending",
        TaskStatus::Ready => "ready",
        TaskStatus::Running => "running",
        TaskStatus::Succeeded => "succeeded",
        TaskStatus::Failed => "failed",
    }
}

type Snapshot = (BTreeMap<String, (&'static str, usize)>, Vec<String>, bool);

fn snapshot(scheduler: &Scheduler, graph: &TaskGraph) -> Snapshot {
    (
        graph
            .tasks()
            .iter()
            .map(|t| {
                let id = t.id.as_str();
                (
                    id.to_string(),
                    (
                        status_name(scheduler.status_of(id).unwrap()),
                        scheduler.remaining_dependencies_of(id).unwrap(),
                    ),
                )
            })
            .collect(),
        scheduler.ready_tasks(),
        scheduler.has_failed(),
    )
}

fn assert_state(scheduler: &Scheduler, id: &str, status: &str, remaining: usize) {
    assert_eq!(status_name(scheduler.status_of(id).unwrap()), status, "Status of {id}");
    assert_eq!(scheduler.remaining_dependencies_of(id).unwrap(), remaining, "Dependencies of {id}");
}

fn literal(name: &str) -> Value {
    let mut object = serde_json::Map::new();
    object.insert("from_task".to_string(), Value::String(name.to_string()));
    Value::Object(object)
}

#[test]
fn failure_stops_dispatch_without_consuming_ready_tasks() {
    let graph = graph(vec![task("a", &[]), task("b", &[])], &["a", "b"]);
    let mut scheduler = Scheduler::new(&graph);
    assert!(!scheduler.has_failed());
    let running = scheduler.next_task().unwrap();
    scheduler.task_failed(&running).unwrap();
    assert!(scheduler.has_failed());
    assert_state(&scheduler, &running, "failed", 0);
    assert_eq!(scheduler.ready_tasks().len(), 1);
    let before = snapshot(&scheduler, &graph);
    for _ in 0..3 {
        assert_eq!(scheduler.next_task(), None);
        scheduler.task_failed(&running).unwrap();
        assert_eq!(snapshot(&scheduler, &graph), before);
    }
    assert!(scheduler.task_succeeded(&graph, &running).is_err());
    assert_eq!(snapshot(&scheduler, &graph), before);
}

#[test]
fn invalid_failure_reports_leave_state_unchanged() {
    let graph = graph(vec![task("root", &[]), task("child", &["root"])], &["child"]);
    let mut scheduler = Scheduler::new(&graph);
    for id in ["missing", "", "root", "child"] {
        let before = snapshot(&scheduler, &graph);
        assert!(scheduler.task_failed(id).is_err());
        assert_eq!(snapshot(&scheduler, &graph), before);
    }
    scheduler.next_task().unwrap();
    scheduler.task_succeeded(&graph, "root").unwrap();
    let before = snapshot(&scheduler, &graph);
    assert!(scheduler.task_failed("root").is_err());
    assert_eq!(snapshot(&scheduler, &graph), before);
}

#[test]
fn late_success_after_failure_cannot_restart_dispatch() {
    let graph = graph(
        vec![task("a", &[]), task("b", &[]), task("child", &["b"]), task("join", &["a", "b"])],
        &["child", "join"],
    );
    let mut scheduler = Scheduler::new(&graph);
    scheduler.next_task().unwrap();
    scheduler.next_task().unwrap();
    scheduler.task_failed("a").unwrap();
    assert_state(&scheduler, "join", "pending", 2);
    scheduler.task_succeeded(&graph, "b").unwrap();
    assert_state(&scheduler, "b", "succeeded", 0);
    assert_state(&scheduler, "child", "ready", 0);
    assert_state(&scheduler, "join", "pending", 1);
    let before = snapshot(&scheduler, &graph);
    assert_eq!(scheduler.next_task(), None);
    scheduler.task_succeeded(&graph, "b").unwrap();
    assert_eq!(snapshot(&scheduler, &graph), before);
    assert!(scheduler.has_failed());
}

#[test]
fn multiple_running_tasks_can_fail_without_affecting_other_jobs() {
    let graph = graph(vec![task("a", &[]), task("b", &[])], &["a", "b"]);
    let mut scheduler = Scheduler::new(&graph);
    let mut other_job = Scheduler::new(&graph);
    scheduler.next_task().unwrap();
    scheduler.next_task().unwrap();
    scheduler.task_failed("a").unwrap();
    scheduler.task_failed("b").unwrap();
    assert_state(&scheduler, "a", "failed", 0);
    assert_state(&scheduler, "b", "failed", 0);
    assert_eq!(scheduler.next_task(), None);
    assert!(!other_job.has_failed());
    assert!(other_job.next_task().is_some());
}

#[test]
fn initialization_counts_unique_dependencies_and_ignores_literals() {
    let mut root = task("root", &[]);
    root.args.push(("literal".into(), Argument::Value(literal("missing"))));
    let graph = graph(vec![root, task("child", &["root", "root"])], &["child"]);
    let mut scheduler = Scheduler::new(&graph);
    assert_eq!(scheduler.task_count(), 2);
    assert_state(&scheduler, "root", "ready", 0);
    assert_state(&scheduler, "child", "pending", 1);
    assert_eq!(scheduler.next_task().as_deref(), Some("root"));
    scheduler.task_succeeded(&graph, "root").unwrap();
    assert_state(&scheduler, "child", "ready", 0);
    assert_eq!(scheduler.next_task().as_deref(), Some("child"));
    assert_eq!(scheduler.next_task(), None);
}

#[test]
fn dispatch_changes_only_one_task_and_empty_queue_preserves_state() {
    let graph = graph(vec![task("a", &[]), task("b", &[])], &["a", "b"]);
    let mut scheduler = Scheduler::new(&graph);
    let order: Vec<_> = scheduler.ready_tasks();
    assert_eq!(scheduler.next_task(), Some(order[0].clone()));
    assert_state(&scheduler, &order[0], "running", 0);
    assert_state(&scheduler, &order[1], "ready", 0);
    assert_eq!(scheduler.next_task(), Some(order[1].clone()));
    let before = snapshot(&scheduler, &graph);
    assert_eq!(scheduler.next_task(), None);
    assert_eq!(scheduler.next_task(), None);
    assert_eq!(snapshot(&scheduler, &graph), before);
}

#[test]
fn chain_releases_only_the_immediate_dependent() {
    let graph = graph(vec![task("a", &[]), task("b", &["a"]), task("c", &["b"])], &["c"]);
    let mut scheduler = Scheduler::new(&graph);
    assert_eq!(scheduler.next_task().as_deref(), Some("a"));
    scheduler.task_succeeded(&graph, "a").unwrap();
    assert_state(&scheduler, "a", "succeeded", 0);
    assert_state(&scheduler, "b", "ready", 0);
    assert_state(&scheduler, "c", "pending", 1);
    assert_eq!(scheduler.next_task().as_deref(), Some("b"));
    scheduler.task_succeeded(&graph, "b").unwrap();
    assert_eq!(scheduler.next_task().as_deref(), Some("c"));
    scheduler.task_succeeded(&graph, "c").unwrap();
    assert!(["a", "b", "c"].iter().all(|id| scheduler.status_of(id) == Some(TaskStatus::Succeeded)));
    assert_eq!(scheduler.next_task(), None);
}

#[test]
fn completed_branch_progresses_without_waiting_for_unrelated_running_task() {
    let graph = graph(vec![task("a", &[]), task("b", &[]), task("child", &["a"])], &["child", "b"]);
    let mut scheduler = Scheduler::new(&graph);
    let roots: HashSet<_> = (0..2).map(|_| scheduler.next_task().unwrap()).collect();
    assert_eq!(roots, HashSet::from(["a".into(), "b".into()]));
    scheduler.task_succeeded(&graph, "a").unwrap();
    assert_eq!(scheduler.next_task().as_deref(), Some("child"));
    assert_state(&scheduler, "b", "running", 0);
    scheduler.task_succeeded(&graph, "child").unwrap();
    scheduler.task_succeeded(&graph, "b").unwrap();
    assert_eq!(scheduler.next_task(), None);
}

#[test]
fn invalid_completions_return_errors_without_changing_state() {
    let graph = graph(vec![task("root", &[]), task("child", &["root"])], &["child"]);
    let mut scheduler = Scheduler::new(&graph);
    for id in ["missing", "", "root", "child"] {
        let before = snapshot(&scheduler, &graph);
        assert!(scheduler.task_succeeded(&graph, id).is_err(), "Should reject {id:?}");
        assert_eq!(snapshot(&scheduler, &graph), before);
    }
    // Reach the terminal Failed state through the public operations.
    scheduler.next_task().unwrap();
    scheduler.task_failed("root").unwrap();
    let before = snapshot(&scheduler, &graph);
    assert!(scheduler.task_succeeded(&graph, "root").is_err());
    assert_eq!(snapshot(&scheduler, &graph), before);
}

#[test]
fn duplicate_completion_is_harmless_before_and_after_dependent_dispatch() {
    let graph = graph(vec![task("root", &[]), task("child", &["root"])], &["child"]);
    let mut scheduler = Scheduler::new(&graph);
    scheduler.next_task().unwrap();
    scheduler.task_succeeded(&graph, "root").unwrap();
    let before = snapshot(&scheduler, &graph);
    for _ in 0..3 {
        scheduler.task_succeeded(&graph, "root").unwrap();
        assert_eq!(snapshot(&scheduler, &graph), before);
    }
    assert_eq!(scheduler.next_task().as_deref(), Some("child"));
    let before = snapshot(&scheduler, &graph);
    scheduler.task_succeeded(&graph, "root").unwrap();
    assert_eq!(snapshot(&scheduler, &graph), before);
    scheduler.task_succeeded(&graph, "child").unwrap();
    let before = snapshot(&scheduler, &graph);
    scheduler.task_succeeded(&graph, "root").unwrap();
    scheduler.task_succeeded(&graph, "child").unwrap();
    assert_eq!(snapshot(&scheduler, &graph), before);
}

#[test]
fn separate_schedulers_do_not_share_execution_state() {
    let graph = graph(vec![task("root", &[])], &["root"]);
    let mut first = Scheduler::new(&graph);
    let mut second = Scheduler::new(&graph);
    first.next_task().unwrap();
    first.task_succeeded(&graph, "root").unwrap();
    assert_state(&second, "root", "ready", 0);
    assert_eq!(second.next_task().as_deref(), Some("root"));
    assert_state(&first, "root", "succeeded", 0);
}

#[test]
fn all_four_task_dags_respect_dependencies_under_every_completion_priority() {
    let ids = ["a", "b", "c", "d"];
    let edges = [(0, 1), (0, 2), (0, 3), (1, 2), (1, 3), (2, 3)];
    for mask in 0..(1 << edges.len()) {
        let prerequisites: Vec<Vec<usize>> = (0..4)
            .map(|child| {
                edges
                    .iter()
                    .enumerate()
                    .filter_map(|(bit, &(parent, target))| (target == child && mask & (1 << bit) != 0).then_some(parent))
                    .collect()
            })
            .collect();
        let graph = graph(
            (0..4)
                .map(|index| task(ids[index], &prerequisites[index].iter().map(|&parent| ids[parent]).collect::<Vec<_>>()))
                .collect(),
            &ids,
        );
        for a in 0..4 {
            for b in 0..4 {
                for c in 0..4 {
                    for d in 0..4 {
                        let priority = [a, b, c, d];
                        if priority.iter().copied().collect::<HashSet<_>>().len() != 4 {
                            continue;
                        }
                        let mut scheduler = Scheduler::new(&graph);
                        let mut started = HashSet::new();
                        let mut completed = HashSet::new();
                        while completed.len() < 4 {
                            while let Some(id) = scheduler.next_task() {
                                let index = ids.iter().position(|&candidate| candidate == id).unwrap();
                                assert!(
                                    prerequisites[index].iter().all(|parent| completed.contains(parent)),
                                    "Premature dispatch: mask {mask}, task {id}"
                                );
                                assert!(started.insert(index), "Task dispatched twice");
                                assert_state(&scheduler, &id, "running", 0);
                            }
                            let next = priority
                                .iter()
                                .copied()
                                .find(|index| started.contains(index) && !completed.contains(index))
                                .expect("An unfinished DAG must make progress");
                            scheduler.task_succeeded(&graph, ids[next]).unwrap();
                            completed.insert(next);
                            let before = snapshot(&scheduler, &graph);
                            scheduler.task_succeeded(&graph, ids[next]).unwrap();
                            assert_eq!(snapshot(&scheduler, &graph), before);
                            for index in 0..4 {
                                let remaining = prerequisites[index].iter().filter(|parent| !completed.contains(parent)).count();
                                let status = if completed.contains(&index) {
                                    "succeeded"
                                } else if started.contains(&index) {
                                    "running"
                                } else if remaining == 0 {
                                    "ready"
                                } else {
                                    "pending"
                                };
                                assert_state(&scheduler, ids[index], status, remaining);
                                assert_eq!(
                                    scheduler.ready_tasks().iter().filter(|id| id.as_str() == ids[index]).count(),
                                    usize::from(status == "ready")
                                );
                            }
                        }
                        assert_eq!(scheduler.next_task(), None);
                    }
                }
            }
        }
    }
}

#[test]
fn v_shape() {
    let t_1 = TaskDefinition {
        id: "task_1".into(),
        function: "sum_numbers".into(),
        args: vec![("numbers".into(), Argument::Value(Value::Array(vec![Value::from(1), Value::from(2)])))],
    };
    let t_2 = TaskDefinition {
        id: "task_2".into(),
        function: "sum_numbers".into(),
        args: vec![("numbers".into(), Argument::Value(Value::Array(vec![Value::from(3), Value::from(4)])))],
    };
    let t_t = TaskDefinition {
        id: "total".into(),
        function: "combine_sums".into(),
        args: vec![
            ("first".into(), Argument::FromTask("task_1".into())),
            ("second".into(), Argument::FromTask("task_2".into())),
        ],
    };
    let graph = TaskGraph::new(vec![t_t, t_1, t_2], vec!["total".into()]).expect("Graph construction should succeed");
    graph.validate().expect("Graph should be valid");
    let mut scheduler = build_scheduler(&graph);
    let first = scheduler.next_task().expect("First task ready");
    let second = scheduler.next_task().expect("Second task ready");
    assert!(matches!(first.as_str(), "task_1" | "task_2"));
    assert!(matches!(second.as_str(), "task_1" | "task_2"));
    assert_ne!(first, second);
    assert_eq!(scheduler.next_task(), None);
    scheduler.task_succeeded(&graph, &first).unwrap();
    assert_eq!(scheduler.next_task(), None);
    scheduler.task_succeeded(&graph, &first).unwrap();
    assert_eq!(scheduler.next_task(), None);
    scheduler.task_succeeded(&graph, &second).unwrap();
    assert_eq!(scheduler.next_task(), Some("total".into()));
    assert_eq!(scheduler.next_task(), None);
    scheduler.task_succeeded(&graph, "total").unwrap();
}

#[test]
fn report_errors_name_the_reason() {
    let graph = graph(vec![task("root", &[]), task("child", &["root"])], &["child"]);
    let mut scheduler = Scheduler::new(&graph);
    assert_eq!(scheduler.task_succeeded(&graph, "nope").unwrap_err(), "Task does not exist in executions");
    assert_eq!(scheduler.task_succeeded(&graph, "child").unwrap_err(), "Task status invalid");
    assert_eq!(scheduler.task_failed("nope").unwrap_err(), "Invalid task_id, not present in executions");
    assert_eq!(scheduler.task_failed("root").unwrap_err(), "Invalid task executions");
}

#[test]
fn released_dependents_join_the_back_of_the_queue_in_task_order() {
    let graph = graph(
        vec![task("root", &[]), task("other", &[]), task("y", &["root"]), task("x", &["root"])],
        &["x", "y"],
    );
    let mut scheduler = Scheduler::new(&graph);
    assert_eq!(scheduler.ready_tasks(), vec!["root".to_string(), "other".to_string()]);
    assert_eq!(scheduler.next_task().as_deref(), Some("root"));
    scheduler.task_succeeded(&graph, "root").unwrap();
    assert_eq!(scheduler.ready_tasks(), vec!["other".to_string(), "y".to_string(), "x".to_string()]);
}
