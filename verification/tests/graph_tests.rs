use serde_json::Value;
use shardwise::graph::{frame_drawing, Argument, TaskDefinition, TaskGraph};
use shardwise::text_order::text_precedes;
use std::collections::HashSet;

fn build_graph(tasks: Vec<TaskDefinition>, outputs: Vec<String>) -> TaskGraph {
    TaskGraph::new(tasks, outputs).unwrap_or_else(|error| panic!("Unexpected construction error: {error}"))
}

fn task(id: &str, upstream: &[&str]) -> TaskDefinition {
    TaskDefinition {
        id: id.into(),
        function: "example".into(),
        args: upstream
            .iter()
            .enumerate()
            .map(|(i, id)| (format!("arg_{i}"), Argument::FromTask((*id).into())))
            .collect(),
    }
}

/// The JSON object `{"from_task": <name>}`, as a literal.
fn reference_lookalike(name: &str) -> Value {
    let mut object = serde_json::Map::new();
    object.insert("from_task".to_string(), Value::String(name.to_string()));
    Value::Object(object)
}

fn set(items: &[&str]) -> HashSet<String> {
    items.iter().map(|s| s.to_string()).collect()
}

fn as_set(v: &Vec<String>) -> HashSet<String> {
    v.iter().cloned().collect()
}

fn indexes(graph: &TaskGraph, names: &[&str]) -> Vec<(Option<Vec<String>>, Option<Vec<String>>)> {
    names
        .iter()
        .map(|n| (graph.dependencies(n).cloned(), graph.dependents(n).cloned()))
        .collect()
}

#[test]
fn builds_both_indexes_and_deduplicates_dependencies() {
    let graph = build_graph(
        vec![task("total", &["left", "left", "right"]), task("left", &[]), task("right", &[])],
        vec!["total".into()],
    );
    assert_eq!(as_set(graph.dependencies("total").unwrap()), set(&["left", "right"]));
    assert!(graph.dependencies("left").unwrap().is_empty());
    assert_eq!(as_set(graph.dependents("left").unwrap()), set(&["total"]));
    assert!(graph.dependents("total").unwrap().is_empty());
}

#[test]
fn literal_objects_do_not_create_dependencies() {
    let definition = TaskDefinition {
        id: "a".into(),
        function: "example".into(),
        args: vec![("payload".into(), Argument::Value(reference_lookalike("not-a-reference")))],
    };
    let graph = build_graph(vec![definition], vec!["a".into()]);
    assert!(graph.dependencies("a").unwrap().is_empty());
}

#[test]
fn drawing_shows_fan_out_shared_nodes_and_outputs_in_stable_order() {
    let graph = build_graph(
        vec![task("root", &[]), task("right", &["root"]), task("left", &["root"]), task("total", &["left", "right"])],
        vec!["total".into()],
    );
    let drawing = graph.draw_graph();
    println!("{drawing}");
    for id in ["root", "left", "right", "total"] {
        assert_eq!(drawing.matches(id).count(), 1);
    }
    let row = |label: &str| drawing.lines().position(|line| line.contains(label)).unwrap();
    assert!(row("root") < row("left"));
    assert_eq!(row("left"), row("right"));
    assert!(row("left") < row("total"));
    assert!(drawing.contains("[output]"));
    assert!(drawing.contains('╭'));
    assert!(drawing.contains('▾'));
    assert_eq!(drawing, graph.draw_graph());
}

#[test]
fn drawing_handles_cycles_missing_nodes_and_disconnected_components() {
    let graph = build_graph(
        vec![task("a", &["b"]), task("b", &["a"]), task("island", &[]), task("consumer", &["missing"])],
        vec!["unknown-output".into()],
    );
    let drawing = graph.draw_graph();
    for label in ["island", "missing", "consumer", "unknown-output"] {
        assert_eq!(drawing.matches(label).count(), 1);
    }
    assert_eq!(drawing.matches("[undefined task]").count(), 2);
    assert!(drawing.contains("[output]"));
    assert_eq!(build_graph(vec![], vec![]).draw_graph(), "Task graph (empty)\n");
}

#[test]
fn drawing_escapes_control_characters_in_labels() {
    let graph = build_graph(vec![task("line\nbreak", &[])], vec![]);
    assert!(graph.draw_graph().contains("line\\nbreak"));
}

#[test]
fn cycle_detection_accepts_acyclic_graphs_without_mutating_them() {
    let names = ["a", "b", "c", "root", "left", "right", "total"];
    for tasks in [
        vec![],
        vec![task("a", &[])],
        vec![task("a", &[]), task("b", &["a"]), task("c", &["b"])],
        vec![task("root", &[]), task("left", &["root"]), task("right", &["root"]), task("total", &["left", "left", "right"])],
        vec![task("a", &[]), task("b", &[])],
    ] {
        let graph = build_graph(tasks, vec![]);
        let before = indexes(&graph, &names);
        assert!(!graph.detect_cycle());
        assert!(!graph.detect_cycle());
        assert_eq!(indexes(&graph, &names), before);
    }
}

#[test]
fn cycle_detection_finds_self_loops_and_disconnected_cycles() {
    for tasks in [
        vec![task("a", &["a"])],
        vec![task("a", &["b"]), task("b", &["a"])],
        vec![task("a", &["c"]), task("b", &["a"]), task("c", &["b"])],
        vec![task("independent", &[]), task("a", &["b"]), task("b", &["a"])],
        vec![task("root", &[]), task("a", &["root", "b"]), task("b", &["a"])],
    ] {
        assert!(build_graph(tasks, vec![]).detect_cycle());
    }
}

#[test]
fn validation_accepts_shared_dependencies_and_multiple_outputs() {
    let graph = build_graph(
        vec![task("root", &[]), task("a", &["root", "root"]), task("b", &["root"]), task("total", &["a", "b"])],
        vec!["a".into(), "total".into()],
    );
    let names = ["root", "a", "b", "total"];
    let before = indexes(&graph, &names);
    assert_eq!(graph.validate(), Ok(()));
    assert_eq!(indexes(&graph, &names), before);
}

#[test]
fn validation_rejects_empty_tasks_or_outputs() {
    assert!(build_graph(vec![], vec!["a".into()]).validate().is_err());
    assert!(build_graph(vec![task("a", &[])], vec![]).validate().is_err());
}

#[test]
fn validation_rejects_blank_task_ids_and_function_names() {
    for blank in ["", " ", "\t\n"] {
        assert!(build_graph(vec![task(blank, &[])], vec![blank.into()]).validate().is_err());
        let mut definition = task("a", &[]);
        definition.function = blank.into();
        assert!(build_graph(vec![definition], vec!["a".into()]).validate().is_err());
    }
}

#[test]
fn validation_reports_missing_reference_before_cycle_detection() {
    let graph = build_graph(vec![task("consumer", &["missing"])], vec!["consumer".into()]);
    let error = graph.validate().unwrap_err();
    assert!(error.contains("consumer"));
    assert!(error.contains("arg_0"));
    assert!(error.contains("missing"));
    assert!(!error.to_lowercase().contains("cycle"));
}

#[test]
fn validation_checks_every_requested_output() {
    let graph = build_graph(vec![task("a", &[])], vec!["a".into(), "missing".into()]);
    assert!(graph.validate().unwrap_err().contains("missing"));
}

#[test]
fn validation_rejects_self_loops_and_disconnected_cycles() {
    for definitions in [
        vec![task("output", &["output"])],
        vec![task("output", &[]), task("a", &["b"]), task("b", &["a"])],
    ] {
        let graph = build_graph(definitions, vec!["output".into()]);
        assert!(graph.validate().unwrap_err().to_lowercase().contains("cycle"));
    }
}

#[test]
fn validation_does_not_treat_literal_objects_as_references() {
    let definition = TaskDefinition {
        id: "a".into(),
        function: "example".into(),
        args: vec![("data".into(), Argument::Value(reference_lookalike("missing")))],
    };
    assert_eq!(build_graph(vec![definition], vec!["a".into()]).validate(), Ok(()));
}

#[test]
fn construction_rejects_duplicate_task_ids() {
    let result = TaskGraph::new(vec![task("duplicate", &[]), task("duplicate", &[])], vec!["duplicate".into()]);
    assert!(result.is_err(), "Duplicate IDs must be rejected before insertion into the map");
}

#[test]
fn duplicate_error_names_the_first_repeated_identifier() {
    let result = TaskGraph::new(
        vec![task("a", &[]), task("b", &[]), task("b", &[]), task("a", &[])],
        vec!["a".into()],
    );
    assert_eq!(result.err().unwrap(), "Duplicate task id: b");
}

#[test]
fn validation_messages_name_the_first_broken_rule() {
    assert_eq!(build_graph(vec![], vec![]).validate().unwrap_err(), "Need at least one task");
    assert_eq!(
        build_graph(vec![task("a", &[])], vec![]).validate().unwrap_err(),
        "Need at least one requested output"
    );
    assert_eq!(
        build_graph(vec![task("\u{3000}", &[])], vec!["a".into()]).validate().unwrap_err(),
        "Task IDs and function names must be nonempty"
    );
    assert_eq!(
        build_graph(vec![task("a", &["gone"]), task("b", &["x", "y"])], vec!["a".into()]).validate().unwrap_err(),
        "Task 'a', argument 'arg_0': referenced task 'gone' does not exist."
    );
    assert_eq!(
        build_graph(vec![task("a", &[])], vec!["a".into(), "b".into(), "c".into()]).validate().unwrap_err(),
        "Requested output 'b' does not reference an existing task"
    );
    assert_eq!(
        build_graph(vec![task("a", &["a"])], vec!["a".into()]).validate().unwrap_err(),
        "DAG cannot contain a cycle"
    );
}

#[test]
fn names_with_visible_characters_are_not_blank() {
    let graph = build_graph(vec![task(" a ", &[])], vec![" a ".into()]);
    assert_eq!(graph.validate(), Ok(()));
}

#[test]
fn dependents_list_tasks_in_submission_order_and_undefined_names() {
    let graph = build_graph(
        vec![task("z", &["root", "ghost"]), task("root", &[]), task("a", &["root"])],
        vec!["z".into()],
    );
    assert_eq!(graph.dependents("root").unwrap(), &vec!["z".to_string(), "a".to_string()]);
    assert_eq!(graph.dependents("ghost").unwrap(), &vec!["z".to_string()]);
    assert!(graph.dependencies("ghost").is_none());
    assert!(graph.dependents("nowhere").is_none());
}

#[test]
fn drawing_nodes_and_edges_are_sorted() {
    let graph = build_graph(
        vec![task("total", &["right", "left"]), task("right", &["root"]), task("left", &["root"]), task("root", &[])],
        vec!["total".into(), "extra".into()],
    );
    let nodes = graph.drawing_nodes();
    let ids: Vec<&str> = nodes.iter().map(|(id, _)| id.as_str()).collect();
    assert_eq!(ids, vec!["extra", "left", "right", "root", "total"]);
    assert_eq!(nodes[0].1, "extra\n[undefined task]\n[output]");
    assert_eq!(nodes[4].1, "total\nexample\n[output]");
    assert_eq!(nodes[1].1, "left\nexample");
    let edges: Vec<(String, String)> = graph.drawing_edges();
    let expected: Vec<(String, String)> = [("left", "total"), ("right", "total"), ("root", "left"), ("root", "right")]
        .iter()
        .map(|(a, b)| (a.to_string(), b.to_string()))
        .collect();
    assert_eq!(edges, expected);
}

#[test]
fn labels_escape_names_and_functions() {
    let mut definition = task("tab\there", &[]);
    definition.function = "quote\"d".into();
    let graph = build_graph(vec![definition], vec![]);
    let nodes = graph.drawing_nodes();
    assert_eq!(nodes[0].1, "tab\\there\nquote\\\"d");
}

#[test]
fn text_order_follows_code_points() {
    assert!(text_precedes("a", "b"));
    assert!(!text_precedes("b", "a"));
    assert!(text_precedes("a", "ab"));
    assert!(!text_precedes("ab", "ab"));
    assert!(text_precedes("Z", "a"));
    assert!(text_precedes("z", "\u{e9}"));
}

#[test]
fn framing_adds_the_heading_and_a_final_newline() {
    assert_eq!(frame_drawing("x"), "Task graph (top to bottom)\nx\n");
    assert_eq!(frame_drawing(""), "Task graph (top to bottom)\n\n");
}

#[test]
fn drawing_does_not_depend_on_submission_order() {
    let first = build_graph(
        vec![task("root", &[]), task("right", &["root"]), task("left", &["root"]), task("total", &["left", "right"])],
        vec!["total".into(), "left".into()],
    );
    let second = build_graph(
        vec![task("total", &["right", "left"]), task("left", &["root"]), task("root", &[]), task("right", &["root"])],
        vec!["left".into(), "total".into()],
    );
    let drawing = first.draw_graph();
    assert!(drawing.starts_with("Task graph (top to bottom)\n"));
    assert!(drawing.ends_with('\n'));
    assert_eq!(drawing, second.draw_graph());
}

#[test]
fn blank_names_follow_the_unicode_white_space_property() {
    for code in 0u32..0x3100 {
        let Some(c) = char::from_u32(code) else { continue };
        let name = c.to_string();
        let graph = build_graph(vec![task(&name, &[])], vec![name.clone()]);
        assert_eq!(graph.validate().is_err(), c.is_whitespace(), "character {code:#x}");
    }
}

#[test]
fn acyclic_graph_without_dangling_references_is_accepted() {
    let graph = build_graph(
        vec![task("d", &["b", "c"]), task("b", &["a"]), task("c", &["a"]), task("a", &[])],
        vec!["d".into()],
    );
    assert!(!graph.detect_cycle());
    assert_eq!(graph.validate(), Ok(()));
}
