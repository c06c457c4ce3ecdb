use serde_json::Value;
use shardwise::api::{
    accept_graph, assemble_job, enqueue_job, get_job_status, prepare_job, ApiError, CreateJobRequest, JobResponse,
};
use shardwise::graph::{Argument, TaskDefinition};
use shardwise::jobs::{JobStatus, JobStore, TaskError};

fn definition(id: &str, function: &str, references: &[(&str, &str)]) -> TaskDefinition {
    TaskDefinition {
        id: id.into(),
        function: function.into(),
        args: references.iter().map(|(name, upstream)| (name.to_string(), Argument::FromTask(upstream.to_string()))).collect(),
    }
}

fn request(tasks: Vec<TaskDefinition>, outputs: &[&str]) -> CreateJobRequest {
    CreateJobRequest { tasks, outputs: outputs.iter().map(|o| o.to_string()).collect() }
}

fn v_shape() -> CreateJobRequest {
    let mut first = definition("task_1", "sum_numbers", &[]);
    first.args.push(("numbers".into(), Argument::Value(Value::Array(vec![Value::from(1), Value::from(2)]))));
    let mut second = definition("task_2", "sum_numbers", &[]);
    second.args.push(("numbers".into(), Argument::Value(Value::Array(vec![Value::from(3), Value::from(4)]))));
    let total = definition("total", "combine_sums", &[("first", "task_1"), ("second", "task_2")]);
    request(vec![first, second, total], &["total"])
}

#[test]
fn missing_job_returns_404_with_error_envelope() {
    let store = JobStore::new();
    let error = get_job_status(&store, "missing").err().unwrap();
    let response = error.response();
    assert_eq!(response.status, 404);
    assert_eq!(response.code, "JOB_NOT_FOUND");
    assert_eq!(response.message, "No job exists with that ID.");
}

#[test]
fn invalid_submissions_return_422_without_storing_or_queueing() {
    let cases: Vec<CreateJobRequest> = vec![
        request(vec![], &["a"]),
        request(vec![definition("a", "f", &[])], &[]),
        request(vec![definition(" ", "f", &[])], &[" "]),
        request(vec![definition("a", " ", &[])], &["a"]),
        request(vec![definition("a", "f", &[("x", "missing")])], &["a"]),
        request(vec![definition("a", "f", &[])], &["missing"]),
        request(vec![definition("a", "f", &[("x", "a")])], &["a"]),
        request(vec![definition("a", "first", &[]), definition("a", "second", &[])], &["a"]),
    ];
    for submission in cases {
        let store = JobStore::new();
        let error = prepare_job(submission).err().unwrap();
        let response = error.response();
        assert_eq!(response.status, 422);
        assert_eq!(response.code, "INVALID_GRAPH");
        assert!(!response.message.is_empty());
        assert_eq!(store.job_count(), 0);
        assert!(store.pending_job_ids().is_empty());
    }
}

#[test]
fn invalid_graph_response_preserves_validation_message() {
    let response = ApiError::InvalidGraph("Unknown task: missing".into()).response();
    assert_eq!(response.status, 422);
    assert_eq!(response.code, "INVALID_GRAPH");
    assert_eq!(response.message, "Unknown task: missing");
}

#[test]
fn unavailable_store_is_an_internal_error() {
    let response = ApiError::StoreUnavailable.response();
    assert_eq!(response.status, 500);
    assert_eq!(response.code, "INTERNAL_ERROR");
    assert_eq!(response.message, "The job store is unavailable.");
}

#[test]
fn accepted_submission_is_stored_queued_and_reads_back() {
    let mut store = JobStore::new();
    let job = prepare_job(v_shape()).ok().unwrap();
    let job_id = job.job_id.clone();
    assert_eq!(job.graph.tasks().len(), 3);
    assert_eq!(job.graph.outputs(), &vec!["total".to_string()]);
    let created = enqueue_job(&mut store, job);
    assert_eq!(created.job_id, job_id);
    assert_eq!(created.status, JobStatus::Queued);
    assert_eq!(store.pending_job_ids(), vec![job_id.clone()]);
    assert_eq!(store.job_count(), 1);
    let response = get_job_status(&store, &job_id).ok().unwrap();
    assert_eq!(response.job_id, job_id);
    assert_eq!(response.status, JobStatus::Queued);
    assert!(response.result.is_none());
    assert!(response.error.is_none());
    assert!(matches!(get_job_status(&store, "other"), Err(ApiError::JobNotFound)));
}

#[test]
fn job_identifiers_are_fresh_version_7_uuids() {
    let first = prepare_job(v_shape()).ok().unwrap().job_id;
    let second = prepare_job(v_shape()).ok().unwrap().job_id;
    assert_ne!(first, second);
    for id in [&first, &second] {
        let chars: Vec<char> = id.chars().collect();
        assert_eq!(chars.len(), 36);
        for (i, c) in chars.iter().enumerate() {
            if [8, 13, 18, 23].contains(&i) {
                assert_eq!(*c, '-');
            } else {
                assert!(c.is_ascii_hexdigit() && !c.is_ascii_uppercase());
            }
        }
        assert_eq!(chars[14], '7');
    }
}

#[test]
fn storing_under_an_existing_identifier_replaces_the_job() {
    let mut store = JobStore::new();
    let first = assemble_job(accept_graph(v_shape()).ok().unwrap(), "same".into());
    let second = assemble_job(accept_graph(request(vec![definition("solo", "f", &[])], &["solo"])).ok().unwrap(), "same".into());
    enqueue_job(&mut store, first);
    enqueue_job(&mut store, second);
    assert_eq!(store.job_count(), 1);
    assert_eq!(store.pending_job_ids(), vec!["same".to_string(), "same".to_string()]);
    assert_eq!(store.job("same").unwrap().graph.tasks().len(), 1);
}

#[test]
fn status_lookup_copies_result_and_error() {
    let mut job = assemble_job(accept_graph(v_shape()).ok().unwrap(), "job".into());
    job.result = Some(Value::from(10));
    job.error = Some(TaskError { code: "E".into(), message: "boom".into() });
    let response = JobResponse::from(&job);
    assert_eq!(response.result, Some(Value::from(10)));
    let error = response.error.unwrap();
    assert_eq!(error.code, "E");
    assert_eq!(error.message, "boom");
}

#[test]
fn duplicate_identifiers_are_refused_with_their_name() {
    let error = accept_graph(request(vec![definition("a", "first", &[]), definition("a", "second", &[])], &["a"]))
        .err()
        .unwrap();
    assert!(matches!(error, ApiError::InvalidGraph(ref message) if message == "Duplicate task id: a"));
}

#[test]
fn accepted_jobs_start_with_their_roots_ready() {
    let mut job = assemble_job(accept_graph(v_shape()).ok().unwrap(), "job".into());
    assert_eq!(job.scheduler.ready_tasks(), vec!["task_1".to_string(), "task_2".to_string()]);
    assert_eq!(job.scheduler.next_task().as_deref(), Some("task_1"));
}
