//! The operations behind the HTTP interface: accepting a job, looking one
//! up, and the error envelopes.

use vstd::prelude::*;
use crate::graph::{
    arguments_named_once, first_repeat, is_blank, law_accepted_graphs_can_run, GraphSpec, TaskDefinition, TaskGraph,
};
use crate::jobs::{error_view, Job, JobStatus, JobStore, JobStoreView, JobView, TaskError};
use crate::scheduler::{initial_state, Scheduler};

verus! {

/// A job submission: the task definitions and the requested outputs.
pub struct CreateJobRequest {
    pub tasks: Vec<TaskDefinition>,
    pub outputs: Vec<String>,
}

/// The answer to an accepted submission.
pub struct CreateJobResponse {
    pub job_id: String,
    pub status: JobStatus,
}

/// What a status lookup shows of a job: everything but its graph and scheduler.
pub struct JobResponse {
    pub job_id: String,
    pub status: JobStatus,
    pub result: Option<serde_json::Value>,
    pub error: Option<TaskError>,
}

/// The ways a request can fail.
pub enum ApiError {
    JobNotFound,
    StoreUnavailable,
    InvalidGraph(String),
}

/// An error as sent to the client: the HTTP status and the code and message
/// of the error envelope.
pub struct ErrorResponse {
    pub status: u16,
    pub code: String,
    pub message: String,
}

/// The HTTP status, code and message that answer `error`.
pub open spec fn error_response(error: ApiError) -> (u16, Seq<char>, Seq<char>) {
    match error {
        ApiError::JobNotFound => (404, "JOB_NOT_FOUND"@, "No job exists with that ID."@),
        ApiError::StoreUnavailable => (500, "INTERNAL_ERROR"@, "The job store is unavailable."@),
        ApiError::InvalidGraph(message) => (422, "INVALID_GRAPH"@, message@),
    }
}

impl ApiError {
    /// The status and envelope that answer this error.
    pub fn response(&self) -> (response: ErrorResponse)
        ensures
            (response.status, response.code@, response.message@) == error_response(*self),
    {
        match self {
            ApiError::JobNotFound => ErrorResponse {
                status: 404,
                code: String::from_str("JOB_NOT_FOUND"),
                message: String::from_str("No job exists with that ID."),
            },
            ApiError::StoreUnavailable => ErrorResponse {
                status: 500,
                code: String::from_str("INTERNAL_ERROR"),
                message: String::from_str("The job store is unavailable."),
            },
            ApiError::InvalidGraph(message) => ErrorResponse {
                status: 422,
                code: String::from_str("INVALID_GRAPH"),
                message: message.clone(),
            },
        }
    }
}

/// Why a submission is refused, if it is: the first repeated task identifier,
/// or else the first rule of `GraphSpec::validation_error` that it breaks.
pub open spec fn submission_error(tasks: Seq<TaskDefinition>, outputs: Seq<Seq<char>>) -> Option<Seq<char>> {
    let ids = tasks.map_values(|t: TaskDefinition| t.id@);
    if !ids.no_duplicates() {
        let j = choose|j: int| first_repeat(ids, j);
        Some("Duplicate task id: "@ + tasks[j].id@)
    } else {
        GraphSpec { tasks, outputs }.validation_error()
    }
}

/// A freshly accepted job: queued, without result or error, its scheduler at
/// the start of a run of its graph.
pub open spec fn queued_job(graph: GraphSpec, job_id: Seq<char>) -> JobView {
    JobView {
        job_id,
        graph,
        status: JobStatus::Queued,
        result: None,
        error: None,
        scheduler: initial_state(graph),
    }
}

/// What a status lookup answers for a stored job.
pub open spec fn response_of(job: JobView) -> (Seq<char>, JobStatus, Option<serde_json::Value>, Option<(Seq<char>, Seq<char>)>) {
    (job.job_id, job.status, job.result, job.error)
}

pub open spec fn response_view(response: JobResponse) -> (Seq<char>, JobStatus, Option<serde_json::Value>, Option<(Seq<char>, Seq<char>)>) {
    (response.job_id@, response.status, response.result, error_view(response.error))
}

/// What a status lookup of `job_id` answers: the job's response, or `None`
/// for an unknown identifier.
pub open spec fn lookup(store: JobStoreView, job_id: Seq<char>) -> Option<(Seq<char>, JobStatus, Option<serde_json::Value>, Option<(Seq<char>, Seq<char>)>)> {
    if store.jobs.contains_key(job_id) {
        Some(response_of(store.jobs[job_id]))
    } else {
        None
    }
}

/// The store after `job` is stored and queued.
pub open spec fn enqueued(store: JobStoreView, job: JobView) -> JobStoreView {
    JobStoreView {
        jobs: store.jobs.insert(job.job_id, job),
        pending_job_ids: store.pending_job_ids.push(job.job_id),
    }
}

/// The hyphenated text of a version 7 UUID: 36 lowercase hexadecimal digits
/// and hyphens, the hyphens after the 8th, 12th, 16th and 20th digit, and the
/// version digit `7` first in the third group.
pub open spec fn is_uuid_v7_text(s: Seq<char>) -> bool {
    &&& s.len() == 36
    &&& forall|i: int|
        0 <= i < 36 ==> if i == 8 || i == 13 || i == 18 || i == 23 {
            #[trigger] s[i] == '-'
        } else {
            ('0' <= s[i] <= '9') || ('a' <= s[i] <= 'f')
        }
    &&& s[14] == '7'
}

/// `Uuid::now_v7()` written with `to_string`: a fresh identifier made from the
/// clock and random bits. Only its shape is stated, which its `Display`
/// implementation (lower-case hyphenated form) fixes for every outcome.
#[verifier::external_body]
fn new_job_id() -> (id: String)
    ensures
        is_uuid_v7_text(id@),
{
    uuid::Uuid::now_v7().to_string()
}

/// `Clone` of a JSON value: serde_json derives it, so the copy equals the value copied.
#[verifier::external_body]
fn clone_json(value: &serde_json::Value) -> (copy: serde_json::Value)
    ensures
        copy == *value,
{
    value.clone()
}

/// Builds and validates the graph of a submission; a refused submission is
/// answered with its message as an invalid graph.
pub fn accept_graph(request: CreateJobRequest) -> (result: Result<TaskGraph, ApiError>)
    requires
        arguments_named_once(request.tasks@),
    ensures
        match result {
            Ok(graph) => submission_error(request.tasks@, request.outputs.deep_view()) is None
                && graph@ == (GraphSpec { tasks: request.tasks@, outputs: request.outputs.deep_view() })
                && graph@.validation_error() is None && graph@.has_topological_order(),
            Err(ApiError::InvalidGraph(message)) => submission_error(request.tasks@, request.outputs.deep_view())
                == Some(message@),
            Err(_) => false,
        },
{
    let ghost tasks = request.tasks@;
    let ghost ids = tasks.map_values(|t: TaskDefinition| t.id@);
    let graph = match TaskGraph::new(request.tasks, request.outputs) {
        Ok(graph) => graph,
        Err(message) => {
            proof {
                let j = choose|j: int| first_repeat(ids, j) && message@ == "Duplicate task id: "@ + tasks[j].id@;
                let j2 = choose|j: int| first_repeat(ids, j);
                if j2 < j {
                    assert(ids.take(j)[j2] == ids[j2]);
                    let y = choose|y: int| 0 <= y < j2 && ids.take(j2)[y] == ids[j2];
                    assert(ids.take(j)[y] == ids.take(j)[j2]);
                } else if j < j2 {
                    assert(ids.take(j2)[j] == ids[j]);
                    let y = choose|y: int| 0 <= y < j && ids.take(j)[y] == ids[j];
                    assert(ids.take(j2)[y] == ids.take(j2)[j]);
                }
            }
            return Err(ApiError::InvalidGraph(message));
        },
    };
    match graph.validate() {
        Ok(()) => {
            proof {
                law_accepted_graphs_can_run(graph@);
            }
            Ok(graph)
        },
        Err(message) => Err(ApiError::InvalidGraph(message)),
    }
}

/// A queued job for `graph` under the identifier `job_id`.
pub fn assemble_job(graph: TaskGraph, job_id: String) -> (job: Job)
    ensures
        job.wf(),
        job@ == queued_job(graph@, job_id@),
{
    let scheduler = Scheduler::new(&graph);
    Job { job_id, graph, status: JobStatus::Queued, result: None, error: None, scheduler }
}

/// Accepts a submission as a new queued job under a fresh identifier.
pub fn prepare_job(request: CreateJobRequest) -> (result: Result<Job, ApiError>)
    requires
        arguments_named_once(request.tasks@),
    ensures
        match result {
            Ok(job) => {
                &&& submission_error(request.tasks@, request.outputs.deep_view()) is None
                &&& is_uuid_v7_text(job.job_id@)
                &&& job.wf()
                &&& job@ == queued_job(
                    GraphSpec { tasks: request.tasks@, outputs: request.outputs.deep_view() },
                    job.job_id@,
                )
            },
            Err(ApiError::InvalidGraph(message)) => submission_error(request.tasks@, request.outputs.deep_view())
                == Some(message@),
            Err(_) => false,
        },
{
    let graph = match accept_graph(request) {
        Ok(graph) => graph,
        Err(error) => return Err(error),
    };
    let job_id = new_job_id();
    Ok(assemble_job(graph, job_id))
}

/// Stores a prepared job and queues it for execution.
pub fn enqueue_job(store: &mut JobStore, job: Job) -> (response: CreateJobResponse)
    requires
        old(store).wf(),
    ensures
        final(store).wf(),
        final(store)@ == enqueued(old(store)@, job@),
        response.job_id@ == job.job_id@,
        response.status == job.status,
{
    let response = CreateJobResponse { job_id: job.job_id.clone(), status: job.status };
    store.submit(job);
    response
}

/// Looks up a job; unknown identifiers are answered with `JobNotFound`.
pub fn get_job_status(store: &JobStore, job_id: &str) -> (result: Result<JobResponse, ApiError>)
    requires
        store.wf(),
    ensures
        match result {
            Ok(response) => lookup(store@, job_id@) == Some(response_view(response)),
            Err(error) => lookup(store@, job_id@) is None && error is JobNotFound,
        },
{
    match store.job(job_id) {
        Some(job) => Ok(JobResponse::from(job)),
        None => Err(ApiError::JobNotFound),
    }
}

impl<'a> From<&'a Job> for JobResponse {
    fn from(job: &'a Job) -> (response: JobResponse) {
        let result = match &job.result {
            Some(value) => Some(clone_json(value)),
            None => None,
        };
        let error = match &job.error {
            Some(e) => Some(TaskError { code: e.code.clone(), message: e.message.clone() }),
            None => None,
        };
        JobResponse { job_id: job.job_id.clone(), status: job.status, result, error }
    }
}

impl<'a> vstd::std_specs::convert::FromSpecImpl<&'a Job> for JobResponse {
    open spec fn obeys_from_spec() -> bool {
        true
    }

    open spec fn from_spec(job: &'a Job) -> JobResponse {
        JobResponse { job_id: job.job_id, status: job.status, result: job.result, error: job.error }
    }
}


/// Law: a submission is accepted only when its graph keeps every rule: the
/// task identifiers are distinct, there is a task and a requested output, no
/// task at any position has a blank identifier or function name, every
/// reference and every requested output names a defined task, and the tasks
/// can run one after another with every prerequisite first. A submission with
/// distinct identifiers is refused with exactly its graph's validation message,
/// and one with a repeated identifier is refused.
pub proof fn law_accepted_submissions_are_valid(g: GraphSpec)
    ensures
        submission_error(g.tasks, g.outputs) is None ==> {
            &&& g.ids().no_duplicates()
            &&& g.validation_error() is None
            &&& g.tasks.len() > 0
            &&& g.outputs.len() > 0
            &&& forall|i: int|
                0 <= i < g.tasks.len() ==> !is_blank(#[trigger] g.tasks[i].id@) && !is_blank(g.tasks[i].function@)
            &&& forall|i: int, k: int| !#[trigger] g.is_missing_reference(i, k)
            &&& forall|o: int| 0 <= o < g.outputs.len() ==> g.has_task(#[trigger] g.outputs[o])
            &&& g.has_topological_order()
        },
        g.ids().no_duplicates() ==> submission_error(g.tasks, g.outputs) == g.validation_error(),
        !g.ids().no_duplicates() ==> submission_error(g.tasks, g.outputs) is Some,
{
    let h = GraphSpec { tasks: g.tasks, outputs: g.outputs };
    assert(h == g);
    assert(g.ids() == g.tasks.map_values(|t: TaskDefinition| t.id@));
    if submission_error(g.tasks, g.outputs) is None {
        law_accepted_graphs_can_run(g);
    }
}

/// Law: a lookup returns what was last stored under the identifier, and
/// storing a job leaves the lookups of every other identifier unchanged.
pub proof fn law_stored_job_reads_back(store: JobStoreView, job: JobView, other: Seq<char>)
    ensures
        lookup(enqueued(store, job), job.job_id) == Some(response_of(job)),
        other != job.job_id ==> lookup(enqueued(store, job), other) == lookup(store, other),
{
}

/// Law: an accepted job reads back as queued, with neither result nor error.
pub proof fn law_accepted_job_reads_back_queued(store: JobStoreView, graph: GraphSpec, job_id: Seq<char>)
    ensures
        lookup(enqueued(store, queued_job(graph, job_id)), job_id) == Some(
            (job_id, JobStatus::Queued, None::<serde_json::Value>, None::<(Seq<char>, Seq<char>)>),
        ),
{
}

} // verus!
