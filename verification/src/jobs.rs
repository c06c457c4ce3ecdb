//! Submitted jobs and the store that keeps them.

use vstd::prelude::*;
use crate::graph::{lemma_index_of_distinct, GraphSpec, TaskGraph};
use crate::scheduler::{Scheduler, SchedulerView};
use std::collections::VecDeque;

verus! {

/// Where a job stands.
#[derive(PartialEq, Eq, Structural, Clone, Copy, Debug)]
pub enum JobStatus {
    Queued,
}

/// Why a task of a job failed.
pub struct TaskError {
    pub code: String,
    pub message: String,
}

/// The text of an optional task error.
pub open spec fn error_view(error: Option<TaskError>) -> Option<(Seq<char>, Seq<char>)> {
    match error {
        Some(e) => Some((e.code@, e.message@)),
        None => None,
    }
}

/// A job: its graph, its status and outcome, and the scheduler that runs it.
pub struct Job {
    pub job_id: String,
    pub graph: TaskGraph,
    pub status: JobStatus,
    pub result: Option<serde_json::Value>,
    pub error: Option<TaskError>,
    pub scheduler: Scheduler,
}

/// The mathematical content of a job.
pub struct JobView {
    pub job_id: Seq<char>,
    pub graph: GraphSpec,
    pub status: JobStatus,
    pub result: Option<serde_json::Value>,
    pub error: Option<(Seq<char>, Seq<char>)>,
    pub scheduler: SchedulerView,
}

impl View for Job {
    type V = JobView;

    open spec fn view(&self) -> JobView {
        JobView {
            job_id: self.job_id@,
            graph: self.graph@,
            status: self.status,
            result: self.result,
            error: error_view(self.error),
            scheduler: self.scheduler@,
        }
    }
}

impl Job {
    /// The job's scheduler runs the job's graph.
    pub open spec fn wf(&self) -> bool {
        &&& self.scheduler.wf()
        &&& self.scheduler.source() == self.graph@
    }
}

/// The jobs by identifier, and the identifiers of submitted jobs in order.
pub struct JobStoreView {
    pub jobs: Map<Seq<char>, JobView>,
    pub pending_job_ids: Seq<Seq<char>>,
}

/// All jobs and the queue of jobs waiting to run.
pub struct JobStore {
    jobs: Vec<Job>,
    pending_job_ids: VecDeque<String>,
}

impl View for JobStore {
    type V = JobStoreView;

    closed spec fn view(&self) -> JobStoreView {
        JobStoreView {
            jobs: Map::new(
                |id: Seq<char>| self.job_ids().contains(id),
                |id: Seq<char>| self.jobs@[self.job_ids().index_of(id)]@,
            ),
            pending_job_ids: self.pending_job_ids@.map_values(|id: String| id@),
        }
    }
}

impl JobStore {
    closed spec fn job_ids(&self) -> Seq<Seq<char>> {
        self.jobs@.map_values(|job: Job| job.job_id@)
    }

    /// No two stored jobs share an identifier.
    pub closed spec fn wf(&self) -> bool {
        self.job_ids().no_duplicates()
    }

    /// An empty store.
    pub fn new() -> (store: JobStore)
        ensures
            store.wf(),
            store@.jobs == Map::<Seq<char>, JobView>::empty(),
            store@.pending_job_ids == Seq::<Seq<char>>::empty(),
    {
        let store = JobStore { jobs: Vec::new(), pending_job_ids: VecDeque::new() };
        assert(store@.jobs =~= Map::<Seq<char>, JobView>::empty());
        assert(store@.pending_job_ids =~= Seq::<Seq<char>>::empty());
        store
    }

    /// The job named `job_id`, if the store has one.
    pub fn job(&self, job_id: &str) -> (job: Option<&Job>)
        requires
            self.wf(),
        ensures
            match job {
                Some(job) => self@.jobs.contains_key(job_id@) && job@ == self@.jobs[job_id@],
                None => !self@.jobs.contains_key(job_id@),
            },
    {
        let n = self.jobs.len();
        let mut i: usize = 0;
        while i < n
            invariant
                n == self.jobs@.len(),
                self.wf(),
                i <= n,
                forall|k: int| 0 <= k < i ==> self.job_ids()[k] != job_id@,
            decreases n - i,
        {
            if same_text(self.jobs[i].job_id.as_str(), job_id) {
                proof {
                    assert(self.job_ids()[i as int] == job_id@);
                    lemma_index_of_distinct(self.job_ids(), i as int);
                }
                return Some(&self.jobs[i]);
            }
            i = i + 1;
        }
        None
    }

    /// The identifiers of the jobs waiting to run, in submission order.
    pub fn pending_job_ids(&self) -> (ids: Vec<String>)
        ensures
            ids.deep_view() == self@.pending_job_ids,
    {
        let mut ids: Vec<String> = Vec::new();
        let n = self.pending_job_ids.len();
        for k in 0..n
            invariant
                n == self.pending_job_ids@.len(),
                ids.deep_view() == self@.pending_job_ids.take(k as int),
        {
            let ghost before = ids.deep_view();
            let id = self.pending_job_ids[k].clone();
            ids.push(id);
            assert(ids.deep_view() =~= before.push(self.pending_job_ids@[k as int]@));
            assert(ids.deep_view() =~= self@.pending_job_ids.take(k + 1));
        }
        assert(self@.pending_job_ids.take(n as int) =~= self@.pending_job_ids);
        ids
    }

    /// The number of stored jobs.
    pub fn job_count(&self) -> (count: usize)
        requires
            self.wf(),
        ensures
            count == self@.jobs.dom().len(),
    {
        proof {
            self.job_ids().unique_seq_to_set();
            assert(self@.jobs.dom() =~= self.job_ids().to_set());
        }
        self.jobs.len()
    }

    /// Stores `job` under its identifier, replacing a job stored under the
    /// same identifier, and queues the identifier.
    pub fn submit(&mut self, job: Job)
        requires
            old(self).wf(),
        ensures
            final(self).wf(),
            final(self)@.jobs == old(self)@.jobs.insert(job.job_id@, job@),
            final(self)@.pending_job_ids == old(self)@.pending_job_ids.push(job.job_id@),
    {
        let ghost before = self@;
        let ghost ids = self.job_ids();
        let ghost entry = job@;
        let ghost old_jobs = self.jobs@;
        let queued = job.job_id.clone();
        let n = self.jobs.len();
        let mut i: usize = 0;
        while i < n && !(self.jobs[i].job_id == job.job_id)
            invariant
                n == self.jobs@.len(),
                i <= n,
                forall|k: int| 0 <= k < i ==> ids[k] != job.job_id@,
                ids == self.job_ids(),
            decreases n - i,
        {
            i = i + 1;
        }
        if i < n {
            self.jobs.set(i, job);
            proof {
                assert(self.job_ids() =~= ids);
                assert(ids[i as int] == entry.job_id);
                lemma_index_of_distinct(ids, i as int);
                assert(self@.jobs =~= before.jobs.insert(entry.job_id, entry)) by {
                    assert forall|x: Seq<char>| #[trigger] self@.jobs.contains_key(x) implies self@.jobs[x]
                        == before.jobs.insert(entry.job_id, entry)[x] by {
                        let k = ids.index_of(x);
                        assert(0 <= k < ids.len() && ids[k] == x);
                    }
                }
            }
        } else {
            self.jobs.push(job);
            proof {
                assert(self.job_ids() =~= ids.push(entry.job_id));
                assert(!ids.contains(entry.job_id));
                assert forall|x: Seq<char>| #[trigger] ids.contains(x) implies self.job_ids().index_of(x) == ids.index_of(x) by {
                    let k = ids.index_of(x);
                    let k2 = self.job_ids().index_of(x);
                    assert(0 <= k < ids.len() && ids[k] == x);
                    assert(self.job_ids()[k] == x);
                    assert(0 <= k2 < self.job_ids().len() && self.job_ids()[k2] == x);
                }
                assert(self.job_ids()[n as int] == entry.job_id);
                lemma_index_of_distinct(self.job_ids(), n as int);
                assert(self@.jobs.dom() =~= before.jobs.dom().insert(entry.job_id)) by {
                    assert forall|x: Seq<char>| #[trigger] self.job_ids().contains(x) <==> (ids.contains(x) || x == entry.job_id) by {
                        if self.job_ids().contains(x) {
                            let k = choose|k: int| 0 <= k < self.job_ids().len() && self.job_ids()[k] == x;
                            if k < n {
                                assert(ids[k] == x);
                            }
                        }
                        if ids.contains(x) {
                            let k = choose|k: int| 0 <= k < ids.len() && ids[k] == x;
                            assert(self.job_ids()[k] == x);
                        }
                    }
                }
                assert(self@.jobs =~= before.jobs.insert(entry.job_id, entry)) by {
                    assert forall|x: Seq<char>| #[trigger] self@.jobs.contains_key(x) implies self@.jobs[x]
                        == before.jobs.insert(entry.job_id, entry)[x] by {
                        if x != entry.job_id {
                            assert(self.job_ids().contains(x));
                            let k = self.job_ids().index_of(x);
                            assert(0 <= k < self.job_ids().len() && self.job_ids()[k] == x);
                            assert(k != n);
                            assert(ids[k] == x);
                            lemma_index_of_distinct(ids, k);
                            assert(self.jobs@[k] == old_jobs[k]);
                            assert(before.jobs[x] == old_jobs[k]@);
                        } else {
                            assert(self.jobs@[n as int]@ == entry);
                        }
                    }
                }
            }
        }
        let ghost queue_before = self.pending_job_ids@.map_values(|id: String| id@);
        self.pending_job_ids.push_back(queued);
        proof {
            assert(self@.pending_job_ids =~= queue_before.push(entry.job_id));
        }
    }
}

impl Default for JobStore {
    /// An empty store.
    fn default() -> (store: JobStore)
        ensures
            store.wf(),
            store@.jobs == Map::<Seq<char>, JobView>::empty(),
            store@.pending_job_ids == Seq::<Seq<char>>::empty(),
    {
        JobStore::new()
    }
}

/// Whether two texts are equal.
fn same_text(a: &str, b: &str) -> (equal: bool)
    ensures
        equal == (a@ == b@),
{
    let x = a.to_owned();
    let y = b.to_owned();
    x == y
}

} // verus!
