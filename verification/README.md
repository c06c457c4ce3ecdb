# shardwise

The core of a small job coordinator: clients submit graphs of tasks, the
coordinator validates them, stores them as queued jobs, and a scheduler hands
out each task once all of its prerequisites have succeeded.

- `src/graph.rs` — task definitions, the task graph with its two dependency
  indexes, validation (including cycle detection by Kahn's algorithm) and the
  text drawing of a graph.
- `src/scheduler.rs` — the per-job scheduler, its mathematical model
  (`SchedulerView` and the step functions) and the laws it obeys.
- `src/jobs.rs`, `src/api.rs` — the job store and the operations behind the
  HTTP routes: accepting a submission, looking a job up, error envelopes.
- `src/text_order.rs` — the ordering of names used for stable drawings.
- `app/` — the HTTP server (axum, tokio) and the JSON forms of the types.

Everything under `src/` is verified with Verus, except what a few trusted
items say of the outside code they call; their contracts are believed, not
proved:

- `escape_debug` (`str::escape_debug`), whose text is named `escape_debug_text`;
- `render_flowchart` (mermaid-text's Sugiyama layout and renderer), whose text
  is named `flowchart_text`;
- `new_job_id` (`uuid::Uuid::now_v7`, written as text), of which only the
  shape of the text is stated;
- `clone_json` (`Clone` of `serde_json::Value`);
- the declaration of the type `serde_json::Value`.
