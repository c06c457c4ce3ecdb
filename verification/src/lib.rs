//! Task graphs, their validation and a dependency-driven scheduler.

pub mod api;
pub mod graph;
pub mod jobs;
pub mod scheduler;
pub mod text_order;
