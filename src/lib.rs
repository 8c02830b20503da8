//! Dependency-aware transaction ordering: local conflict DAGs, quorum-voted
//! global DAGs, cycle pruning, missed-edge tracking and DAG-ordered execution.

pub mod access;
pub mod dag;
pub mod local_dag;
pub mod global_dag;
pub mod prune;
pub mod missing_edges;
pub mod execution_queue;
pub mod executor;
pub mod global_order_maker;
pub mod codec;
pub mod small_bank;
pub mod batch_maker;
pub mod debug_timer;
pub mod global_order_processor;
pub mod coordinator;

pub use crate::debug_timer::add;
