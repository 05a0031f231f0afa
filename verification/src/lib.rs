//! A bounded task-execution engine and the merge sort of line records built on it.

pub mod order;
pub mod record;
pub mod merging;
pub mod insertion;
pub mod task;
pub mod queue;
pub mod pool;
pub mod lines;
pub mod sorter;
