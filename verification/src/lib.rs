//! A small task-list library: an ordered store of tasks with one level of
//! sub-tasks, completion that cascades from a main task to its sub-tasks,
//! cascading removal, and a comma-separated line format for persistence.

pub mod digits;
pub mod store;
pub mod task;
