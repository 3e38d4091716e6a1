//! Tasks and the scheduler.
pub mod task;
pub mod manager;
