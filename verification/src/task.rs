//! Tasks, their saved contexts and the schedulers.

pub mod context;
pub mod manager;
pub mod priority_queue;
pub mod scheduler;
pub mod stride;
pub mod task;
