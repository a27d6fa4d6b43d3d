//! Tasks and the stride scheduler.
pub mod manager;
pub mod task;
