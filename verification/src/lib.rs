//! Task record engine of a personal task-list manager: the line format of
//! the task file, the rules applied when a task is created or edited, and
//! the queries that list and search a loaded collection.

pub mod config;
pub mod create;
pub mod date;
pub mod distance;
pub mod edit;
pub mod list;
pub mod rank;
pub mod record;
pub mod store;
pub mod task;
pub mod text;
