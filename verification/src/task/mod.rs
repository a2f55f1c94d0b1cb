pub mod manager;
pub mod sha;
pub mod task;
