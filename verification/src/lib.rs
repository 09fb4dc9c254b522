//! Core of a small personal task tracker: an in-memory key-value document
//! that callers persist as JSON, a task repository over that document, and
//! the refresh policy for a cached weather report.

pub mod codec;
pub mod greet;
pub mod repo;
pub mod store;
pub mod tasks;
pub mod text;
pub mod weather;
