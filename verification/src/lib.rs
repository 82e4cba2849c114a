//! A task-list library: a record model for tasks with calendar deadlines,
//! a stable field-keyed sorter, and a fixed-width bordered text table
//! format that the list is saved to and loaded from.
//!
//! The caller owns the task list and the file: it hands the list in for
//! sorting, and hands text in and out for loading and saving. Everything
//! with a contract lives here; reading and writing the file itself is
//! the caller's.

pub mod date;
pub mod sorting;
pub mod storage;
pub mod task;
pub mod text;
