//! Verified core of a kanban-board backend.
//!
//! Boards hold display-ordered columns; tasks within a column form a
//! singly-linked sequence through their `above_task_id` back-references.
//! This crate models the records, groups tasks by column, rebuilds each
//! column's order from the back-references (tolerating cycles, dangling
//! links and multiple roots), assigns dense positions, and encodes and
//! decodes the stored document shape.  The surrounding HTTP and storage
//! plumbing lives outside the library and only exchanges plain values
//! with it.

pub mod board;
pub mod codec;
pub mod config;
pub mod dto;
pub mod error;
pub mod hierarchy;
pub mod ids;
pub mod service;
pub mod task;
pub mod txn;
