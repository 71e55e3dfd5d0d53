//! Task records and their positioned output projection.

use vstd::prelude::*;

use crate::dto::CreateTaskRequest;
use crate::ids::{fresh_uuid, now_millis};

verus! {

/// A task as the store holds it.  Identifiers are the 128-bit values of
/// UUIDs; timestamps are milliseconds since the Unix epoch.
///
/// `above_task_id` optionally names the task immediately above this one in
/// the same column; `None` marks a candidate root of the column's chain.
#[derive(Clone, Debug, PartialEq)]
pub struct Task {
    pub id: u128,
    pub title: String,
    pub description: Option<String>,
    pub column_id: Option<u128>,
    pub above_task_id: Option<u128>,
    pub board_id: u128,
    pub created_at: i64,
    pub updated_at: Option<i64>,
}

/// A task together with its resolved zero-based position inside its column.
/// Never stored; built fresh on every read.
#[derive(Clone, Debug, PartialEq)]
pub struct SortedTask {
    pub id: u128,
    pub title: String,
    pub description: Option<String>,
    pub column_id: Option<u128>,
    pub above_task_id: Option<u128>,
    pub position: usize,
    pub board_id: u128,
    pub created_at: i64,
    pub updated_at: Option<i64>,
}

/// The positioned projection of `t` at `position`.
pub open spec fn sorted_task(t: Task, position: usize) -> SortedTask {
    SortedTask {
        id: t.id,
        title: t.title,
        description: t.description,
        column_id: t.column_id,
        above_task_id: t.above_task_id,
        position,
        board_id: t.board_id,
        created_at: t.created_at,
        updated_at: t.updated_at,
    }
}

/// The task underlying a positioned projection.
pub open spec fn task_of(st: SortedTask) -> Task {
    Task {
        id: st.id,
        title: st.title,
        description: st.description,
        column_id: st.column_id,
        above_task_id: st.above_task_id,
        board_id: st.board_id,
        created_at: st.created_at,
        updated_at: st.updated_at,
    }
}

impl Task {
    /// A new task for a create request: the request's fields, a fresh id,
    /// created now and never updated.
    pub fn from_request(r: CreateTaskRequest) -> (t: Task)
        ensures
            t.title == r.title,
            t.description == r.description,
            t.column_id == r.column_id,
            t.above_task_id == r.above_task_id,
            t.board_id == r.board_id,
            t.updated_at is None,
    {
        Task {
            id: fresh_uuid(),
            title: r.title,
            description: r.description,
            column_id: r.column_id,
            above_task_id: r.above_task_id,
            board_id: r.board_id,
            created_at: now_millis(),
            updated_at: None,
        }
    }

    /// An equal copy; proofs rely on this where `clone` gives them
    /// nothing.
    pub fn duplicate(&self) -> (r: Task)
        ensures
            r == *self,
    {
        Task {
            id: self.id,
            title: self.title.clone(),
            description: self.description.clone(),
            column_id: self.column_id,
            above_task_id: self.above_task_id,
            board_id: self.board_id,
            created_at: self.created_at,
            updated_at: self.updated_at,
        }
    }

    /// The positioned projection at the given index.
    pub fn to_sorted(&self, index: usize) -> (r: SortedTask)
        ensures
            r == sorted_task(*self, index),
    {
        SortedTask {
            id: self.id,
            title: self.title.clone(),
            description: self.description.clone(),
            column_id: self.column_id,
            above_task_id: self.above_task_id,
            position: index,
            board_id: self.board_id,
            created_at: self.created_at,
            updated_at: self.updated_at,
        }
    }
}

} // verus!
