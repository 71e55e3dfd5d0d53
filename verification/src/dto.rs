//! Request and response shapes exchanged with the HTTP layer.

use vstd::prelude::*;

use crate::board::BoardColumn;
use crate::task::{SortedTask, Task};

verus! {

/// The envelope every endpoint answers with.
#[derive(Clone, Debug, PartialEq)]
pub struct Response<T> {
    pub success: bool,
    pub data: Option<T>,
    pub error_message: Option<String>,
}

impl<T> Response<T> {
    /// The success envelope carrying a payload.
    pub fn ok(data: T) -> (r: Response<T>)
        ensures
            r.success,
            r.data == Some(data),
            r.error_message is None,
    {
        Response { success: true, data: Some(data), error_message: None }
    }

    /// The failure envelope carrying a message.
    pub fn failure(message: String) -> (r: Response<T>)
        ensures
            !r.success,
            r.data is None,
            r.error_message == Some(message),
    {
        Response { success: false, data: None, error_message: Some(message) }
    }
}

/// A client's request to create a task.
#[derive(Clone, Debug, PartialEq)]
pub struct CreateTaskRequest {
    pub title: String,
    pub description: Option<String>,
    pub column_id: Option<u128>,
    pub above_task_id: Option<u128>,
    pub board_id: u128,
}

/// A client's request to create a board.
#[derive(Clone, Debug, PartialEq)]
pub struct CreateBoardRequest {
    pub title: String,
    pub description: Option<String>,
}

/// A client's full-document replacement of a board.
#[derive(Clone, Debug, PartialEq)]
pub struct UpdateBoardRequest {
    pub id: u128,
    pub title: String,
    pub description: Option<String>,
    pub columns: Vec<UpdateBoardRequestColumn>,
    pub created_at: i64,
    pub updated_at: Option<i64>,
}

/// One column inside a board update; a column without an id is new.
#[derive(Clone, Debug, PartialEq)]
pub struct UpdateBoardRequestColumn {
    pub id: Option<u128>,
    pub name: String,
    pub created_at: Option<i64>,
    pub updated_at: Option<i64>,
}

/// A client's request to add a column to a board, optionally moving a
/// batch of tasks into it.  `was_unassigned` signals that the batch held
/// the board's unassigned tasks, which places the column at the front.
#[derive(Clone, Debug, PartialEq)]
pub struct CreateBoardColumnRequest {
    pub title: String,
    pub items: Vec<Task>,
    pub was_unassigned: Option<bool>,
}

/// The answer to a column creation: the new column and the reassigned
/// tasks in their resolved order.
#[derive(Clone, Debug, PartialEq)]
pub struct CreateBoardColumnResponse {
    pub column: BoardColumn,
    pub items: Vec<SortedTask>,
}

} // verus!
