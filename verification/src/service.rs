//! The decisions at the storage edge: lookup outcomes, update
//! acknowledgments, and server-side update stamping.  The store calls
//! themselves happen outside the library and hand these functions plain
//! values.

use vstd::prelude::*;
use vstd::string::StringExecFns;

use crate::board::Board;
use crate::codec::{
    board_doc_ok, decoded_columns, decoded_task, doc_to_board, doc_to_task, opt_parsed,
    task_doc_ok, BoardDoc, TaskDoc,
};
use crate::error::{BoardRepoError, TaskRepoError};
use crate::ids::now_millis;
use crate::task::Task;

verus! {

/// Decide a single-task lookup: no document means the task was not found;
/// a document that does not decode surfaces its decode error.
pub fn task_from_lookup(found: Option<TaskDoc>) -> (r: Result<Task, TaskRepoError>)
    ensures
        found is None ==> r == Err::<Task, TaskRepoError>(TaskRepoError::NotFound),
        found matches Some(d) ==> {
            &&& (r is Ok <==> task_doc_ok(d))
            &&& (r is Ok ==> r->Ok_0 == decoded_task(d))
            &&& (r is Err ==> r->Err_0 matches TaskRepoError::DecodeError(_))
        },
{
    match found {
        Option::Some(d) => doc_to_task(&d),
        Option::None => Err(TaskRepoError::NotFound),
    }
}

/// Decide a single-board lookup: no document means the board was not
/// found; a document that does not decode surfaces its decode error.
pub fn board_from_lookup(found: Option<BoardDoc>) -> (r: Result<Board, BoardRepoError>)
    ensures
        found is None ==> r == Err::<Board, BoardRepoError>(BoardRepoError::NotFound),
        found matches Some(d) ==> {
            &&& (r is Ok <==> board_doc_ok(d))
            &&& (r is Ok ==> {
                let b = r->Ok_0;
                &&& b.id == opt_parsed(d.id)->0
                &&& b.title == d.title->0
                &&& b.description == d.description
                &&& b.columns@ == decoded_columns(d.columns@)
                &&& b.created_at == d.created_at->0
                &&& b.updated_at == d.updated_at
            })
            &&& (r is Err ==> r->Err_0 matches BoardRepoError::DecodeError(_))
        },
{
    match found {
        Option::Some(d) => doc_to_board(&d),
        Option::None => Err(BoardRepoError::NotFound),
    }
}

/// Decide a task update's acknowledgment: exactly one modified document
/// means success; anything else means the update did not apply.
pub fn task_update_outcome(modified_count: u64) -> (r: Result<(), TaskRepoError>)
    ensures
        r is Ok <==> modified_count == 1,
        r is Err ==> r->Err_0 matches TaskRepoError::InvalidTask(_),
{
    if modified_count == 1 {
        Ok(())
    } else {
        Err(TaskRepoError::InvalidTask(String::from_str("update modified no single task")))
    }
}

/// Decide a board update's acknowledgment: exactly one modified document
/// means success; anything else means the update did not apply.
pub fn board_update_outcome(modified_count: u64) -> (r: Result<(), BoardRepoError>)
    ensures
        r is Ok <==> modified_count == 1,
        r is Err ==> r->Err_0 matches BoardRepoError::InvalidBoard(_),
{
    if modified_count == 1 {
        Ok(())
    } else {
        Err(BoardRepoError::InvalidBoard(String::from_str("update modified no single board")))
    }
}

/// The task with its update stamp set to a time `ts`: every other field
/// unchanged.
pub open spec fn stamped(t: Task, ts: i64) -> Task {
    Task { updated_at: Some(ts), ..t }
}

/// Every task of `r` is the corresponding task of `tasks` stamped at `ts`.
pub open spec fn all_stamped(tasks: Seq<Task>, r: Seq<Task>, ts: i64) -> bool {
    &&& r.len() == tasks.len()
    &&& forall|i: int| 0 <= i < tasks.len() ==> #[trigger] r[i] == stamped(tasks[i], ts)
}

/// The task stamped with the present time, as every mutation stamps it
/// server-side, overriding any client-supplied value.
pub fn touched_task(task: &Task) -> (r: Task)
    ensures
        exists|ts: i64| r == stamped(*task, ts),
        r.updated_at is Some,
{
    let now = now_millis();
    let r = Task { updated_at: Some(now), ..task.duplicate() };
    proof {
        assert(r == stamped(*task, now));
    }
    r
}

/// The board stamped with the present time (column list unchanged).
pub fn touched_board(board: &Board) -> (r: Board)
    ensures
        r.id == board.id,
        r.title == board.title,
        r.description == board.description,
        r.columns@ == board.columns@,
        r.created_at == board.created_at,
        r.updated_at is Some,
{
    let now = now_millis();
    Board { updated_at: Some(now), ..board.duplicate() }
}

/// The whole batch stamped with one present time, as a bulk update stamps
/// every task it writes.
pub fn touch_all(tasks: &Vec<Task>) -> (r: Vec<Task>)
    ensures
        exists|ts: i64| all_stamped(tasks@, r@, ts),
{
    let now = now_millis();
    let n = tasks.len();
    let mut r: Vec<Task> = Vec::new();
    for i in 0..n
        invariant
            n == tasks@.len(),
            r@.len() == i,
            forall|j: int| 0 <= j < i ==> #[trigger] r@[j] == stamped(tasks@[j], now),
    {
        r.push(Task { updated_at: Some(now), ..tasks[i].duplicate() });
    }
    proof {
        assert(all_stamped(tasks@, r@, now));
    }
    r
}

/// The task moved into a column: every other field unchanged.
pub open spec fn recolumned(t: Task, column_id: u128) -> Task {
    Task { column_id: Some(column_id), ..t }
}

/// The batch of tasks reassigned into one column, as a column creation
/// reassigns the tasks handed to it.
pub fn assign_tasks_to_column(tasks: &Vec<Task>, column_id: u128) -> (r: Vec<Task>)
    ensures
        r@.len() == tasks@.len(),
        forall|i: int| 0 <= i < tasks@.len() ==> #[trigger] r@[i] == recolumned(tasks@[i], column_id),
{
    let n = tasks.len();
    let mut r: Vec<Task> = Vec::new();
    for i in 0..n
        invariant
            n == tasks@.len(),
            r@.len() == i,
            forall|j: int| 0 <= j < i ==> #[trigger] r@[j] == recolumned(tasks@[j], column_id),
    {
        r.push(Task { column_id: Some(column_id), ..tasks[i].duplicate() });
    }
    r
}

} // verus!
