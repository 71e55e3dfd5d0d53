//! Boards and their display-ordered columns.

use vstd::prelude::*;

use crate::dto::{CreateBoardColumnRequest, CreateBoardRequest, UpdateBoardRequest};
use crate::error::AppError;
use crate::ids::{fresh_uuid, now_millis};
use crate::task::Task;

verus! {

/// A named lane within a board.  It lives only inside its board's column
/// list; deleting it cascades to the deletion of its tasks.
#[derive(Clone, Debug, PartialEq)]
pub struct BoardColumn {
    pub id: u128,
    pub name: String,
    pub created_at: i64,
    pub updated_at: Option<i64>,
}

/// A board: a named, display-ordered collection of columns.  The column
/// order is mutated only by explicit insert and delete operations, never
/// re-sorted.
#[derive(Clone, Debug, PartialEq)]
pub struct Board {
    pub id: u128,
    pub title: String,
    pub description: Option<String>,
    pub columns: Vec<BoardColumn>,
    pub created_at: i64,
    pub updated_at: Option<i64>,
}

impl BoardColumn {
    /// An equal copy of this column.  Verified code uses this in place of
    /// `clone`, whose derived impl Verus does not read.
    pub fn duplicate(&self) -> (r: BoardColumn)
        ensures
            r == *self,
    {
        BoardColumn {
            id: self.id,
            name: self.name.clone(),
            created_at: self.created_at,
            updated_at: self.updated_at,
        }
    }
}

/// An equal copy of a column list.
fn duplicate_columns(columns: &Vec<BoardColumn>) -> (r: Vec<BoardColumn>)
    ensures
        r@ == columns@,
{
    let n = columns.len();
    let mut r: Vec<BoardColumn> = Vec::new();
    for i in 0..n
        invariant
            n == columns@.len(),
            r@ == columns@.take(i as int),
    {
        r.push(columns[i].duplicate());
        proof {
            assert(columns@.take(i + 1) =~= columns@.take(i as int).push(columns@[i as int]));
        }
    }
    proof {
        assert(columns@.take(n as int) =~= columns@);
    }
    r
}

impl Board {
    /// A copy of this board, equal field by field (the column list by its
    /// contents).
    pub fn duplicate(&self) -> (r: Board)
        ensures
            r.id == self.id,
            r.title == self.title,
            r.description == self.description,
            r.columns@ == self.columns@,
            r.created_at == self.created_at,
            r.updated_at == self.updated_at,
    {
        Board {
            id: self.id,
            title: self.title.clone(),
            description: self.description.clone(),
            columns: duplicate_columns(&self.columns),
            created_at: self.created_at,
            updated_at: self.updated_at,
        }
    }

    /// A new board for a create request: the request's title and
    /// description, a fresh id, no columns yet, created now and never
    /// updated.
    pub fn from_create_request(r: CreateBoardRequest) -> (b: Board)
        ensures
            b.title == r.title,
            b.description == r.description,
            b.columns@ == Seq::<BoardColumn>::empty(),
            b.updated_at is None,
    {
        Board {
            id: fresh_uuid(),
            title: r.title,
            description: r.description,
            columns: Vec::new(),
            created_at: now_millis(),
            updated_at: None,
        }
    }

    /// The board an update request describes: the request's own fields,
    /// each column keeping its id and creation time where given (a column
    /// without an id is new and receives a fresh one; one without a
    /// creation time is stamped with the present), and `updated_at` set
    /// server-side, overriding any client-supplied value.
    pub fn from_update_request(r: UpdateBoardRequest) -> (b: Board)
        ensures
            b.id == r.id,
            b.title == r.title,
            b.description == r.description,
            b.created_at == r.created_at,
            b.updated_at is Some,
            b.columns@.len() == r.columns@.len(),
            forall|i: int|
                0 <= i < r.columns@.len() ==> {
                    let c = #[trigger] r.columns@[i];
                    let bc = b.columns@[i];
                    &&& bc.name == c.name
                    &&& bc.updated_at == c.updated_at
                    &&& (c.id is Some ==> bc.id == c.id->0)
                    &&& (c.created_at is Some ==> bc.created_at == c.created_at->0)
                },
    {
        let current_time = now_millis();
        let n = r.columns.len();
        let mut columns: Vec<BoardColumn> = Vec::new();
        for i in 0..n
            invariant
                n == r.columns@.len(),
                columns@.len() == i,
                forall|j: int|
                    0 <= j < i ==> {
                        let c = #[trigger] r.columns@[j];
                        let bc = columns@[j];
                        &&& bc.name == c.name
                        &&& bc.updated_at == c.updated_at
                        &&& (c.id is Some ==> bc.id == c.id->0)
                        &&& (c.created_at is Some ==> bc.created_at == c.created_at->0)
                    },
        {
            let c = &r.columns[i];
            let id = match c.id {
                Option::Some(v) => v,
                Option::None => fresh_uuid(),
            };
            let created_at = match c.created_at {
                Option::Some(t) => t,
                Option::None => current_time,
            };
            columns.push(
                BoardColumn { id, name: c.name.clone(), created_at, updated_at: c.updated_at },
            );
        }
        Board {
            id: r.id,
            title: r.title,
            description: r.description,
            columns,
            created_at: r.created_at,
            updated_at: Some(current_time),
        }
    }

    /// The same board with its column list replaced.
    pub fn with_updated_columns(self, new_columns: Vec<BoardColumn>) -> (b: Board)
        ensures
            b.id == self.id,
            b.title == self.title,
            b.description == self.description,
            b.created_at == self.created_at,
            b.updated_at == self.updated_at,
            b.columns == new_columns,
    {
        Board { columns: new_columns, ..self }
    }
}

/// Place a new column into a board's column list: at the front when the
/// caller signals that the board's tasks were until now unassigned, at
/// the end otherwise.  Existing columns keep their order.
pub fn merge_columns(
    items: &Vec<BoardColumn>,
    new_column: BoardColumn,
    was_unassigned: Option<bool>,
) -> (r: Vec<BoardColumn>)
    ensures
        was_unassigned == Some(true) ==> r@ == seq![new_column] + items@,
        was_unassigned != Some(true) ==> r@ == items@ + seq![new_column],
{
    let front = match was_unassigned {
        Option::Some(true) => true,
        _ => false,
    };
    let ghost new_col = new_column;
    let mut all: Vec<BoardColumn> = Vec::new();
    if front {
        all.push(new_column);
        let n = items.len();
        for i in 0..n
            invariant
                n == items@.len(),
                all@ == seq![new_col] + items@.take(i as int),
        {
            all.push(items[i].duplicate());
            proof {
                assert(items@.take(i + 1) =~= items@.take(i as int).push(items@[i as int]));
                assert(seq![new_col] + items@.take(i + 1) =~= (seq![new_col] + items@.take(
                    i as int,
                )).push(items@[i as int]));
            }
        }
        proof {
            assert(items@.take(n as int) =~= items@);
        }
    } else {
        let n = items.len();
        for i in 0..n
            invariant
                n == items@.len(),
                all@ == items@.take(i as int),
        {
            all.push(items[i].duplicate());
            proof {
                assert(items@.take(i + 1) =~= items@.take(i as int).push(items@[i as int]));
            }
        }
        all.push(new_column);
        proof {
            assert(items@.take(n as int) =~= items@);
            assert(all@ =~= items@ + seq![new_col]);
        }
    }
    all
}

/// Create the column a request describes and place it in the board's
/// list, per `merge_columns`.  This step always succeeds; the `Result`
/// mirrors the storage-facing callers, which fail only on store errors.
pub fn create_and_add_column_to(board: Board, request: CreateBoardColumnRequest) -> (r: Result<
    (Board, BoardColumn),
    AppError,
>)
    ensures
        r is Ok,
        ({
            let (b, col) = r->Ok_0;
            &&& col.name == request.title
            &&& col.updated_at == Some(col.created_at)
            &&& b.id == board.id
            &&& b.title == board.title
            &&& b.description == board.description
            &&& b.created_at == board.created_at
            &&& b.updated_at == board.updated_at
            &&& (request.was_unassigned == Some(true) ==> b.columns@ == seq![col]
                + board.columns@)
            &&& (request.was_unassigned != Some(true) ==> b.columns@ == board.columns@
                + seq![col])
        }),
{
    let now = now_millis();
    let column_id = fresh_uuid();
    let new_column = BoardColumn {
        id: column_id,
        name: request.title,
        created_at: now,
        updated_at: Some(now),
    };
    let updated_columns = merge_columns(&board.columns, new_column.duplicate(), request.was_unassigned);
    Ok((board.with_updated_columns(updated_columns), new_column))
}

/// Remove the column with the given id from the board's list, by identity
/// equality; a missing id leaves the board unchanged rather than failing.
pub fn filter_column_from(board: Board, column_id: u128) -> (b: Board)
    ensures
        b.id == board.id,
        b.title == board.title,
        b.description == board.description,
        b.created_at == board.created_at,
        b.updated_at == board.updated_at,
        b.columns@ == board.columns@.filter(|c: BoardColumn| c.id != column_id),
{
    let n = board.columns.len();
    let mut kept: Vec<BoardColumn> = Vec::new();
    for i in 0..n
        invariant
            n == board.columns@.len(),
            kept@ == board.columns@.take(i as int).filter(|c: BoardColumn| c.id != column_id),
    {
        if board.columns[i].id != column_id {
            kept.push(board.columns[i].duplicate());
        }
        proof {
            reveal_with_fuel(Seq::<BoardColumn>::filter, 2);
            let s1 = board.columns@.take(i + 1);
            let s0 = board.columns@.take(i as int);
            assert(s1.drop_last() =~= s0);
            assert(s1.last() == board.columns@[i as int]);
        }
    }
    proof {
        assert(board.columns@.take(n as int) =~= board.columns@);
    }
    Board { columns: kept, ..board }
}

/// The tasks that survive a column's cascading delete: exactly those not
/// assigned to that column.
pub fn remove_tasks_of_column(tasks: &Vec<Task>, column_id: u128) -> (r: Vec<Task>)
    ensures
        r@ == tasks@.filter(|t: Task| t.column_id != Some(column_id)),
{
    let n = tasks.len();
    let mut kept: Vec<Task> = Vec::new();
    for i in 0..n
        invariant
            n == tasks@.len(),
            kept@ == tasks@.take(i as int).filter(|t: Task| t.column_id != Some(column_id)),
    {
        let keep = match tasks[i].column_id {
            Option::Some(c) => c != column_id,
            Option::None => true,
        };
        if keep {
            kept.push(tasks[i].duplicate());
        }
        proof {
            reveal_with_fuel(Seq::<Task>::filter, 2);
            let s1 = tasks@.take(i + 1);
            let s0 = tasks@.take(i as int);
            assert(s1.drop_last() =~= s0);
            assert(s1.last() == tasks@[i as int]);
        }
    }
    proof {
        assert(tasks@.take(n as int) =~= tasks@);
    }
    kept
}

/// The pure effect of deleting a column: the board without that column,
/// and only the tasks of the other columns.  The two storage steps that
/// apply this (update the board, then delete the column's tasks) are not
/// wrapped in one transaction: a crash between them leaves the removed
/// column's tasks pointing at a column that no longer exists.
pub fn cascade_delete_column(board: Board, tasks: &Vec<Task>, column_id: u128) -> (r: (
    Board,
    Vec<Task>,
))
    ensures
        r.0.id == board.id,
        r.0.title == board.title,
        r.0.description == board.description,
        r.0.created_at == board.created_at,
        r.0.updated_at == board.updated_at,
        r.0.columns@ == board.columns@.filter(|c: BoardColumn| c.id != column_id),
        r.1@ == tasks@.filter(|t: Task| t.column_id != Some(column_id)),
{
    let filtered_board = filter_column_from(board, column_id);
    let remaining = remove_tasks_of_column(tasks, column_id);
    (filtered_board, remaining)
}

} // verus!
