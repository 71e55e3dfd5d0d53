//! The stored document shape, and the decoding and encoding of records.
//!
//! A stored document holds identifiers as canonical UUID strings and
//! timestamps as store-native datetime values, modelled here as
//! milliseconds since the Unix epoch; a field that is logically absent is
//! omitted (`None`) rather than stored as a null.  Decoding a single
//! record fails on a missing required field or an unparsable identifier;
//! while decoding a *list*, a record that fails to decode is omitted from
//! the result rather than aborting the whole listing (an intentional
//! best-effort read policy).

use vstd::prelude::*;
use vstd::string::StringExecFns;

use crate::board::{Board, BoardColumn};
use crate::error::{BoardRepoError, TaskRepoError};
use crate::ids::{parse_uuid, parsed_uuid, uuid_str, uuid_to_string};
use crate::task::Task;

verus! {

/// A task as one stored document.
#[derive(Clone, Debug, PartialEq)]
pub struct TaskDoc {
    pub id: Option<String>,
    pub title: Option<String>,
    pub description: Option<String>,
    pub column_id: Option<String>,
    pub above_task_id: Option<String>,
    pub board_id: Option<String>,
    pub created_at: Option<i64>,
    pub updated_at: Option<i64>,
}

/// A board column as one stored sub-document.
#[derive(Clone, Debug, PartialEq)]
pub struct ColumnDoc {
    pub id: Option<String>,
    pub name: Option<String>,
    pub created_at: Option<i64>,
    pub updated_at: Option<i64>,
}

/// A board as one stored document.
#[derive(Clone, Debug, PartialEq)]
pub struct BoardDoc {
    pub id: Option<String>,
    pub title: Option<String>,
    pub description: Option<String>,
    pub columns: Vec<ColumnDoc>,
    pub created_at: Option<i64>,
    pub updated_at: Option<i64>,
}

/// What an optional identifier field decodes to: `None` when absent or
/// unparsable.
pub open spec fn opt_parsed(s: Option<String>) -> Option<u128> {
    match s {
        Option::Some(st) => parsed_uuid(st@),
        Option::None => None,
    }
}

/// Whether a stored task document carries every required field, with
/// parsable identifiers.
pub open spec fn task_doc_ok(d: TaskDoc) -> bool {
    &&& opt_parsed(d.id) is Some
    &&& d.title is Some
    &&& opt_parsed(d.board_id) is Some
    &&& d.created_at is Some
}

/// The task a well-formed stored document decodes to.
pub open spec fn decoded_task(d: TaskDoc) -> Task
    recommends
        task_doc_ok(d),
{
    Task {
        id: opt_parsed(d.id)->0,
        title: d.title->0,
        description: d.description,
        column_id: opt_parsed(d.column_id),
        above_task_id: opt_parsed(d.above_task_id),
        board_id: opt_parsed(d.board_id)->0,
        created_at: d.created_at->0,
        updated_at: d.updated_at,
    }
}

/// Whether a stored column sub-document carries every required field.
pub open spec fn column_doc_ok(d: ColumnDoc) -> bool {
    &&& opt_parsed(d.id) is Some
    &&& d.name is Some
    &&& d.created_at is Some
}

/// The column a well-formed stored sub-document decodes to.
pub open spec fn decoded_column(d: ColumnDoc) -> BoardColumn
    recommends
        column_doc_ok(d),
{
    BoardColumn {
        id: opt_parsed(d.id)->0,
        name: d.name->0,
        created_at: d.created_at->0,
        updated_at: d.updated_at,
    }
}

/// The columns of a stored column list, with undecodable entries omitted.
pub open spec fn decoded_columns(ds: Seq<ColumnDoc>) -> Seq<BoardColumn>
    decreases ds.len(),
{
    if ds.len() == 0 {
        Seq::empty()
    } else {
        let rest = decoded_columns(ds.drop_last());
        if column_doc_ok(ds.last()) {
            rest.push(decoded_column(ds.last()))
        } else {
            rest
        }
    }
}

/// Whether a stored board document carries every required field.
pub open spec fn board_doc_ok(d: BoardDoc) -> bool {
    &&& opt_parsed(d.id) is Some
    &&& d.title is Some
    &&& d.created_at is Some
}

/// The tasks of a stored task document list, with undecodable entries
/// omitted.
pub open spec fn decoded_tasks(ds: Seq<TaskDoc>) -> Seq<Task>
    decreases ds.len(),
{
    if ds.len() == 0 {
        Seq::empty()
    } else {
        let rest = decoded_tasks(ds.drop_last());
        if task_doc_ok(ds.last()) {
            rest.push(decoded_task(ds.last()))
        } else {
            rest
        }
    }
}

/// An identifier field's value: `None` when the field is absent or does
/// not parse as a UUID.
pub fn get_optional_uuid(field: &Option<String>) -> (r: Option<u128>)
    ensures
        r == opt_parsed(*field),
{
    match field {
        Option::Some(s) => parse_uuid(s.as_str()),
        Option::None => None,
    }
}

/// Decode one stored task document.  Succeeds exactly when the document
/// has a parsable id, a title, a parsable board id and a creation time;
/// any other shape is a decode error.
pub fn doc_to_task(doc: &TaskDoc) -> (r: Result<Task, TaskRepoError>)
    ensures
        r is Ok <==> task_doc_ok(*doc),
        r is Ok ==> r->Ok_0 == decoded_task(*doc),
        r is Err ==> r->Err_0 matches TaskRepoError::DecodeError(_),
{
    let id = match get_optional_uuid(&doc.id) {
        Option::Some(v) => v,
        Option::None => {
            return Err(
                TaskRepoError::DecodeError(String::from_str("task document has no valid id")),
            );
        },
    };
    let title = match &doc.title {
        Option::Some(t) => t.clone(),
        Option::None => {
            return Err(
                TaskRepoError::DecodeError(String::from_str("task document has no title")),
            );
        },
    };
    let board_id = match get_optional_uuid(&doc.board_id) {
        Option::Some(v) => v,
        Option::None => {
            return Err(
                TaskRepoError::DecodeError(
                    String::from_str("task document has no valid board id"),
                ),
            );
        },
    };
    let created_at = match doc.created_at {
        Option::Some(t) => t,
        Option::None => {
            return Err(
                TaskRepoError::DecodeError(
                    String::from_str("task document has no creation time"),
                ),
            );
        },
    };
    Ok(
        Task {
            id,
            title,
            description: doc.description.clone(),
            column_id: get_optional_uuid(&doc.column_id),
            above_task_id: get_optional_uuid(&doc.above_task_id),
            board_id,
            created_at,
            updated_at: doc.updated_at,
        },
    )
}

/// Decode one stored column sub-document.  Succeeds exactly when it has a
/// parsable id, a name and a creation time.
pub fn doc_to_board_column(doc: &ColumnDoc) -> (r: Result<BoardColumn, BoardRepoError>)
    ensures
        r is Ok <==> column_doc_ok(*doc),
        r is Ok ==> r->Ok_0 == decoded_column(*doc),
        r is Err ==> r->Err_0 matches BoardRepoError::DecodeError(_),
{
    let id = match get_optional_uuid(&doc.id) {
        Option::Some(v) => v,
        Option::None => {
            return Err(
                BoardRepoError::DecodeError(String::from_str("column document has no valid id")),
            );
        },
    };
    let name = match &doc.name {
        Option::Some(t) => t.clone(),
        Option::None => {
            return Err(
                BoardRepoError::DecodeError(String::from_str("column document has no name")),
            );
        },
    };
    let created_at = match doc.created_at {
        Option::Some(t) => t,
        Option::None => {
            return Err(
                BoardRepoError::DecodeError(
                    String::from_str("column document has no creation time"),
                ),
            );
        },
    };
    Ok(BoardColumn { id, name, created_at, updated_at: doc.updated_at })
}

/// Decode a stored column list, omitting entries that fail to decode.
pub fn get_board_columns(docs: &Vec<ColumnDoc>) -> (r: Vec<BoardColumn>)
    ensures
        r@ == decoded_columns(docs@),
{
    let n = docs.len();
    let mut r: Vec<BoardColumn> = Vec::new();
    for i in 0..n
        invariant
            n == docs@.len(),
            r@ == decoded_columns(docs@.take(i as int)),
    {
        match doc_to_board_column(&docs[i]) {
            Result::Ok(col) => {
                r.push(col);
            },
            Result::Err(_) => {},
        }
        proof {
            assert(docs@.take(i + 1).drop_last() =~= docs@.take(i as int));
            assert(docs@.take(i + 1).last() == docs@[i as int]);
        }
    }
    proof {
        assert(docs@.take(n as int) =~= docs@);
    }
    r
}

/// Decode one stored board document.  Succeeds exactly when the document
/// has a parsable id, a title and a creation time; its column list is
/// decoded best-effort, undecodable columns omitted.
pub fn doc_to_board(doc: &BoardDoc) -> (r: Result<Board, BoardRepoError>)
    ensures
        r is Ok <==> board_doc_ok(*doc),
        r is Ok ==> {
            let b = r->Ok_0;
            &&& b.id == opt_parsed(doc.id)->0
            &&& b.title == doc.title->0
            &&& b.description == doc.description
            &&& b.columns@ == decoded_columns(doc.columns@)
            &&& b.created_at == doc.created_at->0
            &&& b.updated_at == doc.updated_at
        },
        r is Err ==> r->Err_0 matches BoardRepoError::DecodeError(_),
{
    let id = match get_optional_uuid(&doc.id) {
        Option::Some(v) => v,
        Option::None => {
            return Err(
                BoardRepoError::DecodeError(String::from_str("board document has no valid id")),
            );
        },
    };
    let title = match &doc.title {
        Option::Some(t) => t.clone(),
        Option::None => {
            return Err(
                BoardRepoError::DecodeError(String::from_str("board document has no title")),
            );
        },
    };
    let created_at = match doc.created_at {
        Option::Some(t) => t,
        Option::None => {
            return Err(
                BoardRepoError::DecodeError(
                    String::from_str("board document has no creation time"),
                ),
            );
        },
    };
    Ok(
        Board {
            id,
            title,
            description: doc.description.clone(),
            columns: get_board_columns(&doc.columns),
            created_at,
            updated_at: doc.updated_at,
        },
    )
}

/// Decode a listing of stored task documents, omitting entries that fail
/// to decode rather than aborting the listing.
pub fn parse_tasks(docs: &Vec<TaskDoc>) -> (r: Vec<Task>)
    ensures
        r@ == decoded_tasks(docs@),
{
    let n = docs.len();
    let mut r: Vec<Task> = Vec::new();
    for i in 0..n
        invariant
            n == docs@.len(),
            r@ == decoded_tasks(docs@.take(i as int)),
    {
        match doc_to_task(&docs[i]) {
            Result::Ok(t) => {
                r.push(t);
            },
            Result::Err(_) => {},
        }
        proof {
            assert(docs@.take(i + 1).drop_last() =~= docs@.take(i as int));
            assert(docs@.take(i + 1).last() == docs@[i as int]);
        }
    }
    proof {
        assert(docs@.take(n as int) =~= docs@);
    }
    r
}

/// Whether a board record carries exactly what a stored document decodes
/// to.
pub open spec fn board_matches_doc(b: Board, d: BoardDoc) -> bool {
    &&& b.id == opt_parsed(d.id)->0
    &&& b.title == d.title->0
    &&& b.description == d.description
    &&& b.columns@ == decoded_columns(d.columns@)
    &&& b.created_at == d.created_at->0
    &&& b.updated_at == d.updated_at
}

/// The well-formed documents of a stored board listing, in order.
pub open spec fn ok_board_docs(ds: Seq<BoardDoc>) -> Seq<BoardDoc> {
    ds.filter(|d: BoardDoc| board_doc_ok(d))
}

/// Decode a listing of stored board documents, omitting entries that fail
/// to decode rather than aborting the listing.
pub fn parse_boards(docs: &Vec<BoardDoc>) -> (r: Vec<Board>)
    ensures
        r@.len() == ok_board_docs(docs@).len(),
        forall|k: int|
            0 <= k < r@.len() ==> board_matches_doc(#[trigger] r@[k], ok_board_docs(docs@)[k]),
{
    let n = docs.len();
    let mut r: Vec<Board> = Vec::new();
    for i in 0..n
        invariant
            n == docs@.len(),
            r@.len() == ok_board_docs(docs@.take(i as int)).len(),
            forall|k: int|
                0 <= k < r@.len() ==> board_matches_doc(
                    #[trigger] r@[k],
                    ok_board_docs(docs@.take(i as int))[k],
                ),
    {
        match doc_to_board(&docs[i]) {
            Result::Ok(b) => {
                r.push(b);
            },
            Result::Err(_) => {},
        }
        proof {
            reveal_with_fuel(Seq::<BoardDoc>::filter, 2);
            let s1 = docs@.take(i + 1);
            let s0 = docs@.take(i as int);
            assert(s1.drop_last() =~= s0);
            assert(s1.last() == docs@[i as int]);
            if board_doc_ok(docs@[i as int]) {
                assert(ok_board_docs(s1) == ok_board_docs(s0).push(docs@[i as int]));
            } else {
                assert(ok_board_docs(s1) == ok_board_docs(s0));
            }
        }
    }
    proof {
        assert(docs@.take(n as int) =~= docs@);
    }
    r
}

/// Encode an optional identifier: `None` stays absent, an id becomes its
/// canonical string.
fn encode_opt_uuid(u: &Option<u128>) -> (r: Option<String>)
    ensures
        opt_parsed(r) == *u,
        (*u) matches Some(v) ==> r matches Some(s) && s@ == uuid_str(v),
        (*u) is None ==> r is None,
{
    match u {
        Option::Some(v) => Some(uuid_to_string(*v)),
        Option::None => None,
    }
}

/// Encode a task as a stored document.  Identifiers become their
/// canonical strings, absent optional fields stay omitted, and the
/// document decodes back to the very same task.
pub fn task_to_doc(task: &Task) -> (r: TaskDoc)
    ensures
        task_doc_ok(r),
        decoded_task(r) == *task,
        r.id matches Some(s) && s@ == uuid_str(task.id),
        r.title == Some(task.title),
        r.description == task.description,
        r.board_id matches Some(s) && s@ == uuid_str(task.board_id),
        task.column_id matches Some(v) ==> r.column_id matches Some(s) && s@ == uuid_str(v),
        task.column_id is None ==> r.column_id is None,
        task.above_task_id matches Some(v) ==> r.above_task_id matches Some(s) && s@ == uuid_str(
            v,
        ),
        task.above_task_id is None ==> r.above_task_id is None,
        r.created_at == Some(task.created_at),
        r.updated_at == task.updated_at,
{
    TaskDoc {
        id: Some(uuid_to_string(task.id)),
        title: Some(task.title.clone()),
        description: task.description.clone(),
        column_id: encode_opt_uuid(&task.column_id),
        above_task_id: encode_opt_uuid(&task.above_task_id),
        board_id: Some(uuid_to_string(task.board_id)),
        created_at: Some(task.created_at),
        updated_at: task.updated_at,
    }
}

/// Encode a column list as stored sub-documents; the list decodes back to
/// the very same columns.
pub fn map_columns_to_docs(board_columns: &Vec<BoardColumn>) -> (r: Vec<ColumnDoc>)
    ensures
        r@.len() == board_columns@.len(),
        decoded_columns(r@) == board_columns@,
        forall|i: int|
            0 <= i < r@.len() ==> {
                let d = #[trigger] r@[i];
                let c = board_columns@[i];
                &&& column_doc_ok(d)
                &&& d.id matches Some(s) && s@ == uuid_str(c.id)
                &&& d.name == Some(c.name)
                &&& d.created_at == Some(c.created_at)
                &&& d.updated_at == c.updated_at
            },
{
    let n = board_columns.len();
    let mut r: Vec<ColumnDoc> = Vec::new();
    for i in 0..n
        invariant
            n == board_columns@.len(),
            r@.len() == i,
            decoded_columns(r@) == board_columns@.take(i as int),
            forall|j: int|
                0 <= j < r@.len() ==> {
                    let d = #[trigger] r@[j];
                    let c = board_columns@[j];
                    &&& column_doc_ok(d)
                    &&& d.id matches Some(s) && s@ == uuid_str(c.id)
                    &&& d.name == Some(c.name)
                    &&& d.created_at == Some(c.created_at)
                    &&& d.updated_at == c.updated_at
                },
    {
        let ghost r0 = r@;
        let c = &board_columns[i];
        let doc = ColumnDoc {
            id: Some(uuid_to_string(c.id)),
            name: Some(c.name.clone()),
            created_at: Some(c.created_at),
            updated_at: c.updated_at,
        };
        proof {
            assert(column_doc_ok(doc));
            assert(decoded_column(doc) == board_columns@[i as int]);
        }
        r.push(doc);
        proof {
            assert(r@.drop_last() =~= r0);
            assert(board_columns@.take(i + 1) =~= board_columns@.take(i as int).push(
                board_columns@[i as int],
            ));
        }
    }
    proof {
        assert(board_columns@.take(n as int) =~= board_columns@);
    }
    r
}

/// Encode a board as a stored document.  Identifiers become their
/// canonical strings, absent optional fields stay omitted, and the
/// document decodes back to the very same board.
pub fn board_to_doc(board: &Board) -> (r: BoardDoc)
    ensures
        board_doc_ok(r),
        r.id matches Some(s) && s@ == uuid_str(board.id),
        r.title == Some(board.title),
        r.description == board.description,
        decoded_columns(r.columns@) == board.columns@,
        r.created_at == Some(board.created_at),
        r.updated_at == board.updated_at,
{
    BoardDoc {
        id: Some(uuid_to_string(board.id)),
        title: Some(board.title.clone()),
        description: board.description.clone(),
        columns: map_columns_to_docs(&board.columns),
        created_at: Some(board.created_at),
        updated_at: board.updated_at,
    }
}

} // verus!
