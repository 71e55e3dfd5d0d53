use kanban::board::{Board, BoardColumn};
use kanban::codec::{
    board_to_doc, doc_to_board, doc_to_board_column, doc_to_task, get_board_columns,
    get_optional_uuid, map_columns_to_docs, parse_boards, parse_tasks, task_to_doc, BoardDoc,
    ColumnDoc, TaskDoc,
};
use kanban::error::{BoardRepoError, TaskRepoError};
use kanban::task::Task;

const ID_ONE: &str = "00000000-0000-0000-0000-000000000001";
const ID_TWO: &str = "00000000-0000-0000-0000-000000000002";
const ID_NINE: &str = "00000000-0000-0000-0000-000000000009";

fn good_task_doc() -> TaskDoc {
    TaskDoc {
        id: Some(String::from(ID_ONE)),
        title: Some(String::from("a title")),
        description: Some(String::from("a description")),
        column_id: Some(String::from(ID_TWO)),
        above_task_id: None,
        board_id: Some(String::from(ID_NINE)),
        created_at: Some(1000),
        updated_at: Some(2000),
    }
}

#[test]
fn task_doc_decodes_to_parsed_values() {
    let task = doc_to_task(&good_task_doc()).unwrap();
    assert_eq!(task.id, 1);
    assert_eq!(task.title, "a title");
    assert_eq!(task.description, Some(String::from("a description")));
    assert_eq!(task.column_id, Some(2));
    assert_eq!(task.above_task_id, None);
    assert_eq!(task.board_id, 9);
    assert_eq!(task.created_at, 1000);
    assert_eq!(task.updated_at, Some(2000));
}

#[test]
fn task_doc_without_id_is_a_decode_error() {
    let mut doc = good_task_doc();
    doc.id = None;
    assert!(matches!(doc_to_task(&doc), Err(TaskRepoError::DecodeError(_))));
}

#[test]
fn task_doc_with_unparsable_id_is_a_decode_error() {
    let mut doc = good_task_doc();
    doc.id = Some(String::from("not-a-uuid"));
    assert!(matches!(doc_to_task(&doc), Err(TaskRepoError::DecodeError(_))));
}

#[test]
fn task_doc_without_title_is_a_decode_error() {
    let mut doc = good_task_doc();
    doc.title = None;
    assert!(matches!(doc_to_task(&doc), Err(TaskRepoError::DecodeError(_))));
}

#[test]
fn task_doc_without_board_id_is_a_decode_error() {
    let mut doc = good_task_doc();
    doc.board_id = None;
    assert!(matches!(doc_to_task(&doc), Err(TaskRepoError::DecodeError(_))));
}

#[test]
fn task_doc_without_creation_time_is_a_decode_error() {
    let mut doc = good_task_doc();
    doc.created_at = None;
    assert!(matches!(doc_to_task(&doc), Err(TaskRepoError::DecodeError(_))));
}

#[test]
fn unparsable_optional_reference_decodes_to_none() {
    let mut doc = good_task_doc();
    doc.above_task_id = Some(String::from("garbage"));
    let task = doc_to_task(&doc).unwrap();
    assert_eq!(task.above_task_id, None);
}

#[test]
fn get_optional_uuid_parses_canonical_strings() {
    assert_eq!(get_optional_uuid(&Some(String::from(ID_TWO))), Some(2));
    assert_eq!(get_optional_uuid(&Some(String::from("nope"))), None);
    assert_eq!(get_optional_uuid(&None), None);
}

#[test]
fn task_encodes_to_canonical_strings_and_round_trips() {
    let task = Task {
        id: 1,
        title: String::from("a title"),
        description: None,
        column_id: Some(2),
        above_task_id: None,
        board_id: 9,
        created_at: 1000,
        updated_at: None,
    };
    let doc = task_to_doc(&task);
    assert_eq!(doc.id, Some(String::from(ID_ONE)));
    assert_eq!(doc.column_id, Some(String::from(ID_TWO)));
    assert_eq!(doc.above_task_id, None);
    assert_eq!(doc.board_id, Some(String::from(ID_NINE)));
    assert_eq!(doc.description, None);
    let back = doc_to_task(&doc).unwrap();
    assert_eq!(back, task);
}

#[test]
fn parse_tasks_omits_undecodable_records() {
    let mut bad = good_task_doc();
    bad.title = None;
    let docs = vec![good_task_doc(), bad, good_task_doc()];
    let tasks = parse_tasks(&docs);
    assert_eq!(tasks.len(), 2);
    assert!(tasks.iter().all(|t| t.id == 1));
}

fn good_column_doc() -> ColumnDoc {
    ColumnDoc {
        id: Some(String::from(ID_TWO)),
        name: Some(String::from("a column")),
        created_at: Some(10),
        updated_at: None,
    }
}

fn good_board_doc() -> BoardDoc {
    BoardDoc {
        id: Some(String::from(ID_NINE)),
        title: Some(String::from("a board")),
        description: None,
        columns: vec![good_column_doc()],
        created_at: Some(5),
        updated_at: None,
    }
}

#[test]
fn column_doc_decodes_and_bad_columns_are_omitted_from_lists() {
    let col = doc_to_board_column(&good_column_doc()).unwrap();
    assert_eq!(col.id, 2);
    assert_eq!(col.name, "a column");

    let mut bad = good_column_doc();
    bad.name = None;
    assert!(matches!(
        doc_to_board_column(&bad),
        Err(BoardRepoError::DecodeError(_))
    ));
    let cols = get_board_columns(&vec![good_column_doc(), bad]);
    assert_eq!(cols.len(), 1);
}

#[test]
fn board_doc_decodes_with_its_columns() {
    let board = doc_to_board(&good_board_doc()).unwrap();
    assert_eq!(board.id, 9);
    assert_eq!(board.title, "a board");
    assert_eq!(board.columns.len(), 1);
    assert_eq!(board.columns[0].id, 2);
}

#[test]
fn board_doc_without_id_is_a_decode_error() {
    let mut doc = good_board_doc();
    doc.id = Some(String::from("junk"));
    assert!(matches!(doc_to_board(&doc), Err(BoardRepoError::DecodeError(_))));
}

#[test]
fn board_encodes_and_round_trips() {
    let board = Board {
        id: 9,
        title: String::from("a board"),
        description: Some(String::from("d")),
        columns: vec![BoardColumn {
            id: 2,
            name: String::from("a column"),
            created_at: 10,
            updated_at: Some(11),
        }],
        created_at: 5,
        updated_at: None,
    };
    let doc = board_to_doc(&board);
    assert_eq!(doc.id, Some(String::from(ID_NINE)));
    let back = doc_to_board(&doc).unwrap();
    assert_eq!(back, board);
}

#[test]
fn map_columns_to_docs_encodes_each_column() {
    let cols = vec![
        BoardColumn { id: 1, name: String::from("x"), created_at: 1, updated_at: None },
        BoardColumn { id: 2, name: String::from("y"), created_at: 2, updated_at: Some(3) },
    ];
    let docs = map_columns_to_docs(&cols);
    assert_eq!(docs.len(), 2);
    assert_eq!(docs[0].id, Some(String::from(ID_ONE)));
    assert_eq!(docs[1].name, Some(String::from("y")));
    assert_eq!(docs[1].updated_at, Some(3));
}

#[test]
fn parse_boards_omits_undecodable_records() {
    let mut bad = good_board_doc();
    bad.title = None;
    let boards = parse_boards(&vec![good_board_doc(), bad]);
    assert_eq!(boards.len(), 1);
    assert_eq!(boards[0].id, 9);
}
