use kanban::board::{
    cascade_delete_column, create_and_add_column_to, filter_column_from, merge_columns, Board,
    BoardColumn,
};
use kanban::dto::{
    CreateBoardColumnRequest, CreateBoardRequest, UpdateBoardRequest, UpdateBoardRequestColumn,
};
use kanban::task::Task;

fn mk_column(id: u128, name: &str) -> BoardColumn {
    BoardColumn { id, name: String::from(name), created_at: 0, updated_at: None }
}

fn mk_board(id: u128, title: &str, columns: Vec<BoardColumn>) -> Board {
    Board { id, title: String::from(title), description: None, columns, created_at: 0, updated_at: None }
}

fn mk_task(id: u128, column_id: Option<u128>) -> Task {
    Task {
        id,
        title: format!("task-{}", id),
        description: None,
        column_id,
        above_task_id: None,
        board_id: 900,
        created_at: 0,
        updated_at: None,
    }
}

#[test]
fn it_maps_new_column_in_correct_order() {
    let existing_columns: Vec<BoardColumn> = vec![mk_column(101, "column-1"), mk_column(102, "column-2")];
    let board = mk_board(900, "mock-board", existing_columns.clone());
    let new_column = mk_column(103, "new-column");

    let mut expected_front: Vec<BoardColumn> = Vec::new();
    expected_front.push(new_column.clone());
    existing_columns.clone().into_iter().for_each(|c| expected_front.push(c));
    let actual = merge_columns(&board.columns.clone(), new_column.clone(), Some(true));
    assert_eq!(expected_front, actual);

    let mut expected_back: Vec<BoardColumn> = Vec::new();
    existing_columns.clone().into_iter().for_each(|c| expected_back.push(c));
    expected_back.push(new_column.clone());
    let actual = merge_columns(&board.columns.clone(), new_column.clone(), Some(false));
    assert_eq!(expected_back, actual);
}

#[test]
fn merge_without_signal_appends_at_the_end() {
    let existing = vec![mk_column(1, "x"), mk_column(2, "y")];
    let new_column = mk_column(3, "new");
    let merged = merge_columns(&existing, new_column.clone(), None);
    assert_eq!(
        merged.iter().map(|c| c.id).collect::<Vec<_>>(),
        vec![1, 2, 3]
    );
}

#[test]
fn merge_with_front_signal_prepends() {
    let existing = vec![mk_column(1, "x"), mk_column(2, "y")];
    let new_column = mk_column(3, "new");
    let merged = merge_columns(&existing, new_column.clone(), Some(true));
    assert_eq!(
        merged.iter().map(|c| c.id).collect::<Vec<_>>(),
        vec![3, 1, 2]
    );
}

#[test]
fn filter_column_removes_by_identity() {
    let board = mk_board(900, "b", vec![mk_column(1, "x"), mk_column(2, "y")]);
    let filtered = filter_column_from(board, 1);
    assert_eq!(filtered.columns.iter().map(|c| c.id).collect::<Vec<_>>(), vec![2]);
}

#[test]
fn filter_of_absent_column_is_a_no_op() {
    let board = mk_board(900, "b", vec![mk_column(1, "x"), mk_column(2, "y")]);
    let filtered = filter_column_from(board.clone(), 777);
    assert_eq!(filtered, board);
}

#[test]
fn cascading_delete_removes_column_and_its_tasks() {
    // board B1 with columns [C1, C2]; t1 in C1, t2 in C2; deleting C1
    let board = mk_board(900, "B1", vec![mk_column(1, "C1"), mk_column(2, "C2")]);
    let t1 = mk_task(11, Some(1));
    let t2 = mk_task(12, Some(2));
    let (new_board, remaining) = cascade_delete_column(board, &vec![t1, t2.clone()], 1);
    assert_eq!(new_board.columns.iter().map(|c| c.id).collect::<Vec<_>>(), vec![2]);
    assert_eq!(remaining, vec![t2]);
}

#[test]
fn create_and_add_column_places_new_column() {
    let board = mk_board(900, "b", vec![mk_column(1, "x")]);
    let request = CreateBoardColumnRequest {
        title: String::from("fresh"),
        items: vec![],
        was_unassigned: Some(true),
    };
    let (updated, column) = create_and_add_column_to(board, request).unwrap();
    assert_eq!(column.name, "fresh");
    assert_eq!(column.updated_at, Some(column.created_at));
    assert_eq!(updated.columns.len(), 2);
    assert_eq!(updated.columns[0], column);
    assert_eq!(updated.columns[1].id, 1);

    let board2 = mk_board(900, "b", vec![mk_column(1, "x")]);
    let request2 = CreateBoardColumnRequest {
        title: String::from("fresh"),
        items: vec![],
        was_unassigned: None,
    };
    let (updated2, column2) = create_and_add_column_to(board2, request2).unwrap();
    assert_eq!(updated2.columns[0].id, 1);
    assert_eq!(updated2.columns[1], column2);
}

#[test]
fn board_from_create_request_starts_empty() {
    let board = Board::from_create_request(CreateBoardRequest {
        title: String::from("new board"),
        description: Some(String::from("desc")),
    });
    assert_eq!(board.title, "new board");
    assert_eq!(board.description, Some(String::from("desc")));
    assert!(board.columns.is_empty());
    assert_eq!(board.updated_at, None);
}

#[test]
fn board_from_update_request_keeps_given_ids_and_stamps_update() {
    let request = UpdateBoardRequest {
        id: 900,
        title: String::from("t"),
        description: None,
        columns: vec![
            UpdateBoardRequestColumn {
                id: Some(5),
                name: String::from("kept"),
                created_at: Some(123),
                updated_at: Some(456),
            },
            UpdateBoardRequestColumn {
                id: None,
                name: String::from("fresh"),
                created_at: None,
                updated_at: None,
            },
        ],
        created_at: 1,
        updated_at: None,
    };
    let board = Board::from_update_request(request);
    assert_eq!(board.id, 900);
    assert_eq!(board.created_at, 1);
    assert!(board.updated_at.is_some());
    assert_eq!(board.columns.len(), 2);
    assert_eq!(board.columns[0].id, 5);
    assert_eq!(board.columns[0].name, "kept");
    assert_eq!(board.columns[0].created_at, 123);
    assert_eq!(board.columns[0].updated_at, Some(456));
    assert_eq!(board.columns[1].name, "fresh");
    assert_eq!(board.columns[1].updated_at, None);
}

#[test]
fn with_updated_columns_replaces_only_the_columns() {
    let board = mk_board(900, "b", vec![mk_column(1, "x")]);
    let replaced = board.clone().with_updated_columns(vec![mk_column(2, "y")]);
    assert_eq!(replaced.id, board.id);
    assert_eq!(replaced.title, board.title);
    assert_eq!(replaced.columns.iter().map(|c| c.id).collect::<Vec<_>>(), vec![2]);
}
