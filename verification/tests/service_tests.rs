use kanban::board::Board;
use kanban::codec::{BoardDoc, TaskDoc};
use kanban::config::Config;
use kanban::dto::Response;
use kanban::error::{AppError, BoardRepoError, TaskRepoError};
use kanban::service::{
    assign_tasks_to_column, board_from_lookup, board_update_outcome, task_from_lookup,
    task_update_outcome, touch_all, touched_board, touched_task,
};
use kanban::task::Task;

const ID_ONE: &str = "00000000-0000-0000-0000-000000000001";
const ID_NINE: &str = "00000000-0000-0000-0000-000000000009";

fn mk_task(id: u128) -> Task {
    Task {
        id,
        title: format!("task-{}", id),
        description: None,
        column_id: None,
        above_task_id: None,
        board_id: 900,
        created_at: 0,
        updated_at: None,
    }
}

#[test]
fn missing_task_lookup_is_not_found() {
    assert_eq!(task_from_lookup(None), Err(TaskRepoError::NotFound));
}

#[test]
fn found_task_lookup_decodes() {
    let doc = TaskDoc {
        id: Some(String::from(ID_ONE)),
        title: Some(String::from("t")),
        description: None,
        column_id: None,
        above_task_id: None,
        board_id: Some(String::from(ID_NINE)),
        created_at: Some(1),
        updated_at: None,
    };
    let task = task_from_lookup(Some(doc)).unwrap();
    assert_eq!(task.id, 1);
}

#[test]
fn undecodable_task_lookup_surfaces_the_decode_error() {
    let doc = TaskDoc {
        id: None,
        title: None,
        description: None,
        column_id: None,
        above_task_id: None,
        board_id: None,
        created_at: None,
        updated_at: None,
    };
    assert!(matches!(
        task_from_lookup(Some(doc)),
        Err(TaskRepoError::DecodeError(_))
    ));
}

#[test]
fn missing_board_lookup_is_not_found() {
    assert_eq!(board_from_lookup(None), Err(BoardRepoError::NotFound));
}

#[test]
fn found_board_lookup_decodes() {
    let doc = BoardDoc {
        id: Some(String::from(ID_NINE)),
        title: Some(String::from("b")),
        description: None,
        columns: vec![],
        created_at: Some(1),
        updated_at: None,
    };
    let board = board_from_lookup(Some(doc)).unwrap();
    assert_eq!(board.id, 9);
}

#[test]
fn update_acknowledgment_requires_exactly_one_modified_document() {
    assert!(task_update_outcome(1).is_ok());
    assert!(matches!(task_update_outcome(0), Err(TaskRepoError::InvalidTask(_))));
    assert!(matches!(task_update_outcome(2), Err(TaskRepoError::InvalidTask(_))));
    assert!(board_update_outcome(1).is_ok());
    assert!(matches!(board_update_outcome(0), Err(BoardRepoError::InvalidBoard(_))));
}

#[test]
fn touching_sets_only_the_update_stamp() {
    let task = mk_task(1);
    let touched = touched_task(&task);
    assert!(touched.updated_at.is_some());
    assert_eq!(touched.id, task.id);
    assert_eq!(touched.title, task.title);
    assert_eq!(touched.created_at, task.created_at);

    let board = Board {
        id: 9,
        title: String::from("b"),
        description: None,
        columns: vec![],
        created_at: 3,
        updated_at: None,
    };
    let touched_b = touched_board(&board);
    assert!(touched_b.updated_at.is_some());
    assert_eq!(touched_b.id, 9);
    assert_eq!(touched_b.created_at, 3);
}

#[test]
fn touch_all_stamps_every_task_with_one_time() {
    let tasks = vec![mk_task(1), mk_task(2)];
    let touched = touch_all(&tasks);
    assert_eq!(touched.len(), 2);
    assert!(touched[0].updated_at.is_some());
    assert_eq!(touched[0].updated_at, touched[1].updated_at);
    assert_eq!(touched[0].id, 1);
    assert_eq!(touched[1].id, 2);
}

#[test]
fn assigning_moves_every_task_into_the_column() {
    let tasks = vec![mk_task(1), mk_task(2)];
    let assigned = assign_tasks_to_column(&tasks, 42);
    assert_eq!(assigned.len(), 2);
    assert!(assigned.iter().all(|t| t.column_id == Some(42)));
    assert_eq!(assigned[0].id, 1);
}

#[test]
fn response_envelopes_carry_success_or_message() {
    let ok: Response<u32> = Response::ok(7);
    assert!(ok.success);
    assert_eq!(ok.data, Some(7));
    assert_eq!(ok.error_message, None);

    let failed: Response<u32> = Response::failure(String::from("boom"));
    assert!(!failed.success);
    assert_eq!(failed.data, None);
    assert_eq!(failed.error_message, Some(String::from("boom")));
}

#[test]
fn error_statuses_split_domain_from_storage() {
    assert_eq!(AppError::TaskRepo(TaskRepoError::NotFound).status_code(), 400);
    assert_eq!(
        AppError::BoardRepo(BoardRepoError::InvalidBoard(String::from("x"))).status_code(),
        400
    );
    assert_eq!(AppError::StoreError(String::from("down")).status_code(), 500);
    assert_eq!(AppError::InternalServerError.status_code(), 500);
    assert_eq!(
        AppError::from(TaskRepoError::NotFound),
        AppError::TaskRepo(TaskRepoError::NotFound)
    );
    assert_eq!(
        AppError::from(BoardRepoError::NotFound),
        AppError::BoardRepo(BoardRepoError::NotFound)
    );
}

#[test]
fn default_config_listens_on_8080() {
    assert_eq!(Config::default().port, 8080);
}
