//! The error taxonomy, and how each class maps to an HTTP status.

use vstd::prelude::*;

verus! {

/// Failures of the task repository.
#[derive(Clone, Debug, PartialEq)]
pub enum TaskRepoError {
    /// No task matched the lookup.
    NotFound,
    /// A create or update could not be applied.
    InvalidTask(String),
    /// A stored document could not be read back as a task.
    DecodeError(String),
    /// A bulk update's transaction could not be committed after retries.
    TransactionError(String),
}

/// Failures of the board repository.
#[derive(Clone, Debug, PartialEq)]
pub enum BoardRepoError {
    /// No board matched the lookup.
    NotFound,
    /// A create or update could not be applied.
    InvalidBoard(String),
    /// A stored document could not be read back as a board.
    DecodeError(String),
}

/// The application's top-level error type.
#[derive(Clone, Debug, PartialEq)]
pub enum AppError {
    /// An action in the task repository failed.
    TaskRepo(TaskRepoError),
    /// An action in the board repository failed.
    BoardRepo(BoardRepoError),
    /// The document store itself failed; the message is the driver's.
    StoreError(String),
    /// An unexpected internal failure.
    InternalServerError,
}

impl From<TaskRepoError> for AppError {
    fn from(inner: TaskRepoError) -> (r: AppError) {
        AppError::TaskRepo(inner)
    }
}

impl vstd::std_specs::convert::FromSpecImpl<TaskRepoError> for AppError {
    open spec fn obeys_from_spec() -> bool {
        true
    }

    open spec fn from_spec(inner: TaskRepoError) -> AppError {
        AppError::TaskRepo(inner)
    }
}

impl From<BoardRepoError> for AppError {
    fn from(inner: BoardRepoError) -> (r: AppError) {
        AppError::BoardRepo(inner)
    }
}

impl vstd::std_specs::convert::FromSpecImpl<BoardRepoError> for AppError {
    open spec fn obeys_from_spec() -> bool {
        true
    }

    open spec fn from_spec(inner: BoardRepoError) -> AppError {
        AppError::BoardRepo(inner)
    }
}

/// The HTTP status an error is answered with: domain and validation
/// failures map to 400, storage and unexpected failures to 500.
pub open spec fn status_code_of(e: AppError) -> u16 {
    match e {
        AppError::TaskRepo(_) => 400,
        AppError::BoardRepo(_) => 400,
        AppError::StoreError(_) => 500,
        AppError::InternalServerError => 500,
    }
}

impl AppError {
    /// The HTTP status this error is answered with.
    pub fn status_code(&self) -> (c: u16)
        ensures
            c == status_code_of(*self),
    {
        match self {
            AppError::TaskRepo(_) => 400,
            AppError::BoardRepo(_) => 400,
            AppError::StoreError(_) => 500,
            AppError::InternalServerError => 500,
        }
    }
}

} // verus!
