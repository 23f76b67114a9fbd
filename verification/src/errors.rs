//! Error type shared by the ledger operations.

use vstd::prelude::*;

verus! {

/// What can go wrong while handling a request against the ledger.
///
/// Storage failures carry the underlying message as text; turning one into
/// an HTTP response happens outside the engine.
#[derive(Debug)]
pub enum AppError {
    NotFound(String),
    BadRequest(String),
    InternalError(String),
    LockError,
    StorageError(String),
}

pub type AppResult<T> = Result<T, AppError>;

impl AppError {
    /// The error returned when a phone number has no registered account.
    pub fn phone_not_registered() -> (e: AppError)
        ensures
            e matches AppError::NotFound(m) && m@ == "Phone number not registered"@,
    {
        AppError::NotFound("Phone number not registered".to_owned())
    }

    /// The error returned when the current group does not exist.
    pub fn group_not_found() -> (e: AppError)
        ensures
            e matches AppError::NotFound(m) && m@ == "Current group not found"@,
    {
        AppError::NotFound("Current group not found".to_owned())
    }
}

} // verus!
