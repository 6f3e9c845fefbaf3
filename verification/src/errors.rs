//! The error types of the task application.

use vstd::prelude::*;

verus! {

/// `TaskError` represents every failure the task application can report.
#[derive(Debug)]
pub enum TaskError {
    /// An unexpected failure while adding a new task to the task list.
    AddError(String),
    /// A requested item number is not a valid item number: for example the
    /// user asked to act on item 12 while only 5 items are listed. A number
    /// of the wrong sign is rejected during input validation instead.
    NumberOutOfRange(String),
    /// A failure of the underlying store while fetching items.
    FetchError,
    /// The store no longer holds a task with the requested identifier.
    NotFound,
    /// A failure of the underlying store while writing.
    StoreFailure,
}

} // verus!
