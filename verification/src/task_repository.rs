//! The store abstraction: a trait which contains all of the database
//! operations for managing tasks in the task list, each with a functional
//! contract over the model of the stored records.
//!
//! Any persistence technology that meets these contracts is substitutable;
//! the crate itself proves them for the in-memory store
//! ([`crate::store::MemoryRepository`]).

use vstd::prelude::*;

use crate::domain::{
    completed_of, contains_id, delete_of, incomplete_of, mark_of, store_inv, task_with_id,
    views_of, StoreContents, StoreCounter, Task, TaskSpec,
};
use crate::errors::TaskError;

verus! {

/// `TaskRepository` is a trait which contains all of the database
/// operations for managing tasks in the task list.
///
/// The model of a store is the sequence of its live task records in listing
/// order, [`Self::tasks`], together with the identifier it will assign next,
/// [`Self::next_id`]. Every operation preserves well-formedness
/// ([`store_inv`]) and never shrinks `next_id`, so identifiers are never
/// reused, not even after a deletion. An operation that fails leaves the
/// model as it was: no partial write of a task is ever observable.
pub trait TaskRepository: Sized {
    /// The live task records, in the order every listing presents them.
    spec fn tasks(&self) -> StoreContents;

    /// The identifier the store will assign to the next inserted task.
    spec fn next_id(&self) -> StoreCounter;

    /// `completed_tasks` returns a list of completed tasks, in listing
    /// order, without touching the store.
    fn completed_tasks(&mut self) -> (r: Result<Vec<Task>, TaskError>)
        requires
            store_inv(old(self).tasks(), old(self).next_id()),
        ensures
            final(self).tasks() == old(self).tasks(),
            final(self).next_id() == old(self).next_id(),
            match r {
                Ok(v) => views_of(v@) == completed_of(old(self).tasks()),
                Err(e) => e is FetchError,
            },
    ;

    /// `incomplete_tasks` returns a list of incomplete tasks, in listing
    /// order, without touching the store.
    fn incomplete_tasks(&mut self) -> (r: Result<Vec<Task>, TaskError>)
        requires
            store_inv(old(self).tasks(), old(self).next_id()),
        ensures
            final(self).tasks() == old(self).tasks(),
            final(self).next_id() == old(self).next_id(),
            match r {
                Ok(v) => views_of(v@) == incomplete_of(old(self).tasks()),
                Err(e) => e is FetchError,
            },
    ;

    /// `add` inserts a new task into the database. On success the stored
    /// record, carrying the freshly assigned identifier, is appended to the
    /// listing and returned.
    fn add(&mut self, task: Task) -> (r: Result<Task, TaskError>)
        requires
            store_inv(old(self).tasks(), old(self).next_id()),
        ensures
            store_inv(final(self).tasks(), final(self).next_id()),
            final(self).next_id() >= old(self).next_id(),
            match r {
                Ok(t) => {
                    &&& t@ == (TaskSpec {
                        id: old(self).next_id(),
                        description: task@.description,
                        complete_date: task@.complete_date,
                    })
                    &&& final(self).tasks() == old(self).tasks().push(t@)
                    &&& final(self).next_id() == old(self).next_id() + 1
                },
                Err(e) => {
                    &&& e is AddError
                    &&& final(self).tasks() == old(self).tasks()
                    &&& final(self).next_id() == old(self).next_id()
                },
            },
    ;

    /// `mark_complete` sets the date and time the task was finished, given
    /// in whole seconds since the Unix epoch, and returns the updated
    /// record. It fails with [`TaskError::NotFound`], and with that error
    /// alone, exactly when no task carries `task_id`.
    fn mark_complete(&mut self, task_id: i64, completed_at: i64) -> (r: Result<Task, TaskError>)
        requires
            store_inv(old(self).tasks(), old(self).next_id()),
        ensures
            store_inv(final(self).tasks(), final(self).next_id()),
            final(self).next_id() == old(self).next_id(),
            match r {
                Ok(t) => {
                    &&& contains_id(old(self).tasks(), task_id as int)
                    &&& final(self).tasks() == mark_of(
                        old(self).tasks(),
                        task_id as int,
                        completed_at as int,
                    )
                    &&& t@ == (TaskSpec {
                        complete_date: Some(completed_at as int),
                        ..task_with_id(old(self).tasks(), task_id as int)
                    })
                },
                Err(e) => {
                    &&& final(self).tasks() == old(self).tasks()
                    &&& (e is NotFound || e is StoreFailure)
                    &&& (e is NotFound <==> !contains_id(old(self).tasks(), task_id as int))
                },
            },
    ;

    /// `delete_task` removes the task from the database. Deleting an
    /// identifier that no task carries succeeds and changes nothing: the
    /// operation is a no-op on an absent identifier, never a failure.
    fn delete_task(&mut self, task_id: i64) -> (r: Result<(), TaskError>)
        requires
            store_inv(old(self).tasks(), old(self).next_id()),
        ensures
            store_inv(final(self).tasks(), final(self).next_id()),
            final(self).next_id() == old(self).next_id(),
            match r {
                Ok(_) => final(self).tasks() == delete_of(old(self).tasks(), task_id as int),
                Err(e) => {
                    &&& e is StoreFailure
                    &&& final(self).tasks() == old(self).tasks()
                },
            },
    ;

    /// `clear_completed` deletes every task that carries a completion date;
    /// zero matches is a success, not a failure.
    fn clear_completed(&mut self) -> (r: Result<(), TaskError>)
        requires
            store_inv(old(self).tasks(), old(self).next_id()),
        ensures
            store_inv(final(self).tasks(), final(self).next_id()),
            final(self).next_id() == old(self).next_id(),
            match r {
                Ok(_) => final(self).tasks() == incomplete_of(old(self).tasks()),
                Err(e) => {
                    &&& e is StoreFailure
                    &&& final(self).tasks() == old(self).tasks()
                },
            },
    ;
}

} // verus!
