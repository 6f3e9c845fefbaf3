//! The commands of the task application and their argument payloads, as
//! the argument parser hands them to the dispatcher. Parsing and shape
//! validation (non-empty lists, positive numbers) happen upstream.

use vstd::prelude::*;

verus! {

/// `AddArgs` is the set of arguments required for an `Add` command.
pub struct AddArgs {
    /// A space separated list of words that make up a single task.
    pub words: Vec<String>,
}

/// `RemoveArgs` is the set of arguments required for a `Remove` command.
pub struct RemoveArgs {
    /// A space separated list of task numbers to be deleted.
    pub task_numbers: Vec<u16>,
}

/// `CompleteArgs` is the set of arguments required for a `Complete` command.
pub struct CompleteArgs;

/// `FinishTaskArgs` is the set of arguments required for a `FinishTask` command.
pub struct FinishTaskArgs {
    /// A space separated list of task numbers to mark as completed.
    pub task_numbers: Vec<u16>,
}

/// `ListArgs` is the set of arguments required for a `List` command.
pub struct ListArgs;

/// `ClearArgs` is the set of arguments required for a `Clear` command.
pub struct ClearArgs;

/// `Commands` is an enum which represents all of the possible
/// commands in the `task` application.
pub enum Commands {
    /// Adds a task to the list.
    Add(AddArgs),
    /// Removes one or more tasks from the list.
    Remove(RemoveArgs),
    /// Marks one or more tasks as completed.
    FinishTask(FinishTaskArgs),
    /// Lists all of the completed tasks.
    ListCompleted(CompleteArgs),
    /// Lists the incomplete tasks.
    ListIncomplete(ListArgs),
    /// Clear all the completed tasks.
    ClearCompleted(ClearArgs),
}

} // verus!
