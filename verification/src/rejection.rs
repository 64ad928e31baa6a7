//! Why a request is turned down.

use vstd::prelude::*;

verus! {

/// Which of a line's two moments is meant.
#[derive(Clone, Copy, Debug, PartialEq, Eq, Structural)]
pub enum Field {
    Startable,
    Deadline,
}

/// A text column of a task that a search may look into.
#[derive(Clone, Copy, Debug, PartialEq, Eq, Structural)]
pub enum Column {
    Title,
    Assign,
    Link,
}

/// The first fault found in a request. Identifiers are persistent task
/// identifiers; a `line` is a position in the batch.
#[derive(Clone, Copy, Debug, PartialEq, Eq, Structural)]
pub enum Rejection {
    /// A moment of the line names no single instant in the requester's zone.
    Unresolved { line: usize, field: Field },
    /// The batch's arrows contain a cycle.
    Loop,
    /// The line's deadline lies before its startable moment.
    DeadlineBeforeStartable { line: usize },
    /// The identifier is referenced by more than one line.
    Duplicate { id: i32 },
    /// One chain of the batch would wire two existing tasks together.
    Rewiring { first: i32, second: i32 },
    /// The referenced task does not exist or the actor may not edit it.
    NotEditable { id: i32 },
    /// The line names an assignee that is unknown or that the actor may not edit.
    UnknownAssignee { line: usize },
    /// The requested task is unknown to the store.
    NotFound { id: i32 },
    /// The requested task is not in the state that the transition starts from.
    WrongState { id: i32 },
    /// The task belongs to somebody else.
    NotYours { id: i32 },
    /// The pattern that a search gives for the column is no regular expression.
    Pattern { column: Column },
    /// The password given as the current one is not the current one.
    WrongPassword,
    /// The new password has fewer bytes than the least number allowed.
    ShortPassword { least: usize },
    /// The new password and its confirmation differ.
    Mismatch,
    /// The opening time is no time of day.
    InvalidTime,
    /// The hours are not between one and twenty-four.
    InvalidHours,
    /// An invitation to register was asked for an address that is registered.
    UserExists,
    /// A password reset was asked for an address that is not registered.
    NoSuchUser,
}

} // verus!
