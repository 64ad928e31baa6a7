//! The request model: one variant for each thing a user may ask for.

use crate::account::{PasswordSet, ReqAllocation, ReqPermission, Timescale};
use crate::outline::ReqTasks;
use crate::search::Condition;
use vstd::prelude::*;

verus! {

/// A request: a command, or an outline of tasks to store.
#[derive(Debug)]
pub enum Req {
    Cmd(ReqCmd),
    Tasks(ReqTasks),
}

/// A command.
#[derive(Debug)]
pub enum ReqCmd {
    Help,
    User(ReqUser),
    Search(ReqSearch),
    Tutorial,
    Coffee,
}

/// A command about the user's own account.
#[derive(Debug)]
pub enum ReqUser {
    Help,
    Info,
    Modify(ReqModify),
}

/// A search.
#[derive(Debug)]
pub enum ReqSearch {
    Help,
    Condition(Condition),
}

/// A change to the user's own account.
#[derive(Debug)]
pub enum ReqModify {
    Email(String),
    Password(PasswordSet),
    Name(String),
    Timescale(Timescale),
    Allocations(Vec<ReqAllocation>),
    Permission(ReqPermission),
}

} // verus!
