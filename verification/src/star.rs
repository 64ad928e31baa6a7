//! Starring: flipping the star of one task.

use crate::outline::AuthedUser;
use crate::rejection::Rejection;
use crate::store::{can_edit, row_of, Ledger, Snapshot};
use vstd::prelude::*;

verus! {

/// Decides on flipping the star of the task `tid`: the new value of the flag,
/// where the task is known and the actor may edit it.
pub fn star(tid: i32, user: &AuthedUser, snapshot: &Snapshot) -> (r: Result<bool, Rejection>)
    ensures
        r == match row_of(snapshot.tasks@, tid) {
            None => Err::<bool, Rejection>(Rejection::NotFound { id: tid }),
            Some(task) => if can_edit(snapshot.permissions@, user.id, task.assign) {
                Ok(!task.is_starred)
            } else {
                Err(Rejection::NotEditable { id: tid })
            },
        },
{
    let ledger = Ledger::build(snapshot, user.id);
    match ledger.row(tid) {
        None => Err(Rejection::NotFound { id: tid }),
        Some(task) => {
            if ledger.may_edit(task.assign) {
                Ok(!task.is_starred)
            } else {
                Err(Rejection::NotEditable { id: tid })
            }
        },
    }
}

} // verus!
