//! Deletion in two phases: a first request is answered with a confirmation
//! token; the second, which carries the token, is carried out. Only the
//! assignee deletes a task, so both phases check every task asked for: a token
//! confirms the intent, not the right.

use crate::outline::AuthedUser;
use crate::rejection::Rejection;
use crate::sequences::lemma_take_contains;
use crate::store::{row_of, Ledger, Permission, Snapshot, TaskRecord};
use vstd::prelude::*;

verus! {

/// A deletion request: the tasks, and the token once it was issued.
#[derive(Debug)]
pub struct ReqBody {
    pub tasks: Vec<i32>,
    pub token: Option<String>,
}

/// The answer: the token to confirm with, or none once the tasks are gone.
#[derive(Debug)]
pub struct ResBody {
    pub token: Option<String>,
}

/// What the caller is to do with a deletion request.
#[derive(Debug)]
pub enum Phase {
    /// Every task asked for is the actor's own or unknown: issue a single-use
    /// token and answer "accepted".
    Confirm,
    /// Every task asked for is the actor's own or unknown: check the token; if
    /// it is the one issued, delete `tasks`, which are the tasks asked for
    /// that the store knows, and answer "ok".
    Execute { token: String, tasks: Vec<i32> },
}

/// The task `id` is known and assigned to somebody other than `actor`.
pub open spec fn foreign(tasks: Seq<TaskRecord>, actor: i32, id: i32) -> bool {
    match row_of(tasks, id) {
        Some(row) => row.assign != actor,
        None => false,
    }
}

/// The task `id` is known and assigned to `actor`.
pub open spec fn own(tasks: Seq<TaskRecord>, actor: i32, id: i32) -> bool {
    match row_of(tasks, id) {
        Some(row) => row.assign == actor,
        None => false,
    }
}

/// Every task asked for is the actor's own, or unknown to the store.
pub open spec fn all_own(tasks: Seq<TaskRecord>, actor: i32, asked: Seq<i32>) -> bool {
    forall|i: int| 0 <= i < asked.len() ==> !foreign(tasks, actor, #[trigger] asked[i])
}

/// `id` is the first of the tasks asked for that is somebody else's.
pub open spec fn stops_at_foreign(tasks: Seq<TaskRecord>, actor: i32, asked: Seq<i32>, id: i32) -> bool {
    exists|i: int| first_foreign(tasks, actor, asked, i) && asked[i] == id
}

/// Request position `i` holds the first task that is somebody else's.
pub open spec fn first_foreign(tasks: Seq<TaskRecord>, actor: i32, asked: Seq<i32>, i: int) -> bool {
    &&& 0 <= i < asked.len()
    &&& foreign(tasks, actor, asked[i])
    &&& forall|j: int| 0 <= j < i ==> !foreign(tasks, actor, #[trigger] asked[j])
}

impl ReqBody {
    /// The tasks asked for that the store knows, where all of them are the
    /// actor's own; else the first that is somebody else's.
    fn sift(
        &self,
        ledger: &Ledger,
        actor: i32,
        Ghost(tasks): Ghost<Seq<TaskRecord>>,
        Ghost(grants): Ghost<Seq<Permission>>,
    ) -> (r: Result<Vec<i32>, Rejection>)
        requires
            ledger.describes(tasks, grants, actor),
        ensures
            match r {
                Ok(known) => {
                    &&& all_own(tasks, actor, self.tasks@)
                    &&& forall|x: i32|
                        known@.contains(x) <==> self.tasks@.contains(x) && own(tasks, actor, x)
                },
                Err(Rejection::NotYours { id }) => stops_at_foreign(tasks, actor, self.tasks@, id),
                Err(_) => false,
            },
    {
        let mut known: Vec<i32> = Vec::new();
        let mut i: usize = 0;
        while i < self.tasks.len()
            invariant
                i <= self.tasks.len(),
                ledger.describes(tasks, grants, actor),
                forall|j: int| 0 <= j < i ==> !foreign(tasks, actor, #[trigger] self.tasks@[j]),
                forall|x: i32|
                    known@.contains(x) <==> self.tasks@.take(i as int).contains(x) && own(
                        tasks,
                        actor,
                        x,
                    ),
            decreases self.tasks.len() - i,
        {
            let id = self.tasks[i];
            let ghost before = known@;
            match ledger.row(id) {
                Some(row) => {
                    if row.assign != actor {
                        assert(first_foreign(tasks, actor, self.tasks@, i as int));
                        return Err(Rejection::NotYours { id });
                    }
                    known.push(id);
                },
                None => {},
            }
            proof {
                assert forall|x: i32|
                    known@.contains(x) <==> self.tasks@.take(i as int + 1).contains(x) && own(
                        tasks,
                        actor,
                        x,
                    ) by {
                    lemma_take_contains(self.tasks@, i as int, x);
                    if known@.len() > before.len() {
                        assert(known@ == before.push(id));
                        if before.contains(x) {
                            let m = choose|m: int| 0 <= m < before.len() && before[m] == x;
                            assert(known@[m] == x);
                        }
                        if known@.contains(x) {
                            let m = choose|m: int| 0 <= m < known@.len() && known@[m] == x;
                            if m < before.len() {
                                assert(before[m] == x);
                            }
                        }
                        assert(known@[before.len() as int] == id);
                    }
                }
            }
            i += 1;
        }
        proof {
            assert(self.tasks@.take(self.tasks@.len() as int) =~= self.tasks@);
        }
        Ok(known)
    }

    /// Whether the actor may delete every task asked for: each must be their
    /// own. The first that is not, in the order of the request, is reported.
    pub fn accept(&self, user: &AuthedUser, snapshot: &Snapshot) -> (r: Result<(), Rejection>)
        ensures
            match r {
                Ok(()) => all_own(snapshot.tasks@, user.id, self.tasks@),
                Err(Rejection::NotYours { id }) => stops_at_foreign(
                    snapshot.tasks@,
                    user.id,
                    self.tasks@,
                    id,
                ),
                Err(_) => false,
            },
    {
        let ledger = Ledger::build(snapshot, user.id);
        match self.sift(&ledger, user.id, Ghost(snapshot.tasks@), Ghost(snapshot.permissions@)) {
            Ok(_) => Ok(()),
            Err(e) => Err(e),
        }
    }
}

/// Decides a deletion request. In either phase every task asked for must be
/// the actor's own; the first that is not, in the order of the request, is
/// reported, whether or not a token came with it. Where all are, a request
/// without a token calls for a confirmation, and a request with a token is to
/// be carried out once the token proves to be the one issued: what is then to
/// be deleted are the tasks asked for that the store knows, each of them the
/// actor's own, and no other task.
pub fn delete(req: &ReqBody, user: &AuthedUser, snapshot: &Snapshot) -> (r: Result<Phase, Rejection>)
    ensures
        match r {
            Ok(phase) => {
                &&& all_own(snapshot.tasks@, user.id, req.tasks@)
                &&& match req.token {
                    None => phase is Confirm,
                    Some(asked) => phase matches Phase::Execute { token, tasks } && token == asked
                        && forall|x: i32|
                        tasks@.contains(x) <==> req.tasks@.contains(x) && own(
                            snapshot.tasks@,
                            user.id,
                            x,
                        ),
                }
            },
            Err(Rejection::NotYours { id }) => stops_at_foreign(
                snapshot.tasks@,
                user.id,
                req.tasks@,
                id,
            ),
            Err(_) => false,
        },
{
    let ledger = Ledger::build(snapshot, user.id);
    match req.sift(&ledger, user.id, Ghost(snapshot.tasks@), Ghost(snapshot.permissions@)) {
        Err(e) => Err(e),
        Ok(known) => match &req.token {
            None => Ok(Phase::Confirm),
            Some(token) => Ok(Phase::Execute { token: token.clone(), tasks: known }),
        },
    }
}

} // verus!
