//! Ingestion of an outline: compiling it for a requester and validating the
//! batch against what the store knows, in one step. Nothing is stored here;
//! what comes back is ready to be stored, or the reason why nothing is.

use crate::accept::{accepted, assignee, lemma_cycle_is_refused_as_loop, ok_task, refusal, Upserter};
use crate::graph::cyclic;
use crate::outline::{
    compiled_arrows, given, instants_in, tmp_task, unresolved, AuthedUser, Instants, ReqTask,
    ReqTasks, TmpTask,
};
use crate::rejection::Rejection;
use crate::store::Snapshot;
use vstd::prelude::*;

verus! {

/// The instants that the moments of each line name in the zone `tz`.
pub open spec fn instants_of(lines: Seq<ReqTask>, tz: Seq<char>) -> Seq<Instants> {
    Seq::new(lines.len(), |k: int| instants_in(lines[k], tz))
}

/// The temporary tasks that the lines compile to, given the instants of
/// their moments.
pub open spec fn compiled_tasks(lines: Seq<ReqTask>, at: Seq<Instants>) -> Seq<TmpTask> {
    Seq::new(lines.len(), |k: int| tmp_task(lines[k], given(at, k)))
}

/// Every moment of every line names an instant.
pub open spec fn resolved(lines: Seq<ReqTask>, at: Seq<Instants>) -> bool {
    forall|k: int| 0 <= k < lines.len() ==> unresolved(#[trigger] lines[k], given(at, k)) is None
}

/// What ingesting the lines gives: the validated batch; or the first moment
/// that names no instant; or, where all do, the rejection of the compiled
/// batch by the first check that fails.
pub open spec fn ingests(
    lines: Seq<ReqTask>,
    user: AuthedUser,
    snapshot: Snapshot,
    r: Result<Upserter, Rejection>,
) -> bool {
    let at = instants_of(lines, user.tz@);
    let batch = compiled_tasks(lines, at);
    let wires = compiled_arrows(lines, lines.len() as int);
    match r {
        Ok(passed) => {
            &&& resolved(lines, at)
            &&& accepted(
                batch,
                wires,
                snapshot.tasks@,
                snapshot.users@,
                snapshot.permissions@,
                user.id,
            )
            &&& passed.wires() == wires
            &&& passed.lines().len() == lines.len()
            &&& forall|k: int|
                0 <= k < lines.len() ==> (assignee(
                    snapshot.users@,
                    snapshot.permissions@,
                    user.id,
                    batch[k],
                ) matches Some(assign) && #[trigger] passed.lines()[k] == ok_task(batch[k], assign))
        },
        Err(Rejection::Unresolved { line, field }) => {
            &&& line < lines.len()
            &&& unresolved(lines[line as int], given(at, line as int)) == Some(field)
            &&& resolved(lines.take(line as int), at)
        },
        Err(e) => {
            &&& resolved(lines, at)
            &&& refusal(
                batch,
                wires,
                snapshot.tasks@,
                snapshot.users@,
                snapshot.permissions@,
                user.id,
                e,
            )
        },
    }
}

/// Ingests an outline for a requester: each moment is read in the
/// requester's zone, the lines are compiled to temporary tasks and arrows, and
/// the batch is validated against what the store knows. The batch passes
/// whole or not at all.
pub fn text(outline: &ReqTasks, user: &AuthedUser, snapshot: &Snapshot) -> (r: Result<
    Upserter,
    Rejection,
>)
    requires
        outline.tasks.len() <= i32::MAX,
    ensures
        ingests(outline.tasks@, *user, *snapshot, r),
{
    let ghost lines = outline.tasks@;
    let ghost at = instants_of(lines, user.tz@);
    let batch = match outline.read(user) {
        Ok(batch) => batch,
        Err(e) => {
            proof {
                match e {
                    Rejection::Unresolved { line, field } => {
                        assert forall|k: int| 0 <= k < line implies unresolved(
                            #[trigger] lines.take(line as int)[k],
                            given(at, k),
                        ) is None by {
                            assert(lines.take(line as int)[k] == lines[k]);
                        }
                    },
                    _ => {},
                }
            }
            return Err(e);
        },
    };
    assert(batch.lines() =~= compiled_tasks(lines, at));
    batch.accept(user, snapshot)
}

/// An outline whose arrows hold a cycle is rejected as a loop, and nothing of
/// it is ready to be stored, once its moments are read.
pub proof fn lemma_cyclic_outline_is_refused(
    lines: Seq<ReqTask>,
    user: AuthedUser,
    snapshot: Snapshot,
    r: Result<Upserter, Rejection>,
)
    requires
        ingests(lines, user, snapshot, r),
        resolved(lines, instants_of(lines, user.tz@)),
        cyclic(compiled_arrows(lines, lines.len() as int)),
    ensures
        r matches Err(e) && e == Rejection::Loop,
{
    let at = instants_of(lines, user.tz@);
    match r {
        Ok(_) => {},
        Err(e) => {
            match e {
                Rejection::Unresolved { line, field } => {
                    assert(unresolved(lines[line as int], given(at, line as int)) is None);
                },
                _ => {},
            }
            lemma_cycle_is_refused_as_loop(
                compiled_tasks(lines, at),
                compiled_arrows(lines, lines.len() as int),
                snapshot.tasks@,
                snapshot.users@,
                snapshot.permissions@,
                user.id,
                e,
            );
        },
    }
}

} // verus!
