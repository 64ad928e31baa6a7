//! Completion propagation: archiving a set of tasks together with everything
//! downstream of them, or bringing them back together with everything upstream.

use crate::closure::{lemma_reaches_itself, reaches_from};
use crate::graph::{reaches, Arrow, Arrows, Direction};
use crate::outline::AuthedUser;
use crate::rejection::Rejection;
use crate::sequences::{lemma_push_fresh, lemma_push_set, lemma_take_contains};
use crate::store::{can_edit, row_of, Ledger, Permission, Snapshot, TaskRecord};
use std::collections::HashSet;
use vstd::prelude::*;

verus! {

broadcast use vstd::std_specs::hash::group_hash_axioms;

/// A bulk transition: the tasks asked for, and whether to revert (unarchive)
/// rather than complete (archive).
#[derive(Debug)]
pub struct ReqBody {
    pub tasks: Vec<i32>,
    pub revert: bool,
}

/// How many tasks change state, and how many of them were not asked for.
#[derive(Clone, Copy, Debug, PartialEq, Eq, Structural)]
pub struct ResBody {
    pub count: usize,
    pub chain: usize,
}

/// The decision on a bulk transition: the tasks whose archived flag is to be
/// set to the opposite of `revert`, and the report.
#[derive(Debug)]
pub struct Transition {
    pub targets: Vec<i32>,
    pub res: ResBody,
}

/// The way a transition spreads: completion toward targets, reversion toward sources.
pub open spec fn spread(revert: bool) -> Direction {
    if revert {
        Direction::TowardSources
    } else {
        Direction::TowardTargets
    }
}

/// What is wrong with asking for the task `id`, if anything: it is unknown,
/// the actor may not edit it, or it is not in the state that the transition
/// starts from.
pub open spec fn objection(
    tasks: Seq<TaskRecord>,
    grants: Seq<Permission>,
    actor: i32,
    revert: bool,
    id: i32,
) -> Option<Rejection> {
    match row_of(tasks, id) {
        None => Some(Rejection::NotFound { id }),
        Some(row) => if !can_edit(grants, actor, row.assign) {
            Some(Rejection::NotEditable { id })
        } else if row.is_archived != revert {
            Some(Rejection::WrongState { id })
        } else {
            None
        },
    }
}

/// Nothing is wrong with any of the tasks asked for.
pub open spec fn unobjectionable(
    tasks: Seq<TaskRecord>,
    grants: Seq<Permission>,
    actor: i32,
    revert: bool,
    asked: Seq<i32>,
) -> bool {
    forall|i: int|
        0 <= i < asked.len() ==> objection(tasks, grants, actor, revert, #[trigger] asked[i]) is None
}

/// `e` is what is wrong with the first of the tasks asked for that something
/// is wrong with.
pub open spec fn first_objection(
    tasks: Seq<TaskRecord>,
    grants: Seq<Permission>,
    actor: i32,
    revert: bool,
    asked: Seq<i32>,
    e: Rejection,
) -> bool {
    exists|i: int|
        {
            &&& 0 <= i < asked.len()
            &&& objection(tasks, grants, actor, revert, #[trigger] asked[i]) == Some(e)
            &&& unobjectionable(tasks, grants, actor, revert, asked.take(i))
        }
}

/// The task `x` is reached from one of the seeds, and the actor may move it:
/// it is known, editable and in the state that the transition starts from.
pub open spec fn flips(
    tasks: Seq<TaskRecord>,
    grants: Seq<Permission>,
    actor: i32,
    arrows: Seq<Arrow>,
    seeds: Seq<i32>,
    revert: bool,
    x: i32,
) -> bool {
    &&& reaches_from(arrows, spread(revert), seeds, x)
    &&& objection(tasks, grants, actor, revert, x) is None
}

impl ReqBody {
    /// Checks the tasks asked for, in the order of the request, and lists them
    /// without repetition. The first task that is unknown, not editable or in
    /// the wrong state is reported.
    pub fn verify(&self, user: &AuthedUser, snapshot: &Snapshot) -> (r: Result<Vec<i32>, Rejection>)
        ensures
            match r {
                Ok(entries) => {
                    &&& unobjectionable(
                        snapshot.tasks@,
                        snapshot.permissions@,
                        user.id,
                        self.revert,
                        self.tasks@,
                    )
                    &&& entries@.no_duplicates()
                    &&& entries@.to_set() == self.tasks@.to_set()
                },
                Err(e) => first_objection(
                    snapshot.tasks@,
                    snapshot.permissions@,
                    user.id,
                    self.revert,
                    self.tasks@,
                    e,
                ),
            },
    {
        let ledger = Ledger::build(snapshot, user.id);
        self.verify_in(&ledger, Ghost(snapshot.tasks@), Ghost(snapshot.permissions@), Ghost(user.id))
    }

    fn verify_in(
        &self,
        ledger: &Ledger,
        Ghost(tasks): Ghost<Seq<TaskRecord>>,
        Ghost(grants): Ghost<Seq<Permission>>,
        Ghost(actor): Ghost<i32>,
    ) -> (r: Result<Vec<i32>, Rejection>)
        requires
            ledger.describes(tasks, grants, actor),
        ensures
            match r {
                Ok(entries) => {
                    &&& unobjectionable(tasks, grants, actor, self.revert, self.tasks@)
                    &&& entries@.no_duplicates()
                    &&& entries@.to_set() == self.tasks@.to_set()
                },
                Err(e) => first_objection(tasks, grants, actor, self.revert, self.tasks@, e),
            },
    {
        let mut seen: HashSet<i32> = HashSet::new();
        let mut entries: Vec<i32> = Vec::new();
        let mut i: usize = 0;
        while i < self.tasks.len()
            invariant
                i <= self.tasks.len(),
                ledger.describes(tasks, grants, actor),
                unobjectionable(tasks, grants, actor, self.revert, self.tasks@.take(i as int)),
                entries@.no_duplicates(),
                seen@ == entries@.to_set(),
                entries@.to_set() == self.tasks@.take(i as int).to_set(),
            decreases self.tasks.len() - i,
        {
            let id = self.tasks[i];
            let wrong = match ledger.row(id) {
                None => Some(Rejection::NotFound { id }),
                Some(row) => if !ledger.may_edit(row.assign) {
                    Some(Rejection::NotEditable { id })
                } else if row.is_archived != self.revert {
                    Some(Rejection::WrongState { id })
                } else {
                    None
                },
            };
            assert(wrong == objection(tasks, grants, actor, self.revert, self.tasks@[i as int]));
            match wrong {
                Some(e) => {
                    return Err(e);
                },
                None => {},
            }
            let ghost before = entries@;
            if !seen.contains(&id) {
                seen.insert(id);
                entries.push(id);
                proof {
                    lemma_push_fresh(before, id);
                }
            }
            proof {
                let shorter = self.tasks@.take(i as int);
                let longer = self.tasks@.take(i as int + 1);
                assert(longer =~= shorter.push(id));
                lemma_push_set(shorter, id);
                if before.contains(id) {
                    assert(before.to_set().insert(id) =~= before.to_set());
                }
                assert forall|j: int| 0 <= j < longer.len() implies objection(
                    tasks,
                    grants,
                    actor,
                    self.revert,
                    #[trigger] longer[j],
                ) is None by {
                    if j < i {
                        assert(shorter[j] == longer[j]);
                    }
                }
            }
            i += 1;
        }
        proof {
            assert(self.tasks@.take(self.tasks@.len() as int) =~= self.tasks@);
        }
        Ok(entries)
    }
}

/// Decides a bulk transition. Every task asked for must be known, editable and
/// in the state that the transition starts from; the first that is not is
/// reported. The targets are then the tasks of the closures of the tasks asked
/// for, in the direction of the transition, that the actor may move; `count`
/// is their number and `chain` the number of those that were not asked for.
pub fn exec(req: &ReqBody, user: &AuthedUser, snapshot: &Snapshot, arrows: &Arrows) -> (r: Result<
    Transition,
    Rejection,
>)
    ensures
        match r {
            Ok(plan) => {
                &&& unobjectionable(
                    snapshot.tasks@,
                    snapshot.permissions@,
                    user.id,
                    req.revert,
                    req.tasks@,
                )
                &&& plan.targets@.no_duplicates()
                &&& forall|x: i32|
                    plan.targets@.contains(x) <==> flips(
                        snapshot.tasks@,
                        snapshot.permissions@,
                        user.id,
                        arrows@,
                        req.tasks@,
                        req.revert,
                        x,
                    )
                &&& plan.res.count == plan.targets@.len()
                &&& plan.res.chain == plan.res.count - req.tasks@.to_set().len()
            },
            Err(e) => first_objection(
                snapshot.tasks@,
                snapshot.permissions@,
                user.id,
                req.revert,
                req.tasks@,
                e,
            ),
        },
{
    let ghost tasks = snapshot.tasks@;
    let ghost grants = snapshot.permissions@;
    let ghost seeds = req.tasks@;
    let ledger = Ledger::build(snapshot, user.id);
    let entries = match req.verify_in(&ledger, Ghost(tasks), Ghost(grants), Ghost(user.id)) {
        Ok(entries) => entries,
        Err(e) => {
            return Err(e);
        },
    };
    let direction = if req.revert {
        Direction::TowardSources
    } else {
        Direction::TowardTargets
    };
    let closure = arrows.closure(&entries, direction);
    let mut targets: Vec<i32> = Vec::new();
    let mut j: usize = 0;
    while j < closure.len()
        invariant
            j <= closure.len(),
            ledger.describes(tasks, grants, user.id),
            closure@.no_duplicates(),
            targets@.no_duplicates(),
            forall|x: i32|
                targets@.contains(x) <==> closure@.take(j as int).contains(x) && objection(
                    tasks,
                    grants,
                    user.id,
                    req.revert,
                    x,
                ) is None,
        decreases closure.len() - j,
    {
        let x = closure[j];
        let ghost before = targets@;
        let moves = match ledger.row(x) {
            None => false,
            Some(row) => ledger.may_edit(row.assign) && row.is_archived == req.revert,
        };
        proof {
            assert(moves == (objection(tasks, grants, user.id, req.revert, x) is None));
            if closure@.take(j as int).contains(x) {
                let m = choose|m: int| 0 <= m < j && closure@.take(j as int)[m] == x;
                assert(closure@[m] == closure@[j as int]);
            }
        }
        if moves {
            targets.push(x);
            proof {
                lemma_push_fresh(before, x);
            }
        }
        proof {
            assert forall|y: i32|
                targets@.contains(y) <==> closure@.take(j as int + 1).contains(y) && objection(
                    tasks,
                    grants,
                    user.id,
                    req.revert,
                    y,
                ) is None by {
                lemma_take_contains(closure@, j as int, y);
                if moves {
                    assert(targets@.to_set().contains(y) <==> targets@.contains(y));
                    assert(before.to_set().contains(y) <==> before.contains(y));
                }
            }
        }
        j += 1;
    }
    proof {
        assert(closure@.take(closure@.len() as int) =~= closure@);
        assert forall|x: i32| reaches_from(arrows@, direction, entries@, x) <==> reaches_from(
            arrows@,
            direction,
            seeds,
            x,
        ) by {
            if reaches_from(arrows@, direction, entries@, x) {
                let k = choose|k: int|
                    0 <= k < entries@.len() && reaches(arrows@, direction, #[trigger] entries@[k], x);
                assert(entries@.to_set().contains(entries@[k]));
                assert(seeds.to_set().contains(entries@[k]));
                let m = choose|m: int| 0 <= m < seeds.len() && seeds[m] == entries@[k];
                assert(reaches(arrows@, direction, seeds[m], x));
            }
            if reaches_from(arrows@, direction, seeds, x) {
                let m = choose|m: int|
                    0 <= m < seeds.len() && reaches(arrows@, direction, #[trigger] seeds[m], x);
                assert(seeds.to_set().contains(seeds[m]));
                assert(entries@.to_set().contains(seeds[m]));
                let k = choose|k: int| 0 <= k < entries@.len() && entries@[k] == seeds[m];
                assert(reaches(arrows@, direction, entries@[k], x));
            }
        }
        // every task asked for is a target, so there are no fewer targets
        entries@.unique_seq_to_set();
        targets@.unique_seq_to_set();
        assert(entries@.to_set().subset_of(targets@.to_set())) by {
            assert forall|x: i32| entries@.to_set().contains(x) implies targets@.to_set().contains(
                x,
            ) by {
                let k = choose|k: int| 0 <= k < entries@.len() && entries@[k] == x;
                lemma_reaches_itself(arrows@, direction, x);
                assert(reaches(arrows@, direction, entries@[k], x));
                assert(seeds.to_set().contains(x));
                let m = choose|m: int| 0 <= m < seeds.len() && seeds[m] == x;
                assert(objection(tasks, grants, user.id, req.revert, seeds[m]) is None);
            }
        }
        vstd::set_lib::lemma_len_subset(entries@.to_set(), targets@.to_set());
    }
    let count = targets.len();
    let chain = count - entries.len();
    Ok(Transition { targets, res: ResBody { count, chain } })
}

} // verus!
