//! The batch validator: the checks that a compiled batch passes before any of
//! it is stored. The first violation found is reported, in a fixed order of
//! checks, and nothing is accepted in part.

use crate::chains::{is_chain, lists_path};
use crate::graph::{cyclic, has_edge, is_walk, step, Arrow, Arrows, Direction};
use crate::outline::{copy_text, in_range, Acceptor, AuthedUser, TmpTask};
use crate::rewiring::{
    carried, lemma_carried_joined, lemma_carried_one, lemma_walk_through_two_tasks,
    lemma_walk_within, rewired, rewired_by,
};
use crate::rejection::Rejection;
use crate::store::{can_edit, editable, Ledger, Permission, Snapshot, TaskRecord, UserRecord};
use std::collections::HashSet;
use vstd::prelude::*;

verus! {

broadcast use vstd::std_specs::hash::group_hash_axioms;

/// A task of a batch that passed validation: its assignee is resolved.
#[derive(Debug)]
pub struct TmpTaskOk {
    pub id: Option<i32>,
    pub title: String,
    pub assign: i32,
    pub is_starred: bool,
    pub startable: Option<i64>,
    pub deadline: Option<i64>,
    pub weight: Option<u32>,
    pub link: Option<String>,
}

/// A validated batch, ready to be stored.
#[derive(Debug)]
pub struct Upserter {
    pub(crate) tasks: Vec<TmpTaskOk>,
    pub(crate) arrows: Arrows,
}

impl Upserter {
    #[verifier::type_invariant]
    pub(crate) open spec fn wired_within(&self) -> bool {
        in_range(self.tasks@.len(), self.arrows@)
    }

    /// The tasks of the batch, in the order of its lines.
    pub open(crate) spec fn lines(&self) -> Seq<TmpTaskOk> {
        self.tasks@
    }

    /// The arrows of the batch, over positions.
    pub open(crate) spec fn wires(&self) -> Seq<Arrow> {
        self.arrows@
    }
}

/// The task's deadline lies before its startable moment.
pub open spec fn inverted(task: TmpTask) -> bool {
    match (task.startable, task.deadline) {
        (Some(startable), Some(deadline)) => deadline < startable,
        _ => false,
    }
}

/// No task has its deadline before its startable moment.
pub open spec fn punctual(lines: Seq<TmpTask>) -> bool {
    forall|k: int| 0 <= k < lines.len() ==> !inverted(#[trigger] lines[k])
}

/// Two of the first `upto` lines reference the task `id`.
pub open spec fn duplicated_within(lines: Seq<TmpTask>, upto: int, id: i32) -> bool {
    exists|i: int, j: int|
        0 <= i < j < upto && (#[trigger] lines[i]).id == Some(id) && (#[trigger] lines[j]).id
            == Some(id)
}

/// Two lines reference the task `id`.
pub open spec fn duplicated(lines: Seq<TmpTask>, id: i32) -> bool {
    duplicated_within(lines, lines.len() as int, id)
}

/// No two lines reference the same task.
pub open spec fn distinct_ids(lines: Seq<TmpTask>) -> bool {
    forall|id: i32| !duplicated(lines, id)
}

/// Every referenced task is known and may be edited by the actor.
pub open spec fn all_editable(
    lines: Seq<TmpTask>,
    tasks: Seq<TaskRecord>,
    grants: Seq<Permission>,
    actor: i32,
) -> bool {
    forall|k: int|
        0 <= k < lines.len() ==> ((#[trigger] lines[k]).id matches Some(id) ==> editable(
            tasks,
            grants,
            actor,
            id,
        ))
}

/// Row `k` is the first user called `name` that the actor may edit.
pub open spec fn is_assignee_row(
    users: Seq<UserRecord>,
    grants: Seq<Permission>,
    actor: i32,
    name: Seq<char>,
    k: int,
) -> bool {
    &&& 0 <= k < users.len()
    &&& users[k].name@ == name
    &&& can_edit(grants, actor, users[k].id)
    &&& forall|j: int|
        0 <= j < k ==> !((#[trigger] users[j]).name@ == name && can_edit(grants, actor, users[j].id))
}

/// The assignee of a task: the actor where none is named, else the first user
/// of that name that the actor may edit.
pub open spec fn assignee(
    users: Seq<UserRecord>,
    grants: Seq<Permission>,
    actor: i32,
    task: TmpTask,
) -> Option<i32> {
    match task.assign {
        None => Some(actor),
        Some(name) => if exists|k: int| is_assignee_row(users, grants, actor, name@, k) {
            Some(users[choose|k: int| is_assignee_row(users, grants, actor, name@, k)].id)
        } else {
            None
        },
    }
}

/// Every task has an assignee.
pub open spec fn all_assignable(
    lines: Seq<TmpTask>,
    users: Seq<UserRecord>,
    grants: Seq<Permission>,
    actor: i32,
) -> bool {
    forall|k: int|
        0 <= k < lines.len() ==> assignee(users, grants, actor, #[trigger] lines[k]) is Some
}

/// The batch passes every check.
pub open spec fn accepted(
    lines: Seq<TmpTask>,
    wires: Seq<Arrow>,
    tasks: Seq<TaskRecord>,
    users: Seq<UserRecord>,
    grants: Seq<Permission>,
    actor: i32,
) -> bool {
    &&& !cyclic(wires)
    &&& punctual(lines)
    &&& distinct_ids(lines)
    &&& !rewired(lines, wires)
    &&& all_editable(lines, tasks, grants, actor)
    &&& all_assignable(lines, users, grants, actor)
}

/// The validated form of a task.
pub open spec fn ok_task(task: TmpTask, assign: i32) -> TmpTaskOk {
    TmpTaskOk {
        id: task.id,
        title: task.title,
        assign,
        is_starred: task.is_starred,
        startable: task.startable,
        deadline: task.deadline,
        weight: task.weight,
        link: task.link,
    }
}

/// The line references a task that is unknown or that the actor may not edit,
/// and no line above it does.
pub open spec fn first_uneditable(
    lines: Seq<TmpTask>,
    tasks: Seq<TaskRecord>,
    grants: Seq<Permission>,
    actor: i32,
    k: int,
    id: i32,
) -> bool {
    &&& 0 <= k < lines.len()
    &&& lines[k].id == Some(id)
    &&& !editable(tasks, grants, actor, id)
    &&& forall|j: int|
        0 <= j < k ==> ((#[trigger] lines[j]).id matches Some(i) ==> editable(
            tasks,
            grants,
            actor,
            i,
        ))
}

/// Some line is the first to reference the task `id`, which is unknown or which
/// the actor may not edit, while the lines above it reference editable tasks.
pub open spec fn stops_at_uneditable(
    lines: Seq<TmpTask>,
    tasks: Seq<TaskRecord>,
    grants: Seq<Permission>,
    actor: i32,
    id: i32,
) -> bool {
    exists|k: int| first_uneditable(lines, tasks, grants, actor, k, id)
}

/// When a batch is turned down with `e`: the check that `e` belongs to is the
/// first that fails, and `e` names the first offender that this check meets.
pub open spec fn refusal(
    lines: Seq<TmpTask>,
    wires: Seq<Arrow>,
    tasks: Seq<TaskRecord>,
    users: Seq<UserRecord>,
    grants: Seq<Permission>,
    actor: i32,
    e: Rejection,
) -> bool {
    match e {
        Rejection::Loop => cyclic(wires),
        Rejection::DeadlineBeforeStartable { line } => {
            &&& !cyclic(wires)
            &&& line < lines.len()
            &&& inverted(lines[line as int])
            &&& forall|k: int| 0 <= k < line ==> !inverted(#[trigger] lines[k])
        },
        Rejection::Duplicate { id } => {
            &&& !cyclic(wires)
            &&& punctual(lines)
            &&& duplicated(lines, id)
            &&& forall|other: i32| other < id ==> !duplicated(lines, other)
        },
        Rejection::Rewiring { first, second } => {
            &&& !cyclic(wires)
            &&& punctual(lines)
            &&& distinct_ids(lines)
            &&& rewired_by(lines, wires, first, second)
        },
        Rejection::NotEditable { id } => {
            &&& !cyclic(wires)
            &&& punctual(lines)
            &&& distinct_ids(lines)
            &&& !rewired(lines, wires)
            &&& stops_at_uneditable(lines, tasks, grants, actor, id)
        },
        Rejection::UnknownAssignee { line } => {
            &&& !cyclic(wires)
            &&& punctual(lines)
            &&& distinct_ids(lines)
            &&& !rewired(lines, wires)
            &&& all_editable(lines, tasks, grants, actor)
            &&& line < lines.len()
            &&& assignee(users, grants, actor, lines[line as int]) is None
            &&& forall|k: int| 0 <= k < line ==> assignee(users, grants, actor, #[trigger] lines[k]) is Some
        },
        _ => false,
    }
}

/// A batch whose arrows hold a cycle is turned down as a loop and as nothing
/// else, whatever its lines say and whatever the store knows.
pub proof fn lemma_cycle_is_refused_as_loop(
    lines: Seq<TmpTask>,
    wires: Seq<Arrow>,
    tasks: Seq<TaskRecord>,
    users: Seq<UserRecord>,
    grants: Seq<Permission>,
    actor: i32,
    e: Rejection,
)
    requires
        cyclic(wires),
    ensures
        !accepted(lines, wires, tasks, users, grants, actor),
        refusal(lines, wires, tasks, users, grants, actor, e) <==> e == Rejection::Loop,
{
}

/// A batch that is turned down has not passed every check.
pub proof fn lemma_refusal_is_no_acceptance(
    lines: Seq<TmpTask>,
    wires: Seq<Arrow>,
    tasks: Seq<TaskRecord>,
    users: Seq<UserRecord>,
    grants: Seq<Permission>,
    actor: i32,
    e: Rejection,
)
    requires
        refusal(lines, wires, tasks, users, grants, actor, e),
    ensures
        !accepted(lines, wires, tasks, users, grants, actor),
{
    match e {
        Rejection::DeadlineBeforeStartable { line } => {
            assert(inverted(lines[line as int]));
        },
        Rejection::Rewiring { first, second } => {
            let p = choose|p: Seq<i32>|
                {
                    &&& #[trigger] is_chain(wires, p)
                    &&& carried(lines, p).len() >= 2
                    &&& carried(lines, p)[0] == first
                    &&& carried(lines, p)[1] == second
                };
            assert(is_chain(wires, p) && carried(lines, p).len() >= 2);
        },
        Rejection::NotEditable { id } => {
            let k = choose|k: int| first_uneditable(lines, tasks, grants, actor, k, id);
            assert(lines[k].id == Some(id));
        },
        Rejection::UnknownAssignee { line } => {
            assert(assignee(users, grants, actor, lines[line as int]) is None);
        },
        _ => {},
    }
}

/// The first user of a name is the assignee.
pub proof fn lemma_assignee(
    users: Seq<UserRecord>,
    grants: Seq<Permission>,
    actor: i32,
    task: TmpTask,
    k: int,
)
    requires
        task.assign matches Some(name) && is_assignee_row(users, grants, actor, name@, k),
    ensures
        assignee(users, grants, actor, task) == Some(users[k].id),
{
    let name = task.assign->0;
    let c = choose|c: int| is_assignee_row(users, grants, actor, name@, c);
    if c < k {
        assert(!(users[c].name@ == name@ && can_edit(grants, actor, users[c].id)));
    }
    if k < c {
        assert(!(users[k].name@ == name@ && can_edit(grants, actor, users[k].id)));
    }
}

impl Acceptor {
    /// The first check: the arrows of the batch hold no cycle.
    pub fn no_loop(&self) -> (r: Result<(), Rejection>)
        ensures
            match r {
                Ok(()) => !cyclic(self.wires()),
                Err(e) => e == Rejection::Loop && cyclic(self.wires()),
            },
    {
        if self.arrows.has_cycle() {
            return Err(Rejection::Loop);
        }
        Ok(())
    }

    /// The second check: no task has its deadline before its startable moment;
    /// the first line that has is reported.
    pub fn valid_sd(&self) -> (r: Result<(), Rejection>)
        ensures
            match r {
                Ok(()) => punctual(self.lines()),
                Err(Rejection::DeadlineBeforeStartable { line }) => {
                    &&& line < self.lines().len()
                    &&& inverted(self.lines()[line as int])
                    &&& forall|k: int| 0 <= k < line ==> !inverted(#[trigger] self.lines()[k])
                },
                Err(_) => false,
            },
    {
        let mut k: usize = 0;
        while k < self.tasks.len()
            invariant
                k <= self.tasks.len(),
                forall|j: int| 0 <= j < k ==> !inverted(#[trigger] self.lines()[j]),
            decreases self.tasks.len() - k,
        {
            let task = &self.tasks[k];
            match (task.startable, task.deadline) {
                (Some(startable), Some(deadline)) => {
                    if deadline < startable {
                        return Err(Rejection::DeadlineBeforeStartable { line: k });
                    }
                },
                _ => {},
            }
            k += 1;
        }
        Ok(())
    }

    /// The third check: no task is referenced by two lines; the least
    /// identifier that is referenced twice is reported.
    pub fn tid_unique(&self) -> (r: Result<(), Rejection>)
        ensures
            match r {
                Ok(()) => distinct_ids(self.lines()),
                Err(Rejection::Duplicate { id }) => {
                    &&& duplicated(self.lines(), id)
                    &&& forall|other: i32| other < id ==> !duplicated(self.lines(), other)
                },
                Err(_) => false,
            },
    {
        let ghost lines = self.lines();
        let mut seen: HashSet<i32> = HashSet::new();
        let mut least: Option<i32> = None;
        let mut k: usize = 0;
        while k < self.tasks.len()
            invariant
                k <= self.tasks.len(),
                lines == self.tasks@,
                forall|id: i32|
                    seen@.contains(id) <==> exists|j: int|
                        0 <= j < k && (#[trigger] lines[j]).id == Some(id),
                match least {
                    Some(m) => duplicated_within(lines, k as int, m) && forall|other: i32|
                        other < m ==> !duplicated_within(lines, k as int, other),
                    None => forall|other: i32| !duplicated_within(lines, k as int, other),
                },
            decreases self.tasks.len() - k,
        {
            let ghost before = seen@;
            let ghost next = k as int + 1;
            match self.tasks[k].id {
                Some(id) => {
                    if seen.contains(&id) {
                        least =
                        match least {
                            Some(m) => if m <= id {
                                Some(m)
                            } else {
                                Some(id)
                            },
                            None => Some(id),
                        };
                    } else {
                        seen.insert(id);
                    }
                },
                None => {},
            }
            proof {
                assert forall|id: i32|
                    seen@.contains(id) <==> exists|j: int|
                        0 <= j < k + 1 && (#[trigger] lines[j]).id == Some(id) by {
                    if before.contains(id) {
                        let j = choose|j: int| 0 <= j < k && (#[trigger] lines[j]).id == Some(id);
                        assert(lines[j].id == Some(id));
                    }
                    if lines[k as int].id == Some(id) {
                        assert(seen@.contains(id));
                    }
                    if exists|j: int| 0 <= j < k + 1 && (#[trigger] lines[j]).id == Some(id) {
                        let j = choose|j: int|
                            0 <= j < k + 1 && (#[trigger] lines[j]).id == Some(id);
                        if j < k {
                            assert(before.contains(id));
                        }
                    }
                }
                assert forall|x: i32| #[trigger]
                    duplicated_within(lines, next, x) <==> duplicated_within(
                        lines,
                        k as int,
                        x,
                    ) || (lines[k as int].id == Some(x) && before.contains(x)) by {
                    if duplicated_within(lines, next, x) {
                        let (i, j) = choose|i: int, j: int|
                            0 <= i < j < k + 1 && (#[trigger] lines[i]).id == Some(x) && (
                            #[trigger] lines[j]).id == Some(x);
                        if j < k {
                            assert(duplicated_within(lines, k as int, x));
                        } else {
                            assert(before.contains(x));
                        }
                    }
                    if duplicated_within(lines, k as int, x) {
                        let (i, j) = choose|i: int, j: int|
                            0 <= i < j < k && (#[trigger] lines[i]).id == Some(x) && (
                            #[trigger] lines[j]).id == Some(x);
                        assert(0 <= i < j < k + 1 && lines[i].id == Some(x) && lines[j].id == Some(
                            x,
                        ));
                    }
                    if lines[k as int].id == Some(x) && before.contains(x) {
                        let i = choose|i: int| 0 <= i < k && (#[trigger] lines[i]).id == Some(x);
                        assert(0 <= i < k < k + 1 && lines[i].id == Some(x) && lines[k as int].id
                            == Some(x));
                    }
                }
            }
            assert(match least {
                Some(m) => duplicated_within(lines, next, m) && forall|other: i32|
                    other < m ==> !duplicated_within(lines, next, other),
                None => forall|other: i32| !duplicated_within(lines, next, other),
            });
            k += 1;
        }
        match least {
            Some(id) => Err(Rejection::Duplicate { id }),
            None => Ok(()),
        }
    }
}

/// Every node of the path is a position of the batch.
pub open spec fn positions(count: nat, path: Seq<i32>) -> bool {
    forall|i: int| 0 <= i < path.len() ==> 0 <= #[trigger] path[i] < count
}

impl Acceptor {
    /// Whether a path of the batch passes at most one line that references an
    /// existing task. Where it passes more, the first two tasks so referenced
    /// are named, in the order of the path.
    pub fn tid_single_by(&self, path: &Vec<i32>) -> (r: Result<(), Rejection>)
        requires
            positions(self.lines().len(), path@),
        ensures
            match r {
                Ok(()) => carried(self.lines(), path@).len() <= 1,
                Err(Rejection::Rewiring { first, second }) => {
                    &&& carried(self.lines(), path@).len() >= 2
                    &&& carried(self.lines(), path@)[0] == first
                    &&& carried(self.lines(), path@)[1] == second
                },
                Err(_) => false,
            },
    {
        let ghost lines = self.lines();
        let mut ids: Vec<i32> = Vec::new();
        let mut m: usize = 0;
        while m < path.len()
            invariant
                m <= path.len(),
                lines == self.tasks@,
                positions(lines.len(), path@),
                ids@ == carried(lines, path@.take(m as int)),
            decreases path.len() - m,
        {
            let node = path[m];
            proof {
                assert(0 <= path@[m as int] < lines.len());
                assert(path@.take(m as int + 1).drop_last() =~= path@.take(m as int));
                assert(path@.take(m as int + 1).last() == node);
            }
            match self.tasks[node as usize].id {
                Some(id) => {
                    ids.push(id);
                },
                None => {},
            }
            m += 1;
        }
        proof {
            assert(path@.take(path@.len() as int) =~= path@);
        }
        if ids.len() > 1 {
            return Err(Rejection::Rewiring { first: ids[0], second: ids[1] });
        }
        Ok(())
    }

    fn valid_tid_use(&self) -> (r: Result<(), Rejection>)
        requires
            !cyclic(self.wires()),
        ensures
            match r {
                Ok(()) => distinct_ids(self.lines()) && !rewired(self.lines(), self.wires()),
                Err(Rejection::Duplicate { id }) => {
                    &&& duplicated(self.lines(), id)
                    &&& forall|other: i32| other < id ==> !duplicated(self.lines(), other)
                },
                Err(Rejection::Rewiring { first, second }) => {
                    &&& distinct_ids(self.lines())
                    &&& rewired_by(self.lines(), self.wires(), first, second)
                },
                Err(_) => false,
            },
    {
        match self.tid_unique() {
            Err(e) => {
                return Err(e);
            },
            Ok(()) => {},
        }
        let paths = self.arrows.paths();
        let mut i: usize = 0;
        while i < paths.len()
            invariant
                i <= paths.len(),
                distinct_ids(self.lines()),
                forall|p: Seq<i32>| is_chain(self.wires(), p) <==> #[trigger] lists_path(paths@, p),
                forall|j: int| 0 <= j < i ==> carried(self.lines(), (#[trigger] paths@[j])@).len() <= 1,
            decreases paths.len() - i,
        {
            proof {
                assert(lists_path(paths@, paths@[i as int]@));
                use_type_invariant(self);
                assert forall|k: int| 0 <= k < paths@[i as int]@.len() implies 0
                    <= #[trigger] paths@[i as int]@[k] < self.lines().len() by {
                    lemma_walk_within(self.lines().len(), self.wires(), paths@[i as int]@, k);
                }
            }
            match self.tid_single_by(&paths[i]) {
                Err(e) => {
                    proof {
                        let p = paths@[i as int]@;
                        assert(is_chain(self.wires(), p));
                        match e {
                            Rejection::Rewiring { first, second } => {
                                assert(is_chain(self.wires(), p) && carried(self.lines(), p).len()
                                    >= 2 && carried(self.lines(), p)[0] == first && carried(
                                    self.lines(),
                                    p,
                                )[1] == second);
                            },
                            _ => {},
                        }
                    }
                    return Err(e);
                },
                Ok(()) => {},
            }
            i += 1;
        }
        proof {
            if rewired(self.lines(), self.wires()) {
                let p = choose|p: Seq<i32>| #[trigger]
                    is_chain(self.wires(), p) && carried(self.lines(), p).len() >= 2;
                assert(lists_path(paths@, p));
                let k = choose|k: int| 0 <= k < paths@.len() && (#[trigger] paths@[k])@ == p;
                assert(carried(self.lines(), paths@[k]@).len() <= 1);
            }
        }
        Ok(())
    }

    fn valid_tid(
        &self,
        ledger: &Ledger,
        Ghost(tasks): Ghost<Seq<TaskRecord>>,
        Ghost(grants): Ghost<Seq<Permission>>,
        Ghost(actor): Ghost<i32>,
    ) -> (r: Result<(), Rejection>)
        requires
            ledger.describes(tasks, grants, actor),
        ensures
            match r {
                Ok(()) => all_editable(self.lines(), tasks, grants, actor),
                Err(Rejection::NotEditable { id }) => stops_at_uneditable(
                    self.lines(),
                    tasks,
                    grants,
                    actor,
                    id,
                ),
                Err(_) => false,
            },
    {
        let ghost lines = self.lines();
        let mut k: usize = 0;
        while k < self.tasks.len()
            invariant
                k <= self.tasks.len(),
                lines == self.tasks@,
                ledger.describes(tasks, grants, actor),
                forall|j: int|
                    0 <= j < k ==> ((#[trigger] lines[j]).id matches Some(i) ==> editable(
                        tasks,
                        grants,
                        actor,
                        i,
                    )),
            decreases self.tasks.len() - k,
        {
            match self.tasks[k].id {
                Some(id) => {
                    if !ledger.may_edit_task(id) {
                        assert(first_uneditable(self.lines(), tasks, grants, actor, k as int, id));
                        return Err(Rejection::NotEditable { id });
                    }
                },
                None => {},
            }
            k += 1;
        }
        Ok(())
    }

    fn valid_assign(
        &self,
        user: &AuthedUser,
        users: &Vec<UserRecord>,
        ledger: &Ledger,
        Ghost(tasks): Ghost<Seq<TaskRecord>>,
        Ghost(grants): Ghost<Seq<Permission>>,
    ) -> (r: Result<Vec<i32>, Rejection>)
        requires
            ledger.describes(tasks, grants, user.id),
        ensures
            match r {
                Ok(assigns) => {
                    &&& assigns@.len() == self.lines().len()
                    &&& forall|k: int|
                        0 <= k < assigns@.len() ==> assignee(
                            users@,
                            grants,
                            user.id,
                            self.lines()[k],
                        ) == Some(#[trigger] assigns@[k])
                },
                Err(Rejection::UnknownAssignee { line }) => {
                    &&& line < self.lines().len()
                    &&& assignee(users@, grants, user.id, self.lines()[line as int]) is None
                    &&& forall|j: int|
                        0 <= j < line ==> assignee(
                            users@,
                            grants,
                            user.id,
                            #[trigger] self.lines()[j],
                        ) is Some
                },
                Err(_) => false,
            },
    {
        let ghost lines = self.lines();
        let mut assigns: Vec<i32> = Vec::new();
        let mut k: usize = 0;
        while k < self.tasks.len()
            invariant
                k <= self.tasks.len(),
                lines == self.tasks@,
                assigns@.len() == k,
                ledger.describes(tasks, grants, user.id),
                forall|j: int|
                    0 <= j < k ==> assignee(users@, grants, user.id, lines[j]) == Some(
                        #[trigger] assigns@[j],
                    ),
            decreases self.tasks.len() - k,
        {
            let mut assign = user.id;
            match &self.tasks[k].assign {
                Some(name) => {
                    let mut found: Option<i32> = None;
                    let mut u: usize = 0;
                    while u < users.len() && found.is_none()
                        invariant
                            u <= users.len(),
                            k < self.tasks.len(),
                            lines == self.tasks@,
                            lines[k as int].assign == Some(*name),
                            ledger.describes(tasks, grants, user.id),
                            match found {
                                Some(id) => assignee(users@, grants, user.id, lines[k as int])
                                    == Some(id),
                                None => forall|j: int|
                                    0 <= j < u ==> !((#[trigger] users@[j]).name@ == name@
                                        && can_edit(grants, user.id, users@[j].id)),
                            },
                        decreases users.len() - u + if found.is_none() { 1int } else { 0int },
                    {
                        if users[u].name == *name && ledger.may_edit(users[u].id) {
                            found = Some(users[u].id);
                            proof {
                                assert(is_assignee_row(users@, grants, user.id, name@, u as int));
                                lemma_assignee(users@, grants, user.id, lines[k as int], u as int);
                            }
                        } else {
                            u += 1;
                        }
                    }
                    match found {
                        Some(id) => {
                            assign = id;
                        },
                        None => {
                            proof {
                                if exists|c: int|
                                    is_assignee_row(users@, grants, user.id, name@, c) {
                                    let c = choose|c: int|
                                        is_assignee_row(users@, grants, user.id, name@, c);
                                    assert(!(users@[c].name@ == name@ && can_edit(
                                        grants,
                                        user.id,
                                        users@[c].id,
                                    )));
                                }
                                assert forall|j: int| 0 <= j < k implies assignee(
                                    users@,
                                    grants,
                                    user.id,
                                    #[trigger] self.lines()[j],
                                ) is Some by {
                                    assert(assignee(users@, grants, user.id, lines[j]) == Some(
                                        assigns@[j],
                                    ));
                                }
                            }
                            return Err(Rejection::UnknownAssignee { line: k });
                        },
                    }
                },
                None => {},
            }
            assigns.push(assign);
            k += 1;
        }
        Ok(assigns)
    }
}

impl Acceptor {
    /// Validates the batch for an actor against what the store knows. The
    /// checks run in a fixed order: no cycle among the arrows; no deadline
    /// before its startable moment; no task referenced twice; no chain through
    /// two existing tasks; every referenced task known and editable; every
    /// named assignee known and editable. The batch passes whole, with each
    /// task's assignee resolved and the arrows as they were, or the first
    /// failing check names its first offender.
    pub fn accept(self, user: &AuthedUser, snapshot: &Snapshot) -> (r: Result<Upserter, Rejection>)
        ensures
            r is Ok <==> accepted(
                self.lines(),
                self.wires(),
                snapshot.tasks@,
                snapshot.users@,
                snapshot.permissions@,
                user.id,
            ),
            match r {
                Ok(batch) => {
                    &&& batch.wires() == self.wires()
                    &&& batch.lines().len() == self.lines().len()
                    &&& forall|k: int|
                        0 <= k < self.lines().len() ==> (assignee(
                            snapshot.users@,
                            snapshot.permissions@,
                            user.id,
                            self.lines()[k],
                        ) matches Some(assign) && #[trigger] batch.lines()[k] == ok_task(
                            self.lines()[k],
                            assign,
                        ))
                },
                Err(e) => refusal(
                    self.lines(),
                    self.wires(),
                    snapshot.tasks@,
                    snapshot.users@,
                    snapshot.permissions@,
                    user.id,
                    e,
                ),
            },
    {
        let ghost lines = self.lines();
        let ghost wires = self.wires();
        let ghost tasks = snapshot.tasks@;
        let ghost users = snapshot.users@;
        let ghost grants = snapshot.permissions@;
        proof {
            use_type_invariant(&self);
        }
        match self.no_loop() {
            Err(e) => {
                proof {
                    lemma_refusal_is_no_acceptance(lines, wires, tasks, users, grants, user.id, e);
                }
                return Err(e);
            },
            Ok(()) => {},
        }
        match self.valid_sd() {
            Err(e) => {
                proof {
                    lemma_refusal_is_no_acceptance(lines, wires, tasks, users, grants, user.id, e);
                }
                return Err(e);
            },
            Ok(()) => {},
        }
        match self.valid_tid_use() {
            Err(e) => {
                proof {
                    lemma_refusal_is_no_acceptance(lines, wires, tasks, users, grants, user.id, e);
                }
                return Err(e);
            },
            Ok(()) => {},
        }
        let ledger = Ledger::build(snapshot, user.id);
        match self.valid_tid(&ledger, Ghost(tasks), Ghost(grants), Ghost(user.id)) {
            Err(e) => {
                proof {
                    lemma_refusal_is_no_acceptance(lines, wires, tasks, users, grants, user.id, e);
                }
                return Err(e);
            },
            Ok(()) => {},
        }
        let assigns = match self.valid_assign(
            user,
            &snapshot.users,
            &ledger,
            Ghost(tasks),
            Ghost(grants),
        ) {
            Err(e) => {
                proof {
                    lemma_refusal_is_no_acceptance(lines, wires, tasks, users, grants, user.id, e);
                }
                return Err(e);
            },
            Ok(assigns) => assigns,
        };
        let mut passed: Vec<TmpTaskOk> = Vec::new();
        let mut k: usize = 0;
        while k < self.tasks.len()
            invariant
                k <= self.tasks.len(),
                lines == self.tasks@,
                assigns@.len() == lines.len(),
                passed@.len() == k,
                forall|j: int| 0 <= j < k ==> #[trigger] passed@[j] == ok_task(lines[j], assigns@[j]),
            decreases self.tasks.len() - k,
        {
            let task = &self.tasks[k];
            passed.push(
                TmpTaskOk {
                    id: task.id,
                    title: task.title.clone(),
                    assign: assigns[k],
                    is_starred: task.is_starred,
                    startable: task.startable,
                    deadline: task.deadline,
                    weight: task.weight,
                    link: copy_text(&task.link),
                },
            );
            k += 1;
        }
        proof {
            assert forall|j: int| 0 <= j < lines.len() implies assignee(
                users,
                grants,
                user.id,
                #[trigger] lines[j],
            ) is Some by {
                assert(assignee(users, grants, user.id, lines[j]) == Some(assigns@[j]));
            }
        }
        Ok(Upserter { tasks: passed, arrows: self.arrows })
    }
}

/// A walk of the batch that passes two lines referencing existing tasks keeps
/// the batch from passing, whatever else holds of it: either the arrows hold a
/// cycle, or the walk is part of a maximal chain that passes both lines.
pub proof fn lemma_walk_through_two_tasks_is_refused(
    lines: Seq<TmpTask>,
    wires: Seq<Arrow>,
    tasks: Seq<TaskRecord>,
    users: Seq<UserRecord>,
    grants: Seq<Permission>,
    actor: i32,
    w: Seq<i32>,
)
    requires
        is_walk(wires, Direction::TowardTargets, w),
        w.len() >= 2,
        carried(lines, w).len() >= 2,
    ensures
        !accepted(lines, wires, tasks, users, grants, actor),
{
    lemma_walk_through_two_tasks(lines, wires, w);
}

/// A chain that touches two existing tasks through one line between them is
/// always turned down, whichever way its two arrows point: from `a` over `n` to
/// `b` here, and `a` and `b` may be either of the two tasks.
pub proof fn lemma_splice_is_refused(
    lines: Seq<TmpTask>,
    wires: Seq<Arrow>,
    tasks: Seq<TaskRecord>,
    users: Seq<UserRecord>,
    grants: Seq<Permission>,
    actor: i32,
    a: i32,
    n: i32,
    b: i32,
)
    requires
        in_range(lines.len(), wires),
        has_edge(wires, a, n),
        has_edge(wires, n, b),
        lines[a as int].id is Some,
        lines[b as int].id is Some,
    ensures
        !accepted(lines, wires, tasks, users, grants, actor),
{
    let w = seq![a, n, b];
    assert(is_walk(wires, Direction::TowardTargets, w)) by {
        assert forall|i: int| 0 <= i < w.len() - 1 implies step(
            wires,
            Direction::TowardTargets,
            #[trigger] w[i],
            w[i + 1],
        ) by {
            if i == 0 {
                assert(w[0] == a && w[1] == n);
            } else {
                assert(w[1] == n && w[2] == b);
            }
        }
    }
    assert(carried(lines, w).len() >= 2) by {
        lemma_carried_joined(lines, seq![a], seq![n, b]);
        lemma_carried_joined(lines, seq![n], seq![b]);
        assert(seq![a] + seq![n, b] =~= w);
        assert(seq![n] + seq![b] =~= seq![n, b]);
        lemma_carried_one(lines, a);
        lemma_carried_one(lines, b);
    }
    lemma_walk_through_two_tasks_is_refused(lines, wires, tasks, users, grants, actor, w);
}

} // verus!
