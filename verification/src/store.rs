//! What the store knows, as plain rows handed in by the caller: tasks with
//! their assignees, users with their names, and permission grants.

use std::collections::{HashMap, HashSet};
use vstd::prelude::*;

verus! {

broadcast use vstd::std_specs::hash::group_hash_axioms;

/// A persisted task, as far as decisions depend on it.
#[derive(Clone, Copy, Debug, PartialEq, Eq, Structural)]
pub struct TaskRecord {
    pub id: i32,
    pub assign: i32,
    pub is_archived: bool,
    pub is_starred: bool,
}

/// A user and the name by which outlines refer to them.
#[derive(Debug)]
pub struct UserRecord {
    pub id: i32,
    pub name: String,
}

/// A grant: `subject` may view, and with `edit` also change, what belongs to `object`.
#[derive(Clone, Copy, Debug, PartialEq, Eq, Structural)]
pub struct Permission {
    pub subject: i32,
    pub object: i32,
    pub edit: bool,
}

/// The rows that a request is decided on.
#[derive(Debug)]
pub struct Snapshot {
    pub tasks: Vec<TaskRecord>,
    pub users: Vec<UserRecord>,
    pub permissions: Vec<Permission>,
}

/// Some grant lets `actor` edit what belongs to `owner`.
pub open spec fn can_edit(grants: Seq<Permission>, actor: i32, owner: i32) -> bool {
    exists|k: int|
        0 <= k < grants.len() && (#[trigger] grants[k]).subject == actor && grants[k].object
            == owner && grants[k].edit
}

/// Row `k` is the first row of the task `id`.
pub open spec fn is_row_of(tasks: Seq<TaskRecord>, id: i32, k: int) -> bool {
    &&& 0 <= k < tasks.len()
    &&& tasks[k].id == id
    &&& forall|j: int| 0 <= j < k ==> (#[trigger] tasks[j]).id != id
}

/// The first row of the task `id`, if the store knows the task.
pub open spec fn row_of(tasks: Seq<TaskRecord>, id: i32) -> Option<TaskRecord> {
    if exists|k: int| is_row_of(tasks, id, k) {
        Some(tasks[choose|k: int| is_row_of(tasks, id, k)])
    } else {
        None
    }
}

/// The store knows the task `id` and `actor` may edit what its assignee owns.
pub open spec fn editable(
    tasks: Seq<TaskRecord>,
    grants: Seq<Permission>,
    actor: i32,
    id: i32,
) -> bool {
    match row_of(tasks, id) {
        Some(task) => can_edit(grants, actor, task.assign),
        None => false,
    }
}

/// The first row of a task is its row.
pub proof fn lemma_row_of(tasks: Seq<TaskRecord>, id: i32, k: int)
    requires
        is_row_of(tasks, id, k),
    ensures
        row_of(tasks, id) == Some(tasks[k]),
{
    let c = choose|c: int| is_row_of(tasks, id, c);
    if c < k {
        assert(tasks[c].id != id);
    }
    if k < c {
        assert(tasks[k].id != id);
    }
}

/// A task without a row is unknown.
pub proof fn lemma_no_row(tasks: Seq<TaskRecord>, id: i32)
    requires
        forall|k: int| 0 <= k < tasks.len() ==> (#[trigger] tasks[k]).id != id,
    ensures
        row_of(tasks, id) is None,
{
}

/// What a map from task to row answers for `id`.
pub open spec fn answer(rows: Map<i32, TaskRecord>, id: i32) -> Option<TaskRecord> {
    if rows.contains_key(id) {
        Some(rows[id])
    } else {
        None
    }
}

/// The rows of a snapshot by task, and the owners that one actor may edit.
pub struct Ledger {
    rows: HashMap<i32, TaskRecord>,
    owners: HashSet<i32>,
}

impl Ledger {
    /// The ledger answers for these rows and grants, on behalf of `actor`.
    pub closed spec fn describes(
        &self,
        tasks: Seq<TaskRecord>,
        grants: Seq<Permission>,
        actor: i32,
    ) -> bool {
        &&& forall|id: i32| row_of(tasks, id) == #[trigger] answer(self.rows@, id)
        &&& forall|owner: i32| #[trigger] self.owners@.contains(owner) <==> can_edit(grants, actor, owner)
    }

    /// Reads the rows once, so that each later question is answered in
    /// constant expected time.
    pub fn build(snapshot: &Snapshot, actor: i32) -> (r: Ledger)
        ensures
            r.describes(snapshot.tasks@, snapshot.permissions@, actor),
    {
        let ghost tasks = snapshot.tasks@;
        let ghost grants = snapshot.permissions@;
        let mut rows: HashMap<i32, TaskRecord> = HashMap::new();
        let mut k: usize = 0;
        while k < snapshot.tasks.len()
            invariant
                k <= snapshot.tasks.len(),
                tasks == snapshot.tasks@,
                forall|id: i32| #[trigger]
                    rows@.contains_key(id) ==> exists|j: int|
                        0 <= j < k && is_row_of(tasks, id, j) && rows@[id] == tasks[j],
                forall|j: int| 0 <= j < k ==> rows@.contains_key((#[trigger] tasks[j]).id),
            decreases snapshot.tasks.len() - k,
        {
            let row = snapshot.tasks[k];
            if !rows.contains_key(&row.id) {
                let ghost before = rows@;
                rows.insert(row.id, row);
                proof {
                    assert(is_row_of(tasks, row.id, k as int)) by {
                        assert forall|j: int| 0 <= j < k implies (#[trigger] tasks[j]).id
                            != row.id by {
                            assert(before.contains_key(tasks[j].id));
                        }
                    }
                    assert forall|id: i32| #[trigger] rows@.contains_key(id) implies exists|j: int|
                        0 <= j < k + 1 && is_row_of(tasks, id, j) && rows@[id] == tasks[j] by {
                        if id != row.id {
                            assert(before.contains_key(id));
                            let j = choose|j: int|
                                0 <= j < k && is_row_of(tasks, id, j) && before[id] == tasks[j];
                            assert(is_row_of(tasks, id, j) && rows@[id] == tasks[j]);
                        }
                    }
                }
            }
            k += 1;
        }
        let mut owners: HashSet<i32> = HashSet::new();
        let mut g: usize = 0;
        while g < snapshot.permissions.len()
            invariant
                g <= snapshot.permissions.len(),
                grants == snapshot.permissions@,
                forall|owner: i32| #[trigger]
                    owners@.contains(owner) <==> can_edit(grants.take(g as int), actor, owner),
            decreases snapshot.permissions.len() - g,
        {
            let grant = snapshot.permissions[g];
            let ghost before = owners@;
            if grant.subject == actor && grant.edit {
                owners.insert(grant.object);
            }
            proof {
                let shorter = grants.take(g as int);
                let longer = grants.take(g as int + 1);
                assert forall|owner: i32| #[trigger]
                    owners@.contains(owner) <==> can_edit(longer, actor, owner) by {
                    assert(before.contains(owner) <==> can_edit(shorter, actor, owner));
                    if can_edit(shorter, actor, owner) {
                        let m = choose|m: int|
                            0 <= m < shorter.len() && (#[trigger] shorter[m]).subject == actor
                                && shorter[m].object == owner && shorter[m].edit;
                        assert(longer[m] == shorter[m]);
                    }
                    if can_edit(longer, actor, owner) {
                        let m = choose|m: int|
                            0 <= m < longer.len() && (#[trigger] longer[m]).subject == actor
                                && longer[m].object == owner && longer[m].edit;
                        if m < g {
                            assert(shorter[m] == longer[m]);
                        }
                    }
                    if grant.subject == actor && grant.edit && grant.object == owner {
                        assert(longer[g as int] == grant);
                    }
                }
            }
            g += 1;
        }
        proof {
            assert(grants.take(g as int) =~= grants);
            assert forall|id: i32| row_of(tasks, id) == #[trigger] answer(rows@, id) by {
                if rows@.contains_key(id) {
                    let j = choose|j: int|
                        0 <= j < k && is_row_of(tasks, id, j) && rows@[id] == tasks[j];
                    lemma_row_of(tasks, id, j);
                } else {
                    assert forall|j: int| 0 <= j < tasks.len() implies (#[trigger] tasks[j]).id
                        != id by {
                        if tasks[j].id == id {
                            assert(rows@.contains_key(tasks[j].id));
                        }
                    }
                    lemma_no_row(tasks, id);
                }
            }
        }
        Ledger { rows, owners }
    }

    /// The first row of the task `id`.
    pub fn row(&self, id: i32) -> (r: Option<TaskRecord>)
        ensures
            forall|tasks: Seq<TaskRecord>, grants: Seq<Permission>, actor: i32| #[trigger]
                self.describes(tasks, grants, actor) ==> r == row_of(tasks, id),
    {
        let r = match self.rows.get(&id) {
            Some(row) => Some(*row),
            None => None,
        };
        assert(r == answer(self.rows@, id));
        r
    }

    /// Whether the actor may edit what belongs to `owner`.
    pub fn may_edit(&self, owner: i32) -> (r: bool)
        ensures
            forall|tasks: Seq<TaskRecord>, grants: Seq<Permission>, actor: i32| #[trigger]
                self.describes(tasks, grants, actor) ==> r == can_edit(grants, actor, owner),
    {
        self.owners.contains(&owner)
    }

    /// Whether the store knows the task `id` and the actor may edit it.
    pub fn may_edit_task(&self, id: i32) -> (r: bool)
        ensures
            forall|tasks: Seq<TaskRecord>, grants: Seq<Permission>, actor: i32| #[trigger]
                self.describes(tasks, grants, actor) ==> r == editable(tasks, grants, actor, id),
    {
        match self.row(id) {
            Some(task) => self.may_edit(task.assign),
            None => false,
        }
    }
}

} // verus!
