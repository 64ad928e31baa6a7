//! The committer's arithmetic: from the identifiers that the store assigned to
//! the created tasks to the table from position to persistent identifier, and
//! from the temporary arrows to the persistent ones.

use crate::accept::{TmpTaskOk, Upserter};
use crate::graph::{Arrow, Arrows};
use crate::outline::{assembles, compiled_arrows, in_range, Acceptor, Instants, ReqTask};
use vstd::prelude::*;

verus! {

/// What a commit leaves behind.
#[derive(Debug)]
pub struct Committed {
    /// The persistent identifier of each line of the batch.
    pub permanents: Vec<i32>,
    /// The arrows to store, between persistent identifiers.
    pub arrows: Vec<Arrow>,
    pub created: usize,
    pub updated: usize,
}

/// How many of the first `upto` lines create a task.
pub open spec fn creations(lines: Seq<TmpTaskOk>, upto: int) -> int
    decreases upto,
{
    if upto <= 0 {
        0
    } else if lines[upto - 1].id is None {
        creations(lines, upto - 1) + 1
    } else {
        creations(lines, upto - 1)
    }
}

/// The persistent identifier of line `k`: the one it references, or the one
/// that the store assigned to it, `fresh` holding those in the order of the
/// creating lines.
pub open spec fn permanent(lines: Seq<TmpTaskOk>, fresh: Seq<i32>, k: int) -> i32 {
    match lines[k].id {
        Some(id) => id,
        None => fresh[creations(lines, k)],
    }
}

/// A temporary arrow with each end replaced by its persistent identifier.
pub open spec fn persistent_arrow(lines: Seq<TmpTaskOk>, fresh: Seq<i32>, a: Arrow) -> Arrow {
    Arrow {
        source: permanent(lines, fresh, a.source as int),
        target: permanent(lines, fresh, a.target as int),
    }
}

/// The persistent arrows of a batch, one for each temporary arrow, in order.
pub open spec fn persistent_arrows(
    lines: Seq<TmpTaskOk>,
    fresh: Seq<i32>,
    wires: Seq<Arrow>,
) -> Seq<Arrow> {
    Seq::new(wires.len(), |j: int| persistent_arrow(lines, fresh, wires[j]))
}

/// The count of creating lines grows with the lines counted.
pub proof fn lemma_creations_grow(lines: Seq<TmpTaskOk>, fewer: int, more: int)
    requires
        0 <= fewer <= more,
    ensures
        creations(lines, fewer) <= creations(lines, more),
    decreases more,
{
    if fewer < more {
        lemma_creations_grow(lines, fewer, more - 1);
    }
}

/// Among lines that only create, every line counts as a creation, and line
/// `k` gets the `k`-th identifier that the store assigned.
pub proof fn lemma_creations_only(lines: Seq<TmpTaskOk>, fresh: Seq<i32>, upto: int)
    requires
        0 <= upto <= lines.len(),
        forall|k: int| 0 <= k < lines.len() ==> (#[trigger] lines[k]).id is None,
    ensures
        creations(lines, upto) == upto,
        forall|k: int| 0 <= k < upto ==> permanent(lines, fresh, k) == fresh[k],
    decreases upto,
{
    if upto > 0 {
        lemma_creations_only(lines, fresh, upto - 1);
        assert(lines[upto - 1].id is None);
    }
}

/// A batch of lines that only create, without arrows, comes to as many new
/// tasks as it has lines, each under the identifier that the store assigned
/// to it, and to no arrow. This holds every time the batch is committed:
/// nothing here looks at what was committed before.
pub proof fn lemma_creation_only_batch(lines: Seq<TmpTaskOk>, fresh: Seq<i32>)
    requires
        forall|k: int| 0 <= k < lines.len() ==> (#[trigger] lines[k]).id is None,
    ensures
        creations(lines, lines.len() as int) == lines.len(),
        forall|k: int| 0 <= k < lines.len() ==> permanent(lines, fresh, k) == fresh[k],
        persistent_arrows(lines, fresh, Seq::empty()) == Seq::<Arrow>::empty(),
{
    lemma_creations_only(lines, fresh, lines.len() as int);
    assert(persistent_arrows(lines, fresh, Seq::empty()) =~= Seq::<Arrow>::empty());
}

/// From outline to store, a batch keeps the number of its arrows: where the
/// outline compiled to `batch` and `passed` is what validation made of it, as
/// many arrows are stored as the compiler produced, whatever the store assigned.
pub proof fn lemma_arrow_count_kept(
    outline: Seq<ReqTask>,
    at: Seq<Instants>,
    batch: Acceptor,
    passed: Upserter,
    fresh: Seq<i32>,
)
    requires
        assembles(outline, at, Ok(batch)),
        passed.wires() == batch.wires(),
    ensures
        persistent_arrows(passed.lines(), fresh, passed.wires()).len() == compiled_arrows(
            outline,
            outline.len() as int,
        ).len(),
{
}

impl Upserter {
    /// The tasks of the batch: those without an identifier are to be inserted,
    /// the others to be updated in place, in this order.
    pub fn tasks(&self) -> (r: &Vec<TmpTaskOk>)
        ensures
            r@ == self.lines(),
    {
        &self.tasks
    }

    /// The temporary arrows of the batch.
    pub fn arrows(&self) -> (r: &Arrows)
        ensures
            r@ == self.wires(),
    {
        &self.arrows
    }

    /// Settles the batch once its tasks are stored. `fresh` holds the
    /// identifiers that the store assigned to the created tasks, in the order
    /// of their lines; where their number is not that of the creating lines,
    /// nothing is settled. Each arrow is carried over with both ends replaced
    /// through the table from position to persistent identifier.
    pub fn upsert(&self, fresh: &Vec<i32>) -> (r: Option<Committed>)
        ensures
            r is Some <==> fresh@.len() == creations(self.lines(), self.lines().len() as int),
            r matches Some(done) ==> {
                &&& done.created == creations(self.lines(), self.lines().len() as int)
                &&& done.created + done.updated == self.lines().len()
                &&& done.permanents@.len() == self.lines().len()
                &&& forall|k: int|
                    0 <= k < self.lines().len() ==> #[trigger] done.permanents@[k] == permanent(
                        self.lines(),
                        fresh@,
                        k,
                    )
                &&& done.arrows@ == persistent_arrows(self.lines(), fresh@, self.wires())
            },
    {
        let ghost lines = self.lines();
        let ghost wires = self.wires();
        proof {
            use_type_invariant(self);
        }
        let n = self.tasks.len();
        let mut permanents: Vec<i32> = Vec::new();
        let mut created: usize = 0;
        let mut updated: usize = 0;
        let mut k: usize = 0;
        while k < n
            invariant
                k <= n,
                n == self.tasks.len(),
                lines == self.tasks@,
                created == creations(lines, k as int),
                created + updated == k,
                created <= fresh@.len(),
                permanents@.len() == k,
                forall|j: int| 0 <= j < k ==> #[trigger] permanents@[j] == permanent(lines, fresh@, j),
            decreases n - k,
        {
            match self.tasks[k].id {
                Some(id) => {
                    permanents.push(id);
                    updated += 1;
                },
                None => {
                    if created >= fresh.len() {
                        proof {
                            lemma_creations_grow(lines, k as int + 1, n as int);
                        }
                        return None;
                    }
                    permanents.push(fresh[created]);
                    created += 1;
                },
            }
            k += 1;
        }
        if created != fresh.len() {
            return None;
        }
        let mut arrows: Vec<Arrow> = Vec::new();
        let mut j: usize = 0;
        while j < self.arrows.arrows.len()
            invariant
                j <= self.arrows.arrows.len(),
                wires == self.arrows.arrows@,
                lines == self.tasks@,
                in_range(lines.len(), wires),
                permanents@.len() == lines.len(),
                forall|m: int|
                    0 <= m < lines.len() ==> #[trigger] permanents@[m] == permanent(lines, fresh@, m),
                arrows@.len() == j,
                forall|m: int|
                    0 <= m < j ==> #[trigger] arrows@[m] == persistent_arrow(lines, fresh@, wires[m]),
            decreases self.arrows.arrows.len() - j,
        {
            let a = self.arrows.arrows[j];
            assert(0 <= wires[j as int].source < lines.len() && 0 <= wires[j as int].target
                < lines.len());
            arrows.push(
                Arrow {
                    source: permanents[a.source as usize],
                    target: permanents[a.target as usize],
                },
            );
            j += 1;
        }
        assert(arrows@ =~= persistent_arrows(lines, fresh@, wires));
        Some(Committed { permanents, arrows, created, updated })
    }
}

} // verus!
