//! The invariant that validation protects: the arrows of the store hold no
//! cycle, and a batch that passed validation adds none when it is committed.

use crate::accept::{distinct_ids, duplicated, TmpTaskOk};
use crate::commit::{creations, lemma_creations_grow, permanent, persistent_arrow, persistent_arrows};
use crate::graph::{
    cyclic, endpoints, has_edge, is_cycle, is_walk, lemma_endpoints, lemma_walk_push, step, Arrow,
    Direction,
};
use crate::outline::{in_range, TmpTask};
use crate::rewiring::{
    carried, lemma_carried_joined, lemma_carried_one, lemma_walk_through_two_tasks, rewired,
};
use vstd::prelude::*;

verus! {

/// The identifiers that the store assigned are new: there is one for each
/// creating line, no two are the same, none is an end of a stored arrow, and
/// none is referenced by a line of the batch.
pub open spec fn newly_assigned(persisted: Seq<Arrow>, lines: Seq<TmpTaskOk>, fresh: Seq<i32>) -> bool {
    &&& fresh.len() == creations(lines, lines.len() as int)
    &&& fresh.no_duplicates()
    &&& forall|k: int| 0 <= k < fresh.len() ==> !endpoints(persisted).contains(#[trigger] fresh[k])
    &&& forall|k: int, j: int|
        0 <= k < fresh.len() && 0 <= j < lines.len() ==> (#[trigger] lines[j]).id != Some(
            #[trigger] fresh[k],
        )
}

/// The validated lines reference what the lines of the batch reference.
pub open spec fn same_references(batch: Seq<TmpTask>, lines: Seq<TmpTaskOk>) -> bool {
    &&& lines.len() == batch.len()
    &&& forall|k: int| 0 <= k < lines.len() ==> (#[trigger] lines[k]).id == batch[k].id
}

/// An arrow of two lists joined is an arrow of one of them.
pub proof fn lemma_edge_of_joined(first: Seq<Arrow>, second: Seq<Arrow>, a: i32, b: i32)
    ensures
        has_edge(first + second, a, b) <==> has_edge(first, a, b) || has_edge(second, a, b),
{
    let both = first + second;
    if has_edge(both, a, b) {
        let i = choose|i: int|
            0 <= i < both.len() && (#[trigger] both[i]).source == a && both[i].target == b;
        if i < first.len() {
            assert(first[i] == both[i]);
        } else {
            assert(second[i - first.len()] == both[i]);
        }
    }
    if has_edge(first, a, b) {
        let i = choose|i: int|
            0 <= i < first.len() && (#[trigger] first[i]).source == a && first[i].target == b;
        assert(both[i] == first[i]);
    }
    if has_edge(second, a, b) {
        let i = choose|i: int|
            0 <= i < second.len() && (#[trigger] second[i]).source == a && second[i].target == b;
        assert(both[first.len() + i] == second[i]);
    }
}

/// A creating line gets one of the identifiers that the store assigned.
proof fn lemma_creation_gets_fresh(lines: Seq<TmpTaskOk>, fresh: Seq<i32>, k: int)
    requires
        0 <= k < lines.len(),
        lines[k].id is None,
        fresh.len() == creations(lines, lines.len() as int),
    ensures
        0 <= creations(lines, k) < fresh.len(),
        permanent(lines, fresh, k) == fresh[creations(lines, k)],
{
    lemma_creations_grow(lines, 0, k);
    lemma_creations_grow(lines, k + 1, lines.len() as int);
}

/// No two lines of a validated batch get the same persistent identifier.
proof fn lemma_permanent_is_injective(
    persisted: Seq<Arrow>,
    batch: Seq<TmpTask>,
    lines: Seq<TmpTaskOk>,
    fresh: Seq<i32>,
    a: int,
    b: int,
)
    requires
        distinct_ids(batch),
        same_references(batch, lines),
        newly_assigned(persisted, lines, fresh),
        0 <= a < lines.len(),
        0 <= b < lines.len(),
        permanent(lines, fresh, a) == permanent(lines, fresh, b),
    ensures
        a == b,
{
    if a != b {
        let (lo, hi) = if a < b {
            (a, b)
        } else {
            (b, a)
        };
        match (lines[lo].id, lines[hi].id) {
            (Some(x), Some(y)) => {
                assert(batch[lo].id == Some(x) && batch[hi].id == Some(x));
                assert(duplicated(batch, x));
            },
            (None, None) => {
                lemma_creation_gets_fresh(lines, fresh, lo);
                lemma_creation_gets_fresh(lines, fresh, hi);
                lemma_creations_grow(lines, lo + 1, hi);
            },
            (Some(x), None) => {
                lemma_creation_gets_fresh(lines, fresh, hi);
                assert(lines[lo].id != Some(fresh[creations(lines, hi)]));
            },
            (None, Some(y)) => {
                lemma_creation_gets_fresh(lines, fresh, lo);
                assert(lines[hi].id != Some(fresh[creations(lines, lo)]));
            },
        }
    }
}

/// The line that got the identifier of an end of a stored arrow references it.
proof fn lemma_stored_end_is_referenced(
    persisted: Seq<Arrow>,
    lines: Seq<TmpTaskOk>,
    fresh: Seq<i32>,
    a: int,
)
    requires
        newly_assigned(persisted, lines, fresh),
        0 <= a < lines.len(),
        endpoints(persisted).contains(permanent(lines, fresh, a)),
    ensures
        lines[a].id is Some,
{
    if lines[a].id is None {
        lemma_creation_gets_fresh(lines, fresh, a);
        assert(!endpoints(persisted).contains(fresh[creations(lines, a)]));
    }
}

/// Step `k` of a sequence of nodes runs along one of the arrows.
pub open spec fn along(es: Seq<Arrow>, d: Seq<i32>, k: int) -> bool {
    has_edge(es, d[k], d[k + 1])
}

/// The first step at or after `from` that runs, or does not run, along a
/// stored arrow, given that the step at `to` is such a step.
proof fn lemma_first_step(persisted: Seq<Arrow>, d: Seq<i32>, from: int, to: int, stored: bool) -> (i:
    int)
    requires
        0 <= from <= to < d.len() - 1,
        along(persisted, d, to) == stored,
    ensures
        from <= i <= to,
        along(persisted, d, i) == stored,
        forall|k: int| from <= k < i ==> #[trigger] along(persisted, d, k) != stored,
    decreases to - from,
{
    if along(persisted, d, from) == stored {
        from
    } else {
        lemma_first_step(persisted, d, from + 1, to, stored)
    }
}

/// A sequence of nodes whose steps all run along arrows of a commit is the
/// image of a walk of the batch: there are lines, one for each node, that got
/// the nodes as their identifiers, and each is wired to the next.
proof fn lemma_pull_back(
    persisted: Seq<Arrow>,
    batch: Seq<TmpTask>,
    lines: Seq<TmpTaskOk>,
    wires: Seq<Arrow>,
    fresh: Seq<i32>,
    r: Seq<i32>,
) -> (a: Seq<i32>)
    requires
        in_range(lines.len(), wires),
        distinct_ids(batch),
        same_references(batch, lines),
        newly_assigned(persisted, lines, fresh),
        r.len() >= 2,
        forall|k: int|
            0 <= k < r.len() - 1 ==> #[trigger] along(persistent_arrows(lines, fresh, wires), r, k),
    ensures
        a.len() == r.len(),
        is_walk(wires, Direction::TowardTargets, a),
        0 <= a.first() < lines.len(),
        0 <= a.last() < lines.len(),
        permanent(lines, fresh, a.first() as int) == r.first(),
        permanent(lines, fresh, a.last() as int) == r.last(),
    decreases r.len(),
{
    let stored = persistent_arrows(lines, fresh, wires);
    let last = r.len() - 2;
    assert(along(stored, r, last));
    let j = choose|j: int|
        0 <= j < stored.len() && (#[trigger] stored[j]).source == r[last] && stored[j].target
            == r[last + 1];
    assert(stored[j] == persistent_arrow(lines, fresh, wires[j]));
    assert(0 <= wires[j].source < lines.len() && 0 <= wires[j].target < lines.len());
    assert(has_edge(wires, wires[j].source, wires[j].target));
    if r.len() == 2 {
        let a = seq![wires[j].source, wires[j].target];
        assert(is_walk(wires, Direction::TowardTargets, a)) by {
            assert forall|k: int| 0 <= k < a.len() - 1 implies step(
                wires,
                Direction::TowardTargets,
                #[trigger] a[k],
                a[k + 1],
            ) by {
                assert(a[0] == wires[j].source && a[1] == wires[j].target);
            }
        }
        a
    } else {
        let shorter = r.drop_last();
        assert forall|k: int| 0 <= k < shorter.len() - 1 implies #[trigger] along(
            stored,
            shorter,
            k,
        ) by {
            assert(along(stored, r, k));
            assert(shorter[k] == r[k] && shorter[k + 1] == r[k + 1]);
        }
        let before = lemma_pull_back(persisted, batch, lines, wires, fresh, shorter);
        assert(shorter.last() == r[last]);
        lemma_permanent_is_injective(
            persisted,
            batch,
            lines,
            fresh,
            before.last() as int,
            wires[j].source as int,
        );
        lemma_walk_push(wires, Direction::TowardTargets, before, wires[j].target);
        let a = before.push(wires[j].target);
        assert(a.first() == before.first());
        assert(shorter.first() == r.first());
        a
    }
}

/// A walk of the batch along at least one arrow, from a line that references a
/// task to a line that references a task, shows a cycle among the batch's
/// arrows or a chain through two existing tasks.
pub proof fn lemma_walk_between_references(batch: Seq<TmpTask>, wires: Seq<Arrow>, a: Seq<i32>)
    requires
        is_walk(wires, Direction::TowardTargets, a),
        a.len() >= 2,
        batch[a.first() as int].id is Some,
        batch[a.last() as int].id is Some,
    ensures
        cyclic(wires) || rewired(batch, wires),
{
    if !cyclic(wires) {
        let n = a.len() as int;
        assert(a.first() != a.last()) by {
            if a.first() == a.last() {
                assert(is_cycle(wires, a));
            }
        }
        let inner = a.subrange(1, n - 1);
        assert(a =~= seq![a.first()] + inner + seq![a.last()]);
        lemma_carried_joined(batch, seq![a.first()] + inner, seq![a.last()]);
        lemma_carried_joined(batch, seq![a.first()], inner);
        lemma_carried_one(batch, a.first());
        lemma_carried_one(batch, a.last());
        assert(carried(batch, a).len() >= 2);
        lemma_walk_through_two_tasks(batch, wires, a);
    }
}

/// The nodes are those of a cycle among the arrows.
#[verifier::opaque]
spec fn goes_around(es: Seq<Arrow>, p: Seq<i32>) -> bool {
    is_cycle(es, p)
}

/// What going around means at one step.
proof fn lemma_goes_around_at(es: Seq<Arrow>, p: Seq<i32>, k: int)
    requires
        goes_around(es, p),
        0 <= k < p.len() - 1,
    ensures
        p.len() >= 2,
        p.first() == p.last(),
        along(es, p, k),
{
    reveal(goes_around);
    assert(step(es, Direction::TowardTargets, p[k], p[k + 1]));
}

/// A cycle walked twice: once around, and around again.
#[verifier::opaque]
spec fn twice(p: Seq<i32>) -> Seq<i32> {
    p + p.subrange(1, p.len() as int)
}

/// A cycle walked twice passes each node at the same place of either round.
proof fn lemma_twice_at(p: Seq<i32>, k: int)
    requires
        p.len() >= 2,
        0 <= k < p.len(),
    ensures
        twice(p).len() == 2 * p.len() - 1,
        twice(p)[k] == p[k],
        k > 0 ==> twice(p)[k + p.len() - 1] == p[k],
{
    reveal(twice);
    if k > 0 {
        assert(twice(p)[k + p.len() - 1] == p.subrange(1, p.len() as int)[k - 1]);
    }
}

/// Each step of a cycle walked twice is the step of the cycle at the same
/// place of its round.
proof fn lemma_twice_step(es: Seq<Arrow>, p: Seq<i32>, k: int)
    requires
        goes_around(es, p),
        0 <= k < 2 * (p.len() - 1),
    ensures
        twice(p).len() == 2 * p.len() - 1,
        along(es, twice(p), k),
        ({
            let m = p.len() - 1;
            let at = if k < m {
                k
            } else {
                k - m
            };
            twice(p)[k] == p[at] && twice(p)[k + 1] == p[at + 1]
        }),
{
    let m = p.len() - 1;
    let at = if k < m {
        k
    } else {
        k - m
    };
    lemma_goes_around_at(es, p, at);
    lemma_twice_at(p, 0);
    if k < m {
        lemma_twice_at(p, k);
        lemma_twice_at(p, k + 1);
    } else if k == m {
        lemma_twice_at(p, m);
        lemma_twice_at(p, 1);
    } else {
        lemma_twice_at(p, at);
        lemma_twice_at(p, at + 1);
    }
}

/// A run of steps along arrows of a commit, between a step along a stored
/// arrow before it and one after it, shows a cycle among the batch's arrows or
/// a chain of the batch through two existing tasks.
proof fn lemma_run_between_stored_steps(
    persisted: Seq<Arrow>,
    batch: Seq<TmpTask>,
    lines: Seq<TmpTaskOk>,
    wires: Seq<Arrow>,
    fresh: Seq<i32>,
    d: Seq<i32>,
    start: int,
    end: int,
)
    requires
        in_range(lines.len(), wires),
        distinct_ids(batch),
        same_references(batch, lines),
        newly_assigned(persisted, lines, fresh),
        1 <= start < end < d.len() - 1,
        along(persisted, d, start - 1),
        along(persisted, d, end),
        forall|k: int|
            start <= k < end ==> #[trigger] along(persistent_arrows(lines, fresh, wires), d, k),
    ensures
        cyclic(wires) || rewired(batch, wires),
{
    let stored = persistent_arrows(lines, fresh, wires);
    let r = d.subrange(start, end + 1);
    assert forall|k: int| 0 <= k < r.len() - 1 implies #[trigger] along(stored, r, k) by {
        assert(along(stored, d, start + k));
        assert(r[k] == d[start + k] && r[k + 1] == d[start + k + 1]);
    }
    let a = lemma_pull_back(persisted, batch, lines, wires, fresh, r);
    lemma_endpoints(persisted);
    assert(endpoints(persisted).contains(r.first())) by {
        let i = choose|i: int|
            0 <= i < persisted.len() && (#[trigger] persisted[i]).source == d[start - 1]
                && persisted[i].target == d[start - 1 + 1];
        assert(r.first() == d[start]);
        assert(endpoints(persisted).contains(persisted[i].target));
    }
    assert(endpoints(persisted).contains(r.last())) by {
        let i = choose|i: int|
            0 <= i < persisted.len() && (#[trigger] persisted[i]).source == d[end]
                && persisted[i].target == d[end + 1];
        assert(r.last() == d[end]);
        assert(endpoints(persisted).contains(persisted[i].source));
    }
    lemma_stored_end_is_referenced(persisted, lines, fresh, a.first() as int);
    lemma_stored_end_is_referenced(persisted, lines, fresh, a.last() as int);
    assert(batch[a.first() as int].id is Some);
    assert(batch[a.last() as int].id is Some);
    lemma_walk_between_references(batch, wires, a);
}

/// A cycle that runs along stored arrows and along arrows of a commit shows a
/// cycle among the batch's arrows or a chain of the batch through two existing
/// tasks.
proof fn lemma_mixed_cycle(
    persisted: Seq<Arrow>,
    batch: Seq<TmpTask>,
    lines: Seq<TmpTaskOk>,
    wires: Seq<Arrow>,
    fresh: Seq<i32>,
    p: Seq<i32>,
    j: int,
    c: int,
)
    requires
        in_range(lines.len(), wires),
        distinct_ids(batch),
        same_references(batch, lines),
        newly_assigned(persisted, lines, fresh),
        goes_around(persisted + persistent_arrows(lines, fresh, wires), p),
        0 <= j < p.len() - 1,
        along(persisted, p, j),
        0 <= c < p.len() - 1,
        !along(persisted, p, c),
    ensures
        cyclic(wires) || rewired(batch, wires),
{
    let stored = persistent_arrows(lines, fresh, wires);
    let all = persisted + stored;
    let m = p.len() - 1;
    // twice around the cycle, so that no run of steps is cut at its end
    let d = twice(p);
    // a step off the stored arrows after the stored step `j`
    let off = if c > j {
        c
    } else {
        c + m
    };
    lemma_twice_step(all, p, off);
    lemma_twice_step(all, p, j);
    let start = lemma_first_step(persisted, d, j + 1, off, false);
    assert(along(persisted, d, start - 1)) by {
        if start - 1 > j {
            assert(along(persisted, d, start - 1) != false);
        }
    }
    // the next stored step after it
    lemma_twice_step(all, p, j + m);
    let end = lemma_first_step(persisted, d, start, j + m, true);
    assert forall|k: int| start <= k < end implies #[trigger] along(stored, d, k) by {
        lemma_twice_step(all, p, k);
        lemma_edge_of_joined(persisted, stored, d[k], d[k + 1]);
        assert(along(persisted, d, k) != true);
    }
    lemma_run_between_stored_steps(persisted, batch, lines, wires, fresh, d, start, end);
}

/// The central invariant. Where the stored arrows hold no cycle, and a batch
/// holds no cycle, references no task twice and has no chain through two
/// existing tasks, the stored arrows together with the arrows of the commit
/// hold no cycle, given that the store assigned new identifiers to the created
/// tasks.
pub proof fn lemma_commit_keeps_arrows_acyclic(
    persisted: Seq<Arrow>,
    batch: Seq<TmpTask>,
    lines: Seq<TmpTaskOk>,
    wires: Seq<Arrow>,
    fresh: Seq<i32>,
)
    requires
        !cyclic(persisted),
        in_range(lines.len(), wires),
        !cyclic(wires),
        distinct_ids(batch),
        !rewired(batch, wires),
        same_references(batch, lines),
        newly_assigned(persisted, lines, fresh),
    ensures
        !cyclic(persisted + persistent_arrows(lines, fresh, wires)),
{
    let stored = persistent_arrows(lines, fresh, wires);
    let all = persisted + stored;
    if cyclic(all) {
        let p = choose|p: Seq<i32>| #[trigger] is_cycle(all, p);
        let m = p.len() - 1;
        assert(goes_around(all, p)) by {
            reveal(goes_around);
        }
        if forall|k: int| 0 <= k < m ==> #[trigger] along(persisted, p, k) {
            assert(is_cycle(persisted, p)) by {
                assert forall|k: int| 0 <= k < p.len() - 1 implies step(
                    persisted,
                    Direction::TowardTargets,
                    #[trigger] p[k],
                    p[k + 1],
                ) by {
                    assert(along(persisted, p, k));
                }
            }
        } else if forall|k: int| 0 <= k < m ==> !#[trigger] along(persisted, p, k) {
            // the cycle runs along arrows of the commit alone
            assert forall|k: int| 0 <= k < m implies #[trigger] along(stored, p, k) by {
                lemma_goes_around_at(all, p, k);
                lemma_edge_of_joined(persisted, stored, p[k], p[k + 1]);
                assert(!along(persisted, p, k));
            }
            let a = lemma_pull_back(persisted, batch, lines, wires, fresh, p);
            lemma_permanent_is_injective(
                persisted,
                batch,
                lines,
                fresh,
                a.first() as int,
                a.last() as int,
            );
            assert(is_cycle(wires, a));
        } else {
            let j = choose|k: int| 0 <= k < m && #[trigger] along(persisted, p, k);
            let c = choose|k: int| 0 <= k < m && !#[trigger] along(persisted, p, k);
            lemma_mixed_cycle(persisted, batch, lines, wires, fresh, p, j, c);
        }
        assert(false);
    }
}

} // verus!
