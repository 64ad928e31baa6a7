//! Rewiring: what it means for a chain of a batch to pass tasks that exist
//! already, and what follows for paths that are joined.

use crate::chains::{is_chain, lemma_walk_is_part_of_a_chain};
use crate::graph::{cyclic, has_edge, is_walk, Arrow, Direction};
use crate::outline::{in_range, TmpTask};
use vstd::prelude::*;

verus! {

/// The identifiers that the nodes of a path reference, in the path's order.
pub open spec fn carried(lines: Seq<TmpTask>, p: Seq<i32>) -> Seq<i32>
    decreases p.len(),
{
    if p.len() == 0 {
        Seq::empty()
    } else {
        match lines[p.last() as int].id {
            Some(id) => carried(lines, p.drop_last()).push(id),
            None => carried(lines, p.drop_last()),
        }
    }
}

/// Some maximal chain of the batch passes two lines that reference existing tasks.
pub open spec fn rewired(lines: Seq<TmpTask>, wires: Seq<Arrow>) -> bool {
    exists|p: Seq<i32>| #[trigger] is_chain(wires, p) && carried(lines, p).len() >= 2
}

/// Some maximal chain passes lines that reference existing tasks, and `first`
/// and `second` are the first two tasks so referenced along it.
pub open spec fn rewired_by(lines: Seq<TmpTask>, wires: Seq<Arrow>, first: i32, second: i32) -> bool {
    exists|p: Seq<i32>|
        {
            &&& #[trigger] is_chain(wires, p)
            &&& carried(lines, p).len() >= 2
            &&& carried(lines, p)[0] == first
            &&& carried(lines, p)[1] == second
        }
}

/// What two paths carry one after the other is what they carry joined.
pub proof fn lemma_carried_joined(lines: Seq<TmpTask>, p: Seq<i32>, q: Seq<i32>)
    ensures
        carried(lines, p + q) == carried(lines, p) + carried(lines, q),
    decreases q.len(),
{
    if q.len() == 0 {
        assert(p + q =~= p);
        assert(carried(lines, p) + carried(lines, q) =~= carried(lines, p));
    } else {
        lemma_carried_joined(lines, p, q.drop_last());
        assert((p + q).drop_last() =~= p + q.drop_last());
        assert((p + q).last() == q.last());
        match lines[q.last() as int].id {
            Some(id) => {
                assert(carried(lines, p + q) =~= carried(lines, p) + carried(lines, q));
            },
            None => {},
        }
    }
}

/// What a single node carries.
pub proof fn lemma_carried_one(lines: Seq<TmpTask>, a: i32)
    ensures
        carried(lines, seq![a]) == match lines[a as int].id {
            Some(id) => seq![id],
            None => Seq::<i32>::empty(),
        },
{
    let p = seq![a];
    assert(p.drop_last() =~= Seq::<i32>::empty());
    assert(p.last() == a);
    assert(carried(lines, Seq::<i32>::empty()) =~= Seq::<i32>::empty());
    match lines[a as int].id {
        Some(id) => {
            assert(carried(lines, p) =~= seq![id]);
        },
        None => {},
    }
}

/// The nodes of a walk along at least one arrow are positions of the batch.
pub proof fn lemma_walk_within(count: nat, wires: Seq<Arrow>, p: Seq<i32>, i: int)
    requires
        in_range(count, wires),
        is_walk(wires, Direction::TowardTargets, p),
        p.len() >= 2,
        0 <= i < p.len(),
    ensures
        0 <= p[i] < count,
{
    if i < p.len() - 1 {
        assert(has_edge(wires, p[i], p[i + 1]));
        let k = choose|k: int|
            0 <= k < wires.len() && (#[trigger] wires[k]).source == p[i] && wires[k].target == p[i
                + 1];
        assert(0 <= wires[k].source < count);
    } else {
        assert(has_edge(wires, p[i - 1], p[i - 1 + 1]));
        let k = choose|k: int|
            0 <= k < wires.len() && (#[trigger] wires[k]).source == p[i - 1] && wires[k].target
                == p[i];
        assert(0 <= wires[k].target < count);
    }
}

/// A walk of the batch that passes two lines referencing existing tasks shows
/// a cycle among the batch's arrows, or is part of a maximal chain through
/// two existing tasks.
pub proof fn lemma_walk_through_two_tasks(lines: Seq<TmpTask>, wires: Seq<Arrow>, w: Seq<i32>)
    requires
        is_walk(wires, Direction::TowardTargets, w),
        w.len() >= 2,
        carried(lines, w).len() >= 2,
    ensures
        cyclic(wires) || rewired(lines, wires),
{
    if !cyclic(wires) {
        let (before, onward) = lemma_walk_is_part_of_a_chain(wires, w);
        let p = before + w + onward;
        lemma_carried_joined(lines, before + w, onward);
        lemma_carried_joined(lines, before, w);
        assert(is_chain(wires, p) && carried(lines, p).len() >= 2);
    }
}

} // verus!
