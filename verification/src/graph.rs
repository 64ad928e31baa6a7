//! The graph index: a directed graph given as a list of arrows between task
//! identifiers, with the vocabulary (walks, reachability, cycles) in which the
//! rest of the library states what it computes.

use std::collections::HashMap;
use vstd::prelude::*;

verus! {

broadcast use vstd::std_specs::hash::group_hash_axioms;

/// A dependency between two tasks: `source` depends on `target`.
#[derive(Clone, Copy, Debug, PartialEq, Eq, Structural)]
pub struct Arrow {
    pub source: i32,
    pub target: i32,
}

/// The way a traversal follows arrows.
#[derive(Clone, Copy, Debug, PartialEq, Eq, Structural)]
pub enum Direction {
    /// From an arrow's source to its target.
    TowardTargets,
    /// From an arrow's target to its source.
    TowardSources,
}

/// An edge collection handed in by the caller; nothing else is consulted.
#[derive(Debug)]
pub struct Arrows {
    pub arrows: Vec<Arrow>,
}

impl View for Arrows {
    type V = Seq<Arrow>;

    open spec fn view(&self) -> Seq<Arrow> {
        self.arrows@
    }
}

/// Some arrow leads from `a` to `b`.
pub open spec fn has_edge(es: Seq<Arrow>, a: i32, b: i32) -> bool {
    exists|i: int| 0 <= i < es.len() && (#[trigger] es[i]).source == a && es[i].target == b
}

/// One move from `a` to `b` in the given direction.
pub open spec fn step(es: Seq<Arrow>, dir: Direction, a: i32, b: i32) -> bool {
    match dir {
        Direction::TowardTargets => has_edge(es, a, b),
        Direction::TowardSources => has_edge(es, b, a),
    }
}

/// `p` is a non-empty sequence of nodes, each one move away from the one before.
pub open spec fn is_walk(es: Seq<Arrow>, dir: Direction, p: Seq<i32>) -> bool {
    &&& p.len() >= 1
    &&& forall|i: int| 0 <= i < p.len() - 1 ==> step(es, dir, #[trigger] p[i], p[i + 1])
}

/// `b` is `a` itself or can be reached from it by moves in the given direction.
pub open spec fn reaches(es: Seq<Arrow>, dir: Direction, a: i32, b: i32) -> bool {
    exists|p: Seq<i32>| #[trigger] is_walk(es, dir, p) && p.first() == a && p.last() == b
}

/// A walk of at least one arrow that returns to its starting node.
pub open spec fn is_cycle(es: Seq<Arrow>, p: Seq<i32>) -> bool {
    &&& p.len() >= 2
    &&& is_walk(es, Direction::TowardTargets, p)
    &&& p.first() == p.last()
}

/// The arrows contain a directed cycle (a self-arrow counts).
pub open spec fn cyclic(es: Seq<Arrow>) -> bool {
    exists|p: Seq<i32>| #[trigger] is_cycle(es, p)
}

/// No arrow leaves `a`.
pub open spec fn no_outgoing(es: Seq<Arrow>, a: i32) -> bool {
    forall|i: int| 0 <= i < es.len() ==> (#[trigger] es[i]).source != a
}

/// No arrow enters `a`.
pub open spec fn no_incoming(es: Seq<Arrow>, a: i32) -> bool {
    forall|i: int| 0 <= i < es.len() ==> (#[trigger] es[i]).target != a
}

impl Arrows {
    /// Whether no arrow leaves `id`.
    pub fn is_leaf(&self, id: i32) -> (r: bool)
        ensures
            r == no_outgoing(self@, id),
    {
        let mut i: usize = 0;
        while i < self.arrows.len()
            invariant
                i <= self.arrows.len(),
                forall|k: int| 0 <= k < i ==> (#[trigger] self@[k]).source != id,
            decreases self.arrows.len() - i,
        {
            if self.arrows[i].source == id {
                return false;
            }
            i += 1;
        }
        true
    }

    /// Whether no arrow enters `id`.
    pub fn is_root(&self, id: i32) -> (r: bool)
        ensures
            r == no_incoming(self@, id),
    {
        let mut i: usize = 0;
        while i < self.arrows.len()
            invariant
                i <= self.arrows.len(),
                forall|k: int| 0 <= k < i ==> (#[trigger] self@[k]).target != id,
            decreases self.arrows.len() - i,
        {
            if self.arrows[i].target == id {
                return false;
            }
            i += 1;
        }
        true
    }
}

/// The arrow in the sense of a direction: where a move along it starts and ends.
pub open spec fn oriented(e: Arrow, dir: Direction) -> (i32, i32) {
    match dir {
        Direction::TowardTargets => (e.source, e.target),
        Direction::TowardSources => (e.target, e.source),
    }
}

/// The map lists `b` under `a`.
pub open spec fn lists(m: Map<i32, Vec<i32>>, a: i32, b: i32) -> bool {
    m.contains_key(a) && m[a]@.contains(b)
}

/// A lookup table from a node to the nodes one move away from it.
pub struct Adjacency {
    map: HashMap<i32, Vec<i32>>,
}

impl Adjacency {
    /// The table lists `b` under `a`.
    pub closed spec fn links(&self, a: i32, b: i32) -> bool {
        lists(self.map@, a, b)
    }

    /// The nodes that the table lists under `a`.
    pub closed spec fn list(&self, a: i32) -> Seq<i32> {
        if self.map@.contains_key(a) {
            self.map@[a]@
        } else {
            Seq::empty()
        }
    }

    /// The table lists `b` under `a` where `b` is in the list of `a`.
    pub proof fn lemma_list(&self, a: i32, b: i32)
        ensures
            self.links(a, b) <==> self.list(a).contains(b),
    {
    }

    /// The table lists exactly the moves that the arrows allow in a direction.
    pub closed spec fn describes(&self, es: Seq<Arrow>, dir: Direction) -> bool {
        forall|a: i32, b: i32| step(es, dir, a, b) <==> #[trigger] self.links(a, b)
    }

    /// What `describes` says of one pair of nodes.
    pub proof fn lemma_describes(&self, es: Seq<Arrow>, dir: Direction, a: i32, b: i32)
        requires
            self.describes(es, dir),
        ensures
            step(es, dir, a, b) <==> self.links(a, b),
    {
    }

    /// Builds the table for a list of arrows, in time linear in their number.
    pub fn build(es: &Vec<Arrow>, dir: Direction) -> (adj: Adjacency)
        ensures
            adj.describes(es@, dir),
    {
        let mut map: HashMap<i32, Vec<i32>> = HashMap::new();
        let mut k: usize = 0;
        while k < es.len()
            invariant
                k <= es.len(),
                forall|a: i32, b: i32|
                    step(es@.take(k as int), dir, a, b) <==> #[trigger] lists(map@, a, b),
            decreases es.len() - k,
        {
            let e = es[k];
            let (from, to) = match dir {
                Direction::TowardTargets => (e.source, e.target),
                Direction::TowardSources => (e.target, e.source),
            };
            let ghost before = map@;
            let mut list = match map.remove(&from) {
                Some(found) => found,
                None => Vec::new(),
            };
            let ghost listed = list@;
            list.push(to);
            map.insert(from, list);
            proof {
                assert(es@.take(k as int + 1) =~= es@.take(k as int).push(e));
                assert forall|a: i32, b: i32|
                    step(es@.take(k as int + 1), dir, a, b) <==> #[trigger] lists(map@, a, b) by {
                    lemma_step_push(es@.take(k as int), e, dir, a, b);
                    assert(lists(before, a, b) <==> step(es@.take(k as int), dir, a, b));
                    if a == from {
                        assert(map@[a]@ == listed.push(to));
                        if before.contains_key(a) {
                            assert(listed == before[a]@);
                        } else {
                            assert(listed.len() == 0);
                        }
                        if listed.push(to).contains(b) {
                            let j = choose|j: int|
                                0 <= j < listed.push(to).len() && listed.push(to)[j] == b;
                            if j < listed.len() {
                                assert(listed[j] == b);
                            }
                        }
                        if listed.contains(b) {
                            let j = choose|j: int| 0 <= j < listed.len() && listed[j] == b;
                            assert(listed.push(to)[j] == b);
                        }
                        assert(listed.push(to)[listed.len() as int] == to);
                    }
                }
            }
            k += 1;
        }
        proof {
            assert(es@.take(es.len() as int) =~= es@);
        }
        Adjacency { map }
    }

    /// The nodes one move away from `a`, if there are any.
    pub fn successors(&self, a: i32) -> (r: Option<&Vec<i32>>)
        ensures
            match r {
                Some(list) => list@ == self.list(a) && forall|b: i32|
                    self.links(a, b) <==> list@.contains(b),
                None => self.list(a).len() == 0 && forall|b: i32| !self.links(a, b),
            },
    {
        self.map.get(&a)
    }
}

/// What one more arrow adds to the moves that a list of arrows allows.
pub proof fn lemma_step_push(es: Seq<Arrow>, e: Arrow, dir: Direction, a: i32, b: i32)
    ensures
        step(es.push(e), dir, a, b) <==> step(es, dir, a, b) || oriented(e, dir) == (a, b),
{
    let more = es.push(e);
    let (x, y) = match dir {
        Direction::TowardTargets => (a, b),
        Direction::TowardSources => (b, a),
    };
    if has_edge(es, x, y) {
        let i = choose|i: int| 0 <= i < es.len() && (#[trigger] es[i]).source == x && es[i].target == y;
        assert(more[i] == es[i]);
    }
    if e.source == x && e.target == y {
        assert(more[es.len() as int] == e);
    }
    if has_edge(more, x, y) {
        let i = choose|i: int|
            0 <= i < more.len() && (#[trigger] more[i]).source == x && more[i].target == y;
        if i < es.len() {
            assert(es[i] == more[i]);
        }
    }
}

/// The nodes that some arrow starts or ends at.
pub open spec fn endpoints(es: Seq<Arrow>) -> Set<i32>
    decreases es.len(),
{
    if es.len() == 0 {
        Set::empty()
    } else {
        endpoints(es.drop_last()).insert(es.last().source).insert(es.last().target)
    }
}

/// The endpoints are finitely many and hold both ends of every arrow.
pub proof fn lemma_endpoints(es: Seq<Arrow>)
    ensures
        endpoints(es).finite(),
        forall|i: int|
            0 <= i < es.len() ==> endpoints(es).contains((#[trigger] es[i]).source)
                && endpoints(es).contains(es[i].target),
    decreases es.len(),
{
    if es.len() > 0 {
        lemma_endpoints(es.drop_last());
        assert forall|i: int| 0 <= i < es.len() implies endpoints(es).contains(
            (#[trigger] es[i]).source,
        ) && endpoints(es).contains(es[i].target) by {
            if i < es.len() - 1 {
                assert(es.drop_last()[i] == es[i]);
            }
        }
    }
}

/// A part of a walk is a walk.
pub proof fn lemma_walk_part(es: Seq<Arrow>, dir: Direction, p: Seq<i32>, from: int, to: int)
    requires
        is_walk(es, dir, p),
        0 <= from < to <= p.len(),
    ensures
        is_walk(es, dir, p.subrange(from, to)),
{
    let q = p.subrange(from, to);
    assert forall|i: int| 0 <= i < q.len() - 1 implies step(es, dir, #[trigger] q[i], q[i + 1]) by {
        assert(q[i] == p[from + i]);
        assert(q[i + 1] == p[from + i + 1]);
    }
}

/// A walk goes on by one move from its last node.
pub proof fn lemma_walk_push(es: Seq<Arrow>, dir: Direction, p: Seq<i32>, b: i32)
    requires
        is_walk(es, dir, p),
        step(es, dir, p.last(), b),
    ensures
        is_walk(es, dir, p.push(b)),
{
    let q = p.push(b);
    assert forall|i: int| 0 <= i < q.len() - 1 implies step(es, dir, #[trigger] q[i], q[i + 1]) by {
        if i < p.len() - 1 {
            assert(q[i] == p[i]);
            assert(q[i + 1] == p[i + 1]);
        } else {
            assert(q[i] == p.last());
        }
    }
}

/// Two walks that meet end to start make one walk.
pub proof fn lemma_walk_join(es: Seq<Arrow>, dir: Direction, p: Seq<i32>, q: Seq<i32>)
    requires
        is_walk(es, dir, p),
        is_walk(es, dir, q),
        p.last() == q.first(),
    ensures
        is_walk(es, dir, p + q.subrange(1, q.len() as int)),
        (p + q.subrange(1, q.len() as int)).first() == p.first(),
        (p + q.subrange(1, q.len() as int)).last() == q.last(),
{
    let r = p + q.subrange(1, q.len() as int);
    assert forall|i: int| 0 <= i < r.len() - 1 implies step(es, dir, #[trigger] r[i], r[i + 1]) by {
        if i < p.len() - 1 {
            assert(r[i] == p[i]);
            assert(r[i + 1] == p[i + 1]);
        } else if i == p.len() - 1 {
            assert(r[i] == q[0]);
            assert(r[i + 1] == q[1]);
        } else {
            assert(r[i] == q[i - p.len() + 1]);
            assert(r[i + 1] == q[i - p.len() + 2]);
        }
    }
}

/// A walk stays a walk when an arrow is added.
pub proof fn lemma_walk_survives_push(es: Seq<Arrow>, e: Arrow, dir: Direction, p: Seq<i32>)
    requires
        is_walk(es, dir, p),
    ensures
        is_walk(es.push(e), dir, p),
{
    assert forall|i: int| 0 <= i < p.len() - 1 implies step(
        es.push(e),
        dir,
        #[trigger] p[i],
        p[i + 1],
    ) by {
        lemma_step_push(es, e, dir, p[i], p[i + 1]);
    }
}

} // verus!
