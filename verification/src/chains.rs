//! Maximal chains: the walks that start where no arrow enters and go on until
//! no arrow leaves.

use crate::graph::{
    cyclic, endpoints, has_edge, is_cycle, is_walk, lemma_endpoints, lemma_walk_part,
    lemma_walk_push, no_incoming, no_outgoing, step, Adjacency, Arrow, Arrows, Direction,
};
use std::collections::HashSet;
use vstd::prelude::*;

verus! {

broadcast use vstd::std_specs::hash::group_hash_axioms;

/// A maximal chain: a walk along at least one arrow, from a node that no arrow
/// enters to a node that no arrow leaves.
pub open spec fn is_chain(es: Seq<Arrow>, p: Seq<i32>) -> bool {
    &&& p.len() >= 2
    &&& is_walk(es, Direction::TowardTargets, p)
    &&& no_incoming(es, p.first())
    &&& no_outgoing(es, p.last())
}

/// A walk along at least one arrow that starts where no arrow enters, passes no
/// node twice, and ends where every arrow that leaves leads back onto it.
pub open spec fn is_simple_chain(es: Seq<Arrow>, p: Seq<i32>) -> bool {
    &&& p.len() >= 2
    &&& is_walk(es, Direction::TowardTargets, p)
    &&& no_incoming(es, p.first())
    &&& p.no_duplicates()
    &&& forall|b: i32| #[trigger] has_edge(es, p.last(), b) ==> p.contains(b)
}

/// One of the listed paths is `p`.
pub open spec fn lists_path(out: Seq<Vec<i32>>, p: Seq<i32>) -> bool {
    exists|k: int| 0 <= k < out.len() && (#[trigger] out[k])@ == p
}

/// Where no cycle exists, no walk passes a node twice.
pub proof fn lemma_acyclic_walk_is_simple(es: Seq<Arrow>, p: Seq<i32>)
    requires
        !cyclic(es),
        is_walk(es, Direction::TowardTargets, p),
    ensures
        p.no_duplicates(),
{
    assert forall|i: int, j: int| 0 <= i < p.len() && 0 <= j < p.len() && i != j implies p[i]
        != p[j] by {
        if p[i] == p[j] {
            let (lo, hi) = if i < j {
                (i, j)
            } else {
                (j, i)
            };
            lemma_walk_part(es, Direction::TowardTargets, p, lo, hi + 1);
            let c = p.subrange(lo, hi + 1);
            assert(c.first() == p[lo] && c.last() == p[hi]);
            assert(is_cycle(es, c));
        }
    }
}

/// Where no cycle exists, the simple chains are the maximal chains.
pub proof fn lemma_acyclic_chains(es: Seq<Arrow>, p: Seq<i32>)
    requires
        !cyclic(es),
    ensures
        is_simple_chain(es, p) <==> is_chain(es, p),
{
    if is_chain(es, p) {
        lemma_acyclic_walk_is_simple(es, p);
        assert forall|b: i32| has_edge(es, p.last(), b) implies p.contains(b) by {
            let i = choose|i: int|
                0 <= i < es.len() && (#[trigger] es[i]).source == p.last() && es[i].target == b;
            assert(es[i].source != p.last());
        }
    }
    if is_simple_chain(es, p) {
        assert forall|i: int| 0 <= i < es.len() implies (#[trigger] es[i]).source != p.last() by {
            if es[i].source == p.last() {
                let b = es[i].target;
                assert(has_edge(es, p.last(), b));
                assert(p.contains(b));
                lemma_walk_push(es, Direction::TowardTargets, p, b);
                lemma_acyclic_walk_is_simple(es, p.push(b));
                let m = choose|m: int| 0 <= m < p.len() && p[m] == b;
                assert(p.push(b)[m] == b);
                assert(p.push(b)[p.len() as int] == b);
            }
        }
    }
}

/// Every node of a walk along at least one arrow is an endpoint.
pub proof fn lemma_walk_on_endpoints(es: Seq<Arrow>, p: Seq<i32>)
    requires
        is_walk(es, Direction::TowardTargets, p),
        p.len() >= 2,
    ensures
        p.to_set().subset_of(endpoints(es)),
{
    lemma_endpoints(es);
    assert forall|x: i32| p.to_set().contains(x) implies endpoints(es).contains(x) by {
        let i = choose|i: int| 0 <= i < p.len() && p[i] == x;
        if i < p.len() - 1 {
            assert(has_edge(es, p[i], p[i + 1]));
        } else {
            assert(has_edge(es, p[i - 1], p[i - 1 + 1]));
        }
    }
}

/// Where no cycle exists, a walk along at least one arrow goes on to a node
/// that no arrow leaves.
pub proof fn lemma_walk_goes_on(es: Seq<Arrow>, w: Seq<i32>) -> (onward: Seq<i32>)
    requires
        !cyclic(es),
        is_walk(es, Direction::TowardTargets, w),
        w.len() >= 2,
    ensures
        is_walk(es, Direction::TowardTargets, w + onward),
        no_outgoing(es, (w + onward).last()),
    decreases endpoints(es).len() - w.len(),
{
    lemma_acyclic_walk_is_simple(es, w);
    lemma_walk_on_endpoints(es, w);
    lemma_simple_walk_is_short(es, w);
    if no_outgoing(es, w.last()) {
        assert(w + Seq::<i32>::empty() =~= w);
        Seq::empty()
    } else {
        let i = choose|i: int| 0 <= i < es.len() && (#[trigger] es[i]).source == w.last();
        let next = es[i].target;
        assert(has_edge(es, w.last(), next));
        lemma_walk_push(es, Direction::TowardTargets, w, next);
        lemma_acyclic_walk_is_simple(es, w.push(next));
        lemma_walk_on_endpoints(es, w.push(next));
        lemma_simple_walk_is_short(es, w.push(next));
        let rest = lemma_walk_goes_on(es, w.push(next));
        assert(w + (seq![next] + rest) =~= w.push(next) + rest);
        seq![next] + rest
    }
}

/// A walk goes on backward by one move to its first node.
pub proof fn lemma_walk_prepend(es: Seq<Arrow>, a: i32, p: Seq<i32>)
    requires
        is_walk(es, Direction::TowardTargets, p),
        has_edge(es, a, p.first()),
    ensures
        is_walk(es, Direction::TowardTargets, seq![a] + p),
{
    let q = seq![a] + p;
    assert forall|i: int| 0 <= i < q.len() - 1 implies step(
        es,
        Direction::TowardTargets,
        #[trigger] q[i],
        q[i + 1],
    ) by {
        if i == 0 {
            assert(q[0] == a && q[1] == p[0]);
        } else {
            assert(q[i] == p[i - 1]);
            assert(q[i + 1] == p[i - 1 + 1]);
        }
    }
}

/// Where no cycle exists, a walk along at least one arrow comes from a node
/// that no arrow enters.
pub proof fn lemma_walk_comes_from(es: Seq<Arrow>, w: Seq<i32>) -> (before: Seq<i32>)
    requires
        !cyclic(es),
        is_walk(es, Direction::TowardTargets, w),
        w.len() >= 2,
    ensures
        is_walk(es, Direction::TowardTargets, before + w),
        no_incoming(es, (before + w).first()),
    decreases endpoints(es).len() - w.len(),
{
    lemma_acyclic_walk_is_simple(es, w);
    lemma_walk_on_endpoints(es, w);
    lemma_simple_walk_is_short(es, w);
    if no_incoming(es, w.first()) {
        assert(Seq::<i32>::empty() + w =~= w);
        Seq::empty()
    } else {
        let i = choose|i: int| 0 <= i < es.len() && (#[trigger] es[i]).target == w.first();
        let prev = es[i].source;
        assert(has_edge(es, prev, w.first()));
        lemma_walk_prepend(es, prev, w);
        let longer = seq![prev] + w;
        lemma_acyclic_walk_is_simple(es, longer);
        lemma_walk_on_endpoints(es, longer);
        lemma_simple_walk_is_short(es, longer);
        let rest = lemma_walk_comes_from(es, longer);
        assert((rest + seq![prev]) + w =~= rest + longer);
        rest + seq![prev]
    }
}

/// Where no cycle exists, every walk along at least one arrow is part of a
/// maximal chain.
pub proof fn lemma_walk_is_part_of_a_chain(es: Seq<Arrow>, w: Seq<i32>) -> (around: (
    Seq<i32>,
    Seq<i32>,
))
    requires
        !cyclic(es),
        is_walk(es, Direction::TowardTargets, w),
        w.len() >= 2,
    ensures
        is_chain(es, around.0 + w + around.1),
{
    let onward = lemma_walk_goes_on(es, w);
    let before = lemma_walk_comes_from(es, w + onward);
    assert(before + (w + onward) =~= before + w + onward);
    assert((before + w + onward).first() == (before + (w + onward)).first());
    (before, onward)
}

/// A walk that passes no node twice is no longer than there are endpoints.
proof fn lemma_simple_walk_is_short(es: Seq<Arrow>, p: Seq<i32>)
    requires
        p.no_duplicates(),
        p.to_set().subset_of(endpoints(es)),
    ensures
        p.len() <= endpoints(es).len(),
{
    lemma_endpoints(es);
    p.unique_seq_to_set();
    vstd::set_lib::lemma_len_subset(p.to_set(), endpoints(es));
}

/// Lists, behind what `out` holds, every simple chain that begins with `path`.
fn extend(
    adj: &Adjacency,
    path: &mut Vec<i32>,
    on_path: &mut HashSet<i32>,
    out: &mut Vec<Vec<i32>>,
    Ghost(es): Ghost<Seq<Arrow>>,
)
    requires
        adj.describes(es, Direction::TowardTargets),
        old(path)@.len() >= 1,
        is_walk(es, Direction::TowardTargets, old(path)@),
        old(path)@.no_duplicates(),
        old(on_path)@ == old(path)@.to_set(),
        old(path)@.to_set().subset_of(endpoints(es)),
        no_incoming(es, old(path)@.first()),
        forall|k: int| 0 <= k < old(out)@.len() ==> is_simple_chain(es, (#[trigger] old(out)@[k])@),
    ensures
        final(path)@ == old(path)@,
        final(on_path)@ == old(on_path)@,
        old(out)@.is_prefix_of(final(out)@),
        forall|k: int|
            0 <= k < final(out)@.len() ==> is_simple_chain(es, (#[trigger] final(out)@[k])@),
        forall|p: Seq<i32>|
            is_simple_chain(es, p) && old(path)@.is_prefix_of(p) ==> #[trigger] lists_path(
                final(out)@,
                p,
            ),
    decreases endpoints(es).len() - old(path)@.len(),
{
    let ghost stem = path@;
    let ghost listed = out@;
    let u = path[path.len() - 1];
    let mut extended = false;
    let ghost mut onward: i32 = u;
    proof {
        lemma_simple_walk_is_short(es, stem);
    }
    match adj.successors(u) {
        None => {},
        Some(list) => {
            let mut j: usize = 0;
            while j < list.len()
                invariant
                    j <= list.len(),
                    adj.describes(es, Direction::TowardTargets),
                    forall|b: i32| adj.links(u, b) <==> list@.contains(b),
                    stem == old(path)@,
                    path@ == stem,
                    on_path@ == stem.to_set(),
                    stem.len() >= 1,
                    u == stem.last(),
                    is_walk(es, Direction::TowardTargets, stem),
                    stem.no_duplicates(),
                    stem.to_set().subset_of(endpoints(es)),
                    stem.len() <= endpoints(es).len(),
                    no_incoming(es, stem.first()),
                    old(out)@.is_prefix_of(out@),
                    forall|k: int|
                        0 <= k < out@.len() ==> is_simple_chain(es, (#[trigger] out@[k])@),
                    !extended ==> forall|i: int| 0 <= i < j ==> stem.contains(#[trigger] list@[i]),
                    extended ==> has_edge(es, u, onward) && !stem.contains(onward),
                    forall|i: int, p: Seq<i32>|
                        0 <= i < j && is_simple_chain(es, p) && stem.push(
                            #[trigger] list@[i],
                        ).is_prefix_of(p) ==> #[trigger] lists_path(out@, p),
                decreases list.len() - j,
            {
                let v = list[j];
                let ghost before = out@;
                proof {
                    assert(list@.contains(v));
                    adj.lemma_describes(es, Direction::TowardTargets, u, v);
                    lemma_endpoints(es);
                }
                if !on_path.contains(&v) {
                    extended = true;
                    proof {
                        onward = v;
                    }
                    path.push(v);
                    on_path.insert(v);
                    proof {
                        let longer = stem.push(v);
                        lemma_walk_push(es, Direction::TowardTargets, stem, v);
                        assert(!stem.contains(v));
                        assert(longer.no_duplicates()) by {
                            assert forall|a: int, b: int|
                                0 <= a < longer.len() && 0 <= b < longer.len() && a
                                    != b implies longer[a] != longer[b] by {
                                if a < stem.len() {
                                    assert(stem.contains(stem[a]));
                                }
                                if b < stem.len() {
                                    assert(stem.contains(stem[b]));
                                }
                            }
                        }
                        assert(longer.to_set() =~= stem.to_set().insert(v)) by {
                            assert forall|x: i32|
                                longer.to_set().contains(x) <==> stem.to_set().insert(v).contains(
                                    x,
                                ) by {
                                if stem.contains(x) {
                                    let i = choose|i: int| 0 <= i < stem.len() && stem[i] == x;
                                    assert(longer[i] == x);
                                }
                                if longer.contains(x) {
                                    let i = choose|i: int| 0 <= i < longer.len() && longer[i] == x;
                                    if i < stem.len() {
                                        assert(stem[i] == x);
                                    }
                                }
                                assert(longer[stem.len() as int] == v);
                            }
                        }
                        assert(longer.first() == stem.first());
                        lemma_simple_walk_is_short(es, longer);
                    }
                    extend(adj, path, on_path, out, Ghost(es));
                    path.pop();
                    on_path.remove(&v);
                    proof {
                        assert(path@ =~= stem);
                        assert(on_path@ =~= stem.to_set());
                        assert forall|i: int, p: Seq<i32>|
                            0 <= i < j && is_simple_chain(es, p) && stem.push(
                                #[trigger] list@[i],
                            ).is_prefix_of(p) implies #[trigger] lists_path(out@, p) by {
                            lemma_still_listed(before, out@, p);
                        }
                    }
                }
                proof {
                    assert forall|p: Seq<i32>|
                        is_simple_chain(es, p) && stem.push(v).is_prefix_of(
                            p,
                        ) implies #[trigger] lists_path(out@, p) by {
                        if stem.contains(v) {
                            let m = choose|m: int| 0 <= m < stem.len() && stem[m] == v;
                            assert(p[m] == stem.push(v)[m]);
                            assert(p[stem.len() as int] == stem.push(v)[stem.len() as int]);
                            assert(false);
                        }
                    }
                }
                j += 1;
            }
        },
    }
    let ghost grown = out@;
    assert(!extended ==> forall|b: i32| adj.links(u, b) ==> stem.contains(b));
    assert(forall|b: i32, p: Seq<i32>|
        adj.links(u, b) && is_simple_chain(es, p) && stem.push(b).is_prefix_of(p) ==> lists_path(
            grown,
            p,
        )) by {
        assert forall|b: i32, p: Seq<i32>|
            adj.links(u, b) && is_simple_chain(es, p) && stem.push(b).is_prefix_of(
                p,
            ) implies lists_path(grown, p) by {
            // `b` stands somewhere in the list that was walked
        }
    }
    if !extended && path.len() >= 2 {
        let found = path.clone();
        out.push(found);
        proof {
            assert forall|b: i32| has_edge(es, stem.last(), b) implies stem.contains(b) by {
                adj.lemma_describes(es, Direction::TowardTargets, u, b);
            }
            assert(out@[grown.len() as int]@ == stem);
            assert forall|k: int| 0 <= k < out@.len() implies is_simple_chain(
                es,
                (#[trigger] out@[k])@,
            ) by {
                if k < grown.len() {
                    assert(out@[k] == grown[k]);
                }
            }
        }
    }
    proof {
        assert(grown.is_prefix_of(out@));
        assert forall|p: Seq<i32>|
            is_simple_chain(es, p) && stem.is_prefix_of(p) implies #[trigger] lists_path(
            out@,
            p,
        ) by {
            if p.len() == stem.len() {
                assert(p =~= stem);
                if extended {
                    assert(has_edge(es, p.last(), onward));
                    assert(p.contains(onward));
                }
                assert(out@[grown.len() as int]@ == p);
            } else {
                let b = p[stem.len() as int];
                assert(p[stem.len() - 1] == stem.last());
                assert(has_edge(es, u, b));
                adj.lemma_describes(es, Direction::TowardTargets, u, b);
                assert(stem.push(b).is_prefix_of(p)) by {
                    assert forall|i: int| 0 <= i < stem.push(b).len() implies stem.push(b)[i]
                        == p[i] by {
                        if i < stem.len() {
                            assert(stem[i] == p[i]);
                        }
                    }
                }
                assert(lists_path(grown, p));
                lemma_still_listed(grown, out@, p);
            }
        }
    }
}

/// A longer list still lists what its beginning lists.
proof fn lemma_still_listed(before: Seq<Vec<i32>>, after: Seq<Vec<i32>>, p: Seq<i32>)
    requires
        before.is_prefix_of(after),
        lists_path(before, p),
    ensures
        lists_path(after, p),
{
    let k = choose|k: int| 0 <= k < before.len() && (#[trigger] before[k])@ == p;
    assert(after[k] == before[k]);
}

impl Arrows {
    /// The chains of the graph. Each listed path follows at least one arrow,
    /// starts at a node that no arrow enters, passes no node twice and stops
    /// where it cannot go on without doing so; every such path is listed.
    /// Where the arrows hold no cycle, these are exactly the maximal chains.
    pub fn paths(&self) -> (out: Vec<Vec<i32>>)
        ensures
            forall|k: int| 0 <= k < out@.len() ==> is_simple_chain(self@, (#[trigger] out@[k])@),
            forall|p: Seq<i32>| is_simple_chain(self@, p) ==> #[trigger] lists_path(out@, p),
            !cyclic(self@) ==> forall|p: Seq<i32>|
                is_chain(self@, p) <==> #[trigger] lists_path(out@, p),
    {
        let adj = Adjacency::build(&self.arrows, Direction::TowardTargets);
        let mut entered: HashSet<i32> = HashSet::new();
        let mut i: usize = 0;
        while i < self.arrows.len()
            invariant
                i <= self.arrows.len(),
                forall|m: int| 0 <= m < i ==> entered@.contains((#[trigger] self@[m]).target),
                forall|x: i32|
                    entered@.contains(x) ==> exists|m: int|
                        0 <= m < i && (#[trigger] self@[m]).target == x,
            decreases self.arrows.len() - i,
        {
            let ghost before = entered@;
            entered.insert(self.arrows[i].target);
            proof {
                assert forall|x: i32| entered@.contains(x) implies exists|m: int|
                    0 <= m < i + 1 && (#[trigger] self@[m]).target == x by {
                    if before.contains(x) {
                        let m = choose|m: int| 0 <= m < i && (#[trigger] self@[m]).target == x;
                        assert(self@[m].target == x);
                    } else {
                        assert(self@[i as int].target == x);
                    }
                }
            }
            i += 1;
        }
        assert forall|x: i32| !entered@.contains(x) <==> no_incoming(self@, x) by {
            if entered@.contains(x) {
                let m = choose|m: int| 0 <= m < i && (#[trigger] self@[m]).target == x;
                assert(self@[m].target == x);
            }
        }
        let mut started: HashSet<i32> = HashSet::new();
        let mut out: Vec<Vec<i32>> = Vec::new();
        let mut i: usize = 0;
        while i < self.arrows.len()
            invariant
                i <= self.arrows.len(),
                adj.describes(self@, Direction::TowardTargets),
                forall|x: i32| !entered@.contains(x) <==> no_incoming(self@, x),
                forall|k: int| 0 <= k < out@.len() ==> is_simple_chain(self@, (#[trigger] out@[k])@),
                forall|p: Seq<i32>|
                    is_simple_chain(self@, p) && started@.contains(p.first()) ==> #[trigger] lists_path(
                        out@,
                        p,
                    ),
                forall|m: int|
                    0 <= m < i && no_incoming(self@, (#[trigger] self@[m]).source)
                        ==> started@.contains(self@[m].source),
            decreases self.arrows.len() - i,
        {
            let u = self.arrows[i].source;
            if !entered.contains(&u) && !started.contains(&u) {
                let ghost listed = out@;
                let ghost begun = started@;
                started.insert(u);
                let mut path: Vec<i32> = Vec::new();
                path.push(u);
                let mut on_path: HashSet<i32> = HashSet::new();
                on_path.insert(u);
                proof {
                    lemma_endpoints(self@);
                    assert(path@ =~= seq![u]);
                    assert(on_path@ =~= path@.to_set()) by {
                        assert(path@[0] == u);
                        assert(path@.contains(u));
                    }
                    assert(endpoints(self@).contains(self@[i as int].source));
                }
                extend(&adj, &mut path, &mut on_path, &mut out, Ghost(self@));
                proof {
                    assert forall|p: Seq<i32>|
                        is_simple_chain(self@, p) && started@.contains(
                            p.first(),
                        ) implies #[trigger] lists_path(out@, p) by {
                        if p.first() == u {
                            assert(seq![u].is_prefix_of(p));
                        } else {
                            assert(begun.contains(p.first()));
                            lemma_still_listed(listed, out@, p);
                        }
                    }
                }
            }
            i += 1;
        }
        proof {
            assert forall|p: Seq<i32>| is_simple_chain(self@, p) implies #[trigger] lists_path(
                out@,
                p,
            ) by {
                assert(has_edge(self@, p[0], p[0int + 1]));
                let m = choose|m: int|
                    0 <= m < self@.len() && (#[trigger] self@[m]).source == p[0] && self@[m].target
                        == p[1];
                assert(started@.contains(self@[m].source));
            }
            if !cyclic(self@) {
                assert forall|p: Seq<i32>| is_chain(self@, p) <==> #[trigger] lists_path(
                    out@,
                    p,
                ) by {
                    lemma_acyclic_chains(self@, p);
                    if lists_path(out@, p) {
                        let k = choose|k: int| 0 <= k < out@.len() && (#[trigger] out@[k])@ == p;
                        assert(is_simple_chain(self@, out@[k]@));
                    }
                }
            }
        }
        out
    }
}

} // verus!
