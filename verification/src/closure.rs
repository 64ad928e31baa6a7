//! Reachability closures by breadth-first search.

use crate::graph::{
    endpoints, is_walk, lemma_endpoints, lemma_walk_join, lemma_walk_push, reaches, step,
    Adjacency, Arrow, Arrows, Direction,
};
use crate::sequences::lemma_push_fresh;
use std::collections::HashSet;
use vstd::prelude::*;

verus! {

broadcast use vstd::std_specs::hash::group_hash_axioms;

/// `x` is one of the seeds or can be reached from one of them.
pub open spec fn reaches_from(es: Seq<Arrow>, dir: Direction, seeds: Seq<i32>, x: i32) -> bool {
    exists|i: int| 0 <= i < seeds.len() && reaches(es, dir, #[trigger] seeds[i], x)
}

/// Every node reaches itself.
pub proof fn lemma_reaches_itself(es: Seq<Arrow>, dir: Direction, a: i32)
    ensures
        reaches(es, dir, a, a),
{
    let p = seq![a];
    assert(is_walk(es, dir, p));
    assert(p.first() == a && p.last() == a);
}

/// What is one move away from a reachable node is reachable.
pub proof fn lemma_reaches_one_more(es: Seq<Arrow>, dir: Direction, a: i32, b: i32, c: i32)
    requires
        reaches(es, dir, a, b),
        step(es, dir, b, c),
    ensures
        reaches(es, dir, a, c),
{
    let p = choose|p: Seq<i32>| #[trigger] is_walk(es, dir, p) && p.first() == a && p.last() == b;
    lemma_walk_push(es, dir, p, c);
    let q = p.push(c);
    assert(q.first() == a && q.last() == c);
}

/// Reachability is transitive in either direction: what is reachable from a
/// reachable node is reachable.
pub proof fn lemma_reaches_transitive(es: Seq<Arrow>, dir: Direction, a: i32, b: i32, c: i32)
    requires
        reaches(es, dir, a, b),
        reaches(es, dir, b, c),
    ensures
        reaches(es, dir, a, c),
{
    let p = choose|p: Seq<i32>| #[trigger] is_walk(es, dir, p) && p.first() == a && p.last() == b;
    let q = choose|q: Seq<i32>| #[trigger] is_walk(es, dir, q) && q.first() == b && q.last() == c;
    lemma_walk_join(es, dir, p, q);
    assert(is_walk(es, dir, p + q.subrange(1, q.len() as int)));
}

/// Reachability respects direction: following arrows backward from `b` finds
/// `a` exactly when following them forward from `a` finds `b`.
pub proof fn lemma_reaches_reversed(es: Seq<Arrow>, a: i32, b: i32)
    ensures
        reaches(es, Direction::TowardTargets, a, b) <==> reaches(es, Direction::TowardSources, b, a),
{
    if reaches(es, Direction::TowardTargets, a, b) {
        let p = choose|p: Seq<i32>| #[trigger]
            is_walk(es, Direction::TowardTargets, p) && p.first() == a && p.last() == b;
        lemma_walk_reversed(es, Direction::TowardTargets, p);
        assert(p.reverse().first() == b && p.reverse().last() == a);
    }
    if reaches(es, Direction::TowardSources, b, a) {
        let p = choose|p: Seq<i32>| #[trigger]
            is_walk(es, Direction::TowardSources, p) && p.first() == b && p.last() == a;
        lemma_walk_reversed(es, Direction::TowardSources, p);
        assert(p.reverse().first() == a && p.reverse().last() == b);
    }
}

/// The other direction.
pub open spec fn opposite(dir: Direction) -> Direction {
    match dir {
        Direction::TowardTargets => Direction::TowardSources,
        Direction::TowardSources => Direction::TowardTargets,
    }
}

/// A walk read backward is a walk in the other direction.
pub proof fn lemma_walk_reversed(es: Seq<Arrow>, dir: Direction, p: Seq<i32>)
    requires
        is_walk(es, dir, p),
    ensures
        is_walk(es, opposite(dir), p.reverse()),
{
    let q = p.reverse();
    let n = p.len() as int;
    assert forall|i: int| 0 <= i < q.len() - 1 implies step(
        es,
        opposite(dir),
        #[trigger] q[i],
        q[i + 1],
    ) by {
        assert(q[i] == p[n - 1 - i]);
        assert(q[i + 1] == p[n - 2 - i]);
        assert(step(es, dir, p[n - 2 - i], p[n - 2 - i + 1]));
    }
}

/// A set that no move leaves holds every node of a walk that starts in it.
proof fn lemma_walk_stays(es: Seq<Arrow>, dir: Direction, inside: Set<i32>, p: Seq<i32>, i: int)
    requires
        is_walk(es, dir, p),
        inside.contains(p.first()),
        forall|a: i32, b: i32| inside.contains(a) && #[trigger] step(es, dir, a, b) ==> inside.contains(b),
        0 <= i < p.len(),
    ensures
        inside.contains(p[i]),
    decreases i,
{
    if i > 0 {
        lemma_walk_stays(es, dir, inside, p, i - 1);
        assert(step(es, dir, p[i - 1], p[i - 1 + 1]));
    }
}

/// What is one move away from what the seeds reach is reached by them.
proof fn lemma_reaches_from_one_more(
    es: Seq<Arrow>,
    dir: Direction,
    seeds: Seq<i32>,
    b: i32,
    c: i32,
)
    requires
        reaches_from(es, dir, seeds, b),
        step(es, dir, b, c),
    ensures
        reaches_from(es, dir, seeds, c),
{
    let i = choose|i: int| 0 <= i < seeds.len() && reaches(es, dir, #[trigger] seeds[i], b);
    lemma_reaches_one_more(es, dir, seeds[i], b, c);
}

impl Arrows {
    /// The closure of the seeds: the seeds themselves and every node that
    /// repeated moves in the given direction arrive at from one of them, each
    /// once, the first seed first. The search is breadth-first and takes time
    /// linear in the number of arrows and seeds.
    pub fn closure(&self, seeds: &Vec<i32>, dir: Direction) -> (out: Vec<i32>)
        ensures
            out@.no_duplicates(),
            forall|x: i32| out@.contains(x) <==> reaches_from(self@, dir, seeds@, x),
            seeds@.len() > 0 ==> out@.len() > 0 && out@[0] == seeds@[0],
    {
        let adj = Adjacency::build(&self.arrows, dir);
        let ghost universe = endpoints(self@) + seeds@.to_set();
        let mut seen: HashSet<i32> = HashSet::new();
        let mut out: Vec<i32> = Vec::new();
        proof {
            lemma_endpoints(self@);
            vstd::seq_lib::seq_to_set_is_finite(seeds@);
            vstd::set_lib::lemma_set_union_finite_iff(endpoints(self@), seeds@.to_set());
        }
        let mut s: usize = 0;
        while s < seeds.len()
            invariant
                s <= seeds.len(),
                universe == endpoints(self@) + seeds@.to_set(),
                out@.no_duplicates(),
                seen@ == out@.to_set(),
                out@.to_set().subset_of(universe),
                forall|i: int| 0 <= i < out@.len() ==> reaches_from(self@, dir, seeds@, #[trigger] out@[i]),
                forall|i: int| 0 <= i < s ==> out@.contains(#[trigger] seeds@[i]),
                s == 0 ==> out@.len() == 0,
                s > 0 ==> out@.len() > 0 && out@[0] == seeds@[0],
            decreases seeds.len() - s,
        {
            let seed = seeds[s];
            let ghost before = out@;
            proof {
                lemma_reaches_itself(self@, dir, seed);
                assert(seeds@.to_set().contains(seeds@[s as int]));
            }
            if !seen.contains(&seed) {
                seen.insert(seed);
                out.push(seed);
                proof {
                    lemma_push_fresh(before, seed);
                }
            }
            proof {
                lemma_still_contains(before, out@, seed);
                if before.len() > 0 {
                    assert(out@[0] == before[0]);
                }
                assert forall|i: int| 0 <= i < s + 1 implies out@.contains(#[trigger] seeds@[i]) by {
                    if i < s {
                        lemma_still_contains(before, out@, seeds@[i]);
                    }
                }
            }
            s += 1;
        }
        let mut head: usize = 0;
        while head < out.len()
            invariant
                head <= out.len(),
                adj.describes(self@, dir),
                universe == endpoints(self@) + seeds@.to_set(),
                universe.finite(),
                out@.no_duplicates(),
                seen@ == out@.to_set(),
                out@.to_set().subset_of(universe),
                forall|i: int| 0 <= i < out@.len() ==> reaches_from(self@, dir, seeds@, #[trigger] out@[i]),
                forall|i: int| 0 <= i < seeds@.len() ==> out@.contains(#[trigger] seeds@[i]),
                seeds@.len() > 0 ==> out@.len() > 0 && out@[0] == seeds@[0],
                forall|i: int, b: i32|
                    0 <= i < head && #[trigger] step(self@, dir, out@[i], b) ==> out@.contains(b),
            decreases universe.len() - head,
        {
            let u = out[head];
            proof {
                out@.unique_seq_to_set();
                vstd::set_lib::lemma_len_subset(out@.to_set(), universe);
            }
            match adj.successors(u) {
                None => {
                    proof {
                        assert forall|b: i32| #[trigger] step(self@, dir, u, b) implies false by {
                            adj.lemma_describes(self@, dir, u, b);
                        }
                    }
                },
                Some(list) => {
                    let mut j: usize = 0;
                    while j < list.len()
                        invariant
                            j <= list.len(),
                            head < out.len(),
                            u == out@[head as int],
                            adj.describes(self@, dir),
                            forall|b: i32| adj.links(u, b) <==> list@.contains(b),
                            universe == endpoints(self@) + seeds@.to_set(),
                            universe.finite(),
                            out@.no_duplicates(),
                            seen@ == out@.to_set(),
                            out@.to_set().subset_of(universe),
                            forall|i: int|
                                0 <= i < out@.len() ==> reaches_from(
                                    self@,
                                    dir,
                                    seeds@,
                                    #[trigger] out@[i],
                                ),
                            forall|i: int| 0 <= i < seeds@.len() ==> out@.contains(#[trigger] seeds@[i]),
                            seeds@.len() > 0 ==> out@.len() > 0 && out@[0] == seeds@[0],
                            forall|i: int, b: i32|
                                0 <= i < head && #[trigger] step(self@, dir, out@[i], b)
                                    ==> out@.contains(b),
                            forall|i: int| 0 <= i < j ==> out@.contains(#[trigger] list@[i]),
                        decreases list.len() - j,
                    {
                        let v = list[j];
                        let ghost before = out@;
                        proof {
                            assert(list@.contains(v));
                            adj.lemma_describes(self@, dir, u, v);
                            lemma_reaches_from_one_more(self@, dir, seeds@, u, v);
                            lemma_endpoints(self@);
                        }
                        if !seen.contains(&v) {
                            seen.insert(v);
                            out.push(v);
                            proof {
                                lemma_push_fresh(before, v);
                            }
                        }
                        proof {
                            lemma_still_contains(before, out@, v);
                            assert forall|i: int, b: i32|
                                0 <= i < head && #[trigger] step(
                                    self@,
                                    dir,
                                    out@[i],
                                    b,
                                ) implies out@.contains(b) by {
                                assert(before[i] == out@[i]);
                                lemma_still_contains(before, out@, b);
                            }
                            assert forall|i: int| 0 <= i < j + 1 implies out@.contains(
                                #[trigger] list@[i],
                            ) by {
                                if i < j {
                                    lemma_still_contains(before, out@, list@[i]);
                                }
                            }
                            assert forall|i: int| 0 <= i < seeds@.len() implies out@.contains(
                                #[trigger] seeds@[i],
                            ) by {
                                lemma_still_contains(before, out@, seeds@[i]);
                            }
                        }
                        j += 1;
                    }
                    proof {
                        assert forall|b: i32| #[trigger] step(self@, dir, u, b) implies out@.contains(
                            b,
                        ) by {
                            adj.lemma_describes(self@, dir, u, b);
                            let i = choose|i: int| 0 <= i < list@.len() && list@[i] == b;
                            assert(out@.contains(list@[i]));
                        }
                    }
                },
            }
            head += 1;
        }
        proof {
            let inside = out@.to_set();
            assert forall|a: i32, b: i32| inside.contains(a) && #[trigger] step(
                self@,
                dir,
                a,
                b,
            ) implies inside.contains(b) by {
                let i = choose|i: int| 0 <= i < out@.len() && out@[i] == a;
                assert(step(self@, dir, out@[i], b));
            }
            assert forall|x: i32| reaches_from(self@, dir, seeds@, x) implies out@.contains(x) by {
                let i = choose|i: int|
                    0 <= i < seeds@.len() && reaches(self@, dir, #[trigger] seeds@[i], x);
                let p = choose|p: Seq<i32>| #[trigger]
                    is_walk(self@, dir, p) && p.first() == seeds@[i] && p.last() == x;
                assert(out@.contains(seeds@[i]));
                lemma_walk_stays(self@, dir, inside, p, p.len() - 1);
            }
        }
        out
    }

    /// The closure of `seed`: the seed itself and every node that repeated
    /// moves in the given direction arrive at, each once, the seed first.
    pub fn reachable(&self, seed: i32, dir: Direction) -> (out: Vec<i32>)
        ensures
            out@.no_duplicates(),
            out@.len() >= 1,
            out@[0] == seed,
            forall|x: i32| out@.contains(x) <==> reaches(self@, dir, seed, x),
    {
        let mut seeds: Vec<i32> = Vec::new();
        seeds.push(seed);
        let out = self.closure(&seeds, dir);
        proof {
            assert forall|x: i32| reaches_from(self@, dir, seeds@, x) <==> reaches(
                self@,
                dir,
                seed,
                x,
            ) by {
                if reaches(self@, dir, seed, x) {
                    assert(reaches(self@, dir, seeds@[0], x));
                }
            }
        }
        out
    }
}

/// What a sequence holds, it holds after a push, or after none.
proof fn lemma_still_contains(before: Seq<i32>, after: Seq<i32>, x: i32)
    requires
        after == before || exists|y: i32| after == before.push(y),
        before.contains(x) || after == before.push(x),
    ensures
        after.contains(x),
{
    if before.contains(x) {
        let i = choose|i: int| 0 <= i < before.len() && before[i] == x;
        assert(after[i] == x);
    } else {
        assert(after[before.len() as int] == x);
    }
}

} // verus!
