//! Cycle detection by depth-first search with three node states: not seen, in
//! progress, done. An arrow that leads to a node in progress closes a cycle. The
//! search keeps its own stack, so that long chains cost no call depth.

use crate::graph::{
    cyclic, endpoints, has_edge, is_cycle, is_walk, lemma_endpoints, lemma_step_push,
    lemma_walk_part, lemma_walk_push, lemma_walk_survives_push, reaches, step, Adjacency, Arrow,
    Arrows, Direction,
};
use std::collections::HashMap;
use vstd::prelude::*;

verus! {

broadcast use vstd::std_specs::hash::group_hash_axioms;

/// Some cycle passes through `u`.
pub open spec fn on_cycle(es: Seq<Arrow>, u: i32) -> bool {
    exists|p: Seq<i32>| #[trigger] is_cycle(es, p) && p.first() == u
}

/// A cycle through a node leaves it by an arrow to a node that is on a cycle too.
pub proof fn lemma_cycle_moves_on(es: Seq<Arrow>, p: Seq<i32>)
    requires
        is_cycle(es, p),
    ensures
        has_edge(es, p[0], p[1]),
        on_cycle(es, p[1]),
{
    let n = p.len() as int;
    assert(has_edge(es, p[0], p[1]));
    let tail = p.subrange(1, n);
    lemma_walk_part(es, Direction::TowardTargets, p, 1, n);
    assert(tail.last() == p[0]);
    lemma_walk_push(es, Direction::TowardTargets, tail, p[1]);
    let q = tail.push(p[1]);
    assert(q.first() == p[1]);
    assert(is_cycle(es, q));
}

/// What holds of the marks of a search. The marks hold the nodes seen so far,
/// each in progress (`false`) or done (`true`); a node that is not a key has
/// not been seen. Every seen node is an endpoint, and no done node lies on a
/// cycle.
spec fn sound(es: Seq<Arrow>, marks: Map<i32, bool>, universe: Set<i32>) -> bool {
    &&& marks.dom().subset_of(universe)
    &&& forall|k: i32| #[trigger] marks.contains_key(k) && marks[k] ==> !on_cycle(es, k)
}

/// A node that the search is in, and how many of its successors it has taken up.
#[derive(Clone, Copy)]
struct Frame {
    node: i32,
    next: usize,
}

/// The nodes of the frames, from the bottom of the stack to its top.
spec fn trail_of(stack: Seq<Frame>) -> Seq<i32> {
    Seq::new(stack.len(), |d: int| stack[d].node)
}

/// The successors that the frames have not taken up yet, in all.
spec fn remaining(adj: Adjacency, stack: Seq<Frame>) -> int
    decreases stack.len(),
{
    if stack.len() == 0 {
        0
    } else {
        remaining(adj, stack.drop_last()) + adj.list(stack.last().node).len() - stack.last().next
    }
}

/// The node is done.
spec fn done(marks: Map<i32, bool>, v: i32) -> bool {
    marks.contains_key(v) && marks[v]
}

/// Frame `d` is in order: its node is in progress, and each successor that it
/// has taken up is done, but for the last where that is the node of the frame
/// above.
spec fn frame_ok(adj: Adjacency, marks: Map<i32, bool>, stack: Seq<Frame>, d: int) -> bool {
    let f = stack[d];
    let list = adj.list(f.node);
    &&& marks.contains_key(f.node) && !marks[f.node]
    &&& f.next <= list.len()
    &&& forall|j: int|
        0 <= j < f.next ==> done(marks, #[trigger] list[j]) || (d + 1 < stack.len() && j + 1
            == f.next)
    &&& d + 1 < stack.len() ==> f.next >= 1 && list[f.next - 1] == stack[d + 1].node
}

/// The stack is in order: every frame is, and no node has two frames.
spec fn stack_ok(adj: Adjacency, marks: Map<i32, bool>, stack: Seq<Frame>) -> bool {
    &&& forall|d: int| 0 <= d < stack.len() ==> #[trigger] frame_ok(adj, marks, stack, d)
    &&& forall|c: int, d: int|
        0 <= c < d < stack.len() ==> (#[trigger] stack[c]).node != (#[trigger] stack[d]).node
    &&& forall|k: i32| #[trigger]
        marks.contains_key(k) && !marks[k] ==> exists|d: int|
            0 <= d < stack.len() && (#[trigger] stack[d]).node == k
}

/// In a stack that is in order, no frame has taken up more than there is.
proof fn lemma_remaining_is_nat(adj: Adjacency, marks: Map<i32, bool>, stack: Seq<Frame>, upto: int)
    requires
        0 <= upto <= stack.len(),
        forall|d: int| 0 <= d < stack.len() ==> #[trigger] frame_ok(adj, marks, stack, d),
    ensures
        remaining(adj, stack.take(upto)) >= 0,
    decreases upto,
{
    if upto > 0 {
        lemma_remaining_is_nat(adj, marks, stack, upto - 1);
        assert(stack.take(upto).drop_last() =~= stack.take(upto - 1));
        assert(stack.take(upto).last() == stack[upto - 1]);
        assert(frame_ok(adj, marks, stack, upto - 1));
    }
}

/// In a stack that is in order, the nodes from a frame to the top are a walk.
proof fn lemma_stack_is_walk(
    adj: Adjacency,
    es: Seq<Arrow>,
    marks: Map<i32, bool>,
    stack: Seq<Frame>,
    from: int,
)
    requires
        adj.describes(es, Direction::TowardTargets),
        0 <= from < stack.len(),
        forall|d: int| 0 <= d < stack.len() ==> #[trigger] frame_ok(adj, marks, stack, d),
    ensures
        is_walk(
            es,
            Direction::TowardTargets,
            trail_of(stack).subrange(from, stack.len() as int),
        ),
{
    let p = trail_of(stack).subrange(from, stack.len() as int);
    assert forall|i: int| 0 <= i < p.len() - 1 implies step(
        es,
        Direction::TowardTargets,
        #[trigger] p[i],
        p[i + 1],
    ) by {
        let d = from + i;
        assert(frame_ok(adj, marks, stack, d));
        let f = stack[d];
        let list = adj.list(f.node);
        assert(list[f.next - 1] == stack[d + 1].node);
        assert(list.contains(list[f.next - 1]));
        adj.lemma_list(f.node, stack[d + 1].node);
        adj.lemma_describes(es, Direction::TowardTargets, f.node, stack[d + 1].node);
    }
}

/// Searches depth-first from the unseen node `root`, among nodes that are all
/// done, until a cycle is found or everything that `root` leads to is done.
fn search(
    adj: &Adjacency,
    marks: &mut HashMap<i32, bool>,
    root: i32,
    Ghost(es): Ghost<Seq<Arrow>>,
) -> (found: bool)
    requires
        adj.describes(es, Direction::TowardTargets),
        endpoints(es).contains(root),
        !old(marks)@.contains_key(root),
        sound(es, old(marks)@, endpoints(es)),
        forall|k: i32| #[trigger] old(marks)@.contains_key(k) ==> old(marks)@[k],
    ensures
        found ==> cyclic(es),
        !found ==> {
            &&& done(final(marks)@, root)
            &&& sound(es, final(marks)@, endpoints(es))
            &&& forall|k: i32| #[trigger] old(marks)@.contains_key(k) ==> final(marks)@.contains_key(k)
            &&& forall|k: i32| #[trigger] final(marks)@.contains_key(k) ==> final(marks)@[k]
        },
{
    let ghost universe = endpoints(es);
    let ghost before = marks@;
    proof {
        lemma_endpoints(es);
    }
    let mut stack: Vec<Frame> = Vec::new();
    marks.insert(root, false);
    stack.push(Frame { node: root, next: 0 });
    proof {
        assert(frame_ok(*adj, marks@, stack@, 0));
        assert(stack@[0].node == root);
    }
    while stack.len() > 0
        invariant
            adj.describes(es, Direction::TowardTargets),
            universe == endpoints(es),
            universe.finite(),
            sound(es, marks@, universe),
            stack_ok(*adj, marks@, stack@),
            marks@.contains_key(root),
            forall|k: i32| #[trigger] before.contains_key(k) ==> done(marks@, k),
        decreases universe.len() - marks@.dom().len(), remaining(*adj, stack@), stack@.len(),
    {
        let ghost frames = stack@;
        let ghost seen = marks@;
        let ghost n = frames.len() as int;
        let top = match stack.pop() {
            Some(frame) => frame,
            None => Frame { node: root, next: 0 },
        };
        let ghost below = stack@;
        let u = top.node;
        proof {
            assert(below =~= frames.drop_last());
            assert(top == frames[n - 1]);
            assert(frame_ok(*adj, seen, frames, n - 1));
            lemma_remaining_is_nat(*adj, seen, frames, n - 1);
            assert(frames.take(n - 1) =~= below);
            vstd::set_lib::lemma_len_subset(seen.dom(), universe);
        }
        let taken = match adj.successors(u) {
            Some(list) => if top.next < list.len() {
                Some(list[top.next])
            } else {
                None
            },
            None => None,
        };
        match taken {
            Some(v) => {
                let ghost list = adj.list(u);
                proof {
                    assert(list[top.next as int] == v);
                    assert(list.contains(v));
                    adj.lemma_list(u, v);
                    adj.lemma_describes(es, Direction::TowardTargets, u, v);
                    assert(has_edge(es, u, v));
                }
                stack.push(Frame { node: u, next: top.next + 1 });
                let ghost raised = stack@;
                let mark: Option<bool> = match marks.get(&v) {
                    Some(state) => Some(*state),
                    None => None,
                };
                match mark {
                    Some(true) => {
                        proof {
                            assert forall|d: int| 0 <= d < raised.len() implies #[trigger] frame_ok(
                                *adj,
                                seen,
                                raised,
                                d,
                            ) by {
                                assert(frame_ok(*adj, seen, frames, d));
                                if d < n - 1 {
                                    assert(raised[d] == frames[d]);
                                    assert(raised[d + 1].node == frames[d + 1].node);
                                }
                            }
                            assert forall|k: i32| #[trigger]
                                seen.contains_key(k) && !seen[k] implies exists|d: int|
                                0 <= d < raised.len() && (#[trigger] raised[d]).node == k by {
                                let d = choose|d: int|
                                    0 <= d < frames.len() && (#[trigger] frames[d]).node == k;
                                assert(raised[d].node == k);
                            }
                            assert(raised.drop_last() =~= below);
                        }
                    },
                    Some(false) => {
                        proof {
                            let d0 = choose|d: int|
                                0 <= d < frames.len() && (#[trigger] frames[d]).node == v;
                            lemma_stack_is_walk(*adj, es, seen, frames, d0);
                            let back = trail_of(frames).subrange(d0, n);
                            assert(back.last() == u);
                            assert(back.first() == v);
                            lemma_walk_push(es, Direction::TowardTargets, back, v);
                            assert(back.push(v).first() == v);
                            assert(is_cycle(es, back.push(v)));
                        }
                        return true;
                    },
                    None => {
                        marks.insert(v, false);
                        stack.push(Frame { node: v, next: 0 });
                        proof {
                            let grown = stack@;
                            lemma_endpoints(es);
                            vstd::set_lib::lemma_len_subset(marks@.dom(), universe);
                            assert forall|d: int| 0 <= d < grown.len() implies #[trigger] frame_ok(
                                *adj,
                                marks@,
                                grown,
                                d,
                            ) by {
                                if d < n {
                                    assert(frame_ok(*adj, seen, frames, d));
                                    assert(grown[d].node == frames[d].node);
                                    if d < n - 1 {
                                        assert(grown[d] == frames[d]);
                                        assert(grown[d + 1].node == frames[d + 1].node);
                                    }
                                }
                            }
                            assert forall|c: int, d: int| 0 <= c < d < grown.len() implies (
                            #[trigger] grown[c]).node != (#[trigger] grown[d]).node by {
                                assert(grown[c].node == frames[c].node);
                                assert(frame_ok(*adj, seen, frames, c));
                                if d < n {
                                    assert(grown[d].node == frames[d].node);
                                }
                            }
                            assert forall|k: i32| #[trigger]
                                marks@.contains_key(k) && !marks@[k] implies exists|d: int|
                                0 <= d < grown.len() && (#[trigger] grown[d]).node == k by {
                                if k == v {
                                    assert(grown[n].node == k);
                                } else {
                                    let d = choose|d: int|
                                        0 <= d < frames.len() && (#[trigger] frames[d]).node == k;
                                    assert(grown[d].node == k);
                                }
                            }
                        }
                    },
                }
            },
            None => {
                marks.insert(u, true);
                proof {
                    let list = adj.list(u);
                    assert(top.next == list.len());
                    if on_cycle(es, u) {
                        let p = choose|p: Seq<i32>| #[trigger] is_cycle(es, p) && p.first() == u;
                        lemma_cycle_moves_on(es, p);
                        adj.lemma_describes(es, Direction::TowardTargets, u, p[1]);
                        adj.lemma_list(u, p[1]);
                        let j = choose|j: int| 0 <= j < list.len() && list[j] == p[1];
                        assert(done(seen, list[j]));
                        assert(false);
                    }
                    assert forall|d: int| 0 <= d < below.len() implies #[trigger] frame_ok(
                        *adj,
                        marks@,
                        below,
                        d,
                    ) by {
                        assert(frame_ok(*adj, seen, frames, d));
                        assert(below[d] == frames[d]);
                        assert(frames[d].node != frames[n - 1].node);
                        if d + 1 < below.len() {
                            assert(below[d + 1] == frames[d + 1]);
                        }
                    }
                    assert forall|k: i32| #[trigger]
                        marks@.contains_key(k) && !marks@[k] implies exists|d: int|
                        0 <= d < below.len() && (#[trigger] below[d]).node == k by {
                        let d = choose|d: int|
                            0 <= d < frames.len() && (#[trigger] frames[d]).node == k;
                        assert(below[d].node == k);
                    }
                    assert(marks@.dom() =~= seen.dom());
                }
            },
        }
    }
    false
}

impl Arrows {
    /// Whether the arrows contain a directed cycle.
    pub fn has_cycle(&self) -> (r: bool)
        ensures
            r == cyclic(self@),
    {
        let adj = Adjacency::build(&self.arrows, Direction::TowardTargets);
        let mut marks: HashMap<i32, bool> = HashMap::new();
        let ghost universe = endpoints(self@);
        proof {
            lemma_endpoints(self@);
        }
        let mut i: usize = 0;
        while i < self.arrows.len()
            invariant
                i <= self.arrows.len(),
                adj.describes(self@, Direction::TowardTargets),
                universe == endpoints(self@),
                universe.finite(),
                sound(self@, marks@, universe),
                forall|k: i32| #[trigger] marks@.contains_key(k) ==> marks@[k],
                forall|m: int| 0 <= m < i ==> marks@.contains_key((#[trigger] self@[m]).source),
            decreases self.arrows.len() - i,
        {
            let u = self.arrows[i].source;
            if !marks.contains_key(&u) {
                let ghost before = marks@;
                proof {
                    lemma_endpoints(self@);
                }
                if search(&adj, &mut marks, u, Ghost(self@)) {
                    return true;
                }
                proof {
                    assert forall|m: int| 0 <= m < i implies marks@.contains_key(
                        (#[trigger] self@[m]).source,
                    ) by {
                        assert(before.contains_key(self@[m].source));
                    }
                    assert forall|k: i32| #[trigger] marks@.contains_key(k) implies marks@[k] by {
                        if before.contains_key(k) {
                        }
                    }
                }
            }
            i += 1;
        }
        proof {
            if cyclic(self@) {
                let p = choose|p: Seq<i32>| #[trigger] is_cycle(self@, p);
                lemma_cycle_moves_on(self@, p);
                let m = choose|m: int|
                    0 <= m < self@.len() && (#[trigger] self@[m]).source == p[0] && self@[m].target
                        == p[1];
                assert(marks@.contains_key(self@[m].source));
                assert(on_cycle(self@, p[0]));
                assert(false);
            }
        }
        false
    }
}

/// An arrow added to a set of arrows closes a cycle when its source could
/// already be reached from its target.
pub proof fn lemma_closing_arrow_makes_cycle(es: Seq<Arrow>, e: Arrow)
    requires
        reaches(es, Direction::TowardTargets, e.target, e.source),
    ensures
        cyclic(es.push(e)),
{
    let p = choose|p: Seq<i32>| #[trigger]
        is_walk(es, Direction::TowardTargets, p) && p.first() == e.target && p.last() == e.source;
    lemma_walk_survives_push(es, e, Direction::TowardTargets, p);
    lemma_step_push(es, e, Direction::TowardTargets, e.source, e.target);
    lemma_walk_push(es.push(e), Direction::TowardTargets, p, e.target);
    let c = p.push(e.target);
    assert(c.first() == e.target);
    assert(is_cycle(es.push(e), c));
}

/// Three arrows that lead from a first node to a second, on to a third and
/// back to the first are a cycle.
pub proof fn lemma_triangle_is_cyclic(es: Seq<Arrow>, a: i32, b: i32, c: i32)
    requires
        has_edge(es, a, b),
        has_edge(es, b, c),
        has_edge(es, c, a),
    ensures
        cyclic(es),
{
    let p = seq![a, b, c, a];
    assert forall|i: int| 0 <= i < p.len() - 1 implies step(
        es,
        Direction::TowardTargets,
        #[trigger] p[i],
        p[i + 1],
    ) by {
        if i == 0 {
            assert(p[0] == a && p[1] == b);
        } else if i == 1 {
            assert(p[1] == b && p[2] == c);
        } else {
            assert(p[2] == c && p[3] == a);
        }
    }
    assert(is_cycle(es, p));
}

} // verus!
