//! Removal of the edges of a dependency graph that longer paths imply.

use crate::collections::NodeSet;
use crate::graph::{
    arrival, connects, DiGraph, Direction, is_walk, lemma_connects_monotone, lemma_connects_self,
    lemma_connects_step, lemma_connects_transitive, linked, NodeId, reaches,
};
use crate::search::{
    breadth_first, breadth_first_search, lemma_breadth_first_finds, lemma_unseen_drop, unseen,
};
use crate::sequences::{lemma_few_below, lemma_push_membership};
use vstd::prelude::*;

verus! {

/// Whether `places` says where in `full` the items of `part` stand, one
/// after the other.
pub open spec fn stands_at<T>(part: Seq<T>, full: Seq<T>, places: Seq<int>) -> bool {
    &&& places.len() == part.len()
    &&& forall|i: int| 0 <= i < places.len() ==> 0 <= #[trigger] places[i] < full.len()
    &&& forall|i: int, j: int| 0 <= i < j < places.len() ==> places[i] < places[j]
    &&& forall|i: int| 0 <= i < part.len() ==> #[trigger] part[i] == full[places[i]]
}

/// Whether `part` is `full` with some items left out, the others in their
/// order.
pub open spec fn is_subsequence<T>(part: Seq<T>, full: Seq<T>) -> bool {
    exists|places: Seq<int>| stands_at(part, full, places)
}

/// The edges other than `edge`.
pub open spec fn without(edges: Seq<(NodeId, NodeId)>, edge: (NodeId, NodeId)) -> Seq<
    (NodeId, NodeId),
>
    decreases edges.len(),
{
    if edges.len() == 0 {
        edges
    } else if edges.last() == edge {
        without(edges.drop_last(), edge)
    } else {
        without(edges.drop_last(), edge).push(edges.last())
    }
}

/// Whether `edge` is needed: no other edges lead from its source to its
/// target.
pub open spec fn is_needed(edges: Seq<(NodeId, NodeId)>, edge: (NodeId, NodeId)) -> bool {
    !reaches(without(edges, edge), edge.0, edge.1)
}

/// Whether `reduced` is `edges` without the edges that other paths imply:
/// it holds edges of `edges` in their order, leads from the same nodes to
/// the same nodes, and needs each of its edges for that.
pub open spec fn is_reduction_of(reduced: Seq<(NodeId, NodeId)>, edges: Seq<(NodeId, NodeId)>) -> bool {
    &&& is_subsequence(reduced, edges)
    &&& forall|a: NodeId, b: NodeId| #[trigger] reaches(reduced, a, b) == reaches(edges, a, b)
    &&& forall|e: (NodeId, NodeId)| reduced.contains(e) ==> #[trigger] is_needed(reduced, e)
}

/// The edges other than `edge` are the edges that differ from it.
pub proof fn lemma_without_contains(
    edges: Seq<(NodeId, NodeId)>,
    edge: (NodeId, NodeId),
    other: (NodeId, NodeId),
)
    ensures
        without(edges, edge).contains(other) <==> (edges.contains(other) && other != edge),
    decreases edges.len(),
{
    if edges.len() > 0 {
        let rest = edges.drop_last();
        let last = edges.last();
        lemma_without_contains(rest, edge, other);
        lemma_push_membership(rest, last);
        assert(edges =~= rest.push(last));
        if last != edge {
            lemma_push_membership(without(rest, edge), last);
        }
    }
}

/// Taking an edge out of a graph from whose other edges its target is still
/// reached from its source changes nothing in what is reached from what.
pub proof fn lemma_remove_keeps_reach(
    edges: Seq<(NodeId, NodeId)>,
    i: int,
    a: NodeId,
    b: NodeId,
)
    requires
        0 <= i < edges.len(),
        reaches(edges.remove(i), edges[i].0, edges[i].1),
    ensures
        reaches(edges.remove(i), a, b) == reaches(edges, a, b),
{
    let fewer = edges.remove(i);
    assert forall|e: (NodeId, NodeId)| fewer.contains(e) implies edges.contains(e) by {
        let k = choose|k: int| 0 <= k < fewer.len() && fewer[k] == e;
        if k < i {
            assert(edges[k] == e);
        } else {
            assert(edges[k + 1] == e);
        }
    }
    if reaches(fewer, a, b) {
        lemma_connects_monotone(fewer, edges, a, b, Direction::Outgoing);
    }
    if reaches(edges, a, b) {
        let walk = choose|walk: Seq<NodeId>| #[trigger]
            is_walk(edges, walk, Direction::Outgoing) && walk.first() == a && walk.last() == b;
        lemma_reroute(edges, i, walk, walk.len() - 1);
    }
}

proof fn lemma_reroute(edges: Seq<(NodeId, NodeId)>, i: int, walk: Seq<NodeId>, k: int)
    requires
        0 <= i < edges.len(),
        reaches(edges.remove(i), edges[i].0, edges[i].1),
        is_walk(edges, walk, Direction::Outgoing),
        0 <= k < walk.len(),
    ensures
        reaches(edges.remove(i), walk[0], walk[k]),
    decreases k,
{
    let fewer = edges.remove(i);
    if k == 0 {
        lemma_connects_self(fewer, walk[0], Direction::Outgoing);
    } else {
        lemma_reroute(edges, i, walk, k - 1);
        let step = (walk[k - 1], walk[k]);
        assert(linked(edges, walk[k - 1], walk[k - 1 + 1], Direction::Outgoing));
        let j = choose|j: int| 0 <= j < edges.len() && edges[j] == step;
        if j == i {
            lemma_connects_transitive(fewer, walk[0], walk[k - 1], walk[k], Direction::Outgoing);
        } else {
            if j < i {
                assert(fewer[j] == step);
            } else {
                assert(fewer[j - 1] == step);
            }
            lemma_connects_step(fewer, walk[0], walk[k - 1], walk[k], Direction::Outgoing);
        }
    }
}

/// An edge that is needed among some edges is needed among fewer.
pub proof fn lemma_needed_among_fewer(
    fewer: Seq<(NodeId, NodeId)>,
    edges: Seq<(NodeId, NodeId)>,
    edge: (NodeId, NodeId),
)
    requires
        forall|e: (NodeId, NodeId)| fewer.contains(e) ==> edges.contains(e),
        is_needed(edges, edge),
    ensures
        is_needed(fewer, edge),
{
    assert forall|e: (NodeId, NodeId)| without(fewer, edge).contains(e) implies without(
        edges,
        edge,
    ).contains(e) by {
        lemma_without_contains(fewer, edge, e);
        lemma_without_contains(edges, edge, e);
    }
    if reaches(without(fewer, edge), edge.0, edge.1) {
        lemma_connects_monotone(
            without(fewer, edge),
            without(edges, edge),
            edge.0,
            edge.1,
            Direction::Outgoing,
        );
    }
}

/// Whether the graph has no cycle: no edge leads to a node from which its
/// source is reached.
pub open spec fn is_acyclic(edges: Seq<(NodeId, NodeId)>) -> bool {
    forall|a: NodeId, b: NodeId| edges.contains((a, b)) ==> !#[trigger] reaches(edges, b, a)
}

/// From a node of a walk the nodes that follow on it are reached.
pub proof fn lemma_walk_part(
    edges: Seq<(NodeId, NodeId)>,
    walk: Seq<NodeId>,
    dir: Direction,
    i: int,
    j: int,
)
    requires
        is_walk(edges, walk, dir),
        0 <= i <= j < walk.len(),
    ensures
        connects(edges, walk[i], walk[j], dir),
{
    let part = walk.subrange(i, j + 1);
    assert forall|k: int| 0 <= k < part.len() - 1 implies linked(
        edges,
        #[trigger] part[k],
        part[k + 1],
        dir,
    ) by {
        assert(linked(edges, walk[i + k], walk[i + k + 1], dir));
    }
    assert(is_walk(edges, part, dir));
    assert(part.first() == walk[i] && part.last() == walk[j]);
}

/// A part of a sequence is no longer than the sequence.
pub proof fn lemma_subsequence_shorter<T>(part: Seq<T>, full: Seq<T>)
    requires
        is_subsequence(part, full),
    ensures
        part.len() <= full.len(),
{
    let places = choose|places: Seq<int>| stands_at(part, full, places);
    assert forall|i: int, j: int| 0 <= i < places.len() && 0 <= j < places.len() && i
        != j implies places[i] != places[j] by {
        if i < j {
            assert(places[i] < places[j]);
        } else {
            assert(places[j] < places[i]);
        }
    }
    lemma_few_below(places, full.len() as int);
}

/// What stands in a part of a sequence stands in the sequence.
pub proof fn lemma_subsequence_contains<T>(part: Seq<T>, full: Seq<T>, x: T)
    requires
        is_subsequence(part, full),
        part.contains(x),
    ensures
        full.contains(x),
{
    let places = choose|places: Seq<int>| stands_at(part, full, places);
    let i = choose|i: int| 0 <= i < part.len() && part[i] == x;
    assert(part[i] == full[places[i]]);
}

/// In a graph without cycles two nodes that reach each other are one node.
pub proof fn lemma_acyclic_no_return(edges: Seq<(NodeId, NodeId)>, a: NodeId, b: NodeId)
    requires
        is_acyclic(edges),
        reaches(edges, a, b),
        reaches(edges, b, a),
    ensures
        a == b,
{
    if a != b {
        let walk = choose|walk: Seq<NodeId>| #[trigger]
            is_walk(edges, walk, Direction::Outgoing) && walk.first() == a && walk.last() == b;
        assert(walk.len() >= 2);
        assert(linked(edges, walk[0int], walk[0int + 1], Direction::Outgoing));
        lemma_walk_part(edges, walk, Direction::Outgoing, 1, walk.len() - 1);
        lemma_connects_transitive(edges, walk[1], b, a, Direction::Outgoing);
        assert(edges.contains((a, walk[1])));
        assert(reaches(edges, walk[1], a));
    }
}

proof fn lemma_detour_avoids(
    reduced: Seq<(NodeId, NodeId)>,
    edges: Seq<(NodeId, NodeId)>,
    e: (NodeId, NodeId),
    x: NodeId,
    y: NodeId,
)
    requires
        forall|k: (NodeId, NodeId)| reduced.contains(k) ==> edges.contains(k),
        is_acyclic(edges),
        reaches(reduced, x, y),
        (x, y) != e,
        reaches(edges, e.0, x),
        reaches(edges, y, e.1),
    ensures
        reaches(without(reduced, e), x, y),
{
    let dir = Direction::Outgoing;
    let walk = choose|walk: Seq<NodeId>| #[trigger]
        is_walk(reduced, walk, dir) && walk.first() == x && walk.last() == y;
    let fewer = without(reduced, e);
    assert forall|i: int| 0 <= i < walk.len() - 1 implies linked(
        fewer,
        #[trigger] walk[i],
        walk[i + 1],
        dir,
    ) by {
        assert(linked(reduced, walk[i], walk[i + 1], dir));
        lemma_without_contains(reduced, e, (walk[i], walk[i + 1]));
        if (walk[i], walk[i + 1]) == e {
            lemma_walk_part(reduced, walk, dir, 0, i);
            lemma_walk_part(reduced, walk, dir, i + 1, walk.len() - 1);
            lemma_connects_monotone(reduced, edges, x, e.0, dir);
            lemma_connects_monotone(reduced, edges, e.1, y, dir);
            lemma_acyclic_no_return(edges, e.0, x);
            lemma_acyclic_no_return(edges, y, e.1);
        }
    }
    assert(is_walk(fewer, walk, dir));
}

proof fn lemma_detours(
    reduced: Seq<(NodeId, NodeId)>,
    edges: Seq<(NodeId, NodeId)>,
    e: (NodeId, NodeId),
    walk: Seq<NodeId>,
    k: int,
)
    requires
        forall|x: (NodeId, NodeId)| reduced.contains(x) ==> edges.contains(x),
        forall|a: NodeId, b: NodeId| #[trigger] reaches(reduced, a, b) == reaches(edges, a, b),
        is_acyclic(edges),
        is_walk(without(edges, e), walk, Direction::Outgoing),
        walk.first() == e.0,
        walk.last() == e.1,
        0 <= k < walk.len(),
    ensures
        reaches(without(reduced, e), e.0, walk[k]),
    decreases k,
{
    let dir = Direction::Outgoing;
    let others = without(edges, e);
    if k == 0 {
        lemma_connects_self(without(reduced, e), e.0, dir);
    } else {
        lemma_detours(reduced, edges, e, walk, k - 1);
        let x = walk[k - 1];
        let y = walk[k];
        assert(linked(others, walk[k - 1], walk[k - 1 + 1], dir));
        lemma_without_contains(edges, e, (x, y));
        assert forall|s: (NodeId, NodeId)| others.contains(s) implies edges.contains(s) by {
            lemma_without_contains(edges, e, s);
        }
        lemma_walk_part(others, walk, dir, 0, k - 1);
        lemma_walk_part(others, walk, dir, k, walk.len() - 1);
        lemma_connects_monotone(others, edges, e.0, x, dir);
        lemma_connects_monotone(others, edges, y, e.1, dir);
        let step = seq![x, y];
        assert(is_walk(edges, step, dir)) by {
            assert forall|i: int| 0 <= i < step.len() - 1 implies linked(
                edges,
                #[trigger] step[i],
                step[i + 1],
                dir,
            ) by {}
        }
        assert(step.first() == x && step.last() == y);
        assert(reaches(edges, x, y));
        assert(reaches(reduced, x, y) == reaches(edges, x, y));
        lemma_detour_avoids(reduced, edges, e, x, y);
        lemma_connects_transitive(without(reduced, e), e.0, x, y, dir);
    }
}

/// Of a graph without cycles the reduction holds exactly the edges that
/// are needed in the graph itself: those whose target no other edges reach
/// from their source. So such a graph has one reduction only.
pub proof fn lemma_reduction_of_acyclic(
    reduced: Seq<(NodeId, NodeId)>,
    edges: Seq<(NodeId, NodeId)>,
    e: (NodeId, NodeId),
)
    requires
        is_reduction_of(reduced, edges),
        is_acyclic(edges),
        edges.contains(e),
    ensures
        reduced.contains(e) <==> is_needed(edges, e),
{
    let dir = Direction::Outgoing;
    assert forall|x: (NodeId, NodeId)| reduced.contains(x) implies edges.contains(x) by {
        lemma_subsequence_contains(reduced, edges, x);
    }
    if !reduced.contains(e) {
        let step = seq![e.0, e.1];
        assert(is_walk(edges, step, dir)) by {
            assert forall|i: int| 0 <= i < step.len() - 1 implies linked(
                edges,
                #[trigger] step[i],
                step[i + 1],
                dir,
            ) by {}
        }
        assert(step.first() == e.0 && step.last() == e.1);
        assert(reaches(edges, e.0, e.1));
        assert(reaches(reduced, e.0, e.1) == reaches(edges, e.0, e.1));
        assert forall|x: (NodeId, NodeId)| reduced.contains(x) implies without(
            edges,
            e,
        ).contains(x) by {
            lemma_without_contains(edges, e, x);
        }
        lemma_connects_monotone(reduced, without(edges, e), e.0, e.1, dir);
    } else {
        assert(is_needed(reduced, e));
        if reaches(without(edges, e), e.0, e.1) {
            let walk = choose|walk: Seq<NodeId>| #[trigger]
                is_walk(without(edges, e), walk, dir) && walk.first() == e.0 && walk.last()
                    == e.1;
            lemma_detours(reduced, edges, e, walk, walk.len() - 1);
        }
    }
}

/// Those of `edges` that are needed among `all`, in their order.
pub open spec fn needed_among(edges: Seq<(NodeId, NodeId)>, all: Seq<(NodeId, NodeId)>) -> Seq<
    (NodeId, NodeId),
>
    decreases edges.len(),
{
    if edges.len() == 0 {
        Seq::empty()
    } else if is_needed(all, edges.last()) {
        needed_among(edges.drop_last(), all).push(edges.last())
    } else {
        needed_among(edges.drop_last(), all)
    }
}

/// The edges of a graph whose target no other edges reach from their
/// source, in their order.
pub open spec fn needed_edges(edges: Seq<(NodeId, NodeId)>) -> Seq<(NodeId, NodeId)> {
    needed_among(edges, edges)
}

proof fn lemma_needed_among(
    edges: Seq<(NodeId, NodeId)>,
    all: Seq<(NodeId, NodeId)>,
    x: (NodeId, NodeId),
)
    ensures
        is_subsequence(needed_among(edges, all), edges),
        needed_among(edges, all).contains(x) <==> (edges.contains(x) && is_needed(all, x)),
    decreases edges.len(),
{
    if edges.len() == 0 {
        assert(stands_at(needed_among(edges, all), edges, Seq::<int>::empty()));
    } else {
        let rest = edges.drop_last();
        let last = edges.last();
        lemma_needed_among(rest, all, x);
        let before = needed_among(rest, all);
        let places = choose|places: Seq<int>| stands_at(before, rest, places);
        assert(edges =~= rest.push(last));
        lemma_push_membership(rest, last);
        if is_needed(all, last) {
            lemma_push_membership(before, last);
            let more = places.push(rest.len() as int);
            assert(stands_at(before.push(last), edges, more)) by {
                assert forall|i: int| 0 <= i < before.push(last).len() implies #[trigger]
                    before.push(last)[i] == edges[more[i]] by {
                    if i < before.len() {
                        assert(before[i] == rest[places[i]]);
                    }
                }
            }
        } else {
            assert(stands_at(before, edges, places)) by {
                assert forall|i: int| 0 <= i < before.len() implies #[trigger] before[i]
                    == edges[places[i]] by {
                    assert(before[i] == rest[places[i]]);
                }
            }
        }
    }
}

/// Of a sequence in which nothing stands twice, two parts that hold the
/// same items are one part.
pub proof fn lemma_parts_with_same_items<T>(a: Seq<T>, b: Seq<T>, full: Seq<T>)
    requires
        full.no_duplicates(),
        is_subsequence(a, full),
        is_subsequence(b, full),
        forall|x: T| a.contains(x) <==> b.contains(x),
    ensures
        a == b,
    decreases a.len(),
{
    let pa = choose|places: Seq<int>| stands_at(a, full, places);
    let pb = choose|places: Seq<int>| stands_at(b, full, places);
    if a.len() == 0 {
        if b.len() > 0 {
            assert(b.contains(b[0]));
            assert(a.contains(b[0]));
        }
        assert(a =~= b);
    } else {
        let top = a.len() - 1;
        let x = a[top];
        assert(a.contains(x));
        let j = choose|j: int| 0 <= j < b.len() && b[j] == x;
        assert(a[top] == full[pa[top]]);
        assert(b[j] == full[pb[j]]);
        if j < b.len() - 1 {
            let y = b[b.len() - 1];
            assert(b.contains(y));
            let i = choose|i: int| 0 <= i < a.len() && a[i] == y;
            assert(a[i] == full[pa[i]]);
            assert(b[b.len() - 1] == full[pb[b.len() - 1]]);
            if i == top {
                assert(pb[j] < pb[b.len() - 1]);
            } else {
                assert(pa[i] < pa[top]);
                assert(pb[j] < pb[b.len() - 1]);
            }
            assert(false);
        }
        let shorter_a = a.drop_last();
        let shorter_b = b.drop_last();
        assert(stands_at(shorter_a, full, pa.drop_last()));
        assert(stands_at(shorter_b, full, pb.drop_last()));
        assert forall|z: T| shorter_a.contains(z) <==> shorter_b.contains(z) by {
            if shorter_a.contains(z) {
                let i = choose|i: int| 0 <= i < shorter_a.len() && shorter_a[i] == z;
                assert(a[i] == z);
                assert(a.contains(z));
                let k = choose|k: int| 0 <= k < b.len() && b[k] == z;
                assert(a[i] == full[pa[i]]);
                assert(pa[i] < pa[top]);
                if k == b.len() - 1 {
                    assert(false);
                }
                assert(shorter_b[k] == z);
            }
            if shorter_b.contains(z) {
                let k = choose|k: int| 0 <= k < shorter_b.len() && shorter_b[k] == z;
                assert(b[k] == z);
                assert(b.contains(z));
                let i = choose|i: int| 0 <= i < a.len() && a[i] == z;
                assert(b[k] == full[pb[k]]);
                assert(pb[k] < pb[b.len() - 1]);
                if i == top {
                    assert(false);
                }
                assert(shorter_a[i] == z);
            }
        }
        lemma_parts_with_same_items(shorter_a, shorter_b, full);
        assert(a =~= shorter_a.push(x));
        assert(b =~= shorter_b.push(x));
    }
}

/// A graph without cycles in which no edge stands twice has one reduction:
/// its needed edges in their order.
pub proof fn lemma_reduction_is_needed_edges(
    reduced: Seq<(NodeId, NodeId)>,
    edges: Seq<(NodeId, NodeId)>,
)
    requires
        is_reduction_of(reduced, edges),
        is_acyclic(edges),
        edges.no_duplicates(),
    ensures
        reduced == needed_edges(edges),
{
    let needed = needed_edges(edges);
    assert forall|x: (NodeId, NodeId)| reduced.contains(x) <==> needed.contains(x) by {
        lemma_needed_among(edges, edges, x);
        if reduced.contains(x) {
            lemma_subsequence_contains(reduced, edges, x);
        }
        if edges.contains(x) {
            lemma_reduction_of_acyclic(reduced, edges, x);
        }
    }
    lemma_needed_among(edges, edges, edges[0]);
    lemma_parts_with_same_items(reduced, needed, edges);
}

/// Whether `to` can be reached from `from` along the edges of the graph.
pub fn is_reachable(graph: &DiGraph, from: NodeId, to: NodeId) -> (r: bool)
    ensures
        r == reaches(graph@, from, to),
{
    let found = breadth_first_search(graph, from, Direction::Outgoing);
    let mut i: usize = 0;
    while i < found.len()
        invariant
            i <= found.len(),
            found@ == breadth_first(graph@, from, Direction::Outgoing),
            forall|j: int| 0 <= j < i ==> found@[j] != to,
        decreases found.len() - i,
    {
        if found[i] == to {
            proof {
                lemma_breadth_first_finds(graph@, from, Direction::Outgoing);
            }
            assert(found@.contains(to));
            return true;
        }
        i += 1;
    }
    proof {
        lemma_breadth_first_finds(graph@, from, Direction::Outgoing);
    }
    assert(!found@.contains(to));
    false
}

/// What is left of the work of a depth-first search: for each node on the
/// stack, the edges that it has not looked at yet, and one step to leave it.
pub open spec fn work_left(stack: Seq<(NodeId, usize)>, count: nat) -> nat
    decreases stack.len(),
{
    if stack.len() == 0 {
        0
    } else {
        work_left(stack.drop_last(), count) + (count + 1 - stack.last().1) as nat
    }
}

/// The nodes of the entries of a stack.
pub open spec fn stack_nodes(stack: Seq<(NodeId, usize)>) -> Seq<NodeId> {
    Seq::new(stack.len(), |i: int| stack[i].0)
}

/// Whether `node` is the source or the target of an edge.
pub open spec fn is_node_of(edges: Seq<(NodeId, NodeId)>, node: NodeId) -> bool {
    exists|i: int| 0 <= i < edges.len() && ((#[trigger] edges[i]).0 == node || edges[i].1 == node)
}

/// Whether every node of `finished` stands after the targets of its edges.
pub open spec fn targets_first(edges: Seq<(NodeId, NodeId)>, finished: Seq<NodeId>) -> bool {
    forall|a: int, j: int|
        0 <= a < finished.len() && 0 <= j < edges.len() && (#[trigger] edges[j]).0
            == #[trigger] finished[a] ==> exists|b: int|
            0 <= b < a && #[trigger] finished[b] == edges[j].1
}

/// What holds between two searches: the nodes that were visited are the
/// nodes that are finished, each once, and all are nodes of the graph; in a
/// graph without cycles each stands after the targets of its edges.
pub open spec fn between_searches(
    edges: Seq<(NodeId, NodeId)>,
    visited: Set<NodeId>,
    finished: Seq<NodeId>,
) -> bool {
    &&& finished.no_duplicates()
    &&& forall|n: NodeId| visited.contains(n) <==> finished.contains(n)
    &&& forall|n: NodeId| finished.contains(n) ==> is_node_of(edges, n)
    &&& is_acyclic(edges) ==> targets_first(edges, finished)
}

/// Whether each node of the stack, but the first, is the target of an edge
/// of the one below it.
pub open spec fn is_stack_path(edges: Seq<(NodeId, NodeId)>, nodes: Seq<NodeId>) -> bool {
    forall|i: int| 0 < i < nodes.len() ==> edges.contains((nodes[i - 1], #[trigger] nodes[i]))
}

/// Whether the targets of the edges that the nodes of the stack have
/// looked at were visited.
pub open spec fn has_scanned(
    edges: Seq<(NodeId, NodeId)>,
    visited: Set<NodeId>,
    stack: Seq<(NodeId, usize)>,
) -> bool {
    forall|i: int, j: int|
        0 <= i < stack.len() && 0 <= j < (#[trigger] stack[i]).1 && (#[trigger] edges[j]).0
            == stack[i].0 ==> visited.contains(edges[j].1)
}

/// Whether the nodes that were visited are those that are finished and
/// those on the stack, each once, and are the nodes of the log.
pub open spec fn keeps_track(
    visited: Set<NodeId>,
    finished: Seq<NodeId>,
    nodes: Seq<NodeId>,
    log: Seq<NodeId>,
) -> bool {
    &&& finished.no_duplicates()
    &&& nodes.no_duplicates()
    &&& forall|n: NodeId| !(finished.contains(n) && nodes.contains(n))
    &&& forall|n: NodeId| visited.contains(n) <==> (finished.contains(n) || nodes.contains(n))
    &&& forall|n: NodeId| visited.contains(n) <==> log.contains(n)
}

/// Whether all the nodes are nodes of the graph.
pub open spec fn are_nodes_of(edges: Seq<(NodeId, NodeId)>, nodes: Seq<NodeId>) -> bool {
    forall|n: NodeId| nodes.contains(n) ==> is_node_of(edges, n)
}

/// Whether the order in which the nodes were finished has, in a graph
/// without cycles, each node after the targets of its edges.
#[verifier::opaque]
pub open spec fn is_finished_in_order(edges: Seq<(NodeId, NodeId)>, finished: Seq<NodeId>) -> bool {
    is_acyclic(edges) ==> targets_first(edges, finished)
}

/// Whether the stack is one of a depth-first search: each node on it was
/// come to from the one below it, and the targets of the edges that were
/// looked at were visited.
#[verifier::opaque]
pub open spec fn is_search_stack(
    edges: Seq<(NodeId, NodeId)>,
    visited: Set<NodeId>,
    stack: Seq<(NodeId, usize)>,
) -> bool {
    &&& is_stack_path(edges, stack_nodes(stack))
    &&& has_scanned(edges, visited, stack)
    &&& forall|k: int| 0 <= k < stack.len() ==> (#[trigger] stack[k]).1 <= edges.len()
}

/// Whether the tracks of a search are kept.
#[verifier::opaque]
pub open spec fn is_tracked(
    edges: Seq<(NodeId, NodeId)>,
    visited: Set<NodeId>,
    finished: Seq<NodeId>,
    stack: Seq<(NodeId, usize)>,
    log: Seq<NodeId>,
) -> bool {
    &&& keeps_track(visited, finished, stack_nodes(stack), log)
    &&& are_nodes_of(edges, finished)
    &&& are_nodes_of(edges, stack_nodes(stack))
}

/// What holds while a depth-first search runs.
pub open spec fn during_search(
    edges: Seq<(NodeId, NodeId)>,
    visited: Set<NodeId>,
    finished: Seq<NodeId>,
    stack: Seq<(NodeId, usize)>,
    log: Seq<NodeId>,
) -> bool {
    &&& is_tracked(edges, visited, finished, stack, log)
    &&& is_finished_in_order(edges, finished)
    &&& is_search_stack(edges, visited, stack)
}

/// Whether `next` is `stack` with one more edge looked at by its top.
pub open spec fn has_looked(stack: Seq<(NodeId, usize)>, next: Seq<(NodeId, usize)>) -> bool {
    &&& stack.len() > 0
    &&& next.len() == stack.len()
    &&& next.drop_last() == stack.drop_last()
    &&& next.last().0 == stack.last().0
    &&& next.last().1 == stack.last().1 + 1
}

proof fn lemma_stack_reaches(edges: Seq<(NodeId, NodeId)>, nodes: Seq<NodeId>, i: int)
    requires
        is_stack_path(edges, nodes),
        0 <= i < nodes.len(),
    ensures
        reaches(edges, nodes[i], nodes.last()),
{
    let part = nodes.subrange(i, nodes.len() as int);
    assert forall|k: int| 0 <= k < part.len() - 1 implies linked(
        edges,
        #[trigger] part[k],
        part[k + 1],
        Direction::Outgoing,
    ) by {
        assert(edges.contains((nodes[i + k + 1 - 1], nodes[i + k + 1])));
    }
    assert(is_walk(edges, part, Direction::Outgoing));
    assert(part.first() == nodes[i] && part.last() == nodes.last());
}

proof fn lemma_search_begins(
    edges: Seq<(NodeId, NodeId)>,
    visited: Set<NodeId>,
    finished: Seq<NodeId>,
    root: NodeId,
)
    requires
        between_searches(edges, visited, finished),
        !visited.contains(root),
        is_node_of(edges, root),
    ensures
        during_search(edges, visited.insert(root), finished, seq![(root, 0usize)], finished.push(root)),
{
    reveal(is_tracked);
    reveal(is_finished_in_order);
    reveal(is_search_stack);
    let stack = seq![(root, 0usize)];
    lemma_push_membership(finished, root);
    assert(stack_nodes(stack) =~= seq![root]);
    assert(stack_nodes(stack)[0] == root);
}

proof fn lemma_search_ends(
    edges: Seq<(NodeId, NodeId)>,
    visited: Set<NodeId>,
    finished: Seq<NodeId>,
    stack: Seq<(NodeId, usize)>,
    log: Seq<NodeId>,
)
    requires
        during_search(edges, visited, finished, stack, log),
        stack.len() == 0,
    ensures
        between_searches(edges, visited, finished),
{
    reveal(is_tracked);
    reveal(is_finished_in_order);
    assert(stack_nodes(stack) =~= Seq::<NodeId>::empty());
}

proof fn lemma_stack_looks(
    edges: Seq<(NodeId, NodeId)>,
    visited: Set<NodeId>,
    later: Set<NodeId>,
    stack: Seq<(NodeId, usize)>,
    next: Seq<(NodeId, usize)>,
)
    requires
        is_search_stack(edges, visited, stack),
        has_looked(stack, next),
        stack.last().1 < edges.len(),
        forall|n: NodeId| visited.contains(n) ==> later.contains(n),
        edges[stack.last().1 as int].0 == stack.last().0 ==> later.contains(
            edges[stack.last().1 as int].1,
        ),
    ensures
        is_search_stack(edges, later, next),
        stack_nodes(next) == stack_nodes(stack),
        work_left(next, edges.len()) < work_left(stack, edges.len()),
{
    reveal(is_search_stack);
    let top = stack.len() - 1;
    assert(stack_nodes(next) =~= stack_nodes(stack)) by {
        assert forall|i: int| 0 <= i < stack.len() implies next[i].0 == stack[i].0 by {
            if i < top {
                assert(next[i] == next.drop_last()[i]);
                assert(stack[i] == stack.drop_last()[i]);
            }
        }
    }
    assert forall|i: int, j: int|
        0 <= i < next.len() && 0 <= j < (#[trigger] next[i]).1 && (#[trigger] edges[j]).0
            == next[i].0 implies later.contains(edges[j].1) by {
        if i < top {
            assert(next[i] == next.drop_last()[i]);
            assert(stack[i] == stack.drop_last()[i]);
            assert(visited.contains(edges[j].1));
        } else if j < stack[top].1 {
            assert(stack[i].0 == next[i].0);
            assert(visited.contains(edges[j].1));
        }
    }
    assert forall|k: int| 0 <= k < next.len() implies (#[trigger] next[k]).1 <= edges.len() by {
        if k < top {
            assert(next[k] == next.drop_last()[k]);
            assert(stack[k] == stack.drop_last()[k]);
        }
    }
}

proof fn lemma_stack_grows(
    edges: Seq<(NodeId, NodeId)>,
    visited: Set<NodeId>,
    stack: Seq<(NodeId, usize)>,
    target: NodeId,
)
    requires
        is_search_stack(edges, visited, stack),
        stack.len() > 0,
        edges.contains((stack.last().0, target)),
    ensures
        is_search_stack(edges, visited, stack.push((target, 0usize))),
{
    reveal(is_search_stack);
    let next = stack.push((target, 0usize));
    let old_nodes = stack_nodes(stack);
    assert(stack_nodes(next) =~= old_nodes.push(target));
    assert(old_nodes[stack.len() - 1] == stack.last().0);
    assert forall|i: int| 0 < i < stack_nodes(next).len() implies edges.contains(
        (stack_nodes(next)[i - 1], #[trigger] stack_nodes(next)[i]),
    ) by {
        if i < old_nodes.len() {
            assert(edges.contains((old_nodes[i - 1], old_nodes[i])));
        }
    }
    assert forall|i: int, j: int|
        0 <= i < next.len() && 0 <= j < (#[trigger] next[i]).1 && (#[trigger] edges[j]).0
            == next[i].0 implies visited.contains(edges[j].1) by {
        if i < stack.len() {
            assert(next[i] == stack[i]);
        }
    }
    assert forall|k: int| 0 <= k < next.len() implies (#[trigger] next[k]).1 <= edges.len() by {
        if k < stack.len() {
            assert(next[k] == stack[k]);
        }
    }
}

proof fn lemma_stack_shrinks(
    edges: Seq<(NodeId, NodeId)>,
    visited: Set<NodeId>,
    stack: Seq<(NodeId, usize)>,
)
    requires
        is_search_stack(edges, visited, stack),
        stack.len() > 0,
    ensures
        is_search_stack(edges, visited, stack.drop_last()),
        work_left(stack.drop_last(), edges.len()) < work_left(stack, edges.len()),
{
    reveal(is_search_stack);
    let next = stack.drop_last();
    let old_nodes = stack_nodes(stack);
    assert(stack_nodes(next) =~= old_nodes.drop_last());
    assert(stack[stack.len() - 1].1 <= edges.len());
    assert forall|i: int| 0 < i < stack_nodes(next).len() implies edges.contains(
        (stack_nodes(next)[i - 1], #[trigger] stack_nodes(next)[i]),
    ) by {
        assert(edges.contains((old_nodes[i - 1], old_nodes[i])));
    }
    assert forall|i: int, j: int|
        0 <= i < next.len() && 0 <= j < (#[trigger] next[i]).1 && (#[trigger] edges[j]).0
            == next[i].0 implies visited.contains(edges[j].1) by {
        assert(next[i] == stack[i]);
    }
    assert forall|k: int| 0 <= k < next.len() implies (#[trigger] next[k]).1 <= edges.len() by {
        assert(next[k] == stack[k]);
    }
}

proof fn lemma_track_grows(
    edges: Seq<(NodeId, NodeId)>,
    visited: Set<NodeId>,
    finished: Seq<NodeId>,
    stack: Seq<(NodeId, usize)>,
    log: Seq<NodeId>,
    place: int,
)
    requires
        is_tracked(edges, visited, finished, stack, log),
        0 <= place < edges.len(),
        !visited.contains(edges[place].1),
    ensures
        is_tracked(
            edges,
            visited.insert(edges[place].1),
            finished,
            stack.push((edges[place].1, 0usize)),
            log.push(edges[place].1),
        ),
        unseen(edges, Direction::Outgoing, log.push(edges[place].1)) < unseen(
            edges,
            Direction::Outgoing,
            log,
        ),
{
    reveal(is_tracked);
    let target = edges[place].1;
    let old_nodes = stack_nodes(stack);
    assert(stack_nodes(stack.push((target, 0usize))) =~= old_nodes.push(target));
    lemma_push_membership(log, target);
    lemma_push_membership(old_nodes, target);
    assert(arrival(edges[place], Direction::Outgoing) == target);
    lemma_unseen_drop(edges, Direction::Outgoing, log, target);
    assert(is_node_of(edges, target));
}

proof fn lemma_track_moves(
    edges: Seq<(NodeId, NodeId)>,
    visited: Set<NodeId>,
    finished: Seq<NodeId>,
    stack: Seq<(NodeId, usize)>,
    log: Seq<NodeId>,
)
    requires
        is_tracked(edges, visited, finished, stack, log),
        stack.len() > 0,
    ensures
        is_tracked(edges, visited, finished.push(stack.last().0), stack.drop_last(), log),
{
    reveal(is_tracked);
    let top = stack.len() - 1;
    let node = stack.last().0;
    let old_nodes = stack_nodes(stack);
    assert(stack_nodes(stack.drop_last()) =~= old_nodes.drop_last());
    assert(old_nodes =~= old_nodes.drop_last().push(node));
    assert(old_nodes[top] == node);
    assert(old_nodes.contains(node));
    assert(!old_nodes.drop_last().contains(node)) by {
        if old_nodes.drop_last().contains(node) {
            let j = choose|j: int| 0 <= j < old_nodes.len() - 1 && old_nodes.drop_last()[j] == node;
            assert(old_nodes[j] == old_nodes[top]);
        }
    }
    lemma_push_membership(finished, node);
    lemma_push_membership(old_nodes.drop_last(), node);
}

proof fn lemma_finished_in_order(
    edges: Seq<(NodeId, NodeId)>,
    visited: Set<NodeId>,
    finished: Seq<NodeId>,
    stack: Seq<(NodeId, usize)>,
    log: Seq<NodeId>,
)
    requires
        during_search(edges, visited, finished, stack, log),
        stack.len() > 0,
        stack.last().1 >= edges.len(),
    ensures
        is_finished_in_order(edges, finished.push(stack.last().0)),
{
    reveal(is_tracked);
    reveal(is_finished_in_order);
    reveal(is_search_stack);
    let top = stack.len() - 1;
    let node = stack.last().0;
    let old_nodes = stack_nodes(stack);
    let later = finished.push(node);
    assert(old_nodes[top] == node);
    if is_acyclic(edges) {
        assert forall|a: int, j: int|
            0 <= a < later.len() && 0 <= j < edges.len() && (#[trigger] edges[j]).0
                == #[trigger] later[a] implies exists|b: int|
            0 <= b < a && #[trigger] later[b] == edges[j].1 by {
            if a < finished.len() {
                assert(later[a] == finished[a]);
                let b = choose|b: int| 0 <= b < a && #[trigger] finished[b] == edges[j].1;
                assert(later[b] == edges[j].1);
            } else {
                let target = edges[j].1;
                assert(stack[top].1 >= edges.len());
                assert(visited.contains(target));
                assert(edges.contains((node, target)));
                if old_nodes.contains(target) {
                    let i = choose|i: int| 0 <= i < old_nodes.len() && old_nodes[i] == target;
                    lemma_stack_reaches(edges, old_nodes, i);
                    assert(old_nodes.last() == node);
                    assert(reaches(edges, target, node));
                    assert(false);
                }
                let b = choose|b: int| 0 <= b < finished.len() && finished[b] == target;
                assert(later[b] == target);
            }
        }
    }
}

proof fn lemma_track_same(
    edges: Seq<(NodeId, NodeId)>,
    visited: Set<NodeId>,
    finished: Seq<NodeId>,
    stack: Seq<(NodeId, usize)>,
    next: Seq<(NodeId, usize)>,
    log: Seq<NodeId>,
)
    requires
        is_tracked(edges, visited, finished, stack, log),
        stack_nodes(next) == stack_nodes(stack),
    ensures
        is_tracked(edges, visited, finished, next, log),
{
    reveal(is_tracked);
}

proof fn lemma_visited_more(visited: Set<NodeId>, target: NodeId)
    ensures
        forall|n: NodeId| visited.contains(n) ==> visited.insert(target).contains(n),
        visited.insert(target).contains(target),
{
}

/// A depth-first search from `root`, which was not visited before: every
/// node that it comes to for the first time is finished when it ends.
fn search_depth_first(
    graph: &DiGraph,
    root: NodeId,
    visited: &mut NodeSet,
    finished: &mut Vec<NodeId>,
)
    requires
        between_searches(graph@, old(visited)@, old(finished)@),
        !old(visited)@.contains(root),
        is_node_of(graph@, root),
    ensures
        between_searches(graph@, final(visited)@, final(finished)@),
        final(visited)@.contains(root),
        forall|n: NodeId| old(visited)@.contains(n) ==> final(visited)@.contains(n),
{
    let count = graph.edge_count();
    let mut stack: Vec<(NodeId, usize)> = Vec::new();
    let ghost mut log: Seq<NodeId> = finished@.push(root);
    proof {
        lemma_search_begins(graph@, visited@, finished@, root);
    }
    visited.insert(root);
    stack.push((root, 0));
    assert(stack@ =~= seq![(root, 0usize)]);
    while stack.len() > 0
        invariant
            count == graph@.len(),
            during_search(graph@, visited@, finished@, stack@, log),
            forall|n: NodeId| old(visited)@.contains(n) ==> visited@.contains(n),
            visited@.contains(root),
        decreases unseen(graph@, Direction::Outgoing, log), work_left(stack@, count as nat),
    {
        let top = stack.len() - 1;
        let (node, place) = stack[top];
        let ghost old_stack = stack@;
        let ghost old_visited = visited@;
        let ghost old_finished = finished@;
        if place < count {
            let edge = graph.edge(place);
            stack.set(top, (node, place + 1));
            let ghost moved = stack@;
            assert(has_looked(old_stack, moved)) by {
                assert(moved.drop_last() =~= old_stack.drop_last());
            }
            if edge.0 == node && !visited.contains(edge.1) {
                visited.insert(edge.1);
                stack.push((edge.1, 0));
                proof {
                    lemma_visited_more(old_visited, edge.1);
                    lemma_stack_looks(graph@, old_visited, visited@, old_stack, moved);
                    assert(graph@.contains((node, edge.1)));
                    lemma_stack_grows(graph@, visited@, moved, edge.1);
                    lemma_track_same(graph@, old_visited, old_finished, old_stack, moved, log);
                    lemma_track_grows(
                        graph@,
                        old_visited,
                        old_finished,
                        moved,
                        log,
                        place as int,
                    );
                    log = log.push(edge.1);
                }
            } else {
                proof {
                    lemma_stack_looks(graph@, old_visited, old_visited, old_stack, moved);
                    lemma_track_same(graph@, old_visited, old_finished, old_stack, moved, log);
                }
            }
        } else {
            proof {
                lemma_finished_in_order(graph@, old_visited, old_finished, old_stack, log);
                lemma_stack_shrinks(graph@, old_visited, old_stack);
                lemma_track_moves(graph@, old_visited, old_finished, old_stack, log);
            }
            stack.pop();
            finished.push(node);
            assert(stack@ =~= old_stack.drop_last());
        }
    }
    proof {
        lemma_search_ends(graph@, visited@, finished@, stack@, log);
    }
}

/// Whether every edge leads from a node to one that stands later in
/// `order`.
pub open spec fn is_topological(edges: Seq<(NodeId, NodeId)>, order: Seq<NodeId>) -> bool {
    forall|i: int, j: int|
        0 <= i < order.len() && 0 <= j < order.len() && edges.contains(
            (#[trigger] order[i], #[trigger] order[j]),
        ) ==> i < j
}

/// An order of the nodes of the graph, each node once, found by a
/// depth-first search that does not call itself: the nodes in the reverse of
/// the order in which the search has finished with them. In a graph without
/// cycles every node stands before the targets of its edges.
pub fn topological_order(graph: &DiGraph) -> (order: Vec<NodeId>)
    ensures
        order@.no_duplicates(),
        forall|n: NodeId| order@.contains(n) <==> is_node_of(graph@, n),
        is_acyclic(graph@) ==> is_topological(graph@, order@),
{
    let count = graph.edge_count();
    let mut visited = NodeSet::new();
    let mut finished: Vec<NodeId> = Vec::new();
    let mut r: usize = 0;
    while r < count
        invariant
            count == graph@.len(),
            r <= count,
            between_searches(graph@, visited@, finished@),
            forall|j: int|
                0 <= j < r ==> visited@.contains((#[trigger] graph@[j]).0) && visited@.contains(
                    graph@[j].1,
                ),
        decreases count - r,
    {
        let e = graph.edge(r);
        if !visited.contains(e.0) {
            search_depth_first(graph, e.0, &mut visited, &mut finished);
        }
        if !visited.contains(e.1) {
            search_depth_first(graph, e.1, &mut visited, &mut finished);
        }
        r += 1;
    }
    let mut order: Vec<NodeId> = Vec::new();
    let mut left: usize = finished.len();
    while left > 0
        invariant
            left <= finished.len(),
            between_searches(graph@, visited@, finished@),
            order@.len() == finished.len() - left,
            forall|k: int| 0 <= k < order.len() ==> order@[k] == finished@[finished.len() - 1 - k],
        decreases left,
    {
        left -= 1;
        order.push(finished[left]);
    }
    proof {
        assert forall|n: NodeId| finished@.contains(n) <==> order@.contains(n) by {
            if finished@.contains(n) {
                let j = choose|j: int| 0 <= j < finished@.len() && finished@[j] == n;
                assert(order@[finished.len() - 1 - j] == n);
            }
            if order@.contains(n) {
                let j = choose|j: int| 0 <= j < order@.len() && order@[j] == n;
                assert(finished@[finished.len() - 1 - j] == n);
            }
        }
        assert forall|n: NodeId| is_node_of(graph@, n) implies order@.contains(n) by {
            let j = choose|j: int|
                0 <= j < graph@.len() && ((#[trigger] graph@[j]).0 == n || graph@[j].1 == n);
            assert(visited@.contains(graph@[j].0));
        }
        if is_acyclic(graph@) {
            let total = finished@.len() as int;
            assert forall|i: int, j: int|
                0 <= i < order@.len() && 0 <= j < order@.len() && graph@.contains(
                    (#[trigger] order@[i], #[trigger] order@[j]),
                ) implies i < j by {
                let e = choose|e: int| 0 <= e < graph@.len() && graph@[e] == (order@[i], order@[j]);
                let a = total - 1 - i;
                assert(graph@[e].0 == finished@[a]);
                let b = choose|b: int| 0 <= b < a && #[trigger] finished@[b] == graph@[e].1;
                assert(finished@[total - 1 - j] == finished@[b]);
            }
        }
    }
    order
}

/// The edges that are left once one edge is taken out are edges of the
/// graph, and the other copies of that edge, if any, are among them.
proof fn lemma_remove_contains(edges: Seq<(NodeId, NodeId)>, i: int, e: (NodeId, NodeId))
    requires
        0 <= i < edges.len(),
    ensures
        edges.remove(i).contains(e) ==> edges.contains(e),
        edges.contains(e) && e != edges[i] ==> edges.remove(i).contains(e),
{
    let fewer = edges.remove(i);
    if fewer.contains(e) {
        let k = choose|k: int| 0 <= k < fewer.len() && fewer[k] == e;
        if k < i {
            assert(edges[k] == e);
        } else {
            assert(edges[k + 1] == e);
        }
    }
    if edges.contains(e) && e != edges[i] {
        let k = choose|k: int| 0 <= k < edges.len() && edges[k] == e;
        if k < i {
            assert(fewer[k] == e);
        } else {
            assert(fewer[k - 1] == e);
        }
    }
}

/// The graph without the edges that longer paths imply. The nodes are taken
/// in the order of `topological_order`; each edge of a node is taken out, and
/// put back only if its target can then no longer be reached from the node.
/// What is reached from what stays as it was, also where the graph has
/// cycles.
pub fn transitive_reduction(graph: &DiGraph) -> (reduced: DiGraph)
    ensures
        is_reduction_of(reduced@, graph@),
        reduced@.len() <= graph@.len(),
        is_acyclic(graph@) ==> reduced@ == needed_edges(graph@),
{
    graph.edges_are_distinct();
    let order = topological_order(graph);
    let mut current = graph.duplicate();
    let ghost mut places: Seq<int> = Seq::new(graph@.len(), |i: int| i);
    assert(stands_at(current@, graph@, places));
    let mut k: usize = 0;
    while k < order.len()
        invariant
            k <= order.len(),
            stands_at(current@, graph@, places),
            forall|a: NodeId, b: NodeId| #[trigger] reaches(current@, a, b) == reaches(graph@, a, b),
            forall|j: int|
                0 <= j < current@.len() && order@.take(k as int).contains((#[trigger] current@[j]).0)
                    ==> is_needed(current@, current@[j]),
        decreases order.len() - k,
    {
        let node = order[k];
        let mut i: usize = 0;
        while i < current.edge_count()
            invariant
                k < order.len(),
                node == order@[k as int],
                i <= current@.len(),
                stands_at(current@, graph@, places),
                forall|a: NodeId, b: NodeId| #[trigger]
                    reaches(current@, a, b) == reaches(graph@, a, b),
                forall|j: int|
                    0 <= j < current@.len() && order@.take(k as int).contains(
                        (#[trigger] current@[j]).0,
                    ) ==> is_needed(current@, current@[j]),
                forall|j: int|
                    0 <= j < i && (#[trigger] current@[j]).0 == node ==> is_needed(
                        current@,
                        current@[j],
                    ),
            decreases current@.len() - i,
        {
            let e = current.edge(i);
            if e.0 == node {
                let fewer = current.without_edge(i);
                if is_reachable(&fewer, node, e.1) {
                    proof {
                        let old_edges = current@;
                        assert forall|a: NodeId, b: NodeId| #[trigger]
                            reaches(fewer@, a, b) == reaches(graph@, a, b) by {
                            lemma_remove_keeps_reach(old_edges, i as int, a, b);
                            assert(reaches(old_edges, a, b) == reaches(graph@, a, b));
                        }
                        assert forall|x: (NodeId, NodeId)| fewer@.contains(x) implies old_edges.contains(
                            x,
                        ) by {
                            lemma_remove_contains(old_edges, i as int, x);
                        }
                        assert forall|j: int|
                            0 <= j < fewer@.len() && (order@.take(k as int).contains(
                                (#[trigger] fewer@[j]).0,
                            ) || (j < i && fewer@[j].0 == node)) implies is_needed(
                            fewer@,
                            fewer@[j],
                        ) by {
                            let jj = if j < i {
                                j
                            } else {
                                j + 1
                            };
                            assert(fewer@[j] == old_edges[jj]);
                            assert(is_needed(old_edges, old_edges[jj]));
                            lemma_needed_among_fewer(fewer@, old_edges, fewer@[j]);
                        }
                        let fewer_places = places.remove(i as int);
                        assert(stands_at(fewer@, graph@, fewer_places)) by {
                            assert forall|x: int| 0 <= x < fewer@.len() implies #[trigger] fewer@[x]
                                == graph@[fewer_places[x]] by {
                                if x < i {
                                    assert(fewer@[x] == old_edges[x]);
                                } else {
                                    assert(fewer@[x] == old_edges[x + 1]);
                                }
                            }
                        }
                        places = fewer_places;
                    }
                    current = fewer;
                } else {
                    proof {
                        assert forall|x: (NodeId, NodeId)|
                            without(current@, e).contains(x) implies fewer@.contains(x) by {
                            lemma_without_contains(current@, e, x);
                            lemma_remove_contains(current@, i as int, x);
                        }
                        if reaches(without(current@, e), e.0, e.1) {
                            lemma_connects_monotone(
                                without(current@, e),
                                fewer@,
                                e.0,
                                e.1,
                                Direction::Outgoing,
                            );
                        }
                        assert(is_needed(current@, e));
                    }
                    i += 1;
                }
            } else {
                i += 1;
            }
        }
        proof {
            assert forall|j: int|
                0 <= j < current@.len() && order@.take(k + 1).contains(
                    (#[trigger] current@[j]).0,
                ) implies is_needed(current@, current@[j]) by {
                assert(order@.take(k + 1) =~= order@.take(k as int).push(node));
                lemma_push_membership(order@.take(k as int), node);
            }
        }
        k += 1;
    }
    proof {
        assert(order@.take(order@.len() as int) =~= order@);
        assert forall|e: (NodeId, NodeId)| current@.contains(e) implies #[trigger] is_needed(
            current@,
            e,
        ) by {
            let j = choose|j: int| 0 <= j < current@.len() && current@[j] == e;
            assert(current@[j] == graph@[places[j]]);
            assert(is_node_of(graph@, e.0));
        }
        assert(is_reduction_of(current@, graph@));
        lemma_subsequence_shorter(current@, graph@);
        if is_acyclic(graph@) {
            lemma_reduction_is_needed_edges(current@, graph@);
        }
    }
    current
}

} // verus!
