//! Breadth-first search over a directed graph, and what it finds.

use crate::collections::NodeSet;
use crate::graph::{
    arrival, connects, DiGraph, Direction, is_walk, lemma_connects_self, lemma_connects_step,
    lemma_neighbors_linked, linked, neighbors, NodeId, origin,
};
use vstd::prelude::*;

verus! {

/// `seen`, followed by those of `found` that it does not hold yet, each
/// once, in their order.
pub open spec fn with_new(seen: Seq<NodeId>, found: Seq<NodeId>) -> Seq<NodeId>
    decreases found.len(),
{
    if found.len() == 0 {
        seen
    } else {
        let before = with_new(seen, found.drop_last());
        if before.contains(found.last()) {
            before
        } else {
            before.push(found.last())
        }
    }
}

/// The search continued: the nodes of `seen` from place `next` on are
/// visited in turn, and the neighbours of each that were not seen before
/// are put at the end.
pub open spec fn search_from(
    edges: Seq<(NodeId, NodeId)>,
    dir: Direction,
    seen: Seq<NodeId>,
    next: nat,
) -> Seq<NodeId>
    decreases edges.len() + 1 - next,
{
    if next >= seen.len() || next > edges.len() {
        seen
    } else {
        search_from(edges, dir, with_new(seen, neighbors(edges, seen[next as int], dir)), next + 1)
    }
}

/// The nodes found from `start` by steps in direction `dir`, `start` first,
/// in the order of a breadth-first search: those one step away in the
/// order of their edges, then those found from the first of them, and so
/// on.
pub open spec fn breadth_first(edges: Seq<(NodeId, NodeId)>, start: NodeId, dir: Direction) -> Seq<
    NodeId,
> {
    search_from(edges, dir, seq![start], 0)
}

/// The number of edges that arrive, in direction `dir`, at a node that is
/// not in `seen`.
pub open spec fn unseen(edges: Seq<(NodeId, NodeId)>, dir: Direction, seen: Seq<NodeId>) -> nat
    decreases edges.len(),
{
    if edges.len() == 0 {
        0
    } else {
        unseen(edges.drop_last(), dir, seen) + if seen.contains(arrival(edges.last(), dir)) {
            0nat
        } else {
            1nat
        }
    }
}

/// What holds of the nodes seen so far while a search from `start` runs:
/// they are different nodes, each connected to `start`; the neighbours of
/// those before place `next` are among them; and they are no more than the
/// edges allow.
pub open spec fn search_state(
    edges: Seq<(NodeId, NodeId)>,
    start: NodeId,
    dir: Direction,
    seen: Seq<NodeId>,
    next: nat,
) -> bool {
    &&& seen.len() >= 1
    &&& seen[0] == start
    &&& seen.no_duplicates()
    &&& next <= seen.len()
    &&& forall|i: int| 0 <= i < seen.len() ==> connects(edges, start, #[trigger] seen[i], dir)
    &&& forall|j: int, y: NodeId|
        0 <= j < next && #[trigger] linked(edges, seen[j], y, dir) ==> seen.contains(y)
    &&& seen.len() + unseen(edges, dir, seen) <= edges.len() + 1
}

proof fn lemma_unseen_bound(edges: Seq<(NodeId, NodeId)>, dir: Direction, seen: Seq<NodeId>)
    ensures
        unseen(edges, dir, seen) <= edges.len(),
    decreases edges.len(),
{
    if edges.len() > 0 {
        lemma_unseen_bound(edges.drop_last(), dir, seen);
    }
}

/// Fewer edges arrive at nodes that were not seen once a node at which an
/// edge arrives is seen.
pub proof fn lemma_unseen_drop(
    edges: Seq<(NodeId, NodeId)>,
    dir: Direction,
    seen: Seq<NodeId>,
    y: NodeId,
)
    requires
        !seen.contains(y),
        exists|k: int| 0 <= k < edges.len() && arrival(#[trigger] edges[k], dir) == y,
    ensures
        unseen(edges, dir, seen.push(y)) < unseen(edges, dir, seen),
{
    lemma_unseen_push(edges, dir, seen, y);
}

proof fn lemma_unseen_push(
    edges: Seq<(NodeId, NodeId)>,
    dir: Direction,
    seen: Seq<NodeId>,
    y: NodeId,
)
    requires
        !seen.contains(y),
    ensures
        unseen(edges, dir, seen.push(y)) <= unseen(edges, dir, seen),
        (exists|k: int| 0 <= k < edges.len() && arrival(#[trigger] edges[k], dir) == y) ==> unseen(
            edges,
            dir,
            seen.push(y),
        ) + 1 <= unseen(edges, dir, seen),
    decreases edges.len(),
{
    if edges.len() > 0 {
        let rest = edges.drop_last();
        let a = arrival(edges.last(), dir);
        lemma_unseen_push(rest, dir, seen, y);
        let longer = seen.push(y);
        if seen.contains(a) {
            let i = choose|i: int| 0 <= i < seen.len() && seen[i] == a;
            assert(longer[i] == a);
        }
        if longer.contains(a) && !seen.contains(a) {
            let i = choose|i: int| 0 <= i < longer.len() && longer[i] == a;
            if i < seen.len() {
                assert(seen[i] == a);
            }
            assert(a == y);
        }
        if a == y {
            assert(longer[longer.len() - 1] == y);
        }
        if exists|k: int| 0 <= k < edges.len() && arrival(#[trigger] edges[k], dir) == y {
            let k = choose|k: int| 0 <= k < edges.len() && arrival(#[trigger] edges[k], dir) == y;
            if k < rest.len() {
                assert(arrival(rest[k], dir) == y);
            } else {
                assert(a == y);
            }
        }
    }
}

proof fn lemma_with_new(
    edges: Seq<(NodeId, NodeId)>,
    start: NodeId,
    dir: Direction,
    seen: Seq<NodeId>,
    node: NodeId,
    found: Seq<NodeId>,
)
    requires
        seen.no_duplicates(),
        forall|i: int| 0 <= i < seen.len() ==> connects(edges, start, #[trigger] seen[i], dir),
        connects(edges, start, node, dir),
        forall|i: int| 0 <= i < found.len() ==> linked(edges, node, #[trigger] found[i], dir),
    ensures
        ({
            let all = with_new(seen, found);
            &&& all.no_duplicates()
            &&& all.len() >= seen.len()
            &&& all.take(seen.len() as int) == seen
            &&& forall|i: int| 0 <= i < all.len() ==> connects(edges, start, #[trigger] all[i], dir)
            &&& forall|i: int| 0 <= i < found.len() ==> all.contains(#[trigger] found[i])
            &&& all.len() + unseen(edges, dir, all) <= seen.len() + unseen(edges, dir, seen)
        }),
    decreases found.len(),
{
    if found.len() == 0 {
        assert(seen.take(seen.len() as int) =~= seen);
    } else {
        let y = found.last();
        let shorter = found.drop_last();
        assert forall|i: int| 0 <= i < shorter.len() implies linked(
            edges,
            node,
            #[trigger] shorter[i],
            dir,
        ) by {
            assert(shorter[i] == found[i]);
        }
        lemma_with_new(edges, start, dir, seen, node, shorter);
        let before = with_new(seen, shorter);
        let all = with_new(seen, found);
        assert(linked(edges, node, found[found.len() - 1], dir));
        if before.contains(y) {
            assert forall|i: int| 0 <= i < found.len() implies all.contains(#[trigger] found[i]) by {
                if i < shorter.len() {
                    assert(shorter[i] == found[i]);
                }
            }
        } else {
            assert(all == before.push(y));
            assert(all.take(seen.len() as int) =~= before.take(seen.len() as int));
            lemma_connects_step(edges, start, node, y, dir);
            assert forall|i: int| 0 <= i < all.len() implies connects(
                edges,
                start,
                #[trigger] all[i],
                dir,
            ) by {
                if i < before.len() {
                    assert(all[i] == before[i]);
                }
            }
            assert forall|i: int| 0 <= i < found.len() implies all.contains(#[trigger] found[i]) by {
                if i < shorter.len() {
                    assert(shorter[i] == found[i]);
                    let j = choose|j: int| 0 <= j < before.len() && before[j] == shorter[i];
                    assert(all[j] == found[i]);
                } else {
                    assert(all[all.len() - 1] == y);
                }
            }
            let key = match dir {
                Direction::Outgoing => (node, y),
                Direction::Incoming => (y, node),
            };
            assert(edges.contains(key));
            let k = choose|k: int| 0 <= k < edges.len() && edges[k] == key;
            assert(arrival(edges[k], dir) == y);
            lemma_unseen_push(edges, dir, before, y);
        }
    }
}

proof fn lemma_search_from(
    edges: Seq<(NodeId, NodeId)>,
    start: NodeId,
    dir: Direction,
    seen: Seq<NodeId>,
    next: nat,
)
    requires
        search_state(edges, start, dir, seen, next),
    ensures
        ({
            let all = search_from(edges, dir, seen, next);
            search_state(edges, start, dir, all, all.len())
        }),
    decreases edges.len() + 1 - next,
{
    lemma_unseen_bound(edges, dir, seen);
    if next >= seen.len() || next > edges.len() {
    } else {
        let node = seen[next as int];
        let found = neighbors(edges, node, dir);
        assert forall|i: int| 0 <= i < found.len() implies linked(
            edges,
            node,
            #[trigger] found[i],
            dir,
        ) by {
            lemma_neighbors_linked(edges, node, dir, found[i]);
        }
        lemma_with_new(edges, start, dir, seen, node, found);
        let all = with_new(seen, found);
        assert forall|j: int, y: NodeId|
            0 <= j < next + 1 && #[trigger] linked(edges, all[j], y, dir) implies all.contains(
            y,
        ) by {
            assert(all[j] == all.take(seen.len() as int)[j]);
            if j < next {
                assert(seen.contains(y));
                let i = choose|i: int| 0 <= i < seen.len() && seen[i] == y;
                assert(all.take(seen.len() as int)[i] == y);
                assert(all[i] == y);
            } else {
                lemma_neighbors_linked(edges, node, dir, y);
                let i = choose|i: int| 0 <= i < found.len() && found[i] == y;
                assert(all.contains(found[i]));
            }
        }
        assert(all[0] == all.take(seen.len() as int)[0]);
        lemma_search_from(edges, start, dir, all, next + 1);
    }
}

proof fn lemma_walk_stays(
    edges: Seq<(NodeId, NodeId)>,
    dir: Direction,
    all: Seq<NodeId>,
    walk: Seq<NodeId>,
    k: int,
)
    requires
        is_walk(edges, walk, dir),
        all.contains(walk[0]),
        forall|j: int, y: NodeId|
            0 <= j < all.len() && #[trigger] linked(edges, all[j], y, dir) ==> all.contains(y),
        0 <= k < walk.len(),
    ensures
        all.contains(walk[k]),
    decreases k,
{
    if k > 0 {
        lemma_walk_stays(edges, dir, all, walk, k - 1);
        let j = choose|j: int| 0 <= j < all.len() && all[j] == walk[k - 1];
        assert(linked(edges, walk[k - 1], walk[k - 1 + 1], dir));
        assert(linked(edges, all[j], walk[k], dir));
    }
}

/// A breadth-first search finds the nodes that are connected to its start,
/// all of them and no others, each once, the start first.
pub proof fn lemma_breadth_first_finds(edges: Seq<(NodeId, NodeId)>, start: NodeId, dir: Direction)
    ensures
        breadth_first(edges, start, dir).no_duplicates(),
        breadth_first(edges, start, dir).len() >= 1,
        breadth_first(edges, start, dir)[0] == start,
        forall|x: NodeId| #[trigger]
            breadth_first(edges, start, dir).contains(x) <==> connects(edges, start, x, dir),
{
    let first = seq![start];
    lemma_connects_self(edges, start, dir);
    lemma_unseen_bound(edges, dir, first);
    assert(search_state(edges, start, dir, first, 0));
    lemma_search_from(edges, start, dir, first, 0);
    let all = breadth_first(edges, start, dir);
    assert forall|x: NodeId| #[trigger] all.contains(x) <==> connects(edges, start, x, dir) by {
        if connects(edges, start, x, dir) {
            let walk = choose|walk: Seq<NodeId>| #[trigger]
                is_walk(edges, walk, dir) && walk.first() == start && walk.last() == x;
            assert(all[0] == walk[0]);
            lemma_walk_stays(edges, dir, all, walk, walk.len() - 1);
        }
        if all.contains(x) {
            let i = choose|i: int| 0 <= i < all.len() && all[i] == x;
            assert(connects(edges, start, all[i], dir));
        }
    }
}

/// Whether at most `steps` steps in direction `dir` lead from `a` to `b`.
pub open spec fn within(
    edges: Seq<(NodeId, NodeId)>,
    a: NodeId,
    b: NodeId,
    dir: Direction,
    steps: nat,
) -> bool {
    exists|walk: Seq<NodeId>| #[trigger]
        is_walk(edges, walk, dir) && walk.first() == a && walk.last() == b && walk.len() <= steps
            + 1
}

/// Whether the nodes stand in the order of their distance from `start`:
/// whatever number of steps reaches a node reaches every node before it.
pub open spec fn is_by_distance(
    edges: Seq<(NodeId, NodeId)>,
    start: NodeId,
    dir: Direction,
    seen: Seq<NodeId>,
) -> bool {
    forall|i: int, j: int, n: nat|
        0 <= i < j < seen.len() && #[trigger] within(edges, start, seen[j], dir, n) ==> within(
            edges,
            start,
            #[trigger] seen[i],
            dir,
            n,
        )
}

/// Whether the first `near` of the nodes are those within `steps` steps of
/// `start`, and the others are one step further.
spec fn is_split(
    edges: Seq<(NodeId, NodeId)>,
    start: NodeId,
    dir: Direction,
    seen: Seq<NodeId>,
    steps: nat,
    near: nat,
) -> bool {
    forall|j: int|
        0 <= j < seen.len() ==> if j < near {
            within(edges, start, #[trigger] seen[j], dir, steps)
        } else {
            !within(edges, start, seen[j], dir, steps) && within(
                edges,
                start,
                seen[j],
                dir,
                steps + 1,
            )
        }
}

/// Whether every node within `steps` steps of `start` is among the nodes.
spec fn holds_all_within(
    edges: Seq<(NodeId, NodeId)>,
    start: NodeId,
    dir: Direction,
    seen: Seq<NodeId>,
    steps: nat,
) -> bool {
    forall|y: NodeId| #[trigger] within(edges, start, y, dir, steps) ==> seen.contains(y)
}

/// Whether the nodes from place `next` on are not nearer to `start` than
/// `steps` steps.
spec fn is_far_from(
    edges: Seq<(NodeId, NodeId)>,
    start: NodeId,
    dir: Direction,
    seen: Seq<NodeId>,
    next: nat,
    steps: nat,
) -> bool {
    steps > 0 ==> forall|j: int|
        next <= j < seen.len() ==> !within(edges, start, #[trigger] seen[j], dir, (steps - 1) as nat)
}

/// What holds of the distances while a search runs.
spec fn search_levels(
    edges: Seq<(NodeId, NodeId)>,
    start: NodeId,
    dir: Direction,
    seen: Seq<NodeId>,
    next: nat,
    steps: nat,
    near: nat,
) -> bool {
    &&& next <= near <= seen.len()
    &&& next < seen.len() ==> next < near
    &&& is_split(edges, start, dir, seen, steps, near)
    &&& holds_all_within(edges, start, dir, seen, steps)
    &&& is_far_from(edges, start, dir, seen, next, steps)
    &&& is_by_distance(edges, start, dir, seen)
}

proof fn lemma_within_more(
    edges: Seq<(NodeId, NodeId)>,
    a: NodeId,
    b: NodeId,
    dir: Direction,
    n: nat,
    m: nat,
)
    requires
        within(edges, a, b, dir, n),
        n <= m,
    ensures
        within(edges, a, b, dir, m),
{
    let walk = choose|walk: Seq<NodeId>| #[trigger]
        is_walk(edges, walk, dir) && walk.first() == a && walk.last() == b && walk.len() <= n + 1;
    assert(is_walk(edges, walk, dir) && walk.len() <= m + 1);
}

proof fn lemma_within_step(
    edges: Seq<(NodeId, NodeId)>,
    a: NodeId,
    p: NodeId,
    y: NodeId,
    dir: Direction,
    n: nat,
)
    requires
        within(edges, a, p, dir, n),
        linked(edges, p, y, dir),
    ensures
        within(edges, a, y, dir, n + 1),
{
    let walk = choose|walk: Seq<NodeId>| #[trigger]
        is_walk(edges, walk, dir) && walk.first() == a && walk.last() == p && walk.len() <= n + 1;
    let longer = walk.push(y);
    assert forall|i: int| 0 <= i < longer.len() - 1 implies linked(
        edges,
        #[trigger] longer[i],
        longer[i + 1],
        dir,
    ) by {
        if i < walk.len() - 1 {
            assert(longer[i] == walk[i]);
            assert(longer[i + 1] == walk[i + 1]);
        }
    }
    assert(is_walk(edges, longer, dir));
    assert(longer.first() == a && longer.last() == y);
}

proof fn lemma_within_before(
    edges: Seq<(NodeId, NodeId)>,
    a: NodeId,
    y: NodeId,
    dir: Direction,
    n: nat,
) -> (p: NodeId)
    requires
        within(edges, a, y, dir, n + 1),
        !within(edges, a, y, dir, n),
    ensures
        within(edges, a, p, dir, n),
        linked(edges, p, y, dir),
{
    let walk = choose|walk: Seq<NodeId>| #[trigger]
        is_walk(edges, walk, dir) && walk.first() == a && walk.last() == y && walk.len() <= n + 2;
    if walk.len() <= n + 1 {
        assert(is_walk(edges, walk, dir));
        assert(false);
    }
    let shorter = walk.drop_last();
    assert forall|i: int| 0 <= i < shorter.len() - 1 implies linked(
        edges,
        #[trigger] shorter[i],
        shorter[i + 1],
        dir,
    ) by {
        assert(linked(edges, walk[i], walk[i + 1], dir));
    }
    assert(is_walk(edges, shorter, dir));
    assert(shorter.first() == a && shorter.len() <= n + 1);
    let last = walk.len() - 2;
    assert(linked(edges, walk[last], walk[last + 1], dir));
    shorter.last()
}

proof fn lemma_within_none(edges: Seq<(NodeId, NodeId)>, a: NodeId, b: NodeId, dir: Direction)
    ensures
        within(edges, a, b, dir, 0) <==> a == b,
{
    if a == b {
        let walk = seq![a];
        assert(is_walk(edges, walk, dir));
        assert(walk.first() == a && walk.last() == b && walk.len() <= 1);
    }
    if within(edges, a, b, dir, 0) {
        let walk = choose|walk: Seq<NodeId>| #[trigger]
            is_walk(edges, walk, dir) && walk.first() == a && walk.last() == b && walk.len() <= 1;
        assert(walk.len() == 1);
    }
}

proof fn lemma_with_new_levels(
    edges: Seq<(NodeId, NodeId)>,
    start: NodeId,
    dir: Direction,
    seen: Seq<NodeId>,
    next: nat,
    steps: nat,
    near: nat,
    found: Seq<NodeId>,
)
    requires
        search_levels(edges, start, dir, seen, next, steps, near),
        next < seen.len(),
        forall|i: int|
            0 <= i < found.len() ==> linked(edges, seen[next as int], #[trigger] found[i], dir),
    ensures
        search_levels(edges, start, dir, with_new(seen, found), next, steps, near),
        with_new(seen, found).len() >= seen.len(),
    decreases found.len(),
{
    if found.len() > 0 {
        let y = found.last();
        let shorter = found.drop_last();
        assert forall|i: int| 0 <= i < shorter.len() implies linked(
            edges,
            seen[next as int],
            #[trigger] shorter[i],
            dir,
        ) by {
            assert(shorter[i] == found[i]);
        }
        lemma_with_new_levels(edges, start, dir, seen, next, steps, near, shorter);
        lemma_with_new_start(seen, shorter);
        let before = with_new(seen, shorter);
        let all = with_new(seen, found);
        if !before.contains(y) {
            assert(all == before.push(y));
            assert(before[next as int] == before.take(seen.len() as int)[next as int]);
            assert(linked(edges, seen[next as int], found[found.len() - 1], dir));
            assert(within(edges, start, before[next as int], dir, steps));
            lemma_within_step(edges, start, before[next as int], y, dir, steps);
            assert(!within(edges, start, y, dir, steps));
            assert forall|j: int| 0 <= j < all.len() implies if j < near {
                within(edges, start, #[trigger] all[j], dir, steps)
            } else {
                !within(edges, start, all[j], dir, steps) && within(
                    edges,
                    start,
                    all[j],
                    dir,
                    steps + 1,
                )
            } by {
                if j < before.len() {
                    assert(all[j] == before[j]);
                }
            }
            assert forall|z: NodeId| #[trigger] within(edges, start, z, dir, steps) implies all.contains(
                z,
            ) by {
                let k = choose|k: int| 0 <= k < before.len() && before[k] == z;
                assert(all[k] == z);
            }
            if steps > 0 {
                assert forall|j: int| next <= j < all.len() implies !within(
                    edges,
                    start,
                    #[trigger] all[j],
                    dir,
                    (steps - 1) as nat,
                ) by {
                    if j < before.len() {
                        assert(all[j] == before[j]);
                    } else if within(edges, start, y, dir, (steps - 1) as nat) {
                        lemma_within_more(edges, start, y, dir, (steps - 1) as nat, steps);
                    }
                }
            }
            assert forall|i: int, j: int, n: nat|
                0 <= i < j < all.len() && #[trigger] within(
                    edges,
                    start,
                    all[j],
                    dir,
                    n,
                ) implies within(edges, start, #[trigger] all[i], dir, n) by {
                assert(all[i] == before[i]);
                if j < before.len() {
                    assert(all[j] == before[j]);
                } else {
                    if n <= steps {
                        lemma_within_more(edges, start, y, dir, n, steps);
                    }
                    if i < near {
                        lemma_within_more(edges, start, before[i], dir, steps, n);
                    } else {
                        lemma_within_more(edges, start, before[i], dir, steps + 1, n);
                    }
                }
            }
        }
    }
}

/// What was seen stays at the start when new nodes are put at the end.
pub proof fn lemma_with_new_start(seen: Seq<NodeId>, found: Seq<NodeId>)
    ensures
        with_new(seen, found).len() >= seen.len(),
        with_new(seen, found).take(seen.len() as int) == seen,
    decreases found.len(),
{
    if found.len() == 0 {
        assert(seen.take(seen.len() as int) =~= seen);
    } else {
        lemma_with_new_start(seen, found.drop_last());
        let before = with_new(seen, found.drop_last());
        if !before.contains(found.last()) {
            assert(before.push(found.last()).take(seen.len() as int) =~= before.take(
                seen.len() as int,
            ));
        }
    }
}

proof fn lemma_next_level(
    edges: Seq<(NodeId, NodeId)>,
    start: NodeId,
    dir: Direction,
    seen: Seq<NodeId>,
    next: nat,
    steps: nat,
)
    requires
        search_state(edges, start, dir, seen, next),
        is_split(edges, start, dir, seen, steps, next),
        holds_all_within(edges, start, dir, seen, steps),
        is_by_distance(edges, start, dir, seen),
        next < seen.len(),
    ensures
        search_levels(edges, start, dir, seen, next, steps + 1, seen.len()),
{
    assert forall|y: NodeId| #[trigger] within(edges, start, y, dir, steps + 1) implies seen.contains(
        y,
    ) by {
        if !within(edges, start, y, dir, steps) {
            let p = lemma_within_before(edges, start, y, dir, steps);
            assert(seen.contains(p));
            let k = choose|k: int| 0 <= k < seen.len() && seen[k] == p;
            assert(k < next);
            assert(linked(edges, seen[k], y, dir));
        }
    }
    assert forall|j: int| next <= j < seen.len() implies !within(
        edges,
        start,
        #[trigger] seen[j],
        dir,
        steps,
    ) by {}
    assert forall|j: int| 0 <= j < seen.len() implies within(
        edges,
        start,
        #[trigger] seen[j],
        dir,
        steps + 1,
    ) by {
        if j < next {
            lemma_within_more(edges, start, seen[j], dir, steps, steps + 1);
        }
    }
}

proof fn lemma_search_levels(
    edges: Seq<(NodeId, NodeId)>,
    start: NodeId,
    dir: Direction,
    seen: Seq<NodeId>,
    next: nat,
    steps: nat,
    near: nat,
)
    requires
        search_state(edges, start, dir, seen, next),
        search_levels(edges, start, dir, seen, next, steps, near),
    ensures
        is_by_distance(edges, start, dir, search_from(edges, dir, seen, next)),
    decreases edges.len() + 1 - next,
{
    lemma_unseen_bound(edges, dir, seen);
    if next >= seen.len() || next > edges.len() {
    } else {
        let node = seen[next as int];
        let found = neighbors(edges, node, dir);
        assert forall|i: int| 0 <= i < found.len() implies linked(
            edges,
            node,
            #[trigger] found[i],
            dir,
        ) by {
            lemma_neighbors_linked(edges, node, dir, found[i]);
        }
        lemma_with_new(edges, start, dir, seen, node, found);
        lemma_with_new_levels(edges, start, dir, seen, next, steps, near, found);
        let all = with_new(seen, found);
        assert forall|j: int, y: NodeId|
            0 <= j < next + 1 && #[trigger] linked(edges, all[j], y, dir) implies all.contains(
            y,
        ) by {
            assert(all[j] == all.take(seen.len() as int)[j]);
            if j < next {
                assert(seen.contains(y));
                let i = choose|i: int| 0 <= i < seen.len() && seen[i] == y;
                assert(all.take(seen.len() as int)[i] == y);
                assert(all[i] == y);
            } else {
                lemma_neighbors_linked(edges, node, dir, y);
                let i = choose|i: int| 0 <= i < found.len() && found[i] == y;
                assert(all.contains(found[i]));
            }
        }
        assert(all[0] == all.take(seen.len() as int)[0]);
        assert(search_state(edges, start, dir, all, next + 1));
        if next + 1 < near || next + 1 >= all.len() {
            assert(search_levels(edges, start, dir, all, next + 1, steps, near)) by {
                if steps > 0 {
                    assert forall|j: int| next + 1 <= j < all.len() implies !within(
                        edges,
                        start,
                        #[trigger] all[j],
                        dir,
                        (steps - 1) as nat,
                    ) by {}
                }
            }
            lemma_search_levels(edges, start, dir, all, next + 1, steps, near);
        } else {
            assert(near == next + 1);
            lemma_next_level(edges, start, dir, all, next + 1, steps);
            lemma_search_levels(edges, start, dir, all, next + 1, steps + 1, all.len());
        }
    }
}

/// A breadth-first search comes to the nodes in the order of their
/// distance from its start: whatever number of steps reaches a node
/// reaches every node that was found before it.
pub proof fn lemma_breadth_first_nearest_first(
    edges: Seq<(NodeId, NodeId)>,
    start: NodeId,
    dir: Direction,
)
    ensures
        is_by_distance(edges, start, dir, breadth_first(edges, start, dir)),
{
    let first = seq![start];
    lemma_connects_self(edges, start, dir);
    lemma_unseen_bound(edges, dir, first);
    assert(search_state(edges, start, dir, first, 0));
    lemma_within_none(edges, start, start, dir);
    assert forall|y: NodeId| #[trigger] within(edges, start, y, dir, 0) implies first.contains(
        y,
    ) by {
        lemma_within_none(edges, start, y, dir);
        assert(first[0] == y);
    }
    assert(search_levels(edges, start, dir, first, 0, 0, 1));
    lemma_search_levels(edges, start, dir, first, 0, 0, 1);
}

/// The nodes found from `start` by steps in direction `dir`, `start` first,
/// in the order in which a breadth-first search comes to them.
pub fn breadth_first_search(graph: &DiGraph, start: NodeId, dir: Direction) -> (order: Vec<NodeId>)
    ensures
        order@ == breadth_first(graph@, start, dir),
{
    let mut seen: Vec<NodeId> = Vec::new();
    let mut visited = NodeSet::new();
    seen.push(start);
    visited.insert(start);
    let count = graph.edge_count();
    let mut next: usize = 0;
    assert(seen@ =~= seq![start]);
    assert forall|n: NodeId| visited@.contains(n) <==> seen@.contains(n) by {
        if n == start {
            assert(seen@[0] == start);
        }
    }
    while next < seen.len() && next <= count
        invariant
            count == graph@.len(),
            search_from(graph@, dir, seen@, next as nat) == breadth_first(graph@, start, dir),
            forall|n: NodeId| visited@.contains(n) <==> seen@.contains(n),
        decreases count + 1 - next,
    {
        let node = seen[next];
        let ghost before = seen@;
        for i in 0..count
            invariant
                count == graph@.len(),
                seen@ == with_new(before, neighbors(graph@.take(i as int), node, dir)),
                forall|n: NodeId| visited@.contains(n) <==> seen@.contains(n),
        {
            let e = graph.edge(i);
            assert(graph@.take(i + 1).drop_last() =~= graph@.take(i as int));
            assert(graph@.take(i + 1).last() == e);
            let (from, to) = match dir {
                Direction::Outgoing => (e.0, e.1),
                Direction::Incoming => (e.1, e.0),
            };
            assert(from == origin(e, dir) && to == arrival(e, dir));
            if from == node {
                let ghost found = neighbors(graph@.take(i as int), node, dir);
                assert(neighbors(graph@.take(i + 1), node, dir) == found.push(to));
                assert(found.push(to).drop_last() =~= found);
                if !visited.contains(to) {
                    let ghost old_seen = seen@;
                    visited.insert(to);
                    seen.push(to);
                    assert forall|n: NodeId| visited@.contains(n) <==> seen@.contains(n) by {
                        if old_seen.contains(n) {
                            let j = choose|j: int| 0 <= j < old_seen.len() && old_seen[j] == n;
                            assert(seen@[j] == n);
                        }
                        if n == to {
                            assert(seen@[seen@.len() - 1] == to);
                        }
                        if seen@.contains(n) && n != to {
                            let j = choose|j: int| 0 <= j < seen@.len() && seen@[j] == n;
                            assert(old_seen[j] == n);
                        }
                    }
                }
            }
        }
        assert(graph@.take(count as int) =~= graph@);
        next += 1;
    }
    seen
}

} // verus!
