//! Where each node of a schedule stands in the drawing: on the top level,
//! inside the one set that holds it, or, where several sets hold it, inside
//! the nearest set that stands above all of them.

use crate::collections::{bucket, NodeMap, NodeSet};
use crate::graph::{DiGraph, Direction, is_ancestor_or_self, neighbors, NodeId};
use crate::schedule::Schedule;
use crate::sequences::lemma_push_membership;
use crate::search::{
    breadth_first, breadth_first_search, lemma_breadth_first_finds,
    lemma_breadth_first_nearest_first, lemma_with_new_start, search_from, with_new, within,
};
use vstd::prelude::*;

verus! {

/// The sets among `nodes` that are drawn, in their order.
pub open spec fn only_plain_sets(schedule: &Schedule, nodes: Seq<NodeId>) -> Seq<NodeId>
    decreases nodes.len(),
{
    if nodes.len() == 0 {
        Seq::empty()
    } else if schedule.is_plain_set(nodes.last()) {
        only_plain_sets(schedule, nodes.drop_last()).push(nodes.last())
    } else {
        only_plain_sets(schedule, nodes.drop_last())
    }
}

/// The sets that hold `node` directly, in the order of the hierarchy's
/// edges. The sets that stand for the systems of one type do not count.
pub open spec fn plain_parents(schedule: &Schedule, node: NodeId) -> Seq<NodeId> {
    only_plain_sets(schedule, neighbors(schedule.hierarchy@, node, Direction::Incoming))
}

/// The sets among the parents of a node are sets that are drawn.
pub proof fn lemma_plain_parents(schedule: &Schedule, nodes: Seq<NodeId>, k: int)
    requires
        0 <= k < only_plain_sets(schedule, nodes).len(),
    ensures
        schedule.is_plain_set(only_plain_sets(schedule, nodes)[k]),
    decreases nodes.len(),
{
    if nodes.len() > 0 {
        let rest = only_plain_sets(schedule, nodes.drop_last());
        if k < rest.len() {
            lemma_plain_parents(schedule, nodes.drop_last(), k);
        }
    }
}

/// The sets that hold `node` directly.
pub fn hierarchy_parents(node: NodeId, schedule: &Schedule) -> (parents: Vec<NodeId>)
    ensures
        parents@ == plain_parents(schedule, node),
{
    let all = schedule.hierarchy.neighbors_directed(node, Direction::Incoming);
    let mut parents: Vec<NodeId> = Vec::new();
    for i in 0..all.len()
        invariant
            parents@ == only_plain_sets(schedule, all@.take(i as int)),
    {
        assert(all@.take(i + 1).drop_last() =~= all@.take(i as int));
        if schedule.is_non_system_set(all[i]) {
            parents.push(all[i]);
        }
    }
    assert(all@.take(all@.len() as int) =~= all@);
    parents
}

/// A list by the number of its items: none, one, or more.
#[derive(Debug, PartialEq, Eq)]
pub enum IterSingleResult<T> {
    Empty,
    Single(T),
    Multiple(Vec<T>),
}

/// Tells a list with no item, a list with one item and a list with more
/// apart, and hands out the one item or the whole list.
pub fn iter_single<T>(items: Vec<T>) -> (r: IterSingleResult<T>)
    ensures
        items@.len() == 0 ==> r is Empty,
        items@.len() == 1 ==> r == IterSingleResult::Single(items@[0]),
        items@.len() >= 2 ==> (r matches IterSingleResult::Multiple(all) && all@ == items@),
{
    let mut items = items;
    if items.len() == 0 {
        IterSingleResult::Empty
    } else if items.len() == 1 {
        match items.pop() {
            Some(item) => IterSingleResult::Single(item),
            None => IterSingleResult::Empty,
        }
    } else {
        IterSingleResult::Multiple(items)
    }
}

/// `node` and all that stands above it in the graph, in the order of a
/// breadth-first search: `node`, the sets that hold it, the sets that hold
/// those, and so on, each once.
pub fn ancestors_of_node(node: NodeId, graph: &DiGraph) -> (found: Vec<NodeId>)
    ensures
        found@ == breadth_first(graph@, node, Direction::Incoming),
{
    breadth_first_search(graph, node, Direction::Incoming)
}

/// Whether `a` is, or stands above, every one of `nodes`.
pub open spec fn is_common_ancestor(edges: Seq<(NodeId, NodeId)>, a: NodeId, nodes: Seq<NodeId>) -> bool {
    forall|i: int| 0 <= i < nodes.len() ==> is_ancestor_or_self(edges, a, #[trigger] nodes[i])
}

/// The first of `candidates` that is, or stands above, every one of `nodes`.
pub open spec fn first_common(
    candidates: Seq<NodeId>,
    edges: Seq<(NodeId, NodeId)>,
    nodes: Seq<NodeId>,
) -> Option<NodeId>
    decreases candidates.len(),
{
    if candidates.len() == 0 {
        None
    } else if is_common_ancestor(edges, candidates[0], nodes) {
        Some(candidates[0])
    } else {
        first_common(candidates.skip(1), edges, nodes)
    }
}

/// The nearest set that is, or stands above, every one of `parents`: of
/// the nodes that a breadth-first search finds upwards from the last of
/// `parents`, the first that is or stands above all the others too. None
/// where there is no such node.
pub open spec fn common_ancestor(edges: Seq<(NodeId, NodeId)>, parents: Seq<NodeId>) -> Option<
    NodeId,
> {
    if parents.len() == 0 {
        None
    } else {
        first_common(breadth_first(edges, parents.last(), Direction::Incoming), edges, parents)
    }
}

proof fn lemma_first_common(
    candidates: Seq<NodeId>,
    edges: Seq<(NodeId, NodeId)>,
    nodes: Seq<NodeId>,
)
    ensures
        first_common(candidates, edges, nodes) is Some ==> candidates.contains(
            first_common(candidates, edges, nodes)->0,
        ) && is_common_ancestor(edges, first_common(candidates, edges, nodes)->0, nodes),
        first_common(candidates, edges, nodes) is None ==> forall|i: int|
            0 <= i < candidates.len() ==> !is_common_ancestor(edges, #[trigger] candidates[i], nodes),
    decreases candidates.len(),
{
    if candidates.len() > 0 && !is_common_ancestor(edges, candidates[0], nodes) {
        let rest = candidates.skip(1);
        lemma_first_common(rest, edges, nodes);
        if first_common(rest, edges, nodes) is Some {
            let a = first_common(rest, edges, nodes)->0;
            let i = choose|i: int| 0 <= i < rest.len() && rest[i] == a;
            assert(candidates[i + 1] == a);
        } else {
            assert forall|i: int| 0 <= i < candidates.len() implies !is_common_ancestor(
                edges,
                #[trigger] candidates[i],
                nodes,
            ) by {
                if i > 0 {
                    assert(rest[i - 1] == candidates[i]);
                }
            }
        }
    } else if candidates.len() > 0 {
        assert(candidates[0] == candidates[0]);
    }
}

/// What is found as common ancestor is, or stands above, every one of the
/// parents; and none is found only where no node is or stands above them
/// all.
pub proof fn lemma_common_ancestor(edges: Seq<(NodeId, NodeId)>, parents: Seq<NodeId>)
    requires
        parents.len() > 0,
    ensures
        common_ancestor(edges, parents) is Some ==> is_common_ancestor(
            edges,
            common_ancestor(edges, parents)->0,
            parents,
        ),
        common_ancestor(edges, parents) is None <==> forall|a: NodeId|
            !is_common_ancestor(edges, a, parents),
{
    let candidates = breadth_first(edges, parents.last(), Direction::Incoming);
    lemma_first_common(candidates, edges, parents);
    lemma_breadth_first_finds(edges, parents.last(), Direction::Incoming);
    if common_ancestor(edges, parents) is None {
        assert forall|a: NodeId| !is_common_ancestor(edges, a, parents) by {
            if is_common_ancestor(edges, a, parents) {
                assert(is_ancestor_or_self(edges, a, parents[parents.len() - 1]));
                assert(candidates.contains(a));
                let i = choose|i: int| 0 <= i < candidates.len() && candidates[i] == a;
                assert(!is_common_ancestor(edges, candidates[i], parents));
            }
        }
    }
}

/// Where exactly one node is or stands above every one of the parents,
/// that node is found.
pub proof fn lemma_only_common_ancestor(
    edges: Seq<(NodeId, NodeId)>,
    parents: Seq<NodeId>,
    only: NodeId,
)
    requires
        parents.len() > 0,
        is_common_ancestor(edges, only, parents),
        forall|a: NodeId| is_common_ancestor(edges, a, parents) ==> a == only,
    ensures
        common_ancestor(edges, parents) == Some(only),
{
    lemma_common_ancestor(edges, parents);
}

proof fn lemma_none_common(
    candidates: Seq<NodeId>,
    edges: Seq<(NodeId, NodeId)>,
    nodes: Seq<NodeId>,
)
    requires
        forall|i: int|
            0 <= i < candidates.len() ==> !is_common_ancestor(edges, #[trigger] candidates[i], nodes),
    ensures
        first_common(candidates, edges, nodes) is None,
    decreases candidates.len(),
{
    if candidates.len() > 0 {
        assert(!is_common_ancestor(edges, candidates[0], nodes));
        let rest = candidates.skip(1);
        assert forall|i: int| 0 <= i < rest.len() implies !is_common_ancestor(
            edges,
            #[trigger] rest[i],
            nodes,
        ) by {
            assert(rest[i] == candidates[i + 1]);
        }
        lemma_none_common(rest, edges, nodes);
    }
}

proof fn lemma_first_common_of_start(
    candidates: Seq<NodeId>,
    count: int,
    edges: Seq<(NodeId, NodeId)>,
    nodes: Seq<NodeId>,
)
    requires
        0 <= count <= candidates.len(),
        first_common(candidates.take(count), edges, nodes) is Some,
    ensures
        first_common(candidates, edges, nodes) == first_common(
            candidates.take(count),
            edges,
            nodes,
        ),
    decreases count,
{
    let start = candidates.take(count);
    if count > 0 {
        assert(start[0] == candidates[0]);
        if !is_common_ancestor(edges, candidates[0], nodes) {
            assert(start.skip(1) =~= candidates.skip(1).take(count - 1));
            lemma_first_common_of_start(candidates.skip(1), count - 1, edges, nodes);
        }
    }
}

proof fn lemma_search_start(
    edges: Seq<(NodeId, NodeId)>,
    dir: Direction,
    seen: Seq<NodeId>,
    next: nat,
)
    ensures
        search_from(edges, dir, seen, next).len() >= seen.len(),
        search_from(edges, dir, seen, next).take(seen.len() as int) == seen,
    decreases edges.len() + 1 - next,
{
    if next >= seen.len() || next > edges.len() {
        assert(seen.take(seen.len() as int) =~= seen);
    } else {
        let more = with_new(seen, neighbors(edges, seen[next as int], dir));
        lemma_with_new_start(seen, neighbors(edges, seen[next as int], dir));
        lemma_search_start(edges, dir, more, next + 1);
        let all = search_from(edges, dir, more, next + 1);
        assert(all.take(seen.len() as int) =~= all.take(more.len() as int).take(seen.len() as int));
    }
}

proof fn lemma_first_of_parents(
    edges: Seq<(NodeId, NodeId)>,
    nodes: Seq<NodeId>,
    last: NodeId,
    ups: Seq<NodeId>,
    k: int,
    count: int,
)
    requires
        !is_common_ancestor(edges, last, nodes),
        0 <= k < ups.len(),
        is_common_ancestor(edges, ups[k], nodes),
        forall|j: int| 0 <= j < k ==> !is_common_ancestor(edges, #[trigger] ups[j], nodes),
        0 <= count <= ups.len(),
    ensures
        count <= k ==> forall|i: int|
            0 <= i < with_new(seq![last], ups.take(count)).len()
                ==> !is_common_ancestor(
                edges,
                #[trigger] with_new(seq![last], ups.take(count))[i],
                nodes,
            ),
        count > k ==> first_common(
            with_new(seq![last], ups.take(count)),
            edges,
            nodes,
        ) == Some(ups[k]),
    decreases count,
{
    let here = with_new(seq![last], ups.take(count));
    if count == 0 {
        assert(ups.take(0) =~= Seq::<NodeId>::empty());
        assert(here[0] == last);
    } else {
        lemma_first_of_parents(edges, nodes, last, ups, k, count - 1);
        assert(ups.take(count).drop_last() =~= ups.take(count - 1));
        assert(ups.take(count).last() == ups[count - 1]);
        let before = with_new(seq![last], ups.take(count - 1));
        if count <= k {
            assert forall|i: int| 0 <= i < here.len() implies !is_common_ancestor(
                edges,
                #[trigger] here[i],
                nodes,
            ) by {
                if i < before.len() {
                    assert(here[i] == before[i]);
                } else {
                    assert(here[i] == ups[count - 1]);
                }
            }
        } else if count == k + 1 {
            assert(!before.contains(ups[k])) by {
                if before.contains(ups[k]) {
                    let i = choose|i: int| 0 <= i < before.len() && before[i] == ups[k];
                    assert(!is_common_ancestor(edges, before[i], nodes));
                }
            }
            assert(here == before.push(ups[k]));
            lemma_none_common(before, edges, nodes);
            lemma_first_common(here, edges, nodes);
            if first_common(here, edges, nodes) is None {
                assert(!is_common_ancestor(edges, here[here.len() - 1], nodes));
            } else {
                let found = first_common(here, edges, nodes)->0;
                let i = choose|i: int| 0 <= i < here.len() && here[i] == found;
                if i < before.len() {
                    assert(!is_common_ancestor(edges, before[i], nodes));
                }
            }
        } else {
            if before.contains(ups[count - 1]) {
            } else {
                assert(here.take(before.len() as int) =~= before);
                lemma_first_common_of_start(here, before.len() as int, edges, nodes);
            }
        }
    }
}

/// Where the last of the parents is not above all the others, the common
/// ancestor is the first of the sets that hold it directly which is, as
/// soon as one of them is: a common ancestor one level up is found before
/// any that stands higher.
pub proof fn lemma_common_ancestor_one_level_up(
    edges: Seq<(NodeId, NodeId)>,
    parents: Seq<NodeId>,
    k: int,
)
    requires
        parents.len() > 0,
        !is_common_ancestor(edges, parents.last(), parents),
        0 <= k < neighbors(edges, parents.last(), Direction::Incoming).len(),
        is_common_ancestor(
            edges,
            neighbors(edges, parents.last(), Direction::Incoming)[k],
            parents,
        ),
        forall|j: int|
            0 <= j < k ==> !is_common_ancestor(
                edges,
                #[trigger] neighbors(edges, parents.last(), Direction::Incoming)[j],
                parents,
            ),
    ensures
        common_ancestor(edges, parents) == Some(
            neighbors(edges, parents.last(), Direction::Incoming)[k],
        ),
{
    let dir = Direction::Incoming;
    let last = parents.last();
    let ups = neighbors(edges, last, dir);
    let first = seq![last];
    lemma_neighbors_not_more(edges, last, dir);
    let level = with_new(first, ups);
    assert(breadth_first(edges, last, dir) == search_from(edges, dir, level, 1));
    lemma_first_of_parents(edges, parents, last, ups, k, ups.len() as int);
    assert(ups.take(ups.len() as int) =~= ups);
    lemma_search_start(edges, dir, level, 1);
    lemma_first_common_of_start(
        breadth_first(edges, last, dir),
        level.len() as int,
        edges,
        parents,
    );
}

proof fn lemma_neighbors_not_more(edges: Seq<(NodeId, NodeId)>, node: NodeId, dir: Direction)
    ensures
        neighbors(edges, node, dir).len() <= edges.len(),
    decreases edges.len(),
{
    if edges.len() > 0 {
        lemma_neighbors_not_more(edges.drop_last(), node, dir);
    }
}

proof fn lemma_first_common_place(
    candidates: Seq<NodeId>,
    edges: Seq<(NodeId, NodeId)>,
    nodes: Seq<NodeId>,
    k: int,
) -> (place: int)
    requires
        0 <= k < candidates.len(),
        is_common_ancestor(edges, candidates[k], nodes),
    ensures
        0 <= place <= k,
        first_common(candidates, edges, nodes) == Some(candidates[place]),
    decreases candidates.len(),
{
    if is_common_ancestor(edges, candidates[0], nodes) {
        0
    } else {
        let rest = candidates.skip(1);
        assert(rest[k - 1] == candidates[k]);
        let place = lemma_first_common_place(rest, edges, nodes, k - 1);
        assert(rest[place] == candidates[place + 1]);
        place + 1
    }
}

/// The common ancestor that is found is a nearest one: whatever number of
/// steps upwards from the last of the parents reaches a set that is, or
/// stands above, every parent, reaches the set that is found.
pub proof fn lemma_common_ancestor_nearest(
    edges: Seq<(NodeId, NodeId)>,
    parents: Seq<NodeId>,
    other: NodeId,
    steps: nat,
)
    requires
        parents.len() > 0,
        is_common_ancestor(edges, other, parents),
        within(edges, parents.last(), other, Direction::Incoming, steps),
    ensures
        common_ancestor(edges, parents) is Some,
        within(
            edges,
            parents.last(),
            common_ancestor(edges, parents)->0,
            Direction::Incoming,
            steps,
        ),
{
    let dir = Direction::Incoming;
    let last = parents.last();
    let found = breadth_first(edges, last, dir);
    lemma_breadth_first_finds(edges, last, dir);
    lemma_breadth_first_nearest_first(edges, last, dir);
    assert(is_ancestor_or_self(edges, other, parents[parents.len() - 1]));
    assert(found.contains(other));
    let k = choose|k: int| 0 <= k < found.len() && found[k] == other;
    let place = lemma_first_common_place(found, edges, parents, k);
    if place < k {
        assert(within(edges, last, found[k], dir, steps));
        assert(within(edges, last, found[place], dir, steps));
    }
}

/// The nearest set that is, or stands above, every one of `parents`.
pub fn lowest_common_ancestor(parents: &Vec<NodeId>, hierarchy: &DiGraph) -> (found: Option<NodeId>)
    requires
        parents@.len() > 0,
    ensures
        found == common_ancestor(hierarchy@, parents@),
{
    let last = parents.len() - 1;
    let candidates = ancestors_of_node(parents[last], hierarchy);
    let mut above: Vec<NodeSet> = Vec::new();
    for k in 0..parents.len()
        invariant
            above@.len() == k,
            forall|j: int, a: NodeId|
                0 <= j < k ==> (#[trigger] above@[j]@.contains(a) <==> is_ancestor_or_self(
                    hierarchy@,
                    a,
                    parents@[j],
                )),
    {
        let found = ancestors_of_node(parents[k], hierarchy);
        let mut set = NodeSet::new();
        for i in 0..found.len()
            invariant
                forall|n: NodeId| #[trigger] set@.contains(n) <==> found@.take(i as int).contains(n),
        {
            let ghost before = set@;
            set.insert(found[i]);
            proof {
                assert(found@.take(i + 1) =~= found@.take(i as int).push(found@[i as int]));
                lemma_push_membership(found@.take(i as int), found@[i as int]);
                assert forall|n: NodeId| #[trigger]
                    set@.contains(n) <==> found@.take(i + 1).contains(n) by {
                    assert(before.contains(n) <==> found@.take(i as int).contains(n));
                }
            }
        }
        proof {
            assert(found@.take(found@.len() as int) =~= found@);
            lemma_breadth_first_finds(hierarchy@, parents@[k as int], Direction::Incoming);
        }
        above.push(set);
    }
    let mut c: usize = 0;
    assert(candidates@.skip(0) =~= candidates@);
    while c < candidates.len()
        invariant
            c <= candidates.len(),
            parents@.len() > 0,
            candidates@ == breadth_first(hierarchy@, parents@.last(), Direction::Incoming),
            above@.len() == parents@.len(),
            forall|j: int, a: NodeId|
                0 <= j < above@.len() ==> (#[trigger] above@[j]@.contains(a)
                    <==> is_ancestor_or_self(hierarchy@, a, parents@[j])),
            first_common(candidates@, hierarchy@, parents@) == first_common(
                candidates@.skip(c as int),
                hierarchy@,
                parents@,
            ),
        decreases candidates.len() - c,
    {
        let candidate = candidates[c];
        let mut all = true;
        let mut k: usize = 0;
        while k < above.len()
            invariant
                k <= above.len(),
                above@.len() == parents@.len(),
                forall|j: int, a: NodeId|
                    0 <= j < above@.len() ==> (#[trigger] above@[j]@.contains(a)
                        <==> is_ancestor_or_self(hierarchy@, a, parents@[j])),
                all <==> forall|j: int|
                    0 <= j < k ==> is_ancestor_or_self(hierarchy@, candidate, #[trigger] parents@[j]),
            decreases above.len() - k,
        {
            if !above[k].contains(candidate) {
                all = false;
                assert(!is_ancestor_or_self(hierarchy@, candidate, parents@[k as int]));
            }
            k += 1;
        }
        assert(candidates@.skip(c as int)[0] == candidate);
        assert(all == is_common_ancestor(hierarchy@, candidate, parents@));
        if all {
            return Some(candidate);
        }
        assert(candidates@.skip(c as int).skip(1) =~= candidates@.skip(c + 1));
        c += 1;
    }
    None
}

/// The place of a node in the drawing.
#[derive(Clone, Copy, Debug, PartialEq, Eq)]
pub enum Placement {
    /// On the top level: no set holds the node.
    Free,
    /// Inside the one set that holds the node.
    Within(NodeId),
    /// Several sets hold the node: inside their common ancestor or, where
    /// they have none, on the top level.
    Shared(Option<NodeId>),
}

/// The place of `node` in the drawing.
pub open spec fn placement(schedule: &Schedule, node: NodeId) -> Placement {
    let parents = plain_parents(schedule, node);
    if parents.len() == 0 {
        Placement::Free
    } else if parents.len() == 1 {
        Placement::Within(parents[0])
    } else {
        Placement::Shared(common_ancestor(schedule.hierarchy@, parents))
    }
}

/// Those of `nodes` that are drawn at `at`, in their order.
pub open spec fn placed(
    schedule: &Schedule,
    included: Set<NodeId>,
    nodes: Seq<NodeId>,
    at: Placement,
) -> Seq<NodeId>
    decreases nodes.len(),
{
    if nodes.len() == 0 {
        Seq::empty()
    } else {
        let rest = placed(schedule, included, nodes.drop_last(), at);
        let node = nodes.last();
        if included.contains(node) && schedule.is_drawn(node) && placement(schedule, node) == at {
            rest.push(node)
        } else {
            rest
        }
    }
}

/// The systems of the table, in its order.
pub open spec fn system_nodes(schedule: &Schedule) -> Seq<NodeId> {
    Seq::new(schedule.systems@.len(), |i: int| NodeId::System(i as usize))
}

/// The sets of the table, in its order.
pub open spec fn set_nodes(schedule: &Schedule) -> Seq<NodeId> {
    Seq::new(schedule.sets@.len(), |i: int| NodeId::SystemSet(i as usize))
}

/// The nodes of one kind, sorted by their place in the drawing.
pub struct Buckets {
    /// The nodes on the top level that no set holds.
    pub freestanding: Vec<NodeId>,
    /// Under each set, the nodes that it alone holds.
    pub in_single_set: NodeMap,
    /// The nodes that several sets without a common ancestor hold.
    pub in_multiple_sets_top: Vec<NodeId>,
    /// Under each set, the nodes that several sets hold of which it is the
    /// common ancestor.
    pub in_multiple_sets: NodeMap,
}

impl Buckets {
    /// The nodes that are drawn at `at`.
    pub open spec fn at(&self, at: Placement) -> Seq<NodeId> {
        match at {
            Placement::Free => self.freestanding@,
            Placement::Within(set) => bucket(self.in_single_set@, set),
            Placement::Shared(None) => self.in_multiple_sets_top@,
            Placement::Shared(Some(set)) => bucket(self.in_multiple_sets@, set),
        }
    }

    /// Whether the buckets hold those of `nodes` that are drawn, each at
    /// its place.
    pub open spec fn holds(
        &self,
        schedule: &Schedule,
        included: Set<NodeId>,
        nodes: Seq<NodeId>,
    ) -> bool {
        forall|at: Placement| #[trigger] self.at(at) == placed(schedule, included, nodes, at)
    }
}

/// What `placed` holds: the nodes of the list that are drawn and have that
/// place, each as often as the list has it.
pub proof fn lemma_placed_contains(
    schedule: &Schedule,
    included: Set<NodeId>,
    nodes: Seq<NodeId>,
    at: Placement,
    node: NodeId,
)
    ensures
        placed(schedule, included, nodes, at).contains(node) <==> (nodes.contains(node)
            && included.contains(node) && schedule.is_drawn(node) && placement(schedule, node)
            == at),
        nodes.no_duplicates() ==> placed(schedule, included, nodes, at).no_duplicates(),
    decreases nodes.len(),
{
    if nodes.len() > 0 {
        let rest = nodes.drop_last();
        let last = nodes.last();
        lemma_placed_contains(schedule, included, rest, at, node);
        lemma_placed_contains(schedule, included, rest, at, last);
        assert(nodes =~= rest.push(last));
        lemma_push_membership(rest, last);
        lemma_push_membership(placed(schedule, included, rest, at), last);
        if nodes.no_duplicates() {
            assert(rest.no_duplicates());
            assert(!rest.contains(last)) by {
                if rest.contains(last) {
                    let j = choose|j: int| 0 <= j < rest.len() && rest[j] == last;
                    assert(nodes[j] == nodes[nodes.len() - 1]);
                }
            }
        }
    }
}

/// Every node that is drawn stands in exactly one bucket, once, and the
/// buckets hold nothing else: a node of `nodes`, a list without
/// repetitions, is in the bucket of a place if and only if it is included,
/// is drawn at all, and has that place.
pub proof fn lemma_classification_complete(
    schedule: &Schedule,
    included: Set<NodeId>,
    nodes: Seq<NodeId>,
    buckets: &Buckets,
    node: NodeId,
)
    requires
        buckets.holds(schedule, included, nodes),
        nodes.no_duplicates(),
    ensures
        forall|at: Placement| #[trigger]
            buckets.at(at).contains(node) <==> (nodes.contains(node) && included.contains(node)
                && schedule.is_drawn(node) && placement(schedule, node) == at),
        forall|at: Placement| #[trigger] buckets.at(at).no_duplicates(),
        forall|a: Placement, b: Placement|
            buckets.at(a).contains(node) && buckets.at(b).contains(node) ==> a == b,
{
    assert forall|at: Placement| #[trigger]
        buckets.at(at).contains(node) <==> (nodes.contains(node) && included.contains(node)
            && schedule.is_drawn(node) && placement(schedule, node) == at) by {
        lemma_placed_contains(schedule, included, nodes, at, node);
    }
    assert forall|at: Placement| #[trigger] buckets.at(at).no_duplicates() by {
        lemma_placed_contains(schedule, included, nodes, at, node);
    }
    assert forall|a: Placement, b: Placement|
        buckets.at(a).contains(node) && buckets.at(b).contains(node) implies a == b by {
        lemma_placed_contains(schedule, included, nodes, a, node);
        lemma_placed_contains(schedule, included, nodes, b, node);
    }
}

/// The place of `node` in the drawing.
pub fn place_of(schedule: &Schedule, node: NodeId) -> (at: Placement)
    ensures
        at == placement(schedule, node),
{
    let parents = hierarchy_parents(node, schedule);
    match iter_single(parents) {
        IterSingleResult::Empty => Placement::Free,
        IterSingleResult::Single(parent) => Placement::Within(parent),
        IterSingleResult::Multiple(parents) => Placement::Shared(
            lowest_common_ancestor(&parents, &schedule.hierarchy),
        ),
    }
}

/// Sorts those of `nodes` that are drawn by their place in the drawing.
pub fn sort_into_buckets(schedule: &Schedule, included: &NodeSet, nodes: &Vec<NodeId>) -> (buckets:
    Buckets)
    ensures
        buckets.holds(schedule, included@, nodes@),
{
    let mut buckets = Buckets {
        freestanding: Vec::new(),
        in_single_set: NodeMap::new(),
        in_multiple_sets_top: Vec::new(),
        in_multiple_sets: NodeMap::new(),
    };
    for i in 0..nodes.len()
        invariant
            buckets.holds(schedule, included@, nodes@.take(i as int)),
    {
        let node = nodes[i];
        let ghost before = buckets;
        let ghost done = nodes@.take(i as int);
        assert(nodes@.take(i + 1).drop_last() =~= done);
        let drawn = match node {
            NodeId::System(_) => schedule.contains_node(node),
            NodeId::SystemSet(_) => schedule.is_non_system_set(node),
        };
        if included.contains(node) && drawn {
            let at = place_of(schedule, node);
            match at {
                Placement::Free => {
                    buckets.freestanding.push(node);
                },
                Placement::Within(set) => {
                    buckets.in_single_set.push(set, node);
                },
                Placement::Shared(None) => {
                    buckets.in_multiple_sets_top.push(node);
                },
                Placement::Shared(Some(set)) => {
                    buckets.in_multiple_sets.push(set, node);
                },
            }
            assert forall|other: Placement| #[trigger]
                buckets.at(other) == placed(schedule, included@, nodes@.take(i + 1), other) by {
                assert(before.at(other) == placed(schedule, included@, done, other));
                if other == at {
                    assert(buckets.at(other) =~= before.at(other).push(node));
                } else {
                    assert(buckets.at(other) =~= before.at(other));
                }
            }
        } else {
            assert forall|other: Placement| #[trigger]
                buckets.at(other) == placed(schedule, included@, nodes@.take(i + 1), other) by {
                assert(before.at(other) == placed(schedule, included@, done, other));
            }
        }
    }
    assert(nodes@.take(nodes@.len() as int) =~= nodes@);
    buckets
}

/// The systems and the sets of a schedule, each kind sorted by the place of
/// its nodes in the drawing.
pub struct Classification {
    pub systems: Buckets,
    pub sets: Buckets,
}

/// Sorts the nodes that are drawn by their place in the drawing.
pub fn classify(schedule: &Schedule, included: &NodeSet) -> (sorted: Classification)
    ensures
        sorted.systems.holds(schedule, included@, system_nodes(schedule)),
        sorted.sets.holds(schedule, included@, set_nodes(schedule)),
{
    let mut systems: Vec<NodeId> = Vec::new();
    for i in 0..schedule.systems.len()
        invariant
            systems@ == system_nodes(schedule).take(i as int),
    {
        systems.push(NodeId::System(i));
        assert(system_nodes(schedule).take(i + 1) =~= system_nodes(schedule).take(i as int).push(
            NodeId::System(i),
        ));
    }
    assert(system_nodes(schedule).take(schedule.systems@.len() as int) =~= system_nodes(schedule));
    let mut sets: Vec<NodeId> = Vec::new();
    for i in 0..schedule.sets.len()
        invariant
            sets@ == set_nodes(schedule).take(i as int),
    {
        sets.push(NodeId::SystemSet(i));
        assert(set_nodes(schedule).take(i + 1) =~= set_nodes(schedule).take(i as int).push(
            NodeId::SystemSet(i),
        ));
    }
    assert(set_nodes(schedule).take(schedule.sets@.len() as int) =~= set_nodes(schedule));
    Classification {
        systems: sort_into_buckets(schedule, included, &systems),
        sets: sort_into_buckets(schedule, included, &sets),
    }
}

} // verus!
