//! Which nodes of a schedule are drawn when only some systems were asked
//! for.

use crate::collections::NodeSet;
use crate::graph::{
    Direction, is_ancestor_or_self, is_walk, lemma_connects_self, lemma_connects_transitive,
    lemma_neighbors_linked, linked, neighbors, NodeId,
};
use crate::schedule::Schedule;
use crate::search::{breadth_first_search, lemma_breadth_first_finds};
use crate::settings::Settings;
use crate::sequences::lemma_push_membership;
use vstd::prelude::*;

verus! {

/// Whether `node` is a system that the settings ask for: a system of the
/// table that the filter takes, or any system of the table where no filter
/// is set.
pub open spec fn is_of_interest(schedule: &Schedule, settings: &Settings, node: NodeId) -> bool {
    &&& node is System
    &&& schedule.has_node(node)
    &&& match settings.include_system {
        Some(filter) => filter.accepts(
            node.index() as int,
            schedule.systems@[node.index() as int].name@,
        ),
        None => true,
    }
}

/// Whether `node` stands at the other end of a dependency edge of a system
/// that the settings ask for.
pub open spec fn is_next_to_interest(schedule: &Schedule, settings: &Settings, node: NodeId) -> bool {
    exists|i: int|
        0 <= i < schedule.dependency@.len() && ((is_of_interest(
            schedule,
            settings,
            (#[trigger] schedule.dependency@[i]).0,
        ) && schedule.dependency@[i].1 == node) || (is_of_interest(
            schedule,
            settings,
            schedule.dependency@[i].1,
        ) && schedule.dependency@[i].0 == node))
}

/// Whether `node` is a set that is drawn and that no set holds.
pub open spec fn is_root_set(schedule: &Schedule, node: NodeId) -> bool {
    schedule.is_plain_set(node) && neighbors(schedule.hierarchy@, node, Direction::Incoming).len()
        == 0
}

/// Whether `node` is drawn for its own sake: a system that was asked for
/// or a node next to one.
pub open spec fn is_seed(schedule: &Schedule, settings: &Settings, node: NodeId) -> bool {
    is_of_interest(schedule, settings, node) || is_next_to_interest(schedule, settings, node)
}

/// Whether `node` is drawn. Without a filter every node of the tables is.
/// With one: the sets that no set holds; the systems that the filter
/// takes; what stands at the other end of their dependency edges; and all
/// that stands above any of these in the hierarchy.
pub open spec fn is_included(schedule: &Schedule, settings: &Settings, node: NodeId) -> bool {
    if settings.include_system is None {
        schedule.has_node(node)
    } else {
        is_root_set(schedule, node) || exists|seed: NodeId| #[trigger]
            is_seed(schedule, settings, seed) && is_ancestor_or_self(
                schedule.hierarchy@,
                node,
                seed,
            )
    }
}

/// With every node that is drawn, all that stands above it in the
/// hierarchy is drawn as well.
pub proof fn lemma_included_with_ancestors(
    schedule: &Schedule,
    settings: &Settings,
    node: NodeId,
    ancestor: NodeId,
)
    requires
        schedule.wf(),
        is_included(schedule, settings, node),
        is_ancestor_or_self(schedule.hierarchy@, ancestor, node),
    ensures
        is_included(schedule, settings, ancestor),
{
    let edges = schedule.hierarchy@;
    let walk = choose|walk: Seq<NodeId>| #[trigger]
        is_walk(edges, walk, Direction::Incoming) && walk.first() == node && walk.last()
            == ancestor;
    if settings.include_system is None {
        if walk.len() >= 2 {
            let last = walk.len() - 2;
            assert(linked(edges, walk[last], walk[last + 1], Direction::Incoming));
            let i = choose|i: int| 0 <= i < edges.len() && edges[i] == (walk[last + 1], walk[last]);
            assert(schedule.has_node(edges[i].0));
        }
    } else if is_root_set(schedule, node) {
        if walk.len() >= 2 {
            assert(linked(edges, walk[0int], walk[0int + 1], Direction::Incoming));
            lemma_neighbors_linked(edges, node, Direction::Incoming, walk[1]);
            let found = neighbors(edges, node, Direction::Incoming);
            let i = choose|i: int| 0 <= i < found.len() && found[i] == walk[1];
            assert(false);
        }
    } else {
        let seed = choose|seed: NodeId| #[trigger]
            is_seed(schedule, settings, seed) && is_ancestor_or_self(edges, node, seed);
        lemma_connects_transitive(edges, seed, node, ancestor, Direction::Incoming);
    }
}

/// Every system that was asked for is drawn.
pub proof fn lemma_included_holds_interest(schedule: &Schedule, settings: &Settings, node: NodeId)
    requires
        is_of_interest(schedule, settings, node),
    ensures
        is_included(schedule, settings, node),
{
    lemma_connects_self(schedule.hierarchy@, node, Direction::Incoming);
    assert(is_seed(schedule, settings, node));
}

/// Whether `node` is, or stands above, a system that was asked for.
pub open spec fn is_above_interest(schedule: &Schedule, settings: &Settings, node: NodeId) -> bool {
    exists|seed: NodeId| #[trigger]
        is_of_interest(schedule, settings, seed) && is_ancestor_or_self(
            schedule.hierarchy@,
            node,
            seed,
        )
}

/// Whether `node` is, or stands above, one of the first `count` systems
/// that was asked for.
pub open spec fn is_above_first(
    schedule: &Schedule,
    settings: &Settings,
    node: NodeId,
    count: int,
) -> bool {
    exists|k: int|
        0 <= k < count && #[trigger] is_of_interest(schedule, settings, NodeId::System(k as usize))
            && is_ancestor_or_self(schedule.hierarchy@, node, NodeId::System(k as usize))
}

/// Whether `node` is, or stands above, what dependency edge `k` joins to a
/// system that was asked for.
pub open spec fn near_at(schedule: &Schedule, settings: &Settings, node: NodeId, k: int) -> bool {
    let edge = schedule.dependency@[k];
    (is_of_interest(schedule, settings, edge.0) && is_ancestor_or_self(
        schedule.hierarchy@,
        node,
        edge.1,
    )) || (is_of_interest(schedule, settings, edge.1) && is_ancestor_or_self(
        schedule.hierarchy@,
        node,
        edge.0,
    ))
}

/// Whether `node` is near a system that was asked for by one of the first
/// `count` dependency edges.
pub open spec fn near_before(
    schedule: &Schedule,
    settings: &Settings,
    node: NodeId,
    count: int,
) -> bool {
    exists|k: int| 0 <= k < count && #[trigger] near_at(schedule, settings, node, k)
}

proof fn lemma_above_first_step(schedule: &Schedule, settings: &Settings, n: NodeId, i: int)
    requires
        0 <= i < schedule.systems@.len(),
    ensures
        is_above_first(schedule, settings, n, i + 1) <==> (is_above_first(schedule, settings, n, i)
            || (is_of_interest(schedule, settings, NodeId::System(i as usize))
            && is_ancestor_or_self(schedule.hierarchy@, n, NodeId::System(i as usize)))),
{
    if is_above_first(schedule, settings, n, i + 1) {
        let k = choose|k: int|
            0 <= k < i + 1 && #[trigger] is_of_interest(
                schedule,
                settings,
                NodeId::System(k as usize),
            ) && is_ancestor_or_self(schedule.hierarchy@, n, NodeId::System(k as usize));
        if k < i {
            assert(is_above_first(schedule, settings, n, i));
        }
    }
    if is_above_first(schedule, settings, n, i) {
        let k = choose|k: int|
            0 <= k < i && #[trigger] is_of_interest(schedule, settings, NodeId::System(k as usize))
                && is_ancestor_or_self(schedule.hierarchy@, n, NodeId::System(k as usize));
        assert(0 <= k < i + 1 && is_of_interest(schedule, settings, NodeId::System(k as usize)));
    }
    if is_of_interest(schedule, settings, NodeId::System(i as usize)) && is_ancestor_or_self(
        schedule.hierarchy@,
        n,
        NodeId::System(i as usize),
    ) {
        assert(0 <= i < i + 1 && is_of_interest(schedule, settings, NodeId::System(i as usize)));
    }
}

proof fn lemma_above_first_all(schedule: &Schedule, settings: &Settings, n: NodeId)
    ensures
        is_above_first(schedule, settings, n, schedule.systems@.len() as int) <==> is_above_interest(
            schedule,
            settings,
            n,
        ),
{
    let count = schedule.systems@.len() as int;
    if is_above_first(schedule, settings, n, count) {
        let k = choose|k: int|
            0 <= k < count && #[trigger] is_of_interest(
                schedule,
                settings,
                NodeId::System(k as usize),
            ) && is_ancestor_or_self(schedule.hierarchy@, n, NodeId::System(k as usize));
        assert(is_of_interest(schedule, settings, NodeId::System(k as usize)));
    }
    if is_above_interest(schedule, settings, n) {
        let seed = choose|seed: NodeId| #[trigger]
            is_of_interest(schedule, settings, seed) && is_ancestor_or_self(
                schedule.hierarchy@,
                n,
                seed,
            );
        let k = seed.index() as int;
        assert(seed == NodeId::System(k as usize));
        assert(0 <= k < count && is_of_interest(schedule, settings, NodeId::System(k as usize)));
    }
}

proof fn lemma_near_step(schedule: &Schedule, settings: &Settings, n: NodeId, i: int)
    requires
        0 <= i < schedule.dependency@.len(),
    ensures
        near_before(schedule, settings, n, i + 1) <==> (near_before(schedule, settings, n, i)
            || near_at(schedule, settings, n, i)),
{
    if near_before(schedule, settings, n, i + 1) {
        let k = choose|k: int| 0 <= k < i + 1 && #[trigger] near_at(schedule, settings, n, k);
        if k < i {
            assert(near_before(schedule, settings, n, i));
        }
    }
    if near_before(schedule, settings, n, i) {
        let k = choose|k: int| 0 <= k < i && #[trigger] near_at(schedule, settings, n, k);
        assert(0 <= k < i + 1 && near_at(schedule, settings, n, k));
    }
    if near_at(schedule, settings, n, i) {
        assert(0 <= i < i + 1 && near_at(schedule, settings, n, i));
    }
}

proof fn lemma_near(schedule: &Schedule, settings: &Settings, n: NodeId)
    requires
        settings.include_system is Some,
    ensures
        is_included(schedule, settings, n) <==> (is_root_set(schedule, n) || is_above_interest(
            schedule,
            settings,
            n,
        ) || near_before(schedule, settings, n, schedule.dependency@.len() as int)),
{
    let deps = schedule.dependency@;
    if is_included(schedule, settings, n) && !is_root_set(schedule, n) {
        let seed = choose|seed: NodeId| #[trigger]
            is_seed(schedule, settings, seed) && is_ancestor_or_self(schedule.hierarchy@, n, seed);
        if is_of_interest(schedule, settings, seed) {
            assert(is_of_interest(schedule, settings, seed) && is_ancestor_or_self(
                schedule.hierarchy@,
                n,
                seed,
            ));
        } else {
            let i = choose|i: int|
                0 <= i < deps.len() && ((is_of_interest(schedule, settings, (#[trigger] deps[i]).0)
                    && deps[i].1 == seed) || (is_of_interest(schedule, settings, deps[i].1)
                    && deps[i].0 == seed));
            assert(near_at(schedule, settings, n, i));
        }
    }
    if is_above_interest(schedule, settings, n) {
        let s = choose|s: NodeId| #[trigger]
            is_of_interest(schedule, settings, s) && is_ancestor_or_self(
                schedule.hierarchy@,
                n,
                s,
            );
        assert(is_seed(schedule, settings, s));
    }
    if near_before(schedule, settings, n, deps.len() as int) {
        let k = choose|k: int| 0 <= k < deps.len() && #[trigger] near_at(schedule, settings, n, k);
        let edge = deps[k];
        if is_of_interest(schedule, settings, edge.0) && is_ancestor_or_self(
            schedule.hierarchy@,
            n,
            edge.1,
        ) {
            assert(is_next_to_interest(schedule, settings, edge.1));
            assert(is_seed(schedule, settings, edge.1));
        } else {
            assert(is_next_to_interest(schedule, settings, edge.0));
            assert(is_seed(schedule, settings, edge.0));
        }
    }
}

/// Puts `node` and all that stands above it into `included`.
fn include_ancestors(schedule: &Schedule, node: NodeId, included: &mut NodeSet)
    ensures
        forall|n: NodeId| #[trigger]
            final(included)@.contains(n) <==> (old(included)@.contains(n) || is_ancestor_or_self(
                schedule.hierarchy@,
                n,
                node,
            )),
{
    let found = breadth_first_search(&schedule.hierarchy, node, Direction::Incoming);
    for i in 0..found.len()
        invariant
            forall|n: NodeId| #[trigger]
                included@.contains(n) <==> (old(included)@.contains(n) || found@.take(
                    i as int,
                ).contains(n)),
    {
        let ghost before = included@;
        included.insert(found[i]);
        proof {
            assert(found@.take(i + 1) =~= found@.take(i as int).push(found@[i as int]));
            lemma_push_membership(found@.take(i as int), found@[i as int]);
            assert forall|n: NodeId| #[trigger]
                included@.contains(n) <==> (old(included)@.contains(n) || found@.take(
                    i + 1,
                ).contains(n)) by {
                assert(before.contains(n) <==> (old(included)@.contains(n) || found@.take(
                    i as int,
                ).contains(n)));
            }
        }
    }
    proof {
        assert(found@.take(found@.len() as int) =~= found@);
        lemma_breadth_first_finds(schedule.hierarchy@, node, Direction::Incoming);
    }
}

/// Whether the settings ask for the system at place `index`.
fn asks_for(schedule: &Schedule, settings: &Settings, index: usize) -> (r: bool)
    requires
        index < schedule.systems@.len(),
    ensures
        r == is_of_interest(schedule, settings, NodeId::System(index)),
{
    match &settings.include_system {
        Some(filter) => filter.includes(index, schedule.systems[index].name.as_str()),
        None => true,
    }
}

/// Whether the settings ask for `node`.
fn asks_for_node(
    schedule: &Schedule,
    settings: &Settings,
    interest: &Vec<bool>,
    node: NodeId,
) -> (r: bool)
    requires
        interest@.len() == schedule.systems@.len(),
        forall|j: int|
            0 <= j < interest@.len() ==> #[trigger] interest@[j] == is_of_interest(
                schedule,
                settings,
                NodeId::System(j as usize),
            ),
    ensures
        r == is_of_interest(schedule, settings, node),
{
    match node {
        NodeId::System(i) => i < interest.len() && interest[i],
        NodeId::SystemSet(_) => false,
    }
}

/// Every node of the tables.
fn all_nodes(schedule: &Schedule) -> (included: NodeSet)
    ensures
        forall|n: NodeId| #[trigger] included@.contains(n) <==> schedule.has_node(n),
{
    let mut included = NodeSet::new();
    for i in 0..schedule.systems.len()
        invariant
            forall|n: NodeId| #[trigger] included@.contains(n) <==> (n is System && n.index() < i),
    {
        let ghost before = included@;
        included.insert(NodeId::System(i));
        assert forall|n: NodeId| #[trigger] included@.contains(n) <==> (n is System && n.index() < i
            + 1) by {
            assert(before.contains(n) <==> (n is System && n.index() < i));
        }
    }
    for i in 0..schedule.sets.len()
        invariant
            forall|n: NodeId| #[trigger]
                included@.contains(n) <==> ((n is System && schedule.has_node(n)) || (n
                    is SystemSet && n.index() < i)),
    {
        let ghost before = included@;
        included.insert(NodeId::SystemSet(i));
        assert forall|n: NodeId| #[trigger]
            included@.contains(n) <==> ((n is System && schedule.has_node(n)) || (n is SystemSet
                && n.index() < i + 1)) by {
            assert(before.contains(n) <==> ((n is System && schedule.has_node(n)) || (n
                is SystemSet && n.index() < i)));
        }
    }
    included
}

/// The nodes that are drawn.
pub fn included_systems_sets(schedule: &Schedule, settings: &Settings) -> (included: NodeSet)
    ensures
        forall|n: NodeId| #[trigger] included@.contains(n) <==> is_included(schedule, settings, n),
{
    if settings.include_system.is_none() {
        return all_nodes(schedule);
    }
    let mut included = NodeSet::new();
    let mut interest: Vec<bool> = Vec::new();
    for i in 0..schedule.systems.len()
        invariant
            interest@.len() == i,
            forall|j: int|
                0 <= j < i ==> #[trigger] interest@[j] == is_of_interest(
                    schedule,
                    settings,
                    NodeId::System(j as usize),
                ),
    {
        interest.push(asks_for(schedule, settings, i));
    }
    for i in 0..schedule.systems.len()
        invariant
            interest@.len() == schedule.systems@.len(),
            forall|j: int|
                0 <= j < interest@.len() ==> #[trigger] interest@[j] == is_of_interest(
                    schedule,
                    settings,
                    NodeId::System(j as usize),
                ),
            forall|n: NodeId| #[trigger]
                included@.contains(n) <==> is_above_first(schedule, settings, n, i as int),
    {
        let ghost before = included@;
        if interest[i] {
            include_ancestors(schedule, NodeId::System(i), &mut included);
        }
        proof {
            assert forall|n: NodeId| #[trigger]
                included@.contains(n) <==> is_above_first(schedule, settings, n, i + 1) by {
                lemma_above_first_step(schedule, settings, n, i as int);
                assert(before.contains(n) <==> is_above_first(schedule, settings, n, i as int));
            }
        }
    }
    proof {
        assert forall|n: NodeId| #[trigger]
            included@.contains(n) <==> is_above_interest(schedule, settings, n) by {
            lemma_above_first_all(schedule, settings, n);
        }
    }
    for i in 0..schedule.sets.len()
        invariant
            forall|n: NodeId| #[trigger]
                included@.contains(n) <==> ((is_root_set(schedule, n) && n.index() < i)
                    || is_above_interest(schedule, settings, n)),
    {
        let ghost before = included@;
        let node = NodeId::SystemSet(i);
        if schedule.is_non_system_set(node) {
            let parents = schedule.hierarchy.neighbors_directed(node, Direction::Incoming);
            if parents.len() == 0 {
                included.insert(node);
            }
        }
        proof {
            assert forall|n: NodeId| #[trigger]
                included@.contains(n) <==> ((is_root_set(schedule, n) && n.index() < i + 1)
                    || is_above_interest(schedule, settings, n)) by {
                assert(before.contains(n) <==> ((is_root_set(schedule, n) && n.index() < i)
                    || is_above_interest(schedule, settings, n)));
                if is_root_set(schedule, n) && n.index() == i {
                    assert(n == node);
                }
            }
        }
    }
    if settings.ambiguity_enable {
        for i in 0..schedule.conflicts.len()
            invariant
                interest@.len() == schedule.systems@.len(),
                forall|j: int|
                    0 <= j < interest@.len() ==> #[trigger] interest@[j] == is_of_interest(
                        schedule,
                        settings,
                        NodeId::System(j as usize),
                    ),
                forall|n: NodeId| #[trigger]
                    included@.contains(n) <==> (is_root_set(schedule, n) || is_above_interest(
                        schedule,
                        settings,
                        n,
                    )),
        {
            let ghost before = included@;
            let conflict = &schedule.conflicts[i];
            let both = asks_for_node(schedule, settings, &interest, conflict.first)
                && asks_for_node(schedule, settings, &interest, conflict.second);
            if both && (settings.ambiguity_enable_on_world || conflict.components.len() > 0) {
                proof {
                    lemma_connects_self(schedule.hierarchy@, conflict.first, Direction::Incoming);
                    lemma_connects_self(schedule.hierarchy@, conflict.second, Direction::Incoming);
                    assert(is_of_interest(schedule, settings, conflict.first)
                        && is_ancestor_or_self(
                        schedule.hierarchy@,
                        conflict.first,
                        conflict.first,
                    ));
                    assert(is_of_interest(schedule, settings, conflict.second)
                        && is_ancestor_or_self(
                        schedule.hierarchy@,
                        conflict.second,
                        conflict.second,
                    ));
                    assert(before.contains(conflict.first));
                    assert(before.contains(conflict.second));
                }
                included.insert(conflict.first);
                included.insert(conflict.second);
                assert(included@ =~= before);
            }
        }
    }
    let count = schedule.dependency.edge_count();
    assert forall|n: NodeId| !near_before(schedule, settings, n, 0) by {}
    for i in 0..count
        invariant
            count == schedule.dependency@.len(),
            interest@.len() == schedule.systems@.len(),
            forall|j: int|
                0 <= j < interest@.len() ==> #[trigger] interest@[j] == is_of_interest(
                    schedule,
                    settings,
                    NodeId::System(j as usize),
                ),
            forall|n: NodeId| #[trigger]
                included@.contains(n) <==> (is_root_set(schedule, n) || is_above_interest(
                    schedule,
                    settings,
                    n,
                ) || near_before(schedule, settings, n, i as int)),
    {
        let (from, to) = schedule.dependency.edge(i);
        let ghost before = included@;
        if asks_for_node(schedule, settings, &interest, from) {
            include_ancestors(schedule, to, &mut included);
        }
        let ghost middle = included@;
        if asks_for_node(schedule, settings, &interest, to) {
            include_ancestors(schedule, from, &mut included);
        }
        proof {
            assert forall|n: NodeId| #[trigger]
                included@.contains(n) <==> (is_root_set(schedule, n) || is_above_interest(
                    schedule,
                    settings,
                    n,
                ) || near_before(schedule, settings, n, i + 1)) by {
                lemma_near_step(schedule, settings, n, i as int);
                assert(before.contains(n) <==> (is_root_set(schedule, n) || is_above_interest(
                    schedule,
                    settings,
                    n,
                ) || near_before(schedule, settings, n, i as int)));
                assert(middle.contains(n) <==> (before.contains(n) || (is_of_interest(
                    schedule,
                    settings,
                    from,
                ) && is_ancestor_or_self(schedule.hierarchy@, n, to))));
            }
        }
    }
    proof {
        assert forall|n: NodeId| #[trigger]
            included@.contains(n) <==> is_included(schedule, settings, n) by {
            lemma_near(schedule, settings, n);
        }
    }
    included
}

} // verus!
