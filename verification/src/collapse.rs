//! Sets with at most one system and no set inside, which are drawn as one
//! node in place of a cluster.

use crate::classify::{
    Buckets, lemma_placed_contains, placed, Placement, placement, set_nodes, system_nodes,
};
use crate::collections::{bucket, NodeMap, NodeSet};
use crate::graph::NodeId;
use crate::inclusion::is_included;
use crate::schedule::Schedule;
use crate::settings::Settings;
use vstd::prelude::*;

verus! {

/// The nodes that are drawn.
pub open spec fn drawn_nodes(schedule: &Schedule, settings: &Settings) -> Set<NodeId> {
    Set::new(|node: NodeId| is_included(schedule, settings, node))
}

/// The systems that are drawn at `at`, in the order of their table.
pub open spec fn systems_at(schedule: &Schedule, settings: &Settings, at: Placement) -> Seq<NodeId> {
    placed(schedule, drawn_nodes(schedule, settings), system_nodes(schedule), at)
}

/// The sets that are drawn at `at`, in the order of their table.
pub open spec fn sets_at(schedule: &Schedule, settings: &Settings, at: Placement) -> Seq<NodeId> {
    placed(schedule, drawn_nodes(schedule, settings), set_nodes(schedule), at)
}

/// Whether `set` is drawn as one node: collapsing is switched on, the set
/// is drawn, it holds no set, and of systems at most one, which no other
/// set holds.
pub open spec fn is_collapsed(schedule: &Schedule, settings: &Settings, set: NodeId) -> bool {
    &&& settings.collapse_single_system_sets
    &&& schedule.is_plain_set(set)
    &&& is_included(schedule, settings, set)
    &&& systems_at(schedule, settings, Placement::Within(set)).len() <= 1
    &&& systems_at(schedule, settings, Placement::Shared(Some(set))).len() == 0
    &&& sets_at(schedule, settings, Placement::Within(set)).len() == 0
    &&& sets_at(schedule, settings, Placement::Shared(Some(set))).len() == 0
}

/// The set into whose node the system `node` has gone, if it has.
pub open spec fn collapsed_into(schedule: &Schedule, settings: &Settings, node: NodeId) -> Option<
    NodeId,
> {
    match placement(schedule, node) {
        Placement::Within(set) => if node is System && schedule.has_node(node) && is_included(
            schedule,
            settings,
            node,
        ) && is_collapsed(schedule, settings, set) {
            Some(set)
        } else {
            None
        },
        _ => None,
    }
}

/// The sets that are drawn as one node, and for each system that has gone
/// into such a node the set, as a list of one.
pub struct Collapsed {
    pub sets: NodeSet,
    pub children: NodeMap,
}

impl Collapsed {
    /// Whether these are the collapsed sets of the schedule and their
    /// systems.
    pub open spec fn holds(&self, schedule: &Schedule, settings: &Settings) -> bool {
        &&& forall|set: NodeId| #[trigger]
            self.sets@.contains(set) <==> is_collapsed(schedule, settings, set)
        &&& forall|node: NodeId| #[trigger]
            bucket(self.children@, node) == match collapsed_into(schedule, settings, node) {
                Some(set) => seq![set],
                None => Seq::empty(),
            }
    }
}

/// The systems and sets of a bucket are nodes that are drawn, of the kind
/// of the bucket, and have the place of the bucket.
pub proof fn lemma_bucket_members(schedule: &Schedule, settings: &Settings, at: Placement, i: int)
    ensures
        0 <= i < systems_at(schedule, settings, at).len() ==> {
            let node = systems_at(schedule, settings, at)[i];
            &&& node is System
            &&& schedule.has_node(node)
            &&& is_included(schedule, settings, node)
            &&& placement(schedule, node) == at
        },
        0 <= i < sets_at(schedule, settings, at).len() ==> {
            let node = sets_at(schedule, settings, at)[i];
            &&& schedule.is_plain_set(node)
            &&& is_included(schedule, settings, node)
            &&& placement(schedule, node) == at
        },
{
    let included = drawn_nodes(schedule, settings);
    if 0 <= i < systems_at(schedule, settings, at).len() {
        let node = systems_at(schedule, settings, at)[i];
        lemma_placed_contains(schedule, included, system_nodes(schedule), at, node);
        assert(systems_at(schedule, settings, at).contains(node));
        let j = choose|j: int|
            0 <= j < system_nodes(schedule).len() && system_nodes(schedule)[j] == node;
    }
    if 0 <= i < sets_at(schedule, settings, at).len() {
        let node = sets_at(schedule, settings, at)[i];
        lemma_placed_contains(schedule, included, set_nodes(schedule), at, node);
        assert(sets_at(schedule, settings, at).contains(node));
        let j = choose|j: int| 0 <= j < set_nodes(schedule).len() && set_nodes(schedule)[j] == node;
    }
}

/// A system that is drawn stands in the bucket of its place.
pub proof fn lemma_system_in_bucket(schedule: &Schedule, settings: &Settings, node: NodeId)
    requires
        node is System,
        schedule.has_node(node),
        is_included(schedule, settings, node),
    ensures
        systems_at(schedule, settings, placement(schedule, node)).contains(node),
{
    let nodes = system_nodes(schedule);
    assert(nodes[node.index() as int] == node);
    lemma_placed_contains(
        schedule,
        drawn_nodes(schedule, settings),
        nodes,
        placement(schedule, node),
        node,
    );
}

fn length_at(map: &NodeMap, set: NodeId) -> (n: usize)
    ensures
        n == bucket(map@, set).len(),
{
    match map.get(set) {
        Some(list) => list.len(),
        None => 0,
    }
}

/// Finds the sets that are drawn as one node, and the systems that go into
/// their nodes.
pub fn collapse(
    schedule: &Schedule,
    settings: &Settings,
    included: &NodeSet,
    systems: &Buckets,
    sets: &Buckets,
) -> (collapsed: Collapsed)
    requires
        included@ == drawn_nodes(schedule, settings),
        systems.holds(schedule, included@, system_nodes(schedule)),
        sets.holds(schedule, included@, set_nodes(schedule)),
    ensures
        collapsed.holds(schedule, settings),
{
    let mut collapsed = Collapsed { sets: NodeSet::new(), children: NodeMap::new() };
    proof {
        assert forall|at: Placement|
            systems.at(at) == systems_at(schedule, settings, at) && sets.at(at) == sets_at(
                schedule,
                settings,
                at,
            ) by {
            assert(systems.at(at) == placed(schedule, included@, system_nodes(schedule), at));
            assert(sets.at(at) == placed(schedule, included@, set_nodes(schedule), at));
        }
    }
    for i in 0..schedule.sets.len()
        invariant
            included@ == drawn_nodes(schedule, settings),
            forall|at: Placement|
                #![trigger systems.at(at)]
                #![trigger sets.at(at)]
                systems.at(at) == systems_at(schedule, settings, at) && sets.at(at) == sets_at(
                    schedule,
                    settings,
                    at,
                ),
            forall|set: NodeId| #[trigger]
                collapsed.sets@.contains(set) <==> (is_collapsed(schedule, settings, set)
                    && set.index() < i),
            forall|node: NodeId| #[trigger]
                bucket(collapsed.children@, node) == match collapsed_into(
                    schedule,
                    settings,
                    node,
                ) {
                    Some(set) => if set.index() < i {
                        seq![set]
                    } else {
                        Seq::empty()
                    },
                    None => Seq::empty(),
                },
    {
        let set = NodeId::SystemSet(i);
        let ghost before = collapsed;
        let ghost within = Placement::Within(set);
        let ghost shared = Placement::Shared(Some(set));
        assert(systems.at(within) == systems_at(schedule, settings, within));
        assert(systems.at(shared) == systems_at(schedule, settings, shared));
        assert(sets.at(within) == sets_at(schedule, settings, within));
        assert(sets.at(shared) == sets_at(schedule, settings, shared));
        let mut child: Option<NodeId> = None;
        let mut is: bool = false;
        if settings.collapse_single_system_sets && schedule.is_non_system_set(set)
            && included.contains(set) {
            let few = match systems.in_single_set.get(set) {
                Some(list) => {
                    if list.len() == 1 {
                        child = Some(list[0]);
                    }
                    list.len() <= 1
                },
                None => true,
            };
            is = few && length_at(&systems.in_multiple_sets, set) == 0 && length_at(
                &sets.in_single_set,
                set,
            ) == 0 && length_at(&sets.in_multiple_sets, set) == 0;
        }
        assert(is == is_collapsed(schedule, settings, set));
        if is {
            collapsed.sets.insert(set);
            match child {
                Some(system) => {
                    proof {
                        lemma_bucket_members(schedule, settings, within, 0);
                        assert(collapsed_into(schedule, settings, system) == Some(set));
                        assert(bucket(before.children@, system) =~= Seq::<NodeId>::empty());
                    }
                    collapsed.children.push(system, set);
                    assert(bucket(collapsed.children@, system) =~= seq![set]);
                },
                None => {},
            }
        }
        proof {
            assert forall|other: NodeId| #[trigger]
                collapsed.sets@.contains(other) <==> (is_collapsed(schedule, settings, other)
                    && other.index() < i + 1) by {
                assert(before.sets@.contains(other) <==> (is_collapsed(schedule, settings, other)
                    && other.index() < i));
                if is_collapsed(schedule, settings, other) && other.index() == i {
                    assert(other == set);
                }
            }
            assert forall|node: NodeId| #[trigger]
                bucket(collapsed.children@, node) == match collapsed_into(
                    schedule,
                    settings,
                    node,
                ) {
                    Some(s) => if s.index() < i + 1 {
                        seq![s]
                    } else {
                        Seq::empty()
                    },
                    None => Seq::empty(),
                } by {
                let old_bucket = bucket(before.children@, node);
                assert(old_bucket == match collapsed_into(schedule, settings, node) {
                    Some(s) => if s.index() < i {
                        seq![s]
                    } else {
                        Seq::empty()
                    },
                    None => Seq::empty(),
                });
                match collapsed_into(schedule, settings, node) {
                    Some(s) => {
                        if s.index() == i {
                            assert(s == set);
                            lemma_system_in_bucket(schedule, settings, node);
                            let list = systems_at(schedule, settings, within);
                            let j = choose|j: int| 0 <= j < list.len() && list[j] == node;
                            assert(j == 0);
                            assert(child == Some(node));
                        } else {
                            if is && child is Some {
                                lemma_bucket_members(schedule, settings, within, 0);
                                assert(child->0 != node);
                            }
                        }
                    },
                    None => {
                        if is && child is Some {
                            lemma_bucket_members(schedule, settings, within, 0);
                            assert(collapsed_into(schedule, settings, child->0) == Some(set));
                        }
                    },
                }
            }
        }
    }
    proof {
        assert forall|set: NodeId| #[trigger]
            collapsed.sets@.contains(set) <==> is_collapsed(schedule, settings, set) by {
            assert(collapsed.sets@.contains(set) <==> (is_collapsed(schedule, settings, set)
                && set.index() < schedule.sets@.len()));
        }
        assert forall|node: NodeId| #[trigger]
            bucket(collapsed.children@, node) == match collapsed_into(schedule, settings, node) {
                Some(set) => seq![set],
                None => Seq::empty(),
            } by {
            assert(bucket(collapsed.children@, node) == match collapsed_into(
                schedule,
                settings,
                node,
            ) {
                Some(set) => if set.index() < schedule.sets@.len() {
                    seq![set]
                } else {
                    Seq::empty()
                },
                None => Seq::empty(),
            });
        }
    }
    collapsed
}

} // verus!
