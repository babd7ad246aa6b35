//! Draws a schedule: sorts its nodes by their place, and writes the
//! clusters, nodes and edges in the DOT language.

use crate::classify::{
    Buckets, classify, hierarchy_parents, lemma_plain_parents, place_of, Placement, placement,
    plain_parents, set_nodes, system_nodes,
};
use crate::collapse::{
    collapse, Collapsed, collapsed_into, drawn_nodes, lemma_bucket_members, sets_at, systems_at,
};
use crate::collections::{bucket, NodeSet};
use crate::dot::{attr_views, DotGraph, html_escape, nested_block};
use crate::graph::{DiGraph, neighbors, NodeId};
use crate::inclusion::included_systems_sets;
use crate::layout;
use crate::names::display_short_name;
use crate::reduction::{is_acyclic, is_reduction_of, needed_edges, stands_at, transitive_reduction};
use crate::schedule::{Conflict, Schedule};
use crate::settings::Settings;
use crate::text::{push_char, push_decimal};
use vstd::prelude::*;

verus! {

/// The identifier of the node that is drawn for `node`.
pub fn node_index_name(node: NodeId) -> (name: String)
    ensures
        name@ == layout::node_index_name(node),
{
    let mut name = String::new();
    match node {
        NodeId::System(i) => {
            name.append("node_System(");
            push_decimal(&mut name, i);
        },
        NodeId::SystemSet(i) => {
            name.append("node_Set(");
            push_decimal(&mut name, i);
        },
    }
    push_char(&mut name, ')');
    assert(name@ =~= layout::node_index_name(node));
    name
}

/// The identifier of the node inside the cluster of a set at which edges
/// to the set end.
pub fn marker_name(node: NodeId) -> (name: String)
    ensures
        name@ == layout::marker_name(node),
{
    let mut name = String::new();
    name.append("set_marker_");
    name.append(node_index_name(node).as_str());
    assert(name@ =~= layout::marker_name(node));
    name
}

/// The name of the cluster of a set.
pub fn set_cluster_name(node: NodeId) -> (name: String)
    ensures
        name@ == layout::set_cluster_name(node),
{
    let mut name = String::new();
    name.append("cluster");
    name.append(node_index_name(node).as_str());
    assert(name@ =~= layout::set_cluster_name(node));
    name
}

/// All that is needed to draw a schedule: the schedule and the settings,
/// the dependency edges that are drawn, the nodes that are drawn, sorted by
/// their place, and the sets that are drawn as one node.
pub struct ScheduleGraphContext<'a> {
    pub settings: &'a Settings,
    pub schedule: &'a Schedule,
    pub dependency: &'a DiGraph,
    pub included_systems_sets: NodeSet,
    pub systems: Buckets,
    pub sets: Buckets,
    pub collapsed: Collapsed,
}

impl<'a> ScheduleGraphContext<'a> {
    /// Whether the parts fit each other: the schedule is well formed, the
    /// edges that are drawn join nodes of its tables, and what was derived
    /// from schedule and settings is what they determine.
    pub open spec fn wf(&self) -> bool {
        &&& self.schedule.wf()
        &&& self.settings.style.color_edge@.len() > 0
        &&& forall|i: int|
            0 <= i < self.dependency@.len() ==> self.schedule.has_node(
                (#[trigger] self.dependency@[i]).0,
            ) && self.schedule.has_node(self.dependency@[i].1)
        &&& self.included_systems_sets@ == drawn_nodes(self.schedule, self.settings)
        &&& forall|at: Placement|
            #![trigger self.systems.at(at)]
            #![trigger self.sets.at(at)]
            self.systems.at(at) == systems_at(self.schedule, self.settings, at) && self.sets.at(at)
                == sets_at(self.schedule, self.settings, at)
        &&& self.collapsed.holds(self.schedule, self.settings)
    }

    /// Puts together what is needed to draw `schedule` with the given
    /// dependency edges.
    pub fn new(schedule: &'a Schedule, settings: &'a Settings, dependency: &'a DiGraph) -> (context:
        Self)
        requires
            schedule.wf(),
            settings.style.color_edge@.len() > 0,
            forall|i: int|
                0 <= i < dependency@.len() ==> schedule.has_node((#[trigger] dependency@[i]).0)
                    && schedule.has_node(dependency@[i].1),
        ensures
            context.wf(),
            context.schedule == schedule,
            context.settings == settings,
            context.dependency == dependency,
    {
        let included = included_systems_sets(schedule, settings);
        assert(included@ =~= drawn_nodes(schedule, settings));
        let sorted = classify(schedule, &included);
        let collapsed = collapse(schedule, settings, &included, &sorted.systems, &sorted.sets);
        proof {
            assert forall|at: Placement|
                #![trigger sorted.systems.at(at)]
                #![trigger sorted.sets.at(at)]
                sorted.systems.at(at) == systems_at(schedule, settings, at) && sorted.sets.at(at)
                    == sets_at(schedule, settings, at) by {}
        }
        ScheduleGraphContext {
            settings,
            schedule,
            dependency,
            included_systems_sets: included,
            systems: sorted.systems,
            sets: sorted.sets,
            collapsed,
        }
    }

    /// Whether `node` is a set that is drawn.
    pub fn is_non_system_set(&self, node: NodeId) -> (r: bool)
        ensures
            r == self.schedule.is_plain_set(node),
    {
        self.schedule.is_non_system_set(node)
    }

    /// The cluster at whose border an edge to `node` ends.
    pub fn lref(&self, node: NodeId) -> (name: String)
        requires
            self.wf(),
        ensures
            name@ == layout::lref(self.schedule, self.settings, node),
    {
        if self.is_non_system_set(node) && !self.collapsed.sets.contains(node) {
            set_cluster_name(node)
        } else {
            String::new()
        }
    }

    /// The first system of the table whose type is `key`.
    pub fn system_of_system_type(&self, key: u64) -> (found: Option<NodeId>)
        ensures
            found == layout::system_of_type(self.schedule, key, 0),
            found is Some ==> found->0 is System && self.schedule.has_node(found->0),
    {
        let mut i: usize = 0;
        while i < self.schedule.systems.len()
            invariant
                i <= self.schedule.systems@.len(),
                layout::system_of_type(self.schedule, key, 0) == layout::system_of_type(
                    self.schedule,
                    key,
                    i as int,
                ),
            decreases self.schedule.systems@.len() - i,
        {
            if self.schedule.systems[i].type_key == key {
                return Some(NodeId::System(i));
            }
            i += 1;
        }
        None
    }

    /// The identifier under which edges find the system `node`.
    pub fn system_node_ref(&self, node: NodeId) -> (name: String)
        requires
            self.wf(),
            node is System,
        ensures
            name@ == layout::system_node_ref(self.schedule, self.settings, node),
    {
        assert(bucket(self.collapsed.children@, node) == match collapsed_into(
            self.schedule,
            self.settings,
            node,
        ) {
            Some(set) => seq![set],
            None => Seq::empty(),
        });
        match self.collapsed.children.get(node) {
            Some(list) => {
                if list.len() > 0 {
                    node_index_name(list[0])
                } else {
                    node_index_name(node)
                }
            },
            None => node_index_name(node),
        }
    }

    /// The identifier under which edges find `node`.
    pub fn node_ref(&self, node: NodeId) -> (name: String)
        requires
            self.wf(),
            self.schedule.has_node(node),
        ensures
            name@ == layout::node_ref(self.schedule, self.settings, node),
    {
        match node {
            NodeId::System(_) => self.system_node_ref(node),
            NodeId::SystemSet(i) => {
                if self.collapsed.sets.contains(node) {
                    node_index_name(node)
                } else {
                    let set = &self.schedule.sets[i];
                    match set.system_type {
                        Some(key) => match self.system_of_system_type(key) {
                            Some(system) => self.system_node_ref(system),
                            None => {
                                let mut name = String::new();
                                name.append("UNKNOWN ");
                                name.append(display_short_name(set.name.as_str()).as_str());
                                name
                            },
                        },
                        None => marker_name(node),
                    }
                }
            },
        }
    }

    /// The full name of `node`.
    pub fn full_name(&self, node: NodeId) -> (name: String)
        requires
            self.schedule.has_node(node),
        ensures
            name@ == layout::full_name(self.schedule, node),
    {
        match node {
            NodeId::System(i) => self.schedule.systems[i].name.clone(),
            NodeId::SystemSet(i) => self.schedule.sets[i].name.clone(),
        }
    }

    /// The tooltip of a dependency edge.
    pub fn edge_tooltip(&self, a: NodeId, b: NodeId) -> (tooltip: String)
        requires
            self.schedule.has_node(a),
            self.schedule.has_node(b),
        ensures
            tooltip@ == layout::edge_tooltip(self.schedule, a, b),
    {
        let mut tooltip = self.full_name(a);
        tooltip.append(" → ");
        tooltip.append(self.full_name(b).as_str());
        tooltip
    }

    /// The tooltip of a conflict.
    pub fn edge_tooltip_undirected(&self, a: NodeId, b: NodeId) -> (tooltip: String)
        requires
            self.schedule.has_node(a),
            self.schedule.has_node(b),
        ensures
            tooltip@ == layout::edge_tooltip_undirected(self.schedule, a, b),
    {
        let mut tooltip = self.full_name(a);
        tooltip.append(" — ");
        tooltip.append(self.full_name(b).as_str());
        tooltip
    }

    /// The colour at place `counter` of the palette; the counter goes on to
    /// the next place and, after the last, to the first.
    pub fn next_edge_color(&self, counter: &mut usize) -> (color: &str)
        requires
            *old(counter) < self.settings.style.color_edge@.len(),
        ensures
            color@ == self.settings.style.color_edge@[*old(counter) as int]@,
            *final(counter) == (*old(counter) + 1) % self.settings.style.color_edge@.len() as int,
    {
        let at = *counter;
        let count = self.settings.style.color_edge.len();
        proof {
            assert(at + 1 < count ==> (at + 1) % (count as int) == at + 1) by (nonlinear_arith)
                requires
                    0 <= at < count,
            ;
            assert(at + 1 == count ==> (at + 1) % (count as int) == 0) by (nonlinear_arith)
                requires
                    0 <= at < count,
            ;
        }
        *counter = if at + 1 < count {
            at + 1
        } else {
            0
        };
        self.settings.style.color_edge[at].as_str()
    }

    /// Writes the node of a system that several sets hold; its label names
    /// the sets.
    pub fn add_system_in_multiple_sets(&self, dot: &mut DotGraph, system: NodeId)
        requires
            self.wf(),
            system is System,
            self.schedule.has_node(system),
        ensures
            final(dot)@ == old(dot)@ + layout::shared_system_text(
                self.schedule,
                self.settings,
                system,
            ),
    {
        let info = &self.schedule.systems[system.index()];
        let parents = hierarchy_parents(system, self.schedule);
        let mut label = info.label.clone();
        label.append("\nIn multiple sets");
        let ghost base = label@;
        assert(label@ =~= base + Seq::<char>::empty());
        for k in 0..parents.len()
            invariant
                parents@ == plain_parents(self.schedule, system),
                label@ == base + layout::parent_names(self.schedule, parents@.take(k as int)),
        {
            let parent = parents[k];
            proof {
                lemma_plain_parents(
                    self.schedule,
                    neighbors(
                        self.schedule.hierarchy@,
                        system,
                        crate::graph::Direction::Incoming,
                    ),
                    k as int,
                );
                assert(parents@.take(k + 1).drop_last() =~= parents@.take(k as int));
            }
            label.append(", ");
            label.append(self.schedule.sets[parent.index()].name.as_str());
            assert(label@ =~= base + layout::parent_names(self.schedule, parents@.take(k + 1)));
        }
        assert(parents@.take(parents@.len() as int) =~= parents@);
        let own = self.node_ref(system);
        let attrs = [("label", label.as_str()), ("tooltip", info.name.as_str())];
        assert(attr_views(attrs@) =~= seq![("label"@, label@), ("tooltip"@, info.name@)]);
        assert(label@ =~= info.label@ + "\nIn multiple sets"@ + layout::parent_names(
            self.schedule,
            parents@,
        ));
        dot.add_node(own.as_str(), &attrs);
    }

    /// Writes the edges from a system to each of the sets that hold it.
    fn add_system_memberships(&self, dot: &mut DotGraph, system: NodeId)
        requires
            self.wf(),
            system is System,
            self.schedule.has_node(system),
        ensures
            final(dot)@ == old(dot)@ + layout::membership_edges(
                self.schedule,
                self.settings,
                system,
                plain_parents(self.schedule, system),
            ),
    {
        let ghost start = dot@;
        let parents = hierarchy_parents(system, self.schedule);
        let own = self.node_ref(system);
        assert(dot@ =~= start + Seq::<char>::empty());
        for k in 0..parents.len()
            invariant
                self.wf(),
                parents@ == plain_parents(self.schedule, system),
                own@ == layout::node_ref(self.schedule, self.settings, system),
                dot@ == start + layout::membership_edges(
                    self.schedule,
                    self.settings,
                    system,
                    parents@.take(k as int),
                ),
        {
            let parent = parents[k];
            proof {
                lemma_plain_parents(
                    self.schedule,
                    neighbors(
                        self.schedule.hierarchy@,
                        system,
                        crate::graph::Direction::Incoming,
                    ),
                    k as int,
                );
                assert(parents@.take(k + 1).drop_last() =~= parents@.take(k as int));
            }
            let to = self.node_ref(parent);
            let head = set_cluster_name(parent);
            let attrs = [
                ("dir", "none"),
                ("color", self.settings.style.multiple_set_edge_color.as_str()),
                ("lhead", head.as_str()),
            ];
            assert(attr_views(attrs@) =~= seq![
                ("dir"@, "none"@),
                ("color"@, self.settings.style.multiple_set_edge_color@),
                ("lhead"@, layout::set_cluster_name(parent)),
            ]);
            dot.add_edge(own.as_str(), to.as_str(), &attrs);
            assert(dot@ =~= start + layout::membership_edges(
                self.schedule,
                self.settings,
                system,
                parents@.take(k + 1),
            ));
        }
        assert(parents@.take(parents@.len() as int) =~= parents@);
    }

    /// Writes the edges from a set to each of the sets that hold it.
    fn add_set_memberships(&self, dot: &mut DotGraph, set: NodeId)
        requires
            self.wf(),
            self.schedule.is_plain_set(set),
        ensures
            final(dot)@ == old(dot)@ + layout::shared_set_edges(
                self.schedule,
                self.settings,
                set,
                plain_parents(self.schedule, set),
            ),
    {
        let ghost start = dot@;
        let parents = hierarchy_parents(set, self.schedule);
        let own = self.node_ref(set);
        let tail = self.lref(set);
        assert(dot@ =~= start + Seq::<char>::empty());
        for k in 0..parents.len()
            invariant
                self.wf(),
                self.schedule.is_plain_set(set),
                parents@ == plain_parents(self.schedule, set),
                own@ == layout::node_ref(self.schedule, self.settings, set),
                tail@ == layout::lref(self.schedule, self.settings, set),
                dot@ == start + layout::shared_set_edges(
                    self.schedule,
                    self.settings,
                    set,
                    parents@.take(k as int),
                ),
        {
            let parent = parents[k];
            proof {
                lemma_plain_parents(
                    self.schedule,
                    neighbors(
                        self.schedule.hierarchy@,
                        set,
                        crate::graph::Direction::Incoming,
                    ),
                    k as int,
                );
                assert(parents@.take(k + 1).drop_last() =~= parents@.take(k as int));
            }
            let to = self.node_ref(parent);
            let head = self.lref(parent);
            let attrs = [
                ("dir", "none"),
                ("color", self.settings.style.multiple_set_edge_color.as_str()),
                ("ltail", tail.as_str()),
                ("lhead", head.as_str()),
            ];
            assert(attr_views(attrs@) =~= seq![
                ("dir"@, "none"@),
                ("color"@, self.settings.style.multiple_set_edge_color@),
                ("ltail"@, layout::lref(self.schedule, self.settings, set)),
                ("lhead"@, layout::lref(self.schedule, self.settings, parent)),
            ]);
            dot.add_edge(own.as_str(), to.as_str(), &attrs);
            assert(dot@ =~= start + layout::shared_set_edges(
                self.schedule,
                self.settings,
                set,
                parents@.take(k + 1),
            ));
        }
        assert(parents@.take(parents@.len() as int) =~= parents@);
    }

    /// Writes the edges from `node` to each of the sets that hold it, where
    /// it is drawn and several sets hold it.
    fn add_node_memberships(&self, dot: &mut DotGraph, node: NodeId)
        requires
            self.wf(),
            self.schedule.has_node(node),
        ensures
            final(dot)@ == old(dot)@ + layout::node_memberships(
                self.schedule,
                self.settings,
                node,
            ),
    {
        let ghost start = dot@;
        let drawn = match node {
            NodeId::System(_) => true,
            NodeId::SystemSet(_) => self.schedule.is_non_system_set(node),
        };
        let shared = drawn && self.included_systems_sets.contains(node) && match place_of(
            self.schedule,
            node,
        ) {
            Placement::Shared(_) => true,
            _ => false,
        };
        assert(shared == layout::is_shared(self.schedule, self.settings, node));
        if !shared {
            assert(dot@ =~= start + Seq::<char>::empty());
            return ;
        }
        match node {
            NodeId::System(_) => self.add_system_memberships(dot, node),
            NodeId::SystemSet(_) => self.add_set_memberships(dot, node),
        }
    }

    /// Writes, for the systems and then the sets that several sets hold,
    /// the edges to these sets.
    pub fn add_memberships(&self, dot: &mut DotGraph)
        requires
            self.wf(),
        ensures
            final(dot)@ == old(dot)@ + layout::memberships_text(
                self.schedule,
                self.settings,
                system_nodes(self.schedule),
            ) + layout::memberships_text(self.schedule, self.settings, set_nodes(self.schedule)),
    {
        let ghost start = dot@;
        let ghost systems = system_nodes(self.schedule);
        let ghost sets = set_nodes(self.schedule);
        assert(dot@ =~= start + Seq::<char>::empty());
        for i in 0..self.schedule.systems.len()
            invariant
                self.wf(),
                systems == system_nodes(self.schedule),
                dot@ == start + layout::memberships_text(
                    self.schedule,
                    self.settings,
                    systems.take(i as int),
                ),
        {
            assert(systems.take(i + 1).drop_last() =~= systems.take(i as int));
            assert(systems.take(i + 1).last() == NodeId::System(i));
            self.add_node_memberships(dot, NodeId::System(i));
            assert(dot@ =~= start + layout::memberships_text(
                self.schedule,
                self.settings,
                systems.take(i + 1),
            ));
        }
        assert(systems.take(systems.len() as int) =~= systems);
        let ghost mid = dot@;
        assert(dot@ =~= mid + Seq::<char>::empty());
        for i in 0..self.schedule.sets.len()
            invariant
                self.wf(),
                sets == set_nodes(self.schedule),
                dot@ == mid + layout::memberships_text(
                    self.schedule,
                    self.settings,
                    sets.take(i as int),
                ),
        {
            assert(sets.take(i + 1).drop_last() =~= sets.take(i as int));
            assert(sets.take(i + 1).last() == NodeId::SystemSet(i));
            self.add_node_memberships(dot, NodeId::SystemSet(i));
            assert(dot@ =~= mid + layout::memberships_text(
                self.schedule,
                self.settings,
                sets.take(i + 1),
            ));
        }
        assert(sets.take(sets.len() as int) =~= sets);
    }

    /// Writes the systems of a list that several sets hold.
    fn add_systems_in_multiple_sets(&self, dot: &mut DotGraph, systems: &Vec<NodeId>)
        requires
            self.wf(),
            forall|k: int|
                0 <= k < systems@.len() ==> (#[trigger] systems@[k]) is System
                    && self.schedule.has_node(systems@[k]),
        ensures
            final(dot)@ == old(dot)@ + layout::shared_systems_text(
                self.schedule,
                self.settings,
                systems@,
            ),
    {
        let ghost start = dot@;
        assert(dot@ =~= start + Seq::<char>::empty());
        for k in 0..systems.len()
            invariant
                self.wf(),
                forall|k: int|
                    0 <= k < systems@.len() ==> (#[trigger] systems@[k]) is System
                        && self.schedule.has_node(systems@[k]),
                dot@ == start + layout::shared_systems_text(
                    self.schedule,
                    self.settings,
                    systems@.take(k as int),
                ),
        {
            assert(systems@.take(k + 1).drop_last() =~= systems@.take(k as int));
            self.add_system_in_multiple_sets(dot, systems[k]);
            assert(dot@ =~= start + layout::shared_systems_text(
                self.schedule,
                self.settings,
                systems@.take(k + 1),
            ));
        }
        assert(systems@.take(systems@.len() as int) =~= systems@);
    }

    /// Writes the nodes of the systems of a list, each inside the one set
    /// that holds it.
    fn add_member_systems(&self, dot: &mut DotGraph, systems: &Vec<NodeId>)
        requires
            self.wf(),
            forall|k: int|
                0 <= k < systems@.len() ==> (#[trigger] systems@[k]) is System
                    && self.schedule.has_node(systems@[k]),
        ensures
            final(dot)@ == old(dot)@ + layout::member_systems_text(
                self.schedule,
                self.settings,
                systems@,
            ),
    {
        let ghost start = dot@;
        assert(dot@ =~= start + Seq::<char>::empty());
        for k in 0..systems.len()
            invariant
                self.wf(),
                forall|k: int|
                    0 <= k < systems@.len() ==> (#[trigger] systems@[k]) is System
                        && self.schedule.has_node(systems@[k]),
                dot@ == start + layout::member_systems_text(
                    self.schedule,
                    self.settings,
                    systems@.take(k as int),
                ),
        {
            assert(systems@.take(k + 1).drop_last() =~= systems@.take(k as int));
            let system = systems[k];
            let info = &self.schedule.systems[system.index()];
            let id = self.node_ref(system);
            let attrs = [
                ("label", info.label.as_str()),
                ("tooltip", info.name.as_str()),
                ("fillcolor", info.style.bg_color.as_str()),
                ("fontname", self.settings.style.fontname.as_str()),
                ("fontcolor", info.style.text_color.as_str()),
                ("color", info.style.border_color.as_str()),
                ("penwidth", info.style.border_width.as_str()),
            ];
            assert(attr_views(attrs@) =~= seq![
                ("label"@, info.label@),
                ("tooltip"@, info.name@),
                ("fillcolor"@, info.style.bg_color@),
                ("fontname"@, self.settings.style.fontname@),
                ("fontcolor"@, info.style.text_color@),
                ("color"@, info.style.border_color@),
                ("penwidth"@, info.style.border_width@),
            ]);
            dot.add_node(id.as_str(), &attrs);
            assert(dot@ =~= start + layout::member_systems_text(
                self.schedule,
                self.settings,
                systems@.take(k + 1),
            ));
        }
        assert(systems@.take(systems@.len() as int) =~= systems@);
    }

    /// Writes a set as it is drawn: a collapsed set as one node, any other
    /// as a cluster with all that is inside it. `path` is the way down
    /// through the clusters to this set.
    fn add_set(&self, set: NodeId, dot: &mut DotGraph, Ghost(path): Ghost<Seq<NodeId>>)
        requires
            self.wf(),
            layout::is_nesting(self.schedule, path),
            path.len() > 0,
            path.last() == set,
        ensures
            final(dot)@ == old(dot)@ + layout::set_text(
                self.schedule,
                self.settings,
                set,
                (self.schedule.sets@.len() + 1 - path.len()) as nat,
            ),
        decreases self.schedule.sets@.len() + 1 - path.len(), 2nat,
    {
        let ghost start = dot@;
        let ghost depth = (self.schedule.sets@.len() + 1 - path.len()) as nat;
        proof {
            layout::lemma_nesting_bound(self.schedule, path);
            assert(self.schedule.is_plain_set(path[path.len() - 1]));
        }
        let name = self.schedule.sets[set.index()].name.as_str();
        if self.collapsed.sets.contains(set) {
            let attrs = [("label", name), ("tooltip", name)];
            assert(attr_views(attrs@) =~= seq![("label"@, name@), ("tooltip"@, name@)]);
            dot.add_node(node_index_name(set).as_str(), &attrs);
            return ;
        }
        let attrs = [
            ("style", "rounded,filled"),
            ("label", name),
            ("tooltip", name),
            ("fillcolor", self.settings.style.color_set.as_str()),
            ("fontcolor", self.settings.style.color_set_label.as_str()),
            ("color", self.settings.style.color_set_border.as_str()),
            ("penwidth", "2"),
        ];
        assert(attr_views(attrs@) =~= layout::cluster_attributes(self.settings, name@));
        let mut sub = DotGraph::subgraph(node_index_name(set).as_str(), &attrs);
        sub.add_invisible_node(marker_name(set).as_str());
        let ghost within = Placement::Within(set);
        let ghost shared = Placement::Shared(Some(set));
        proof {
            assert(self.sets.at(within) == sets_at(self.schedule, self.settings, within));
            assert(self.sets.at(shared) == sets_at(self.schedule, self.settings, shared));
            assert(self.systems.at(within) == systems_at(self.schedule, self.settings, within));
            assert(self.systems.at(shared) == systems_at(self.schedule, self.settings, shared));
            assert forall|k: int| 0 <= k < systems_at(self.schedule, self.settings, within).len()
                implies (#[trigger] systems_at(self.schedule, self.settings, within)[k]) is System
                && self.schedule.has_node(systems_at(self.schedule, self.settings, within)[k]) by {
                lemma_bucket_members(self.schedule, self.settings, within, k);
            }
            assert forall|k: int| 0 <= k < systems_at(self.schedule, self.settings, shared).len()
                implies (#[trigger] systems_at(self.schedule, self.settings, shared)[k]) is System
                && self.schedule.has_node(systems_at(self.schedule, self.settings, shared)[k]) by {
                lemma_bucket_members(self.schedule, self.settings, shared, k);
            }
        }
        let ghost mid = sub@;
        match self.sets.in_single_set.get(set) {
            Some(list) => self.add_set_list(list, &mut sub, Ghost(path), Ghost(within)),
            None => {
                assert(sub@ =~= mid + Seq::<char>::empty());
            },
        }
        let ghost mid2 = sub@;
        match self.sets.in_multiple_sets.get(set) {
            Some(list) => self.add_set_list(list, &mut sub, Ghost(path), Ghost(shared)),
            None => {
                assert(sub@ =~= mid2 + Seq::<char>::empty());
            },
        }
        let ghost mid3 = sub@;
        match self.systems.in_single_set.get(set) {
            Some(list) => self.add_member_systems(&mut sub, list),
            None => {
                assert(sub@ =~= mid3 + Seq::<char>::empty());
            },
        }
        let ghost mid4 = sub@;
        match self.systems.in_multiple_sets.get(set) {
            Some(list) => self.add_systems_in_multiple_sets(&mut sub, list),
            None => {
                assert(sub@ =~= mid4 + Seq::<char>::empty());
            },
        }
        proof {
            assert(depth > 0);
            assert(nested_block(sub@) =~= layout::set_text(
                self.schedule,
                self.settings,
                set,
                depth,
            ));
        }
        dot.add_sub_graph(sub);
    }

    /// Writes the sets that are drawn at `at`, one after the other. `path`
    /// is the way down through the clusters to the set that they stand in;
    /// it is empty on the top level.
    fn add_set_list(
        &self,
        sets: &Vec<NodeId>,
        dot: &mut DotGraph,
        Ghost(path): Ghost<Seq<NodeId>>,
        Ghost(at): Ghost<Placement>,
    )
        requires
            self.wf(),
            layout::is_nesting(self.schedule, path),
            sets@ == sets_at(self.schedule, self.settings, at),
            if path.len() == 0 {
                layout::is_top_level(at)
            } else {
                layout::is_inside(at, path.last())
            },
        ensures
            final(dot)@ == old(dot)@ + layout::sets_text(
                self.schedule,
                self.settings,
                sets@,
                (self.schedule.sets@.len() - path.len()) as nat,
            ),
        decreases self.schedule.sets@.len() + 1 - path.len(), 1nat,
    {
        let ghost start = dot@;
        let ghost depth = (self.schedule.sets@.len() - path.len()) as nat;
        proof {
            layout::lemma_nesting_bound(self.schedule, path);
        }
        let mut k: usize = 0;
        assert(dot@ =~= start + Seq::<char>::empty());
        while k < sets.len()
            invariant
                self.wf(),
                k <= sets@.len(),
                layout::is_nesting(self.schedule, path),
                path.len() <= self.schedule.sets@.len(),
                depth == (self.schedule.sets@.len() - path.len()) as nat,
                sets@ == sets_at(self.schedule, self.settings, at),
                if path.len() == 0 {
                    layout::is_top_level(at)
                } else {
                    layout::is_inside(at, path.last())
                },
                dot@ == start + layout::sets_text(
                    self.schedule,
                    self.settings,
                    sets@.take(k as int),
                    depth,
                ),
            decreases sets@.len() - k,
        {
            let set = sets[k];
            let ghost longer = path.push(set);
            proof {
                assert(sets@.take(k + 1).drop_last() =~= sets@.take(k as int));
                assert(sets@.take(k + 1).last() == set);
                lemma_bucket_members(self.schedule, self.settings, at, k as int);
                assert forall|i: int| 0 <= i < longer.len() implies self.schedule.is_plain_set(
                    #[trigger] longer[i],
                ) by {
                    if i < path.len() {
                        assert(longer[i] == path[i]);
                    }
                }
                assert forall|i: int| 0 < i < longer.len() implies layout::is_inside(
                    placement(self.schedule, #[trigger] longer[i]),
                    longer[i - 1],
                ) by {
                    if i < path.len() {
                        assert(longer[i] == path[i]);
                        assert(longer[i - 1] == path[i - 1]);
                    }
                }
                if path.len() > 0 {
                    assert(longer[0] == path[0]);
                }
                assert(layout::is_nesting(self.schedule, longer));
                layout::lemma_nesting_bound(self.schedule, longer);
            }
            self.add_set(set, dot, Ghost(longer));
            assert(dot@ =~= start + layout::sets_text(
                self.schedule,
                self.settings,
                sets@.take(k + 1),
                depth,
            ));
            k += 1;
        }
        assert(sets@.take(sets@.len() as int) =~= sets@);
    }

    /// Writes the sets of the top level with all that is inside them: the
    /// sets that no set holds, and the sets that several sets without a
    /// common ancestor hold.
    pub fn add_sets(&self, dot: &mut DotGraph)
        requires
            self.wf(),
        ensures
            final(dot)@ == old(dot)@ + layout::sets_text(
                self.schedule,
                self.settings,
                sets_at(self.schedule, self.settings, Placement::Free),
                self.schedule.sets@.len(),
            ) + layout::sets_text(
                self.schedule,
                self.settings,
                sets_at(self.schedule, self.settings, Placement::Shared(None)),
                self.schedule.sets@.len(),
            ),
    {
        let ghost free = Placement::Free;
        let ghost shared = Placement::Shared(None);
        proof {
            assert(self.sets.at(free) == sets_at(self.schedule, self.settings, free));
            assert(self.sets.at(shared) == sets_at(self.schedule, self.settings, shared));
        }
        let ghost top = Seq::<NodeId>::empty();
        self.add_set_list(&self.sets.freestanding, dot, Ghost(top), Ghost(free));
        self.add_set_list(&self.sets.in_multiple_sets_top, dot, Ghost(top), Ghost(shared));
    }

    /// Writes the systems of the top level: the systems that no set holds,
    /// and the systems that several sets without a common ancestor hold.
    pub fn add_freestanding_systems(&self, dot: &mut DotGraph)
        requires
            self.wf(),
        ensures
            final(dot)@ == old(dot)@ + layout::free_systems_text(
                self.schedule,
                systems_at(self.schedule, self.settings, Placement::Free),
            ) + layout::shared_systems_text(
                self.schedule,
                self.settings,
                systems_at(self.schedule, self.settings, Placement::Shared(None)),
            ),
    {
        let ghost start = dot@;
        let ghost free = Placement::Free;
        let ghost shared = Placement::Shared(None);
        proof {
            assert(self.systems.at(free) == systems_at(self.schedule, self.settings, free));
            assert(self.systems.at(shared) == systems_at(self.schedule, self.settings, shared));
            assert forall|k: int| 0 <= k < systems_at(self.schedule, self.settings, free).len()
                implies (#[trigger] systems_at(self.schedule, self.settings, free)[k]) is System
                && self.schedule.has_node(systems_at(self.schedule, self.settings, free)[k]) by {
                lemma_bucket_members(self.schedule, self.settings, free, k);
            }
            assert forall|k: int| 0 <= k < systems_at(self.schedule, self.settings, shared).len()
                implies (#[trigger] systems_at(self.schedule, self.settings, shared)[k]) is System
                && self.schedule.has_node(systems_at(self.schedule, self.settings, shared)[k]) by {
                lemma_bucket_members(self.schedule, self.settings, shared, k);
            }
        }
        let systems = &self.systems.freestanding;
        assert(dot@ =~= start + Seq::<char>::empty());
        for k in 0..systems.len()
            invariant
                systems@ == systems_at(self.schedule, self.settings, Placement::Free),
                forall|k: int|
                    0 <= k < systems@.len() ==> (#[trigger] systems@[k]) is System
                        && self.schedule.has_node(systems@[k]),
                dot@ == start + layout::free_systems_text(self.schedule, systems@.take(k as int)),
        {
            assert(systems@.take(k + 1).drop_last() =~= systems@.take(k as int));
            let system = systems[k];
            let info = &self.schedule.systems[system.index()];
            let attrs = [("label", info.label.as_str()), ("tooltip", info.name.as_str())];
            assert(attr_views(attrs@) =~= seq![("label"@, info.label@), ("tooltip"@, info.name@)]);
            dot.add_node(node_index_name(system).as_str(), &attrs);
            assert(dot@ =~= start + layout::free_systems_text(self.schedule, systems@.take(k + 1)));
        }
        assert(systems@.take(systems@.len() as int) =~= systems@);
        self.add_systems_in_multiple_sets(dot, &self.systems.in_multiple_sets_top);
    }

    /// Writes the dependency edges both of whose ends are drawn.
    pub fn add_dependencies(&self, dot: &mut DotGraph)
        requires
            self.wf(),
        ensures
            final(dot)@ == old(dot)@ + layout::dependencies_text(
                self.schedule,
                self.settings,
                self.dependency@,
            ),
    {
        let ghost start = dot@;
        let count = self.dependency.edge_count();
        let mut counter: usize = 0;
        let ghost palette = self.settings.style.color_edge@.len() as int;
        assert(dot@ =~= start + Seq::<char>::empty());
        proof {
            assert(self.dependency@.take(0) =~= Seq::<(NodeId, NodeId)>::empty());
            assert(0int % palette == 0) by (nonlinear_arith)
                requires
                    palette > 0,
            ;
        }
        for i in 0..count
            invariant
                self.wf(),
                count == self.dependency@.len(),
                palette == self.settings.style.color_edge@.len(),
                counter == layout::drawn_edge_count(
                    self.schedule,
                    self.settings,
                    self.dependency@.take(i as int),
                ) as int % palette,
                dot@ == start + layout::dependencies_text(
                    self.schedule,
                    self.settings,
                    self.dependency@.take(i as int),
                ),
        {
            let (from, to) = self.dependency.edge(i);
            let ghost before = self.dependency@.take(i as int);
            let ghost drawn = layout::drawn_edge_count(self.schedule, self.settings, before) as int;
            assert(self.dependency@.take(i + 1).drop_last() =~= before);
            assert(self.dependency@.take(i + 1).last() == (from, to));
            if self.included_systems_sets.contains(from) && self.included_systems_sets.contains(to) {
                let ghost at = counter as int;
                let color = self.next_edge_color(&mut counter);
                proof {
                    assert((drawn % palette + 1) % palette == (drawn + 1) % palette) by (nonlinear_arith)
                        requires
                            palette > 0,
                            drawn >= 0,
                    ;
                }
                let head = self.lref(to);
                let tail = self.lref(from);
                let tooltip = self.edge_tooltip(from, to);
                let attrs = [
                    ("lhead", head.as_str()),
                    ("ltail", tail.as_str()),
                    ("tooltip", tooltip.as_str()),
                    ("color", color),
                ];
                assert(attr_views(attrs@) =~= seq![
                    ("lhead"@, layout::lref(self.schedule, self.settings, to)),
                    ("ltail"@, layout::lref(self.schedule, self.settings, from)),
                    ("tooltip"@, layout::edge_tooltip(self.schedule, from, to)),
                    ("color"@, self.settings.style.color_edge@[at]@),
                ]);
                dot.add_edge(self.node_ref(from).as_str(), self.node_ref(to).as_str(), &attrs);
            }
            assert(dot@ =~= start + layout::dependencies_text(
                self.schedule,
                self.settings,
                self.dependency@.take(i + 1),
            ));
        }
        assert(self.dependency@.take(count as int) =~= self.dependency@);
    }

    /// The label of a conflict.
    pub fn conflict_label(&self, conflict: &Conflict) -> (label: String)
        ensures
            label@ == layout::conflict_label(self.settings, *conflict),
    {
        let mut label = String::new();
        if conflict.components.len() == 0 {
            label.append("World");
            return label;
        }
        label.append("RAW:<<table border=\"0\" cellborder=\"0\">");
        let ghost head = label@;
        assert(label@ =~= head + Seq::<char>::empty());
        for k in 0..conflict.components.len()
            invariant
                label@ == head + layout::component_rows(self.settings, *conflict, k as int),
        {
            let short = display_short_name(conflict.components[k].name.as_str());
            label.append("<tr><td bgcolor=\"");
            label.append(self.settings.style.ambiguity_bgcolor.as_str());
            label.append("\">");
            label.append(html_escape(short.as_str()).as_str());
            label.append("</td></tr>");
            assert(label@ =~= head + layout::component_rows(self.settings, *conflict, k + 1));
        }
        label.append("</table>>");
        assert(label@ =~= layout::conflict_label(self.settings, *conflict));
        label
    }

    /// Whether the conflict at place `place` is drawn.
    pub fn draws_conflict(&self, place: usize) -> (r: bool)
        requires
            self.wf(),
            place < self.schedule.conflicts@.len(),
        ensures
            r == layout::is_conflict_drawn(self.schedule, self.settings, place as int),
    {
        let conflict = &self.schedule.conflicts[place];
        if !self.included_systems_sets.contains(conflict.first)
            || !self.included_systems_sets.contains(conflict.second) {
            return false;
        }
        if conflict.components.len() == 0 && !self.settings.ambiguity_enable_on_world {
            return false;
        }
        match &self.settings.include_ambiguity {
            Some(filter) => {
                let mut types: Vec<Option<u64>> = Vec::new();
                for k in 0..conflict.components.len()
                    invariant
                        types@.len() == k,
                        forall|j: int|
                            0 <= j < k ==> types@[j] == conflict.components@[j].type_key,
                {
                    types.push(conflict.components[k].type_key);
                }
                assert(types@ =~= layout::component_types(*conflict));
                filter.includes(place, &types)
            },
            None => true,
        }
    }

    /// Writes the conflicts that are drawn, in the order of the conflicts.
    pub fn add_ambiguities(&self, dot: &mut DotGraph)
        requires
            self.wf(),
        ensures
            final(dot)@ == old(dot)@ + layout::conflicts_text(
                self.schedule,
                self.settings,
                layout::sorted_places(self.schedule.conflicts@, self.schedule.conflicts@.len()),
            ),
    {
        let ghost start = dot@;
        let order = sort_conflicts(&self.schedule.conflicts);
        assert(dot@ =~= start + Seq::<char>::empty());
        for k in 0..order.len()
            invariant
                self.wf(),
                places(order@) == layout::sorted_places(
                    self.schedule.conflicts@,
                    self.schedule.conflicts@.len(),
                ),
                forall|j: int|
                    0 <= j < order@.len() ==> (#[trigger] order@[j]) < self.schedule.conflicts@.len(),
                dot@ == start + layout::conflicts_text(
                    self.schedule,
                    self.settings,
                    places(order@).take(k as int),
                ),
        {
            let place = order[k];
            assert(places(order@).take(k + 1).drop_last() =~= places(order@).take(k as int));
            assert(places(order@).take(k + 1).last() == place as int);
            if self.draws_conflict(place) {
                let conflict = &self.schedule.conflicts[place];
                let label = self.conflict_label(conflict);
                let tooltip = self.edge_tooltip_undirected(conflict.first, conflict.second);
                let attrs = [
                    ("dir", "none"),
                    ("constraint", "false"),
                    ("color", self.settings.style.ambiguity_color.as_str()),
                    ("fontcolor", self.settings.style.ambiguity_color.as_str()),
                    ("label", label.as_str()),
                    ("labeltooltip", tooltip.as_str()),
                ];
                assert(attr_views(attrs@) =~= seq![
                    ("dir"@, "none"@),
                    ("constraint"@, "false"@),
                    ("color"@, self.settings.style.ambiguity_color@),
                    ("fontcolor"@, self.settings.style.ambiguity_color@),
                    ("label"@, layout::conflict_label(self.settings, *conflict)),
                    (
                        "labeltooltip"@,
                        layout::edge_tooltip_undirected(
                            self.schedule,
                            conflict.first,
                            conflict.second,
                        ),
                    ),
                ]);
                dot.add_edge(
                    self.node_ref(conflict.first).as_str(),
                    self.node_ref(conflict.second).as_str(),
                    &attrs,
                );
            }
            assert(dot@ =~= start + layout::conflicts_text(
                self.schedule,
                self.settings,
                places(order@).take(k + 1),
            ));
        }
        assert(places(order@).take(order@.len() as int) =~= places(order@));
    }
}

/// The places of a list as numbers.
pub open spec fn places(order: Seq<usize>) -> Seq<int> {
    Seq::new(order.len(), |i: int| order[i] as int)
}

/// Whether the list of the numbers of `a`'s components comes before that
/// of `b`'s.
fn components_come_before(a: &Conflict, b: &Conflict) -> (r: bool)
    ensures
        r == layout::list_precedes(layout::component_ids(*a), layout::component_ids(*b)),
{
    let ghost x = layout::component_ids(*a);
    let ghost y = layout::component_ids(*b);
    let mut k: usize = 0;
    assert(x.skip(0) =~= x);
    assert(y.skip(0) =~= y);
    loop
        invariant
            x == layout::component_ids(*a),
            y == layout::component_ids(*b),
            k <= x.len(),
            k <= y.len(),
            layout::list_precedes(x, y) == layout::list_precedes(x.skip(k as int), y.skip(k as int)),
        decreases x.len() - k,
    {
        if k >= b.components.len() {
            return false;
        }
        if k >= a.components.len() {
            return true;
        }
        let p = a.components[k].id;
        let q = b.components[k].id;
        assert(x.skip(k as int)[0] == p);
        assert(y.skip(k as int)[0] == q);
        if p != q {
            return p < q;
        }
        assert(x.skip(k as int).skip(1) =~= x.skip(k + 1));
        assert(y.skip(k as int).skip(1) =~= y.skip(k + 1));
        k += 1;
    }
}

/// Whether conflict `a` comes before conflict `b`.
pub fn comes_before(a: &Conflict, b: &Conflict) -> (r: bool)
    ensures
        r == layout::conflict_precedes(*a, *b),
{
    if a.first != b.first {
        a.first.is_before(&b.first)
    } else if a.second != b.second {
        a.second.is_before(&b.second)
    } else {
        components_come_before(a, b)
    }
}

/// The places of the conflicts, sorted by their conflicts.
pub fn sort_conflicts(conflicts: &Vec<Conflict>) -> (order: Vec<usize>)
    ensures
        places(order@) == layout::sorted_places(conflicts@, conflicts@.len()),
        forall|j: int| 0 <= j < order@.len() ==> (#[trigger] order@[j]) < conflicts@.len(),
{
    let mut order: Vec<usize> = Vec::new();
    assert(places(order@) =~= layout::sorted_places(conflicts@, 0));
    for i in 0..conflicts.len()
        invariant
            places(order@) == layout::sorted_places(conflicts@, i as nat),
            forall|j: int| 0 <= j < order@.len() ==> (#[trigger] order@[j]) < i,
    {
        let ghost before = places(order@);
        let mut at: usize = order.len();
        assert(before.take(at as int) =~= before);
        assert(before.skip(at as int) =~= Seq::<int>::empty());
        while at > 0 && comes_before(&conflicts[i], &conflicts[order[at - 1]])
            invariant
                at <= order@.len(),
                i < conflicts@.len(),
                before == places(order@),
                forall|j: int| 0 <= j < order@.len() ==> (#[trigger] order@[j]) < i,
                layout::with_place(conflicts@, before, i as int) == layout::with_place(
                    conflicts@,
                    before.take(at as int),
                    i as int,
                ) + before.skip(at as int),
            decreases at,
        {
            proof {
                let head = before.take(at as int);
                assert(head.last() == order@[at - 1] as int);
                assert(head.drop_last() =~= before.take(at - 1));
                assert(before.skip(at - 1) =~= seq![before[at - 1]] + before.skip(at as int));
                assert(layout::with_place(conflicts@, head, i as int) == layout::with_place(
                    conflicts@,
                    head.drop_last(),
                    i as int,
                ).push(head.last()));
                assert(layout::with_place(conflicts@, head.drop_last(), i as int).push(head.last())
                    + before.skip(at as int) =~= layout::with_place(
                    conflicts@,
                    head.drop_last(),
                    i as int,
                ) + before.skip(at - 1));
            }
            at -= 1;
        }
        proof {
            let head = before.take(at as int);
            if at > 0 {
                assert(head.last() == order@[at - 1] as int);
            }
            assert(layout::with_place(conflicts@, head, i as int) == head.push(i as int));
        }
        order.insert(at, i);
        assert(places(order@) =~= before.take(at as int).push(i as int) + before.skip(at as int));
    }
    order
}

/// Draws `schedule` with the given dependency edges.
pub fn schedule_graph_dot_with(schedule: &Schedule, settings: &Settings, dependency: &DiGraph) -> (text:
    String)
    requires
        schedule.wf(),
        settings.style.color_edge@.len() > 0,
        forall|i: int|
            0 <= i < dependency@.len() ==> schedule.has_node((#[trigger] dependency@[i]).0)
                && schedule.has_node(dependency@[i].1),
    ensures
        text@ == layout::document(schedule, settings, dependency@),
{
    let context = ScheduleGraphContext::new(schedule, settings, dependency);
    let head = [
        ("compound", "true"),
        ("splines", settings.style.edge_style.as_dot()),
        ("rankdir", settings.style.schedule_rankdir.as_dot()),
        ("bgcolor", settings.style.color_background.as_str()),
        ("fontname", settings.style.fontname.as_str()),
        ("nodesep", "0.15"),
    ];
    assert(attr_views(head@) =~= seq![
        ("compound"@, "true"@),
        ("splines"@, settings.style.edge_style.spec_as_dot()),
        ("rankdir"@, settings.style.schedule_rankdir.spec_as_dot()),
        ("bgcolor"@, settings.style.color_background@),
        ("fontname"@, settings.style.fontname@),
        ("nodesep"@, "0.15"@),
    ]);
    let edges = [("penwidth", settings.style.penwidth_edge.as_str())];
    assert(attr_views(edges@) =~= seq![("penwidth"@, settings.style.penwidth_edge@)]);
    let nodes = [("shape", "box"), ("style", "filled")];
    assert(attr_views(nodes@) =~= seq![("shape"@, "box"@), ("style"@, "filled"@)]);
    let mut dot = DotGraph::new("", "digraph", &head).edge_attributes(&edges).node_attributes(
        &nodes,
    );
    proof {
        reveal_strlit("");
        assert(""@ =~= Seq::<char>::empty());
    }
    assert(dot@ =~= layout::document_header(settings));
    context.add_sets(&mut dot);
    context.add_freestanding_systems(&mut dot);
    context.add_memberships(&mut dot);
    context.add_dependencies(&mut dot);
    let ghost before = dot@;
    if settings.ambiguity_enable {
        context.add_ambiguities(&mut dot);
    } else {
        assert(dot@ =~= before + Seq::<char>::empty());
    }
    let text = dot.finish();
    assert(text@ =~= layout::document(schedule, settings, dependency@));
    text
}

/// The dependency edges that are drawn: those of the schedule, or, where
/// the settings ask for it, those that are left when the edges that longer
/// paths imply are taken out.
pub open spec fn are_drawn_dependencies(
    schedule: &Schedule,
    settings: &Settings,
    edges: Seq<(NodeId, NodeId)>,
) -> bool {
    if settings.remove_transitive_edges {
        is_reduction_of(edges, schedule.dependency@)
    } else {
        edges == schedule.dependency@
    }
}

/// Draws `schedule`: the text of a graph in the DOT language that shows
/// the sets as clusters, the systems as nodes, what runs before what as
/// edges, and, where asked for, the conflicts.
pub fn schedule_graph_dot(schedule: &Schedule, settings: &Settings) -> (text: String)
    requires
        schedule.wf(),
        settings.style.color_edge@.len() > 0,
    ensures
        exists|edges: Seq<(NodeId, NodeId)>|
            #![trigger layout::document(schedule, settings, edges)]
            are_drawn_dependencies(schedule, settings, edges) && text@ == layout::document(
                schedule,
                settings,
                edges,
            ),
        !settings.remove_transitive_edges ==> text@ == layout::document(
            schedule,
            settings,
            schedule.dependency@,
        ),
        settings.remove_transitive_edges && is_acyclic(schedule.dependency@) ==> text@
            == layout::document(schedule, settings, needed_edges(schedule.dependency@)),
{
    if settings.remove_transitive_edges {
        let reduced = transitive_reduction(&schedule.dependency);
        proof {
            let at = choose|at: Seq<int>| stands_at(reduced@, schedule.dependency@, at);
            assert forall|i: int| 0 <= i < reduced@.len() implies schedule.has_node(
                (#[trigger] reduced@[i]).0,
            ) && schedule.has_node(reduced@[i].1) by {
                assert(reduced@[i] == schedule.dependency@[at[i]]);
            }
        }
        let text = schedule_graph_dot_with(schedule, settings, &reduced);
        assert(are_drawn_dependencies(schedule, settings, reduced@) && text@ == layout::document(
            schedule,
            settings,
            reduced@,
        ));
        text
    } else {
        let text = schedule_graph_dot_with(schedule, settings, &schedule.dependency);
        assert(are_drawn_dependencies(schedule, settings, schedule.dependency@) && text@
            == layout::document(schedule, settings, schedule.dependency@));
        text
    }
}

} // verus!
