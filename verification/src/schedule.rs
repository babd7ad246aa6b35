//! A schedule as this library reads it: tables of systems and of system
//! sets, the graph of which set holds what, the graph of what runs before
//! what, and the pairs of systems that conflict.

use crate::graph::{DiGraph, NodeId};
use crate::settings::NodeStyle;
use vstd::prelude::*;

verus! {

/// One system.
pub struct SystemInfo {
    /// The full name of the system.
    pub name: String,
    /// The name that is written into the system's node.
    pub label: String,
    /// A number that stands for the type of the system.
    pub type_key: u64,
    /// The colours of the system's node.
    pub style: NodeStyle,
}

/// One set of systems.
pub struct SetInfo {
    /// The name of the set.
    pub name: String,
    /// For the set that stands for all systems of one type, the number of
    /// that type. Such a set is not drawn: an edge to it goes to the system.
    pub system_type: Option<u64>,
}

/// A component or resource that two systems both use.
pub struct ComponentInfo {
    pub id: usize,
    /// The full name of the component's type.
    pub name: String,
    /// A number that stands for the component's type, where it is known.
    pub type_key: Option<u64>,
}

/// Two systems that use the same data and are not ordered. Without
/// components the conflict is on the whole world.
pub struct Conflict {
    pub first: NodeId,
    pub second: NodeId,
    pub components: Vec<ComponentInfo>,
}

/// A schedule. `NodeId::System(i)` is the system at place `i` of `systems`,
/// `NodeId::SystemSet(i)` the set at place `i` of `sets`. An edge of
/// `hierarchy` leads from a set to a member of it, an edge of `dependency`
/// from what runs first to what runs after it.
pub struct Schedule {
    pub systems: Vec<SystemInfo>,
    pub sets: Vec<SetInfo>,
    pub hierarchy: DiGraph,
    pub dependency: DiGraph,
    pub conflicts: Vec<Conflict>,
}

impl Schedule {
    /// Whether `node` is in the table of its kind.
    pub open spec fn has_node(&self, node: NodeId) -> bool {
        match node {
            NodeId::System(i) => i < self.systems@.len(),
            NodeId::SystemSet(i) => i < self.sets@.len(),
        }
    }

    /// Whether `node` is a set that is drawn: a set of the table that does
    /// not stand for the systems of one type.
    pub open spec fn is_plain_set(&self, node: NodeId) -> bool {
        node is SystemSet && node.index() < self.sets@.len()
            && self.sets@[node.index() as int].system_type is None
    }

    /// Whether `node` is drawn as a node or a cluster of its own: a system
    /// of the table, or a set that is drawn.
    pub open spec fn is_drawn(&self, node: NodeId) -> bool {
        (node is System && self.has_node(node)) || self.is_plain_set(node)
    }

    /// Whether the graphs and the conflicts speak of nodes of the tables
    /// only, the hierarchy has sets above its members, and conflicts are
    /// between systems.
    pub open spec fn wf(&self) -> bool {
        &&& forall|i: int|
            0 <= i < self.hierarchy@.len() ==> self.has_node((#[trigger] self.hierarchy@[i]).0)
                && self.has_node(self.hierarchy@[i].1) && self.hierarchy@[i].0 is SystemSet
        &&& forall|i: int|
            0 <= i < self.dependency@.len() ==> self.has_node((#[trigger] self.dependency@[i]).0)
                && self.has_node(self.dependency@[i].1)
        &&& forall|i: int|
            0 <= i < self.conflicts@.len() ==> self.has_node((#[trigger] self.conflicts@[i]).first)
                && self.has_node(self.conflicts@[i].second) && self.conflicts@[i].first is System
                && self.conflicts@[i].second is System
    }

    /// Whether `node` is in the table of its kind.
    pub fn contains_node(&self, node: NodeId) -> (r: bool)
        ensures
            r == self.has_node(node),
    {
        match node {
            NodeId::System(i) => i < self.systems.len(),
            NodeId::SystemSet(i) => i < self.sets.len(),
        }
    }

    /// Whether `node` is a set that is drawn.
    pub fn is_non_system_set(&self, node: NodeId) -> (r: bool)
        ensures
            r == self.is_plain_set(node),
    {
        match node {
            NodeId::System(_) => false,
            NodeId::SystemSet(i) => i < self.sets.len() && self.sets[i].system_type.is_none(),
        }
    }

    /// Whether the schedule is well formed.
    pub fn is_well_formed(&self) -> (r: bool)
        ensures
            r == self.wf(),
    {
        let mut i: usize = 0;
        while i < self.hierarchy.edge_count()
            invariant
                i <= self.hierarchy@.len(),
                forall|j: int|
                    0 <= j < i ==> self.has_node((#[trigger] self.hierarchy@[j]).0)
                        && self.has_node(self.hierarchy@[j].1) && self.hierarchy@[j].0 is SystemSet,
            decreases self.hierarchy@.len() - i,
        {
            let e = self.hierarchy.edge(i);
            if !(self.contains_node(e.0) && self.contains_node(e.1) && e.0.is_set()) {
                return false;
            }
            i += 1;
        }
        let mut i: usize = 0;
        while i < self.dependency.edge_count()
            invariant
                i <= self.dependency@.len(),
                forall|j: int|
                    0 <= j < self.hierarchy@.len() ==> self.has_node(
                        (#[trigger] self.hierarchy@[j]).0,
                    ) && self.has_node(self.hierarchy@[j].1) && self.hierarchy@[j].0 is SystemSet,
                forall|j: int|
                    0 <= j < i ==> self.has_node((#[trigger] self.dependency@[j]).0)
                        && self.has_node(self.dependency@[j].1),
            decreases self.dependency@.len() - i,
        {
            let e = self.dependency.edge(i);
            if !(self.contains_node(e.0) && self.contains_node(e.1)) {
                return false;
            }
            i += 1;
        }
        let mut i: usize = 0;
        while i < self.conflicts.len()
            invariant
                i <= self.conflicts@.len(),
                forall|j: int|
                    0 <= j < self.hierarchy@.len() ==> self.has_node(
                        (#[trigger] self.hierarchy@[j]).0,
                    ) && self.has_node(self.hierarchy@[j].1) && self.hierarchy@[j].0 is SystemSet,
                forall|j: int|
                    0 <= j < self.dependency@.len() ==> self.has_node(
                        (#[trigger] self.dependency@[j]).0,
                    ) && self.has_node(self.dependency@[j].1),
                forall|j: int|
                    0 <= j < i ==> self.has_node((#[trigger] self.conflicts@[j]).first)
                        && self.has_node(self.conflicts@[j].second)
                        && self.conflicts@[j].first is System && self.conflicts@[j].second is System,
            decreases self.conflicts@.len() - i,
        {
            let c = &self.conflicts[i];
            if !(self.contains_node(c.first) && self.contains_node(c.second) && c.first.is_system()
                && c.second.is_system()) {
                return false;
            }
            i += 1;
        }
        true
    }
}

} // verus!
