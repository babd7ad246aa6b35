//! The text of a drawing of a schedule, piece by piece: what the names of
//! the nodes are, which attributes they carry, and in which order the
//! clusters, nodes and edges are written.

use crate::classify::{Placement, placement, plain_parents, set_nodes, system_nodes};
use crate::collapse::{collapsed_into, is_collapsed, sets_at, systems_at};
use crate::dot::{
    default_attributes, edge_statement, graph_header, html_escaped, invisible_attributes,
    nested_block, node_statement,
};
use crate::graph::{lemma_node_order_total, NodeId};
use crate::inclusion::is_included;
use crate::names::short_type_name;
use crate::schedule::{Conflict, Schedule};
use crate::settings::Settings;
use crate::text::decimal;
use crate::sequences::{lemma_few_below, lemma_push_membership};
use vstd::prelude::*;

verus! {

/// The identifier of the node that is drawn for `node`.
pub open spec fn node_index_name(node: NodeId) -> Seq<char> {
    match node {
        NodeId::System(i) => "node_System("@ + decimal(i as nat) + seq![')'],
        NodeId::SystemSet(i) => "node_Set("@ + decimal(i as nat) + seq![')'],
    }
}

/// The identifier of the node inside the cluster of a set at which edges
/// to the set end.
pub open spec fn marker_name(node: NodeId) -> Seq<char> {
    "set_marker_"@ + node_index_name(node)
}

/// The name of the cluster of a set.
pub open spec fn set_cluster_name(node: NodeId) -> Seq<char> {
    "cluster"@ + node_index_name(node)
}

/// The identifier under which edges find the system `node`: that of the
/// set into whose node it has gone, else its own.
pub open spec fn system_node_ref(schedule: &Schedule, settings: &Settings, node: NodeId) -> Seq<
    char,
> {
    match collapsed_into(schedule, settings, node) {
        Some(set) => node_index_name(set),
        None => node_index_name(node),
    }
}

/// The first system of the table from place `from` on whose type is `key`.
pub open spec fn system_of_type(schedule: &Schedule, key: u64, from: int) -> Option<NodeId>
    decreases schedule.systems@.len() - from,
{
    if from < 0 || from >= schedule.systems@.len() {
        None
    } else if schedule.systems@[from].type_key == key {
        Some(NodeId::System(from as usize))
    } else {
        system_of_type(schedule, key, from + 1)
    }
}

/// The identifier under which edges find `node`. A set that stands for the
/// systems of one type is found under the first system of that type, and
/// under a placeholder where there is none.
pub open spec fn node_ref(schedule: &Schedule, settings: &Settings, node: NodeId) -> Seq<char> {
    match node {
        NodeId::System(_) => system_node_ref(schedule, settings, node),
        NodeId::SystemSet(i) => if is_collapsed(schedule, settings, node) {
            node_index_name(node)
        } else {
            match schedule.sets@[i as int].system_type {
                Some(key) => match system_of_type(schedule, key, 0) {
                    Some(system) => system_node_ref(schedule, settings, system),
                    None => "UNKNOWN "@ + short_type_name(schedule.sets@[i as int].name@),
                },
                None => marker_name(node),
            }
        },
    }
}

/// The cluster at whose border an edge to `node` ends: that of a set that
/// is drawn as a cluster, none for anything else.
pub open spec fn lref(schedule: &Schedule, settings: &Settings, node: NodeId) -> Seq<char> {
    if schedule.is_plain_set(node) && !is_collapsed(schedule, settings, node) {
        set_cluster_name(node)
    } else {
        Seq::empty()
    }
}

/// The full name of `node`.
pub open spec fn full_name(schedule: &Schedule, node: NodeId) -> Seq<char> {
    match node {
        NodeId::System(i) => schedule.systems@[i as int].name@,
        NodeId::SystemSet(i) => schedule.sets@[i as int].name@,
    }
}

/// The tooltip of a dependency edge.
pub open spec fn edge_tooltip(schedule: &Schedule, a: NodeId, b: NodeId) -> Seq<char> {
    full_name(schedule, a) + " → "@ + full_name(schedule, b)
}

/// The tooltip of a conflict.
pub open spec fn edge_tooltip_undirected(schedule: &Schedule, a: NodeId, b: NodeId) -> Seq<char> {
    full_name(schedule, a) + " — "@ + full_name(schedule, b)
}

/// The names of the given sets, each after a comma.
pub open spec fn parent_names(schedule: &Schedule, parents: Seq<NodeId>) -> Seq<char>
    decreases parents.len(),
{
    if parents.len() == 0 {
        Seq::empty()
    } else {
        parent_names(schedule, parents.drop_last()) + ", "@ + schedule.sets@[parents.last().index() as int].name@
    }
}

/// The edges from a system that several sets hold to each of these sets.
pub open spec fn membership_edges(
    schedule: &Schedule,
    settings: &Settings,
    system: NodeId,
    parents: Seq<NodeId>,
) -> Seq<char>
    decreases parents.len(),
{
    if parents.len() == 0 {
        Seq::empty()
    } else {
        membership_edges(schedule, settings, system, parents.drop_last()) + edge_statement(
            node_ref(schedule, settings, system),
            None,
            node_ref(schedule, settings, parents.last()),
            None,
            seq![
                ("dir"@, "none"@),
                ("color"@, settings.style.multiple_set_edge_color@),
                ("lhead"@, set_cluster_name(parents.last())),
            ],
        )
    }
}

/// The node of a system that several sets hold: its label names the sets.
pub open spec fn shared_system_text(schedule: &Schedule, settings: &Settings, system: NodeId) -> Seq<
    char,
> {
    let parents = plain_parents(schedule, system);
    let info = schedule.systems@[system.index() as int];
    node_statement(
        node_ref(schedule, settings, system),
        seq![
            ("label"@, info.label@ + "\nIn multiple sets"@ + parent_names(schedule, parents)),
            ("tooltip"@, info.name@),
        ],
    )
}

/// The systems of a list that several sets hold, one after the other.
pub open spec fn shared_systems_text(
    schedule: &Schedule,
    settings: &Settings,
    systems: Seq<NodeId>,
) -> Seq<char>
    decreases systems.len(),
{
    if systems.len() == 0 {
        Seq::empty()
    } else {
        shared_systems_text(schedule, settings, systems.drop_last()) + shared_system_text(
            schedule,
            settings,
            systems.last(),
        )
    }
}

/// The node of a system inside the one set that holds it, in the colours
/// of the system.
pub open spec fn member_system_text(schedule: &Schedule, settings: &Settings, system: NodeId) -> Seq<
    char,
> {
    let info = schedule.systems@[system.index() as int];
    node_statement(
        node_ref(schedule, settings, system),
        seq![
            ("label"@, info.label@),
            ("tooltip"@, info.name@),
            ("fillcolor"@, info.style.bg_color@),
            ("fontname"@, settings.style.fontname@),
            ("fontcolor"@, info.style.text_color@),
            ("color"@, info.style.border_color@),
            ("penwidth"@, info.style.border_width@),
        ],
    )
}

/// The nodes of the systems of a list, each inside the one set that holds
/// it.
pub open spec fn member_systems_text(
    schedule: &Schedule,
    settings: &Settings,
    systems: Seq<NodeId>,
) -> Seq<char>
    decreases systems.len(),
{
    if systems.len() == 0 {
        Seq::empty()
    } else {
        member_systems_text(schedule, settings, systems.drop_last()) + member_system_text(
            schedule,
            settings,
            systems.last(),
        )
    }
}

/// The node of a system on the top level.
pub open spec fn free_system_text(schedule: &Schedule, system: NodeId) -> Seq<char> {
    let info = schedule.systems@[system.index() as int];
    node_statement(node_index_name(system), seq![("label"@, info.label@), ("tooltip"@, info.name@)])
}

/// The nodes of the systems of a list on the top level.
pub open spec fn free_systems_text(schedule: &Schedule, systems: Seq<NodeId>) -> Seq<char>
    decreases systems.len(),
{
    if systems.len() == 0 {
        Seq::empty()
    } else {
        free_systems_text(schedule, systems.drop_last()) + free_system_text(schedule, systems.last())
    }
}

/// The edges from a set that several sets hold to each of these sets.
pub open spec fn shared_set_edges(
    schedule: &Schedule,
    settings: &Settings,
    set: NodeId,
    parents: Seq<NodeId>,
) -> Seq<char>
    decreases parents.len(),
{
    if parents.len() == 0 {
        Seq::empty()
    } else {
        shared_set_edges(schedule, settings, set, parents.drop_last()) + edge_statement(
            node_ref(schedule, settings, set),
            None,
            node_ref(schedule, settings, parents.last()),
            None,
            seq![
                ("dir"@, "none"@),
                ("color"@, settings.style.multiple_set_edge_color@),
                ("ltail"@, lref(schedule, settings, set)),
                ("lhead"@, lref(schedule, settings, parents.last())),
            ],
        )
    }
}

/// Whether `node` is drawn and several sets hold it.
pub open spec fn is_shared(schedule: &Schedule, settings: &Settings, node: NodeId) -> bool {
    is_included(schedule, settings, node) && schedule.is_drawn(node) && placement(
        schedule,
        node,
    ) is Shared
}

/// The edges from `node` to each of the sets that hold it, where it is
/// drawn and several sets hold it.
pub open spec fn node_memberships(schedule: &Schedule, settings: &Settings, node: NodeId) -> Seq<
    char,
> {
    if !is_shared(schedule, settings, node) {
        Seq::empty()
    } else if node is System {
        membership_edges(schedule, settings, node, plain_parents(schedule, node))
    } else {
        shared_set_edges(schedule, settings, node, plain_parents(schedule, node))
    }
}

/// The edges from those of `nodes` that several sets hold to these sets,
/// node after node.
pub open spec fn memberships_text(schedule: &Schedule, settings: &Settings, nodes: Seq<NodeId>) -> Seq<
    char,
>
    decreases nodes.len(),
{
    if nodes.len() == 0 {
        Seq::empty()
    } else {
        memberships_text(schedule, settings, nodes.drop_last()) + node_memberships(
            schedule,
            settings,
            nodes.last(),
        )
    }
}

/// The attributes of the cluster of a set.
pub open spec fn cluster_attributes(settings: &Settings, name: Seq<char>) -> Seq<
    (Seq<char>, Seq<char>),
> {
    seq![
        ("style"@, "rounded,filled"@),
        ("label"@, name),
        ("tooltip"@, name),
        ("fillcolor"@, settings.style.color_set@),
        ("fontcolor"@, settings.style.color_set_label@),
        ("color"@, settings.style.color_set_border@),
        ("penwidth"@, "2"@),
    ]
}

/// A set as it is drawn: a collapsed set as one node; any other as a
/// cluster that holds its marker, the sets inside it, and its systems.
/// `depth` says how many clusters may be nested from here on; a set that
/// would be nested deeper has no text. A depth of the number of sets of
/// the schedule is never used up (see `lemma_nesting_bound`).
pub open spec fn set_text(schedule: &Schedule, settings: &Settings, set: NodeId, depth: nat) -> Seq<
    char,
>
    decreases depth, 0nat,
{
    let name = schedule.sets@[set.index() as int].name@;
    if is_collapsed(schedule, settings, set) {
        node_statement(node_index_name(set), seq![("label"@, name), ("tooltip"@, name)])
    } else if depth == 0 {
        Seq::empty()
    } else {
        nested_block(
            graph_header(set_cluster_name(set), "subgraph"@, cluster_attributes(settings, name))
                + node_statement(marker_name(set), invisible_attributes()) + sets_text(
                schedule,
                settings,
                sets_at(schedule, settings, Placement::Within(set)),
                (depth - 1) as nat,
            ) + sets_text(
                schedule,
                settings,
                sets_at(schedule, settings, Placement::Shared(Some(set))),
                (depth - 1) as nat,
            ) + member_systems_text(
                schedule,
                settings,
                systems_at(schedule, settings, Placement::Within(set)),
            ) + shared_systems_text(
                schedule,
                settings,
                systems_at(schedule, settings, Placement::Shared(Some(set))),
            ),
        )
    }
}

/// The sets of a list as they are drawn, one after the other.
pub open spec fn sets_text(schedule: &Schedule, settings: &Settings, sets: Seq<NodeId>, depth: nat) -> Seq<
    char,
>
    decreases depth, 1nat + sets.len(),
{
    if sets.len() == 0 {
        Seq::empty()
    } else {
        sets_text(schedule, settings, sets.drop_last(), depth) + set_text(
            schedule,
            settings,
            sets.last(),
            depth,
        )
    }
}

/// Whether a node at `at` stands on the top level of the drawing.
pub open spec fn is_top_level(at: Placement) -> bool {
    at == Placement::Free || at == Placement::Shared(None)
}

/// Whether a node at `at` stands directly inside the cluster of `set`.
pub open spec fn is_inside(at: Placement, set: NodeId) -> bool {
    at == Placement::Within(set) || at == Placement::Shared(Some(set))
}

/// Whether `path` leads from a set of the top level down through the
/// clusters: each of its sets is drawn directly inside the one before.
pub open spec fn is_nesting(schedule: &Schedule, path: Seq<NodeId>) -> bool {
    &&& forall|i: int| 0 <= i < path.len() ==> schedule.is_plain_set(#[trigger] path[i])
    &&& path.len() > 0 ==> is_top_level(placement(schedule, path[0]))
    &&& forall|i: int|
        0 < i < path.len() ==> is_inside(placement(schedule, #[trigger] path[i]), path[i - 1])
}

proof fn lemma_nesting_distinct(schedule: &Schedule, path: Seq<NodeId>, i: int, j: int)
    requires
        is_nesting(schedule, path),
        0 <= i < j < path.len(),
    ensures
        path[i] != path[j],
    decreases i,
{
    if i > 0 {
        lemma_nesting_distinct(schedule, path, i - 1, j - 1);
        assert(is_inside(placement(schedule, path[i]), path[i - 1]));
        assert(is_inside(placement(schedule, path[j]), path[j - 1]));
    } else {
        assert(is_inside(placement(schedule, path[j]), path[j - 1]));
    }
}

/// Clusters are never nested deeper than the schedule has sets: a path
/// down through the clusters passes no set twice.
pub proof fn lemma_nesting_bound(schedule: &Schedule, path: Seq<NodeId>)
    requires
        is_nesting(schedule, path),
    ensures
        path.no_duplicates(),
        path.len() <= schedule.sets@.len(),
{
    assert forall|i: int, j: int| 0 <= i < path.len() && 0 <= j < path.len() && i != j implies path[i]
        != path[j] by {
        if i < j {
            lemma_nesting_distinct(schedule, path, i, j);
        } else {
            lemma_nesting_distinct(schedule, path, j, i);
        }
    }
    let numbers = Seq::new(path.len(), |i: int| path[i].index() as int);
    assert forall|i: int, j: int| 0 <= i < numbers.len() && 0 <= j < numbers.len() && i
        != j implies numbers[i] != numbers[j] by {
        assert(schedule.is_plain_set(path[i]));
        assert(schedule.is_plain_set(path[j]));
        assert(path[i] != path[j]);
    }
    assert forall|i: int| 0 <= i < numbers.len() implies 0 <= #[trigger] numbers[i]
        < schedule.sets@.len() by {
        assert(schedule.is_plain_set(path[i]));
    }
    lemma_few_below(numbers, schedule.sets@.len() as int);
}

/// Whether both ends of an edge are drawn.
pub open spec fn is_edge_drawn(schedule: &Schedule, settings: &Settings, edge: (NodeId, NodeId)) -> bool {
    is_included(schedule, settings, edge.0) && is_included(schedule, settings, edge.1)
}

/// The number of the edges both of whose ends are drawn.
pub open spec fn drawn_edge_count(
    schedule: &Schedule,
    settings: &Settings,
    edges: Seq<(NodeId, NodeId)>,
) -> nat
    decreases edges.len(),
{
    if edges.len() == 0 {
        0
    } else {
        drawn_edge_count(schedule, settings, edges.drop_last()) + if is_edge_drawn(
            schedule,
            settings,
            edges.last(),
        ) {
            1nat
        } else {
            0nat
        }
    }
}

/// One dependency edge, in the colour at place `color` of the palette.
pub open spec fn dependency_text(
    schedule: &Schedule,
    settings: &Settings,
    edge: (NodeId, NodeId),
    color: int,
) -> Seq<char> {
    edge_statement(
        node_ref(schedule, settings, edge.0),
        None,
        node_ref(schedule, settings, edge.1),
        None,
        seq![
            ("lhead"@, lref(schedule, settings, edge.1)),
            ("ltail"@, lref(schedule, settings, edge.0)),
            ("tooltip"@, edge_tooltip(schedule, edge.0, edge.1)),
            ("color"@, settings.style.color_edge@[color]@),
        ],
    )
}

/// The dependency edges both of whose ends are drawn, in their order; the
/// colours of the palette are taken in turn.
pub open spec fn dependencies_text(
    schedule: &Schedule,
    settings: &Settings,
    edges: Seq<(NodeId, NodeId)>,
) -> Seq<char>
    decreases edges.len(),
{
    if edges.len() == 0 {
        Seq::empty()
    } else {
        let before = edges.drop_last();
        dependencies_text(schedule, settings, before) + if is_edge_drawn(
            schedule,
            settings,
            edges.last(),
        ) {
            dependency_text(
                schedule,
                settings,
                edges.last(),
                drawn_edge_count(schedule, settings, before) as int
                    % settings.style.color_edge@.len() as int,
            )
        } else {
            Seq::empty()
        }
    }
}

/// The numbers of the components of a conflict.
pub open spec fn component_ids(conflict: Conflict) -> Seq<usize> {
    Seq::new(conflict.components@.len(), |i: int| conflict.components@[i].id)
}

/// The types of the components of a conflict.
pub open spec fn component_types(conflict: Conflict) -> Seq<Option<u64>> {
    Seq::new(conflict.components@.len(), |i: int| conflict.components@[i].type_key)
}

/// Whether list `a` comes before list `b`: at the first place where they
/// differ `a` has the smaller number, or `a` ends there.
pub open spec fn list_precedes(a: Seq<usize>, b: Seq<usize>) -> bool
    decreases a.len(),
{
    if b.len() == 0 {
        false
    } else if a.len() == 0 {
        true
    } else if a[0] != b[0] {
        a[0] < b[0]
    } else {
        list_precedes(a.skip(1), b.skip(1))
    }
}

/// Whether conflict `a` comes before conflict `b`: by the first system,
/// then by the second, then by the numbers of the components.
pub open spec fn conflict_precedes(a: Conflict, b: Conflict) -> bool {
    if a.first != b.first {
        a.first.precedes(b.first)
    } else if a.second != b.second {
        a.second.precedes(b.second)
    } else {
        list_precedes(component_ids(a), component_ids(b))
    }
}

/// `order`, a list of places of conflicts that is sorted, with the place
/// `place` put in after the last conflict that does not come after it.
pub open spec fn with_place(conflicts: Seq<Conflict>, order: Seq<int>, place: int) -> Seq<int>
    decreases order.len(),
{
    if order.len() == 0 {
        seq![place]
    } else if conflict_precedes(conflicts[place], conflicts[order.last()]) {
        with_place(conflicts, order.drop_last(), place).push(order.last())
    } else {
        order.push(place)
    }
}

/// The places of the first `count` conflicts, sorted by their conflicts;
/// of two conflicts of which neither comes before the other, the one that
/// stands first in the list comes first.
pub open spec fn sorted_places(conflicts: Seq<Conflict>, count: nat) -> Seq<int>
    decreases count,
{
    if count == 0 {
        Seq::empty()
    } else {
        with_place(conflicts, sorted_places(conflicts, (count - 1) as nat), count - 1)
    }
}

/// Whether neither of two conflicts comes before the other: they are
/// between the same systems on the same components.
pub open spec fn is_same_conflict(a: Conflict, b: Conflict) -> bool {
    a.first == b.first && a.second == b.second && component_ids(a) == component_ids(b)
}

proof fn lemma_list_order(a: Seq<usize>, b: Seq<usize>, c: Seq<usize>)
    ensures
        !list_precedes(a, a),
        a != b ==> (list_precedes(a, b) != list_precedes(b, a)),
        list_precedes(a, b) && list_precedes(b, c) ==> list_precedes(a, c),
    decreases a.len(),
{
    if a.len() > 0 {
        lemma_list_order(a.skip(1), b.skip(1), c.skip(1));
        lemma_list_order(a.skip(1), a.skip(1), a.skip(1));
        if b.len() > 0 && a[0] == b[0] && a != b {
            assert(a.skip(1) != b.skip(1)) by {
                if a.skip(1) == b.skip(1) {
                    assert(a =~= seq![a[0]] + a.skip(1));
                    assert(b =~= seq![b[0]] + b.skip(1));
                }
            }
        }
    } else if b.len() > 0 {
    } else {
        assert(a =~= b);
    }
}

/// The order of conflicts is an order: no conflict comes before itself; of
/// two conflicts that are not the same one comes first; and the order goes
/// on from one to the next.
pub proof fn lemma_conflict_order(a: Conflict, b: Conflict, c: Conflict)
    ensures
        !conflict_precedes(a, a),
        !is_same_conflict(a, b) ==> (conflict_precedes(a, b) != conflict_precedes(b, a)),
        is_same_conflict(a, b) ==> !conflict_precedes(a, b) && !conflict_precedes(b, a),
        conflict_precedes(a, b) && conflict_precedes(b, c) ==> conflict_precedes(a, c),
        !conflict_precedes(a, b) && !conflict_precedes(b, c) ==> !conflict_precedes(a, c),
{
    lemma_node_order_total(a.first, b.first, c.first);
    lemma_node_order_total(a.second, b.second, c.second);
    lemma_node_order_total(b.first, a.first, c.first);
    lemma_node_order_total(b.second, a.second, c.second);
    lemma_node_order_total(b.first, c.first, a.first);
    lemma_node_order_total(b.second, c.second, a.second);
    lemma_node_order_total(a.first, c.first, b.first);
    lemma_node_order_total(a.second, c.second, b.second);
    lemma_node_order_total(c.first, b.first, a.first);
    lemma_node_order_total(c.second, b.second, a.second);
    lemma_node_order_total(c.first, a.first, b.first);
    lemma_node_order_total(c.second, a.second, b.second);
    let x = component_ids(a);
    let y = component_ids(b);
    let z = component_ids(c);
    lemma_list_order(x, y, z);
    lemma_list_order(y, x, z);
    lemma_list_order(y, z, x);
    lemma_list_order(z, y, x);
    lemma_list_order(x, z, y);
    lemma_list_order(z, x, y);
}

/// Whether `order` holds places below `count`, each at most once, with
/// their conflicts in order, and conflicts that are the same in the order
/// of their places.
pub open spec fn is_in_order(conflicts: Seq<Conflict>, order: Seq<int>, count: int) -> bool {
    &&& order.no_duplicates()
    &&& forall|k: int| 0 <= k < order.len() ==> 0 <= #[trigger] order[k] < count
    &&& forall|i: int, j: int|
        0 <= i < j < order.len() ==> !conflict_precedes(
            conflicts[#[trigger] order[j]],
            conflicts[#[trigger] order[i]],
        )
    &&& forall|i: int, j: int|
        0 <= i < j < order.len() && is_same_conflict(
            conflicts[#[trigger] order[i]],
            conflicts[#[trigger] order[j]],
        ) ==> order[i] < order[j]
}

proof fn lemma_with_place(conflicts: Seq<Conflict>, order: Seq<int>, place: int)
    requires
        0 <= place,
        is_in_order(conflicts, order, place),
    ensures
        is_in_order(conflicts, with_place(conflicts, order, place), place + 1),
        with_place(conflicts, order, place).len() == order.len() + 1,
        with_place(conflicts, order, place).contains(place),
        forall|k: int| 0 <= k < order.len() ==> with_place(conflicts, order, place).contains(
            #[trigger] order[k],
        ),
        forall|k: int|
            0 <= k < with_place(conflicts, order, place).len() ==> (#[trigger] with_place(
                conflicts,
                order,
                place,
            )[k] == place || order.contains(with_place(conflicts, order, place)[k])),
        order.len() > 0 && !conflict_precedes(conflicts[place], conflicts[order.last()])
            ==> with_place(conflicts, order, place) == order.push(place),
        order.len() > 0 && conflict_precedes(conflicts[place], conflicts[order.last()])
            ==> with_place(conflicts, order, place).last() == order.last(),
    decreases order.len(),
{
    let all = with_place(conflicts, order, place);
    if order.len() == 0 {
        assert(all =~= seq![place]);
        assert(all[0] == place);
        assert(is_in_order(conflicts, all, place + 1));
    } else {
        let last = order.last();
        let rest = order.drop_last();
        assert(order =~= rest.push(last));
        if conflict_precedes(conflicts[place], conflicts[last]) {
            assert(is_in_order(conflicts, rest, place)) by {
                assert forall|k: int| 0 <= k < rest.len() implies 0 <= #[trigger] rest[k]
                    < place by {
                    assert(rest[k] == order[k]);
                }
                assert forall|i: int, j: int| 0 <= i < j < rest.len() implies !conflict_precedes(
                    conflicts[#[trigger] rest[j]],
                    conflicts[#[trigger] rest[i]],
                ) by {
                    assert(rest[i] == order[i] && rest[j] == order[j]);
                }
                assert forall|i: int, j: int|
                    0 <= i < j < rest.len() && is_same_conflict(
                        conflicts[#[trigger] rest[i]],
                        conflicts[#[trigger] rest[j]],
                    ) implies rest[i] < rest[j] by {
                    assert(rest[i] == order[i] && rest[j] == order[j]);
                }
                assert forall|i: int, j: int|
                    0 <= i < rest.len() && 0 <= j < rest.len() && i != j implies rest[i]
                    != rest[j] by {
                    assert(rest[i] == order[i] && rest[j] == order[j]);
                }
            }
            lemma_with_place(conflicts, rest, place);
            let before = with_place(conflicts, rest, place);
            assert(all == before.push(last));
            lemma_push_membership(before, last);
            assert(!before.contains(last)) by {
                if before.contains(last) {
                    let k = choose|k: int| 0 <= k < before.len() && before[k] == last;
                    assert(0 <= order[order.len() - 1] < place);
                    if before[k] != place {
                        let m = choose|m: int| 0 <= m < rest.len() && rest[m] == before[k];
                        assert(order[m] == order[order.len() - 1]);
                    }
                }
            }
            assert forall|k: int| 0 <= k < all.len() implies 0 <= #[trigger] all[k] < place
                + 1 by {
                if k < before.len() {
                    assert(all[k] == before[k]);
                } else {
                    assert(0 <= order[order.len() - 1] < place);
                }
            }
            assert forall|k: int| 0 <= k < order.len() implies all.contains(
                #[trigger] order[k],
            ) by {
                if k < rest.len() {
                    assert(rest[k] == order[k]);
                    assert(before.contains(rest[k]));
                }
            }
            assert forall|k: int| 0 <= k < all.len() implies (#[trigger] all[k] == place
                || order.contains(all[k])) by {
                if k < before.len() {
                    assert(all[k] == before[k]);
                    if before[k] != place {
                        let m = choose|m: int| 0 <= m < rest.len() && rest[m] == before[k];
                        assert(order[m] == before[k]);
                    }
                } else {
                    assert(order[order.len() - 1] == all[k]);
                }
            }
            assert forall|i: int, j: int| 0 <= i < j < all.len() implies !conflict_precedes(
                conflicts[#[trigger] all[j]],
                conflicts[#[trigger] all[i]],
            ) && (is_same_conflict(conflicts[all[i]], conflicts[all[j]]) ==> all[i] < all[j]) by {
                if j < before.len() {
                    assert(all[i] == before[i] && all[j] == before[j]);
                } else {
                    assert(all[i] == before[i]);
                    if before[i] == place {
                        lemma_conflict_order(conflicts[place], conflicts[last], conflicts[last]);
                    } else {
                        let m = choose|m: int| 0 <= m < rest.len() && rest[m] == before[i];
                        assert(order[m] == before[i]);
                        assert(!conflict_precedes(
                            conflicts[order[order.len() - 1]],
                            conflicts[order[m]],
                        ));
                        if is_same_conflict(conflicts[order[m]], conflicts[order[order.len() - 1]]) {
                            assert(order[m] < order[order.len() - 1]);
                        }
                    }
                }
            }
        } else {
            assert(all == order.push(place));
            lemma_push_membership(order, place);
            assert(!order.contains(place)) by {
                if order.contains(place) {
                    let k = choose|k: int| 0 <= k < order.len() && order[k] == place;
                    assert(0 <= order[k] < place);
                }
            }
            assert forall|k: int| 0 <= k < all.len() implies 0 <= #[trigger] all[k] < place
                + 1 by {
                if k < order.len() {
                    assert(all[k] == order[k]);
                }
            }
            assert forall|i: int, j: int| 0 <= i < j < all.len() implies !conflict_precedes(
                conflicts[#[trigger] all[j]],
                conflicts[#[trigger] all[i]],
            ) && (is_same_conflict(conflicts[all[i]], conflicts[all[j]]) ==> all[i] < all[j]) by {
                assert(all[i] == order[i]);
                if j < order.len() {
                    assert(all[j] == order[j]);
                } else {
                    assert(0 <= order[i] < place);
                    if i < order.len() - 1 {
                        assert(!conflict_precedes(
                            conflicts[order[order.len() - 1]],
                            conflicts[order[i]],
                        ));
                        lemma_conflict_order(conflicts[place], conflicts[last], conflicts[order[i]]);
                    }
                }
            }
            assert forall|k: int| 0 <= k < order.len() implies all.contains(
                #[trigger] order[k],
            ) by {
                assert(all[k] == order[k]);
            }
            assert forall|k: int| 0 <= k < all.len() implies (#[trigger] all[k] == place
                || order.contains(all[k])) by {
                if k < order.len() {
                    assert(all[k] == order[k]);
                }
            }
            assert(all[all.len() - 1] == place);
        }
    }
}

/// The sorted places are the places of the conflicts, each once, with
/// their conflicts in order; conflicts that are the same keep the order in
/// which they stand.
pub proof fn lemma_sorted_places(conflicts: Seq<Conflict>, count: nat)
    ensures
        sorted_places(conflicts, count).len() == count,
        is_in_order(conflicts, sorted_places(conflicts, count), count as int),
        forall|place: int| 0 <= place < count ==> sorted_places(conflicts, count).contains(place),
    decreases count,
{
    if count > 0 {
        lemma_sorted_places(conflicts, (count - 1) as nat);
        let before = sorted_places(conflicts, (count - 1) as nat);
        lemma_with_place(conflicts, before, count - 1);
        let all = sorted_places(conflicts, count);
        assert(all == with_place(conflicts, before, count - 1));
        assert forall|place: int| 0 <= place < count implies all.contains(place) by {
            if place < count - 1 {
                assert(before.contains(place));
                let k = choose|k: int| 0 <= k < before.len() && before[k] == place;
                assert(all.contains(before[k]));
            }
        }
    }
}

/// The rows of the label of a conflict: one for each component, with its
/// short name.
pub open spec fn component_rows(settings: &Settings, conflict: Conflict, count: int) -> Seq<char>
    decreases count,
{
    if count <= 0 {
        Seq::empty()
    } else {
        component_rows(settings, conflict, count - 1) + "<tr><td bgcolor=\""@
            + settings.style.ambiguity_bgcolor@ + "\">"@ + html_escaped(
            short_type_name(conflict.components@[count - 1].name@),
        ) + "</td></tr>"@
    }
}

/// The label of a conflict: the word `World` for a conflict on the whole
/// world, else a table of the components, marked as text that is written
/// as it is.
pub open spec fn conflict_label(settings: &Settings, conflict: Conflict) -> Seq<char> {
    if conflict.components@.len() == 0 {
        "World"@
    } else {
        "RAW:<<table border=\"0\" cellborder=\"0\">"@ + component_rows(
            settings,
            conflict,
            conflict.components@.len() as int,
        ) + "</table>>"@
    }
}

/// Whether the conflict at place `place` is drawn: both systems are drawn,
/// it is on components or conflicts on the whole world are asked for, and
/// the filter, if one is set, takes it.
pub open spec fn is_conflict_drawn(schedule: &Schedule, settings: &Settings, place: int) -> bool {
    let conflict = schedule.conflicts@[place];
    &&& is_included(schedule, settings, conflict.first)
    &&& is_included(schedule, settings, conflict.second)
    &&& (conflict.components@.len() > 0 || settings.ambiguity_enable_on_world)
    &&& match settings.include_ambiguity {
        Some(filter) => filter.accepts(place, component_types(conflict)),
        None => true,
    }
}

/// The edge of one conflict.
pub open spec fn conflict_text(schedule: &Schedule, settings: &Settings, conflict: Conflict) -> Seq<
    char,
> {
    edge_statement(
        node_ref(schedule, settings, conflict.first),
        None,
        node_ref(schedule, settings, conflict.second),
        None,
        seq![
            ("dir"@, "none"@),
            ("constraint"@, "false"@),
            ("color"@, settings.style.ambiguity_color@),
            ("fontcolor"@, settings.style.ambiguity_color@),
            ("label"@, conflict_label(settings, conflict)),
            ("labeltooltip"@, edge_tooltip_undirected(schedule, conflict.first, conflict.second)),
        ],
    )
}

/// The edges of the conflicts at the given places that are drawn.
pub open spec fn conflicts_text(schedule: &Schedule, settings: &Settings, places: Seq<int>) -> Seq<
    char,
>
    decreases places.len(),
{
    if places.len() == 0 {
        Seq::empty()
    } else {
        conflicts_text(schedule, settings, places.drop_last()) + if is_conflict_drawn(
            schedule,
            settings,
            places.last(),
        ) {
            conflict_text(schedule, settings, schedule.conflicts@[places.last()])
        } else {
            Seq::empty()
        }
    }
}

/// The opening of the drawing: the graph with its attributes, and the
/// attributes that all edges and all nodes have.
pub open spec fn document_header(settings: &Settings) -> Seq<char> {
    graph_header(
        Seq::empty(),
        "digraph"@,
        seq![
            ("compound"@, "true"@),
            ("splines"@, settings.style.edge_style.spec_as_dot()),
            ("rankdir"@, settings.style.schedule_rankdir.spec_as_dot()),
            ("bgcolor"@, settings.style.color_background@),
            ("fontname"@, settings.style.fontname@),
            ("nodesep"@, "0.15"@),
        ],
    ) + default_attributes("edge"@, seq![("penwidth"@, settings.style.penwidth_edge@)])
        + default_attributes("node"@, seq![("shape"@, "box"@), ("style"@, "filled"@)])
}

/// The drawing of a schedule with the given dependency edges, pass after
/// pass: the sets of the top level with all that is inside them; the
/// systems of the top level; for the systems and then the sets that
/// several sets hold, an edge to each of these sets; the dependency edges;
/// and, where they are asked for, the conflicts in their order.
pub open spec fn document(
    schedule: &Schedule,
    settings: &Settings,
    dependencies: Seq<(NodeId, NodeId)>,
) -> Seq<char> {
    document_header(settings) + sets_text(
        schedule,
        settings,
        sets_at(schedule, settings, Placement::Free),
        schedule.sets@.len(),
    ) + sets_text(
        schedule,
        settings,
        sets_at(schedule, settings, Placement::Shared(None)),
        schedule.sets@.len(),
    ) + free_systems_text(schedule, systems_at(schedule, settings, Placement::Free))
        + shared_systems_text(
        schedule,
        settings,
        systems_at(schedule, settings, Placement::Shared(None)),
    ) + memberships_text(schedule, settings, system_nodes(schedule)) + memberships_text(
        schedule,
        settings,
        set_nodes(schedule),
    ) + dependencies_text(schedule, settings, dependencies) + (if settings.ambiguity_enable {
        conflicts_text(
            schedule,
            settings,
            sorted_places(schedule.conflicts@, schedule.conflicts@.len()),
        )
    } else {
        Seq::empty()
    }) + seq!['}', '\n']
}

} // verus!
