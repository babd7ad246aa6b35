use bevy_mod_debugdump::classify::{
    ancestors_of_node, classify, hierarchy_parents, iter_single, lowest_common_ancestor, place_of,
    IterSingleResult, Placement,
};
use bevy_mod_debugdump::collapse::collapse;
use bevy_mod_debugdump::collections::{NodeMap, NodeSet};
use bevy_mod_debugdump::graph::{DiGraph, Direction, NodeId};
use bevy_mod_debugdump::inclusion::included_systems_sets;
use bevy_mod_debugdump::reduction::{is_reachable, topological_order, transitive_reduction};
use bevy_mod_debugdump::schedule::{Conflict, Schedule, SetInfo, SystemInfo};
use bevy_mod_debugdump::search::breadth_first_search;
use bevy_mod_debugdump::settings::{NodeStyle, Settings, SystemFilter};

fn sys(i: usize) -> NodeId {
    NodeId::System(i)
}

fn set(i: usize) -> NodeId {
    NodeId::SystemSet(i)
}

fn graph(edges: &[(NodeId, NodeId)]) -> DiGraph {
    let mut g = DiGraph::new();
    for &(a, b) in edges {
        g.add_edge(a, b);
    }
    g
}

fn system_info(name: &str) -> SystemInfo {
    SystemInfo {
        name: name.to_string(),
        label: name.to_string(),
        type_key: 0,
        style: NodeStyle {
            bg_color: String::new(),
            text_color: String::new(),
            border_color: String::new(),
            border_width: String::new(),
        },
    }
}

fn schedule(
    systems: &[&str],
    sets: usize,
    hierarchy: &[(NodeId, NodeId)],
    dependency: &[(NodeId, NodeId)],
) -> Schedule {
    Schedule {
        systems: systems.iter().map(|name| system_info(name)).collect(),
        sets: (0..sets).map(|i| SetInfo { name: format!("S{i}"), system_type: None }).collect(),
        hierarchy: graph(hierarchy),
        dependency: graph(dependency),
        conflicts: vec![],
    }
}

fn nodes_of(all: &NodeSet, schedule: &Schedule) -> Vec<NodeId> {
    let mut found = vec![];
    for i in 0..schedule.systems.len() + 2 {
        if all.contains(sys(i)) {
            found.push(sys(i));
        }
    }
    for i in 0..schedule.sets.len() + 2 {
        if all.contains(set(i)) {
            found.push(set(i));
        }
    }
    found
}

#[test]
fn node_order_and_kind() {
    assert!(sys(3).is_system() && !sys(3).is_set());
    assert!(set(3).is_set() && !set(3).is_system());
    assert_eq!(sys(7).index(), 7);
    assert_eq!(set(9).index(), 9);
    assert!(sys(9).is_before(&set(0)));
    assert!(!set(0).is_before(&sys(9)));
    assert!(sys(1).is_before(&sys(2)));
    assert!(!sys(2).is_before(&sys(2)));
    assert!(set(0).is_before(&set(1)));
    assert!(sys(0) < set(0) && sys(1) < sys(2));
}

#[test]
fn graph_keeps_each_edge_once_in_order() {
    let mut g = DiGraph::new();
    assert_eq!(g.edge_count(), 0);
    g.add_edge(sys(0), sys(1));
    g.add_edge(sys(2), sys(1));
    g.add_edge(sys(0), sys(1));
    g.add_edge(sys(1), sys(0));
    assert_eq!(g.all_edges(), vec![(sys(0), sys(1)), (sys(2), sys(1)), (sys(1), sys(0))]);
    assert_eq!(g.edge(1), (sys(2), sys(1)));
    assert!(g.contains_edge(sys(2), sys(1)));
    assert!(!g.contains_edge(sys(1), sys(2)));
    assert_eq!(g.neighbors_directed(sys(1), Direction::Incoming), vec![sys(0), sys(2)]);
    assert_eq!(g.neighbors_directed(sys(1), Direction::Outgoing), vec![sys(0)]);
    assert_eq!(g.neighbors_directed(sys(5), Direction::Outgoing), vec![]);
    assert_eq!(g.without_edge(1).all_edges(), vec![(sys(0), sys(1)), (sys(1), sys(0))]);
    assert_eq!(g.duplicate().all_edges(), g.all_edges());
}

#[test]
fn node_sets_and_maps() {
    let mut seen = NodeSet::new();
    assert!(!seen.contains(sys(1)));
    assert!(seen.insert(sys(1)));
    assert!(!seen.insert(sys(1)));
    assert!(seen.insert(set(1)));
    assert!(seen.contains(sys(1)) && seen.contains(set(1)) && !seen.contains(sys(0)));

    let mut map = NodeMap::new();
    assert_eq!(map.get(set(0)), None);
    map.push(set(0), sys(4));
    map.push(set(0), sys(2));
    map.push(sys(0), set(0));
    assert_eq!(map.get(set(0)), Some(&vec![sys(4), sys(2)]));
    assert_eq!(map.get(sys(0)), Some(&vec![set(0)]));
    assert_eq!(map.get(set(1)), None);
}

#[test]
fn breadth_first_search_goes_level_by_level() {
    let g = graph(&[
        (sys(0), sys(2)),
        (sys(0), sys(1)),
        (sys(1), sys(3)),
        (sys(2), sys(3)),
        (sys(2), sys(4)),
        (sys(4), sys(0)),
        (sys(5), sys(0)),
    ]);
    assert_eq!(
        breadth_first_search(&g, sys(0), Direction::Outgoing),
        vec![sys(0), sys(2), sys(1), sys(3), sys(4)]
    );
    assert_eq!(
        breadth_first_search(&g, sys(3), Direction::Incoming),
        vec![sys(3), sys(1), sys(2), sys(0), sys(4), sys(5)]
    );
    assert_eq!(breadth_first_search(&g, sys(9), Direction::Outgoing), vec![sys(9)]);
    assert_eq!(breadth_first_search(&DiGraph::new(), sys(0), Direction::Incoming), vec![sys(0)]);
}

#[test]
fn reachability() {
    let g = graph(&[(sys(0), sys(1)), (sys(1), sys(2)), (sys(3), sys(2))]);
    assert!(is_reachable(&g, sys(0), sys(2)));
    assert!(is_reachable(&g, sys(0), sys(0)));
    assert!(!is_reachable(&g, sys(2), sys(0)));
    assert!(!is_reachable(&g, sys(0), sys(3)));
    assert!(is_reachable(&g, sys(7), sys(7)));
}

#[test]
fn topological_order_has_every_node_once() {
    let g = graph(&[(sys(2), sys(3)), (sys(0), sys(1)), (sys(1), sys(2)), (sys(0), sys(3))]);
    let order = topological_order(&g);
    let mut sorted = order.clone();
    sorted.sort();
    assert_eq!(sorted, vec![sys(0), sys(1), sys(2), sys(3)]);
    for (from, to) in g.all_edges() {
        let a = order.iter().position(|n| *n == from).unwrap();
        let b = order.iter().position(|n| *n == to).unwrap();
        assert!(a < b, "{from:?} comes before {to:?}");
    }
    assert_eq!(topological_order(&DiGraph::new()), vec![]);
}

#[test]
fn transitive_edge_is_removed() {
    let (a, b, c) = (sys(0), sys(1), sys(2));
    let g = graph(&[(a, b), (b, c), (a, c)]);
    assert_eq!(transitive_reduction(&g).all_edges(), vec![(a, b), (b, c)]);

    let g = graph(&[(a, c), (a, b), (b, c)]);
    assert_eq!(transitive_reduction(&g).all_edges(), vec![(a, b), (b, c)]);
}

#[test]
fn reduction_keeps_what_is_needed() {
    let g = graph(&[(sys(0), sys(1)), (sys(0), sys(2)), (sys(1), sys(3)), (sys(2), sys(3))]);
    assert_eq!(transitive_reduction(&g).all_edges(), g.all_edges());
    assert_eq!(transitive_reduction(&DiGraph::new()).all_edges(), vec![]);

    let long = graph(&[
        (sys(0), sys(4)),
        (sys(0), sys(1)),
        (sys(1), sys(2)),
        (sys(0), sys(2)),
        (sys(2), sys(3)),
        (sys(1), sys(3)),
        (sys(3), sys(4)),
        (set(0), sys(0)),
        (set(0), sys(4)),
    ]);
    let reduced = transitive_reduction(&long);
    assert_eq!(
        reduced.all_edges(),
        vec![
            (sys(0), sys(1)),
            (sys(1), sys(2)),
            (sys(2), sys(3)),
            (sys(3), sys(4)),
            (set(0), sys(0)),
        ]
    );
    let nodes = [sys(0), sys(1), sys(2), sys(3), sys(4), set(0)];
    for &u in &nodes {
        for &v in &nodes {
            assert_eq!(is_reachable(&long, u, v), is_reachable(&reduced, u, v));
        }
    }
}

#[test]
fn reduction_of_a_cycle_keeps_reachability() {
    let g = graph(&[(sys(0), sys(1)), (sys(1), sys(2)), (sys(2), sys(0)), (sys(0), sys(2))]);
    let reduced = transitive_reduction(&g);
    assert!(reduced.edge_count() <= g.edge_count());
    for u in 0..3 {
        for v in 0..3 {
            assert!(is_reachable(&reduced, sys(u), sys(v)));
        }
    }
    for i in 0..reduced.edge_count() {
        let (from, to) = reduced.edge(i);
        assert!(!is_reachable(&reduced.without_edge(i), from, to));
    }
}

#[test]
fn iter_single_tells_none_one_and_more() {
    assert_eq!(iter_single(Vec::<u8>::new()), IterSingleResult::Empty);
    assert_eq!(iter_single(vec![5u8]), IterSingleResult::Single(5));
    assert_eq!(iter_single(vec![5u8, 6]), IterSingleResult::Multiple(vec![5, 6]));
    assert_eq!(iter_single(vec!["a", "b", "c"]), IterSingleResult::Multiple(vec!["a", "b", "c"]));
}

#[test]
fn parents_leave_out_sets_of_a_system_type() {
    let mut s = schedule(&["x"], 3, &[(set(0), sys(0)), (set(1), sys(0)), (set(2), sys(0))], &[]);
    s.sets[1].system_type = Some(4);
    assert_eq!(hierarchy_parents(sys(0), &s), vec![set(0), set(2)]);
    assert_eq!(hierarchy_parents(set(0), &s), vec![]);
    assert_eq!(place_of(&s, set(0)), Placement::Free);
    s.sets[2].system_type = Some(5);
    assert_eq!(place_of(&s, sys(0)), Placement::Within(set(0)));
}

#[test]
fn lowest_common_ancestor_one_level_up() {
    let (left, right, r, top) = (set(0), set(1), set(2), set(3));
    let h = graph(&[(top, r), (r, left), (r, right), (left, sys(0)), (right, sys(0))]);
    assert_eq!(lowest_common_ancestor(&vec![left, right], &h), Some(r));
    assert_eq!(lowest_common_ancestor(&vec![right, left], &h), Some(r));
    assert_eq!(ancestors_of_node(right, &h), vec![right, r, top]);
    assert_eq!(ancestors_of_node(sys(0), &h), vec![sys(0), left, right, r, top]);
}

#[test]
fn lowest_common_ancestor_without_common_ancestor() {
    let (left, right, a, b) = (set(0), set(1), set(2), set(3));
    let h = graph(&[(a, left), (b, right), (left, sys(0)), (right, sys(0))]);
    assert_eq!(lowest_common_ancestor(&vec![left, right], &h), None);
    assert_eq!(lowest_common_ancestor(&vec![left], &h), Some(left));
}

#[test]
fn lowest_common_ancestor_may_be_a_parent() {
    let (left, right, third) = (set(0), set(1), set(2));
    let h = graph(&[(left, right), (right, third), (left, sys(0)), (right, sys(0)), (third, sys(0))]);
    assert_eq!(lowest_common_ancestor(&vec![left, right, third], &h), Some(left));
    assert_eq!(lowest_common_ancestor(&vec![third, right], &h), Some(right));
    // of two common ancestors the one that the search from the last parent meets first
    let h = graph(&[(set(5), left), (set(6), left), (set(6), right), (set(5), right)]);
    assert_eq!(lowest_common_ancestor(&vec![left, right], &h), Some(set(6)));
    assert_eq!(lowest_common_ancestor(&vec![right, left], &h), Some(set(5)));
}

#[test]
fn every_included_node_is_in_exactly_one_bucket() {
    let s = schedule(
        &["a", "b", "c", "d"],
        5,
        &[
            (set(0), sys(0)),
            (set(0), set(1)),
            (set(1), sys(1)),
            (set(1), sys(2)),
            (set(2), sys(2)),
            (set(0), set(2)),
            (set(3), sys(3)),
            (set(4), sys(3)),
        ],
        &[],
    );
    let settings = Settings::default();
    let included = included_systems_sets(&s, &settings);
    let sorted = classify(&s, &included);
    assert_eq!(sorted.systems.freestanding, vec![]);
    assert_eq!(sorted.systems.in_single_set.get(set(0)), Some(&vec![sys(0)]));
    assert_eq!(sorted.systems.in_single_set.get(set(1)), Some(&vec![sys(1)]));
    assert_eq!(sorted.systems.in_multiple_sets.get(set(0)), Some(&vec![sys(2)]));
    assert_eq!(sorted.systems.in_multiple_sets_top, vec![sys(3)]);
    assert_eq!(sorted.sets.freestanding, vec![set(0), set(3), set(4)]);
    assert_eq!(sorted.sets.in_single_set.get(set(0)), Some(&vec![set(1), set(2)]));
    assert_eq!(sorted.sets.in_multiple_sets_top, vec![]);

    let mut times = std::collections::BTreeMap::new();
    let mut count = |nodes: &Vec<NodeId>| {
        for node in nodes {
            *times.entry(*node).or_insert(0) += 1;
        }
    };
    for buckets in [&sorted.systems, &sorted.sets] {
        count(&buckets.freestanding);
        count(&buckets.in_multiple_sets_top);
        for i in 0..5 {
            for map in [&buckets.in_single_set, &buckets.in_multiple_sets] {
                if let Some(list) = map.get(set(i)) {
                    count(list);
                }
            }
        }
    }
    let all = nodes_of(&included, &s);
    assert_eq!(all.len(), 9);
    assert_eq!(times.keys().copied().collect::<Vec<_>>(), all);
    assert!(times.values().all(|n| *n == 1));
}

#[test]
fn without_a_filter_every_node_is_included() {
    let s = schedule(&["a", "b"], 2, &[(set(0), sys(0))], &[]);
    let included = included_systems_sets(&s, &Settings::default());
    assert_eq!(nodes_of(&included, &s), vec![sys(0), sys(1), set(0), set(1)]);
}

#[test]
fn filter_includes_ancestors_roots_and_neighbours() {
    let s = schedule(
        &["mine::a", "other::b", "other::c", "other::d", "mine::e"],
        6,
        &[
            (set(0), set(1)),
            (set(1), sys(0)),
            (set(2), sys(1)),
            (set(3), set(2)),
            (set(4), sys(3)),
            (set(5), set(4)),
        ],
        &[(sys(0), sys(1)), (sys(2), sys(4)), (sys(2), sys(3))],
    );
    let settings = Settings::default().filter_in_crate("mine");
    let included = included_systems_sets(&s, &settings);
    assert_eq!(
        nodes_of(&included, &s),
        vec![sys(0), sys(1), sys(2), sys(4), set(0), set(1), set(2), set(3), set(5)]
    );
    // with every included node all that stands above it is included
    for node in nodes_of(&included, &s) {
        for above in ancestors_of_node(node, &s.hierarchy) {
            assert!(included.contains(above), "{above:?} above {node:?}");
        }
    }
}

#[test]
fn filters_by_name_and_by_choice() {
    let s = schedule(&["mine::a", "other::b", "yours::c"], 0, &[], &[]);
    let names: Vec<&str> = s.systems.iter().map(|system| system.name.as_str()).collect();

    let by_name = Settings::default().filter_name(&names, |name: &str| name.ends_with("b"));
    assert_eq!(nodes_of(&included_systems_sets(&s, &by_name), &s), vec![sys(1)]);

    let crates = Settings::default().filter_in_crates(&["yours", "mine::"]);
    assert_eq!(nodes_of(&included_systems_sets(&s, &crates), &s), vec![sys(0), sys(2)]);

    let mut chosen = Settings::default();
    chosen.include_system = Some(SystemFilter::Chosen(vec![false, true]));
    assert_eq!(nodes_of(&included_systems_sets(&s, &chosen), &s), vec![sys(1)]);

    let none = Settings::default().filter_in_crates(&[]);
    assert_eq!(nodes_of(&included_systems_sets(&s, &none), &s), vec![]);
}

#[test]
fn conflicts_add_nothing_to_the_included_nodes() {
    let mut s = schedule(&["mine::a", "other::b", "mine::c"], 0, &[], &[]);
    s.conflicts = vec![
        Conflict { first: sys(0), second: sys(1), components: vec![] },
        Conflict { first: sys(0), second: sys(2), components: vec![] },
    ];
    let mut settings = Settings::default().filter_in_crate("mine");
    settings.ambiguity_enable = true;
    settings.ambiguity_enable_on_world = true;
    assert_eq!(nodes_of(&included_systems_sets(&s, &settings), &s), vec![sys(0), sys(2)]);
}

#[test]
fn collapsed_sets_and_their_systems() {
    let s = schedule(
        &["a", "b", "c", "d"],
        5,
        &[
            (set(0), sys(0)),
            (set(1), sys(1)),
            (set(1), sys(2)),
            (set(2), set(3)),
            (set(3), sys(3)),
            (set(4), sys(3)),
        ],
        &[],
    );
    let mut settings = Settings::default();
    settings.collapse_single_system_sets = true;
    let included = included_systems_sets(&s, &settings);
    let sorted = classify(&s, &included);
    let collapsed = collapse(&s, &settings, &included, &sorted.systems, &sorted.sets);
    // one system; two systems; a set inside; a system shared with another set
    assert!(collapsed.sets.contains(set(0)));
    assert!(!collapsed.sets.contains(set(1)));
    assert!(!collapsed.sets.contains(set(2)));
    assert!(collapsed.sets.contains(set(3)));
    assert!(collapsed.sets.contains(set(4)));
    assert_eq!(collapsed.children.get(sys(0)), Some(&vec![set(0)]));
    assert_eq!(collapsed.children.get(sys(1)), None);
    assert_eq!(collapsed.children.get(sys(3)), None);

    settings.collapse_single_system_sets = false;
    let collapsed = collapse(&s, &settings, &included, &sorted.systems, &sorted.sets);
    assert!(!collapsed.sets.contains(set(0)));
    assert_eq!(collapsed.children.get(sys(0)), None);
}
