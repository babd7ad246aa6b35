use bevy_mod_debugdump::graph::{DiGraph, NodeId};
use bevy_mod_debugdump::schedule::{ComponentInfo, Conflict, Schedule, SetInfo, SystemInfo};
use bevy_mod_debugdump::schedule_graph::{
    marker_name, node_index_name, schedule_graph_dot, schedule_graph_dot_with, set_cluster_name,
    sort_conflicts,
};
use bevy_mod_debugdump::settings::{NodeStyle, Settings};

fn system(name: &str) -> SystemInfo {
    SystemInfo {
        name: format!("game::{name}"),
        label: name.to_string(),
        type_key: 0,
        style: NodeStyle {
            bg_color: "#eff1f3".to_string(),
            text_color: "#15191d".to_string(),
            border_color: "#b4bec7".to_string(),
            border_width: "1".to_string(),
        },
    }
}

fn set(name: &str) -> SetInfo {
    SetInfo { name: name.to_string(), system_type: None }
}

fn graph(edges: &[(NodeId, NodeId)]) -> DiGraph {
    let mut g = DiGraph::new();
    for &(a, b) in edges {
        g.add_edge(a, b);
    }
    g
}

const A: NodeId = NodeId::System(0);
const B: NodeId = NodeId::System(1);
const C: NodeId = NodeId::System(2);
const S1: NodeId = NodeId::SystemSet(0);

fn three_systems() -> Schedule {
    Schedule {
        systems: vec![system("a"), system("b"), system("c")],
        sets: vec![set("S1")],
        hierarchy: graph(&[(S1, A), (S1, B)]),
        dependency: graph(&[(A, C), (B, C)]),
        conflicts: vec![],
    }
}

const HEADER: &str = "digraph \"\" {\n\
\t\"compound\"=\"true\";\n\
\t\"splines\"=\"spline\";\n\
\t\"rankdir\"=\"LR\";\n\
\t\"bgcolor\"=\"#0d1117\";\n\
\t\"fontname\"=\"Helvetica\";\n\
\t\"nodesep\"=\"0.15\";\n\
\tedge [\"penwidth\"=\"2\"];\n\
\tnode [\"shape\"=\"box\", \"style\"=\"filled\"];\n";

#[test]
fn names_of_nodes() {
    assert_eq!(node_index_name(NodeId::System(0)), "node_System(0)");
    assert_eq!(node_index_name(NodeId::SystemSet(42)), "node_Set(42)");
    assert_eq!(marker_name(NodeId::SystemSet(7)), "set_marker_node_Set(7)");
    assert_eq!(set_cluster_name(NodeId::SystemSet(120)), "clusternode_Set(120)");
}

#[test]
fn three_systems_one_set() {
    let schedule = three_systems();
    assert!(schedule.is_well_formed());
    let dot = schedule_graph_dot(&schedule, &Settings::default());
    let expected = format!(
        "{HEADER}\
\tsubgraph \"clusternode_Set(0)\" {{\n\
\t\t\"style\"=\"rounded,filled\";\n\
\t\t\"label\"=\"S1\";\n\
\t\t\"tooltip\"=\"S1\";\n\
\t\t\"fillcolor\"=\"#ffffff44\";\n\
\t\t\"fontcolor\"=\"#ffffff\";\n\
\t\t\"color\"=\"#ffffff50\";\n\
\t\t\"penwidth\"=\"2\";\n\
\t\t\"set_marker_node_Set(0)\" [\"style\"=\"invis\", \"label\"=\"\", \"shape\"=\"point\"]\n\
\t\t\"node_System(0)\" [\"label\"=\"a\", \"tooltip\"=\"game::a\", \"fillcolor\"=\"#eff1f3\", \"fontname\"=\"Helvetica\", \"fontcolor\"=\"#15191d\", \"color\"=\"#b4bec7\", \"penwidth\"=\"1\"]\n\
\t\t\"node_System(1)\" [\"label\"=\"b\", \"tooltip\"=\"game::b\", \"fillcolor\"=\"#eff1f3\", \"fontname\"=\"Helvetica\", \"fontcolor\"=\"#15191d\", \"color\"=\"#b4bec7\", \"penwidth\"=\"1\"]\n\
\t}}\n\
\t\n\
\t\"node_System(2)\" [\"label\"=\"c\", \"tooltip\"=\"game::c\"]\n\
\t\"node_System(0)\" -> \"node_System(2)\" [\"lhead\"=\"\", \"ltail\"=\"\", \"tooltip\"=\"game::a → game::c\", \"color\"=\"#eede00\"]\n\
\t\"node_System(1)\" -> \"node_System(2)\" [\"lhead\"=\"\", \"ltail\"=\"\", \"tooltip\"=\"game::b → game::c\", \"color\"=\"#881877\"]\n\
}}\n"
    );
    assert_eq!(dot, expected);
    assert_eq!(dot.matches("subgraph").count(), 1);
    assert_eq!(dot.matches(" -> \"node_System(2)\"").count(), 2);
}

#[test]
fn edge_from_a_set_ends_at_its_cluster() {
    let mut schedule = three_systems();
    schedule.dependency = graph(&[(S1, C)]);
    let dot = schedule_graph_dot(&schedule, &Settings::default());
    assert!(dot.contains(
        "\t\"set_marker_node_Set(0)\" -> \"node_System(2)\" [\"lhead\"=\"\", \"ltail\"=\"clusternode_Set(0)\", \"tooltip\"=\"S1 → game::c\", \"color\"=\"#eede00\"]\n"
    ));
}

#[test]
fn single_system_set_collapses() {
    let d = NodeId::System(0);
    let e = NodeId::System(1);
    let s2 = NodeId::SystemSet(0);
    let schedule = Schedule {
        systems: vec![system("d"), system("e")],
        sets: vec![set("S2")],
        hierarchy: graph(&[(s2, d)]),
        dependency: graph(&[(e, d)]),
        conflicts: vec![],
    };
    let mut settings = Settings::default();
    settings.collapse_single_system_sets = true;
    let dot = schedule_graph_dot(&schedule, &settings);
    let expected = format!(
        "{HEADER}\
\t\"node_Set(0)\" [\"label\"=\"S2\", \"tooltip\"=\"S2\"]\n\
\t\"node_System(1)\" [\"label\"=\"e\", \"tooltip\"=\"game::e\"]\n\
\t\"node_System(1)\" -> \"node_Set(0)\" [\"lhead\"=\"\", \"ltail\"=\"\", \"tooltip\"=\"game::e → game::d\", \"color\"=\"#eede00\"]\n\
}}\n"
    );
    assert_eq!(dot, expected);
    assert!(!dot.contains("subgraph"));
    assert!(!dot.contains("node_System(0)"));
}

#[test]
fn set_with_two_systems_does_not_collapse() {
    let mut settings = Settings::default();
    settings.collapse_single_system_sets = true;
    let dot = schedule_graph_dot(&three_systems(), &settings);
    assert!(dot.contains("subgraph \"clusternode_Set(0)\""));
}

#[test]
fn transitive_edge_is_not_drawn_by_default() {
    let mut schedule = three_systems();
    schedule.dependency = graph(&[(A, B), (B, C), (A, C)]);
    let dot = schedule_graph_dot(&schedule, &Settings::default());
    assert!(dot.contains("\"node_System(0)\" -> \"node_System(1)\""));
    assert!(dot.contains("\"node_System(1)\" -> \"node_System(2)\""));
    assert!(!dot.contains("\"node_System(0)\" -> \"node_System(2)\""));

    let mut settings = Settings::default();
    settings.remove_transitive_edges = false;
    let dot = schedule_graph_dot(&schedule, &settings);
    assert!(dot.contains("\"node_System(0)\" -> \"node_System(2)\""));
}

#[test]
fn edge_colors_go_round() {
    let mut schedule = three_systems();
    schedule.dependency = graph(&[(A, B), (B, C), (A, C)]);
    let mut settings = Settings::default();
    settings.style.color_edge = vec!["red".to_string(), "green".to_string()];
    let dot = schedule_graph_dot_with(&schedule, &settings, &schedule.dependency);
    let colors: Vec<&str> = dot
        .lines()
        .filter(|line| line.contains(" -> "))
        .map(|line| if line.contains("\"color\"=\"red\"") { "red" } else { "green" })
        .collect();
    assert_eq!(colors, vec!["red", "green", "red"]);
}

#[test]
fn system_in_two_sets_gets_membership_edges() {
    let x = NodeId::System(0);
    let left = NodeId::SystemSet(0);
    let right = NodeId::SystemSet(1);
    let root = NodeId::SystemSet(2);
    let schedule = Schedule {
        systems: vec![system("x")],
        sets: vec![set("Left"), set("Right"), set("Root")],
        hierarchy: graph(&[(root, left), (root, right), (left, x), (right, x)]),
        dependency: DiGraph::new(),
        conflicts: vec![],
    };
    let dot = schedule_graph_dot(&schedule, &Settings::default());
    assert!(dot.contains(
        "\t\t\"node_System(0)\" [\"label\"=\"x\n\tIn multiple sets, Left, Right\", \"tooltip\"=\"game::x\"]\n"
    ));
    // the system stands inside the common ancestor, beside the two sets
    let root_at = dot.find("subgraph \"clusternode_Set(2)\"");
    let left_at = dot.find("subgraph \"clusternode_Set(0)\"");
    let node_at = dot.find("\"node_System(0)\" [");
    assert!(root_at < left_at && left_at < node_at);
    assert_eq!(dot.matches("\"node_System(0)\" [").count(), 1);
    // its edges to the sets come after all nodes, on the top level
    assert!(dot.ends_with(
        "\t}\n\
\t\n\
\t\"node_System(0)\" -> \"set_marker_node_Set(0)\" [\"dir\"=\"none\", \"color\"=\"blue\", \"lhead\"=\"clusternode_Set(0)\"]\n\
\t\"node_System(0)\" -> \"set_marker_node_Set(1)\" [\"dir\"=\"none\", \"color\"=\"blue\", \"lhead\"=\"clusternode_Set(1)\"]\n\
}\n"
    ));
}

#[test]
fn memberships_come_after_the_nodes_and_before_the_dependencies() {
    let x = NodeId::System(0);
    let y = NodeId::System(1);
    let left = NodeId::SystemSet(0);
    let right = NodeId::SystemSet(1);
    let mid = NodeId::SystemSet(2);
    let schedule = Schedule {
        systems: vec![system("x"), system("y")],
        sets: vec![set("Left"), set("Right"), set("Mid")],
        hierarchy: graph(&[(right, mid), (left, mid), (left, x), (right, x), (mid, y)]),
        dependency: graph(&[(y, x)]),
        conflicts: vec![],
    };
    let mut settings = Settings::default();
    settings.style.color_edge = vec!["red".to_string()];
    let dot = schedule_graph_dot(&schedule, &settings);
    let cluster = |i: usize, name: &str| {
        format!(
            "\tsubgraph \"clusternode_Set({i})\" {{\n\
\t\t\"style\"=\"rounded,filled\";\n\
\t\t\"label\"=\"{name}\";\n\
\t\t\"tooltip\"=\"{name}\";\n\
\t\t\"fillcolor\"=\"#ffffff44\";\n\
\t\t\"fontcolor\"=\"#ffffff\";\n\
\t\t\"color\"=\"#ffffff50\";\n\
\t\t\"penwidth\"=\"2\";\n\
\t\t\"set_marker_node_Set({i})\" [\"style\"=\"invis\", \"label\"=\"\", \"shape\"=\"point\"]\n"
        )
    };
    let expected = format!(
        "{HEADER}{}\t}}\n\t\n{}\t}}\n\t\n{}\
\t\t\"node_System(1)\" [\"label\"=\"y\", \"tooltip\"=\"game::y\", \"fillcolor\"=\"#eff1f3\", \"fontname\"=\"Helvetica\", \"fontcolor\"=\"#15191d\", \"color\"=\"#b4bec7\", \"penwidth\"=\"1\"]\n\
\t}}\n\
\t\n\
\t\"node_System(0)\" [\"label\"=\"x\nIn multiple sets, Left, Right\", \"tooltip\"=\"game::x\"]\n\
\t\"node_System(0)\" -> \"set_marker_node_Set(0)\" [\"dir\"=\"none\", \"color\"=\"blue\", \"lhead\"=\"clusternode_Set(0)\"]\n\
\t\"node_System(0)\" -> \"set_marker_node_Set(1)\" [\"dir\"=\"none\", \"color\"=\"blue\", \"lhead\"=\"clusternode_Set(1)\"]\n\
\t\"set_marker_node_Set(2)\" -> \"set_marker_node_Set(1)\" [\"dir\"=\"none\", \"color\"=\"blue\", \"ltail\"=\"clusternode_Set(2)\", \"lhead\"=\"clusternode_Set(1)\"]\n\
\t\"set_marker_node_Set(2)\" -> \"set_marker_node_Set(0)\" [\"dir\"=\"none\", \"color\"=\"blue\", \"ltail\"=\"clusternode_Set(2)\", \"lhead\"=\"clusternode_Set(0)\"]\n\
\t\"node_System(1)\" -> \"node_System(0)\" [\"lhead\"=\"\", \"ltail\"=\"\", \"tooltip\"=\"game::y → game::x\", \"color\"=\"red\"]\n\
}}\n",
        cluster(0, "Left"),
        cluster(1, "Right"),
        cluster(2, "Mid"),
    );
    assert_eq!(dot, expected);
}

#[test]
fn system_type_set_is_found_under_its_system() {
    let mut schedule = three_systems();
    schedule.systems[2].type_key = 9;
    schedule.sets.push(SetInfo { name: "SystemTypeSet(c)".to_string(), system_type: Some(9) });
    schedule.sets.push(SetInfo {
        name: "SystemTypeSet(fn game::other::gone())".to_string(),
        system_type: Some(77),
    });
    let of_c = NodeId::SystemSet(1);
    let of_none = NodeId::SystemSet(2);
    schedule.hierarchy.add_edge(of_c, C);
    schedule.dependency = graph(&[(A, of_c), (of_none, B)]);
    let dot = schedule_graph_dot(&schedule, &Settings::default());
    assert!(dot.contains("\t\"node_System(0)\" -> \"node_System(2)\" ["));
    assert!(dot.contains("\t\"UNKNOWN SystemTypeSet(fn gone())\" -> \"node_System(1)\" ["));
    // the set of the type is no parent: c stays on the top level
    assert!(dot.contains("\n\t\"node_System(2)\" [\"label\"=\"c\""));
    assert_eq!(dot.matches("subgraph").count(), 1);
}

fn conflict(a: NodeId, b: NodeId, components: &[(usize, &str, Option<u64>)]) -> Conflict {
    Conflict {
        first: a,
        second: b,
        components: components
            .iter()
            .map(|&(id, name, type_key)| ComponentInfo { id, name: name.to_string(), type_key })
            .collect(),
    }
}

#[test]
fn conflicts_are_drawn_when_asked_for() {
    let mut schedule = three_systems();
    schedule.conflicts = vec![
        conflict(B, C, &[]),
        conflict(A, B, &[(4, "game::Score<game::Team>", Some(1)), (2, "game::Health", None)]),
    ];
    let plain = schedule_graph_dot(&schedule, &Settings::default());
    assert!(!plain.contains("constraint"));

    let mut settings = Settings::default();
    settings.ambiguity_enable = true;
    let dot = schedule_graph_dot(&schedule, &settings);
    assert!(dot.contains(
        "\t\"node_System(0)\" -> \"node_System(1)\" [\"dir\"=\"none\", \"constraint\"=\"false\", \"color\"=\"#c93526\", \"fontcolor\"=\"#c93526\", \"label\"=<<table border=\"0\" cellborder=\"0\"><tr><td bgcolor=\"#c6e6ff\">Score&lt;Team&gt;</td></tr><tr><td bgcolor=\"#c6e6ff\">Health</td></tr></table>>, \"labeltooltip\"=\"game::a — game::b\"]\n"
    ));
    assert!(!dot.contains("World"));

    settings.ambiguity_enable_on_world = true;
    let dot = schedule_graph_dot(&schedule, &settings);
    let world = dot.find("\"label\"=\"World\", \"labeltooltip\"=\"game::b — game::c\"");
    let table = dot.find("<<table");
    assert!(table < world);
}

#[test]
fn conflict_on_one_hidden_type_is_left_out() {
    let mut schedule = three_systems();
    schedule.conflicts = vec![
        conflict(A, B, &[(4, "game::Score", Some(1))]),
        conflict(A, C, &[(4, "game::Score", Some(1)), (5, "game::Health", Some(2))]),
        conflict(B, C, &[(6, "game::Unknown", None)]),
    ];
    let mut settings = Settings::default().without_single_ambiguities_on(1);
    settings.ambiguity_enable = true;
    let dot = schedule_graph_dot(&schedule, &settings);
    assert!(!dot.contains("game::a — game::b"));
    assert!(dot.contains("game::a — game::c"));
    assert!(dot.contains("game::b — game::c"));

    let mut settings = Settings::default().without_single_ambiguities_on_one_of(&[7, 1]);
    settings.ambiguity_enable = true;
    let dot = schedule_graph_dot(&schedule, &settings);
    assert!(!dot.contains("game::a — game::b"));
}

#[test]
fn conflicts_are_sorted() {
    let conflicts = vec![
        conflict(B, C, &[]),
        conflict(A, C, &[(3, "x", None)]),
        conflict(A, B, &[(2, "x", None), (1, "y", None)]),
        conflict(A, B, &[(2, "x", None)]),
        conflict(A, B, &[(1, "x", None), (9, "y", None)]),
        conflict(A, C, &[(3, "x", None)]),
    ];
    assert_eq!(sort_conflicts(&conflicts), vec![4, 3, 2, 1, 5, 0]);
    assert_eq!(sort_conflicts(&vec![]), Vec::<usize>::new());
}

#[test]
fn sets_in_a_circle_are_not_reached() {
    let s0 = NodeId::SystemSet(0);
    let s1 = NodeId::SystemSet(1);
    let schedule = Schedule {
        systems: vec![],
        sets: vec![set("S0"), set("S1"), set("Top")],
        hierarchy: graph(&[(s0, s1), (s1, s0)]),
        dependency: DiGraph::new(),
        conflicts: vec![],
    };
    assert!(schedule.is_well_formed());
    let dot = schedule_graph_dot(&schedule, &Settings::default());
    assert_eq!(dot.matches("subgraph").count(), 1);
    assert!(dot.contains("subgraph \"clusternode_Set(2)\""));
}

#[test]
fn sets_nested_as_deep_as_there_are_sets() {
    let s0 = NodeId::SystemSet(0);
    let s1 = NodeId::SystemSet(1);
    let s2 = NodeId::SystemSet(2);
    let schedule = Schedule {
        systems: vec![system("x")],
        sets: vec![set("S0"), set("S1"), set("S2")],
        hierarchy: graph(&[(s0, s1), (s1, s2), (s2, NodeId::System(0))]),
        dependency: DiGraph::new(),
        conflicts: vec![],
    };
    let dot = schedule_graph_dot(&schedule, &Settings::default());
    assert_eq!(dot.matches("subgraph").count(), 3);
    assert!(dot.contains("\n\t\t\t\t\"node_System(0)\" ["));
}

#[test]
fn schedule_with_a_missing_node_is_not_well_formed() {
    let mut schedule = three_systems();
    assert!(schedule.is_well_formed());
    schedule.dependency.add_edge(A, NodeId::System(3));
    assert!(!schedule.is_well_formed());

    let mut schedule = three_systems();
    schedule.hierarchy.add_edge(A, B);
    assert!(!schedule.is_well_formed());

    let mut schedule = three_systems();
    schedule.conflicts.push(conflict(A, S1, &[]));
    assert!(!schedule.is_well_formed());
}
