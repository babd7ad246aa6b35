use bevy_mod_debugdump::dot::DotGraph;
use bevy_mod_debugdump::settings::SystemFilter;
use bevy_mod_debugdump::stage_graph::{
    add_dependency_labels, add_systems_to_graph, check_drawable, check_schedule_drawable,
    marker_id, node_id, schedule_graph_dot, schedule_graph_dot_styled, system_tooltip,
    try_schedule_graph_dot,
    ScheduleGraphStyle, Stage, StageEntry, StagedSchedule, SystemContainer, SystemDirection,
    SystemKind, SystemStage,
};

fn system(name: &str) -> SystemContainer {
    SystemContainer {
        name: name.to_string(),
        labels: vec![],
        before: vec![],
        after: vec![],
        component_reads: vec![],
        component_writes: vec![],
        resource_reads: vec![],
        resource_writes: vec![],
        shown: true,
    }
}

fn names(list: &[&str]) -> Vec<String> {
    list.iter().map(|s| s.to_string()).collect()
}

fn stage_of(parallel: Vec<SystemContainer>) -> SystemStage {
    SystemStage {
        exclusive_at_start: vec![],
        exclusive_before_commands: vec![],
        parallel,
        exclusive_at_end: vec![],
    }
}

fn entry(name: &str, stage: Stage) -> StageEntry {
    StageEntry {
        name: name.to_string(),
        debug_name: name.to_string(),
        quoted_name: format!("{name:?}"),
        is_startup: name == "Startup",
        stage,
    }
}

fn digraph() -> DotGraph {
    DotGraph::digraph("g", &[])
}

fn body(dot: DotGraph) -> String {
    let text = dot.finish();
    text.strip_prefix("digraph \"g\" {\n").unwrap().strip_suffix("}\n").unwrap().to_string()
}

#[test]
fn identifiers_of_markers_and_systems() {
    assert_eq!(marker_id("schedule", "Update"), "MARKER_schedule_Update");
    assert_eq!(marker_id("cluster_Startup", "PreStartup"), "MARKER_cluster_Startup_PreStartup");
    assert_eq!(node_id("schedule", &system("game::run"), 3), "schedule_game::run_3");
    assert_eq!(node_id("", &system(""), 0), "__0");
}

#[test]
fn tooltip_lists_what_a_system_uses() {
    let mut s = system("game::physics::step");
    assert_eq!(system_tooltip(&s), "step");
    s.component_reads = names(&["game::Position", "game::Velocity<f32>"]);
    s.resource_writes = names(&["bevy::time::Time"]);
    assert_eq!(system_tooltip(&s), "Components [Position, Velocity<f32>]\\nResMut [Time]\\n");
    s.component_writes = names(&["<missing>"]);
    s.resource_reads = names(&["a::B", "c::D"]);
    assert_eq!(
        system_tooltip(&s),
        "Components [Position, Velocity<f32>]\\nComponentsMut [<missing>]\\nRes [B, D]\\nResMut [Time]\\n"
    );
}

#[test]
fn tooltip_drops_every_comma_at_the_end() {
    let mut s = system("x");
    s.resource_reads = names(&["a::B", "", ""]);
    assert_eq!(system_tooltip(&s), "Res [B]\\n");
}

#[test]
fn systems_are_drawn_in_the_order_of_their_names() {
    let mut first = system("game::b");
    first.labels = vec![1];
    let mut second = system("game::a");
    second.before = vec![1];
    second.labels = vec![2];
    let mut third = system("game::c");
    third.after = vec![2, 1];
    let systems = vec![first, second, third];
    let style = ScheduleGraphStyle::dark();
    assert!(check_drawable(&systems, &style));
    let mut dot = digraph();
    add_systems_to_graph(&mut dot, "s", SystemKind::Parallel, &systems, &style);
    assert_eq!(
        body(dot),
        "\t\"s_game::a_0\" [\"label\"=\"a\", \"tooltip\"=\"a\"]\n\
\t\"s_game::a_0\" -> \"s_game::b_1\" [\"constraint\"=\"false\"]\n\
\t\"s_game::b_1\" [\"label\"=\"b\", \"tooltip\"=\"b\"]\n\
\t\"s_game::c_2\" [\"label\"=\"c\", \"tooltip\"=\"c\"]\n\
\t\"s_game::a_0\" -> \"s_game::c_2\" [\"constraint\"=\"false\"]\n\
\t\"s_game::b_1\" -> \"s_game::c_2\" [\"constraint\"=\"false\"]\n"
    );
}

#[test]
fn systems_that_run_alone_say_when() {
    let systems = vec![system("game::Flush<u8>")];
    let style = ScheduleGraphStyle::light();
    let mut dot = digraph();
    add_systems_to_graph(&mut dot, "s", SystemKind::ExclusiveEnd, &systems, &style);
    assert_eq!(
        body(dot),
        "\t\"s_game::Flush<u8>_0\" [\"label\"=\"<Flush&lt;u8&gt;<BR /><FONT COLOR=\\\"red\\\" POINT-SIZE=\\\"11\\\">Exclusive at end</FONT>>\", \"tooltip\"=\"Flush<u8>\"]\n"
    );
    let mut dot = digraph();
    add_systems_to_graph(&mut dot, "s", SystemKind::ExclusiveStart, &systems, &style);
    assert!(body(dot).contains(">Exclusive at start</FONT>"));
    let mut dot = digraph();
    add_systems_to_graph(&mut dot, "s", SystemKind::ExclusiveBeforeCommands, &systems, &style);
    assert!(body(dot).contains(">Exclusive before commands</FONT>"));
    let mut dot = digraph();
    add_systems_to_graph(&mut dot, "s", SystemKind::Parallel, &vec![], &style);
    assert_eq!(body(dot), "");
}

#[test]
fn systems_that_are_filtered_out_keep_their_place() {
    let mut hidden = system("engine::a");
    hidden.labels = vec![7];
    let mut shown = system("game::b");
    shown.after = vec![7];
    let mut unshown = system("game::c");
    unshown.shown = false;
    let systems = vec![shown, hidden, unshown];
    let mut style = ScheduleGraphStyle::dark();
    style.system_filter = Some(SystemFilter::InCrates(names(&["game"])));
    assert!(check_drawable(&systems, &style));
    let mut dot = digraph();
    add_systems_to_graph(&mut dot, "s", SystemKind::Parallel, &systems, &style);
    assert_eq!(
        body(dot),
        "\t\"s_game::b_1\" [\"label\"=\"b\", \"tooltip\"=\"b\"]\n\
\t\"s_engine::a_0\" -> \"s_game::b_1\" [\"constraint\"=\"false\"]\n"
    );
}

#[test]
fn requirements_join_every_system_with_the_label() {
    let mut a = system("a");
    a.labels = vec![1, 2];
    let mut b = system("b");
    b.labels = vec![2];
    let systems = vec![a, b];
    let order = vec![1, 0];
    let mut dot = digraph();
    add_dependency_labels(&mut dot, "s", "me", SystemDirection::Before, &vec![2, 1], &systems, &order);
    assert_eq!(
        body(dot),
        "\t\"me\" -> \"s_b_0\" [\"constraint\"=\"false\"]\n\
\t\"me\" -> \"s_a_1\" [\"constraint\"=\"false\"]\n\
\t\"me\" -> \"s_a_1\" [\"constraint\"=\"false\"]\n"
    );
    let mut dot = digraph();
    add_dependency_labels(&mut dot, "s", "me", SystemDirection::After, &vec![1], &systems, &order);
    assert_eq!(body(dot), "\t\"s_a_1\" -> \"me\" [\"constraint\"=\"false\"]\n");
}

#[test]
fn systems_that_cannot_be_drawn_are_told() {
    let style = ScheduleGraphStyle::dark();
    let mut lonely = system("a");
    lonely.before = vec![9];
    assert!(!check_drawable(&vec![lonely], &style));
    let mut unshown = system("a");
    unshown.before = vec![9];
    unshown.shown = false;
    assert!(check_drawable(&vec![unshown], &style));
    assert!(!check_drawable(&vec![system("a,")], &style));
    let mut odd = system("a");
    odd.resource_reads = names(&["x;"]);
    assert!(!check_drawable(&vec![odd], &style));

    let bad = StagedSchedule {
        stages: vec![entry(
            "Outer",
            Stage::Nested(StagedSchedule {
                stages: vec![entry("Update", Stage::Systems(stage_of(vec![system("a,")])))],
            }),
        )],
    };
    assert!(!check_schedule_drawable(&bad, &style));
    let hidden = StagedSchedule {
        stages: vec![entry(
            "Startup",
            Stage::Nested(StagedSchedule {
                stages: vec![entry("Update", Stage::Systems(stage_of(vec![system("a,")])))],
            }),
        )],
    };
    assert!(check_schedule_drawable(&hidden, &style));
    let mut shown = ScheduleGraphStyle::dark();
    shown.hide_startup_schedule = false;
    assert!(!check_schedule_drawable(&hidden, &shown));
}

#[test]
fn stage_styles() {
    let light = ScheduleGraphStyle::light();
    assert_eq!(light.bgcolor, "white");
    assert_eq!(light.bgcolor_nested_schedule, "#d1d5da");
    assert_eq!(light.bgcolor_stage, "#e1e5ea");
    assert_eq!(light.color_system, "white");
    assert_eq!(light.color_edge, "black");
    let dark = ScheduleGraphStyle::dark();
    assert_eq!(dark.bgcolor, "#35393F");
    assert_eq!(dark.bgcolor_nested_schedule, "#D0E1ED");
    assert_eq!(dark.bgcolor_stage, "#99aab5");
    assert_eq!(dark.color_system, "#eff1f3");
    assert_eq!(dark.color_edge, "white");
    for style in [light, dark, ScheduleGraphStyle::default()] {
        assert_eq!(style.fontsize, "16");
        assert_eq!(style.fontname, "Helvetica");
        assert!(style.hide_startup_schedule);
        assert!(style.system_filter.is_none());
    }
    assert_eq!(ScheduleGraphStyle::default().bgcolor, "#35393F");
}

#[test]
fn schedule_of_stages() {
    let startup = StagedSchedule {
        stages: vec![entry("PreStartup", Stage::Systems(stage_of(vec![system("game::setup")])))],
    };
    let schedule = StagedSchedule {
        stages: vec![
            entry("First", Stage::Systems(stage_of(vec![]))),
            entry("Startup", Stage::Nested(startup)),
            entry("Odd", Stage::Other),
            entry("Update", Stage::Systems(stage_of(vec![system("game::run")]))),
        ],
    };
    let dot = schedule_graph_dot(&schedule);
    let expected = "digraph \"schedule\" {\n\
\t\"fontsize\"=\"16\";\n\
\t\"fontname\"=\"Helvetica\";\n\
\t\"rankdir\"=\"LR\";\n\
\t\"nodesep\"=\"0.05\";\n\
\t\"bgcolor\"=\"#35393F\";\n\
\t\"compound\"=\"true\";\n\
\tnode [\"shape\"=\"box\", \"margin\"=\"0\", \"height\"=\"0.4\"];\n\
\tedge [\"color\"=\"white\"];\n\
\tsubgraph \"cluster_\\\"First\\\"\" {\n\
\t\t\"style\"=\"rounded\";\n\
\t\t\"color\"=\"#99aab5\";\n\
\t\t\"bgcolor\"=\"#99aab5\";\n\
\t\t\"rankdir\"=\"TD\";\n\
\t\t\"label\"=\"First\";\n\
\t\tnode [\"style\"=\"filled\", \"color\"=\"#eff1f3\", \"bgcolor\"=\"#eff1f3\"];\n\
\t\t\"MARKER_schedule_First\" [\"style\"=\"invis\", \"label\"=\"\", \"shape\"=\"point\"]\n\
\t}\n\
\t\n\
\tsubgraph \"cluster_\\\"Update\\\"\" {\n\
\t\t\"style\"=\"rounded\";\n\
\t\t\"color\"=\"#99aab5\";\n\
\t\t\"bgcolor\"=\"#99aab5\";\n\
\t\t\"rankdir\"=\"TD\";\n\
\t\t\"label\"=\"Update\";\n\
\t\tnode [\"style\"=\"filled\", \"color\"=\"#eff1f3\", \"bgcolor\"=\"#eff1f3\"];\n\
\t\t\"MARKER_schedule_Update\" [\"style\"=\"invis\", \"label\"=\"\", \"shape\"=\"point\"]\n\
\t\t\"schedule_game::run_0\" [\"label\"=\"run\", \"tooltip\"=\"run\"]\n\
\t}\n\
\t\n\
\t\"MARKER_schedule_First\" -> \"MARKER_schedule_Odd\" []\n\
\t\"MARKER_schedule_Odd\" -> \"MARKER_schedule_Update\" []\n\
}\n";
    assert_eq!(dot, expected);
}

#[test]
fn schedule_inside_a_schedule() {
    let startup = StagedSchedule {
        stages: vec![
            entry("PreStartup", Stage::Systems(stage_of(vec![system("game::setup")]))),
            entry("PostStartup", Stage::Systems(stage_of(vec![]))),
        ],
    };
    let schedule = StagedSchedule {
        stages: vec![
            entry("Startup", Stage::Nested(startup)),
            entry("Update", Stage::Systems(stage_of(vec![]))),
        ],
    };
    let mut style = ScheduleGraphStyle::light();
    style.hide_startup_schedule = false;
    assert!(check_schedule_drawable(&schedule, &style));
    let dot = schedule_graph_dot_styled(&schedule, &style);
    assert!(dot.contains(
        "\tsubgraph \"cluster_Startup\" {\n\
\t\t\"label\"=\"Startup\";\n\
\t\t\"fontsize\"=\"20\";\n\
\t\t\"constraint\"=\"false\";\n\
\t\t\"rankdir\"=\"LR\";\n\
\t\t\"style\"=\"rounded\";\n\
\t\t\"bgcolor\"=\"#d1d5da\";\n\
\t\tedge [\"color\"=\"black\"];\n\
\t\t\"MARKER_schedule_Startup\" [\"style\"=\"invis\", \"label\"=\"\", \"shape\"=\"point\"]\n\
\t\tsubgraph \"cluster_\\\"PreStartup\\\"\" {\n"
    ));
    assert!(dot.contains("\t\t\t\"cluster_Startup_game::setup_0\" [\"label\"=\"setup\", \"tooltip\"=\"setup\"]\n"));
    assert!(dot.contains(
        "\t\t\"MARKER_cluster_Startup_PreStartup\" -> \"MARKER_cluster_Startup_PostStartup\" []\n\t}\n"
    ));
    assert!(dot.ends_with("\t\"MARKER_schedule_Startup\" -> \"MARKER_schedule_Update\" []\n}\n"));
}

#[test]
fn schedule_in_the_dark_style_where_it_can_be_drawn() {
    let good = StagedSchedule {
        stages: vec![entry("Update", Stage::Systems(stage_of(vec![system("game::run")])))],
    };
    assert_eq!(try_schedule_graph_dot(&good), Some(schedule_graph_dot(&good)));
    assert_eq!(
        try_schedule_graph_dot(&good),
        Some(schedule_graph_dot_styled(&good, &ScheduleGraphStyle::dark()))
    );
    let mut waits = system("game::run");
    waits.after = vec![4];
    let bad = StagedSchedule {
        stages: vec![entry("Update", Stage::Systems(stage_of(vec![waits])))],
    };
    assert_eq!(try_schedule_graph_dot(&bad), None);
    let empty = StagedSchedule { stages: vec![] };
    assert_eq!(
        try_schedule_graph_dot(&empty).unwrap(),
        "digraph \"schedule\" {\n\
\t\"fontsize\"=\"16\";\n\
\t\"fontname\"=\"Helvetica\";\n\
\t\"rankdir\"=\"LR\";\n\
\t\"nodesep\"=\"0.05\";\n\
\t\"bgcolor\"=\"#35393F\";\n\
\t\"compound\"=\"true\";\n\
\tnode [\"shape\"=\"box\", \"margin\"=\"0\", \"height\"=\"0.4\"];\n\
\tedge [\"color\"=\"white\"];\n\
}\n"
    );
}
