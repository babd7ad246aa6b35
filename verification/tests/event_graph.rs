use bevy_mod_debugdump::event_graph::settings::{
    base_schedule_update, exclude_bevy_event_update_system, ScheduleFilter, Settings, Style,
};
use bevy_mod_debugdump::event_graph::system_style::{event_to_style, system_to_style};
use bevy_mod_debugdump::event_graph::{
    check_drawable, display_name, events_graph_dot, print_context, print_only_context,
    EventComponent, EventSchedule, EventSystem,
};
use bevy_mod_debugdump::dot::DotGraph;
use bevy_mod_debugdump::graph::NodeId;
use bevy_mod_debugdump::names::{check_pretty_printable, pretty_name, try_pretty_name};
use bevy_mod_debugdump::settings::{NodeStyle, SystemFilter};

fn style(color: &str) -> NodeStyle {
    NodeStyle {
        bg_color: color.to_string(),
        text_color: "#000000".to_string(),
        border_color: "#111111".to_string(),
        border_width: "1".to_string(),
    }
}

fn system(name: &str, reads: &[usize], writes: &[usize]) -> EventSystem {
    EventSystem { name: name.to_string(), style: style("#eeeeee"), reads: reads.to_vec(), writes: writes.to_vec() }
}

fn components() -> Vec<EventComponent> {
    ["game::Score", "bevy_ecs::event::Events<game::Hit>", "bevy_ecs::event::Events<game::Jump>", "game::Time"]
        .iter()
        .map(|name| EventComponent { name: name.to_string(), style: style("#dddddd") })
        .collect()
}

fn schedules() -> Vec<EventSchedule> {
    vec![
        EventSchedule {
            label: "Update".to_string(),
            systems: vec![
                system("game::shoot", &[0], &[1]),
                system("game::score", &[1, 3], &[0]),
                system("game::clock", &[3], &[]),
                system("game::jump", &[2, 2], &[1]),
                system("bevy_ecs::event::event_update_system<game::Hit>", &[], &[1]),
            ],
        },
        EventSchedule { label: "Last".to_string(), systems: vec![system("game::log", &[1], &[])] },
    ]
}

const HEADER: &str = "digraph \"\" {\n\
\t\"compound\"=\"true\";\n\
\t\"splines\"=\"spline\";\n\
\t\"rankdir\"=\"LR\";\n\
\t\"bgcolor\"=\"#0d1117\";\n\
\t\"fontname\"=\"Helvetica\";\n\
\t\"nodesep\"=\"0.15\";\n\
\tedge [\"penwidth\"=\"2\"];\n\
\tnode [\"shape\"=\"box\", \"style\"=\"filled\"];\n";

fn node(id: &str, label: &str, tooltip: &str, shape: &str, color: &str) -> String {
    format!(
        "\"{id}\" [\"label\"=\"{label}\", \"tooltip\"=\"{tooltip}\", \"shape\"=\"{shape}\", \"fillcolor\"=\"{color}\", \"fontname\"=\"Helvetica\", \"fontcolor\"=\"#000000\", \"color\"=\"#111111\", \"penwidth\"=\"1\"]\n"
    )
}

#[test]
fn events_readers_and_writers_are_found() {
    let context = events_graph_dot(&schedules(), 0, &components(), &Settings::default());
    assert_eq!(context.schedule, 0);
    assert_eq!(context.events_tracked, vec![1, 2]);
    assert_eq!(context.event_writers.get(1), Some(&vec![NodeId::System(0), NodeId::System(3)]));
    assert_eq!(context.event_readers.get(1), Some(&vec![NodeId::System(1)]));
    assert_eq!(context.event_readers.get(2), Some(&vec![NodeId::System(3), NodeId::System(3)]));
    assert_eq!(context.event_writers.get(2), None);
    assert_eq!(context.event_readers.get(0), None);
    assert_eq!(context.event_readers.get(3), None);

    let mut all = Settings::default();
    all.include_system = None;
    let context = events_graph_dot(&schedules(), 0, &components(), &all);
    assert_eq!(
        context.event_writers.get(1),
        Some(&vec![NodeId::System(0), NodeId::System(3), NodeId::System(4)])
    );
}

#[test]
fn events_of_one_schedule() {
    let schedules = schedules();
    let components = components();
    let settings = Settings::default();
    let context = events_graph_dot(&schedules, 0, &components, &settings);
    assert!(check_drawable(&schedules[0], &context, &settings, &components));
    let dot = print_context(&schedules, &vec![context], &components, &settings);
    let expected = format!(
        "{HEADER}\
\tsubgraph \"clusterUpdate\" {{\n\
\t\t\"style\"=\"rounded,filled\";\n\
\t\t\"label\"=\"Update\";\n\
\t\t\"tooltip\"=\"Update\";\n\
\t\t\"fillcolor\"=\"#ffffff44\";\n\
\t\t\"fontcolor\"=\"#ffffff\";\n\
\t\t\"color\"=\"#ffffff50\";\n\
\t\t\"penwidth\"=\"2\";\n\
\t\t{}\
\t\t{}\
\t\t{}\
\t\t{}\
\t\t\"game::shoot\" -> \"event_1\" [\"color\"=\"#eede00\"]\n\
\t\t\"game::jump\" -> \"event_1\" [\"color\"=\"#881877\"]\n\
\t\t\"event_1\" -> \"game::score\" [\"color\"=\"#00b0cc\"]\n\
\t\t{}\
\t\t\"event_2\" -> \"game::jump\" [\"color\"=\"#aa3a55\"]\n\
\t\t\"event_2\" -> \"game::jump\" [\"color\"=\"#44d488\"]\n\
\t}}\n\
\t\n\
}}\n",
        node("game::shoot", "shoot", "game::shoot", "box", "#eeeeee"),
        node("game::score", "score", "game::score", "box", "#eeeeee"),
        node("game::jump", "jump", "game::jump", "box", "#eeeeee"),
        node("event_1", "Hit", "game::Hit", "ellipse", "#dddddd"),
        node("event_2", "Jump", "game::Jump", "ellipse", "#dddddd"),
    );
    assert_eq!(dot, expected);
}

#[test]
fn event_of_two_schedules_stands_outside_the_clusters() {
    let schedules = schedules();
    let components = components();
    let mut settings = Settings::default();
    settings.prettify_system_names = false;
    settings.style = Style::light();
    let contexts = vec![
        events_graph_dot(&schedules, 0, &components, &settings),
        events_graph_dot(&schedules, 1, &components, &settings),
    ];
    assert_eq!(contexts[1].events_tracked, vec![1]);
    let dot = print_context(&schedules, &contexts, &components, &settings);
    // the event that both touch is drawn once for each, outside the clusters, with its edges
    let shared = format!("\n\t{}", node("event_1", "game::Hit", "game::Hit", "ellipse", "#dddddd"));
    assert_eq!(dot.matches(&shared).count(), 2);
    assert!(dot.contains("\n\t\"game::shoot\" -> \"event_1\" [\"color\"=\"#eede00\"]\n"));
    assert!(dot.contains("\n\t\"event_1\" -> \"game::log\" [\"color\"=\"#eede00\"]\n"));
    // the event of one schedule alone stays in its cluster, and the colours go on
    assert!(dot.contains(&format!("\n\t\t{}", node("event_2", "game::Jump", "game::Jump", "ellipse", "#dddddd"))));
    assert!(dot.contains("\n\t\t\"event_2\" -> \"game::jump\" [\"color\"=\"#aa3a55\"]\n"));
    assert!(dot.contains("\tsubgraph \"clusterLast\" {\n"));
    assert!(dot.contains(&format!("\n\t\t{}", node("game::log", "game::log", "game::log", "box", "#eeeeee"))));
}

#[test]
fn colours_go_on_from_the_given_place() {
    let schedules = schedules();
    let components = components();
    let mut settings = Settings::default();
    settings.style.color_edge = vec!["red".to_string(), "green".to_string(), "blue".to_string()];
    let context = events_graph_dot(&schedules, 0, &components, &settings);
    let mut shared = DotGraph::digraph("shared", &[]);
    let mut own = DotGraph::digraph("own", &[]);
    let next = print_only_context(&schedules, &mut shared, &mut own, &context, &vec![], &components, &settings, 2);
    assert_eq!(next, (2 + 5) % 3);
    assert_eq!(shared.finish(), "digraph \"shared\" {\n}\n");
    let own = own.finish();
    let colors: Vec<&str> = own
        .lines()
        .filter(|line| line.contains(" -> "))
        .map(|line| line.rsplit("\"color\"=\"").next().unwrap().trim_end_matches("\"]"))
        .collect();
    assert_eq!(colors, vec!["blue", "red", "green", "blue", "red"]);
}

#[test]
fn events_that_cannot_be_drawn_are_told() {
    let schedules = schedules();
    let mut components = components();
    let settings = Settings::default();
    components[1].name = "bevy_ecs::event::EventsOfOldDays".to_string();
    let context = events_graph_dot(&schedules, 0, &components, &settings);
    assert_eq!(context.events_tracked, vec![1, 2]);
    assert!(!check_drawable(&schedules[0], &context, &settings, &components));

    let mut components = self::components();
    components[2].name = "bevy_ecs::event::Events<".to_string();
    let context = events_graph_dot(&schedules, 0, &components, &settings);
    assert!(!check_drawable(&schedules[0], &context, &settings, &components));

    let components = self::components();
    let mut no_colors = Settings::default();
    no_colors.style.color_edge = vec![];
    let context = events_graph_dot(&schedules, 0, &components, &no_colors);
    assert!(!check_drawable(&schedules[0], &context, &no_colors, &components));
}

#[test]
fn names_that_are_shortened() {
    assert_eq!(pretty_name("a::b::C<d::E, f::G>"), "C<E, G>");
    assert_eq!(pretty_name("game::run::{{closure}}"), "run::{{closure}}");
    assert_eq!(pretty_name("plain"), "plain");
    assert!(check_pretty_printable("a::B<c::D, e::F>; x"));
    assert!(!check_pretty_printable("a,"));
    assert!(!check_pretty_printable("a;é"));
    assert!(!check_pretty_printable("a,::{{closure}}"));
    assert!(check_pretty_printable("a, ::{{closure}}::{{closure}}"));
    assert_eq!(try_pretty_name("a,"), None);
    assert_eq!(try_pretty_name("x::Y<z::W>").as_deref(), Some("Y<W>"));

    let mut settings = Settings::default();
    assert_eq!(display_name("game::Hit<game::Hard>", &settings), "Hit<Hard>");
    settings.prettify_system_names = false;
    assert_eq!(display_name("game::Hit<game::Hard>", &settings), "game::Hit<game::Hard>");
}

#[test]
fn event_settings_and_styles() {
    let settings = Settings::default();
    assert!(settings.prettify_system_names);
    assert!(matches!(settings.include_schedule, Some(ScheduleFilter::BaseUpdate)));
    match &settings.include_system {
        Some(SystemFilter::Excluding(prefixes)) => {
            assert_eq!(prefixes, &vec!["bevy_ecs::event::event_update_system<".to_string()])
        }
        _ => panic!("the systems that update events are left out"),
    }
    assert!(exclude_bevy_event_update_system("game::run"));
    assert!(!exclude_bevy_event_update_system("bevy_ecs::event::event_update_system<game::Hit>"));
    for label in ["First", "PreUpdate", "Update", "PostUpdate"] {
        assert!(base_schedule_update(label));
    }
    assert!(!base_schedule_update("Last") && !base_schedule_update("update"));
    assert!(ScheduleFilter::BaseUpdate.includes(7, "Update"));
    assert!(ScheduleFilter::Chosen(vec![false, true]).includes(1, "Last"));
    assert!(!ScheduleFilter::Chosen(vec![false, true]).includes(2, "Update"));

    let light = Style::light();
    assert_eq!(light.color_background, "white");
    assert_eq!(light.color_schedule, "#00000008");
    assert_eq!(light.color_schedule_border, "#00000040");
    assert_eq!(light.color_schedule_label, "#000000");
    assert_eq!(Style::dark_discord().color_background, "#35393f");
    assert_eq!(Style::dark_github().color_background, "#0d1117");
    assert_eq!(Style::default().color_schedule, "#ffffff44");
    assert_eq!(Style::default().color_edge.len(), 11);
    assert_eq!(Style::default().penwidth_edge, "2");

    assert_eq!(system_to_style("bevy_window::system::exit").bg_color, "BB85D4");
    assert_eq!(system_to_style("x::apply_system_buffers").bg_color, "E70000");
    let style = event_to_style("bevy_ecs::event::Events<bevy_input::Key>::update_system");
    assert_eq!(style.bg_color, "D36AAF");
    assert_eq!(style.border_width, "1");
    assert_eq!(style.text_color, None);

    let chosen = Settings::default().filter_in_crates(&["game"]);
    assert!(matches!(chosen.include_system, Some(SystemFilter::InCrates(_))));
    let named = Settings::default().filter_name(&["a", "b"], |name: &str| name == "b");
    match named.include_system {
        Some(SystemFilter::Chosen(choice)) => assert_eq!(choice, vec![false, true]),
        _ => panic!("the choice is written down"),
    }
    let one = Settings::default().filter_in_crate("game");
    assert!(matches!(one.include_system, Some(SystemFilter::InCrates(crates)) if crates == vec!["game"]));
}
