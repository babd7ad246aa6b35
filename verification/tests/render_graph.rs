use bevy_mod_debugdump::render_graph::iter_utils::{
    max_size_hint, sorted, sorted_places, zip_longest, EitherOrBoth,
};
use bevy_mod_debugdump::render_graph::settings::{Settings, Style};
use bevy_mod_debugdump::render_graph::{
    render_graph_dot, Edge, RenderGraph, RenderNode, SlotInfo, SubGraph,
};

fn slot(name: &str, slot_type: &str) -> SlotInfo {
    SlotInfo { name: name.to_string(), slot_type: slot_type.to_string() }
}

fn node(label: &str, node_type: &str) -> RenderNode {
    RenderNode {
        label: label.to_string(),
        node_type: node_type.to_string(),
        input_slots: vec![],
        output_slots: vec![],
        input_edges: vec![],
    }
}

const HEADER: &str = "digraph \"RenderGraph\" {\n\
\t\"rankdir\"=\"LR\";\n\
\t\"ranksep\"=\"1.0\";\n\
\tgraph [\"bgcolor\"=\"#0d1117\"];\n\
\tedge [\"fontname\"=\"Helvetica\", \"fontcolor\"=\"white\"];\n\
\tnode [\"shape\"=\"plaintext\", \"fontname\"=\"Helvetica\", \"fontcolor\"=\"white\"];\n";

#[test]
fn sorted_is_stable() {
    let words = vec!["pear", "fig", "apple", "kiwi", "date"];
    assert_eq!(
        sorted(words.clone(), |w: &&str| w.to_string()),
        vec!["apple", "date", "fig", "kiwi", "pear"]
    );
    let by_length = sorted(words, |w: &&str| w.len().to_string());
    assert_eq!(by_length, vec!["fig", "pear", "kiwi", "date", "apple"]);
    assert_eq!(sorted(Vec::<u8>::new(), |n: &u8| n.to_string()), vec![]);
    assert_eq!(sorted(vec![10u8, 9, 100], |n: &u8| n.to_string()), vec![10, 100, 9]);
}

#[test]
fn sorted_places_by_text() {
    let keys: Vec<String> = ["b", "a", "", "ab", "a", "B", "é"].iter().map(|s| s.to_string()).collect();
    assert_eq!(sorted_places(&keys), vec![2, 5, 1, 4, 3, 0, 6]);
    assert_eq!(sorted_places(&vec![]), Vec::<usize>::new());
}

#[test]
fn zip_longest_goes_on_until_both_have_ended() {
    let a = [1, 2, 3];
    let b = ["x"];
    let mut zip = zip_longest(&a, &b);
    assert_eq!(zip.size_hint(), (3, Some(3)));
    assert_eq!(zip.next(), Some(EitherOrBoth::Both(&1, &"x")));
    assert_eq!(zip.size_hint(), (2, Some(2)));
    assert_eq!(zip.next(), Some(EitherOrBoth::Left(&2)));
    assert_eq!(zip.next(), Some(EitherOrBoth::Left(&3)));
    assert_eq!(zip.size_hint(), (0, Some(0)));
    assert_eq!(zip.next(), None);
    assert_eq!(zip.next(), None);

    let mut zip = zip_longest(&b, &a);
    assert_eq!(zip.next(), Some(EitherOrBoth::Both(&"x", &1)));
    assert_eq!(zip.next(), Some(EitherOrBoth::Right(&2)));
    assert_eq!(zip.next(), Some(EitherOrBoth::Right(&3)));
    assert_eq!(zip.next(), None);

    let none: [u8; 0] = [];
    assert_eq!(zip_longest(&none, &none).next(), None);
}

#[test]
fn greater_bounds() {
    assert_eq!(max_size_hint((1, Some(5)), (3, Some(4))), (3, Some(5)));
    assert_eq!(max_size_hint((3, Some(4)), (1, Some(5))), (3, Some(5)));
    assert_eq!(max_size_hint((1, None), (3, Some(4))), (3, None));
    assert_eq!(max_size_hint((1, Some(2)), (0, None)), (1, None));
    assert_eq!(max_size_hint((0, None), (0, None)), (0, None));
}

#[test]
fn render_styles() {
    let light = Style::light();
    assert_eq!(light.color_text, "black");
    assert_eq!(light.color_background, "white");
    assert_eq!(light.color_node, "black");
    assert_eq!(light.layers[0].color_background, "#c4d0ed");
    assert_eq!(light.layers[1].color_background, "#e4e9f5");
    assert_eq!(light.layers[0].color_edge_slot, "blue");
    let github = Style::dark_github();
    assert_eq!(github.color_background, "#0d1117");
    assert_eq!(github.layers[0].color_edge_slot, "#715ed6");
    assert_eq!(github.layers[1].color_background, "#343a42");
    assert_eq!(github.layers[1].color_label, "white");
    let discord = Style::dark_discord();
    assert_eq!(discord.color_background, "#35393F");
    assert_eq!(discord.color_node, "#99aab5");
    assert_eq!(discord.layers[1].color_background, "#5e6570");
    for style in [light, github, discord, Style::default()] {
        assert_eq!(style.fontname, "Helvetica");
        assert_eq!(style.fontsize, "14");
        assert_eq!(style.color_typename, "red");
        assert_eq!(style.node_style, "rounded");
        assert_eq!(style.layers.len(), 2);
        assert_eq!(style.layers[0].color_label, "black");
    }
    assert_eq!(Settings::default().style.color_background, "#0d1117");
}

#[test]
fn empty_render_graph() {
    let graph = RenderGraph { nodes: vec![], sub_graphs: vec![] };
    assert_eq!(render_graph_dot(&graph, &Settings::default()), format!("{HEADER}}}\n"));
}

#[test]
fn nodes_slots_and_edges() {
    let mut camera = node("CameraDriver", "bevy_render::camera::CameraDriverNode");
    camera.output_slots = vec![slot("view", "Entity"), slot("target", "TextureView")];
    let mut pass = node("MainPass", "bevy_core_pipeline::MainPass<bevy::Opaque>");
    pass.input_slots = vec![slot("view", "Entity")];
    pass.input_edges = vec![
        Edge::SlotEdge {
            input_node: "MainPass".to_string(),
            input_index: 0,
            output_node: "CameraDriver".to_string(),
            output_index: 1,
        },
        Edge::NodeEdge {
            input_node: "MainPass".to_string(),
            output_node: "CameraDriver".to_string(),
        },
    ];
    let graph = RenderGraph { nodes: vec![pass, camera], sub_graphs: vec![] };
    let dot = render_graph_dot(&graph, &Settings::default());
    let expected = format!(
        "{HEADER}\
\t\"_MainPass\" [\"label\"=<<TABLE STYLE=\"rounded\"><TR><TD PORT=\"title\" BORDER=\"0\" COLSPAN=\"2\">MainPass<BR/><FONT COLOR=\"red\" POINT-SIZE=\"10\">MainPass&lt;Opaque&gt;</FONT></TD></TR><TR><TD PORT=\"in-0\">view: Entity</TD><TD BORDER=\"0\">&nbsp;</TD></TR></TABLE>>, \"color\"=\"white\", \"fillcolor\"=\"white\"]\n\
\t\"_CameraDriver\" [\"label\"=<<TABLE STYLE=\"rounded\"><TR><TD PORT=\"title\" BORDER=\"0\" COLSPAN=\"2\">CameraDriver<BR/><FONT COLOR=\"red\" POINT-SIZE=\"10\">CameraDriverNode</FONT></TD></TR><TR><TD BORDER=\"0\">&nbsp;</TD><TD PORT=\"out-0\">view: Entity</TD></TR><TR><TD BORDER=\"0\">&nbsp;</TD><TD PORT=\"out-1\">target: TextureView</TD></TR></TABLE>>, \"color\"=\"white\", \"fillcolor\"=\"white\"]\n\
\t\"_CameraDriver\":\"out-1:e\" -> \"_MainPass\":\"in-0:w\" [\"color\"=\"#715ed6\"]\n\
\t\"_CameraDriver\":\"title:e\" -> \"_MainPass\":\"title:w\" [\"color\"=\"white\"]\n\
}}\n"
    );
    assert_eq!(dot, expected);
}

#[test]
fn nodes_of_one_type_are_sorted_by_label() {
    let graph = RenderGraph {
        nodes: vec![node("b", "x::T"), node("a", "x::U"), node("a", "x::T"), node("c", "x::S")],
        sub_graphs: vec![],
    };
    let dot = render_graph_dot(&graph, &Settings::default());
    let places: Vec<usize> = ["\t\"_c\" [", "\t\"_a\" [", "\t\"_b\" ["]
        .iter()
        .map(|id| dot.find(id).unwrap())
        .collect();
    assert!(places[0] < places[1] && places[1] < places[2]);
    let first_a = dot.find("\t\"_a\" [").unwrap();
    assert!(dot[first_a..].contains("POINT-SIZE=\"10\">T</FONT>"));
    assert!(dot[first_a..].find(">T</FONT>").unwrap() < dot[first_a..].find(">U</FONT>").unwrap());
}

#[test]
fn graphs_inside_are_clusters_in_the_order_of_their_names() {
    let inner = RenderGraph {
        nodes: vec![node("n", "N")],
        sub_graphs: vec![SubGraph {
            name: "Deep".to_string(),
            graph: RenderGraph { nodes: vec![], sub_graphs: vec![] },
        }],
    };
    let graph = RenderGraph {
        nodes: vec![],
        sub_graphs: vec![
            SubGraph { name: "Second".to_string(), graph: RenderGraph { nodes: vec![], sub_graphs: vec![] } },
            SubGraph { name: "First".to_string(), graph: inner },
        ],
    };
    let mut settings = Settings::default();
    settings.style = Style::light();
    let dot = render_graph_dot(&graph, &settings);
    let first = dot.find("\tsubgraph \"cluster_First\" {\n").unwrap();
    let deep = dot.find("\t\tsubgraph \"cluster_First_Deep\" {\n").unwrap();
    let node = dot.find("\t\t\"_First__Firstn\" [").unwrap();
    let second = dot.find("\tsubgraph \"cluster_Second\" {\n").unwrap();
    assert!(first < deep && deep < node && node < second);
    // the layers are taken in turn: the second for the first level, the first for the next
    assert!(dot.contains(
        "\t\t\"label\"=\"First\";\n\t\t\"fontcolor\"=\"red\";\n\t\tgraph [\"style\"=\"rounded,filled\", \"color\"=\"#e4e9f5\", \"fontcolor\"=\"black\"];\n"
    ));
    assert!(dot.contains(
        "\t\t\tgraph [\"style\"=\"rounded,filled\", \"color\"=\"#c4d0ed\", \"fontcolor\"=\"black\"];\n"
    ));
}
