use bevy_mod_debugdump::dot::{escape_id, escape_quote, font_tag, format_attributes, html_escape, DotGraph};

#[test]
fn escape_correctly() {
    assert_eq!(escape_id("a"), "\"a\"");
    assert_eq!(escape_id("contains \" quotes"), "\"contains \\\" quotes\"");
    assert_eq!(escape_id("RAW:<table>x</table>"), r#"<table>x</table>"#);

    let complex = "<Plugin>;build::{{closure}} â†’ solve_constraint<FixedJoint, 2>";
    assert_eq!(escape_id(complex), format!("\"{complex}\""));
}

#[test]
fn escape_quote_leaves_other_text_alone() {
    assert_eq!(escape_quote("plain"), "plain");
    assert_eq!(escape_quote("a\"b\"c"), "a\\\"b\\\"c");
    assert_eq!(escape_quote("back\\slash"), "back\\slash");
    assert_eq!(escape_quote(""), "");
}

#[test]
fn raw_marker_alone_gives_nothing() {
    assert_eq!(escape_id("RAW:"), "");
    assert_eq!(escape_id("RAW"), "\"RAW\"");
    assert_eq!(escape_id("raw:x"), "\"raw:x\"");
    assert_eq!(escape_id("RAW:\"kept\""), "\"kept\"");
}

#[test]
fn attributes_are_joined_in_brackets() {
    assert_eq!(format_attributes(&[]), "[]");
    assert_eq!(format_attributes(&[("a", "b")]), "[\"a\"=\"b\"]");
    assert_eq!(
        format_attributes(&[("label", "RAW:<b>x</b>"), ("color", "red")]),
        "[\"label\"=<b>x</b>, \"color\"=\"red\"]"
    );
}

#[test]
fn html_escape_replaces_reserved_characters() {
    assert_eq!(html_escape("a < b && c > \"d\""), "a &lt; b &amp;&amp; c &gt; &quot;d&quot;");
    assert_eq!(html_escape("&amp;"), "&amp;amp;");
    assert_eq!(html_escape("plain"), "plain");
}

#[test]
fn font_tag_wraps_escaped_text() {
    assert_eq!(font_tag("", "red", 11), "");
    assert_eq!(
        font_tag("Vec<u8>", "red", 11),
        "<FONT COLOR=\"red\" POINT-SIZE=\"11\">Vec&lt;u8&gt;</FONT>"
    );
    assert_eq!(font_tag("x", "#fff", 0), "<FONT COLOR=\"#fff\" POINT-SIZE=\"0\">x</FONT>");
    assert_eq!(font_tag("x", "c", 255), "<FONT COLOR=\"c\" POINT-SIZE=\"255\">x</FONT>");
}

#[test]
fn empty_digraph() {
    let dot = DotGraph::digraph("g", &[]);
    assert_eq!(dot.finish(), "digraph \"g\" {\n}\n");
}

#[test]
fn graph_header_lists_attributes() {
    let dot = DotGraph::new("", "digraph", &[("compound", "true"), ("rankdir", "LR")]);
    assert_eq!(
        dot.finish(),
        "digraph \"\" {\n\t\"compound\"=\"true\";\n\t\"rankdir\"=\"LR\";\n}\n"
    );
}

#[test]
fn default_attribute_statements() {
    let dot = DotGraph::digraph("g", &[])
        .graph_attributes(&[("bgcolor", "white")])
        .edge_attributes(&[("penwidth", "2")])
        .node_attributes(&[("shape", "box"), ("style", "filled")]);
    assert_eq!(
        dot.finish(),
        "digraph \"g\" {\n\tgraph [\"bgcolor\"=\"white\"];\n\tedge [\"penwidth\"=\"2\"];\n\tnode [\"shape\"=\"box\", \"style\"=\"filled\"];\n}\n"
    );
}

#[test]
fn nodes_and_edges() {
    let mut dot = DotGraph::digraph("g", &[]);
    dot.add_node("a", &[("label", "A")]);
    dot.add_invisible_node("m");
    dot.add_edge("a", "m", &[]);
    dot.add_edge_with_ports("a", Some("out-0:e"), "m", Some("in-0:w"), &[("color", "blue")]);
    dot.add_edge_with_ports("a", None, "m", Some("p"), &[]);
    assert_eq!(
        dot.finish(),
        "digraph \"g\" {\n\
         \t\"a\" [\"label\"=\"A\"]\n\
         \t\"m\" [\"style\"=\"invis\", \"label\"=\"\", \"shape\"=\"point\"]\n\
         \t\"a\" -> \"m\" []\n\
         \t\"a\":\"out-0:e\" -> \"m\":\"in-0:w\" [\"color\"=\"blue\"]\n\
         \t\"a\" -> \"m\":\"p\" []\n\
         }\n"
    );
}

#[test]
fn subgraph_is_indented_and_named_as_cluster() {
    let mut inner = DotGraph::subgraph("x", &[("label", "X")]);
    inner.add_node("n", &[]);
    let mut dot = DotGraph::digraph("g", &[]);
    dot.add_sub_graph(inner);
    assert_eq!(
        dot.finish(),
        "digraph \"g\" {\n\tsubgraph \"clusterx\" {\n\t\t\"label\"=\"X\";\n\t\t\"n\" []\n\t}\n\t\n}\n"
    );
}

#[test]
fn same_rank_writes_each_node_on_its_line() {
    let mut dot = DotGraph::digraph("g", &[]);
    dot.same_rank(&["a", "b"]);
    assert_eq!(dot.finish(), "digraph \"g\" {\n{ rank = same;a\n; \nb\n; \n}\n}\n");
}
