//! Draws a render graph: its nodes with their slots, the edges between
//! them, and the graphs inside it.

pub mod iter_utils;
pub mod settings;

use crate::dot::{
    attr_views, default_attributes, DotGraph, edge_statement, font_tag, font_tag_text, graph_header,
    html_escape, html_escaped, nested_block, node_statement,
};
use crate::names::{display_short_name, short_type_name};
use crate::render_graph::iter_utils::{
    EitherOrBoth, items_of, paired, sorted_pairs, sorted_places, zip_longest, zipped_at,
};
use crate::render_graph::settings::Settings;
use crate::settings::texts;
use crate::text::{decimal, push_decimal};
use vstd::prelude::*;

verus! {

/// One slot of a node: its name, and its type as it is written.
pub struct SlotInfo {
    pub name: String,
    pub slot_type: String,
}

/// An edge that ends at a node. Nodes are named by their labels.
pub enum Edge {
    /// An edge from a slot of one node to a slot of another.
    SlotEdge { input_node: String, input_index: usize, output_node: String, output_index: usize },
    /// An edge from one node to another.
    NodeEdge { input_node: String, output_node: String },
}

/// One node of a render graph.
pub struct RenderNode {
    /// The label of the node as it is written.
    pub label: String,
    /// The full name of the type of the node.
    pub node_type: String,
    pub input_slots: Vec<SlotInfo>,
    pub output_slots: Vec<SlotInfo>,
    /// The edges that end at this node.
    pub input_edges: Vec<Edge>,
}

/// A render graph inside another, with its name as it is written.
pub struct SubGraph {
    pub name: String,
    pub graph: RenderGraph,
}

/// A render graph.
pub struct RenderGraph {
    pub nodes: Vec<RenderNode>,
    pub sub_graphs: Vec<SubGraph>,
}

/// The places of the texts in the order of the texts; texts that are the
/// same stay in the order in which they stand.
pub open spec fn order_by(keys: Seq<Seq<char>>) -> Seq<usize> {
    items_of(sorted_pairs(paired(keys, Seq::new(keys.len(), |i: int| i as usize))))
}

/// The names of the graphs inside a graph.
pub open spec fn sub_graph_names(graph: RenderGraph) -> Seq<Seq<char>> {
    Seq::new(graph.sub_graphs@.len(), |i: int| graph.sub_graphs@[i].name@)
}

/// The identifier of the node with the label `label` in the graph `graph_name`.
pub open spec fn node_id(graph_name: Seq<char>, label: Seq<char>) -> Seq<char> {
    graph_name + seq!['_'] + graph_name + label
}

/// The labels of the nodes of a graph.
pub open spec fn node_labels(graph: RenderGraph) -> Seq<Seq<char>> {
    Seq::new(graph.nodes@.len(), |i: int| graph.nodes@[i].label@)
}

/// The places of the nodes of a graph in the order in which they are
/// drawn: by the names of their types and, for nodes of one type, by their
/// labels.
pub open spec fn node_order(graph: RenderGraph) -> Seq<usize> {
    let by_label = order_by(node_labels(graph));
    let by_type = order_by(
        Seq::new(by_label.len(), |k: int| graph.nodes@[by_label[k] as int].node_type@),
    );
    Seq::new(by_type.len(), |k: int| by_label[by_type[k] as int])
}

/// The colours of the level `level`: the layers of the style are taken in
/// turn.
pub open spec fn layer_at(settings: &Settings, level: nat) -> int {
    (level % settings.style.layers@.len()) as int
}

/// One cell of the table of a node: a slot, under the name `port`.
pub open spec fn slot_cell(port: Seq<char>, name: Seq<char>, slot_type: Seq<char>) -> Seq<char> {
    "<TD PORT=\""@ + html_escaped(port) + "\">"@ + html_escaped(name) + ": "@ + html_escaped(
        slot_type,
    ) + "</TD>"@
}

/// The cells of the first `count` slots of a list, whose ports are named
/// by `side` and a number.
pub open spec fn slot_cells(side: Seq<char>, slots: Seq<SlotInfo>) -> Seq<Seq<char>> {
    Seq::new(
        slots.len(),
        |i: int| slot_cell(side + decimal(i as nat), slots[i].name@, slots[i].slot_type@),
    )
}

/// One row of the table of a node: the cell of an input, the cell of an
/// output, or both; the side without a slot is left blank.
pub open spec fn slot_row(inputs: Seq<Seq<char>>, outputs: Seq<Seq<char>>, i: int) -> Seq<char> {
    match zipped_at(inputs, outputs, i) {
        Some(EitherOrBoth::Both(input, output)) => "<TR>"@ + input + output + "</TR>"@,
        Some(EitherOrBoth::Left(input)) => "<TR>"@ + input + "<TD BORDER=\"0\">&nbsp;</TD></TR>"@,
        Some(EitherOrBoth::Right(output)) => "<TR><TD BORDER=\"0\">&nbsp;</TD>"@ + output
            + "</TR>"@,
        None => Seq::empty(),
    }
}

/// The first `count` rows of the table of a node.
pub open spec fn slot_rows(inputs: Seq<Seq<char>>, outputs: Seq<Seq<char>>, count: int) -> Seq<char>
    decreases count,
{
    if count <= 0 {
        Seq::empty()
    } else {
        slot_rows(inputs, outputs, count - 1) + slot_row(inputs, outputs, count - 1)
    }
}

/// The number of rows of the table of a node: that of the longer list of
/// slots.
pub open spec fn row_count(node: RenderNode) -> int {
    if node.input_slots@.len() >= node.output_slots@.len() {
        node.input_slots@.len() as int
    } else {
        node.output_slots@.len() as int
    }
}

/// The label of a node: a table with the label and the short name of the
/// type as its title and one row for each pair of slots, marked as text
/// that is written as it is.
pub open spec fn node_label(node: RenderNode, settings: &Settings) -> Seq<char> {
    "RAW:<<TABLE STYLE=\"rounded\"><TR><TD PORT=\"title\" BORDER=\"0\" COLSPAN=\"2\">"@
        + html_escaped(node.label@) + "<BR/>"@ + font_tag_text(
        short_type_name(node.node_type@),
        settings.style.color_typename@,
        10,
    ) + "</TD></TR>"@ + slot_rows(
        slot_cells("in-"@, node.input_slots@),
        slot_cells("out-"@, node.output_slots@),
        row_count(node),
    ) + "</TABLE>>"@
}

/// The statement of a node.
pub open spec fn node_text(node: RenderNode, graph_name: Seq<char>, settings: &Settings) -> Seq<
    char,
> {
    node_statement(
        node_id(graph_name, node.label@),
        seq![
            ("label"@, node_label(node, settings)),
            ("color"@, settings.style.color_node@),
            ("fillcolor"@, settings.style.color_node@),
        ],
    )
}

/// The statements of the nodes at the first `count` places of `order`.
pub open spec fn nodes_text(
    graph: RenderGraph,
    graph_name: Seq<char>,
    settings: &Settings,
    order: Seq<usize>,
    count: int,
) -> Seq<char>
    decreases count,
{
    if count <= 0 {
        Seq::empty()
    } else {
        nodes_text(graph, graph_name, settings, order, count - 1) + node_text(
            graph.nodes@[order[count - 1] as int],
            graph_name,
            settings,
        )
    }
}

/// The statement of an edge on a level whose colours are those of the
/// layer at place `layer`.
pub open spec fn edge_text(edge: Edge, graph_name: Seq<char>, settings: &Settings, layer: int) -> Seq<
    char,
> {
    match edge {
        Edge::SlotEdge { input_node, input_index, output_node, output_index } => edge_statement(
            node_id(graph_name, output_node@),
            Some("out-"@ + decimal(output_index as nat) + ":e"@),
            node_id(graph_name, input_node@),
            Some("in-"@ + decimal(input_index as nat) + ":w"@),
            seq![("color"@, settings.style.layers@[layer].color_edge_slot@)],
        ),
        Edge::NodeEdge { input_node, output_node } => edge_statement(
            node_id(graph_name, output_node@),
            Some("title:e"@),
            node_id(graph_name, input_node@),
            Some("title:w"@),
            seq![("color"@, settings.style.layers@[layer].color_edge@)],
        ),
    }
}

/// The statements of the first `count` of the given edges.
pub open spec fn edges_text(
    edges: Seq<Edge>,
    graph_name: Seq<char>,
    settings: &Settings,
    layer: int,
    count: int,
) -> Seq<char>
    decreases count,
{
    if count <= 0 {
        Seq::empty()
    } else {
        edges_text(edges, graph_name, settings, layer, count - 1) + edge_text(
            edges[count - 1],
            graph_name,
            settings,
            layer,
        )
    }
}

/// The statements of the edges that end at the nodes at the first `count`
/// places of `order`.
pub open spec fn all_edges_text(
    graph: RenderGraph,
    graph_name: Seq<char>,
    settings: &Settings,
    layer: int,
    order: Seq<usize>,
    count: int,
) -> Seq<char>
    decreases count,
{
    if count <= 0 {
        Seq::empty()
    } else {
        let node = graph.nodes@[order[count - 1] as int];
        all_edges_text(graph, graph_name, settings, layer, order, count - 1) + edges_text(
            node.input_edges@,
            graph_name,
            settings,
            layer,
            node.input_edges@.len() as int,
        )
    }
}

/// What stands inside the block of a graph with the name `graph_name` on
/// level `level`: the graphs inside it in the order of their names, each
/// as a cluster; its nodes; and the edges between them.
pub open spec fn graph_text(
    graph: RenderGraph,
    graph_name: Seq<char>,
    settings: &Settings,
    level: nat,
) -> Seq<char>
    decreases graph, 1nat, 0nat,
{
    sub_graphs_text(
        graph,
        graph_name,
        settings,
        level,
        order_by(sub_graph_names(graph)),
        graph.sub_graphs@.len(),
    ) + nodes_text(graph, graph_name, settings, node_order(graph), graph.nodes@.len() as int)
        + all_edges_text(
        graph,
        graph_name,
        settings,
        layer_at(settings, level),
        node_order(graph),
        graph.nodes@.len() as int,
    )
}

/// The opening of the cluster of a graph with the name `name` inside the
/// graph `graph_name` on level `level`.
pub open spec fn sub_graph_header(
    name: Seq<char>,
    graph_name: Seq<char>,
    settings: &Settings,
    level: nat,
) -> Seq<char> {
    let next = settings.style.layers@[layer_at(settings, level + 1)];
    graph_header(
        "cluster"@ + (graph_name + seq!['_'] + name),
        "subgraph"@,
        seq![("label"@, name), ("fontcolor"@, "red"@)],
    ) + default_attributes(
        "graph"@,
        seq![
            ("style"@, "rounded,filled"@),
            ("color"@, next.color_background@),
            ("fontcolor"@, next.color_label@),
        ],
    )
}

/// The graphs inside `graph` at the first `count` places of `order`.
pub open spec fn sub_graphs_text(
    graph: RenderGraph,
    graph_name: Seq<char>,
    settings: &Settings,
    level: nat,
    order: Seq<usize>,
    count: nat,
) -> Seq<char>
    decreases graph, 0nat, count,
{
    if count == 0 || count > order.len() {
        Seq::empty()
    } else {
        let place = order[count - 1] as int;
        sub_graphs_text(graph, graph_name, settings, level, order, (count - 1) as nat) + if place
            < graph.sub_graphs@.len() {
            let sub = graph.sub_graphs@[place];
            nested_block(
                sub_graph_header(sub.name@, graph_name, settings, level) + graph_text(
                    sub.graph,
                    graph_name + seq!['_'] + sub.name@,
                    settings,
                    level + 1,
                ),
            )
        } else {
            Seq::empty()
        }
    }
}

/// The opening of the drawing.
pub open spec fn document_header(settings: &Settings) -> Seq<char> {
    graph_header(
        "RenderGraph"@,
        "digraph"@,
        seq![("rankdir"@, "LR"@), ("ranksep"@, "1.0"@)],
    ) + default_attributes("graph"@, seq![("bgcolor"@, settings.style.color_background@)])
        + default_attributes(
        "edge"@,
        seq![("fontname"@, settings.style.fontname@), ("fontcolor"@, settings.style.color_text@)],
    ) + default_attributes(
        "node"@,
        seq![
            ("shape"@, "plaintext"@),
            ("fontname"@, settings.style.fontname@),
            ("fontcolor"@, settings.style.color_text@),
        ],
    )
}

/// The drawing of a render graph.
pub open spec fn document(graph: RenderGraph, settings: &Settings) -> Seq<char> {
    document_header(settings) + graph_text(graph, Seq::empty(), settings, 0) + seq!['}', '\n']
}

fn make_node_id(graph_name: &str, label: &str) -> (id: String)
    ensures
        id@ == node_id(graph_name@, label@),
{
    let mut id = String::new();
    id.append(graph_name);
    id.append("_");
    id.append(graph_name);
    id.append(label);
    proof {
        reveal_strlit("_");
        assert("_"@ =~= seq!['_']);
    }
    assert(id@ =~= node_id(graph_name@, label@));
    id
}

fn make_cells(side: &str, slots: &Vec<SlotInfo>) -> (cells: Vec<String>)
    ensures
        texts(cells@) == slot_cells(side@, slots@),
{
    let mut cells: Vec<String> = Vec::new();
    for i in 0..slots.len()
        invariant
            cells@.len() == i,
            forall|j: int|
                0 <= j < i ==> (#[trigger] cells@[j])@ == slot_cell(
                    side@ + decimal(j as nat),
                    slots@[j].name@,
                    slots@[j].slot_type@,
                ),
    {
        let mut port = String::new();
        port.append(side);
        push_decimal(&mut port, i);
        let mut cell = String::new();
        cell.append("<TD PORT=\"");
        cell.append(html_escape(port.as_str()).as_str());
        cell.append("\">");
        cell.append(html_escape(slots[i].name.as_str()).as_str());
        cell.append(": ");
        cell.append(html_escape(slots[i].slot_type.as_str()).as_str());
        cell.append("</TD>");
        assert(cell@ =~= slot_cell(side@ + decimal(i as nat), slots@[i as int].name@, slots@[i as int].slot_type@));
        cells.push(cell);
    }
    assert(texts(cells@) =~= slot_cells(side@, slots@));
    cells
}

fn make_label(node: &RenderNode, settings: &Settings) -> (label: String)
    ensures
        label@ == node_label(*node, settings),
{
    let inputs = make_cells("in-", &node.input_slots);
    let outputs = make_cells("out-", &node.output_slots);
    let ghost ins = slot_cells("in-"@, node.input_slots@);
    let ghost outs = slot_cells("out-"@, node.output_slots@);
    let mut label = String::new();
    label.append(
        "RAW:<<TABLE STYLE=\"rounded\"><TR><TD PORT=\"title\" BORDER=\"0\" COLSPAN=\"2\">",
    );
    label.append(html_escape(node.label.as_str()).as_str());
    label.append("<BR/>");
    let short = display_short_name(node.node_type.as_str());
    label.append(font_tag(short.as_str(), settings.style.color_typename.as_str(), 10).as_str());
    label.append("</TD></TR>");
    let ghost head = label@;
    let mut zip = zip_longest(inputs.as_slice(), outputs.as_slice());
    assert(label@ =~= head + Seq::<char>::empty());
    loop
        invariant
            zip.first() == inputs@,
            zip.second() == outputs@,
            texts(inputs@) == ins,
            texts(outputs@) == outs,
            ins.len() == node.input_slots@.len(),
            outs.len() == node.output_slots@.len(),
            0 <= zip.place() <= row_count(*node),
            label@ == head + slot_rows(ins, outs, zip.place()),
        ensures
            zip.place() == row_count(*node),
        decreases row_count(*node) - zip.place(),
    {
        let ghost at = zip.place();
        match zip.next() {
            Some(EitherOrBoth::Both(input, output)) => {
                label.append("<TR>");
                label.append(input.as_str());
                label.append(output.as_str());
                label.append("</TR>");
                assert(zipped_at(ins, outs, at) == Some(EitherOrBoth::Both(ins[at], outs[at])));
            },
            Some(EitherOrBoth::Left(input)) => {
                label.append("<TR>");
                label.append(input.as_str());
                label.append("<TD BORDER=\"0\">&nbsp;</TD></TR>");
                assert(zipped_at(ins, outs, at) == Some(
                    EitherOrBoth::<Seq<char>, Seq<char>>::Left(ins[at]),
                ));
            },
            Some(EitherOrBoth::Right(output)) => {
                label.append("<TR><TD BORDER=\"0\">&nbsp;</TD>");
                label.append(output.as_str());
                label.append("</TR>");
                assert(zipped_at(ins, outs, at) == Some(
                    EitherOrBoth::<Seq<char>, Seq<char>>::Right(outs[at]),
                ));
            },
            None => {
                assert(at == row_count(*node));
                break ;
            },
        }
        assert(label@ =~= head + slot_rows(ins, outs, at + 1));
    }
    label.append("</TABLE>>");
    assert(label@ =~= node_label(*node, settings));
    label
}

fn order_of_nodes(graph: &RenderGraph) -> (order: Vec<usize>)
    ensures
        order@ == node_order(*graph),
        order@.len() == graph.nodes@.len(),
        forall|k: int| 0 <= k < order@.len() ==> (#[trigger] order@[k]) < graph.nodes@.len(),
{
    let mut labels: Vec<String> = Vec::new();
    for i in 0..graph.nodes.len()
        invariant
            labels@.len() == i,
            forall|j: int| 0 <= j < i ==> (#[trigger] labels@[j])@ == graph.nodes@[j].label@,
    {
        labels.push(graph.nodes[i].label.clone());
    }
    assert(texts(labels@) =~= node_labels(*graph));
    let by_label = sorted_places(&labels);
    let mut types: Vec<String> = Vec::new();
    for k in 0..by_label.len()
        invariant
            by_label@.len() == graph.nodes@.len(),
            forall|j: int| 0 <= j < by_label@.len() ==> (#[trigger] by_label@[j]) < graph.nodes@.len(),
            types@.len() == k,
            forall|j: int|
                0 <= j < k ==> (#[trigger] types@[j])@ == graph.nodes@[by_label@[j] as int].node_type@,
    {
        types.push(graph.nodes[by_label[k]].node_type.clone());
    }
    assert(texts(types@) =~= Seq::new(
        by_label@.len(),
        |k: int| graph.nodes@[by_label@[k] as int].node_type@,
    ));
    let by_type = sorted_places(&types);
    let mut order: Vec<usize> = Vec::new();
    for k in 0..by_type.len()
        invariant
            by_type@.len() == by_label@.len(),
            by_label@.len() == graph.nodes@.len(),
            forall|j: int| 0 <= j < by_label@.len() ==> (#[trigger] by_label@[j]) < graph.nodes@.len(),
            forall|j: int| 0 <= j < by_type@.len() ==> (#[trigger] by_type@[j]) < by_label@.len(),
            order@.len() == k,
            forall|j: int| 0 <= j < k ==> (#[trigger] order@[j]) == by_label@[by_type@[j] as int],
    {
        order.push(by_label[by_type[k]]);
    }
    assert(order@ =~= node_order(*graph));
    order
}

fn add_edges(dot: &mut DotGraph, graph_name: &str, node: &RenderNode, settings: &Settings, layer: usize)
    requires
        layer < settings.style.layers@.len(),
    ensures
        final(dot)@ == old(dot)@ + edges_text(
            node.input_edges@,
            graph_name@,
            settings,
            layer as int,
            node.input_edges@.len() as int,
        ),
{
    let ghost start = dot@;
    let colors = &settings.style.layers[layer];
    assert(dot@ =~= start + Seq::<char>::empty());
    for i in 0..node.input_edges.len()
        invariant
            layer < settings.style.layers@.len(),
            *colors == settings.style.layers@[layer as int],
            dot@ == start + edges_text(
                node.input_edges@,
                graph_name@,
                settings,
                layer as int,
                i as int,
            ),
    {
        match &node.input_edges[i] {
            Edge::SlotEdge { input_node, input_index, output_node, output_index } => {
                let mut from_port = String::new();
                from_port.append("out-");
                push_decimal(&mut from_port, *output_index);
                from_port.append(":e");
                let mut to_port = String::new();
                to_port.append("in-");
                push_decimal(&mut to_port, *input_index);
                to_port.append(":w");
                let attrs = [("color", colors.color_edge_slot.as_str())];
                assert(attr_views(attrs@) =~= seq![("color"@, colors.color_edge_slot@)]);
                dot.add_edge_with_ports(
                    make_node_id(graph_name, output_node.as_str()).as_str(),
                    Some(from_port.as_str()),
                    make_node_id(graph_name, input_node.as_str()).as_str(),
                    Some(to_port.as_str()),
                    &attrs,
                );
            },
            Edge::NodeEdge { input_node, output_node } => {
                let attrs = [("color", colors.color_edge.as_str())];
                assert(attr_views(attrs@) =~= seq![("color"@, colors.color_edge@)]);
                dot.add_edge_with_ports(
                    make_node_id(graph_name, output_node.as_str()).as_str(),
                    Some("title:e"),
                    make_node_id(graph_name, input_node.as_str()).as_str(),
                    Some("title:w"),
                    &attrs,
                );
            },
        }
        assert(dot@ =~= start + edges_text(
            node.input_edges@,
            graph_name@,
            settings,
            layer as int,
            i + 1,
        ));
    }
}

/// Writes what stands inside the block of a graph: the graphs inside it,
/// its nodes, and the edges between them.
fn build_dot_graph(
    dot: &mut DotGraph,
    graph_name: &str,
    graph: &RenderGraph,
    settings: &Settings,
    layer: usize,
    Ghost(level): Ghost<nat>,
)
    requires
        settings.style.layers@.len() > 0,
        layer == layer_at(settings, level),
    ensures
        final(dot)@ == old(dot)@ + graph_text(*graph, graph_name@, settings, level),
    decreases graph,
{
    let ghost start = dot@;
    let count = settings.style.layers.len();
    let next_layer = if layer + 1 < count {
        layer + 1
    } else {
        0
    };
    proof {
        let l = level as int;
        let c = count as int;
        assert(layer + 1 < c ==> (l + 1) % c == layer + 1) by (nonlinear_arith)
            requires
                c > 0,
                l >= 0,
                layer == l % c,
        ;
        assert(layer + 1 >= c ==> (l + 1) % c == 0) by (nonlinear_arith)
            requires
                c > 0,
                l >= 0,
                layer == l % c,
                layer < c,
        ;
        assert(0 <= l % c < c) by (nonlinear_arith)
            requires
                c > 0,
                l >= 0,
        ;
    }
    let mut names: Vec<String> = Vec::new();
    for i in 0..graph.sub_graphs.len()
        invariant
            names@.len() == i,
            forall|j: int| 0 <= j < i ==> (#[trigger] names@[j])@ == graph.sub_graphs@[j].name@,
    {
        names.push(graph.sub_graphs[i].name.clone());
    }
    assert(texts(names@) =~= sub_graph_names(*graph));
    let order = sorted_places(&names);
    assert(dot@ =~= start + Seq::<char>::empty());
    for k in 0..order.len()
        invariant
            settings.style.layers@.len() > 0,
            layer == layer_at(settings, level),
            next_layer == layer_at(settings, level + 1),
            next_layer < settings.style.layers@.len(),
            order@ == order_by(sub_graph_names(*graph)),
            order@.len() == graph.sub_graphs@.len(),
            forall|j: int| 0 <= j < order@.len() ==> (#[trigger] order@[j]) < graph.sub_graphs@.len(),
            dot@ == start + sub_graphs_text(
                *graph,
                graph_name@,
                settings,
                level,
                order@,
                k as nat,
            ),
    {
        let sub = &graph.sub_graphs[order[k]];
        let mut internal = String::new();
        internal.append(graph_name);
        internal.append("_");
        internal.append(sub.name.as_str());
        proof {
            reveal_strlit("_");
            assert("_"@ =~= seq!['_']);
            assert(internal@ =~= graph_name@ + seq!['_'] + sub.name@);
        }
        let colors = &settings.style.layers[next_layer];
        let head = [("label", sub.name.as_str()), ("fontcolor", "red")];
        assert(attr_views(head@) =~= seq![("label"@, sub.name@), ("fontcolor"@, "red"@)]);
        let look = [
            ("style", "rounded,filled"),
            ("color", colors.color_background.as_str()),
            ("fontcolor", colors.color_label.as_str()),
        ];
        assert(attr_views(look@) =~= seq![
            ("style"@, "rounded,filled"@),
            ("color"@, colors.color_background@),
            ("fontcolor"@, colors.color_label@),
        ]);
        let mut sub_dot = DotGraph::subgraph(internal.as_str(), &head).graph_attributes(&look);
        assert(sub_dot@ =~= sub_graph_header(sub.name@, graph_name@, settings, level));
        build_dot_graph(
            &mut sub_dot,
            internal.as_str(),
            &sub.graph,
            settings,
            next_layer,
            Ghost(level + 1),
        );
        dot.add_sub_graph(sub_dot);
        assert(dot@ =~= start + sub_graphs_text(
            *graph,
            graph_name@,
            settings,
            level,
            order@,
            (k + 1) as nat,
        ));
    }
    let ghost mid = dot@;
    let nodes = order_of_nodes(graph);
    assert(dot@ =~= mid + Seq::<char>::empty());
    for k in 0..nodes.len()
        invariant
            nodes@ == node_order(*graph),
            forall|j: int| 0 <= j < nodes@.len() ==> (#[trigger] nodes@[j]) < graph.nodes@.len(),
            dot@ == mid + nodes_text(*graph, graph_name@, settings, nodes@, k as int),
    {
        let node = &graph.nodes[nodes[k]];
        let label = make_label(node, settings);
        let attrs = [
            ("label", label.as_str()),
            ("color", settings.style.color_node.as_str()),
            ("fillcolor", settings.style.color_node.as_str()),
        ];
        assert(attr_views(attrs@) =~= seq![
            ("label"@, node_label(*node, settings)),
            ("color"@, settings.style.color_node@),
            ("fillcolor"@, settings.style.color_node@),
        ]);
        dot.add_node(make_node_id(graph_name, node.label.as_str()).as_str(), &attrs);
        assert(dot@ =~= mid + nodes_text(*graph, graph_name@, settings, nodes@, k + 1));
    }
    let ghost mid2 = dot@;
    assert(dot@ =~= mid2 + Seq::<char>::empty());
    for k in 0..nodes.len()
        invariant
            layer == layer_at(settings, level),
            layer < settings.style.layers@.len(),
            nodes@ == node_order(*graph),
            forall|j: int| 0 <= j < nodes@.len() ==> (#[trigger] nodes@[j]) < graph.nodes@.len(),
            dot@ == mid2 + all_edges_text(
                *graph,
                graph_name@,
                settings,
                layer as int,
                nodes@,
                k as int,
            ),
    {
        add_edges(dot, graph_name, &graph.nodes[nodes[k]], settings, layer);
        assert(dot@ =~= mid2 + all_edges_text(
            *graph,
            graph_name@,
            settings,
            layer as int,
            nodes@,
            k + 1,
        ));
    }
    assert(nodes@.len() == graph.nodes@.len());
    assert(dot@ =~= start + graph_text(*graph, graph_name@, settings, level));
}

/// Draws a render graph: the text of a graph in the DOT language that
/// shows the nodes as tables of their slots, the graphs inside the graph
/// as clusters, and the edges between nodes and between slots.
pub fn render_graph_dot(graph: &RenderGraph, settings: &Settings) -> (text: String)
    requires
        settings.style.layers@.len() > 0,
    ensures
        text@ == document(*graph, settings),
{
    let head = [("rankdir", "LR"), ("ranksep", "1.0")];
    assert(attr_views(head@) =~= seq![("rankdir"@, "LR"@), ("ranksep"@, "1.0"@)]);
    let graphs = [("bgcolor", settings.style.color_background.as_str())];
    assert(attr_views(graphs@) =~= seq![("bgcolor"@, settings.style.color_background@)]);
    let edges = [
        ("fontname", settings.style.fontname.as_str()),
        ("fontcolor", settings.style.color_text.as_str()),
    ];
    assert(attr_views(edges@) =~= seq![
        ("fontname"@, settings.style.fontname@),
        ("fontcolor"@, settings.style.color_text@),
    ]);
    let nodes = [
        ("shape", "plaintext"),
        ("fontname", settings.style.fontname.as_str()),
        ("fontcolor", settings.style.color_text.as_str()),
    ];
    assert(attr_views(nodes@) =~= seq![
        ("shape"@, "plaintext"@),
        ("fontname"@, settings.style.fontname@),
        ("fontcolor"@, settings.style.color_text@),
    ]);
    let mut dot = DotGraph::digraph("RenderGraph", &head).graph_attributes(
        &graphs,
    ).edge_attributes(&edges).node_attributes(&nodes);
    assert(dot@ =~= document_header(settings));
    proof {
        reveal_strlit("");
        assert(""@ =~= Seq::<char>::empty());
        let c = settings.style.layers@.len() as int;
        assert(0int % c == 0) by (nonlinear_arith)
            requires
                c > 0,
        ;
    }
    build_dot_graph(&mut dot, "", graph, settings, 0, Ghost(0));
    let text = dot.finish();
    assert(text@ =~= document(*graph, settings));
    text
}

} // verus!
