//! What can be chosen about a drawing of a render graph.

use vstd::prelude::*;

verus! {

/// The colours of one level of nested graphs.
pub struct LayerStyle {
    pub color_background: String,
    pub color_label: String,
    pub color_edge: String,
    pub color_edge_slot: String,
}

impl LayerStyle {
    /// Whether the layer has these colours.
    pub open spec fn is(
        &self,
        background: Seq<char>,
        label: Seq<char>,
        edge: Seq<char>,
        edge_slot: Seq<char>,
    ) -> bool {
        &&& self.color_background@ == background
        &&& self.color_label@ == label
        &&& self.color_edge@ == edge
        &&& self.color_edge_slot@ == edge_slot
    }

    fn of(background: &str, label: &str, edge: &str, edge_slot: &str) -> (layer: LayerStyle)
        ensures
            layer.is(background@, label@, edge@, edge_slot@),
    {
        LayerStyle {
            color_background: background.to_owned(),
            color_label: label.to_owned(),
            color_edge: edge.to_owned(),
            color_edge_slot: edge_slot.to_owned(),
        }
    }
}

/// The look of a drawing of a render graph. The size of the font is held
/// as it is written.
pub struct Style {
    pub fontname: String,
    pub fontsize: String,
    pub color_background: String,
    pub color_text: String,
    pub color_typename: String,
    pub layers: Vec<LayerStyle>,
    pub color_node: String,
    pub node_style: String,
}

impl Style {
    /// Whether the style has these colours and two layers, and is in
    /// everything else as all styles of this library are.
    pub open spec fn is_theme(
        &self,
        text: Seq<char>,
        background: Seq<char>,
        node: Seq<char>,
    ) -> bool {
        &&& self.fontname@ == "Helvetica"@
        &&& self.fontsize@ == "14"@
        &&& self.color_text@ == text
        &&& self.color_typename@ == "red"@
        &&& self.color_background@ == background
        &&& self.layers@.len() == 2
        &&& self.color_node@ == node
        &&& self.node_style@ == "rounded"@
    }

    fn theme(text: &str, background: &str, node: &str, first: LayerStyle, second: LayerStyle) -> (style:
        Style)
        ensures
            style.is_theme(text@, background@, node@),
            style.layers@[0] == first,
            style.layers@[1] == second,
    {
        let mut layers: Vec<LayerStyle> = Vec::new();
        layers.push(first);
        layers.push(second);
        Style {
            fontname: "Helvetica".to_owned(),
            fontsize: "14".to_owned(),
            color_text: text.to_owned(),
            color_typename: "red".to_owned(),
            color_background: background.to_owned(),
            layers,
            color_node: node.to_owned(),
            node_style: "rounded".to_owned(),
        }
    }

    /// Dark text on a white background.
    pub fn light() -> (style: Style)
        ensures
            style.is_theme("black"@, "white"@, "black"@),
            style.layers@[0].is("#c4d0ed"@, "black"@, "black"@, "blue"@),
            style.layers@[1].is("#e4e9f5"@, "black"@, "black"@, "blue"@),
    {
        Style::theme(
            "black",
            "white",
            "black",
            LayerStyle::of("#c4d0ed", "black", "black", "blue"),
            LayerStyle::of("#e4e9f5", "black", "black", "blue"),
        )
    }

    /// Light text on the near-black of a code page.
    pub fn dark_github() -> (style: Style)
        ensures
            style.is_theme("white"@, "#0d1117"@, "white"@),
            style.layers@[0].is("#6f90ad"@, "black"@, "white"@, "#715ed6"@),
            style.layers@[1].is("#343a42"@, "white"@, "white"@, "#a79be6"@),
    {
        Style::theme(
            "white",
            "#0d1117",
            "white",
            LayerStyle::of("#6f90ad", "black", "white", "#715ed6"),
            LayerStyle::of("#343a42", "white", "white", "#a79be6"),
        )
    }

    /// Light text on the grey of a chat window.
    pub fn dark_discord() -> (style: Style)
        ensures
            style.is_theme("white"@, "#35393F"@, "#99aab5"@),
            style.layers@[0].is("#6f90ad"@, "black"@, "white"@, "#a79be6"@),
            style.layers@[1].is("#5e6570"@, "white"@, "white"@, "#a79be6"@),
    {
        Style::theme(
            "white",
            "#35393F",
            "#99aab5",
            LayerStyle::of("#6f90ad", "black", "white", "#a79be6"),
            LayerStyle::of("#5e6570", "white", "white", "#a79be6"),
        )
    }
}

impl Default for Style {
    fn default() -> (style: Style)
        ensures
            style.is_theme("white"@, "#0d1117"@, "white"@),
            style.layers@[0].is("#6f90ad"@, "black"@, "white"@, "#715ed6"@),
            style.layers@[1].is("#343a42"@, "white"@, "white"@, "#a79be6"@),
    {
        Style::dark_github()
    }
}

/// What can be chosen about a drawing of a render graph.
pub struct Settings {
    pub style: Style,
}

impl Default for Settings {
    fn default() -> (settings: Settings)
        ensures
            settings.style.is_theme("white"@, "#0d1117"@, "white"@),
            settings.style.layers@[0].is("#6f90ad"@, "black"@, "white"@, "#715ed6"@),
            settings.style.layers@[1].is("#343a42"@, "white"@, "white"@, "#a79be6"@),
    {
        Settings { style: Style::default() }
    }
}

} // verus!
