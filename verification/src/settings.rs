//! What can be chosen about a drawing: colours and fonts, the direction in
//! which it is laid out, which systems and which conflicts are shown.

use crate::text::starts_with;
use vstd::prelude::*;

verus! {

/// The direction in which the ranks of the drawing follow each other.
#[derive(Clone, Copy, Debug, PartialEq, Eq, Structural)]
pub enum RankDir {
    TopDown,
    LeftRight,
}

impl RankDir {
    /// The word for the direction in the DOT language.
    pub open spec fn spec_as_dot(&self) -> Seq<char> {
        match *self {
            RankDir::TopDown => "TD"@,
            RankDir::LeftRight => "LR"@,
        }
    }

    /// The word for the direction in the DOT language.
    pub fn as_dot(&self) -> (word: &'static str)
        ensures
            word@ == self.spec_as_dot(),
    {
        match self {
            RankDir::TopDown => "TD",
            RankDir::LeftRight => "LR",
        }
    }
}

impl Default for RankDir {
    fn default() -> (dir: RankDir)
        ensures
            dir == RankDir::LeftRight,
    {
        RankDir::LeftRight
    }
}

/// The way edges are drawn.
#[derive(Clone, Copy, Debug, PartialEq, Eq, Structural)]
pub enum EdgeStyle {
    NoEdges,
    Line,
    Polyline,
    Curved,
    Ortho,
    Spline,
}

impl EdgeStyle {
    /// The word for the style in the DOT language.
    pub open spec fn spec_as_dot(&self) -> Seq<char> {
        match *self {
            EdgeStyle::NoEdges => "none"@,
            EdgeStyle::Line => "line"@,
            EdgeStyle::Polyline => "polyline"@,
            EdgeStyle::Curved => "curved"@,
            EdgeStyle::Ortho => "ortho"@,
            EdgeStyle::Spline => "spline"@,
        }
    }

    /// The word for the style in the DOT language.
    pub fn as_dot(&self) -> (word: &'static str)
        ensures
            word@ == self.spec_as_dot(),
    {
        match self {
            EdgeStyle::NoEdges => "none",
            EdgeStyle::Line => "line",
            EdgeStyle::Polyline => "polyline",
            EdgeStyle::Curved => "curved",
            EdgeStyle::Ortho => "ortho",
            EdgeStyle::Spline => "spline",
        }
    }
}

impl Default for EdgeStyle {
    fn default() -> (style: EdgeStyle)
        ensures
            style == EdgeStyle::Spline,
    {
        EdgeStyle::Spline
    }
}

/// The colours and the border of one node, as they are written.
pub struct NodeStyle {
    pub bg_color: String,
    pub text_color: String,
    pub border_color: String,
    pub border_width: String,
}

/// The texts of a list of strings.
pub open spec fn texts(list: Seq<String>) -> Seq<Seq<char>> {
    Seq::new(list.len(), |i: int| list[i]@)
}

/// The colours through which the dependency edges go in turn.
pub open spec fn edge_palette() -> Seq<Seq<char>> {
    seq![
        "#eede00"@,
        "#881877"@,
        "#00b0cc"@,
        "#aa3a55"@,
        "#44d488"@,
        "#0090cc"@,
        "#ee9e44"@,
        "#663699"@,
        "#3363bb"@,
        "#22c2bb"@,
        "#99d955"@,
    ]
}

fn edge_colors() -> (colors: Vec<String>)
    ensures
        texts(colors@) == edge_palette(),
{
    let mut colors: Vec<String> = Vec::new();
    colors.push("#eede00".to_owned());
    colors.push("#881877".to_owned());
    colors.push("#00b0cc".to_owned());
    colors.push("#aa3a55".to_owned());
    colors.push("#44d488".to_owned());
    colors.push("#0090cc".to_owned());
    colors.push("#ee9e44".to_owned());
    colors.push("#663699".to_owned());
    colors.push("#3363bb".to_owned());
    colors.push("#22c2bb".to_owned());
    colors.push("#99d955".to_owned());
    assert(texts(colors@) =~= edge_palette());
    colors
}

/// The look of a drawing of a schedule. Widths are held as they are
/// written.
#[derive(Clone)]
pub struct Style {
    pub schedule_rankdir: RankDir,
    pub edge_style: EdgeStyle,
    pub fontname: String,
    pub color_background: String,
    pub color_set: String,
    pub color_set_label: String,
    pub color_set_border: String,
    pub color_edge: Vec<String>,
    pub multiple_set_edge_color: String,
    pub ambiguity_color: String,
    pub ambiguity_bgcolor: String,
    pub penwidth_edge: String,
}

impl Style {
    /// Whether the style is one of the given background and colours for
    /// sets and conflicts, and in everything else as all styles of this
    /// library are.
    pub open spec fn is_theme(
        &self,
        background: Seq<char>,
        set: Seq<char>,
        set_border: Seq<char>,
        set_label: Seq<char>,
        ambiguity_bgcolor: Seq<char>,
    ) -> bool {
        &&& self.schedule_rankdir == RankDir::LeftRight
        &&& self.edge_style == EdgeStyle::Spline
        &&& self.fontname@ == "Helvetica"@
        &&& self.color_background@ == background
        &&& self.color_set@ == set
        &&& self.color_set_border@ == set_border
        &&& self.color_set_label@ == set_label
        &&& texts(self.color_edge@) == edge_palette()
        &&& self.multiple_set_edge_color@ == "blue"@
        &&& self.ambiguity_color@ == "#c93526"@
        &&& self.ambiguity_bgcolor@ == ambiguity_bgcolor
        &&& self.penwidth_edge@ == "2"@
    }

    fn theme(
        background: &str,
        set: &str,
        set_border: &str,
        set_label: &str,
        ambiguity_bgcolor: &str,
    ) -> (style: Style)
        ensures
            style.is_theme(background@, set@, set_border@, set_label@, ambiguity_bgcolor@),
    {
        Style {
            schedule_rankdir: RankDir::default(),
            edge_style: EdgeStyle::default(),
            fontname: "Helvetica".to_owned(),
            color_background: background.to_owned(),
            color_set: set.to_owned(),
            color_set_border: set_border.to_owned(),
            color_set_label: set_label.to_owned(),
            color_edge: edge_colors(),
            multiple_set_edge_color: "blue".to_owned(),
            ambiguity_color: "#c93526".to_owned(),
            ambiguity_bgcolor: ambiguity_bgcolor.to_owned(),
            penwidth_edge: "2".to_owned(),
        }
    }

    /// Dark text on a white background.
    pub fn light() -> (style: Style)
        ensures
            style.is_theme("white"@, "#00000008"@, "#00000040"@, "#000000"@, "#d3d3d3"@),
    {
        Style::theme("white", "#00000008", "#00000040", "#000000", "#d3d3d3")
    }

    /// Light text on the grey of a chat window.
    pub fn dark_discord() -> (style: Style)
        ensures
            style.is_theme("#35393f"@, "#ffffff44"@, "#ffffff50"@, "#ffffff"@, "#c5daeb"@),
    {
        Style::theme("#35393f", "#ffffff44", "#ffffff50", "#ffffff", "#c5daeb")
    }

    /// Light text on the near-black of a code page.
    pub fn dark_github() -> (style: Style)
        ensures
            style.is_theme("#0d1117"@, "#ffffff44"@, "#ffffff50"@, "#ffffff"@, "#c6e6ff"@),
    {
        Style::theme("#0d1117", "#ffffff44", "#ffffff50", "#ffffff", "#c6e6ff")
    }
}

impl Default for Style {
    fn default() -> (style: Style)
        ensures
            style.is_theme("#0d1117"@, "#ffffff44"@, "#ffffff50"@, "#ffffff"@, "#c6e6ff"@),
    {
        Style::dark_github()
    }
}

/// The choice of the systems that a drawing is about.
pub enum SystemFilter {
    /// The systems whose name begins with one of these prefixes.
    InCrates(Vec<String>),
    /// The systems whose name begins with none of these prefixes.
    Excluding(Vec<String>),
    /// The systems for which the list says so, by their place in the table
    /// of systems; a system beyond the end of the list is not chosen.
    Chosen(Vec<bool>),
}

impl SystemFilter {
    /// Whether the filter takes the system at place `index` with the name
    /// `name`.
    pub open spec fn accepts(&self, index: int, name: Seq<char>) -> bool {
        match *self {
            SystemFilter::InCrates(crates) => exists|k: int|
                0 <= k < crates@.len() && (#[trigger] crates@[k])@.is_prefix_of(name),
            SystemFilter::Excluding(crates) => forall|k: int|
                0 <= k < crates@.len() ==> !(#[trigger] crates@[k])@.is_prefix_of(name),
            SystemFilter::Chosen(choice) => 0 <= index < choice@.len() && choice@[index],
        }
    }

    /// Whether the filter takes the system at place `index` with the name
    /// `name`.
    pub fn includes(&self, index: usize, name: &str) -> (r: bool)
        ensures
            r == self.accepts(index as int, name@),
    {
        match self {
            SystemFilter::InCrates(crates) => {
                let mut k: usize = 0;
                while k < crates.len()
                    invariant
                        *self == SystemFilter::InCrates(*crates),
                        k <= crates.len(),
                        forall|j: int| 0 <= j < k ==> !(#[trigger] crates@[j])@.is_prefix_of(name@),
                    decreases crates.len() - k,
                {
                    if starts_with(name, crates[k].as_str()) {
                        assert(crates@[k as int]@.is_prefix_of(name@));
                        assert((self->InCrates_0@[k as int])@.is_prefix_of(name@));
                        return true;
                    }
                    k += 1;
                }
                false
            },
            SystemFilter::Excluding(crates) => {
                let mut k: usize = 0;
                while k < crates.len()
                    invariant
                        *self == SystemFilter::Excluding(*crates),
                        k <= crates.len(),
                        forall|j: int| 0 <= j < k ==> !(#[trigger] crates@[j])@.is_prefix_of(name@),
                    decreases crates.len() - k,
                {
                    if starts_with(name, crates[k].as_str()) {
                        assert((self->Excluding_0@[k as int])@.is_prefix_of(name@));
                        return false;
                    }
                    k += 1;
                }
                true
            },
            SystemFilter::Chosen(choice) => index < choice.len() && choice[index],
        }
    }
}

/// The choice of the conflicts that are drawn.
pub enum AmbiguityFilter {
    /// All but the conflicts on one component alone whose type is one of
    /// these.
    WithoutSingleOn(Vec<u64>),
    /// The conflicts for which the list says so, by their place in the list
    /// of conflicts; a conflict beyond the end of the list is drawn.
    Chosen(Vec<bool>),
}

impl AmbiguityFilter {
    /// Whether the filter takes the conflict at place `index`, on
    /// components of the given types; a component whose type is not known
    /// has none.
    pub open spec fn accepts(&self, index: int, types: Seq<Option<u64>>) -> bool {
        match *self {
            AmbiguityFilter::WithoutSingleOn(hidden) => !(types.len() == 1 && types[0] is Some
                && hidden@.contains(types[0]->0)),
            AmbiguityFilter::Chosen(choice) => !(0 <= index < choice@.len()) || choice@[index],
        }
    }

    /// Whether the filter takes the conflict at place `index`, on
    /// components of the given types.
    pub fn includes(&self, index: usize, types: &Vec<Option<u64>>) -> (r: bool)
        ensures
            r == self.accepts(index as int, types@),
    {
        match self {
            AmbiguityFilter::WithoutSingleOn(hidden) => {
                if types.len() != 1 {
                    return true;
                }
                match types[0] {
                    None => true,
                    Some(key) => {
                        let mut k: usize = 0;
                        while k < hidden.len()
                            invariant
                                *self == AmbiguityFilter::WithoutSingleOn(*hidden),
                                types@.len() == 1,
                                types@[0] == Some(key),
                                k <= hidden.len(),
                                forall|j: int| 0 <= j < k ==> hidden@[j] != key,
                            decreases hidden.len() - k,
                        {
                            if hidden[k] == key {
                                assert(hidden@.contains(key));
                                return false;
                            }
                            k += 1;
                        }
                        true
                    },
                }
            },
            AmbiguityFilter::Chosen(choice) => index >= choice.len() || choice[index],
        }
    }
}

/// What can be chosen about a drawing of a schedule.
pub struct Settings {
    pub style: Style,
    /// Where set, only the systems that it takes are drawn, with the sets
    /// above them and what is next to them.
    pub include_system: Option<SystemFilter>,
    pub collapse_single_system_sets: bool,
    pub remove_transitive_edges: bool,
    pub ambiguity_enable: bool,
    pub ambiguity_enable_on_world: bool,
    pub include_ambiguity: Option<AmbiguityFilter>,
}

impl Settings {
    /// Whether these are the settings `other` in all but the two filters.
    pub open spec fn same_but_filters(&self, other: Settings) -> bool {
        &&& self.style == other.style
        &&& self.collapse_single_system_sets == other.collapse_single_system_sets
        &&& self.remove_transitive_edges == other.remove_transitive_edges
        &&& self.ambiguity_enable == other.ambiguity_enable
        &&& self.ambiguity_enable_on_world == other.ambiguity_enable_on_world
    }

    /// Only the systems are chosen for whose names `filter` says so. The
    /// names are those of the table of systems, in its order.
    pub fn filter_name<F: Fn(&str) -> bool>(self, names: &[&str], filter: F) -> (settings: Settings)
        requires
            forall|name: &str| #[trigger] filter.requires((name,)),
        ensures
            settings.same_but_filters(self),
            settings.include_ambiguity == self.include_ambiguity,
            settings.include_system matches Some(SystemFilter::Chosen(choice))
                && choice@.len() == names@.len() && forall|i: int|
                0 <= i < names@.len() ==> filter.ensures((#[trigger] names@[i],), choice@[i]),
    {
        let mut choice: Vec<bool> = Vec::new();
        for i in 0..names.len()
            invariant
                forall|name: &str| #[trigger] filter.requires((name,)),
                choice@.len() == i,
                forall|j: int| 0 <= j < i ==> filter.ensures((#[trigger] names@[j],), choice@[j]),
        {
            let decision = filter(names[i]);
            choice.push(decision);
        }
        let mut settings = self;
        settings.include_system = Some(SystemFilter::Chosen(choice));
        settings
    }

    /// Only the systems of the given crate are chosen: those whose name
    /// begins with its name.
    pub fn filter_in_crate(self, crate_: &str) -> (settings: Settings)
        ensures
            settings.same_but_filters(self),
            settings.include_ambiguity == self.include_ambiguity,
            settings.include_system matches Some(SystemFilter::InCrates(crates)) && texts(crates@)
                == seq![crate_@],
    {
        let mut crates: Vec<String> = Vec::new();
        crates.push(crate_.to_owned());
        assert(texts(crates@) =~= seq![crate_@]);
        let mut settings = self;
        settings.include_system = Some(SystemFilter::InCrates(crates));
        settings
    }

    /// Only the systems of the given crates are chosen: those whose name
    /// begins with the name of one of them.
    pub fn filter_in_crates(self, crates: &[&str]) -> (settings: Settings)
        ensures
            settings.same_but_filters(self),
            settings.include_ambiguity == self.include_ambiguity,
            settings.include_system matches Some(SystemFilter::InCrates(owned)) && texts(owned@)
                == Seq::new(crates@.len(), |i: int| crates@[i]@),
    {
        let mut owned: Vec<String> = Vec::new();
        for i in 0..crates.len()
            invariant
                owned@.len() == i,
                forall|j: int| 0 <= j < i ==> (#[trigger] owned@[j])@ == crates@[j]@,
        {
            owned.push(crates[i].to_owned());
        }
        assert(texts(owned@) =~= Seq::new(crates@.len(), |i: int| crates@[i]@));
        let mut settings = self;
        settings.include_system = Some(SystemFilter::InCrates(owned));
        settings
    }

    /// Conflicts on one component alone are not drawn where that component
    /// is of the given type.
    pub fn without_single_ambiguities_on(self, type_key: u64) -> (settings: Settings)
        ensures
            settings.same_but_filters(self),
            settings.include_system == self.include_system,
            settings.include_ambiguity matches Some(AmbiguityFilter::WithoutSingleOn(hidden))
                && hidden@ == seq![type_key],
    {
        let mut hidden: Vec<u64> = Vec::new();
        hidden.push(type_key);
        assert(hidden@ =~= seq![type_key]);
        let mut settings = self;
        settings.include_ambiguity = Some(AmbiguityFilter::WithoutSingleOn(hidden));
        settings
    }

    /// Conflicts on one component alone are not drawn where that component
    /// is of one of the given types.
    pub fn without_single_ambiguities_on_one_of(self, type_keys: &[u64]) -> (settings: Settings)
        ensures
            settings.same_but_filters(self),
            settings.include_system == self.include_system,
            settings.include_ambiguity matches Some(AmbiguityFilter::WithoutSingleOn(hidden))
                && hidden@ == type_keys@,
    {
        let mut hidden: Vec<u64> = Vec::new();
        for i in 0..type_keys.len()
            invariant
                hidden@ == type_keys@.take(i as int),
        {
            hidden.push(type_keys[i]);
            assert(type_keys@.take(i + 1) =~= type_keys@.take(i as int).push(type_keys@[i as int]));
        }
        assert(type_keys@.take(type_keys@.len() as int) =~= type_keys@);
        let mut settings = self;
        settings.include_ambiguity = Some(AmbiguityFilter::WithoutSingleOn(hidden));
        settings
    }
}

impl Default for Settings {
    fn default() -> (settings: Settings)
        ensures
            settings.style.is_theme("#0d1117"@, "#ffffff44"@, "#ffffff50"@, "#ffffff"@, "#c6e6ff"@),
            settings.include_system is None,
            !settings.collapse_single_system_sets,
            settings.remove_transitive_edges,
            !settings.ambiguity_enable,
            !settings.ambiguity_enable_on_world,
            settings.include_ambiguity is None,
    {
        Settings {
            style: Style::default(),
            include_system: None,
            collapse_single_system_sets: false,
            remove_transitive_edges: true,
            ambiguity_enable: false,
            ambiguity_enable_on_world: false,
            include_ambiguity: None,
        }
    }
}

} // verus!
