//! Draws a schedule that is made of stages: each stage as a cluster with
//! its systems, the stages joined in their order, and an edge for each
//! system that asks to run before or after another.

use crate::dot::{
    attr_views, default_attributes, edge_statement, font_tag, font_tag_text, graph_header,
    html_escape, html_escaped, invisible_attributes, nested_block, node_statement, DotGraph,
};
use crate::names::{is_pretty_printable, pretty_name, pretty_type_name};
use crate::render_graph::iter_utils::sorted_places;
use crate::render_graph::order_by;
use crate::settings::{texts, SystemFilter};
use crate::system_style::without_suffixes;
use crate::text::{chars_of, decimal, push_decimal, string_of};
use vstd::prelude::*;

verus! {

/// One system of a stage.
pub struct SystemContainer {
    /// The full name of the system.
    pub name: String,
    /// The labels of the system, each as a number.
    pub labels: Vec<u64>,
    /// The labels before whose systems this system runs.
    pub before: Vec<u64>,
    /// The labels after whose systems this system runs.
    pub after: Vec<u64>,
    /// The full names of the components that the system reads.
    pub component_reads: Vec<String>,
    /// The full names of the components that the system writes.
    pub component_writes: Vec<String>,
    /// The full names of the resources that the system reads.
    pub resource_reads: Vec<String>,
    /// The full names of the resources that the system writes.
    pub resource_writes: Vec<String>,
    /// Whether the system is drawn at all.
    pub shown: bool,
}

/// A stage of systems: those that run alone at its start, alone before the
/// commands, side by side, and alone at its end.
pub struct SystemStage {
    pub exclusive_at_start: Vec<SystemContainer>,
    pub exclusive_before_commands: Vec<SystemContainer>,
    pub parallel: Vec<SystemContainer>,
    pub exclusive_at_end: Vec<SystemContainer>,
}

/// What a stage is.
pub enum Stage {
    /// A stage of systems.
    Systems(SystemStage),
    /// A schedule of its own.
    Nested(StagedSchedule),
    /// Anything else; it is not drawn.
    Other,
}

/// One stage of a schedule with its label in three forms: as a word, as
/// the label is written, and as the word is written between quotes.
pub struct StageEntry {
    pub name: String,
    pub debug_name: String,
    pub quoted_name: String,
    /// Whether this is the schedule that runs once at the start.
    pub is_startup: bool,
    pub stage: Stage,
}

/// A schedule of stages.
pub struct StagedSchedule {
    pub stages: Vec<StageEntry>,
}

/// When a system of a stage runs.
#[derive(Clone, Copy, Debug, PartialEq, Eq, Structural)]
pub enum SystemKind {
    ExclusiveStart,
    ExclusiveEnd,
    ExclusiveBeforeCommands,
    Parallel,
}

/// Whether an edge leads to a system that runs later or comes from one that
/// runs earlier.
#[derive(Clone, Copy, Debug, PartialEq, Eq, Structural)]
pub enum SystemDirection {
    Before,
    After,
}

/// The look of a drawing of a schedule of stages. The size of the font is
/// held as it is written.
pub struct ScheduleGraphStyle {
    pub fontsize: String,
    pub fontname: String,
    pub bgcolor: String,
    pub bgcolor_nested_schedule: String,
    pub bgcolor_stage: String,
    pub color_system: String,
    pub color_edge: String,
    pub hide_startup_schedule: bool,
    /// Where set, only the systems that it takes are drawn.
    pub system_filter: Option<SystemFilter>,
}

impl ScheduleGraphStyle {
    /// Whether the style has these colours, and is in everything else as
    /// all styles of this kind are.
    pub open spec fn is_theme(
        &self,
        bgcolor: Seq<char>,
        nested: Seq<char>,
        stage: Seq<char>,
        system: Seq<char>,
        edge: Seq<char>,
    ) -> bool {
        &&& self.fontsize@ == "16"@
        &&& self.fontname@ == "Helvetica"@
        &&& self.bgcolor@ == bgcolor
        &&& self.bgcolor_nested_schedule@ == nested
        &&& self.bgcolor_stage@ == stage
        &&& self.color_system@ == system
        &&& self.color_edge@ == edge
        &&& self.hide_startup_schedule
        &&& self.system_filter is None
    }

    fn theme(bgcolor: &str, nested: &str, stage: &str, system: &str, edge: &str) -> (style: Self)
        ensures
            style.is_theme(bgcolor@, nested@, stage@, system@, edge@),
    {
        ScheduleGraphStyle {
            fontsize: "16".to_owned(),
            fontname: "Helvetica".to_owned(),
            bgcolor: bgcolor.to_owned(),
            bgcolor_nested_schedule: nested.to_owned(),
            bgcolor_stage: stage.to_owned(),
            color_system: system.to_owned(),
            color_edge: edge.to_owned(),
            hide_startup_schedule: true,
            system_filter: None,
        }
    }

    /// Dark text on a white background.
    pub fn light() -> (style: Self)
        ensures
            style.is_theme("white"@, "#d1d5da"@, "#e1e5ea"@, "white"@, "black"@),
    {
        ScheduleGraphStyle::theme("white", "#d1d5da", "#e1e5ea", "white", "black")
    }

    /// Light text on a dark background.
    pub fn dark() -> (style: Self)
        ensures
            style.is_theme("#35393F"@, "#D0E1ED"@, "#99aab5"@, "#eff1f3"@, "white"@),
    {
        ScheduleGraphStyle::theme("#35393F", "#D0E1ED", "#99aab5", "#eff1f3", "white")
    }
}

impl Default for ScheduleGraphStyle {
    fn default() -> (style: Self)
        ensures
            style.is_theme("#35393F"@, "#D0E1ED"@, "#99aab5"@, "#eff1f3"@, "white"@),
    {
        ScheduleGraphStyle::dark()
    }
}

/// The identifier of the node at which the edges between stages end.
pub open spec fn marker_id_text(schedule_name: Seq<char>, debug_name: Seq<char>) -> Seq<char> {
    "MARKER_"@ + schedule_name + seq!['_'] + debug_name
}

/// The identifier of the node of a system: the name of the schedule, the
/// name of the system, and its place among the systems of its kind.
pub open spec fn node_id_text(schedule_name: Seq<char>, name: Seq<char>, place: nat) -> Seq<char> {
    schedule_name + seq!['_'] + name + seq!['_'] + decimal(place)
}

/// The identifier of the node at which the edges between stages end.
pub fn marker_id(schedule_name: &str, debug_name: &str) -> (id: String)
    ensures
        id@ == marker_id_text(schedule_name@, debug_name@),
{
    let mut id = String::new();
    id.append("MARKER_");
    id.append(schedule_name);
    id.append("_");
    id.append(debug_name);
    proof {
        reveal_strlit("_");
        assert("_"@ =~= seq!['_']);
    }
    assert(id@ =~= marker_id_text(schedule_name@, debug_name@));
    id
}

/// The identifier of the node of a system.
pub fn node_id(schedule_name: &str, system: &SystemContainer, i: usize) -> (id: String)
    ensures
        id@ == node_id_text(schedule_name@, system.name@, i as nat),
{
    let mut id = String::new();
    id.append(schedule_name);
    id.append("_");
    id.append(system.name.as_str());
    id.append("_");
    push_decimal(&mut id, i);
    proof {
        reveal_strlit("_");
        assert("_"@ =~= seq!['_']);
    }
    assert(id@ =~= node_id_text(schedule_name@, system.name@, i as nat));
    id
}

/// The short names of the given types, each followed by a comma and a
/// space.
pub open spec fn listed_names(names: Seq<String>) -> Seq<char>
    decreases names.len(),
{
    if names.len() == 0 {
        Seq::empty()
    } else {
        listed_names(names.drop_last()) + pretty_type_name(names.last()@) + ", "@
    }
}

/// A tooltip with one more list: the title, and in square brackets the
/// short names with commas between them. An empty list adds nothing.
pub open spec fn with_list(tooltip: Seq<char>, title: Seq<char>, names: Seq<String>) -> Seq<char> {
    if names.len() == 0 {
        tooltip
    } else {
        without_suffixes(tooltip + title + " ["@ + listed_names(names), ", "@) + "]\\n"@
    }
}

/// The tooltip of a system: the lists of what it reads and writes, or, if
/// it uses nothing, its short name.
pub open spec fn tooltip_text(system: SystemContainer) -> Seq<char> {
    let lists = with_list(
        with_list(
            with_list(
                with_list(Seq::empty(), "Components"@, system.component_reads@),
                "ComponentsMut"@,
                system.component_writes@,
            ),
            "Res"@,
            system.resource_reads@,
        ),
        "ResMut"@,
        system.resource_writes@,
    );
    if lists.len() == 0 {
        pretty_type_name(system.name@)
    } else {
        lists
    }
}

/// Whether all the names can be shortened.
pub open spec fn are_printable(names: Seq<String>) -> bool {
    forall|i: int| 0 <= i < names.len() ==> is_pretty_printable(#[trigger] names[i]@)
}

/// Whether a system can be drawn: its name and the names of what it uses
/// can be shortened.
pub open spec fn is_system_drawable(system: SystemContainer) -> bool {
    &&& is_pretty_printable(system.name@)
    &&& are_printable(system.component_reads@)
    &&& are_printable(system.component_writes@)
    &&& are_printable(system.resource_reads@)
    &&& are_printable(system.resource_writes@)
}

fn add_list(tooltip: &mut String, title: &str, names: &Vec<String>)
    requires
        are_printable(names@),
    ensures
        final(tooltip)@ == with_list(old(tooltip)@, title@, names@),
{
    if names.len() == 0 {
        return ;
    }
    tooltip.append(title);
    tooltip.append(" [");
    let ghost head = tooltip@;
    assert(tooltip@ =~= head + Seq::<char>::empty());
    for i in 0..names.len()
        invariant
            are_printable(names@),
            tooltip@ == head + listed_names(names@.take(i as int)),
    {
        assert(names@.take(i + 1).drop_last() =~= names@.take(i as int));
        assert(names@.take(i + 1).last() == names@[i as int]);
        tooltip.append(pretty_name(names[i].as_str()).as_str());
        tooltip.append(", ");
        assert(tooltip@ =~= head + listed_names(names@.take(i + 1)));
    }
    assert(names@.take(names@.len() as int) =~= names@);
    let all = chars_of(tooltip.as_str());
    let suffix = chars_of(", ");
    let mut to: usize = all.len();
    assert(all@.take(all@.len() as int) =~= all@);
    proof {
        reveal_strlit(", ");
    }
    loop
        invariant
            to <= all.len(),
            suffix@ == ", "@,
            suffix@.len() == 2,
            without_suffixes(all@, suffix@) == without_suffixes(all@.take(to as int), suffix@),
        ensures
            without_suffixes(all@, suffix@) == all@.take(to as int),
        decreases to,
    {
        let ghost rest = all@.take(to as int);
        if to >= 2 && all[to - 2] == suffix[0] && all[to - 1] == suffix[1] {
            assert(rest.subrange(rest.len() - 2, rest.len() as int) =~= suffix@);
            assert(rest.take(rest.len() - 2) =~= all@.take(to - 2));
            to -= 2;
        } else {
            assert(!suffix@.is_suffix_of(rest)) by {
                if suffix@.is_suffix_of(rest) {
                    let tail = rest.subrange(rest.len() - 2, rest.len() as int);
                    assert(tail[0] == suffix@[0] && tail[1] == suffix@[1]);
                }
            }
            break ;
        }
    }
    let mut kept: Vec<char> = Vec::new();
    for i in 0..to
        invariant
            to <= all.len(),
            kept@ == all@.take(i as int),
    {
        kept.push(all[i]);
        assert(all@.take(i + 1) =~= all@.take(i as int).push(all@[i as int]));
    }
    *tooltip = string_of(&kept);
    tooltip.append("]\\n");
    assert(tooltip@ =~= with_list(old(tooltip)@, title@, names@));
}

/// The tooltip of a system.
pub fn system_tooltip(system: &SystemContainer) -> (tooltip: String)
    requires
        is_system_drawable(*system),
    ensures
        tooltip@ == tooltip_text(*system),
{
    let mut tooltip = String::new();
    add_list(&mut tooltip, "Components", &system.component_reads);
    add_list(&mut tooltip, "ComponentsMut", &system.component_writes);
    add_list(&mut tooltip, "Res", &system.resource_reads);
    add_list(&mut tooltip, "ResMut", &system.resource_writes);
    if tooltip.as_str().is_empty() {
        pretty_name(system.name.as_str())
    } else {
        tooltip
    }
}

/// The names of systems.
pub open spec fn system_names(systems: Seq<SystemContainer>) -> Seq<Seq<char>> {
    Seq::new(systems.len(), |i: int| systems[i].name@)
}

/// The places of the systems in the order of their names.
pub open spec fn system_order(systems: Seq<SystemContainer>) -> Seq<usize> {
    order_by(system_names(systems))
}

/// Whether the style lets the system be drawn.
pub open spec fn is_shown(system: SystemContainer, style: &ScheduleGraphStyle) -> bool {
    system.shown && match style.system_filter {
        Some(filter) => filter.accepts(0, system.name@),
        None => true,
    }
}

/// What is written under the name of a system that runs alone.
pub open spec fn kind_text(kind: SystemKind) -> Seq<char> {
    match kind {
        SystemKind::ExclusiveStart => "Exclusive at start"@,
        SystemKind::ExclusiveEnd => "Exclusive at end"@,
        SystemKind::ExclusiveBeforeCommands => "Exclusive before commands"@,
        SystemKind::Parallel => Seq::empty(),
    }
}

/// The label of a system: its short name and, for a system that runs
/// alone, a line in red that says when.
pub open spec fn label_text(system: SystemContainer, kind: SystemKind) -> Seq<char> {
    let short = pretty_type_name(system.name@);
    if kind == SystemKind::Parallel {
        short
    } else {
        seq!['<'] + html_escaped(short) + "<BR />"@ + font_tag_text(kind_text(kind), "red"@, 11)
            + seq!['>']
    }
}

/// The edges that join a system to the first `count` systems of its kind
/// that carry the label `requirement`.
pub open spec fn requirement_edges(
    schedule_name: Seq<char>,
    me: Seq<char>,
    direction: SystemDirection,
    requirement: u64,
    systems: Seq<SystemContainer>,
    order: Seq<usize>,
    count: int,
) -> Seq<char>
    decreases count,
{
    if count <= 0 {
        Seq::empty()
    } else {
        let dependency = systems[order[count - 1] as int];
        let other = node_id_text(schedule_name, dependency.name@, (count - 1) as nat);
        let attrs = seq![("constraint"@, "false"@)];
        requirement_edges(schedule_name, me, direction, requirement, systems, order, count - 1)
            + if dependency.labels@.contains(requirement) {
            if direction == SystemDirection::Before {
                edge_statement(me, None, other, None, attrs)
            } else {
                edge_statement(other, None, me, None, attrs)
            }
        } else {
            Seq::empty()
        }
    }
}

/// The edges for the requirements of a system: for each label the edges to
/// or from the systems that carry it.
pub open spec fn dependency_edges(
    schedule_name: Seq<char>,
    me: Seq<char>,
    direction: SystemDirection,
    requirements: Seq<u64>,
    systems: Seq<SystemContainer>,
    order: Seq<usize>,
) -> Seq<char>
    decreases requirements.len(),
{
    if requirements.len() == 0 {
        Seq::empty()
    } else {
        dependency_edges(schedule_name, me, direction, requirements.drop_last(), systems, order)
            + requirement_edges(
            schedule_name,
            me,
            direction,
            requirements.last(),
            systems,
            order,
            order.len() as int,
        )
    }
}

/// Whether a system of the list carries the label.
pub open spec fn is_carried(systems: Seq<SystemContainer>, label: u64) -> bool {
    exists|i: int| 0 <= i < systems.len() && (#[trigger] systems[i]).labels@.contains(label)
}

/// Whether the systems of one kind can be drawn: those that are shown have
/// names that can be shortened, and ask to run before or after labels that
/// systems of the list carry.
pub open spec fn are_drawable(systems: Seq<SystemContainer>, style: &ScheduleGraphStyle) -> bool {
    forall|i: int|
        0 <= i < systems.len() && is_shown(#[trigger] systems[i], style) ==> is_system_drawable(
            systems[i],
        ) && (forall|k: int|
            0 <= k < systems[i].before@.len() ==> is_carried(
                systems,
                #[trigger] systems[i].before@[k],
            )) && (forall|k: int|
            0 <= k < systems[i].after@.len() ==> is_carried(
                systems,
                #[trigger] systems[i].after@[k],
            ))
}

/// The system at place `place` of the order as it is drawn: its node and
/// the edges for its requirements; nothing for a system that is not shown.
pub open spec fn system_text(
    schedule_name: Seq<char>,
    kind: SystemKind,
    systems: Seq<SystemContainer>,
    order: Seq<usize>,
    style: &ScheduleGraphStyle,
    place: int,
) -> Seq<char> {
    let system = systems[order[place] as int];
    let id = node_id_text(schedule_name, system.name@, place as nat);
    if is_shown(system, style) {
        node_statement(
            id,
            seq![("label"@, label_text(system, kind)), ("tooltip"@, tooltip_text(system))],
        ) + dependency_edges(
            schedule_name,
            id,
            SystemDirection::Before,
            system.before@,
            systems,
            order,
        ) + dependency_edges(
            schedule_name,
            id,
            SystemDirection::After,
            system.after@,
            systems,
            order,
        )
    } else {
        Seq::empty()
    }
}

/// The first `count` systems of the order as they are drawn.
pub open spec fn systems_text(
    schedule_name: Seq<char>,
    kind: SystemKind,
    systems: Seq<SystemContainer>,
    order: Seq<usize>,
    style: &ScheduleGraphStyle,
    count: int,
) -> Seq<char>
    decreases count,
{
    if count <= 0 {
        Seq::empty()
    } else {
        systems_text(schedule_name, kind, systems, order, style, count - 1) + system_text(
            schedule_name,
            kind,
            systems,
            order,
            style,
            count - 1,
        )
    }
}

/// The systems of one kind as they are drawn, in the order of their names.
pub open spec fn kind_systems_text(
    schedule_name: Seq<char>,
    kind: SystemKind,
    systems: Seq<SystemContainer>,
    style: &ScheduleGraphStyle,
) -> Seq<char> {
    systems_text(
        schedule_name,
        kind,
        systems,
        system_order(systems),
        style,
        systems.len() as int,
    )
}

/// Writes the edges for the requirements of a system.
pub fn add_dependency_labels(
    graph: &mut DotGraph,
    schedule_name: &str,
    system_node_id: &str,
    direction: SystemDirection,
    requirements: &Vec<u64>,
    other_systems: &Vec<SystemContainer>,
    order: &Vec<usize>,
)
    requires
        order@.len() == other_systems@.len(),
        forall|k: int| 0 <= k < order@.len() ==> (#[trigger] order@[k]) < other_systems@.len(),
        forall|k: int|
            0 <= k < requirements@.len() ==> is_carried(
                other_systems@,
                #[trigger] requirements@[k],
            ),
    ensures
        final(graph)@ == old(graph)@ + dependency_edges(
            schedule_name@,
            system_node_id@,
            direction,
            requirements@,
            other_systems@,
            order@,
        ),
{
    let ghost start = graph@;
    assert(graph@ =~= start + Seq::<char>::empty());
    for r in 0..requirements.len()
        invariant
            order@.len() == other_systems@.len(),
            forall|k: int| 0 <= k < order@.len() ==> (#[trigger] order@[k]) < other_systems@.len(),
            graph@ == start + dependency_edges(
                schedule_name@,
                system_node_id@,
                direction,
                requirements@.take(r as int),
                other_systems@,
                order@,
            ),
    {
        let requirement = requirements[r];
        let ghost mid = graph@;
        assert(requirements@.take(r + 1).drop_last() =~= requirements@.take(r as int));
        assert(requirements@.take(r + 1).last() == requirement);
        assert(graph@ =~= mid + Seq::<char>::empty());
        for i in 0..order.len()
            invariant
                order@.len() == other_systems@.len(),
                forall|k: int|
                    0 <= k < order@.len() ==> (#[trigger] order@[k]) < other_systems@.len(),
                graph@ == mid + requirement_edges(
                    schedule_name@,
                    system_node_id@,
                    direction,
                    requirement,
                    other_systems@,
                    order@,
                    i as int,
                ),
        {
            let dependency = &other_systems[order[i]];
            let mut carries = false;
            for k in 0..dependency.labels.len()
                invariant
                    carries == dependency.labels@.take(k as int).contains(requirement),
            {
                proof {
                    crate::sequences::lemma_push_membership(
                        dependency.labels@.take(k as int),
                        dependency.labels@[k as int],
                    );
                    assert(dependency.labels@.take(k + 1) =~= dependency.labels@.take(
                        k as int,
                    ).push(dependency.labels@[k as int]));
                }
                if dependency.labels[k] == requirement {
                    carries = true;
                }
            }
            assert(dependency.labels@.take(dependency.labels@.len() as int) =~= dependency.labels@);
            if carries {
                let other = node_id(schedule_name, dependency, i);
                let attrs = [("constraint", "false")];
                assert(attr_views(attrs@) =~= seq![("constraint"@, "false"@)]);
                match direction {
                    SystemDirection::Before => graph.add_edge(
                        system_node_id,
                        other.as_str(),
                        &attrs,
                    ),
                    SystemDirection::After => graph.add_edge(
                        other.as_str(),
                        system_node_id,
                        &attrs,
                    ),
                }
            }
            assert(graph@ =~= mid + requirement_edges(
                schedule_name@,
                system_node_id@,
                direction,
                requirement,
                other_systems@,
                order@,
                i + 1,
            ));
        }
        assert(graph@ =~= start + dependency_edges(
            schedule_name@,
            system_node_id@,
            direction,
            requirements@.take(r + 1),
            other_systems@,
            order@,
        ));
    }
    assert(requirements@.take(requirements@.len() as int) =~= requirements@);
}

/// The label of a system of the given kind.
fn system_label(system: &SystemContainer, kind: SystemKind) -> (label: String)
    requires
        is_pretty_printable(system.name@),
    ensures
        label@ == label_text(*system, kind),
{
    let short = pretty_name(system.name.as_str());
    let words = match kind {
        SystemKind::Parallel => {
            return short;
        },
        SystemKind::ExclusiveStart => "Exclusive at start",
        SystemKind::ExclusiveEnd => "Exclusive at end",
        SystemKind::ExclusiveBeforeCommands => "Exclusive before commands",
    };
    let mut label = String::new();
    label.append("<");
    label.append(html_escape(short.as_str()).as_str());
    label.append("<BR />");
    label.append(font_tag(words, "red", 11).as_str());
    label.append(">");
    proof {
        reveal_strlit("<");
        reveal_strlit(">");
        assert("<"@ =~= seq!['<']);
        assert(">"@ =~= seq!['>']);
    }
    assert(label@ =~= label_text(*system, kind));
    label
}

/// Writes the system at one place of the order, where the style shows it.
fn add_system_to_graph(
    graph: &mut DotGraph,
    schedule_name: &str,
    kind: SystemKind,
    systems: &Vec<SystemContainer>,
    order: &Vec<usize>,
    style: &ScheduleGraphStyle,
    place: usize,
)
    requires
        are_drawable(systems@, style),
        order@.len() == systems@.len(),
        forall|k: int| 0 <= k < order@.len() ==> (#[trigger] order@[k]) < systems@.len(),
        place < order@.len(),
    ensures
        final(graph)@ == old(graph)@ + system_text(
            schedule_name@,
            kind,
            systems@,
            order@,
            style,
            place as int,
        ),
{
    let ghost start = graph@;
    let system = &systems[order[place]];
    let shown = system.shown && match &style.system_filter {
        Some(filter) => filter.includes(0, system.name.as_str()),
        None => true,
    };
    if shown {
        assert(is_shown(systems@[order@[place as int] as int], style));
        let id = node_id(schedule_name, system, place);
        let label = system_label(system, kind);
        let tooltip = system_tooltip(system);
        let attrs = [("label", label.as_str()), ("tooltip", tooltip.as_str())];
        assert(attr_views(attrs@) =~= seq![
            ("label"@, label_text(*system, kind)),
            ("tooltip"@, tooltip_text(*system)),
        ]);
        graph.add_node(id.as_str(), &attrs);
        add_dependency_labels(
            graph,
            schedule_name,
            id.as_str(),
            SystemDirection::Before,
            &system.before,
            systems,
            order,
        );
        add_dependency_labels(
            graph,
            schedule_name,
            id.as_str(),
            SystemDirection::After,
            &system.after,
            systems,
            order,
        );
    }
    assert(graph@ =~= start + system_text(
        schedule_name@,
        kind,
        systems@,
        order@,
        style,
        place as int,
    ));
}

/// Writes the systems of one kind of a stage, in the order of their names.
pub fn add_systems_to_graph(
    graph: &mut DotGraph,
    schedule_name: &str,
    kind: SystemKind,
    systems: &Vec<SystemContainer>,
    style: &ScheduleGraphStyle,
)
    requires
        are_drawable(systems@, style),
    ensures
        final(graph)@ == old(graph)@ + kind_systems_text(schedule_name@, kind, systems@, style),
{
    let ghost start = graph@;
    let mut names: Vec<String> = Vec::new();
    for i in 0..systems.len()
        invariant
            names@.len() == i,
            forall|j: int| 0 <= j < i ==> (#[trigger] names@[j])@ == systems@[j].name@,
    {
        names.push(systems[i].name.clone());
    }
    assert(texts(names@) =~= system_names(systems@));
    let order = sorted_places(&names);
    assert(graph@ =~= start + Seq::<char>::empty());
    for i in 0..order.len()
        invariant
            are_drawable(systems@, style),
            order@ == system_order(systems@),
            order@.len() == systems@.len(),
            forall|k: int| 0 <= k < order@.len() ==> (#[trigger] order@[k]) < systems@.len(),
            graph@ == start + systems_text(
                schedule_name@,
                kind,
                systems@,
                order@,
                style,
                i as int,
            ),
    {
        add_system_to_graph(graph, schedule_name, kind, systems, &order, style, i);
        assert(graph@ =~= start + systems_text(
            schedule_name@,
            kind,
            systems@,
            order@,
            style,
            i + 1,
        ));
    }
}

/// Whether the systems of a stage can be drawn.
pub open spec fn is_stage_drawable(stage: SystemStage, style: &ScheduleGraphStyle) -> bool {
    &&& are_drawable(stage.exclusive_at_start@, style)
    &&& are_drawable(stage.exclusive_before_commands@, style)
    &&& are_drawable(stage.parallel@, style)
    &&& are_drawable(stage.exclusive_at_end@, style)
}

/// The cluster of a stage of systems before it is closed: its marker and
/// its systems, kind by kind.
pub open spec fn system_stage_text(
    schedule_name: Seq<char>,
    entry: StageEntry,
    stage: SystemStage,
    style: &ScheduleGraphStyle,
) -> Seq<char> {
    graph_header(
        "cluster_"@ + entry.quoted_name@,
        "subgraph"@,
        seq![
            ("style"@, "rounded"@),
            ("color"@, style.bgcolor_stage@),
            ("bgcolor"@, style.bgcolor_stage@),
            ("rankdir"@, "TD"@),
            ("label"@, entry.name@),
        ],
    ) + default_attributes(
        "node"@,
        seq![
            ("style"@, "filled"@),
            ("color"@, style.color_system@),
            ("bgcolor"@, style.color_system@),
        ],
    ) + node_statement(marker_id_text(schedule_name, entry.debug_name@), invisible_attributes())
        + kind_systems_text(
        schedule_name,
        SystemKind::ExclusiveStart,
        stage.exclusive_at_start@,
        style,
    ) + kind_systems_text(
        schedule_name,
        SystemKind::ExclusiveBeforeCommands,
        stage.exclusive_before_commands@,
        style,
    ) + kind_systems_text(schedule_name, SystemKind::Parallel, stage.parallel@, style)
        + kind_systems_text(
        schedule_name,
        SystemKind::ExclusiveEnd,
        stage.exclusive_at_end@,
        style,
    )
}

/// The cluster of a stage of systems.
pub fn system_stage_subgraph(
    schedule_name: &str,
    entry: &StageEntry,
    system_stage: &SystemStage,
    style: &ScheduleGraphStyle,
) -> (sub: DotGraph)
    requires
        is_stage_drawable(*system_stage, style),
    ensures
        sub@ == system_stage_text(schedule_name@, *entry, *system_stage, style),
{
    let mut name = String::new();
    name.append("cluster_");
    name.append(entry.quoted_name.as_str());
    let head = [
        ("style", "rounded"),
        ("color", style.bgcolor_stage.as_str()),
        ("bgcolor", style.bgcolor_stage.as_str()),
        ("rankdir", "TD"),
        ("label", entry.name.as_str()),
    ];
    assert(attr_views(head@) =~= seq![
        ("style"@, "rounded"@),
        ("color"@, style.bgcolor_stage@),
        ("bgcolor"@, style.bgcolor_stage@),
        ("rankdir"@, "TD"@),
        ("label"@, entry.name@),
    ]);
    let nodes = [
        ("style", "filled"),
        ("color", style.color_system.as_str()),
        ("bgcolor", style.color_system.as_str()),
    ];
    assert(attr_views(nodes@) =~= seq![
        ("style"@, "filled"@),
        ("color"@, style.color_system@),
        ("bgcolor"@, style.color_system@),
    ]);
    let mut sub = DotGraph::new(name.as_str(), "subgraph", &head).node_attributes(&nodes);
    sub.add_invisible_node(marker_id(schedule_name, entry.debug_name.as_str()).as_str());
    add_systems_to_graph(
        &mut sub,
        schedule_name,
        SystemKind::ExclusiveStart,
        &system_stage.exclusive_at_start,
        style,
    );
    add_systems_to_graph(
        &mut sub,
        schedule_name,
        SystemKind::ExclusiveBeforeCommands,
        &system_stage.exclusive_before_commands,
        style,
    );
    add_systems_to_graph(&mut sub, schedule_name, SystemKind::Parallel, &system_stage.parallel, style);
    add_systems_to_graph(
        &mut sub,
        schedule_name,
        SystemKind::ExclusiveEnd,
        &system_stage.exclusive_at_end,
        style,
    );
    assert(sub@ =~= system_stage_text(schedule_name@, *entry, *system_stage, style));
    sub
}

/// Whether the stage is left out of the chain of stages: it is the
/// schedule that runs at the start, and the style hides that.
pub open spec fn is_hidden(entry: StageEntry, style: &ScheduleGraphStyle) -> bool {
    style.hide_startup_schedule && entry.is_startup
}

/// The labels, as they are written, of the stages that are not hidden.
pub open spec fn chained_stages(stages: Seq<StageEntry>, style: &ScheduleGraphStyle) -> Seq<
    Seq<char>,
>
    decreases stages.len(),
{
    if stages.len() == 0 {
        Seq::empty()
    } else if is_hidden(stages.last(), style) {
        chained_stages(stages.drop_last(), style)
    } else {
        chained_stages(stages.drop_last(), style).push(stages.last().debug_name@)
    }
}

/// The edges that join the markers of the first `count` stages, each to
/// the next.
pub open spec fn marker_chain(schedule_name: Seq<char>, names: Seq<Seq<char>>, count: int) -> Seq<
    char,
>
    decreases count,
{
    if count <= 1 {
        Seq::empty()
    } else {
        marker_chain(schedule_name, names, count - 1) + edge_statement(
            marker_id_text(schedule_name, names[count - 2]),
            None,
            marker_id_text(schedule_name, names[count - 1]),
            None,
            Seq::empty(),
        )
    }
}

/// The opening of the cluster of a schedule inside a schedule.
pub open spec fn nested_header(entry: StageEntry, style: &ScheduleGraphStyle) -> Seq<char> {
    graph_header(
        "cluster_"@ + entry.debug_name@,
        "subgraph"@,
        seq![
            ("label"@, entry.debug_name@),
            ("fontsize"@, "20"@),
            ("constraint"@, "false"@),
            ("rankdir"@, "LR"@),
            ("style"@, "rounded"@),
            ("bgcolor"@, style.bgcolor_nested_schedule@),
        ],
    ) + default_attributes("edge"@, seq![("color"@, style.color_edge@)])
}

/// What stands inside the block of a schedule with the name
/// `schedule_name`: its marker, if it has one; its stages, each as a
/// cluster; and the chain of the markers of its stages.
pub open spec fn schedule_text(
    schedule: StagedSchedule,
    schedule_name: Seq<char>,
    marker: Option<Seq<char>>,
    style: &ScheduleGraphStyle,
) -> Seq<char>
    decreases schedule, 1nat, 0nat,
{
    (match marker {
        Some(id) => node_statement(id, invisible_attributes()),
        None => Seq::empty(),
    }) + stages_text(schedule, schedule_name, style, schedule.stages@.len()) + marker_chain(
        schedule_name,
        chained_stages(schedule.stages@, style),
        chained_stages(schedule.stages@, style).len() as int,
    )
}

/// The first `count` stages of a schedule as they are drawn.
pub open spec fn stages_text(
    schedule: StagedSchedule,
    schedule_name: Seq<char>,
    style: &ScheduleGraphStyle,
    count: nat,
) -> Seq<char>
    decreases schedule, 0nat, count,
{
    if count == 0 || count > schedule.stages@.len() {
        Seq::empty()
    } else {
        let entry = schedule.stages@[count - 1];
        stages_text(schedule, schedule_name, style, (count - 1) as nat) + match entry.stage {
            Stage::Systems(stage) => nested_block(
                system_stage_text(schedule_name, entry, stage, style),
            ),
            Stage::Nested(inner) => if is_hidden(entry, style) {
                Seq::empty()
            } else {
                nested_block(
                    nested_header(entry, style) + schedule_text(
                        inner,
                        "cluster_"@ + entry.debug_name@,
                        Some(marker_id_text(schedule_name, entry.debug_name@)),
                        style,
                    ),
                )
            },
            Stage::Other => Seq::empty(),
        }
    }
}

/// Whether the first `count` stages of a schedule can be drawn: the
/// systems of its stages can be, and so can the schedules inside it that
/// are not hidden.
pub open spec fn are_stages_drawable(
    schedule: StagedSchedule,
    style: &ScheduleGraphStyle,
    count: nat,
) -> bool
    decreases schedule, count,
{
    if count == 0 || count > schedule.stages@.len() {
        true
    } else {
        let entry = schedule.stages@[count - 1];
        are_stages_drawable(schedule, style, (count - 1) as nat) && match entry.stage {
            Stage::Systems(stage) => is_stage_drawable(stage, style),
            Stage::Nested(inner) => is_hidden(entry, style) || are_stages_drawable(
                inner,
                style,
                inner.stages@.len(),
            ),
            Stage::Other => true,
        }
    }
}

/// Whether a schedule can be drawn.
pub open spec fn is_schedule_drawable(schedule: StagedSchedule, style: &ScheduleGraphStyle) -> bool {
    are_stages_drawable(schedule, style, schedule.stages@.len())
}

/// Writes what stands inside the block of a schedule: its marker, its
/// stages, and the chain of the markers of its stages.
pub fn build_schedule_graph(
    graph: &mut DotGraph,
    schedule: &StagedSchedule,
    schedule_name: &str,
    marker_node_id: Option<&str>,
    style: &ScheduleGraphStyle,
)
    requires
        is_schedule_drawable(*schedule, style),
    ensures
        final(graph)@ == old(graph)@ + schedule_text(
            *schedule,
            schedule_name@,
            crate::dot::port_view(marker_node_id),
            style,
        ),
    decreases schedule,
{
    let ghost start = graph@;
    match marker_node_id {
        Some(id) => graph.add_invisible_node(id),
        None => {
            assert(graph@ =~= start + Seq::<char>::empty());
        },
    }
    let ghost mid = graph@;
    assert(graph@ =~= mid + Seq::<char>::empty());
    for i in 0..schedule.stages.len()
        invariant
            is_schedule_drawable(*schedule, style),
            are_stages_drawable(*schedule, style, i as nat),
            graph@ == mid + stages_text(*schedule, schedule_name@, style, i as nat),
    {
        let entry = &schedule.stages[i];
        proof {
            lemma_stages_drawable(*schedule, style, schedule.stages@.len(), (i + 1) as nat);
        }
        match &entry.stage {
            Stage::Systems(system_stage) => {
                let sub = system_stage_subgraph(schedule_name, entry, system_stage, style);
                graph.add_sub_graph(sub);
            },
            Stage::Nested(inner) => {
                if !(style.hide_startup_schedule && entry.is_startup) {
                    let mut name = String::new();
                    name.append("cluster_");
                    name.append(entry.debug_name.as_str());
                    let marker = marker_id(schedule_name, entry.debug_name.as_str());
                    let head = [
                        ("label", entry.debug_name.as_str()),
                        ("fontsize", "20"),
                        ("constraint", "false"),
                        ("rankdir", "LR"),
                        ("style", "rounded"),
                        ("bgcolor", style.bgcolor_nested_schedule.as_str()),
                    ];
                    assert(attr_views(head@) =~= seq![
                        ("label"@, entry.debug_name@),
                        ("fontsize"@, "20"@),
                        ("constraint"@, "false"@),
                        ("rankdir"@, "LR"@),
                        ("style"@, "rounded"@),
                        ("bgcolor"@, style.bgcolor_nested_schedule@),
                    ]);
                    let edges = [("color", style.color_edge.as_str())];
                    assert(attr_views(edges@) =~= seq![("color"@, style.color_edge@)]);
                    let mut sub = DotGraph::new(name.as_str(), "subgraph", &head).edge_attributes(
                        &edges,
                    );
                    assert(sub@ =~= nested_header(*entry, style));
                    build_schedule_graph(
                        &mut sub,
                        inner,
                        name.as_str(),
                        Some(marker.as_str()),
                        style,
                    );
                    graph.add_sub_graph(sub);
                }
            },
            Stage::Other => {},
        }
        assert(graph@ =~= mid + stages_text(*schedule, schedule_name@, style, (i + 1) as nat));
    }
    let ghost mid2 = graph@;
    let mut previous: Option<String> = None;
    let ghost mut names: Seq<Seq<char>> = Seq::empty();
    assert(graph@ =~= mid2 + Seq::<char>::empty());
    for i in 0..schedule.stages.len()
        invariant
            names == chained_stages(schedule.stages@.take(i as int), style),
            previous is Some == (names.len() > 0),
            previous is Some ==> previous->0@ == marker_id_text(schedule_name@, names.last()),
            graph@ == mid2 + marker_chain(schedule_name@, names, names.len() as int),
    {
        let entry = &schedule.stages[i];
        assert(schedule.stages@.take(i + 1).drop_last() =~= schedule.stages@.take(i as int));
        assert(schedule.stages@.take(i + 1).last() == *entry);
        if !(style.hide_startup_schedule && entry.is_startup) {
            let marker = marker_id(schedule_name, entry.debug_name.as_str());
            let ghost longer = names.push(entry.debug_name@);
            match &previous {
                Some(before) => {
                    let attrs: [(&str, &str); 0] = [];
                    assert(attr_views(attrs@) =~= Seq::<(Seq<char>, Seq<char>)>::empty());
                    graph.add_edge(before.as_str(), marker.as_str(), &attrs);
                    assert(longer[longer.len() - 2] == names.last());
                },
                None => {},
            }
            proof {
                assert(marker_chain(schedule_name@, longer, names.len() as int) =~= marker_chain(
                    schedule_name@,
                    names,
                    names.len() as int,
                )) by {
                    lemma_marker_chain_start(schedule_name@, names, longer, names.len() as int);
                }
                assert(graph@ =~= mid2 + marker_chain(schedule_name@, longer, longer.len() as int));
                names = longer;
            }
            previous = Some(marker);
        }
    }
    assert(schedule.stages@.take(schedule.stages@.len() as int) =~= schedule.stages@);
    assert(graph@ =~= start + schedule_text(
        *schedule,
        schedule_name@,
        crate::dot::port_view(marker_node_id),
        style,
    ));
}

proof fn lemma_marker_chain_start(
    schedule_name: Seq<char>,
    names: Seq<Seq<char>>,
    longer: Seq<Seq<char>>,
    count: int,
)
    requires
        names.is_prefix_of(longer),
        count <= names.len(),
    ensures
        marker_chain(schedule_name, longer, count) == marker_chain(schedule_name, names, count),
    decreases count,
{
    if count > 1 {
        lemma_marker_chain_start(schedule_name, names, longer, count - 1);
        assert(longer[count - 1] == names[count - 1]);
        assert(longer[count - 2] == names[count - 2]);
    }
}

proof fn lemma_stages_drawable(
    schedule: StagedSchedule,
    style: &ScheduleGraphStyle,
    count: nat,
    fewer: nat,
)
    requires
        are_stages_drawable(schedule, style, count),
        fewer <= count <= schedule.stages@.len(),
    ensures
        are_stages_drawable(schedule, style, fewer),
    decreases count,
{
    if fewer < count {
        lemma_stages_drawable(schedule, style, (count - 1) as nat, fewer);
    }
}

/// The drawing of a schedule of stages.
pub open spec fn document(schedule: StagedSchedule, style: &ScheduleGraphStyle) -> Seq<char> {
    graph_header(
        "schedule"@,
        "digraph"@,
        seq![
            ("fontsize"@, style.fontsize@),
            ("fontname"@, style.fontname@),
            ("rankdir"@, "LR"@),
            ("nodesep"@, "0.05"@),
            ("bgcolor"@, style.bgcolor@),
            ("compound"@, "true"@),
        ],
    ) + default_attributes(
        "node"@,
        seq![("shape"@, "box"@), ("margin"@, "0"@), ("height"@, "0.4"@)],
    ) + default_attributes("edge"@, seq![("color"@, style.color_edge@)]) + schedule_text(
        schedule,
        "schedule"@,
        None,
        style,
    ) + seq!['}', '\n']
}

/// Draws a schedule of stages in the given style: each stage as a cluster
/// of its systems, schedules inside it as clusters of their own, the
/// stages joined in their order.
pub fn schedule_graph_dot_styled(schedule: &StagedSchedule, style: &ScheduleGraphStyle) -> (text:
    String)
    requires
        is_schedule_drawable(*schedule, style),
    ensures
        text@ == document(*schedule, style),
{
    let head = [
        ("fontsize", style.fontsize.as_str()),
        ("fontname", style.fontname.as_str()),
        ("rankdir", "LR"),
        ("nodesep", "0.05"),
        ("bgcolor", style.bgcolor.as_str()),
        ("compound", "true"),
    ];
    assert(attr_views(head@) =~= seq![
        ("fontsize"@, style.fontsize@),
        ("fontname"@, style.fontname@),
        ("rankdir"@, "LR"@),
        ("nodesep"@, "0.05"@),
        ("bgcolor"@, style.bgcolor@),
        ("compound"@, "true"@),
    ]);
    let nodes = [("shape", "box"), ("margin", "0"), ("height", "0.4")];
    assert(attr_views(nodes@) =~= seq![("shape"@, "box"@), ("margin"@, "0"@), ("height"@, "0.4"@)]);
    let edges = [("color", style.color_edge.as_str())];
    assert(attr_views(edges@) =~= seq![("color"@, style.color_edge@)]);
    let mut graph = DotGraph::new("schedule", "digraph", &head).node_attributes(
        &nodes,
    ).edge_attributes(&edges);
    build_schedule_graph(&mut graph, schedule, "schedule", None, style);
    let text = graph.finish();
    assert(text@ =~= document(*schedule, style));
    text
}

/// Whether two styles are the same in all that a drawing shows.
pub open spec fn is_same_look(a: &ScheduleGraphStyle, b: &ScheduleGraphStyle) -> bool {
    &&& a.fontsize@ == b.fontsize@
    &&& a.fontname@ == b.fontname@
    &&& a.bgcolor@ == b.bgcolor@
    &&& a.bgcolor_nested_schedule@ == b.bgcolor_nested_schedule@
    &&& a.bgcolor_stage@ == b.bgcolor_stage@
    &&& a.color_system@ == b.color_system@
    &&& a.color_edge@ == b.color_edge@
    &&& a.hide_startup_schedule == b.hide_startup_schedule
    &&& a.system_filter == b.system_filter
}

proof fn lemma_same_systems(
    schedule_name: Seq<char>,
    kind: SystemKind,
    systems: Seq<SystemContainer>,
    order: Seq<usize>,
    a: &ScheduleGraphStyle,
    b: &ScheduleGraphStyle,
    count: int,
)
    requires
        is_same_look(a, b),
    ensures
        systems_text(schedule_name, kind, systems, order, a, count) == systems_text(
            schedule_name,
            kind,
            systems,
            order,
            b,
            count,
        ),
        are_drawable(systems, a) == are_drawable(systems, b),
    decreases count,
{
    if count > 0 {
        lemma_same_systems(schedule_name, kind, systems, order, a, b, count - 1);
    }
    assert forall|i: int| 0 <= i < systems.len() implies is_shown(#[trigger] systems[i], a)
        == is_shown(systems[i], b) by {}
}

proof fn lemma_same_stage(
    schedule_name: Seq<char>,
    entry: StageEntry,
    stage: SystemStage,
    a: &ScheduleGraphStyle,
    b: &ScheduleGraphStyle,
)
    requires
        is_same_look(a, b),
    ensures
        system_stage_text(schedule_name, entry, stage, a) == system_stage_text(
            schedule_name,
            entry,
            stage,
            b,
        ),
        is_stage_drawable(stage, a) == is_stage_drawable(stage, b),
{
    let first = stage.exclusive_at_start@;
    let second = stage.exclusive_before_commands@;
    let third = stage.parallel@;
    let last = stage.exclusive_at_end@;
    lemma_same_systems(
        schedule_name,
        SystemKind::ExclusiveStart,
        first,
        system_order(first),
        a,
        b,
        first.len() as int,
    );
    lemma_same_systems(
        schedule_name,
        SystemKind::ExclusiveBeforeCommands,
        second,
        system_order(second),
        a,
        b,
        second.len() as int,
    );
    lemma_same_systems(
        schedule_name,
        SystemKind::Parallel,
        third,
        system_order(third),
        a,
        b,
        third.len() as int,
    );
    lemma_same_systems(
        schedule_name,
        SystemKind::ExclusiveEnd,
        last,
        system_order(last),
        a,
        b,
        last.len() as int,
    );
}

proof fn lemma_same_chain(stages: Seq<StageEntry>, a: &ScheduleGraphStyle, b: &ScheduleGraphStyle)
    requires
        is_same_look(a, b),
    ensures
        chained_stages(stages, a) == chained_stages(stages, b),
    decreases stages.len(),
{
    if stages.len() > 0 {
        lemma_same_chain(stages.drop_last(), a, b);
    }
}

proof fn lemma_same_stages(
    schedule: StagedSchedule,
    schedule_name: Seq<char>,
    a: &ScheduleGraphStyle,
    b: &ScheduleGraphStyle,
    count: nat,
)
    requires
        is_same_look(a, b),
    ensures
        stages_text(schedule, schedule_name, a, count) == stages_text(
            schedule,
            schedule_name,
            b,
            count,
        ),
        are_stages_drawable(schedule, a, count) == are_stages_drawable(schedule, b, count),
    decreases schedule, count,
{
    if count > 0 && count <= schedule.stages@.len() {
        lemma_same_stages(schedule, schedule_name, a, b, (count - 1) as nat);
        let entry = schedule.stages@[count - 1];
        match entry.stage {
            Stage::Systems(stage) => {
                lemma_same_stage(schedule_name, entry, stage, a, b);
            },
            Stage::Nested(inner) => {
                let name = "cluster_"@ + entry.debug_name@;
                let marker = Some(marker_id_text(schedule_name, entry.debug_name@));
                lemma_same_stages(inner, name, a, b, inner.stages@.len());
                lemma_same_chain(inner.stages@, a, b);
                assert(schedule_text(inner, name, marker, a) == schedule_text(
                    inner,
                    name,
                    marker,
                    b,
                ));
                assert(nested_header(entry, a) == nested_header(entry, b));
                assert(is_hidden(entry, a) == is_hidden(entry, b));
            },
            Stage::Other => {},
        }
    }
}

/// Two styles that are the same in all that a drawing shows draw every
/// schedule alike, and the same schedules can be drawn in them.
pub proof fn lemma_same_look(
    schedule: StagedSchedule,
    a: &ScheduleGraphStyle,
    b: &ScheduleGraphStyle,
)
    requires
        is_same_look(a, b),
    ensures
        is_schedule_drawable(schedule, a) == is_schedule_drawable(schedule, b),
        document(schedule, a) == document(schedule, b),
{
    lemma_same_stages(schedule, "schedule"@, a, b, schedule.stages@.len());
    lemma_same_chain(schedule.stages@, a, b);
}

/// Whether a style is the dark one.
pub open spec fn is_dark(style: &ScheduleGraphStyle) -> bool {
    style.is_theme("#35393F"@, "#D0E1ED"@, "#99aab5"@, "#eff1f3"@, "white"@)
}

/// Draws a schedule of stages in the dark style.
pub fn schedule_graph_dot(schedule: &StagedSchedule) -> (text: String)
    requires
        forall|style: &ScheduleGraphStyle| #[trigger]
            is_dark(style) ==> is_schedule_drawable(*schedule, style),
    ensures
        forall|style: &ScheduleGraphStyle| #[trigger]
            is_dark(style) ==> text@ == document(*schedule, style),
{
    let dark = ScheduleGraphStyle::default();
    assert(is_dark(&dark));
    let text = schedule_graph_dot_styled(schedule, &dark);
    assert forall|style: &ScheduleGraphStyle| #[trigger] is_dark(style) implies text@ == document(
        *schedule,
        style,
    ) by {
        lemma_same_look(*schedule, &dark, style);
    }
    text
}

/// Draws a schedule of stages in the dark style, where it can be drawn.
pub fn try_schedule_graph_dot(schedule: &StagedSchedule) -> (text: Option<String>)
    ensures
        forall|style: &ScheduleGraphStyle| #[trigger]
            is_dark(style) ==> text is Some == is_schedule_drawable(*schedule, style),
        forall|style: &ScheduleGraphStyle| #[trigger]
            is_dark(style) && text is Some ==> text->0@ == document(*schedule, style),
{
    let dark = ScheduleGraphStyle::default();
    assert(is_dark(&dark));
    let ok = check_schedule_drawable(schedule, &dark);
    assert forall|style: &ScheduleGraphStyle| #[trigger] is_dark(style) implies ok
        == is_schedule_drawable(*schedule, style) by {
        lemma_same_look(*schedule, &dark, style);
    }
    if ok {
        Some(schedule_graph_dot(schedule))
    } else {
        None
    }
}

fn check_printable(names: &Vec<String>) -> (ok: bool)
    ensures
        ok == are_printable(names@),
{
    for i in 0..names.len()
        invariant
            forall|j: int| 0 <= j < i ==> is_pretty_printable(#[trigger] names@[j]@),
    {
        if !crate::names::check_pretty_printable(names[i].as_str()) {
            return false;
        }
    }
    true
}

fn check_carried(systems: &Vec<SystemContainer>, labels: &Vec<u64>) -> (ok: bool)
    ensures
        ok == forall|k: int| 0 <= k < labels@.len() ==> is_carried(systems@, #[trigger] labels@[k]),
{
    for k in 0..labels.len()
        invariant
            forall|j: int| 0 <= j < k ==> is_carried(systems@, #[trigger] labels@[j]),
    {
        let label = labels[k];
        let mut found = false;
        for i in 0..systems.len()
            invariant
                found ==> is_carried(systems@, label),
                !found ==> forall|j: int|
                    0 <= j < i ==> !(#[trigger] systems@[j]).labels@.contains(label),
        {
            let carried = &systems[i].labels;
            let mut here = false;
            for m in 0..carried.len()
                invariant
                    here == carried@.take(m as int).contains(label),
            {
                proof {
                    crate::sequences::lemma_push_membership(
                        carried@.take(m as int),
                        carried@[m as int],
                    );
                    assert(carried@.take(m + 1) =~= carried@.take(m as int).push(
                        carried@[m as int],
                    ));
                }
                if carried[m] == label {
                    here = true;
                }
            }
            assert(carried@.take(carried@.len() as int) =~= carried@);
            if here {
                found = true;
            }
        }
        if !found {
            assert(!is_carried(systems@, labels@[k as int]));
            return false;
        }
    }
    true
}

/// Whether the systems of one kind can be drawn.
pub fn check_drawable(systems: &Vec<SystemContainer>, style: &ScheduleGraphStyle) -> (ok: bool)
    ensures
        ok == are_drawable(systems@, style),
{
    for i in 0..systems.len()
        invariant
            forall|j: int|
                0 <= j < i && is_shown(#[trigger] systems@[j], style) ==> is_system_drawable(
                    systems@[j],
                ) && (forall|k: int|
                    0 <= k < systems@[j].before@.len() ==> is_carried(
                        systems@,
                        #[trigger] systems@[j].before@[k],
                    )) && (forall|k: int|
                    0 <= k < systems@[j].after@.len() ==> is_carried(
                        systems@,
                        #[trigger] systems@[j].after@[k],
                    )),
    {
        let system = &systems[i];
        let shown = system.shown && match &style.system_filter {
            Some(filter) => filter.includes(0, system.name.as_str()),
            None => true,
        };
        if shown {
            let ok = crate::names::check_pretty_printable(system.name.as_str())
                && check_printable(&system.component_reads) && check_printable(
                &system.component_writes,
            ) && check_printable(&system.resource_reads) && check_printable(
                &system.resource_writes,
            ) && check_carried(systems, &system.before) && check_carried(systems, &system.after);
            if !ok {
                assert(is_shown(systems@[i as int], style));
                return false;
            }
        }
    }
    true
}

/// Whether a schedule can be drawn.
pub fn check_schedule_drawable(schedule: &StagedSchedule, style: &ScheduleGraphStyle) -> (ok: bool)
    ensures
        ok == is_schedule_drawable(*schedule, style),
    decreases schedule,
{
    for i in 0..schedule.stages.len()
        invariant
            are_stages_drawable(*schedule, style, i as nat),
    {
        let entry = &schedule.stages[i];
        let ok = match &entry.stage {
            Stage::Systems(stage) => check_drawable(&stage.exclusive_at_start, style)
                && check_drawable(&stage.exclusive_before_commands, style) && check_drawable(
                &stage.parallel,
                style,
            ) && check_drawable(&stage.exclusive_at_end, style),
            Stage::Nested(inner) => (style.hide_startup_schedule && entry.is_startup)
                || check_schedule_drawable(inner, style),
            Stage::Other => true,
        };
        if !ok {
            proof {
                assert(!are_stages_drawable(*schedule, style, (i + 1) as nat));
                if is_schedule_drawable(*schedule, style) {
                    lemma_stages_drawable(
                        *schedule,
                        style,
                        schedule.stages@.len(),
                        (i + 1) as nat,
                    );
                }
            }
            return false;
        }
    }
    true
}

} // verus!
